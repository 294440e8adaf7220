use std::sync::Arc;
use vstd::prelude::*;
use crate::classinfo_map::ClassInfoMap;
use crate::types::{ClassInfo, ClassKey};

verus! {

/// The in-memory tier: class metadata resolved during this process. It only
/// grows; callers that want to share it hand the same instance around.
pub struct ClassInfoCache {
    classinfos: ClassInfoMap,
}

impl View for ClassInfoCache {
    type V = Map<ClassKey, Arc<ClassInfo>>;

    closed spec fn view(&self) -> Map<ClassKey, Arc<ClassInfo>> {
        self.classinfos@
    }
}

impl ClassInfoCache {
    pub closed spec fn wf(&self) -> bool {
        self.classinfos.wf()
    }

    pub fn new() -> (r: ClassInfoCache)
        ensures
            r.wf(),
            r@ == Map::<ClassKey, Arc<ClassInfo>>::empty(),
    {
        ClassInfoCache { classinfos: ClassInfoMap::new() }
    }

    pub fn get(&self, key: &ClassKey) -> (r: Option<Arc<ClassInfo>>)
        requires
            self.wf(),
        ensures
            r == (if self@.contains_key(*key) {
                Some(self@[*key])
            } else {
                None
            }),
    {
        self.classinfos.get(key)
    }

    pub fn insert(&mut self, key: ClassKey, classinfo: Arc<ClassInfo>)
        requires
            old(self).wf(),
        ensures
            final(self).wf(),
            final(self)@ == old(self)@.insert(key, classinfo),
    {
        self.classinfos.insert(key, classinfo);
    }

    pub fn len(&self) -> (r: usize)
        requires
            self.wf(),
        ensures
            r == self@.len(),
    {
        self.classinfos.len()
    }
}

} // verus!
