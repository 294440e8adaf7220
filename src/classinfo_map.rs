use std::sync::Arc;
use vstd::prelude::*;
use crate::types::{share, ClassInfo, ClassKey};

verus! {

/// A mapping from class keys to shared class metadata, kept as a list of
/// entries with pairwise distinct keys.
pub struct ClassInfoMap {
    entries: Vec<(ClassKey, Arc<ClassInfo>)>,
    contents: Ghost<Map<ClassKey, Arc<ClassInfo>>>,
}

impl View for ClassInfoMap {
    type V = Map<ClassKey, Arc<ClassInfo>>;

    closed spec fn view(&self) -> Map<ClassKey, Arc<ClassInfo>> {
        self.contents@
    }
}

impl ClassInfoMap {
    /// Entries have distinct keys and describe exactly the mapping.
    pub closed spec fn wf(&self) -> bool {
        &&& forall|i: int, j: int|
            0 <= i < j < self.entries@.len() ==> self.entries@[i].0 != self.entries@[j].0
        &&& forall|i: int|
            0 <= i < self.entries@.len() ==> #[trigger] self.contents@.contains_key(
                self.entries@[i].0,
            ) && self.contents@[self.entries@[i].0] == self.entries@[i].1
        &&& forall|k: ClassKey|
            #[trigger] self.contents@.contains_key(k) ==> exists|i: int|
                0 <= i < self.entries@.len() && self.entries@[i].0 == k
    }

    pub fn new() -> (r: ClassInfoMap)
        ensures
            r.wf(),
            r@ == Map::<ClassKey, Arc<ClassInfo>>::empty(),
    {
        ClassInfoMap { entries: Vec::new(), contents: Ghost(Map::empty()) }
    }

    pub fn len(&self) -> (r: usize)
        requires
            self.wf(),
        ensures
            r == self@.len(),
    {
        proof {
            self.lemma_len();
        }
        self.entries.len()
    }

    proof fn lemma_len(&self)
        requires
            self.wf(),
        ensures
            self@.len() == self.entries@.len(),
            self@.dom().finite(),
        decreases self.entries@.len(),
    {
        let keys = self.entries@.map_values(|e: (ClassKey, Arc<ClassInfo>)| e.0);
        assert(keys.no_duplicates());
        keys.unique_seq_to_set();
        assert(self@.dom() =~= keys.to_set()) by {
            assert forall|k: ClassKey| self@.dom().contains(k) implies keys.to_set().contains(k) by {
                let i = choose|i: int| 0 <= i < self.entries@.len() && self.entries@[i].0 == k;
                assert(keys[i] == k);
            }
            assert forall|k: ClassKey| keys.to_set().contains(k) implies self@.dom().contains(k) by {
                let i = choose|i: int| 0 <= i < keys.len() && keys[i] == k;
                assert(self@.contains_key(self.entries@[i].0));
            }
        }
    }

    /// The mapping is finite.
    pub proof fn lemma_finite(&self)
        requires
            self.wf(),
        ensures
            self@.dom().finite(),
    {
        self.lemma_len();
    }

    fn position(&self, key: &ClassKey) -> (r: Option<usize>)
        requires
            self.wf(),
        ensures
            match r {
                Some(i) => i < self.entries@.len() && self.entries@[i as int].0 == *key,
                None => !self@.contains_key(*key),
            },
    {
        let mut i: usize = 0;
        while i < self.entries.len()
            invariant
                self.wf(),
                i <= self.entries@.len(),
                forall|j: int| 0 <= j < i ==> self.entries@[j].0 != *key,
            decreases self.entries@.len() - i,
        {
            if self.entries[i].0.same(key) {
                return Some(i);
            }
            i = i + 1;
        }
        None
    }

    pub fn contains(&self, key: &ClassKey) -> (r: bool)
        requires
            self.wf(),
        ensures
            r == self@.contains_key(*key),
    {
        match self.position(key) {
            Some(i) => {
                assert(self@.contains_key(self.entries@[i as int].0));
                true
            },
            None => false,
        }
    }

    /// Looks a key up, handing out a shared reference to its metadata.
    pub fn get(&self, key: &ClassKey) -> (r: Option<Arc<ClassInfo>>)
        requires
            self.wf(),
        ensures
            r == (if self@.contains_key(*key) {
                Some(self@[*key])
            } else {
                None
            }),
    {
        match self.position(key) {
            Some(i) => {
                assert(self@.contains_key(self.entries@[i as int].0));
                Some(share(&self.entries[i].1))
            },
            None => None,
        }
    }

    /// Inserts or replaces the metadata of a key.
    pub fn insert(&mut self, key: ClassKey, classinfo: Arc<ClassInfo>)
        requires
            old(self).wf(),
        ensures
            final(self).wf(),
            final(self)@ == old(self)@.insert(key, classinfo),
    {
        let ghost before = self.entries@;
        match self.position(&key) {
            Some(i) => {
                self.entries.set(i, (key, classinfo));
                self.contents = Ghost(self.contents@.insert(key, classinfo));
                assert forall|k: ClassKey| #[trigger] self.contents@.contains_key(k) implies exists|
                    j: int,
                |
                    0 <= j < self.entries@.len() && self.entries@[j].0 == k by {
                    if k != key {
                        let j = choose|j: int| 0 <= j < before.len() && before[j].0 == k;
                        assert(self.entries@[j].0 == k);
                    } else {
                        assert(self.entries@[i as int].0 == k);
                    }
                }
            },
            None => {
                self.entries.push((key, classinfo));
                self.contents = Ghost(self.contents@.insert(key, classinfo));
                assert forall|k: ClassKey| #[trigger] self.contents@.contains_key(k) implies exists|
                    j: int,
                |
                    0 <= j < self.entries@.len() && self.entries@[j].0 == k by {
                    if k != key {
                        let j = choose|j: int| 0 <= j < before.len() && before[j].0 == k;
                        assert(self.entries@[j].0 == k);
                    } else {
                        assert(self.entries@[before.len() as int].0 == k);
                    }
                }
            },
        }
    }
}

} // verus!
