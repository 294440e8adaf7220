use std::sync::Arc;
use vstd::prelude::*;

verus! {

/// Identifies an item class: application id, class id and an optional instance id.
#[derive(Clone, Copy, Debug, PartialEq, Eq, Hash)]
pub struct ClassKey {
    pub appid: u32,
    pub classid: u64,
    pub instanceid: Option<u64>,
}

impl ClassKey {
    pub fn new(appid: u32, classid: u64, instanceid: Option<u64>) -> (r: ClassKey)
        ensures
            r == (ClassKey { appid, classid, instanceid }),
    {
        ClassKey { appid, classid, instanceid }
    }

    /// Field-wise equality of two keys.
    pub fn same(&self, other: &ClassKey) -> (r: bool)
        ensures
            r == (*self == *other),
    {
        let same_instance = match (self.instanceid, other.instanceid) {
            (Some(a), Some(b)) => a == b,
            (None, None) => true,
            _ => false,
        };
        self.appid == other.appid && self.classid == other.classid && same_instance
    }
}

/// Immutable descriptive metadata of an item class.
#[derive(Debug)]
pub struct ClassInfo {
    pub name: String,
    pub market_hash_name: String,
    pub tradable: bool,
    pub marketable: bool,
}

/// Relies on `Arc::clone`: the new handle refers to the same value.
#[verifier::external_body]
pub(crate) fn share(a: &Arc<ClassInfo>) -> (r: Arc<ClassInfo>)
    ensures
        r == *a,
{
    Arc::clone(a)
}

} // verus!
