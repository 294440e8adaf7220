use std::sync::Arc;
use vstd::prelude::*;
use crate::classinfo_cache::ClassInfoCache;
use crate::classinfo_map::ClassInfoMap;
use crate::error::Error;
use crate::types::{share, ClassInfo, ClassKey};

verus! {

/// The largest number of classes one remote request may ask for.
pub const BATCH_SIZE: usize = 100;

/// One outcome of a lookup in the disk or remote tier: `None` where the record
/// was missing or could not be read.
pub type TierEntry = (ClassKey, Option<Arc<ClassInfo>>);

/// The set of keys listed in a sequence.
pub open spec fn key_set(s: Seq<ClassKey>) -> Set<ClassKey> {
    Set::new(|k: ClassKey| s.contains(k))
}

/// The abstract state of one resolution: the keys asked for, the metadata
/// found so far, and whether a remote request failed.
pub ghost struct ResolutionView {
    pub requested: Set<ClassKey>,
    pub found: Map<ClassKey, Arc<ClassInfo>>,
    pub remote_failed: bool,
}

impl ResolutionView {
    /// Keys that no tier has resolved yet.
    pub open spec fn needed(self) -> Set<ClassKey> {
        self.requested.difference(self.found.dom())
    }
}

/// The state after the memory pass over `cache`.
pub open spec fn start_view(cache: Map<ClassKey, Arc<ClassInfo>>, keys: Seq<ClassKey>) -> ResolutionView {
    ResolutionView {
        requested: key_set(keys),
        found: cache.restrict(key_set(keys)),
        remote_failed: false,
    }
}

/// One tier outcome taken in: a readable record for a key still needed goes
/// into the result and into the memory cache; anything else is dropped.
pub open spec fn absorb_entry(
    v: ResolutionView,
    cache: Map<ClassKey, Arc<ClassInfo>>,
    e: TierEntry,
) -> (ResolutionView, Map<ClassKey, Arc<ClassInfo>>) {
    if e.1 is Some && v.needed().contains(e.0) {
        (
            ResolutionView {
                requested: v.requested,
                found: v.found.insert(e.0, e.1->0),
                remote_failed: v.remote_failed,
            },
            cache.insert(e.0, e.1->0),
        )
    } else {
        (v, cache)
    }
}

/// A list of tier outcomes taken in, in order.
pub open spec fn absorb_entries(
    v: ResolutionView,
    cache: Map<ClassKey, Arc<ClassInfo>>,
    s: Seq<TierEntry>,
) -> (ResolutionView, Map<ClassKey, Arc<ClassInfo>>)
    decreases s.len(),
{
    if s.len() == 0 {
        (v, cache)
    } else {
        let p = absorb_entries(v, cache, s.drop_last());
        absorb_entry(p.0, p.1, s.last())
    }
}

/// A remote batch taken in: its records, or the mark of a failed request.
pub open spec fn absorb_remote_outcome(
    v: ResolutionView,
    cache: Map<ClassKey, Arc<ClassInfo>>,
    fetched: Option<Seq<TierEntry>>,
) -> (ResolutionView, Map<ClassKey, Arc<ClassInfo>>) {
    match fetched {
        Some(s) => absorb_entries(v, cache, s),
        None => (
            ResolutionView { requested: v.requested, found: v.found, remote_failed: true },
            cache,
        ),
    }
}

/// What a finished resolution returns: the metadata found, unless keys were
/// asked for and none of them could be resolved.
pub open spec fn outcome(v: ResolutionView) -> Result<Map<ClassKey, Arc<ClassInfo>>, Error> {
    if v.requested != Set::<ClassKey>::empty() && v.found.dom() == Set::<ClassKey>::empty() {
        if v.remote_failed {
            Err(Error::Remote)
        } else {
            Err(Error::Parse)
        }
    } else {
        Ok(v.found)
    }
}

/// A resolution of a set of class keys through the memory, disk and remote
/// tiers, in that order. The caller performs the disk and remote reads and
/// hands their outcomes in.
pub struct Resolution {
    keys: Vec<ClassKey>,
    found: ClassInfoMap,
    remote_failed: bool,
}

impl View for Resolution {
    type V = ResolutionView;

    closed spec fn view(&self) -> ResolutionView {
        ResolutionView {
            requested: key_set(self.keys@),
            found: self.found@,
            remote_failed: self.remote_failed,
        }
    }
}

/// A batch of `appid` that has room left, if any.
fn open_batch(batches: &Vec<Vec<ClassKey>>, appid: u32) -> (r: Option<usize>)
    requires
        forall|b: int| 0 <= b < batches@.len() ==> 0 < (#[trigger] batches@[b])@.len(),
    ensures
        match r {
            Some(t) => t < batches@.len() && batches@[t as int]@[0].appid == appid
                && batches@[t as int]@.len() < BATCH_SIZE,
            None => true,
        },
{
    let mut t: usize = 0;
    while t < batches.len()
        invariant
            t <= batches@.len(),
            forall|b: int| 0 <= b < batches@.len() ==> 0 < (#[trigger] batches@[b])@.len(),
        decreases batches@.len() - t,
    {
        if batches[t][0].appid == appid && batches[t].len() < BATCH_SIZE {
            return Some(t);
        }
        t = t + 1;
    }
    None
}

/// Listing one more key adds it to the set of listed keys.
pub proof fn lemma_key_set_push(s: Seq<ClassKey>, x: ClassKey)
    ensures
        key_set(s.push(x)) == key_set(s).insert(x),
{
    assert forall|k: ClassKey| key_set(s.push(x)).contains(k) implies key_set(s).insert(x).contains(k) by {
        let j = choose|j: int| 0 <= j < s.push(x).len() && s.push(x)[j] == k;
        if j < s.len() {
            assert(s[j] == k);
        }
    }
    assert forall|k: ClassKey| key_set(s).insert(x).contains(k) implies key_set(s.push(x)).contains(k) by {
        if k == x {
            assert(s.push(x)[s.len() as int] == k);
        } else {
            let j = choose|j: int| 0 <= j < s.len() && s[j] == k;
            assert(s.push(x)[j] == k);
        }
    }
    assert(key_set(s.push(x)) =~= key_set(s).insert(x));
}

/// Whether `key` occurs in `keys`.
pub fn contains_key(keys: &Vec<ClassKey>, key: &ClassKey) -> (r: bool)
    ensures
        r == keys@.contains(*key),
{
    let mut i: usize = 0;
    while i < keys.len()
        invariant
            i <= keys@.len(),
            forall|j: int| 0 <= j < i ==> keys@[j] != *key,
        decreases keys@.len() - i,
    {
        if keys[i].same(key) {
            return true;
        }
        i = i + 1;
    }
    false
}

impl Resolution {
    pub closed spec fn wf(&self) -> bool {
        &&& self.found.wf()
        &&& self.found@.dom().subset_of(key_set(self.keys@))
    }

    /// Starts a resolution of `keys`, taking from the memory cache what it holds.
    pub fn start(cache: &ClassInfoCache, keys: &Vec<ClassKey>) -> (r: Resolution)
        requires
            cache.wf(),
        ensures
            r.wf(),
            r@ == start_view(cache@, keys@),
    {
        let mut found = ClassInfoMap::new();
        let mut i: usize = 0;
        while i < keys.len()
            invariant
                cache.wf(),
                found.wf(),
                i <= keys@.len(),
                found@ == cache@.restrict(key_set(keys@.take(i as int))),
            decreases keys@.len() - i,
        {
            let key = keys[i];
            proof {
                assert(keys@.take(i + 1) =~= keys@.take(i as int).push(key));
                lemma_key_set_push(keys@.take(i as int), key);
            }
            match cache.get(&key) {
                Some(classinfo) => {
                    found.insert(key, classinfo);
                },
                None => {},
            }
            assert(found@ =~= cache@.restrict(key_set(keys@.take(i + 1))));
            i = i + 1;
        }
        assert(keys@.take(keys@.len() as int) =~= keys@);
        let r = Resolution { keys: keys.clone(), found, remote_failed: false };
        r
    }

    /// True when `key` was asked for and is not resolved yet.
    fn is_needed(&self, key: &ClassKey) -> (r: bool)
        requires
            self.wf(),
        ensures
            r == self@.needed().contains(*key),
    {
        contains_key(&self.keys, key) && !self.found.contains(key)
    }

    /// The keys still unresolved, each once.
    pub fn needed(&self) -> (r: Vec<ClassKey>)
        requires
            self.wf(),
        ensures
            key_set(r@) == self@.needed(),
            r@.no_duplicates(),
    {
        let mut r: Vec<ClassKey> = Vec::new();
        let mut i: usize = 0;
        while i < self.keys.len()
            invariant
                self.wf(),
                i <= self.keys@.len(),
                r@.no_duplicates(),
                key_set(r@) == key_set(self.keys@.take(i as int)).difference(self.found@.dom()),
            decreases self.keys@.len() - i,
        {
            let key = self.keys[i];
            proof {
                assert(self.keys@.take(i + 1) =~= self.keys@.take(i as int).push(key));
                lemma_key_set_push(self.keys@.take(i as int), key);
                lemma_key_set_push(r@, key);
            }
            if !self.found.contains(&key) && !contains_key(&r, &key) {
                r.push(key);
            }
            assert(key_set(r@) =~= key_set(self.keys@.take(i + 1)).difference(self.found@.dom()));
            i = i + 1;
        }
        assert(self.keys@.take(self.keys@.len() as int) =~= self.keys@);
        r
    }

    fn absorb_entries(&mut self, cache: &mut ClassInfoCache, entries: &Vec<TierEntry>)
        requires
            old(self).wf(),
            old(cache).wf(),
        ensures
            final(self).wf(),
            final(cache).wf(),
            (final(self)@, final(cache)@) == absorb_entries(old(self)@, old(cache)@, entries@),
    {
        let mut i: usize = 0;
        while i < entries.len()
            invariant
                self.wf(),
                cache.wf(),
                i <= entries@.len(),
                (self@, cache@) == absorb_entries(old(self)@, old(cache)@, entries@.take(i as int)),
            decreases entries@.len() - i,
        {
            let entry = &entries[i];
            proof {
                assert(entries@.take(i + 1).drop_last() =~= entries@.take(i as int));
            }
            match &entry.1 {
                Some(classinfo) => {
                    if self.is_needed(&entry.0) {
                        self.found.insert(entry.0, share(classinfo));
                        cache.insert(entry.0, share(classinfo));
                    }
                },
                None => {},
            }
            assert(self@.found =~= absorb_entries(old(self)@, old(cache)@, entries@.take(i + 1)).0.found);
            i = i + 1;
        }
        assert(entries@.take(entries@.len() as int) =~= entries@);
    }

    /// The needed keys arranged into remote requests: each batch holds keys of
    /// one application only, at most `BATCH_SIZE` of them, and every needed
    /// key stands in exactly one batch.
    pub fn remote_batches(&self) -> (r: Vec<Vec<ClassKey>>)
        requires
            self.wf(),
        ensures
            forall|b: int| 0 <= b < r@.len() ==> 0 < (#[trigger] r@[b])@.len() <= BATCH_SIZE,
            forall|b: int, j: int|
                0 <= b < r@.len() && 0 <= j < r@[b]@.len() ==> (#[trigger] r@[b]@[j]).appid
                    == r@[b]@[0].appid,
            forall|k: ClassKey|
                self@.needed().contains(k) <==> exists|b: int, j: int|
                    0 <= b < r@.len() && 0 <= j < r@[b]@.len() && #[trigger] r@[b]@[j] == k,
            forall|b1: int, j1: int, b2: int, j2: int|
                0 <= b1 < r@.len() && 0 <= j1 < r@[b1]@.len() && 0 <= b2 < r@.len() && 0 <= j2
                    < r@[b2]@.len() && #[trigger] r@[b1]@[j1] == #[trigger] r@[b2]@[j2] ==> b1 == b2
                    && j1 == j2,
    {
        let needed = self.needed();
        let mut batches: Vec<Vec<ClassKey>> = Vec::new();
        let mut i: usize = 0;
        while i < needed.len()
            invariant
                i <= needed@.len(),
                needed@.no_duplicates(),
                forall|b: int| 0 <= b < batches@.len() ==> 0 < (#[trigger] batches@[b])@.len() <= BATCH_SIZE,
                forall|b: int, j: int|
                    0 <= b < batches@.len() && 0 <= j < batches@[b]@.len() ==> (#[trigger] batches@[b]@[j]).appid
                        == batches@[b]@[0].appid,
                forall|k: ClassKey|
                    needed@.take(i as int).contains(k) <==> exists|b: int, j: int|
                        0 <= b < batches@.len() && 0 <= j < batches@[b]@.len() && #[trigger] batches@[b]@[j] == k,
                forall|b1: int, j1: int, b2: int, j2: int|
                    0 <= b1 < batches@.len() && 0 <= j1 < batches@[b1]@.len() && 0 <= b2 < batches@.len() && 0 <= j2
                        < batches@[b2]@.len() && #[trigger] batches@[b1]@[j1] == #[trigger] batches@[b2]@[j2] ==> b1 == b2
                        && j1 == j2,
            decreases needed@.len() - i,
        {
            let key = needed[i];
            let ghost old_batches = batches@;
            proof {
                assert(needed@.take(i + 1) =~= needed@.take(i as int).push(key));
                assert(!needed@.take(i as int).contains(key)) by {
                    if needed@.take(i as int).contains(key) {
                        let j = choose|j: int| 0 <= j < i && needed@.take(i as int)[j] == key;
                        assert(needed@[j] == needed@[i as int]);
                    }
                }
            }
            let target = open_batch(&batches, key.appid);
            if let Some(target) = target {
                batches[target].push(key);
                proof {
                    assert forall|k: ClassKey|
                        #[trigger] needed@.take(i + 1).contains(k) implies exists|b: int, j: int|
                            0 <= b < batches@.len() && 0 <= j < batches@[b]@.len() && #[trigger] batches@[b]@[j] == k by {
                        if k == key {
                            assert(batches@[target as int]@[old_batches[target as int]@.len() as int] == k);
                        } else {
                            assert(needed@.take(i as int).contains(k));
                            let (b, j) = choose|b: int, j: int|
                                0 <= b < old_batches.len() && 0 <= j < old_batches[b]@.len() && old_batches[b]@[j] == k;
                            assert(batches@[b]@[j] == k);
                        }
                    }
                    assert forall|b: int, j: int| 0 <= b < batches@.len() && 0 <= j < batches@[b]@.len()
                        implies needed@.take(i + 1).contains(#[trigger] batches@[b]@[j]) by {
                        let k = batches@[b]@[j];
                        if b != target || j < old_batches[b]@.len() {
                            assert(old_batches[b]@[j] == k);
                            assert(needed@.take(i as int).contains(k));
                        } else {
                            assert(needed@.take(i + 1)[i as int] == k);
                        }
                    }
                }
            } else {
                batches.push(vec![key]);
                proof {
                    assert forall|k: ClassKey|
                        #[trigger] needed@.take(i + 1).contains(k) implies exists|b: int, j: int|
                            0 <= b < batches@.len() && 0 <= j < batches@[b]@.len() && #[trigger] batches@[b]@[j] == k by {
                        if k == key {
                            assert(batches@[old_batches.len() as int]@[0] == k);
                        } else {
                            assert(needed@.take(i as int).contains(k));
                            let (b, j) = choose|b: int, j: int|
                                0 <= b < old_batches.len() && 0 <= j < old_batches[b]@.len() && old_batches[b]@[j] == k;
                            assert(batches@[b]@[j] == k);
                        }
                    }
                    assert forall|b: int, j: int| 0 <= b < batches@.len() && 0 <= j < batches@[b]@.len()
                        implies needed@.take(i + 1).contains(#[trigger] batches@[b]@[j]) by {
                        let k = batches@[b]@[j];
                        if b < old_batches.len() {
                            assert(old_batches[b]@[j] == k);
                            assert(needed@.take(i as int).contains(k));
                        } else {
                            assert(needed@.take(i + 1)[i as int] == k);
                        }
                    }
                }
            }
            i = i + 1;
        }
        proof {
            assert(needed@.take(needed@.len() as int) =~= needed@);
            assert forall|k: ClassKey| self@.needed().contains(k) <==> needed@.contains(k) by {
                assert(key_set(needed@).contains(k) == needed@.contains(k));
            }
        }
        batches
    }

    /// Takes in what the disk tier read for the needed keys.
    pub fn absorb_disk(&mut self, cache: &mut ClassInfoCache, loaded: &Vec<TierEntry>)
        requires
            old(self).wf(),
            old(cache).wf(),
        ensures
            final(self).wf(),
            final(cache).wf(),
            (final(self)@, final(cache)@) == absorb_entries(old(self)@, old(cache)@, loaded@),
    {
        self.absorb_entries(cache, loaded);
    }

    /// Takes in the outcome of one remote batch: its records, where each
    /// record that could not be read is `None` and is dropped, or `None`
    /// where the request failed.
    pub fn absorb_remote(&mut self, cache: &mut ClassInfoCache, fetched: &Option<Vec<TierEntry>>)
        requires
            old(self).wf(),
            old(cache).wf(),
        ensures
            final(self).wf(),
            final(cache).wf(),
            (final(self)@, final(cache)@) == absorb_remote_outcome(
                old(self)@,
                old(cache)@,
                match fetched {
                    Some(v) => Some(v@),
                    None => None,
                },
            ),
    {
        match fetched {
            Some(entries) => self.absorb_entries(cache, entries),
            None => {
                self.remote_failed = true;
            },
        }
    }

    /// Ends the resolution.
    pub fn finish(self) -> (r: Result<ClassInfoMap, Error>)
        requires
            self.wf(),
        ensures
            match (r, outcome(self@)) {
                (Ok(m), Ok(found)) => m.wf() && m@ == found,
                (Err(e), Err(f)) => e == f,
                _ => false,
            },
    {
        let n = self.found.len();
        proof {
            self.found.lemma_finite();
            if n == 0 {
                assert(self.found@.dom() =~= Set::<ClassKey>::empty());
            } else {
                assert(self.found@.dom() != Set::<ClassKey>::empty());
            }
            if self.keys@.len() > 0 {
                assert(key_set(self.keys@).contains(self.keys@[0]));
            } else {
                assert(key_set(self.keys@) =~= Set::<ClassKey>::empty());
            }
        }
        if self.keys.len() > 0 && n == 0 {
            if self.remote_failed {
                Err(Error::Remote)
            } else {
                Err(Error::Parse)
            }
        } else {
            Ok(self.found)
        }
    }
}

/// A record for `k` that could be read stands in `s`.
pub open spec fn readable(s: Seq<TierEntry>, k: ClassKey) -> bool {
    exists|i: int| 0 <= i < s.len() && s[i].0 == k && (#[trigger] s[i]).1 is Some
}

/// A record for `k` that could be read stands in one of the remote batches
/// that arrived.
pub open spec fn readable_remote(r: Seq<Option<Seq<TierEntry>>>, k: ClassKey) -> bool {
    exists|b: int| 0 <= b < r.len() && (#[trigger] r[b]) is Some && readable(r[b]->0, k)
}

/// Remote batch outcomes taken in, in order.
pub open spec fn absorb_batches(
    v: ResolutionView,
    cache: Map<ClassKey, Arc<ClassInfo>>,
    r: Seq<Option<Seq<TierEntry>>>,
) -> (ResolutionView, Map<ClassKey, Arc<ClassInfo>>)
    decreases r.len(),
{
    if r.len() == 0 {
        (v, cache)
    } else {
        let p = absorb_batches(v, cache, r.drop_last());
        absorb_remote_outcome(p.0, p.1, r.last())
    }
}

/// A whole resolution of `keys`: the memory pass over `cache`, the disk
/// tier's outcomes, then the remote batches' outcomes. Gives the final state
/// and the memory cache afterwards.
pub open spec fn resolve_run(
    cache: Map<ClassKey, Arc<ClassInfo>>,
    keys: Seq<ClassKey>,
    disk: Seq<TierEntry>,
    remote: Seq<Option<Seq<TierEntry>>>,
) -> (ResolutionView, Map<ClassKey, Arc<ClassInfo>>) {
    let p = absorb_entries(start_view(cache, keys), cache, disk);
    absorb_batches(p.0, p.1, remote)
}

/// The keys that some tier can resolve.
pub open spec fn resolvable(
    cache: Map<ClassKey, Arc<ClassInfo>>,
    keys: Seq<ClassKey>,
    disk: Seq<TierEntry>,
    remote: Seq<Option<Seq<TierEntry>>>,
) -> Set<ClassKey> {
    key_set(keys).filter(
        |k: ClassKey| cache.contains_key(k) || readable(disk, k) || readable_remote(remote, k),
    )
}

proof fn lemma_absorb_entries(
    v: ResolutionView,
    cache: Map<ClassKey, Arc<ClassInfo>>,
    s: Seq<TierEntry>,
)
    requires
        v.found == cache.restrict(v.requested),
    ensures
        ({
            let p = absorb_entries(v, cache, s);
            &&& p.0.requested == v.requested
            &&& p.0.remote_failed == v.remote_failed
            &&& p.0.found == p.1.restrict(v.requested)
            &&& forall|k: ClassKey|
                #[trigger] p.0.found.contains_key(k) <==> v.found.contains_key(k) || (v.requested.contains(k)
                    && readable(s, k))
            &&& (forall|k: ClassKey|
                readable(s, k) && v.requested.contains(k) ==> v.found.contains_key(k)) ==> p.0 == v
        }),
    decreases s.len(),
{
    assert forall|k: ClassKey| v.found.contains_key(k) implies v.requested.contains(k) by {
        assert(cache.restrict(v.requested).contains_key(k));
    }
    if s.len() > 0 {
        let t = s.drop_last();
        let e = s.last();
        lemma_absorb_entries(v, cache, t);
        let p = absorb_entries(v, cache, t);
        assert forall|k: ClassKey| readable(s, k) <==> readable(t, k) || (e.0 == k && e.1 is Some) by {
            if readable(s, k) {
                let i = choose|i: int| 0 <= i < s.len() && s[i].0 == k && (#[trigger] s[i]).1 is Some;
                if i < t.len() {
                    assert(t[i] == s[i]);
                }
            }
            if readable(t, k) {
                let i = choose|i: int| 0 <= i < t.len() && t[i].0 == k && (#[trigger] t[i]).1 is Some;
                assert(s[i] == t[i]);
            }
            if e.0 == k && e.1 is Some {
                assert(s[s.len() - 1] == e);
            }
        }
        let q = absorb_entries(v, cache, s);
        assert(q == absorb_entry(p.0, p.1, e));
        if e.1 is Some && p.0.needed().contains(e.0) {
            assert(p.1.insert(e.0, e.1->0).restrict(v.requested) =~= p.0.found.insert(e.0, e.1->0));
        }
        assert forall|k: ClassKey|
            #[trigger] q.0.found.contains_key(k) <==> v.found.contains_key(k) || (v.requested.contains(k)
                && readable(s, k)) by {
            assert(readable(s, k) <==> readable(t, k) || (e.0 == k && e.1 is Some));
            assert(p.0.found.contains_key(k) <==> v.found.contains_key(k) || (v.requested.contains(k)
                && readable(t, k)));
        }
        if forall|k: ClassKey| readable(s, k) && v.requested.contains(k) ==> v.found.contains_key(k) {
            assert forall|k: ClassKey| readable(t, k) && v.requested.contains(k) implies v.found.contains_key(k) by {
                assert(readable(s, k));
            }
            assert(p.0 == v);
            if e.1 is Some {
                assert(readable(s, e.0));
            }
        }
        assert(forall|k: ClassKey|
            #[trigger] absorb_entries(v, cache, s).0.found.contains_key(k) <==> v.found.contains_key(k) || (v.requested.contains(k)
                && readable(s, k)));
    } else {
        assert forall|k: ClassKey| !readable(s, k) by {}
    }
}

proof fn lemma_absorb_batches(
    v: ResolutionView,
    cache: Map<ClassKey, Arc<ClassInfo>>,
    r: Seq<Option<Seq<TierEntry>>>,
)
    requires
        v.found == cache.restrict(v.requested),
    ensures
        ({
            let p = absorb_batches(v, cache, r);
            &&& p.0.requested == v.requested
            &&& p.0.remote_failed == (v.remote_failed || exists|b: int| 0 <= b < r.len() && #[trigger] r[b] is None)
            &&& p.0.found == p.1.restrict(v.requested)
            &&& forall|k: ClassKey|
                #[trigger] p.0.found.contains_key(k) <==> v.found.contains_key(k) || (v.requested.contains(k)
                    && readable_remote(r, k))
            &&& (forall|k: ClassKey|
                readable_remote(r, k) && v.requested.contains(k) ==> v.found.contains_key(k))
                ==> p.0.found == v.found
        }),
    decreases r.len(),
{
    assert forall|k: ClassKey| v.found.contains_key(k) implies v.requested.contains(k) by {
        assert(cache.restrict(v.requested).contains_key(k));
    }
    if r.len() > 0 {
        let t = r.drop_last();
        let last = r.last();
        lemma_absorb_batches(v, cache, t);
        let p = absorb_batches(v, cache, t);
        assert forall|k: ClassKey| readable_remote(r, k) <==> readable_remote(t, k) || (last is Some && readable(last->0, k)) by {
            if readable_remote(r, k) {
                let b = choose|b: int| 0 <= b < r.len() && (#[trigger] r[b]) is Some && readable(r[b]->0, k);
                if b < t.len() {
                    assert(t[b] == r[b]);
                }
            }
            if readable_remote(t, k) {
                let b = choose|b: int| 0 <= b < t.len() && (#[trigger] t[b]) is Some && readable(t[b]->0, k);
                assert(r[b] == t[b]);
            }
            if last is Some && readable(last->0, k) {
                assert(r[r.len() - 1] == last);
            }
        }
        assert((exists|b: int| 0 <= b < r.len() && #[trigger] r[b] is None) == ((exists|b: int| 0 <= b < t.len() && #[trigger] t[b] is None) || last is None)) by {
            if exists|b: int| 0 <= b < r.len() && #[trigger] r[b] is None {
                let b = choose|b: int| 0 <= b < r.len() && #[trigger] r[b] is None;
                if b < t.len() {
                    assert(t[b] == r[b]);
                }
            }
            if exists|b: int| 0 <= b < t.len() && #[trigger] t[b] is None {
                let b = choose|b: int| 0 <= b < t.len() && #[trigger] t[b] is None;
                assert(r[b] == t[b]);
            }
            if last is None {
                assert(r[r.len() - 1] == last);
            }
        }
        match last {
            Some(s) => {
                lemma_absorb_entries(p.0, p.1, s);
            },
            None => {},
        }
        let q = absorb_batches(v, cache, r);
        assert forall|k: ClassKey|
            #[trigger] q.0.found.contains_key(k) <==> v.found.contains_key(k) || (v.requested.contains(k)
                && readable_remote(r, k)) by {
            assert(readable_remote(r, k) <==> readable_remote(t, k) || (last is Some && readable(last->0, k)));
            assert(q == absorb_remote_outcome(p.0, p.1, last));
            match last {
                Some(s) => {
                    lemma_absorb_entries(p.0, p.1, s);
                    assert(q.0 == absorb_entries(p.0, p.1, s).0);
                    assert(q.0.found.contains_key(k) <==> p.0.found.contains_key(k) || (
                    v.requested.contains(k) && readable(s, k)));
                },
                None => {},
            }
            assert(p.0.found.contains_key(k) <==> v.found.contains_key(k) || (v.requested.contains(k)
                && readable_remote(t, k)));
        }
        if forall|k: ClassKey| readable_remote(r, k) && v.requested.contains(k) ==> v.found.contains_key(k) {
            assert forall|k: ClassKey| readable_remote(t, k) && v.requested.contains(k) implies v.found.contains_key(k) by {
                assert(readable_remote(r, k));
            }
            assert(p.0.found == v.found);
            assert(q.0.found =~= v.found);
        }
    } else {
        assert forall|k: ClassKey| !readable_remote(r, k) by {}
    }
}

/// A resolution returns exactly the requested keys that memory, disk or a
/// remote batch can resolve, in any combination; the rest are absent. It
/// fails only when keys were requested and none of them could be resolved.
pub proof fn resolution_yields_resolvable(
    cache: Map<ClassKey, Arc<ClassInfo>>,
    keys: Seq<ClassKey>,
    disk: Seq<TierEntry>,
    remote: Seq<Option<Seq<TierEntry>>>,
)
    ensures
        resolve_run(cache, keys, disk, remote).0.found.dom() == resolvable(cache, keys, disk, remote),
        outcome(resolve_run(cache, keys, disk, remote).0) is Err <==> (keys.len() > 0
            && resolvable(cache, keys, disk, remote) == Set::<ClassKey>::empty()),
{
    let v0 = start_view(cache, keys);
    assert(v0.found == cache.restrict(v0.requested));
    lemma_absorb_entries(v0, cache, disk);
    let p = absorb_entries(v0, cache, disk);
    lemma_absorb_batches(p.0, p.1, remote);
    let v = resolve_run(cache, keys, disk, remote).0;
    assert forall|k: ClassKey| v.found.dom().contains(k) <==> resolvable(cache, keys, disk, remote).contains(k) by {
        assert(v0.found.contains_key(k) <==> (key_set(keys).contains(k) && cache.contains_key(k)));
        lemma_absorb_entries(v0, cache, disk);
        lemma_absorb_batches(p.0, p.1, remote);
        assert(p.0.found.contains_key(k) <==> v0.found.contains_key(k) || (key_set(keys).contains(k)
            && readable(disk, k)));
        assert(v.found.contains_key(k) <==> p.0.found.contains_key(k) || (key_set(keys).contains(k)
            && readable_remote(remote, k)));
        assert(resolvable(cache, keys, disk, remote).contains(k) <==> key_set(keys).contains(k) && (
        cache.contains_key(k) || readable(disk, k) || readable_remote(remote, k)));
    }
    assert(v.found.dom() =~= resolvable(cache, keys, disk, remote));
    if keys.len() > 0 {
        assert(key_set(keys).contains(keys[0]));
    } else {
        assert(key_set(keys) =~= Set::<ClassKey>::empty());
    }
}

/// Resolving the same keys again against the memory cache that the first
/// resolution left behind finds everything the first one returned in memory
/// alone, sends only the keys it left unresolved on to disk and remote, and,
/// with the same disk and remote outcomes, returns the same result.
pub proof fn resolution_is_idempotent(
    cache: Map<ClassKey, Arc<ClassInfo>>,
    keys: Seq<ClassKey>,
    disk: Seq<TierEntry>,
    remote: Seq<Option<Seq<TierEntry>>>,
)
    ensures
        ({
            let (first, after) = resolve_run(cache, keys, disk, remote);
            &&& start_view(after, keys).found == first.found
            &&& start_view(after, keys).needed() == first.needed()
            &&& outcome(resolve_run(after, keys, disk, remote).0) == outcome(first)
        }),
{
    let v0 = start_view(cache, keys);
    lemma_absorb_entries(v0, cache, disk);
    let p = absorb_entries(v0, cache, disk);
    lemma_absorb_batches(p.0, p.1, remote);
    let (first, after) = resolve_run(cache, keys, disk, remote);
    let w0 = start_view(after, keys);
    assert(w0.found == first.found);
    lemma_absorb_entries(w0, after, disk);
    let q = absorb_entries(w0, after, disk);
    assert forall|k: ClassKey| readable(disk, k) && w0.requested.contains(k) implies w0.found.contains_key(k) by {
        assert(p.0.found.contains_key(k));
        assert(first.found.contains_key(k));
    }
    assert(q.0 == w0);
    lemma_absorb_batches(q.0, q.1, remote);
    assert forall|k: ClassKey| readable_remote(remote, k) && q.0.requested.contains(k) implies q.0.found.contains_key(k) by {}
}

} // verus!
