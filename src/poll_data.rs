use std::collections::HashMap;
use vstd::prelude::*;
use crate::offers::TradeOfferState;
use crate::time::{difference, seconds_between, ServerTime};

verus! {

broadcast use vstd::std_specs::hash::group_hash_axioms;

/// Above this many entries the state map is trimmed.
pub const STATE_MAP_SIZE_LIMIT: usize = 2500;

/// How many entries a trim keeps.
pub const STATE_MAP_SPLIT_AT: usize = 2000;

/// Relies on `slice::sort_unstable`: the same ids, in ascending order.
#[verifier::external_body]
fn sort_ids(ids: &mut Vec<u64>)
    ensures
        forall|i: int, j: int| 0 <= i < j < final(ids)@.len() ==> final(ids)@[i] <= final(ids)@[j],
        final(ids)@.to_multiset() == old(ids)@.to_multiset(),
{
    ids.sort_unstable();
}

/// `after` is `before` trimmed: once `before` holds more than
/// `STATE_MAP_SIZE_LIMIT` entries, only the `STATE_MAP_SPLIT_AT` highest ids
/// stay, with their states; otherwise nothing changes.
pub open spec fn trimmed(before: Map<u64, TradeOfferState>, after: Map<u64, TradeOfferState>) -> bool {
    if before.len() > STATE_MAP_SIZE_LIMIT {
        &&& after.dom().subset_of(before.dom())
        &&& after.len() == STATE_MAP_SPLIT_AT
        &&& forall|a: u64, b: u64|
            after.contains_key(a) && before.contains_key(b) && !after.contains_key(b) ==> a > b
        &&& forall|a: u64| #[trigger] after.contains_key(a) ==> after[a] == before[a]
    } else {
        after == before
    }
}

/// The durable per-account polling record: when offers were last polled,
/// the latest update time seen, and the last observed state of each offer.
/// `changed` marks changes not yet saved.
pub struct PollData {
    pub offers_since: Option<ServerTime>,
    pub last_poll: Option<ServerTime>,
    pub last_poll_full_update: Option<ServerTime>,
    pub state_map: HashMap<u64, TradeOfferState>,
    pub changed: bool,
}

/// The abstract value of a [`PollData`].
pub ghost struct PollDataView {
    pub offers_since: Option<ServerTime>,
    pub last_poll: Option<ServerTime>,
    pub last_poll_full_update: Option<ServerTime>,
    pub state_map: Map<u64, TradeOfferState>,
    pub changed: bool,
}

impl View for PollData {
    type V = PollDataView;

    open spec fn view(&self) -> PollDataView {
        PollDataView {
            offers_since: self.offers_since,
            last_poll: self.last_poll,
            last_poll_full_update: self.last_poll_full_update,
            state_map: self.state_map@,
            changed: self.changed,
        }
    }
}

impl PollData {
    pub fn new() -> (r: PollData)
        ensures
            r.offers_since is None,
            r.last_poll is None,
            r.last_poll_full_update is None,
            r.state_map@ == Map::<u64, TradeOfferState>::empty(),
            !r.changed,
    {
        PollData {
            offers_since: None,
            last_poll: None,
            last_poll_full_update: None,
            state_map: HashMap::new(),
            changed: false,
        }
    }

    pub fn set_offers_since(&mut self, date: ServerTime)
        ensures
            final(self).offers_since == Some(date),
            final(self).last_poll == old(self).last_poll,
            final(self).last_poll_full_update == old(self).last_poll_full_update,
            final(self).state_map@ == old(self).state_map@,
            final(self).changed,
    {
        self.offers_since = Some(date);
        self.changed = true;
    }

    pub fn set_last_poll(&mut self, date: ServerTime)
        ensures
            final(self).last_poll == Some(date),
            final(self).offers_since == old(self).offers_since,
            final(self).last_poll_full_update == old(self).last_poll_full_update,
            final(self).state_map@ == old(self).state_map@,
            final(self).changed,
    {
        self.last_poll = Some(date);
        self.changed = true;
    }

    pub fn set_last_poll_full_update(&mut self, date: ServerTime)
        ensures
            final(self).last_poll_full_update == Some(date),
            final(self).offers_since == old(self).offers_since,
            final(self).last_poll == old(self).last_poll,
            final(self).state_map@ == old(self).state_map@,
            final(self).changed,
    {
        self.last_poll_full_update = Some(date);
        self.changed = true;
    }

    /// Forgets the states of the given offers.
    pub fn clear_offers(&mut self, tradeofferids: &[u64])
        ensures
            final(self).state_map@ == old(self).state_map@.remove_keys(tradeofferids@.to_set()),
            final(self).offers_since == old(self).offers_since,
            final(self).last_poll == old(self).last_poll,
            final(self).last_poll_full_update == old(self).last_poll_full_update,
            final(self).changed,
    {
        let mut i: usize = 0;
        while i < tradeofferids.len()
            invariant
                i <= tradeofferids@.len(),
                self.state_map@ == old(self).state_map@.remove_keys(tradeofferids@.take(i as int).to_set()),
                self.offers_since == old(self).offers_since,
                self.last_poll == old(self).last_poll,
                self.last_poll_full_update == old(self).last_poll_full_update,
            decreases tradeofferids@.len() - i,
        {
            let id = tradeofferids[i];
            self.state_map.remove(&id);
            proof {
                assert(tradeofferids@.take(i + 1) =~= tradeofferids@.take(i as int).push(id));
                assert(tradeofferids@.take(i + 1).to_set() =~= tradeofferids@.take(i as int).to_set().insert(id)) by {
                    vstd::seq_lib::lemma_seq_contains_after_push(tradeofferids@.take(i as int), id, id);
                    assert forall|x: u64| tradeofferids@.take(i + 1).contains(x) <==> tradeofferids@.take(i as int).contains(x) || x == id by {
                        vstd::seq_lib::lemma_seq_contains_after_push(tradeofferids@.take(i as int), id, x);
                    }
                }
                assert(self.state_map@ =~= old(self).state_map@.remove_keys(tradeofferids@.take(i + 1).to_set()));
            }
            i = i + 1;
        }
        assert(tradeofferids@.take(tradeofferids@.len() as int) =~= tradeofferids@);
        self.changed = true;
    }

    /// Bounds the state map: above `STATE_MAP_SIZE_LIMIT` entries it keeps
    /// the `STATE_MAP_SPLIT_AT` highest offer ids, taken to be the most recent.
    pub fn trim_state_map(&mut self)
        ensures
            trimmed(old(self).state_map@, final(self).state_map@),
            final(self).offers_since == old(self).offers_since,
            final(self).last_poll == old(self).last_poll,
            final(self).last_poll_full_update == old(self).last_poll_full_update,
            final(self).changed == (old(self).changed || old(self).state_map@.len() > STATE_MAP_SIZE_LIMIT),
    {
        if self.state_map.len() <= STATE_MAP_SIZE_LIMIT {
            return;
        }
        let ghost before = self.state_map@;
        let mut ids: Vec<u64> = Vec::new();
        for id in iter: self.state_map.keys()
            invariant
                ids@ == iter.seq().unref().take(iter.index()),
                iter.seq().unref().to_set() == before.dom(),
                iter.seq().unref().no_duplicates(),
                iter.index() == iter.seq().len() ==> ids@.to_set() == before.dom() && ids@.no_duplicates(),
        {
            ids.push(*id);
            proof {
                broadcast use vstd::seq::Seq::lemma_take_len;
            }
        }
        let ghost unsorted = ids@;
        sort_ids(&mut ids);
        let ghost sorted = ids@;
        proof {
            broadcast use vstd::seq_lib::to_multiset_contains;
            unsorted.lemma_multiset_has_no_duplicates();
            assert forall|x: u64| sorted.to_multiset().contains(x) implies sorted.to_multiset().count(x) == 1 by {
                assert(unsorted.to_multiset().contains(x));
            }
            sorted.lemma_multiset_has_no_duplicates_conv();
            assert forall|x: u64| sorted.contains(x) <==> before.contains_key(x) by {
                assert(sorted.contains(x) <==> sorted.to_multiset().count(x) > 0);
                assert(unsorted.contains(x) <==> unsorted.to_multiset().count(x) > 0);
                assert(unsorted.to_set().contains(x) <==> unsorted.contains(x));
            }
            unsorted.unique_seq_to_set();
            assert(sorted.len() == unsorted.len()) by {
                vstd::seq_lib::to_multiset_len(sorted);
                vstd::seq_lib::to_multiset_len(unsorted);
            }
        }
        let cut: usize = ids.len() - STATE_MAP_SPLIT_AT;
        let mut remove: Vec<u64> = Vec::new();
        let mut i: usize = 0;
        while i < cut
            invariant
                i <= cut,
                cut <= ids@.len(),
                ids@ == sorted,
                remove@ == sorted.take(i as int),
            decreases cut - i,
        {
            remove.push(ids[i]);
            assert(remove@ =~= sorted.take(i + 1));
            i = i + 1;
        }
        self.clear_offers(remove.as_slice());
        proof {
            let kept = sorted.skip(cut as int);
            let removed = sorted.take(cut as int).to_set();
            assert forall|x: u64| #[trigger] self.state_map@.contains_key(x) <==> kept.contains(x) by {
                if kept.contains(x) {
                    let j = choose|j: int| 0 <= j < kept.len() && kept[j] == x;
                    assert(sorted[cut + j] == x);
                    assert(sorted.contains(x));
                    if removed.contains(x) {
                        let l = choose|l: int| 0 <= l < cut && sorted.take(cut as int)[l] == x;
                        assert(sorted[l] == x);
                    }
                }
                if self.state_map@.contains_key(x) {
                    assert(before.contains_key(x));
                    assert(sorted.contains(x));
                    let j = choose|j: int| 0 <= j < sorted.len() && sorted[j] == x;
                    if j < cut {
                        assert(sorted.take(cut as int)[j] == x);
                        assert(removed.contains(x));
                    } else {
                        assert(kept[j - cut] == x);
                    }
                }
            }
            assert(kept.no_duplicates());
            kept.unique_seq_to_set();
            assert(self.state_map@.dom() =~= kept.to_set());
            assert forall|a: u64, b: u64|
                self.state_map@.contains_key(a) && before.contains_key(b) && !self.state_map@.contains_key(b)
                    implies a > b by {
                let ja = choose|j: int| 0 <= j < kept.len() && kept[j] == a;
                assert(sorted[cut + ja] == a);
                assert(sorted.contains(b));
                let jb = choose|j: int| 0 <= j < sorted.len() && sorted[j] == b;
                if jb >= cut {
                    assert(kept[jb - cut] == b);
                }
                assert(jb < cut + ja);
                assert(sorted[jb] <= sorted[cut + ja]);
            }
        }
    }

    /// Whether a full update is due: never done, or done at least
    /// `poll_full_update_duration` seconds before `now`.
    pub fn last_full_poll_is_stale(&self, poll_full_update_duration: i64, now: ServerTime) -> (r: bool)
        ensures
            r == match self.last_poll_full_update {
                None => true,
                Some(t) => seconds_between(t as int, now as int) >= poll_full_update_duration,
            },
    {
        match self.last_poll_full_update {
            None => true,
            Some(t) => difference(t, now) >= poll_full_update_duration,
        }
    }
}

} // verus!
