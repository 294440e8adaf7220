use std::collections::HashMap;
use vstd::prelude::*;
use std::sync::Arc;
use crate::offers::{combined, combined_all, offer_missing, RawTradeOffer, TradeOffer, TradeOfferState};
use crate::types::{ClassInfo, ClassKey};
use crate::poll_data::{trimmed, PollData, PollDataView, STATE_MAP_SIZE_LIMIT, STATE_MAP_SPLIT_AT};
use crate::time::{difference, seconds_between, server_time, timestamp_to_server_time, ServerTime};
use crate::util::{contains_id, reversed};

verus! {

broadcast use vstd::std_specs::hash::group_hash_axioms;

/// How far before the stored high-water mark an incremental poll looks, to
/// catch offers whose update time the remote source backdated.
pub const OFFERS_SINCE_BUFFER_SECONDS: i64 = 1800;

/// The timestamp that asks for offers of all time.
pub const OFFERS_SINCE_ALL_TIMESTAMP: i64 = 1;

/// The timestamp that asks only for offers newer than anything seen.
pub const OFFERS_SINCE_NEW_ONLY_TIMESTAMP: i64 = 4294967295;

/// What a poll asks the remote source for.
#[derive(Clone, Copy, Debug, PartialEq, Eq, Structural)]
pub enum PollType {
    /// Incremental: offers changed since the stored high-water mark, with a
    /// full update when the last one is stale.
    Auto,
    /// Only active offers newer than anything seen, with their descriptions.
    NewOffers,
    /// Offers changed since the given time.
    OffersSince(ServerTime),
    /// All offers of all time.
    FullUpdate,
}

impl PollType {
    pub fn is_active_only(&self) -> (r: bool)
        ensures
            r == (*self is NewOffers),
    {
        match self {
            PollType::NewOffers => true,
            _ => false,
        }
    }

    pub fn is_full_update(&self) -> (r: bool)
        ensures
            r == (*self is FullUpdate),
    {
        match self {
            PollType::FullUpdate => true,
            _ => false,
        }
    }
}

/// The request one poll cycle makes.
#[derive(Clone, Copy, Debug, PartialEq, Eq)]
pub struct PollPlan {
    /// Offers changed at or after this Unix time are asked for.
    pub offers_since: i64,
    pub active_only: bool,
    pub full_update: bool,
    pub get_descriptions: bool,
    /// `offers_since` as a [`ServerTime`].
    pub historical_cutoff: ServerTime,
}

/// Whether a full update is due.
pub open spec fn full_poll_stale(pd: PollDataView, duration: i64, now: ServerTime) -> bool {
    match pd.last_poll_full_update {
        None => true,
        Some(t) => seconds_between(t as int, now as int) >= duration,
    }
}

/// The stored high-water mark less the look-back buffer, or all time.
pub open spec fn default_offers_since(pd: PollDataView) -> i64 {
    match pd.offers_since {
        Some(d) => if d - OFFERS_SINCE_BUFFER_SECONDS < i64::MIN {
            i64::MIN
        } else {
            (d - OFFERS_SINCE_BUFFER_SECONDS) as i64
        },
        None => OFFERS_SINCE_ALL_TIMESTAMP,
    }
}

/// The request for a poll of `poll_type`.
pub open spec fn plan_spec(pd: PollDataView, poll_type: PollType, duration: i64, now: ServerTime) -> PollPlan {
    let full = poll_type is FullUpdate || full_poll_stale(pd, duration, now);
    let (since, active_only, full_update) = match poll_type {
        PollType::NewOffers => (OFFERS_SINCE_NEW_ONLY_TIMESTAMP, true, false),
        PollType::OffersSince(t) => (t, false, false),
        _ => if full {
            (OFFERS_SINCE_ALL_TIMESTAMP, false, true)
        } else {
            (default_offers_since(pd), true, false)
        },
    };
    PollPlan {
        offers_since: since,
        active_only,
        full_update,
        get_descriptions: poll_type is NewOffers,
        historical_cutoff: server_time(since),
    }
}

/// Whether an offer is one of ours, still active, and created before `cutoff`.
pub open spec fn should_cancel(o: RawTradeOffer, cutoff: int) -> bool {
    &&& (o.trade_offer_state == TradeOfferState::Active || o.trade_offer_state
        == TradeOfferState::CreatedNeedsConfirmation)
    &&& o.is_our_offer
    &&& o.time_created < cutoff
}

/// The ids of the offers to cancel, in order.
pub open spec fn cancel_ids(offers: Seq<RawTradeOffer>, cutoff: int) -> Seq<u64>
    decreases offers.len(),
{
    if offers.len() == 0 {
        Seq::empty()
    } else if should_cancel(offers.last(), cutoff) {
        cancel_ids(offers.drop_last(), cutoff).push(offers.last().tradeofferid)
    } else {
        cancel_ids(offers.drop_last(), cutoff)
    }
}

/// The state to compare: `Canceled` for an offer whose cancellation succeeded.
pub open spec fn effective_state(o: RawTradeOffer, cancelled: Seq<u64>) -> TradeOfferState {
    if cancelled.contains(o.tradeofferid) {
        TradeOfferState::Canceled
    } else {
        o.trade_offer_state
    }
}

pub open spec fn with_state(o: RawTradeOffer, s: TradeOfferState) -> RawTradeOffer {
    RawTradeOffer { trade_offer_state: s, ..o }
}

/// The outcome of comparing fetched offers with the stored states: the
/// offers to report, the previous state of each changed one, and the new
/// high-water mark.
pub ghost struct DiffView {
    pub changed: Seq<RawTradeOffer>,
    pub prev: Map<u64, TradeOfferState>,
    pub since: i64,
}

pub open spec fn diff_step(d: DiffView, sm: Map<u64, TradeOfferState>, o: RawTradeOffer, cancelled: Seq<u64>) -> DiffView {
    let s = effective_state(o, cancelled);
    let since = if o.time_updated > d.since {
        o.time_updated
    } else {
        d.since
    };
    if o.glitched() {
        d
    } else if !sm.contains_key(o.tradeofferid) {
        DiffView { changed: d.changed.push(with_state(o, s)), prev: d.prev, since }
    } else if sm[o.tradeofferid] != s {
        DiffView {
            changed: d.changed.push(with_state(o, s)),
            prev: d.prev.insert(o.tradeofferid, sm[o.tradeofferid]),
            since,
        }
    } else {
        DiffView { changed: d.changed, prev: d.prev, since }
    }
}

/// Compares the fetched offers, in order, with the stored states `sm`.
pub open spec fn diff_spec(sm: Map<u64, TradeOfferState>, offers: Seq<RawTradeOffer>, cancelled: Seq<u64>, since0: i64) -> DiffView
    decreases offers.len(),
{
    if offers.len() == 0 {
        DiffView { changed: Seq::empty(), prev: Map::empty(), since: since0 }
    } else {
        diff_step(diff_spec(sm, offers.drop_last(), cancelled, since0), sm, offers.last(), cancelled)
    }
}

/// The high-water mark a diff starts from.
pub open spec fn starting_since(pd: PollDataView, plan: PollPlan) -> i64 {
    match pd.offers_since {
        Some(d) => d,
        None => server_time(plan.offers_since),
    }
}

/// The poll record after the poll times of a cycle are noted: a cycle that
/// is not limited to active offers notes its time, a full update notes that.
pub open spec fn recorded(pd: PollDataView, plan: PollPlan, now: ServerTime) -> PollDataView {
    let a = if !plan.active_only {
        PollDataView { last_poll: Some(now), changed: true, ..pd }
    } else {
        pd
    };
    if plan.full_update {
        PollDataView { last_poll_full_update: Some(now), changed: true, ..a }
    } else {
        a
    }
}

/// `after` is the poll record once a cycle has noted its poll times, taken
/// in the diff `d`, and trimmed the state map. Only a cycle that is not
/// limited to active offers moves the high-water mark.
pub open spec fn reconciled(before: PollDataView, plan: PollPlan, now: ServerTime, d: DiffView, after: PollDataView) -> bool {
    let r = recorded(before, plan, now);
    &&& after.last_poll == r.last_poll
    &&& after.last_poll_full_update == r.last_poll_full_update
    &&& after.offers_since == (if plan.active_only {
        r.offers_since
    } else {
        Some(d.since)
    })
    &&& trimmed(r.state_map, after.state_map)
    &&& after.changed == (r.changed || !plan.active_only || r.state_map.len() > STATE_MAP_SIZE_LIMIT)
}

/// The stored states after reporting offers, the previous states not yet
/// paired, and the previous state paired with each reported offer.
pub ghost struct CommitView {
    pub state_map: Map<u64, TradeOfferState>,
    pub prev: Map<u64, TradeOfferState>,
    pub prevs: Seq<Option<TradeOfferState>>,
}

/// Records the state of each reported offer, in order, pairing it with its
/// previous state, which is used up.
pub open spec fn commit_spec(sm: Map<u64, TradeOfferState>, prev: Map<u64, TradeOfferState>, offers: Seq<TradeOffer>) -> CommitView
    decreases offers.len(),
{
    if offers.len() == 0 {
        CommitView { state_map: sm, prev, prevs: Seq::empty() }
    } else {
        let c = commit_spec(sm, prev, offers.drop_last());
        let o = offers.last();
        CommitView {
            state_map: c.state_map.insert(o.tradeofferid, o.trade_offer_state),
            prev: c.prev.remove(o.tradeofferid),
            prevs: c.prevs.push(
                if c.prev.contains_key(o.tradeofferid) {
                    Some(c.prev[o.tradeofferid])
                } else {
                    None
                },
            ),
        }
    }
}

proof fn lemma_commit_len(sm: Map<u64, TradeOfferState>, prev: Map<u64, TradeOfferState>, offers: Seq<TradeOffer>)
    ensures
        commit_spec(sm, prev, offers).prevs.len() == offers.len(),
    decreases offers.len(),
{
    if offers.len() > 0 {
        lemma_commit_len(sm, prev, offers.drop_last());
    }
}

/// The poll engine: owns the poll record and decides each cycle. The caller
/// fetches offers, issues cancellations, resolves metadata and saves the
/// record as the steps below ask.
pub struct Poller {
    pub poll_data: PollData,
    /// Offers of ours older than this many seconds are cancelled.
    pub cancel_duration: Option<i64>,
    /// A full update is made when the last one is at least this many seconds old.
    pub poll_full_update_duration: i64,
}

impl Poller {
    /// The request for a cycle of `poll_type` at time `now`.
    pub fn plan(&self, poll_type: PollType, now: ServerTime) -> (r: PollPlan)
        ensures
            r == plan_spec(self.poll_data@, poll_type, self.poll_full_update_duration, now),
    {
        let default_since: i64 = match self.poll_data.offers_since {
            Some(d) => match d.checked_sub(OFFERS_SINCE_BUFFER_SECONDS) {
                Some(x) => x,
                None => i64::MIN,
            },
            None => OFFERS_SINCE_ALL_TIMESTAMP,
        };
        let full = poll_type.is_full_update() || self.poll_data.last_full_poll_is_stale(
            self.poll_full_update_duration,
            now,
        );
        let (since, active_only, full_update) = match poll_type {
            PollType::NewOffers => (OFFERS_SINCE_NEW_ONLY_TIMESTAMP, true, false),
            PollType::OffersSince(t) => (t, false, false),
            _ => if full {
                (OFFERS_SINCE_ALL_TIMESTAMP, false, true)
            } else {
                (default_since, true, false)
            },
        };
        PollPlan {
            offers_since: since,
            active_only,
            full_update,
            get_descriptions: poll_type.is_active_only(),
            historical_cutoff: timestamp_to_server_time(since),
        }
    }

    /// The ids of the fetched offers to cancel at time `now`: ours, active or
    /// awaiting confirmation, created more than `cancel_duration` seconds ago.
    pub fn offers_to_cancel(&self, offers: &Vec<RawTradeOffer>, now: ServerTime) -> (r: Vec<u64>)
        ensures
            r@ == match self.cancel_duration {
                None => Seq::<u64>::empty(),
                Some(d) => cancel_ids(offers@, seconds_between(d as int, now as int)),
            },
    {
        let mut r: Vec<u64> = Vec::new();
        match self.cancel_duration {
            None => r,
            Some(d) => {
                let cutoff = difference(d, now);
                let mut i: usize = 0;
                while i < offers.len()
                    invariant
                        i <= offers@.len(),
                        cutoff == seconds_between(d as int, now as int),
                        r@ == cancel_ids(offers@.take(i as int), cutoff as int),
                    decreases offers@.len() - i,
                {
                    let o = &offers[i];
                    assert(offers@.take(i + 1).drop_last() =~= offers@.take(i as int));
                    let active = match o.trade_offer_state {
                        TradeOfferState::Active => true,
                        TradeOfferState::CreatedNeedsConfirmation => true,
                        _ => false,
                    };
                    if active && o.is_our_offer && o.time_created < cutoff {
                        r.push(o.tradeofferid);
                    }
                    i = i + 1;
                }
                assert(offers@.take(offers@.len() as int) =~= offers@);
                r
            },
        }
    }

    /// Notes the poll times, compares the fetched offers with the stored
    /// states, advances the high-water mark and trims the state map.
    /// `cancelled` lists the offers whose cancellation succeeded; they count
    /// as `Canceled`. Returns the offers to report, each with its state as
    /// compared, and the previous state of each changed offer.
    pub fn reconcile(
        &mut self,
        plan: PollPlan,
        now: ServerTime,
        offers: Vec<RawTradeOffer>,
        cancelled: &Vec<u64>,
    ) -> (r: (Vec<RawTradeOffer>, HashMap<u64, TradeOfferState>))
        ensures
            ({
                let d = diff_spec(
                    old(self).poll_data@.state_map,
                    offers@,
                    cancelled@,
                    starting_since(old(self).poll_data@, plan),
                );
                &&& r.0@ == d.changed
                &&& r.1@ == d.prev
                &&& reconciled(old(self).poll_data@, plan, now, d, final(self).poll_data@)
            }),
            final(self).cancel_duration == old(self).cancel_duration,
            final(self).poll_full_update_duration == old(self).poll_full_update_duration,
    {
        let since0: i64 = match self.poll_data.offers_since {
            Some(d) => d,
            None => timestamp_to_server_time(plan.offers_since),
        };
        if !plan.active_only {
            self.poll_data.set_last_poll(now);
        }
        if plan.full_update {
            self.poll_data.set_last_poll_full_update(now);
        }
        let ghost sm = self.poll_data.state_map@;
        let ghost all = offers@;
        let ghost n = all.len();
        let mut pending = reversed(offers);
        let mut changed: Vec<RawTradeOffer> = Vec::new();
        let mut prev: HashMap<u64, TradeOfferState> = HashMap::new();
        let mut since = since0;
        while pending.len() > 0
            invariant
                n == all.len(),
                pending@.len() <= n,
                forall|j: int| 0 <= j < pending@.len() ==> #[trigger] pending@[j] == all[n - 1 - j],
                self.poll_data.state_map@ == sm,
                ({
                    let d = diff_spec(sm, all.take(n - pending@.len()), cancelled@, since0);
                    changed@ == d.changed && prev@ == d.prev && since == d.since
                }),
            decreases pending@.len(),
        {
            let ghost done = n - pending@.len();
            match pending.pop() {
                Some(offer) => {
                    assert(offer == all[done]);
                    assert(all.take(done + 1).drop_last() =~= all.take(done));
                    let mut offer = offer;
                    let state = if contains_id(cancelled, offer.tradeofferid) {
                        TradeOfferState::Canceled
                    } else {
                        offer.trade_offer_state
                    };
                    offer.trade_offer_state = state;
                    if !offer.is_glitched() {
                        if offer.time_updated > since {
                            since = offer.time_updated;
                        }
                        match self.poll_data.state_map.get(&offer.tradeofferid) {
                            Some(previous) => {
                                if *previous != state {
                                    prev.insert(offer.tradeofferid, *previous);
                                    changed.push(offer);
                                }
                            },
                            None => {
                                changed.push(offer);
                            },
                        }
                    }
                },
                None => {},
            }
        }
        assert(all.take(n as int) =~= all);
        if !plan.active_only {
            self.poll_data.set_offers_since(since);
        }
        self.poll_data.trim_state_map();
        (changed, prev)
    }

    /// Records the states of the offers that are reported this cycle (those
    /// whose metadata could be attached) and pairs each with its previous
    /// state. With nothing to report the record stays as it is.
    pub fn commit(&mut self, offers: Vec<TradeOffer>, prev_states: HashMap<u64, TradeOfferState>) -> (r: Vec<(TradeOffer, Option<TradeOfferState>)>)
        ensures
            ({
                let c = commit_spec(old(self).poll_data@.state_map, prev_states@, offers@);
                &&& offers@.len() == 0 ==> final(self).poll_data@ == old(self).poll_data@
                &&& offers@.len() > 0 ==> final(self).poll_data@ == (PollDataView {
                    state_map: c.state_map,
                    changed: true,
                    ..old(self).poll_data@
                })
                &&& r@.len() == offers@.len()
                &&& forall|i: int| 0 <= i < r@.len() ==> (#[trigger] r@[i]).0 == offers@[i] && r@[i].1 == c.prevs[i]
            }),
            final(self).cancel_duration == old(self).cancel_duration,
            final(self).poll_full_update_duration == old(self).poll_full_update_duration,
    {
        let mut r: Vec<(TradeOffer, Option<TradeOfferState>)> = Vec::new();
        if offers.len() == 0 {
            return r;
        }
        self.poll_data.changed = true;
        let ghost sm = self.poll_data.state_map@;
        let ghost all = offers@;
        let ghost n = all.len();
        let mut pending = reversed(offers);
        let mut prev = prev_states;
        while pending.len() > 0
            invariant
                n == all.len(),
                pending@.len() <= n,
                forall|j: int| 0 <= j < pending@.len() ==> #[trigger] pending@[j] == all[n - 1 - j],
                self.poll_data.changed,
                self.poll_data.offers_since == old(self).poll_data.offers_since,
                self.poll_data.last_poll == old(self).poll_data.last_poll,
                self.poll_data.last_poll_full_update == old(self).poll_data.last_poll_full_update,
                self.cancel_duration == old(self).cancel_duration,
                self.poll_full_update_duration == old(self).poll_full_update_duration,
                sm == old(self).poll_data.state_map@,
                ({
                    let c = commit_spec(sm, prev_states@, all.take(n - pending@.len()));
                    &&& self.poll_data.state_map@ == c.state_map
                    &&& prev@ == c.prev
                    &&& r@.len() == n - pending@.len()
                    &&& forall|i: int| 0 <= i < r@.len() ==> (#[trigger] r@[i]).0 == all[i] && r@[i].1 == c.prevs[i]
                }),
            decreases pending@.len(),
        {
            let ghost done = n - pending@.len();
            match pending.pop() {
                Some(offer) => {
                    assert(offer == all[done]);
                    assert(all.take(done + 1).drop_last() =~= all.take(done));
                    proof {
                        lemma_commit_len(sm, prev_states@, all.take(done));
                    }
                    let id = offer.tradeofferid;
                    let previous = prev.remove(&id);
                    self.poll_data.state_map.insert(id, offer.trade_offer_state);
                    r.push((offer, previous));
                },
                None => {},
            }
        }
        assert(all.take(n as int) =~= all);
        r
    }

    /// Whether the record has unsaved changes; clears the mark, since the
    /// caller saves the record now.
    pub fn take_changed(&mut self) -> (r: bool)
        ensures
            r == old(self).poll_data.changed,
            final(self).poll_data@ == (PollDataView { changed: false, ..old(self).poll_data@ }),
            final(self).cancel_duration == old(self).cancel_duration,
            final(self).poll_full_update_duration == old(self).poll_full_update_duration,
    {
        let r = self.poll_data.changed;
        self.poll_data.changed = false;
        r
    }
}

proof fn lemma_quiet_diff(sm: Map<u64, TradeOfferState>, offers: Seq<RawTradeOffer>, cancelled: Seq<u64>, since0: i64)
    requires
        forall|i: int|
            0 <= i < offers.len() && !(#[trigger] offers[i]).glitched() ==> sm.contains_key(offers[i].tradeofferid)
                && sm[offers[i].tradeofferid] == effective_state(offers[i], cancelled),
    ensures
        diff_spec(sm, offers, cancelled, since0).changed.len() == 0,
    decreases offers.len(),
{
    if offers.len() > 0 {
        let t = offers.drop_last();
        assert forall|i: int|
            0 <= i < t.len() && !(#[trigger] t[i]).glitched() implies sm.contains_key(t[i].tradeofferid)
                && sm[t[i].tradeofferid] == effective_state(t[i], cancelled) by {
            assert(t[i] == offers[i]);
        }
        lemma_quiet_diff(sm, t, cancelled, since0);
        assert(offers.last() == offers[offers.len() - 1]);
    }
}

/// A cycle whose plan asks for active offers only (an incremental poll with
/// a recent full update, or a poll for new offers), where every fetched
/// offer that is not glitched already has its stored state and the state map
/// is within its bound, reports nothing and leaves the poll record exactly as
/// it was, the mark of unsaved changes included; so nothing is saved.
pub proof fn quiet_cycle_is_silent(
    pd: PollDataView,
    poll_type: PollType,
    duration: i64,
    now: ServerTime,
    offers: Seq<RawTradeOffer>,
    cancelled: Seq<u64>,
    after: PollDataView,
    reported: Seq<TradeOffer>,
    classinfos: Map<ClassKey, Arc<ClassInfo>>,
)
    requires
        plan_spec(pd, poll_type, duration, now).active_only,
        pd.state_map.len() <= STATE_MAP_SIZE_LIMIT,
        forall|i: int|
            0 <= i < offers.len() && !(#[trigger] offers[i]).glitched() ==> pd.state_map.contains_key(
                offers[i].tradeofferid,
            ) && pd.state_map[offers[i].tradeofferid] == effective_state(offers[i], cancelled),
        ({
            let plan = plan_spec(pd, poll_type, duration, now);
            let d = diff_spec(pd.state_map, offers, cancelled, starting_since(pd, plan));
            &&& reconciled(pd, plan, now, d, after)
            &&& combined_all(d.changed, reported, classinfos)
        }),
    ensures
        diff_spec(
            pd.state_map,
            offers,
            cancelled,
            starting_since(pd, plan_spec(pd, poll_type, duration, now)),
        ).changed.len() == 0,
        reported.len() == 0,
        after == pd,
{
    let plan = plan_spec(pd, poll_type, duration, now);
    lemma_quiet_diff(pd.state_map, offers, cancelled, starting_since(pd, plan));
    assert(!plan.full_update);
    assert(recorded(pd, plan, now) == pd);
}

/// An offer of ours that is active, was created before `cutoff` and is not
/// glitched is chosen for cancellation; once its cancellation succeeded, the
/// cycle reports it with the state `Canceled`, whatever state the remote
/// source gave, unless `Canceled` is already its stored state.
pub proof fn expired_offer_reported_canceled(
    offers: Seq<RawTradeOffer>,
    i: int,
    cutoff: int,
    sm: Map<u64, TradeOfferState>,
    cancelled: Seq<u64>,
    since0: i64,
)
    requires
        0 <= i < offers.len(),
        should_cancel(offers[i], cutoff),
        !offers[i].glitched(),
        cancelled.contains(offers[i].tradeofferid),
        !(sm.contains_key(offers[i].tradeofferid) && sm[offers[i].tradeofferid] == TradeOfferState::Canceled),
    ensures
        cancel_ids(offers, cutoff).contains(offers[i].tradeofferid),
        diff_spec(sm, offers, cancelled, since0).changed.contains(with_state(offers[i], TradeOfferState::Canceled)),
    decreases offers.len(),
{
    let t = offers.drop_last();
    let x = with_state(offers[i], TradeOfferState::Canceled);
    if i == offers.len() - 1 {
        let c = cancel_ids(t, cutoff).push(offers[i].tradeofferid);
        assert(c[c.len() - 1] == offers[i].tradeofferid);
        let d = diff_spec(sm, t, cancelled, since0).changed.push(x);
        assert(d[d.len() - 1] == x);
    } else {
        assert(t[i] == offers[i]);
        expired_offer_reported_canceled(t, i, cutoff, sm, cancelled, since0);
        let c0 = cancel_ids(t, cutoff);
        let j = choose|j: int| 0 <= j < c0.len() && c0[j] == offers[i].tradeofferid;
        if should_cancel(offers.last(), cutoff) {
            assert(c0.push(offers.last().tradeofferid)[j] == offers[i].tradeofferid);
        }
        let d0 = diff_spec(sm, t, cancelled, since0).changed;
        let k = choose|k: int| 0 <= k < d0.len() && d0[k] == x;
        let d1 = diff_spec(sm, offers, cancelled, since0).changed;
        assert(d1 == d0 || d1 == d0.push(with_state(offers.last(), effective_state(offers.last(), cancelled))));
        if d1 != d0 {
            assert(d1[k] == x);
        }
    }
}

proof fn lemma_commit_dom(sm: Map<u64, TradeOfferState>, prev: Map<u64, TradeOfferState>, offers: Seq<TradeOffer>)
    ensures
        forall|k: u64|
            #[trigger] commit_spec(sm, prev, offers).state_map.contains_key(k) <==> sm.contains_key(k) || exists|i: int|
                0 <= i < offers.len() && (#[trigger] offers[i]).tradeofferid == k,
    decreases offers.len(),
{
    if offers.len() > 0 {
        let t = offers.drop_last();
        lemma_commit_dom(sm, prev, t);
        assert forall|k: u64|
            #[trigger] commit_spec(sm, prev, offers).state_map.contains_key(k) <==> sm.contains_key(k) || exists|i: int|
                0 <= i < offers.len() && (#[trigger] offers[i]).tradeofferid == k by {
            let c = commit_spec(sm, prev, t);
            assert(commit_spec(sm, prev, offers).state_map == c.state_map.insert(
                offers.last().tradeofferid,
                offers.last().trade_offer_state,
            ));
            assert(c.state_map.contains_key(k) <==> sm.contains_key(k) || exists|i: int|
                0 <= i < t.len() && (#[trigger] t[i]).tradeofferid == k);
            if exists|i: int| 0 <= i < t.len() && (#[trigger] t[i]).tradeofferid == k {
                let i = choose|i: int| 0 <= i < t.len() && (#[trigger] t[i]).tradeofferid == k;
                assert(offers[i] == t[i]);
            }
            if exists|i: int| 0 <= i < offers.len() && (#[trigger] offers[i]).tradeofferid == k {
                let i = choose|i: int| 0 <= i < offers.len() && (#[trigger] offers[i]).tradeofferid == k;
                if i < t.len() {
                    assert(t[i] == offers[i]);
                } else {
                    assert(offers.last() == offers[i]);
                }
            }
            if k == offers.last().tradeofferid {
                assert(offers[offers.len() - 1] == offers.last());
            }
        }
    }
}

/// Over a whole cycle that starts with more than `STATE_MAP_SIZE_LIMIT`
/// stored states: the trim keeps exactly the `STATE_MAP_SPLIT_AT` highest
/// ids, each above every id it drops; all of them are still stored once the
/// reported offers are recorded; and a dropped id is stored again only when
/// the cycle reported an offer with that id.
pub proof fn trimming_cycle_keeps_highest_ids(
    before: PollDataView,
    plan: PollPlan,
    now: ServerTime,
    d: DiffView,
    after_reconcile: PollDataView,
    prev: Map<u64, TradeOfferState>,
    reported: Seq<TradeOffer>,
)
    requires
        before.state_map.len() > STATE_MAP_SIZE_LIMIT,
        reconciled(before, plan, now, d, after_reconcile),
    ensures
        ({
            let kept = after_reconcile.state_map;
            let fin = commit_spec(kept, prev, reported).state_map;
            &&& kept.len() == STATE_MAP_SPLIT_AT
            &&& kept.dom().subset_of(before.state_map.dom())
            &&& forall|a: u64, b: u64|
                kept.contains_key(a) && before.state_map.contains_key(b) && !kept.contains_key(b) ==> a > b
            &&& forall|a: u64| kept.contains_key(a) ==> #[trigger] fin.contains_key(a)
            &&& forall|b: u64|
                before.state_map.contains_key(b) && !kept.contains_key(b) && #[trigger] fin.contains_key(b)
                    ==> exists|i: int| 0 <= i < reported.len() && (#[trigger] reported[i]).tradeofferid == b
        }),
{
    assert(recorded(before, plan, now).state_map == before.state_map);
    lemma_commit_dom(after_reconcile.state_map, prev, reported);
}

/// No two fetched offers share an id.
pub open spec fn distinct_ids(offers: Seq<RawTradeOffer>) -> bool {
    forall|a: int, b: int| 0 <= a < b < offers.len() ==> offers[a].tradeofferid != offers[b].tradeofferid
}

proof fn lemma_diff_structure(sm: Map<u64, TradeOfferState>, offers: Seq<RawTradeOffer>, cancelled: Seq<u64>, since0: i64)
    requires
        distinct_ids(offers),
    ensures
        ({
            let d = diff_spec(sm, offers, cancelled, since0);
            &&& forall|k: int|
                0 <= k < d.changed.len() ==> exists|j: int|
                    0 <= j < offers.len() && #[trigger] d.changed[k] == with_state(offers[j], effective_state(offers[j], cancelled))
            &&& forall|k1: int, k2: int|
                0 <= k1 < k2 < d.changed.len() ==> d.changed[k1].tradeofferid != d.changed[k2].tradeofferid
            &&& forall|x: u64|
                #[trigger] d.prev.contains_key(x) ==> sm.contains_key(x) && d.prev[x] == sm[x] && exists|j: int|
                    0 <= j < offers.len() && (#[trigger] offers[j]).tradeofferid == x
            &&& forall|j: int|
                0 <= j < offers.len() && !(#[trigger] offers[j]).glitched() && sm.contains_key(offers[j].tradeofferid)
                    && sm[offers[j].tradeofferid] != effective_state(offers[j], cancelled)
                    ==> d.prev.contains_key(offers[j].tradeofferid)
        }),
    decreases offers.len(),
{
    if offers.len() > 0 {
        let t = offers.drop_last();
        let o = offers.last();
        let n = offers.len();
        assert(distinct_ids(t)) by {
            assert forall|a: int, b: int| 0 <= a < b < t.len() implies t[a].tradeofferid != t[b].tradeofferid by {
                assert(t[a] == offers[a] && t[b] == offers[b]);
            }
        }
        lemma_diff_structure(sm, t, cancelled, since0);
        let p = diff_spec(sm, t, cancelled, since0);
        let d = diff_spec(sm, offers, cancelled, since0);
        assert(o == offers[n - 1]);
        assert(d == diff_step(p, sm, o, cancelled));
        assert forall|k: int| 0 <= k < d.changed.len() implies exists|j: int|
            0 <= j < offers.len() && #[trigger] d.changed[k] == with_state(offers[j], effective_state(offers[j], cancelled)) by {
            if k < p.changed.len() {
                assert(d.changed[k] == p.changed[k]);
                let j = choose|j: int| 0 <= j < t.len() && #[trigger] p.changed[k] == with_state(t[j], effective_state(t[j], cancelled));
                assert(t[j] == offers[j]);
            } else {
                assert(d.changed[k] == with_state(offers[n - 1], effective_state(offers[n - 1], cancelled)));
            }
        }
        assert forall|k1: int, k2: int| 0 <= k1 < k2 < d.changed.len() implies d.changed[k1].tradeofferid != d.changed[k2].tradeofferid by {
            assert(d.changed[k1] == p.changed[k1]);
            if k2 < p.changed.len() {
                assert(d.changed[k2] == p.changed[k2]);
            } else {
                let j = choose|j: int| 0 <= j < t.len() && #[trigger] p.changed[k1] == with_state(t[j], effective_state(t[j], cancelled));
                assert(t[j] == offers[j]);
                assert(d.changed[k2].tradeofferid == offers[n - 1].tradeofferid);
            }
        }
        assert forall|x: u64| #[trigger] d.prev.contains_key(x) implies sm.contains_key(x) && d.prev[x] == sm[x] && exists|j: int|
            0 <= j < offers.len() && (#[trigger] offers[j]).tradeofferid == x by {
            if p.prev.contains_key(x) && x != o.tradeofferid {
                let j = choose|j: int| 0 <= j < t.len() && (#[trigger] t[j]).tradeofferid == x;
                assert(t[j] == offers[j]);
            } else if x == o.tradeofferid {
                assert(offers[n - 1].tradeofferid == x);
                if !d.prev.contains_key(x) || !(p.prev.contains_key(x) && d.prev == p.prev) {
                } else {
                    let j = choose|j: int| 0 <= j < t.len() && (#[trigger] t[j]).tradeofferid == x;
                    assert(t[j] == offers[j]);
                }
            }
        }
        assert forall|j: int|
            0 <= j < offers.len() && !(#[trigger] offers[j]).glitched() && sm.contains_key(offers[j].tradeofferid)
                && sm[offers[j].tradeofferid] != effective_state(offers[j], cancelled)
                implies d.prev.contains_key(offers[j].tradeofferid) by {
            if j < t.len() {
                assert(t[j] == offers[j]);
                assert(p.prev.contains_key(t[j].tradeofferid));
            }
        }
    }
}

proof fn lemma_combined_structure(raws: Seq<RawTradeOffer>, reported: Seq<TradeOffer>, m: Map<ClassKey, Arc<ClassInfo>>)
    requires
        combined_all(raws, reported, m),
    ensures
        forall|j: int| 0 <= j < reported.len() ==> exists|k: int| 0 <= k < raws.len() && combined(raws[k], #[trigger] reported[j], m),
        forall|k: int|
            0 <= k < raws.len() && offer_missing(#[trigger] raws[k], m) is None ==> exists|j: int|
                0 <= j < reported.len() && combined(raws[k], #[trigger] reported[j], m),
        (forall|k1: int, k2: int| 0 <= k1 < k2 < raws.len() ==> raws[k1].tradeofferid != raws[k2].tradeofferid) ==> (forall|
            j1: int,
            j2: int,
        | 0 <= j1 < j2 < reported.len() ==> reported[j1].tradeofferid != reported[j2].tradeofferid),
    decreases raws.len(),
{
    if raws.len() > 0 {
        let t = raws.drop_last();
        let last = raws.last();
        let n = raws.len();
        assert(last == raws[n - 1]);
        let rest = if offer_missing(last, m) is None {
            reported.drop_last()
        } else {
            reported
        };
        lemma_combined_structure(t, rest, m);
        assert forall|j: int| 0 <= j < reported.len() implies exists|k: int| 0 <= k < raws.len() && combined(raws[k], #[trigger] reported[j], m) by {
            if j < rest.len() {
                assert(rest[j] == reported[j]);
                let k = choose|k: int| 0 <= k < t.len() && combined(t[k], #[trigger] rest[j], m);
                assert(t[k] == raws[k]);
            } else {
                assert(reported[j] == reported.last());
            }
        }
        assert forall|k: int|
            0 <= k < raws.len() && offer_missing(#[trigger] raws[k], m) is None implies exists|j: int|
                0 <= j < reported.len() && combined(raws[k], #[trigger] reported[j], m) by {
            if k < t.len() {
                assert(t[k] == raws[k]);
                let j = choose|j: int| 0 <= j < rest.len() && combined(t[k], #[trigger] rest[j], m);
                assert(rest[j] == reported[j]);
            } else {
                assert(reported[reported.len() - 1] == reported.last());
            }
        }
        if forall|k1: int, k2: int| 0 <= k1 < k2 < raws.len() ==> raws[k1].tradeofferid != raws[k2].tradeofferid {
            assert forall|k1: int, k2: int| 0 <= k1 < k2 < t.len() implies t[k1].tradeofferid != t[k2].tradeofferid by {
                assert(t[k1] == raws[k1] && t[k2] == raws[k2]);
            }
            assert forall|j1: int, j2: int| 0 <= j1 < j2 < reported.len() implies reported[j1].tradeofferid != reported[j2].tradeofferid by {
                assert(rest[j1] == reported[j1]);
                if j2 < rest.len() {
                    assert(rest[j2] == reported[j2]);
                } else {
                    let k = choose|k: int| 0 <= k < t.len() && combined(t[k], #[trigger] rest[j1], m);
                    assert(t[k] == raws[k]);
                    assert(reported[j2] == reported.last());
                }
            }
        }
    }
}

proof fn lemma_commit_entry(sm: Map<u64, TradeOfferState>, prev: Map<u64, TradeOfferState>, offers: Seq<TradeOffer>, j: int)
    requires
        0 <= j < offers.len(),
        forall|a: int, b: int| 0 <= a < b < offers.len() ==> offers[a].tradeofferid != offers[b].tradeofferid,
    ensures
        ({
            let c = commit_spec(sm, prev, offers);
            let x = offers[j].tradeofferid;
            &&& c.state_map.contains_key(x)
            &&& c.state_map[x] == offers[j].trade_offer_state
            &&& c.prevs[j] == (if prev.contains_key(x) {
                Some(prev[x])
            } else {
                None
            })
        }),
    decreases offers.len(),
{
    let t = offers.drop_last();
    let n = offers.len();
    let x = offers[j].tradeofferid;
    lemma_commit_len(sm, prev, t);
    lemma_commit_prev_untouched(sm, prev, t, x);
    if j < n - 1 {
        assert(t[j] == offers[j]);
        lemma_commit_entry(sm, prev, t, j);
        assert(offers.last() == offers[n - 1]);
    } else {
        assert(offers.last() == offers[j]);
        assert forall|i: int| 0 <= i < t.len() implies (#[trigger] t[i]).tradeofferid != x by {
            assert(t[i] == offers[i]);
        }
    }
}

proof fn lemma_commit_prev_untouched(sm: Map<u64, TradeOfferState>, prev: Map<u64, TradeOfferState>, offers: Seq<TradeOffer>, x: u64)
    ensures
        (forall|i: int| 0 <= i < offers.len() ==> (#[trigger] offers[i]).tradeofferid != x) ==> {
            let c = commit_spec(sm, prev, offers);
            &&& c.prev.contains_key(x) == prev.contains_key(x)
            &&& prev.contains_key(x) ==> c.prev[x] == prev[x]
        },
    decreases offers.len(),
{
    if offers.len() > 0 {
        let t = offers.drop_last();
        if forall|i: int| 0 <= i < offers.len() ==> (#[trigger] offers[i]).tradeofferid != x {
            assert forall|i: int| 0 <= i < t.len() implies (#[trigger] t[i]).tradeofferid != x by {
                assert(t[i] == offers[i]);
            }
            assert(offers[offers.len() - 1] == offers.last());
        }
        lemma_commit_prev_untouched(sm, prev, t, x);
    }
}

/// Across a whole cycle: an expired offer of ours whose cancellation
/// succeeded, in a batch without repeated ids, whose metadata resolves and
/// whose stored state is not already `Canceled`, is reported with the state
/// `Canceled`, paired with its stored state (if any), and `Canceled` is what
/// the cycle records for it, whatever the trim left.
pub proof fn expired_offer_committed_canceled(
    sm: Map<u64, TradeOfferState>,
    offers: Seq<RawTradeOffer>,
    i: int,
    cutoff: int,
    cancelled: Seq<u64>,
    since0: i64,
    classinfos: Map<ClassKey, Arc<ClassInfo>>,
    reported: Seq<TradeOffer>,
    after_trim: Map<u64, TradeOfferState>,
)
    requires
        0 <= i < offers.len(),
        distinct_ids(offers),
        should_cancel(offers[i], cutoff),
        !offers[i].glitched(),
        cancelled.contains(offers[i].tradeofferid),
        !(sm.contains_key(offers[i].tradeofferid) && sm[offers[i].tradeofferid] == TradeOfferState::Canceled),
        offer_missing(offers[i], classinfos) is None,
        combined_all(diff_spec(sm, offers, cancelled, since0).changed, reported, classinfos),
    ensures
        ({
            let id = offers[i].tradeofferid;
            let d = diff_spec(sm, offers, cancelled, since0);
            let c = commit_spec(after_trim, d.prev, reported);
            &&& cancel_ids(offers, cutoff).contains(id)
            &&& exists|j: int|
                0 <= j < reported.len() && (#[trigger] reported[j]).tradeofferid == id
                    && reported[j].trade_offer_state == TradeOfferState::Canceled
                    && c.prevs[j] == (if sm.contains_key(id) {
                    Some(sm[id])
                } else {
                    None
                })
            &&& c.state_map[id] == TradeOfferState::Canceled
        }),
{
    let id = offers[i].tradeofferid;
    let d = diff_spec(sm, offers, cancelled, since0);
    let x = with_state(offers[i], TradeOfferState::Canceled);
    expired_offer_reported_canceled(offers, i, cutoff, sm, cancelled, since0);
    lemma_diff_structure(sm, offers, cancelled, since0);
    let k = choose|k: int| 0 <= k < d.changed.len() && d.changed[k] == x;
    assert(offer_missing(d.changed[k], classinfos) == offer_missing(offers[i], classinfos));
    lemma_combined_structure(d.changed, reported, classinfos);
    let j = choose|j: int| 0 <= j < reported.len() && combined(d.changed[k], #[trigger] reported[j], classinfos);
    lemma_commit_entry(after_trim, d.prev, reported, j);
    assert(effective_state(offers[i], cancelled) == TradeOfferState::Canceled);
    if d.prev.contains_key(id) {
        let j2 = choose|j2: int| 0 <= j2 < offers.len() && (#[trigger] offers[j2]).tradeofferid == id;
        if j2 != i {
            if j2 < i {
                assert(offers[j2].tradeofferid != offers[i].tradeofferid);
            } else {
                assert(offers[i].tradeofferid != offers[j2].tradeofferid);
            }
        }
    }
    if sm.contains_key(id) {
        assert(d.prev.contains_key(offers[i].tradeofferid));
    }
}

} // verus!
