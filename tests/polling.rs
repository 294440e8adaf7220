use std::collections::HashMap;
use std::sync::Arc;
use steam_tradeoffers::classinfo_map::ClassInfoMap;
use steam_tradeoffers::error::Error;
use steam_tradeoffers::offers::{map_raw_trade_offers_with_descriptions, RawAsset, RawTradeOffer, TradeOfferState};
use steam_tradeoffers::poll_data::PollData;
use steam_tradeoffers::poller::{PollType, Poller, OFFERS_SINCE_ALL_TIMESTAMP, OFFERS_SINCE_NEW_ONLY_TIMESTAMP};
use steam_tradeoffers::supervisor::PollCommands;
use steam_tradeoffers::types::{ClassInfo, ClassKey};

const NOW: i64 = 1_700_000_000;
const DAY: i64 = 86_400;

fn asset(classid: u64) -> RawAsset {
    RawAsset { appid: 440, contextid: 2, assetid: 1000 + classid, classid, instanceid: None, amount: 1, missing: false }
}

fn raw_offer(id: u64, state: TradeOfferState, ours: bool, created: i64) -> RawTradeOffer {
    RawTradeOffer {
        tradeofferid: id,
        tradeid: None,
        partner: 76561198000000000,
        message: None,
        items_to_give: vec![asset(1)],
        items_to_receive: Vec::new(),
        is_our_offer: ours,
        from_real_time_trade: false,
        expiration_time: created + 14 * DAY,
        time_created: created,
        time_updated: created + 10,
        trade_offer_state: state,
        escrow_end_date: 0,
        confirmation_method: 0,
    }
}

fn descriptions() -> ClassInfoMap {
    let mut map = ClassInfoMap::new();
    map.insert(
        ClassKey::new(440, 1, None),
        Arc::new(ClassInfo {
            name: "Refined Metal".to_string(),
            market_hash_name: "Refined Metal".to_string(),
            tradable: true,
            marketable: false,
        }),
    );
    map
}

fn poller(states: &[(u64, TradeOfferState)], cancel_duration: Option<i64>) -> Poller {
    let mut poll_data = PollData::new();
    for (id, state) in states {
        poll_data.state_map.insert(*id, *state);
    }
    poll_data.last_poll_full_update = Some(NOW - 60);
    poll_data.offers_since = Some(NOW - 3600);
    Poller { poll_data, cancel_duration, poll_full_update_duration: 5 * 60 }
}

#[test]
fn cycle_reports_changed_and_new_offers() {
    let mut p = poller(&[(1, TradeOfferState::Active)], None);
    let plan = p.plan(PollType::Auto, NOW);
    let offers = vec![
        raw_offer(1, TradeOfferState::Accepted, false, NOW - 100),
        raw_offer(2, TradeOfferState::Active, false, NOW - 50),
    ];
    let (changed, prev) = p.reconcile(plan, NOW, offers, &Vec::new());
    let mapped = map_raw_trade_offers_with_descriptions(changed, &descriptions());
    let poll = p.commit(mapped, prev);
    assert_eq!(poll.len(), 2);
    assert_eq!(poll[0].0.tradeofferid, 1);
    assert_eq!(poll[0].0.trade_offer_state, TradeOfferState::Accepted);
    assert_eq!(poll[0].1, Some(TradeOfferState::Active));
    assert_eq!(poll[1].0.tradeofferid, 2);
    assert_eq!(poll[1].1, None);
    let mut expected = HashMap::new();
    expected.insert(1u64, TradeOfferState::Accepted);
    expected.insert(2u64, TradeOfferState::Active);
    assert_eq!(p.poll_data.state_map, expected);
    assert!(p.take_changed());
    assert!(!p.take_changed());
}

#[test]
fn quiet_cycle_reports_nothing_and_stays_clean() {
    let mut p = poller(&[(1, TradeOfferState::Active), (2, TradeOfferState::Accepted)], None);
    let plan = p.plan(PollType::NewOffers, NOW);
    assert_eq!(plan.offers_since, OFFERS_SINCE_NEW_ONLY_TIMESTAMP);
    assert!(plan.active_only && !plan.full_update && plan.get_descriptions);
    let offers = vec![
        raw_offer(1, TradeOfferState::Active, false, NOW - 100),
        raw_offer(2, TradeOfferState::Accepted, false, NOW - 100),
    ];
    let (changed, prev) = p.reconcile(plan, NOW, offers, &Vec::new());
    assert!(changed.is_empty());
    assert!(prev.is_empty());
    let poll = p.commit(map_raw_trade_offers_with_descriptions(changed, &descriptions()), prev);
    assert!(poll.is_empty());
    assert!(!p.take_changed());
    assert_eq!(p.poll_data.offers_since, Some(NOW - 3600));
}

#[test]
fn quiet_incremental_cycle_reports_nothing_and_stays_clean() {
    let mut p = poller(&[(1, TradeOfferState::Active)], None);
    let before_since = p.poll_data.offers_since;
    let before_last_poll = p.poll_data.last_poll;
    let plan = p.plan(PollType::Auto, NOW);
    assert!(plan.active_only && !plan.full_update);
    let offers = vec![raw_offer(1, TradeOfferState::Active, false, NOW - 100)];
    let (changed, prev) = p.reconcile(plan, NOW, offers, &Vec::new());
    assert!(changed.is_empty());
    let poll = p.commit(map_raw_trade_offers_with_descriptions(changed, &descriptions()), prev);
    assert!(poll.is_empty());
    assert!(!p.take_changed());
    assert_eq!(p.poll_data.offers_since, before_since);
    assert_eq!(p.poll_data.last_poll, before_last_poll);
}

#[test]
fn empty_incremental_cycle_stays_clean() {
    let mut p = poller(&[], None);
    let plan = p.plan(PollType::Auto, NOW);
    let (changed, prev) = p.reconcile(plan, NOW, Vec::new(), &Vec::new());
    assert!(p.commit(map_raw_trade_offers_with_descriptions(changed, &descriptions()), prev).is_empty());
    assert!(!p.take_changed());
}

#[test]
fn auto_poll_looks_back_a_buffer_before_the_mark() {
    let p = poller(&[], None);
    let plan = p.plan(PollType::Auto, NOW);
    assert_eq!(plan.offers_since, NOW - 3600 - 1800);
    assert_eq!(plan.historical_cutoff, NOW - 5400);
    assert!(plan.active_only);
    assert!(!plan.full_update);
    assert!(!plan.get_descriptions);
}

#[test]
fn stale_full_update_forces_a_full_poll() {
    let mut p = poller(&[], None);
    p.poll_data.last_poll_full_update = Some(NOW - 301);
    let plan = p.plan(PollType::Auto, NOW);
    assert_eq!(plan.offers_since, OFFERS_SINCE_ALL_TIMESTAMP);
    assert!(!plan.active_only);
    assert!(plan.full_update);
    p.poll_data.last_poll_full_update = None;
    assert!(p.plan(PollType::Auto, NOW).full_update);
    let explicit = p.plan(PollType::FullUpdate, NOW);
    assert!(explicit.full_update && !explicit.active_only);
    let since = p.plan(PollType::OffersSince(NOW - DAY), NOW);
    assert_eq!(since.offers_since, NOW - DAY);
    assert!(!since.full_update && !since.active_only);
}

#[test]
fn first_poll_starts_from_all_time() {
    let mut p = poller(&[], None);
    p.poll_data.offers_since = None;
    let plan = p.plan(PollType::Auto, NOW);
    assert_eq!(plan.offers_since, OFFERS_SINCE_ALL_TIMESTAMP);
}

#[test]
fn full_cycle_records_poll_times_and_advances_the_mark() {
    let mut p = poller(&[], None);
    let plan = p.plan(PollType::FullUpdate, NOW);
    let offers = vec![raw_offer(7, TradeOfferState::Active, false, NOW - 20)];
    let (changed, _prev) = p.reconcile(plan, NOW, offers, &Vec::new());
    assert_eq!(changed.len(), 1);
    assert_eq!(p.poll_data.last_poll, Some(NOW));
    assert_eq!(p.poll_data.last_poll_full_update, Some(NOW));
    assert_eq!(p.poll_data.offers_since, Some(NOW - 10));
    assert!(p.poll_data.changed);
}

#[test]
fn glitched_offers_are_skipped() {
    let mut p = poller(&[], None);
    let plan = p.plan(PollType::Auto, NOW);
    let mut glitched = raw_offer(3, TradeOfferState::Active, false, NOW);
    glitched.items_to_give.clear();
    assert!(glitched.is_glitched());
    let (changed, _) = p.reconcile(plan, NOW, vec![glitched], &Vec::new());
    assert!(changed.is_empty());
}

#[test]
fn offers_without_descriptions_are_held_back() {
    let mut p = poller(&[], None);
    let plan = p.plan(PollType::Auto, NOW);
    let mut unknown = raw_offer(4, TradeOfferState::Active, false, NOW);
    unknown.items_to_receive.push(asset(99));
    let offers = vec![unknown, raw_offer(5, TradeOfferState::Active, false, NOW)];
    let (changed, prev) = p.reconcile(plan, NOW, offers, &Vec::new());
    assert_eq!(changed.len(), 2);
    let mapped = map_raw_trade_offers_with_descriptions(changed, &descriptions());
    assert_eq!(mapped.len(), 1);
    let poll = p.commit(mapped, prev);
    assert_eq!(poll[0].0.tradeofferid, 5);
    assert!(!p.poll_data.state_map.contains_key(&4));
    assert!(p.poll_data.state_map.contains_key(&5));
}

#[test]
fn trimming_keeps_the_highest_ids() {
    let mut data = PollData::new();
    for i in 0..2501u64 {
        let id = (i * 7919) % 2501 + 1;
        data.state_map.insert(id, TradeOfferState::Accepted);
    }
    assert_eq!(data.state_map.len(), 2501);
    data.trim_state_map();
    assert_eq!(data.state_map.len(), 2000);
    assert!(data.changed);
    for id in 1..=501u64 {
        assert!(!data.state_map.contains_key(&id));
    }
    for id in 502..=2501u64 {
        assert!(data.state_map.contains_key(&id));
    }
}

#[test]
fn trimming_leaves_small_maps_alone() {
    let mut data = PollData::new();
    for id in 0..2500u64 {
        data.state_map.insert(id, TradeOfferState::Active);
    }
    data.trim_state_map();
    assert_eq!(data.state_map.len(), 2500);
    assert!(!data.changed);
}

#[test]
fn expired_offers_are_cancelled_and_reported_canceled() {
    let mut p = poller(&[(10, TradeOfferState::Active)], Some(DAY));
    let offers = vec![
        raw_offer(10, TradeOfferState::Active, true, NOW - 2 * DAY),
        raw_offer(11, TradeOfferState::CreatedNeedsConfirmation, true, NOW - 3 * DAY),
        raw_offer(12, TradeOfferState::Active, false, NOW - 3 * DAY),
        raw_offer(13, TradeOfferState::Active, true, NOW - 60),
        raw_offer(14, TradeOfferState::Accepted, true, NOW - 3 * DAY),
    ];
    let to_cancel = p.offers_to_cancel(&offers, NOW);
    assert_eq!(to_cancel, vec![10, 11]);
    let plan = p.plan(PollType::Auto, NOW);
    let cancelled = vec![10];
    let (changed, prev) = p.reconcile(plan, NOW, offers, &cancelled);
    let first = &changed[0];
    assert_eq!(first.tradeofferid, 10);
    assert_eq!(first.trade_offer_state, TradeOfferState::Canceled);
    assert_eq!(prev.get(&10), Some(&TradeOfferState::Active));
    assert_eq!(changed[1].trade_offer_state, TradeOfferState::CreatedNeedsConfirmation);
}

#[test]
fn no_cancellation_without_a_duration() {
    let p = poller(&[], None);
    let offers = vec![raw_offer(10, TradeOfferState::Active, true, 0)];
    assert!(p.offers_to_cancel(&offers, NOW).is_empty());
}

#[test]
fn excess_poll_requests_get_backpressure() {
    let mut commands = PollCommands::new(2);
    assert_eq!(commands.request_poll(PollType::Auto), Err(Error::PollingNotSetup));
    commands.start();
    assert!(commands.is_running());
    assert_eq!(commands.request_poll(PollType::Auto), Ok(()));
    assert_eq!(commands.request_poll(PollType::FullUpdate), Ok(()));
    assert_eq!(commands.request_poll(PollType::NewOffers), Err(Error::PollingBufferFull));
    assert_eq!(commands.request_poll(PollType::NewOffers), Err(Error::PollingBufferFull));
    assert_eq!(commands.next_command(), Some(PollType::Auto));
    assert_eq!(commands.request_poll(PollType::NewOffers), Ok(()));
    assert_eq!(commands.next_command(), Some(PollType::FullUpdate));
    assert_eq!(commands.next_command(), Some(PollType::NewOffers));
    assert_eq!(commands.next_command(), None);
    commands.stop();
    assert_eq!(commands.request_poll(PollType::Auto), Err(Error::PollingNotSetup));
}

#[test]
fn poll_data_mutators_mark_changes() {
    let mut data = PollData::new();
    assert!(!data.changed);
    assert!(data.last_full_poll_is_stale(300, NOW));
    data.set_last_poll_full_update(NOW - 299);
    assert!(data.changed);
    assert!(!data.last_full_poll_is_stale(300, NOW));
    assert!(data.last_full_poll_is_stale(299, NOW));
    data.state_map.insert(1, TradeOfferState::Active);
    data.state_map.insert(2, TradeOfferState::Active);
    data.changed = false;
    data.clear_offers(&[1, 3]);
    assert!(data.changed);
    assert_eq!(data.state_map.len(), 1);
    assert!(data.state_map.contains_key(&2));
    data.set_offers_since(NOW);
    data.set_last_poll(NOW);
    assert_eq!(data.offers_since, Some(NOW));
    assert_eq!(data.last_poll, Some(NOW));
}

#[test]
fn expired_offer_is_committed_as_canceled() {
    let mut p = poller(&[(10, TradeOfferState::Active)], Some(DAY));
    let offers = vec![raw_offer(10, TradeOfferState::Active, true, NOW - 2 * DAY)];
    assert_eq!(p.offers_to_cancel(&offers, NOW), vec![10]);
    let plan = p.plan(PollType::Auto, NOW);
    let (changed, prev) = p.reconcile(plan, NOW, offers, &vec![10]);
    let poll = p.commit(map_raw_trade_offers_with_descriptions(changed, &descriptions()), prev);
    assert_eq!(poll.len(), 1);
    assert_eq!(poll[0].0.trade_offer_state, TradeOfferState::Canceled);
    assert_eq!(poll[0].1, Some(TradeOfferState::Active));
    assert_eq!(p.poll_data.state_map.get(&10), Some(&TradeOfferState::Canceled));
}

#[test]
fn trimming_cycle_keeps_highest_ids_and_records_new_offers() {
    let states: Vec<(u64, TradeOfferState)> = (1..=2501u64).map(|id| (id, TradeOfferState::Accepted)).collect();
    let mut p = poller(&states, None);
    let plan = p.plan(PollType::Auto, NOW);
    let offers = vec![raw_offer(5000, TradeOfferState::Active, false, NOW - 10)];
    let (changed, prev) = p.reconcile(plan, NOW, offers, &Vec::new());
    assert_eq!(p.poll_data.state_map.len(), 2000);
    let poll = p.commit(map_raw_trade_offers_with_descriptions(changed, &descriptions()), prev);
    assert_eq!(poll.len(), 1);
    assert_eq!(p.poll_data.state_map.len(), 2001);
    assert!(p.poll_data.state_map.contains_key(&5000));
    assert!((502..=2501u64).all(|id| p.poll_data.state_map.contains_key(&id)));
    assert!((1..=501u64).all(|id| !p.poll_data.state_map.contains_key(&id)));
}
