use std::sync::Arc;
use steam_tradeoffers::api::{inventory_with_classinfos, next_inventory_page, next_offers_cursor, offer_class_keys, PageStep};
use steam_tradeoffers::classinfo_map::ClassInfoMap;
use steam_tradeoffers::error::{Error, ParameterError};
use steam_tradeoffers::items::{is_key, metal_value};
use steam_tradeoffers::manager::{
    accept_offer_allowed, apply_offer_update, cancel_offer_allowed, decline_offer_allowed, filter_trade_offers,
    find_confirmation, new_offer_version, receipt_trade_id, set_offer_state, Confirmation, NewTradeOffer,
    NewTradeOfferItem,
};
use steam_tradeoffers::offers::{RawAsset, RawTradeOffer, TradeOffer, TradeOfferState};
use steam_tradeoffers::time::{
    date_difference_from_now, difference, get_server_time_now, timestamp_to_server_time, MAX_TIMESTAMP, MIN_TIMESTAMP,
};
use steam_tradeoffers::types::{ClassInfo, ClassKey};

fn asset(appid: u32, classid: u64, instanceid: Option<u64>) -> RawAsset {
    RawAsset { appid, contextid: 2, assetid: classid * 10, classid, instanceid, amount: 1, missing: false }
}

fn raw(id: u64, give: Vec<RawAsset>, receive: Vec<RawAsset>) -> RawTradeOffer {
    RawTradeOffer {
        tradeofferid: id,
        tradeid: Some(id + 1),
        partner: 1,
        message: Some("hi".to_string()),
        items_to_give: give,
        items_to_receive: receive,
        is_our_offer: false,
        from_real_time_trade: false,
        expiration_time: 0,
        time_created: 100,
        time_updated: 200,
        trade_offer_state: TradeOfferState::Active,
        escrow_end_date: 0,
        confirmation_method: 0,
    }
}

fn named(name: &str, tradable: bool) -> Arc<ClassInfo> {
    Arc::new(ClassInfo { name: name.to_string(), market_hash_name: name.to_string(), tradable, marketable: true })
}

fn map_of(entries: &[(ClassKey, Arc<ClassInfo>)]) -> ClassInfoMap {
    let mut map = ClassInfoMap::new();
    for (k, v) in entries {
        map.insert(*k, Arc::clone(v));
    }
    map
}

fn combined(state: TradeOfferState, ours: bool, receive: Vec<RawAsset>) -> TradeOffer {
    let map = map_of(&[(ClassKey::new(440, 1, None), named("Scrap Metal", true))]);
    let mut r = raw(5, vec![asset(440, 1, None)], receive);
    r.trade_offer_state = state;
    r.is_our_offer = ours;
    r.try_combine_classinfos(&map).unwrap()
}

#[test]
fn combining_attaches_metadata_or_names_the_missing_class() {
    let map = map_of(&[(ClassKey::new(440, 1, None), named("Scrap Metal", true))]);
    let offer = raw(1, vec![asset(440, 1, None)], vec![asset(440, 1, None)]).try_combine_classinfos(&map).unwrap();
    assert_eq!(offer.items_to_give.len(), 1);
    assert_eq!(offer.items_to_receive[0].classinfo.name, "Scrap Metal");
    assert_eq!(offer.items_to_give[0].assetid, 10);
    assert_eq!(offer.message, Some("hi".to_string()));
    let missing = raw(2, vec![asset(440, 1, None)], vec![asset(440, 2, Some(3)), asset(440, 4, None)]);
    match missing.try_combine_classinfos(&map) {
        Err(Error::MissingClassInfo(k)) => assert_eq!(k, ClassKey::new(440, 2, Some(3))),
        _ => panic!("expected a missing class"),
    }
}

#[test]
fn offer_actions_check_their_preconditions() {
    let theirs = combined(TradeOfferState::Active, false, Vec::new());
    let ours = combined(TradeOfferState::Active, true, Vec::new());
    let declined = combined(TradeOfferState::Declined, false, Vec::new());
    assert_eq!(accept_offer_allowed(&theirs), Ok(()));
    assert_eq!(accept_offer_allowed(&ours), Err(Error::Parameter(ParameterError::CannotAcceptOwnOffer)));
    assert_eq!(accept_offer_allowed(&declined), Err(Error::Parameter(ParameterError::CannotAcceptInactiveOffer)));
    assert_eq!(cancel_offer_allowed(&ours), Ok(()));
    assert_eq!(cancel_offer_allowed(&theirs), Err(Error::Parameter(ParameterError::CannotCancelTheirOffer)));
    assert_eq!(decline_offer_allowed(&theirs), Ok(()));
    assert_eq!(decline_offer_allowed(&ours), Err(Error::Parameter(ParameterError::CannotDeclineOwnOffer)));
    let mut offer = theirs;
    set_offer_state(&mut offer, TradeOfferState::Accepted);
    assert_eq!(offer.trade_offer_state, TradeOfferState::Accepted);
}

#[test]
fn receipts_need_an_accepted_offer_with_a_trade() {
    let active = combined(TradeOfferState::Active, false, Vec::new());
    assert_eq!(receipt_trade_id(&active), Err(Error::Parameter(ParameterError::NotAccepted)));
    let nothing_received = combined(TradeOfferState::Accepted, false, Vec::new());
    assert_eq!(receipt_trade_id(&nothing_received), Ok(None));
    let mut received = combined(TradeOfferState::Accepted, false, vec![asset(440, 1, None)]);
    assert_eq!(receipt_trade_id(&received), Ok(Some(6)));
    received.tradeid = None;
    assert_eq!(receipt_trade_id(&received), Err(Error::Parameter(ParameterError::MissingTradeId)));
}

#[test]
fn listings_are_trimmed_to_the_filter() {
    let offers = || {
        vec![
            combined(TradeOfferState::Active, false, Vec::new()),
            combined(TradeOfferState::Accepted, false, Vec::new()),
            combined(TradeOfferState::Active, true, Vec::new()),
        ]
    };
    let active = filter_trade_offers(offers(), true, false);
    assert_eq!(active.len(), 2);
    assert!(active.iter().all(|o| o.trade_offer_state == TradeOfferState::Active));
    let historical = filter_trade_offers(offers(), false, true);
    assert_eq!(historical.len(), 1);
    assert_eq!(historical[0].trade_offer_state, TradeOfferState::Accepted);
    assert_eq!(filter_trade_offers(offers(), false, false).len(), 3);
}

#[test]
fn confirmations_are_found_by_creator() {
    let confirmations = vec![
        Confirmation { id: 1, key: 11, creator: 100 },
        Confirmation { id: 2, key: 22, creator: 200 },
        Confirmation { id: 3, key: 33, creator: 200 },
    ];
    assert_eq!(find_confirmation(&confirmations, 200), Ok(1));
    assert_eq!(find_confirmation(&confirmations, 300), Err(Error::NoConfirmationForOffer(300)));
}

#[test]
fn offer_updates_copy_the_remote_fields() {
    let mut offer = combined(TradeOfferState::Active, false, Vec::new());
    let mut updated = raw(5, Vec::new(), Vec::new());
    updated.trade_offer_state = TradeOfferState::Accepted;
    updated.tradeid = Some(77);
    updated.time_updated = 999;
    apply_offer_update(&mut offer, &updated);
    assert_eq!(offer.trade_offer_state, TradeOfferState::Accepted);
    assert_eq!(offer.tradeid, Some(77));
    assert_eq!(offer.time_updated, 999);
    assert_eq!(offer.items_to_give.len(), 1);
}

#[test]
fn offer_pages_stop_past_the_cutoff_or_without_a_cursor() {
    let page = vec![raw(1, Vec::new(), Vec::new())];
    assert_eq!(next_offers_cursor(None, &page, Some(5)), Some(5));
    assert_eq!(next_offers_cursor(Some(50), &page, Some(5)), Some(5));
    assert_eq!(next_offers_cursor(Some(101), &page, Some(5)), None);
    assert_eq!(next_offers_cursor(None, &page, Some(0)), None);
    assert_eq!(next_offers_cursor(None, &page, None), None);
}

#[test]
fn inventory_pages() {
    assert_eq!(next_inventory_page(false, true, None, Some(3)), Err(Error::ResponseUnsuccessful));
    assert_eq!(next_inventory_page(true, true, None, Some(3)), Ok(PageStep::Continue(Some(3))));
    assert_eq!(next_inventory_page(true, true, Some(3), Some(3)), Err(Error::MalformedResponse));
    assert_eq!(next_inventory_page(true, false, Some(3), Some(3)), Ok(PageStep::Done));
}

#[test]
fn inventories_attach_metadata_and_filter_untradable() {
    let map = map_of(&[
        (ClassKey::new(440, 1, None), named("Key", true)),
        (ClassKey::new(440, 2, Some(0)), named("Medal", false)),
    ]);
    let items = vec![asset(440, 1, None), asset(440, 2, Some(0))];
    let all = inventory_with_classinfos(440, 2, &items, &map, false).unwrap();
    assert_eq!(all.len(), 2);
    assert_eq!(all[1].classinfo.name, "Medal");
    let tradable = inventory_with_classinfos(440, 2, &items, &map, true).unwrap();
    assert_eq!(tradable.len(), 1);
    assert_eq!(tradable[0].assetid, 10);
    let missing = vec![asset(440, 1, None), asset(440, 3, None)];
    assert!(matches!(
        inventory_with_classinfos(440, 2, &missing, &map, true),
        Err(Error::MissingClassInfo(k)) if k == ClassKey::new(440, 3, None)
    ));
}

#[test]
fn class_keys_of_offers_are_distinct() {
    let offers = vec![
        raw(1, vec![asset(440, 1, None), asset(440, 1, None)], vec![asset(730, 2, Some(1))]),
        raw(2, Vec::new(), vec![asset(440, 1, None), asset(440, 1, Some(0))]),
    ];
    let mut keys = offer_class_keys(&offers);
    keys.sort_by_key(|k| (k.appid, k.classid, k.instanceid));
    assert_eq!(
        keys,
        vec![ClassKey::new(440, 1, None), ClassKey::new(440, 1, Some(0)), ClassKey::new(730, 2, Some(1))]
    );
}

#[test]
fn currency_items_are_valued() {
    let map = map_of(&[
        (ClassKey::new(440, 1, None), named("Refined Metal", true)),
        (ClassKey::new(440, 2, None), named("Reclaimed Metal", true)),
        (ClassKey::new(440, 3, None), named("Scrap Metal", true)),
        (ClassKey::new(440, 4, None), named("Mann Co. Supply Crate Key", true)),
        (ClassKey::new(730, 1, None), named("Refined Metal", true)),
    ]);
    let items = vec![asset(440, 1, None), asset(440, 2, None), asset(440, 3, None), asset(440, 4, None)];
    let inventory = inventory_with_classinfos(440, 2, &items, &map, false).unwrap();
    let values: Vec<Option<u32>> = inventory.iter().map(metal_value).collect();
    assert_eq!(values, vec![Some(18), Some(6), Some(2), None]);
    assert!(is_key(&inventory[3]));
    assert!(!is_key(&inventory[0]));
    let other_game = inventory_with_classinfos(730, 2, &vec![asset(730, 1, None)], &map, false).unwrap();
    assert_eq!(metal_value(&other_game[0]), None);
}

#[test]
fn timestamps_convert_within_range_and_fall_back_to_the_epoch() {
    assert_eq!(timestamp_to_server_time(1_700_000_000), 1_700_000_000);
    assert_eq!(timestamp_to_server_time(4294967295), 4294967295);
    assert_eq!(timestamp_to_server_time(-86_400), -86_400);
    assert_eq!(timestamp_to_server_time(i64::MAX), 0);
    assert_eq!(timestamp_to_server_time(i64::MIN), 0);
}

#[test]
fn differences_saturate() {
    assert_eq!(difference(10, 5), -5);
    assert_eq!(difference(5, 10), 5);
    assert_eq!(difference(i64::MIN, 1), i64::MAX);
    assert_eq!(difference(1, i64::MIN), i64::MIN);
    assert_eq!(difference(-1, i64::MIN), i64::MIN + 1);
    assert_eq!(difference(i64::MAX, i64::MIN), i64::MIN);
    let now = get_server_time_now();
    assert!(now > 1_600_000_000);
    let elapsed = date_difference_from_now(&(now - 100));
    assert!(elapsed >= 100 && elapsed < 200);
}

#[test]
fn new_offers_need_items() {
    let item = NewTradeOfferItem { appid: 440, contextid: 2, amount: 1, assetid: 10863796759 };
    let mut offer = NewTradeOffer { partner: 76561198130682435, items_to_give: Vec::new(), items_to_receive: Vec::new(), message: None, token: None };
    assert_eq!(new_offer_version(&offer), Err(Error::Parameter(ParameterError::EmptyOffer)));
    offer.items_to_give.push(item);
    offer.items_to_receive.push(item);
    assert_eq!(new_offer_version(&offer), Ok(3));
}

#[test]
fn timestamps_convert_up_to_the_calendar_bounds() {
    assert_eq!(timestamp_to_server_time(MAX_TIMESTAMP), MAX_TIMESTAMP);
    assert_eq!(timestamp_to_server_time(MAX_TIMESTAMP + 1), 0);
    assert_eq!(timestamp_to_server_time(MIN_TIMESTAMP), MIN_TIMESTAMP);
    assert_eq!(timestamp_to_server_time(MIN_TIMESTAMP - 1), 0);
}
