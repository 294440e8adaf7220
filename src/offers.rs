use std::sync::Arc;
use vstd::prelude::*;
use crate::classinfo_map::ClassInfoMap;
use crate::error::Error;
use crate::types::{ClassInfo, ClassKey};

verus! {

/// The state of a trade offer.
#[derive(Clone, Copy, Debug, PartialEq, Eq, Structural, Hash)]
pub enum TradeOfferState {
    Invalid,
    Active,
    Accepted,
    Countered,
    Expired,
    Canceled,
    Declined,
    InvalidItems,
    CreatedNeedsConfirmation,
    CanceledBySecondFactor,
    InEscrow,
}

/// An item in an offer, referring to its class by key.
#[derive(Clone, Copy, Debug, PartialEq, Eq)]
pub struct RawAsset {
    pub appid: u32,
    pub contextid: u64,
    pub assetid: u64,
    pub classid: u64,
    pub instanceid: Option<u64>,
    pub amount: u32,
    pub missing: bool,
}

impl RawAsset {
    pub open spec fn key(self) -> ClassKey {
        ClassKey { appid: self.appid, classid: self.classid, instanceid: self.instanceid }
    }

    pub fn class_key(&self) -> (r: ClassKey)
        ensures
            r == self.key(),
    {
        ClassKey { appid: self.appid, classid: self.classid, instanceid: self.instanceid }
    }
}

/// An item in an offer together with the metadata of its class.
#[derive(Debug)]
pub struct Asset {
    pub appid: u32,
    pub contextid: u64,
    pub assetid: u64,
    pub amount: u32,
    pub missing: bool,
    pub classinfo: Arc<ClassInfo>,
}

/// The asset that `raw` becomes with the metadata `classinfo`.
pub open spec fn attach(raw: RawAsset, classinfo: Arc<ClassInfo>) -> Asset {
    Asset {
        appid: raw.appid,
        contextid: raw.contextid,
        assetid: raw.assetid,
        amount: raw.amount,
        missing: raw.missing,
        classinfo,
    }
}

/// A trade offer as the remote source describes it, before metadata is attached.
#[derive(Debug)]
pub struct RawTradeOffer {
    pub tradeofferid: u64,
    pub tradeid: Option<u64>,
    pub partner: u64,
    pub message: Option<String>,
    pub items_to_give: Vec<RawAsset>,
    pub items_to_receive: Vec<RawAsset>,
    pub is_our_offer: bool,
    pub from_real_time_trade: bool,
    pub expiration_time: i64,
    pub time_created: i64,
    pub time_updated: i64,
    pub trade_offer_state: TradeOfferState,
    pub escrow_end_date: i64,
    pub confirmation_method: u8,
}

/// A trade offer whose items carry their class metadata.
#[derive(Debug)]
pub struct TradeOffer {
    pub tradeofferid: u64,
    pub tradeid: Option<u64>,
    pub partner: u64,
    pub message: Option<String>,
    pub items_to_give: Vec<Asset>,
    pub items_to_receive: Vec<Asset>,
    pub is_our_offer: bool,
    pub from_real_time_trade: bool,
    pub expiration_time: i64,
    pub time_created: i64,
    pub time_updated: i64,
    pub trade_offer_state: TradeOfferState,
    pub escrow_end_date: i64,
    pub confirmation_method: u8,
}

/// The first item of `items` whose class `m` lacks.
pub open spec fn first_missing(items: Seq<RawAsset>, m: Map<ClassKey, Arc<ClassInfo>>) -> Option<ClassKey>
    decreases items.len(),
{
    if items.len() == 0 {
        None
    } else if !m.contains_key(items[0].key()) {
        Some(items[0].key())
    } else {
        first_missing(items.drop_first(), m)
    }
}

/// `assets` are `items` with the metadata of `m` attached.
pub open spec fn attached(items: Seq<RawAsset>, assets: Seq<Asset>, m: Map<ClassKey, Arc<ClassInfo>>) -> bool {
    &&& assets.len() == items.len()
    &&& forall|i: int| 0 <= i < items.len() ==> #[trigger] assets[i] == attach(items[i], m[items[i].key()])
}

/// `offer` is `raw` with the metadata of `m` attached to every item.
pub open spec fn combined(raw: RawTradeOffer, offer: TradeOffer, m: Map<ClassKey, Arc<ClassInfo>>) -> bool {
    &&& attached(raw.items_to_give@, offer.items_to_give@, m)
    &&& attached(raw.items_to_receive@, offer.items_to_receive@, m)
    &&& offer.tradeofferid == raw.tradeofferid
    &&& offer.tradeid == raw.tradeid
    &&& offer.partner == raw.partner
    &&& offer.message == raw.message
    &&& offer.is_our_offer == raw.is_our_offer
    &&& offer.from_real_time_trade == raw.from_real_time_trade
    &&& offer.expiration_time == raw.expiration_time
    &&& offer.time_created == raw.time_created
    &&& offer.time_updated == raw.time_updated
    &&& offer.trade_offer_state == raw.trade_offer_state
    &&& offer.escrow_end_date == raw.escrow_end_date
    &&& offer.confirmation_method == raw.confirmation_method
}

/// The class missing from `m` that stops `raw` from being combined, if any.
pub open spec fn offer_missing(raw: RawTradeOffer, m: Map<ClassKey, Arc<ClassInfo>>) -> Option<ClassKey> {
    match first_missing(raw.items_to_give@, m) {
        Some(k) => Some(k),
        None => first_missing(raw.items_to_receive@, m),
    }
}

fn attach_all(items: &Vec<RawAsset>, map: &ClassInfoMap) -> (r: Result<Vec<Asset>, ClassKey>)
    requires
        map.wf(),
    ensures
        match (r, first_missing(items@, map@)) {
            (Ok(assets), None) => attached(items@, assets@, map@),
            (Err(k), Some(j)) => k == j,
            _ => false,
        },
{
    let mut assets: Vec<Asset> = Vec::new();
    let mut i: usize = 0;
    assert(items@.skip(0) =~= items@);
    while i < items.len()
        invariant
            map.wf(),
            i <= items@.len(),
            first_missing(items@, map@) == first_missing(items@.skip(i as int), map@),
            forall|j: int| 0 <= j < i ==> map@.contains_key(#[trigger] items@[j].key()),
            assets@.len() == i,
            forall|j: int| 0 <= j < i ==> #[trigger] assets@[j] == attach(items@[j], map@[items@[j].key()]),
        decreases items@.len() - i,
    {
        let item = &items[i];
        let key = item.class_key();
        assert(items@.skip(i as int)[0] == items@[i as int]);
        match map.get(&key) {
            Some(classinfo) => {
                assets.push(
                    Asset {
                        appid: item.appid,
                        contextid: item.contextid,
                        assetid: item.assetid,
                        amount: item.amount,
                        missing: item.missing,
                        classinfo,
                    },
                );
                assert(items@.skip(i as int).drop_first() =~= items@.skip(i + 1));
            },
            None => {
                return Err(key);
            },
        }
        i = i + 1;
    }
    assert(items@.skip(i as int).len() == 0);
    Ok(assets)
}

impl RawTradeOffer {
    /// A glitched offer lists no items at all; it cannot be acted on.
    pub open spec fn glitched(&self) -> bool {
        self.items_to_give@.len() == 0 && self.items_to_receive@.len() == 0
    }

    pub fn is_glitched(&self) -> (r: bool)
        ensures
            r == self.glitched(),
    {
        self.items_to_give.len() == 0 && self.items_to_receive.len() == 0
    }

    /// Attaches the metadata in `map` to every item, failing with the first
    /// class that `map` lacks.
    pub fn try_combine_classinfos(self, map: &ClassInfoMap) -> (r: Result<TradeOffer, Error>)
        requires
            map.wf(),
        ensures
            match (r, offer_missing(self, map@)) {
                (Ok(offer), None) => combined(self, offer, map@),
                (Err(e), Some(k)) => e == Error::MissingClassInfo(k),
                _ => false,
            },
    {
        let items_to_give = match attach_all(&self.items_to_give, map) {
            Ok(assets) => assets,
            Err(k) => {
                return Err(Error::MissingClassInfo(k));
            },
        };
        let items_to_receive = match attach_all(&self.items_to_receive, map) {
            Ok(assets) => assets,
            Err(k) => {
                return Err(Error::MissingClassInfo(k));
            },
        };
        Ok(
            TradeOffer {
                tradeofferid: self.tradeofferid,
                tradeid: self.tradeid,
                partner: self.partner,
                message: self.message,
                items_to_give,
                items_to_receive,
                is_our_offer: self.is_our_offer,
                from_real_time_trade: self.from_real_time_trade,
                expiration_time: self.expiration_time,
                time_created: self.time_created,
                time_updated: self.time_updated,
                trade_offer_state: self.trade_offer_state,
                escrow_end_date: self.escrow_end_date,
                confirmation_method: self.confirmation_method,
            },
        )
    }
}

/// The offers of `raws` that `m` has all metadata for, combined with it, in order.
pub open spec fn combined_all(raws: Seq<RawTradeOffer>, offers: Seq<TradeOffer>, m: Map<ClassKey, Arc<ClassInfo>>) -> bool
    decreases raws.len(),
{
    if raws.len() == 0 {
        offers.len() == 0
    } else if offer_missing(raws.last(), m) is None {
        offers.len() > 0 && combined(raws.last(), offers.last(), m) && combined_all(
            raws.drop_last(),
            offers.drop_last(),
            m,
        )
    } else {
        combined_all(raws.drop_last(), offers, m)
    }
}

/// Attaches metadata to each offer, leaving out the offers that refer to a
/// class `map` lacks; those are retried on a later poll.
pub fn map_raw_trade_offers_with_descriptions(offers: Vec<RawTradeOffer>, map: &ClassInfoMap) -> (r: Vec<TradeOffer>)
    requires
        map.wf(),
    ensures
        combined_all(offers@, r@, map@),
{
    let mut offers = offers;
    let ghost all = offers@;
    let ghost n = all.len();
    // Move the offers out from the back, then take them in their order.
    let mut reversed: Vec<RawTradeOffer> = Vec::new();
    while offers.len() > 0
        invariant
            n == all.len(),
            offers@ == all.take(offers@.len() as int),
            offers@.len() + reversed@.len() == n,
            forall|j: int| 0 <= j < reversed@.len() ==> #[trigger] reversed@[j] == all[n - 1 - j],
        decreases offers@.len(),
    {
        match offers.pop() {
            Some(offer) => {
                reversed.push(offer);
            },
            None => {},
        }
        assert(offers@ =~= all.take(offers@.len() as int));
    }
    let mut r: Vec<TradeOffer> = Vec::new();
    while reversed.len() > 0
        invariant
            map.wf(),
            n == all.len(),
            reversed@.len() <= n,
            forall|j: int| 0 <= j < reversed@.len() ==> #[trigger] reversed@[j] == all[n - 1 - j],
            combined_all(all.take(n - reversed@.len()), r@, map@),
        decreases reversed@.len(),
    {
        let ghost done = n - reversed@.len();
        match reversed.pop() {
            Some(raw) => {
                assert(raw == all[done]);
                assert(all.take(done + 1).drop_last() =~= all.take(done));
                match raw.try_combine_classinfos(map) {
                    Ok(offer) => {
                        let ghost before = r@;
                        r.push(offer);
                        assert(r@.drop_last() =~= before);
                    },
                    Err(_) => {},
                }
            },
            None => {},
        }
    }
    assert(all.take(n as int) =~= all);
    r
}

} // verus!
