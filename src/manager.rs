use vstd::prelude::*;
use crate::error::{Error, ParameterError};
use crate::offers::{RawTradeOffer, TradeOffer, TradeOfferState};
use crate::util::reversed;

verus! {

/// Whether our side may accept `offer`: it must be theirs and active.
pub fn accept_offer_allowed(offer: &TradeOffer) -> (r: Result<(), Error>)
    ensures
        r == (if offer.is_our_offer {
            Err(Error::Parameter(ParameterError::CannotAcceptOwnOffer))
        } else if offer.trade_offer_state != TradeOfferState::Active {
            Err(Error::Parameter(ParameterError::CannotAcceptInactiveOffer))
        } else {
            Ok(())
        }),
{
    if offer.is_our_offer {
        Err(Error::Parameter(ParameterError::CannotAcceptOwnOffer))
    } else if offer.trade_offer_state != TradeOfferState::Active {
        Err(Error::Parameter(ParameterError::CannotAcceptInactiveOffer))
    } else {
        Ok(())
    }
}

/// Whether our side may cancel `offer`: only offers we created.
pub fn cancel_offer_allowed(offer: &TradeOffer) -> (r: Result<(), Error>)
    ensures
        r == (if !offer.is_our_offer {
            Err(Error::Parameter(ParameterError::CannotCancelTheirOffer))
        } else {
            Ok(())
        }),
{
    if !offer.is_our_offer {
        Err(Error::Parameter(ParameterError::CannotCancelTheirOffer))
    } else {
        Ok(())
    }
}

/// Whether our side may decline `offer`: only offers we did not create.
pub fn decline_offer_allowed(offer: &TradeOffer) -> (r: Result<(), Error>)
    ensures
        r == (if offer.is_our_offer {
            Err(Error::Parameter(ParameterError::CannotDeclineOwnOffer))
        } else {
            Ok(())
        }),
{
    if offer.is_our_offer {
        Err(Error::Parameter(ParameterError::CannotDeclineOwnOffer))
    } else {
        Ok(())
    }
}

/// Sets the state an offer has after a successful action on it.
pub fn set_offer_state(offer: &mut TradeOffer, state: TradeOfferState)
    ensures
        *final(offer) == (TradeOffer { trade_offer_state: state, ..*old(offer) }),
{
    offer.trade_offer_state = state;
}

/// What fetching the receipt of `offer` needs: `None` where it received no
/// items, so the receipt is empty, or the id of its trade.
pub fn receipt_trade_id(offer: &TradeOffer) -> (r: Result<Option<u64>, Error>)
    ensures
        r == (if offer.trade_offer_state != TradeOfferState::Accepted {
            Err(Error::Parameter(ParameterError::NotAccepted))
        } else if offer.items_to_receive@.len() == 0 {
            Ok(None)
        } else {
            match offer.tradeid {
                Some(id) => Ok(Some(id)),
                None => Err(Error::Parameter(ParameterError::MissingTradeId)),
            }
        }),
{
    if offer.trade_offer_state != TradeOfferState::Accepted {
        Err(Error::Parameter(ParameterError::NotAccepted))
    } else if offer.items_to_receive.len() == 0 {
        Ok(None)
    } else {
        match offer.tradeid {
            Some(id) => Ok(Some(id)),
            None => Err(Error::Parameter(ParameterError::MissingTradeId)),
        }
    }
}

/// Whether `offer` passes the filter of a trade-offer listing.
pub open spec fn listed(offer: TradeOffer, active_only: bool, historical_only: bool) -> bool {
    if active_only {
        offer.trade_offer_state == TradeOfferState::Active
    } else if historical_only {
        offer.trade_offer_state != TradeOfferState::Active
    } else {
        true
    }
}

/// The offers of `offers` that pass the filter, in order.
pub open spec fn listed_offers(offers: Seq<TradeOffer>, active_only: bool, historical_only: bool) -> Seq<TradeOffer>
    decreases offers.len(),
{
    if offers.len() == 0 {
        Seq::empty()
    } else if listed(offers.last(), active_only, historical_only) {
        listed_offers(offers.drop_last(), active_only, historical_only).push(offers.last())
    } else {
        listed_offers(offers.drop_last(), active_only, historical_only)
    }
}

/// Trims a listing to what was asked for, since the remote source does not
/// always filter: only active offers, only inactive ones, or all.
pub fn filter_trade_offers(offers: Vec<TradeOffer>, active_only: bool, historical_only: bool) -> (r: Vec<TradeOffer>)
    ensures
        r@ == listed_offers(offers@, active_only, historical_only),
{
    let ghost all = offers@;
    let ghost n = all.len();
    let mut pending = reversed(offers);
    let mut r: Vec<TradeOffer> = Vec::new();
    while pending.len() > 0
        invariant
            n == all.len(),
            pending@.len() <= n,
            forall|j: int| 0 <= j < pending@.len() ==> #[trigger] pending@[j] == all[n - 1 - j],
            r@ == listed_offers(all.take(n - pending@.len()), active_only, historical_only),
        decreases pending@.len(),
    {
        let ghost done = n - pending@.len();
        match pending.pop() {
            Some(offer) => {
                assert(offer == all[done]);
                assert(all.take(done + 1).drop_last() =~= all.take(done));
                let keep = if active_only {
                    offer.trade_offer_state == TradeOfferState::Active
                } else if historical_only {
                    offer.trade_offer_state != TradeOfferState::Active
                } else {
                    true
                };
                if keep {
                    r.push(offer);
                }
            },
            None => {},
        }
    }
    assert(all.take(n as int) =~= all);
    r
}

/// A pending mobile confirmation, created for the offer `creator`.
#[derive(Clone, Copy, Debug, PartialEq, Eq)]
pub struct Confirmation {
    pub id: u64,
    pub key: u64,
    pub creator: u64,
}

/// The position of the first confirmation created for `tradeofferid`.
pub fn find_confirmation(confirmations: &Vec<Confirmation>, tradeofferid: u64) -> (r: Result<usize, Error>)
    ensures
        match r {
            Ok(i) => i < confirmations@.len() && confirmations@[i as int].creator == tradeofferid
                && forall|j: int| 0 <= j < i ==> confirmations@[j].creator != tradeofferid,
            Err(e) => e == Error::NoConfirmationForOffer(tradeofferid) && forall|j: int|
                0 <= j < confirmations@.len() ==> confirmations@[j].creator != tradeofferid,
        },
{
    let mut i: usize = 0;
    while i < confirmations.len()
        invariant
            i <= confirmations@.len(),
            forall|j: int| 0 <= j < i ==> confirmations@[j].creator != tradeofferid,
        decreases confirmations@.len() - i,
    {
        if confirmations[i].creator == tradeofferid {
            return Ok(i);
        }
        i = i + 1;
    }
    Err(Error::NoConfirmationForOffer(tradeofferid))
}

/// Brings `offer` up to date with what the remote source now says of it;
/// its items, partner and message stay.
pub fn apply_offer_update(offer: &mut TradeOffer, updated: &RawTradeOffer)
    ensures
        *final(offer) == (TradeOffer {
            tradeofferid: updated.tradeofferid,
            tradeid: updated.tradeid,
            trade_offer_state: updated.trade_offer_state,
            confirmation_method: updated.confirmation_method,
            escrow_end_date: updated.escrow_end_date,
            time_created: updated.time_created,
            time_updated: updated.time_updated,
            expiration_time: updated.expiration_time,
            ..*old(offer)
        }),
{
    offer.tradeofferid = updated.tradeofferid;
    offer.tradeid = updated.tradeid;
    offer.trade_offer_state = updated.trade_offer_state;
    offer.confirmation_method = updated.confirmation_method;
    offer.escrow_end_date = updated.escrow_end_date;
    offer.time_created = updated.time_created;
    offer.time_updated = updated.time_updated;
    offer.expiration_time = updated.expiration_time;
}

/// An item to trade in a new offer.
#[derive(Clone, Copy, Debug, PartialEq, Eq)]
pub struct NewTradeOfferItem {
    pub appid: u32,
    pub contextid: u64,
    pub amount: u32,
    pub assetid: u64,
}

/// A new offer to send to `partner`.
#[derive(Clone, Debug)]
pub struct NewTradeOffer {
    pub partner: u64,
    pub items_to_give: Vec<NewTradeOfferItem>,
    pub items_to_receive: Vec<NewTradeOfferItem>,
    pub message: Option<String>,
    pub token: Option<String>,
}

/// The version number the offer form carries: one more than the number of
/// items. An offer without items is refused.
pub fn new_offer_version(offer: &NewTradeOffer) -> (r: Result<u32, Error>)
    requires
        offer.items_to_give@.len() + offer.items_to_receive@.len() < u32::MAX,
    ensures
        r == (if offer.items_to_give@.len() + offer.items_to_receive@.len() == 0 {
            Err(Error::Parameter(ParameterError::EmptyOffer))
        } else {
            Ok((offer.items_to_give@.len() + offer.items_to_receive@.len() + 1) as u32)
        }),
{
    let num_items = offer.items_to_give.len() + offer.items_to_receive.len();
    if num_items == 0 {
        Err(Error::Parameter(ParameterError::EmptyOffer))
    } else {
        Ok(num_items as u32 + 1)
    }
}

} // verus!
