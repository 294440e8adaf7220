use vstd::prelude::*;
use vstd::string::*;
use crate::offers::Asset;

verus! {

/// The application id of the game whose currency items are valued here.
pub const TF2_APPID: u32 = 440;

/// Whether `name` is exactly the text `lit`.
fn name_is(name: &String, lit: &str) -> (r: bool)
    ensures
        r == (name@ == lit@),
{
    let other = String::from_str(lit);
    *name == other
}

/// Whether `item` is a key of the game.
pub fn is_key(item: &Asset) -> (r: bool)
    ensures
        r == (item.appid == TF2_APPID && item.classinfo.market_hash_name@ == "Mann Co. Supply Crate Key"@),
{
    item.appid == TF2_APPID && name_is(&item.classinfo.market_hash_name, "Mann Co. Supply Crate Key")
}

/// The value of a metal item of the game in scrap: refined is 18, reclaimed
/// 6 and scrap 2; other items have none.
pub fn metal_value(item: &Asset) -> (r: Option<u32>)
    ensures
        r == (if item.appid != TF2_APPID {
            None
        } else if item.classinfo.market_hash_name@ == "Refined Metal"@ {
            Some(18u32)
        } else if item.classinfo.market_hash_name@ == "Reclaimed Metal"@ {
            Some(6u32)
        } else if item.classinfo.market_hash_name@ == "Scrap Metal"@ {
            Some(2u32)
        } else {
            None
        }),
{
    if item.appid != TF2_APPID {
        None
    } else if name_is(&item.classinfo.market_hash_name, "Refined Metal") {
        Some(18)
    } else if name_is(&item.classinfo.market_hash_name, "Reclaimed Metal") {
        Some(6)
    } else if name_is(&item.classinfo.market_hash_name, "Scrap Metal") {
        Some(2)
    } else {
        None
    }
}

} // verus!
