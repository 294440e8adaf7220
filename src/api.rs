use std::sync::Arc;
use vstd::prelude::*;
use crate::classinfo_map::ClassInfoMap;
use crate::error::Error;
use crate::offers::{Asset, RawAsset, RawTradeOffer};
use crate::resolver::{contains_key, key_set, lemma_key_set_push};
use crate::types::{ClassInfo, ClassKey};

verus! {

/// Whether a page of offers holds one created before `cutoff`.
pub open spec fn has_older(page: Seq<RawTradeOffer>, cutoff: i64) -> bool {
    exists|i: int| 0 <= i < page.len() && (#[trigger] page[i]).time_created < cutoff
}

/// The cursor of the next page of offers to fetch, or `None` when the listing
/// is complete: once a page reaches back past the cutoff, or the remote
/// source gives no further cursor.
pub fn next_offers_cursor(historical_cutoff: Option<i64>, page: &Vec<RawTradeOffer>, next_cursor: Option<u32>) -> (r: Option<u32>)
    ensures
        r == (if historical_cutoff is Some && has_older(page@, historical_cutoff->0) {
            None
        } else {
            match next_cursor {
                Some(c) => if c > 0 {
                    Some(c)
                } else {
                    None
                },
                None => None,
            }
        }),
{
    let older = match historical_cutoff {
        Some(cutoff) => page_has_older(page, cutoff),
        None => false,
    };
    if older {
        None
    } else {
        match next_cursor {
            Some(c) => if c > 0 {
                Some(c)
            } else {
                None
            },
            None => None,
        }
    }
}

fn page_has_older(page: &Vec<RawTradeOffer>, cutoff: i64) -> (r: bool)
    ensures
        r == has_older(page@, cutoff),
{
    let mut i: usize = 0;
    while i < page.len()
        invariant
            i <= page@.len(),
            forall|j: int| 0 <= j < i ==> (#[trigger] page@[j]).time_created >= cutoff,
        decreases page@.len() - i,
    {
        if page[i].time_created < cutoff {
            assert((page@[i as int]).time_created < cutoff);
            return true;
        }
        i = i + 1;
    }
    false
}

/// How an inventory listing goes on after a page.
#[derive(Clone, Copy, Debug, PartialEq, Eq)]
pub enum PageStep {
    /// Fetch the page that starts at this position.
    Continue(Option<u64>),
    Done,
}

/// The step after an inventory page fetched from `start`: an unsuccessful
/// page fails the listing, and so does one that would start the next page
/// where it started itself, since the listing would never end.
pub fn next_inventory_page(success: bool, more_items: bool, start: Option<u64>, next_start: Option<u64>) -> (r: Result<PageStep, Error>)
    ensures
        r == (if !success {
            Err(Error::ResponseUnsuccessful)
        } else if more_items {
            if next_start == start {
                Err(Error::MalformedResponse)
            } else {
                Ok(PageStep::Continue(next_start))
            }
        } else {
            Ok(PageStep::Done)
        }),
{
    if !success {
        Err(Error::ResponseUnsuccessful)
    } else if more_items {
        let same = match (next_start, start) {
            (Some(a), Some(b)) => a == b,
            (None, None) => true,
            _ => false,
        };
        if same {
            Err(Error::MalformedResponse)
        } else {
            Ok(PageStep::Continue(next_start))
        }
    } else {
        Ok(PageStep::Done)
    }
}

/// The class of an inventory item of application `appid`.
pub open spec fn item_key(appid: u32, item: RawAsset) -> ClassKey {
    ClassKey { appid, classid: item.classid, instanceid: item.instanceid }
}

/// The inventory that `items` make with the metadata of `m`: the first item
/// whose class `m` lacks fails it; otherwise each item gets its metadata,
/// and with `tradable_only` the items of classes that cannot be traded are
/// left out.
pub open spec fn inventory_spec(
    appid: u32,
    contextid: u64,
    items: Seq<RawAsset>,
    m: Map<ClassKey, Arc<ClassInfo>>,
    tradable_only: bool,
) -> Result<Seq<Asset>, Error>
    decreases items.len(),
{
    if items.len() == 0 {
        Ok(Seq::empty())
    } else {
        match inventory_spec(appid, contextid, items.drop_last(), m, tradable_only) {
            Err(e) => Err(e),
            Ok(s) => {
                let item = items.last();
                let k = item_key(appid, item);
                if !m.contains_key(k) {
                    Err(Error::MissingClassInfo(k))
                } else if tradable_only && !m[k].tradable {
                    Ok(s)
                } else {
                    Ok(
                        s.push(
                            Asset {
                                appid,
                                contextid,
                                assetid: item.assetid,
                                amount: item.amount,
                                missing: false,
                                classinfo: m[k],
                            },
                        ),
                    )
                }
            },
        }
    }
}

proof fn lemma_inventory_err(
    appid: u32,
    contextid: u64,
    items: Seq<RawAsset>,
    m: Map<ClassKey, Arc<ClassInfo>>,
    tradable_only: bool,
    i: int,
)
    requires
        0 <= i <= items.len(),
        inventory_spec(appid, contextid, items.take(i), m, tradable_only) is Err,
    ensures
        inventory_spec(appid, contextid, items, m, tradable_only) == inventory_spec(appid, contextid, items.take(i), m, tradable_only),
    decreases items.len() - i,
{
    if items.len() == i {
        assert(items.take(i) =~= items);
    } else {
        let t = items.drop_last();
        assert(t.take(i) =~= items.take(i));
        lemma_inventory_err(appid, contextid, t, m, tradable_only, i);
    }
}

/// Builds an inventory from its items and the metadata of their classes.
pub fn inventory_with_classinfos(
    appid: u32,
    contextid: u64,
    items: &Vec<RawAsset>,
    map: &ClassInfoMap,
    tradable_only: bool,
) -> (r: Result<Vec<Asset>, Error>)
    requires
        map.wf(),
    ensures
        match (r, inventory_spec(appid, contextid, items@, map@, tradable_only)) {
            (Ok(v), Ok(s)) => v@ == s,
            (Err(e), Err(f)) => e == f,
            _ => false,
        },
{
    let mut inventory: Vec<Asset> = Vec::new();
    let mut i: usize = 0;
    while i < items.len()
        invariant
            map.wf(),
            i <= items@.len(),
            inventory_spec(appid, contextid, items@.take(i as int), map@, tradable_only) == Ok::<
                Seq<Asset>,
                Error,
            >(inventory@),
        decreases items@.len() - i,
    {
        let item = &items[i];
        assert(items@.take(i + 1).drop_last() =~= items@.take(i as int));
        let key = ClassKey { appid, classid: item.classid, instanceid: item.instanceid };
        match map.get(&key) {
            None => {
                proof {
                    lemma_inventory_err(appid, contextid, items@, map@, tradable_only, i + 1);
                }
                return Err(Error::MissingClassInfo(key));
            },
            Some(classinfo) => {
                if !(tradable_only && !classinfo.tradable) {
                    inventory.push(
                        Asset {
                            appid,
                            contextid,
                            assetid: item.assetid,
                            amount: item.amount,
                            missing: false,
                            classinfo,
                        },
                    );
                }
            },
        }
        i = i + 1;
    }
    assert(items@.take(items@.len() as int) =~= items@);
    Ok(inventory)
}

/// The classes that `items` refer to.
pub open spec fn item_keys(items: Seq<RawAsset>) -> Set<ClassKey> {
    Set::new(|k: ClassKey| exists|j: int| 0 <= j < items.len() && (#[trigger] items[j]).key() == k)
}

/// The classes that the items of `offers` refer to.
pub open spec fn offers_keys(offers: Seq<RawTradeOffer>) -> Set<ClassKey> {
    Set::new(
        |k: ClassKey|
            exists|i: int|
                0 <= i < offers.len() && (item_keys((#[trigger] offers[i]).items_to_give@).contains(k)
                    || item_keys(offers[i].items_to_receive@).contains(k)),
    )
}

fn add_item_keys(keys: &mut Vec<ClassKey>, items: &Vec<RawAsset>)
    requires
        old(keys)@.no_duplicates(),
    ensures
        final(keys)@.no_duplicates(),
        key_set(final(keys)@) == key_set(old(keys)@).union(item_keys(items@)),
{
    let mut i: usize = 0;
    while i < items.len()
        invariant
            i <= items@.len(),
            keys@.no_duplicates(),
            key_set(keys@) == key_set(old(keys)@).union(item_keys(items@.take(i as int))),
        decreases items@.len() - i,
    {
        let key = items[i].class_key();
        proof {
            assert(item_keys(items@.take(i + 1)) =~= item_keys(items@.take(i as int)).insert(key)) by {
                assert forall|k: ClassKey| item_keys(items@.take(i + 1)).contains(k) implies item_keys(items@.take(i as int)).insert(key).contains(k) by {
                    let j = choose|j: int| 0 <= j < i + 1 && (#[trigger] items@.take(i + 1)[j]).key() == k;
                    if j < i {
                        assert(items@.take(i as int)[j] == items@.take(i + 1)[j]);
                    }
                }
                assert forall|k: ClassKey| item_keys(items@.take(i as int)).insert(key).contains(k) implies item_keys(items@.take(i + 1)).contains(k) by {
                    if k == key {
                        assert(items@.take(i + 1)[i as int].key() == k);
                    } else {
                        let j = choose|j: int| 0 <= j < i && (#[trigger] items@.take(i as int)[j]).key() == k;
                        assert(items@.take(i + 1)[j] == items@.take(i as int)[j]);
                    }
                }
            }
            lemma_key_set_push(keys@, key);
        }
        if !contains_key(keys, &key) {
            keys.push(key);
        }
        assert(key_set(keys@) =~= key_set(old(keys)@).union(item_keys(items@.take(i + 1))));
        i = i + 1;
    }
    assert(items@.take(items@.len() as int) =~= items@);
}

/// The distinct classes that the items of `offers` refer to, so that their
/// metadata can be resolved in one pass.
pub fn offer_class_keys(offers: &Vec<RawTradeOffer>) -> (r: Vec<ClassKey>)
    ensures
        r@.no_duplicates(),
        key_set(r@) == offers_keys(offers@),
{
    let mut keys: Vec<ClassKey> = Vec::new();
    let mut i: usize = 0;
    assert(key_set(keys@) =~= offers_keys(offers@.take(0)));
    while i < offers.len()
        invariant
            i <= offers@.len(),
            keys@.no_duplicates(),
            key_set(keys@) == offers_keys(offers@.take(i as int)),
        decreases offers@.len() - i,
    {
        add_item_keys(&mut keys, &offers[i].items_to_give);
        add_item_keys(&mut keys, &offers[i].items_to_receive);
        proof {
            let o = offers@[i as int];
            assert forall|k: ClassKey| offers_keys(offers@.take(i + 1)).contains(k) <==> (offers_keys(offers@.take(i as int)).contains(k)
                || item_keys(o.items_to_give@).contains(k) || item_keys(o.items_to_receive@).contains(k)) by {
                if offers_keys(offers@.take(i + 1)).contains(k) {
                    let j = choose|j: int| 0 <= j < i + 1 && (item_keys((#[trigger] offers@.take(i + 1)[j]).items_to_give@).contains(k)
                        || item_keys(offers@.take(i + 1)[j].items_to_receive@).contains(k));
                    if j < i {
                        assert(offers@.take(i as int)[j] == offers@.take(i + 1)[j]);
                    }
                }
                if offers_keys(offers@.take(i as int)).contains(k) {
                    let j = choose|j: int| 0 <= j < i && (item_keys((#[trigger] offers@.take(i as int)[j]).items_to_give@).contains(k)
                        || item_keys(offers@.take(i as int)[j].items_to_receive@).contains(k));
                    assert(offers@.take(i + 1)[j] == offers@.take(i as int)[j]);
                }
                if item_keys(o.items_to_give@).contains(k) || item_keys(o.items_to_receive@).contains(k) {
                    assert(offers@.take(i + 1)[i as int] == o);
                }
            }
            assert(key_set(keys@) =~= offers_keys(offers@.take(i + 1)));
        }
        i = i + 1;
    }
    assert(offers@.take(offers@.len() as int) =~= offers@);
    keys
}

} // verus!
