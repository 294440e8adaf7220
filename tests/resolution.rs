use std::sync::Arc;
use steam_tradeoffers::classinfo_cache::ClassInfoCache;
use steam_tradeoffers::disk_cache::get_classinfo_file_path;
use steam_tradeoffers::error::Error;
use steam_tradeoffers::resolver::{Resolution, TierEntry, BATCH_SIZE};
use steam_tradeoffers::types::{ClassInfo, ClassKey};

fn info(name: &str, tradable: bool) -> Arc<ClassInfo> {
    Arc::new(ClassInfo {
        name: name.to_string(),
        market_hash_name: name.to_string(),
        tradable,
        marketable: true,
    })
}

fn key(appid: u32, classid: u64, instanceid: Option<u64>) -> ClassKey {
    ClassKey::new(appid, classid, instanceid)
}

#[test]
fn resolution_combines_all_tiers_and_omits_unresolvable() {
    let mut cache = ClassInfoCache::new();
    let memory_key = key(440, 1, None);
    let disk_key = key(440, 2, Some(7));
    let remote_key = key(730, 3, None);
    let broken_key = key(730, 4, None);
    let absent_key = key(440, 5, None);
    cache.insert(memory_key, info("memory", true));
    let keys = vec![memory_key, disk_key, remote_key, broken_key, absent_key, memory_key];
    let mut resolution = Resolution::start(&cache, &keys);
    let needed = resolution.needed();
    assert_eq!(needed.len(), 4);
    let loaded: Vec<TierEntry> = vec![(disk_key, Some(info("disk", true))), (remote_key, None)];
    resolution.absorb_disk(&mut cache, &loaded);
    let batches = resolution.remote_batches();
    assert_eq!(batches.len(), 2);
    for batch in &batches {
        if batch[0].appid == 730 {
            let fetched: Option<Vec<TierEntry>> = Some(vec![
                (remote_key, Some(info("remote", false))),
                (broken_key, None),
            ]);
            resolution.absorb_remote(&mut cache, &fetched);
        } else {
            assert_eq!(batch.clone(), vec![absent_key]);
            resolution.absorb_remote(&mut cache, &Some(Vec::new()));
        }
    }
    let found = resolution.finish().unwrap();
    assert_eq!(found.len(), 3);
    assert_eq!(found.get(&memory_key).unwrap().name, "memory");
    assert_eq!(found.get(&disk_key).unwrap().name, "disk");
    assert_eq!(found.get(&remote_key).unwrap().name, "remote");
    assert!(found.get(&broken_key).is_none());
    assert!(found.get(&absent_key).is_none());
    assert_eq!(cache.len(), 3);
}

#[test]
fn resolution_of_nothing_is_empty() {
    let cache = ClassInfoCache::new();
    let resolution = Resolution::start(&cache, &Vec::new());
    assert!(resolution.needed().is_empty());
    assert!(resolution.remote_batches().is_empty());
    assert_eq!(resolution.finish().unwrap().len(), 0);
}

#[test]
fn resolution_fails_when_nothing_resolves() {
    let mut cache = ClassInfoCache::new();
    let k = key(440, 9, None);
    let mut resolution = Resolution::start(&cache, &vec![k]);
    resolution.absorb_disk(&mut cache, &vec![(k, None)]);
    resolution.absorb_remote(&mut cache, &Some(vec![(k, None)]));
    assert!(matches!(resolution.finish(), Err(Error::Parse)));
}

#[test]
fn resolution_reports_remote_failure_when_nothing_resolves() {
    let mut cache = ClassInfoCache::new();
    let k = key(440, 9, None);
    let mut resolution = Resolution::start(&cache, &vec![k]);
    resolution.absorb_remote(&mut cache, &None);
    assert!(matches!(resolution.finish(), Err(Error::Remote)));
}

#[test]
fn resolution_keeps_partial_success_despite_remote_failure() {
    let mut cache = ClassInfoCache::new();
    let a = key(440, 1, None);
    let b = key(730, 2, None);
    let mut resolution = Resolution::start(&cache, &vec![a, b]);
    resolution.absorb_remote(&mut cache, &Some(vec![(a, Some(info("a", true)))]));
    resolution.absorb_remote(&mut cache, &None);
    let found = resolution.finish().unwrap();
    assert_eq!(found.len(), 1);
    assert!(found.contains(&a));
}

#[test]
fn second_resolution_is_served_from_memory() {
    let mut cache = ClassInfoCache::new();
    let a = key(440, 1, None);
    let b = key(440, 2, None);
    let keys = vec![a, b];
    let mut first = Resolution::start(&cache, &keys);
    first.absorb_remote(&mut cache, &Some(vec![(a, Some(info("a", true))), (b, None)]));
    let first = first.finish().unwrap();
    let second = Resolution::start(&cache, &keys);
    assert_eq!(second.needed(), vec![b]);
    assert_eq!(second.remote_batches(), vec![vec![b]]);
    let second = second.finish().unwrap();
    assert_eq!(second.len(), first.len());
    assert!(Arc::ptr_eq(&second.get(&a).unwrap(), &first.get(&a).unwrap()));
}

#[test]
fn records_for_unrequested_keys_are_ignored() {
    let mut cache = ClassInfoCache::new();
    let a = key(440, 1, None);
    let stray = key(440, 99, None);
    let mut resolution = Resolution::start(&cache, &vec![a]);
    resolution.absorb_remote(&mut cache, &Some(vec![(stray, Some(info("stray", true))), (a, Some(info("a", true)))]));
    assert_eq!(resolution.finish().unwrap().len(), 1);
    assert_eq!(cache.len(), 1);
}

#[test]
fn remote_batches_group_by_app_and_hold_at_most_a_hundred() {
    let cache = ClassInfoCache::new();
    let mut keys = Vec::new();
    for classid in 0..250u64 {
        keys.push(key(440, classid, None));
    }
    for classid in 0..3u64 {
        keys.push(key(730, classid, Some(1)));
    }
    let resolution = Resolution::start(&cache, &keys);
    let batches = resolution.remote_batches();
    let mut sizes: Vec<(u32, usize)> = batches.iter().map(|b| (b[0].appid, b.len())).collect();
    sizes.sort();
    assert_eq!(sizes, vec![(440, 50), (440, 100), (440, 100), (730, 3)]);
    for batch in &batches {
        assert!(batch.len() <= BATCH_SIZE);
        assert!(batch.iter().all(|k| k.appid == batch[0].appid));
    }
    let total: usize = batches.iter().map(|b| b.len()).sum();
    assert_eq!(total, 253);
}

#[test]
fn cache_insert_replaces_and_get_shares() {
    let mut cache = ClassInfoCache::new();
    let k = key(440, 1, Some(0));
    assert!(cache.get(&k).is_none());
    cache.insert(k, info("old", true));
    cache.insert(k, info("new", true));
    assert_eq!(cache.len(), 1);
    assert_eq!(cache.get(&k).unwrap().name, "new");
    assert!(cache.get(&key(440, 1, None)).is_none());
}

#[test]
fn classinfo_file_paths() {
    let k = key(440, 101785959, Some(11040578));
    assert_eq!(get_classinfo_file_path(&k, None, "data"), "data/440_101785959_11040578.json");
    assert_eq!(
        get_classinfo_file_path(&key(730, 0, None), None, "/tmp/cache"),
        "/tmp/cache/730_0_0.json"
    );
    assert_eq!(
        get_classinfo_file_path(&k, Some(1700000000123), "data"),
        "data/440_101785959_11040578.json.1700000000123.temp"
    );
    assert_ne!(get_classinfo_file_path(&k, Some(0), "d"), get_classinfo_file_path(&k, None, "d"));
    assert_eq!(
        get_classinfo_file_path(&key(u32::MAX, u64::MAX, Some(u64::MAX)), None, ""),
        "/4294967295_18446744073709551615_18446744073709551615.json"
    );
}
