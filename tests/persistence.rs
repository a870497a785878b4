use reporeco::backoff::Backoff;
use reporeco::fetch::{FetchMachine, PageOutcome, SearchNode};
use reporeco::interactions::InteractionMap;
use reporeco::reco::{get_indicated_items, Recommendation};
use reporeco::store::{decode_entries, training_pairs, Store, StoreError};

fn s(x: &str) -> String {
    x.to_string()
}

fn strings(xs: &[&str]) -> Vec<String> {
    xs.iter().map(|x| s(x)).collect()
}

fn temp_store() -> Store {
    Store::new(sled::Config::new().temporary(true).open().unwrap())
}

fn map_of(entries: &[(&str, &[&str])]) -> InteractionMap {
    let mut m = InteractionMap::new();
    for (k, v) in entries {
        m.insert(s(k), strings(v));
    }
    m
}

#[test]
fn store_round_trip() {
    let mut store = temp_store();
    let m = map_of(&[("u1", &["r1", "r2"]), ("u2", &["r1"]), ("ü3", &["ré"])]);
    store.save_interactions(&m).unwrap();
    let back = store.get_interactions().unwrap();
    assert_eq!(back.len(), 3);
    assert_eq!(back.get(&s("u1")), Some(strings(&["r1", "r2"])));
    assert_eq!(back.get(&s("u2")), Some(strings(&["r1"])));
    assert_eq!(back.get(&s("ü3")), Some(strings(&["ré"])));
    assert_eq!(store.len().unwrap(), 3);
}

#[test]
fn store_overwrite_last_write_wins() {
    let mut store = temp_store();
    store.save_interactions(&map_of(&[("A", &["1"])])).unwrap();
    store.save_interactions(&map_of(&[("A", &["2"])])).unwrap();
    let back = store.get_interactions().unwrap();
    assert_eq!(back.get(&s("A")), Some(strings(&["2"])));
    assert_eq!(store.len().unwrap(), 1);
}

#[test]
fn store_empty_map_changes_nothing() {
    let mut store = temp_store();
    store.save_interactions(&InteractionMap::new()).unwrap();
    assert_eq!(store.len().unwrap(), 0);
    assert_eq!(store.get_interactions().unwrap().len(), 0);
}

#[test]
fn store_reports_corrupt_values() {
    let db = sled::Config::new().temporary(true).open().unwrap();
    db.insert("u1", vec![1u8, 2, 3]).unwrap();
    let store = Store::new(db);
    assert_eq!(store.get_interactions().err(), Some(StoreError::Corrupt));
}

#[test]
fn store_reports_non_utf8_keys() {
    let db = sled::Config::new().temporary(true).open().unwrap();
    let encoded = bincode::serialize(&vec![s("r1")]).unwrap();
    db.insert(vec![0xffu8, 0xfe], encoded).unwrap();
    let store = Store::new(db);
    assert_eq!(store.get_interactions().err(), Some(StoreError::Corrupt));
}

#[test]
fn stored_values_are_bincode_lists() {
    let db = sled::Config::new().temporary(true).open().unwrap();
    let mut store = Store::new(db.clone());
    store.save_interactions(&map_of(&[("u1", &["ab"])])).unwrap();
    let raw = db.get("u1").unwrap().unwrap();
    assert_eq!(raw.to_vec(), vec![1, 0, 0, 0, 0, 0, 0, 0, 2, 0, 0, 0, 0, 0, 0, 0, b'a', b'b']);
}

fn crawl(low: u32, nodes: Vec<SearchNode>) -> InteractionMap {
    let mut f = FetchMachine::new(low, 5, 100, 200, Backoff::new(150, 5000));
    let req = f.next_request();
    assert_eq!(req.search, format!("followers:{}", low));
    f.run(vec![PageOutcome::Page { nodes, end_cursor: None, rate_limit_remaining: None }]);
    assert!(f.finished);
    f.interactions
}

#[test]
fn end_to_end_two_partitions() {
    let mut store = temp_store();
    let before = store.len().unwrap();
    let a = crawl(20, vec![SearchNode::User { id: s("userX"), starred: strings(&["repoA", "repoB"]) }]);
    let b = crawl(21, vec![SearchNode::User { id: s("userY"), starred: strings(&["repoC"]) }]);
    store.save_interactions(&a).unwrap();
    store.save_interactions(&b).unwrap();
    let all = store.get_interactions().unwrap();
    assert_eq!(all.len(), 2);
    assert_eq!(all.get(&s("userX")), Some(strings(&["repoA", "repoB"])));
    assert_eq!(all.get(&s("userY")), Some(strings(&["repoC"])));
    assert_eq!(reporeco::partition::net_gathered(before, store.len().unwrap()), 2);
}

#[test]
fn training_handoff_flattens_in_store_order() {
    let mut store = temp_store();
    store.save_interactions(&map_of(&[("u2", &["r1"]), ("u1", &["r1", "r2"])])).unwrap();
    let pairs = training_pairs(&store).unwrap();
    assert_eq!(pairs, vec![(s("u1"), s("r1")), (s("u1"), s("r2")), (s("u2"), s("r1"))]);
}

#[test]
fn lookup_first_match_wins() {
    let records = vec![
        Recommendation { for_item: s("r1"), indicated_items: strings(&["r2", "r3"]) },
        Recommendation { for_item: s("r4"), indicated_items: strings(&["r1"]) },
        Recommendation { for_item: s("r1"), indicated_items: strings(&["r9"]) },
    ];
    assert_eq!(get_indicated_items("r1", &records), Some(strings(&["r2", "r3"])));
    assert_eq!(get_indicated_items("r4", &records), Some(strings(&["r1"])));
    assert_eq!(get_indicated_items("r7", &records), None);
    assert_eq!(get_indicated_items("r1", &Vec::new()), None);
}

#[test]
fn decode_entries_keeps_scan_order() {
    let entries = vec![
        (b"zed".to_vec(), bincode::serialize(&strings(&["r1"])).unwrap()),
        (b"amy".to_vec(), bincode::serialize(&strings(&["r2", "r3"])).unwrap()),
    ];
    let m = decode_entries(&entries).unwrap();
    assert_eq!(m.len(), 2);
    assert_eq!(m.entry(0).0, "zed");
    assert_eq!(m.entry(1).1, strings(&["r2", "r3"]));
}

#[test]
fn decode_entries_rejects_bad_key_or_value() {
    let good = bincode::serialize(&strings(&["r1"])).unwrap();
    let bad_key = vec![(vec![0xc0u8, 0x80], good.clone())];
    assert_eq!(decode_entries(&bad_key).err(), Some(StoreError::Corrupt));
    let bad_value = vec![(b"u1".to_vec(), vec![9u8, 0, 0])];
    assert_eq!(decode_entries(&bad_value).err(), Some(StoreError::Corrupt));
    assert_eq!(decode_entries(&Vec::new()).unwrap().len(), 0);
}
