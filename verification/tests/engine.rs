use kv_store::cipher::StoreKey;
use kv_store::error::KvError;
use kv_store::query::TagFilter;
use kv_store::scan::PAGE_SIZE;
use kv_store::store::{KvStore, ScanToken};
use kv_store::types::{KvEntry, KvFetchOptions, KvTag, KvUpdateEntry};

fn keyed_store() -> KvStore {
    KvStore::provision(
        "P".to_string(),
        StoreKey { data: vec![7, 1, 9, 4] },
        Some(StoreKey { data: vec![2, 13, 5, 8, 21] }),
    )
}

fn upd(category: &str, name: &str, value: Vec<u8>, tags: Option<Vec<KvTag>>, expire_ms: Option<i64>) -> KvUpdateEntry {
    KvUpdateEntry {
        profile_id: None,
        entry: KvEntry { category: category.to_string(), name: name.to_string(), value, tags },
        expire_ms,
    }
}

#[test]
fn scenario_update_fetch_count() {
    let mut store = keyed_store();
    store
        .update(vec![upd("c", "n", vec![1, 2, 3], None, None)], None, 0)
        .unwrap();
    let found = store
        .fetch(None, "c", "n", KvFetchOptions { retrieve_tags: false }, 0)
        .unwrap()
        .unwrap();
    assert_eq!(found.value, vec![1, 2, 3]);
    assert_eq!(found.tags, None);
    assert_eq!(found.category, "c");
    assert_eq!(found.name, "n");

    let tag = KvTag { name: "k".to_string(), value: "v".to_string(), plaintext: true };
    store
        .update(vec![upd("c", "n", vec![9], Some(vec![tag.clone()]), None)], None, 1)
        .unwrap();
    let found = store
        .fetch(None, "c", "n", KvFetchOptions::with_tags(), 1)
        .unwrap()
        .unwrap();
    assert_eq!(found.value, vec![9]);
    assert_eq!(found.tags, Some(vec![tag]));
    assert_eq!(store.count(None, "c", None, 1).unwrap(), 1);
}

#[test]
fn second_write_overwrites_first() {
    let mut store = keyed_store();
    store.update(vec![upd("c", "n", vec![1], None, None)], None, 0).unwrap();
    store.update(vec![upd("c", "n", vec![2], None, None)], None, 0).unwrap();
    assert_eq!(store.count(None, "c", None, 0).unwrap(), 1);
    let found = store
        .fetch(None, "c", "n", KvFetchOptions { retrieve_tags: false }, 0)
        .unwrap()
        .unwrap();
    assert_eq!(found.value, vec![2]);
}

#[test]
fn expired_entry_is_invisible_immediately() {
    let mut store = keyed_store();
    // The expiry lands at 100 - 50 = 50, already in the past at `now` = 100.
    store.update(vec![upd("c", "gone", vec![1], None, Some(-50))], None, 100).unwrap();
    assert_eq!(
        store.fetch(None, "c", "gone", KvFetchOptions { retrieve_tags: false }, 100).unwrap(),
        None
    );
    assert_eq!(store.count(None, "c", None, 100).unwrap(), 0);
    let tok = store
        .scan_start(None, "c", KvFetchOptions { retrieve_tags: false }, None, None, None, 100)
        .unwrap();
    let (page, next) = store.scan_next(tok).unwrap();
    assert!(page.is_empty());
    assert_eq!(next, None);
    // A future expiry stays visible until it passes.
    store.update(vec![upd("c", "later", vec![2], None, Some(500))], None, 100).unwrap();
    assert!(store.fetch(None, "c", "later", KvFetchOptions { retrieve_tags: false }, 100).unwrap().is_some());
    assert_eq!(
        store.fetch(None, "c", "later", KvFetchOptions { retrieve_tags: false }, 700).unwrap(),
        None
    );
}

#[test]
fn pagination_yields_every_entry_once() {
    let mut store = keyed_store();
    let n = 2 * PAGE_SIZE + 6;
    let mut batch = Vec::new();
    for i in 0..n {
        batch.push(upd("c", &format!("name{:03}", i), vec![i as u8], None, None));
    }
    store.update(batch, None, 0).unwrap();

    let tok = store
        .scan_start(None, "c", KvFetchOptions { retrieve_tags: false }, None, None, None, 0)
        .unwrap();
    let (p1, t1) = store.scan_next(tok).unwrap();
    assert_eq!(p1.len(), PAGE_SIZE);
    assert_eq!(t1, Some(tok));
    let (p2, t2) = store.scan_next(tok).unwrap();
    assert_eq!(p2.len(), PAGE_SIZE);
    assert_eq!(t2, Some(tok));
    let (p3, t3) = store.scan_next(tok).unwrap();
    assert_eq!(p3.len(), 6);
    assert_eq!(t3, None);

    let mut names: Vec<String> = p1.iter().chain(p2.iter()).chain(p3.iter()).map(|e| e.name.clone()).collect();
    names.sort();
    names.dedup();
    assert_eq!(names.len(), n);
    for i in 0..n {
        assert_eq!(names[i], format!("name{:03}", i));
    }
}

#[test]
fn pagination_exact_multiple_ends_with_empty_page() {
    let mut store = keyed_store();
    let mut batch = Vec::new();
    for i in 0..PAGE_SIZE {
        batch.push(upd("c", &format!("n{}", i), vec![1], None, None));
    }
    store.update(batch, None, 0).unwrap();
    let tok = store
        .scan_start(None, "c", KvFetchOptions { retrieve_tags: false }, None, None, None, 0)
        .unwrap();
    let (p1, t1) = store.scan_next(tok).unwrap();
    assert_eq!(p1.len(), PAGE_SIZE);
    assert_eq!(t1, Some(tok));
    let (p2, t2) = store.scan_next(tok).unwrap();
    assert!(p2.is_empty());
    assert_eq!(t2, None);
}

#[test]
fn scan_offset_and_limit() {
    let mut store = keyed_store();
    let mut batch = Vec::new();
    for i in 0..10 {
        batch.push(upd("c", &format!("n{}", i), vec![i as u8], None, None));
    }
    store.update(batch, None, 0).unwrap();
    let tok = store
        .scan_start(None, "c", KvFetchOptions { retrieve_tags: false }, None, Some(3), Some(4), 0)
        .unwrap();
    let (page, next) = store.scan_next(tok).unwrap();
    assert_eq!(next, None);
    let names: Vec<&str> = page.iter().map(|e| e.name.as_str()).collect();
    assert_eq!(names, vec!["n3", "n4", "n5", "n6"]);
}

#[test]
fn unknown_or_exhausted_scan_token_is_timeout() {
    let mut store = keyed_store();
    assert_eq!(store.scan_next(ScanToken(424242)).unwrap_err(), KvError::Timeout);
    store.update(vec![upd("c", "n", vec![1], None, None)], None, 0).unwrap();
    let tok = store
        .scan_start(None, "c", KvFetchOptions { retrieve_tags: false }, None, None, None, 0)
        .unwrap();
    let (page, next) = store.scan_next(tok).unwrap();
    assert_eq!(page.len(), 1);
    assert_eq!(next, None);
    assert_eq!(store.scan_next(tok).unwrap_err(), KvError::Timeout);
}

#[test]
fn count_and_scan_honor_tag_filters() {
    let mut store = keyed_store();
    let red = KvTag { name: "color".to_string(), value: "red".to_string(), plaintext: true };
    let blue = KvTag { name: "color".to_string(), value: "blue".to_string(), plaintext: true };
    let secret = KvTag { name: "secret".to_string(), value: "x".to_string(), plaintext: false };
    store
        .update(
            vec![
                upd("c", "a", vec![1], Some(vec![red.clone(), secret.clone()]), None),
                upd("c", "b", vec![2], Some(vec![blue.clone()]), None),
            ],
            None,
            0,
        )
        .unwrap();
    let eq = |n: &str, v: &str| TagFilter::Eq(n.to_string(), v.to_string());
    assert_eq!(store.count(None, "c", Some(eq("color", "red")), 0).unwrap(), 1);
    assert_eq!(
        store.count(None, "c", Some(TagFilter::Neq("color".into(), "red".into())), 0).unwrap(),
        1
    );
    assert_eq!(store.count(None, "c", Some(TagFilter::Exist("secret".into())), 0).unwrap(), 1);
    // An encrypted tag value is not searchable.
    assert_eq!(store.count(None, "c", Some(eq("secret", "x")), 0).unwrap(), 0);
    assert_eq!(
        store.count(None, "c", Some(TagFilter::Gt("color".into(), "b".into())), 0).unwrap(),
        2
    );
    assert_eq!(
        store
            .count(
                None,
                "c",
                Some(TagFilter::Or(
                    Box::new(eq("color", "red")),
                    Box::new(eq("color", "blue")),
                )),
                0,
            )
            .unwrap(),
        2
    );
    assert_eq!(
        store.count(None, "c", Some(TagFilter::Not(Box::new(eq("color", "red")))), 0).unwrap(),
        1
    );
    let tok = store
        .scan_start(
            None,
            "c",
            KvFetchOptions::with_tags(),
            Some(eq("color", "red")),
            None,
            None,
            0,
        )
        .unwrap();
    let (page, _) = store.scan_next(tok).unwrap();
    assert_eq!(page.len(), 1);
    assert_eq!(page[0].name, "a");
    assert_eq!(page[0].tags, Some(vec![red, secret]));
}

#[test]
fn lock_mutual_exclusion_and_takeover() {
    let mut store = keyed_store();
    let info = upd("c", "n", vec![1], None, None);
    // First acquisition creates the entry on the fly.
    let (tok1, entry) = store
        .create_lock(info.clone(), KvFetchOptions { retrieve_tags: false }, Some(100), 1_000)
        .unwrap()
        .unwrap();
    assert_eq!(entry.value, vec![1]);
    // A second caller is refused while the lease is active.
    assert_eq!(
        store
            .create_lock(info.clone(), KvFetchOptions { retrieve_tags: false }, Some(100), 2_000)
            .unwrap(),
        None
    );
    // Once the lease elapses the lock is acquirable although never released.
    let lease_end = 1_000 + kv_store::locks::LOCK_EXPIRY;
    let (tok2, entry2) = store
        .create_lock(info, KvFetchOptions { retrieve_tags: false }, Some(100), lease_end)
        .unwrap()
        .unwrap();
    assert_ne!(tok1, tok2);
    assert_eq!(entry2.value, vec![1]);
}

#[test]
fn closed_store_reports_backend_errors() {
    let mut store = keyed_store();
    store.update(vec![upd("c", "n", vec![1], None, None)], None, 0).unwrap();
    store.close().unwrap();
    assert_eq!(
        store.fetch(None, "c", "n", KvFetchOptions { retrieve_tags: false }, 0).unwrap_err(),
        KvError::Backend
    );
    assert_eq!(store.count(None, "c", None, 0).unwrap_err(), KvError::Backend);
    assert_eq!(
        store.update(vec![upd("c", "n", vec![2], None, None)], None, 0).unwrap_err(),
        KvError::Backend
    );
    assert_eq!(store.scan_next(ScanToken(1)).unwrap_err(), KvError::Backend);
}

#[test]
fn unknown_profile_is_a_backend_error() {
    let mut store = keyed_store();
    assert_eq!(
        store.fetch(Some(42), "c", "n", KvFetchOptions { retrieve_tags: false }, 0).unwrap_err(),
        KvError::Backend
    );
}

#[test]
fn cache_miss_falls_back_to_the_key_tables() {
    let mut store = keyed_store();
    store.update(vec![upd("c", "n", vec![5], None, None)], None, 0).unwrap();
    // Drop the cached resolution: the engine must reload the wrapped key
    // from the profile tables, unwrap it and answer as before.
    store.key_cache.entries.clear();
    let found = store
        .fetch(None, "c", "n", KvFetchOptions { retrieve_tags: false }, 0)
        .unwrap()
        .unwrap();
    assert_eq!(found.value, vec![5]);
    assert_eq!(store.key_cache.entries.len(), 1);
}

#[test]
fn plain_store_works_without_a_key() {
    let mut store = KvStore::provision(
        "P".to_string(),
        StoreKey { data: vec![1] },
        None,
    );
    store.update(vec![upd("c", "n", vec![1, 2], None, None)], None, 0).unwrap();
    let found = store
        .fetch(None, "c", "n", KvFetchOptions { retrieve_tags: false }, 0)
        .unwrap()
        .unwrap();
    assert_eq!(found.value, vec![1, 2]);
}

#[test]
fn scanned_names_decrypt_back_to_unicode() {
    let mut store = keyed_store();
    store.update(vec![upd("c", "caf\u{e9}\u{1F512}", vec![1], None, None)], None, 0).unwrap();
    let tok = store
        .scan_start(None, "c", KvFetchOptions { retrieve_tags: false }, None, None, None, 0)
        .unwrap();
    let (page, _) = store.scan_next(tok).unwrap();
    assert_eq!(page.len(), 1);
    assert_eq!(page[0].name, "caf\u{e9}\u{1F512}");
}
