use kv_store::cipher::{decrypt_bytes, decrypt_entry_tags, decrypt_field, decrypt_string_field,
    encrypt_bytes, encrypt_entry, StoreKey};
use kv_store::error::KvError;
use kv_store::keycache::KeyCache;
use kv_store::locks::{hash_lock_info, lock_acquire, LockRow, LOCK_EXPIRY};
use kv_store::query::{extend_query, replace_arg_placeholders, QueryArg, TagFilter};
use kv_store::store::KvStore;
use kv_store::types::{expiry_timestamp, KvEntry, KvTag};

#[test]
fn sqlite_simple_and_convert_args_works() {
    assert_eq!(
        replace_arg_placeholders::<KvStore>("This $$ is $$ a $$ string!", 3),
        ("This ?3 is ?4 a ?5 string!".to_string(), 6),
    );
    assert_eq!(
        replace_arg_placeholders::<KvStore>("This is a string!", 1),
        ("This is a string!".to_string(), 1),
    );
}

#[test]
fn entry_round_trip_under_a_key() {
    let key = Some(StoreKey { data: vec![1, 2, 3] });
    let entry = KvEntry {
        category: "cat".to_string(),
        name: "caf\u{e9}".to_string(),
        value: vec![0, 255, 7],
        tags: Some(vec![
            KvTag { name: "k".to_string(), value: "v".to_string(), plaintext: true },
            KvTag { name: "s".to_string(), value: "hidden".to_string(), plaintext: false },
        ]),
    };
    let (enc, enc_tags) = encrypt_entry(&key, &entry);
    // The stored fields differ from the plain ones.
    assert_ne!(enc.category, "cat".as_bytes().to_vec());
    assert_ne!(enc.value, vec![0, 255, 7]);
    // Decryption is the exact inverse on every field and every tag.
    assert_eq!(decrypt_string_field(&key, &enc.category).unwrap(), "cat");
    assert_eq!(decrypt_string_field(&key, &enc.name).unwrap(), "caf\u{e9}");
    assert_eq!(decrypt_field(&key, &enc.value).unwrap(), vec![0, 255, 7]);
    let tags = decrypt_entry_tags(&key, &enc_tags.unwrap()).unwrap();
    assert_eq!(Some(tags), entry.tags);
}

#[test]
fn entry_round_trip_without_a_key() {
    let entry = KvEntry {
        category: "c".to_string(),
        name: "n".to_string(),
        value: vec![9],
        tags: None,
    };
    let (enc, enc_tags) = encrypt_entry(&None, &entry);
    assert!(enc_tags.is_none());
    assert_eq!(enc.value, vec![9]);
    assert_eq!(decrypt_string_field(&None, &enc.name).unwrap(), "n");
}

#[test]
fn decryption_under_a_mismatched_key_fails() {
    let k1 = StoreKey { data: vec![1, 2, 3] };
    let k2 = StoreKey { data: vec![1, 2, 4] };
    let ct = encrypt_bytes(&k1.data, &vec![10, 20]);
    assert_eq!(decrypt_bytes(&k1.data, &ct).unwrap(), vec![10, 20]);
    assert_eq!(decrypt_bytes(&k2.data, &ct).unwrap_err(), KvError::Encryption);
    assert_eq!(decrypt_bytes(&k1.data, &Vec::new()).unwrap_err(), KvError::Encryption);
}

#[test]
fn plaintext_tag_values_stay_searchable() {
    let key = Some(StoreKey { data: vec![5, 6] });
    let (_, enc_tags) = encrypt_entry(
        &key,
        &KvEntry {
            category: "c".to_string(),
            name: "n".to_string(),
            value: vec![],
            tags: Some(vec![KvTag { name: "k".to_string(), value: "v".to_string(), plaintext: true }]),
        },
    );
    let enc_tags = enc_tags.unwrap();
    // The value rests in clear (equality-searchable); the name does not.
    assert_eq!(enc_tags[0].value, "v".as_bytes().to_vec());
    assert_ne!(enc_tags[0].name, "k".as_bytes().to_vec());
}

#[test]
fn extend_query_compiles_filter_offset_and_limit() {
    let base = "SELECT COUNT(*) FROM items i WHERE store_key_id = ?1 AND category = ?2";
    let mut args = vec![QueryArg::Int(1), QueryArg::Bytes(b"c".to_vec())];
    let filter = Some(TagFilter::Eq("k".to_string(), "v".to_string()));
    let sql = extend_query::<KvStore>(base, &None, &mut args, &filter, Some(10), Some(5));
    assert_eq!(
        sql,
        "SELECT COUNT(*) FROM items i WHERE store_key_id = ?1 AND category = ?2 \
         AND (EXISTS (SELECT 1 FROM items_tags it WHERE it.item_id = i.id \
         AND it.plaintext = 1 AND it.name = ?3 AND it.value = ?4)) LIMIT ?5 OFFSET ?6"
    );
    assert_eq!(
        args,
        vec![
            QueryArg::Int(1),
            QueryArg::Bytes(b"c".to_vec()),
            QueryArg::Bytes(b"k".to_vec()),
            QueryArg::Bytes(b"v".to_vec()),
            QueryArg::Int(5),
            QueryArg::Int(10),
        ]
    );
}

#[test]
fn extend_query_without_filter_or_limit_is_unchanged() {
    let base = "SELECT id, value FROM items i WHERE store_key_id = ?1";
    let mut args = vec![QueryArg::Int(1)];
    let sql = extend_query::<KvStore>(base, &None, &mut args, &None, None, None);
    assert_eq!(sql, base);
    assert_eq!(args.len(), 1);
}

#[test]
fn extend_query_offset_without_limit_binds_offset() {
    let base = "SELECT 1";
    let mut args = Vec::new();
    let sql = extend_query::<KvStore>(base, &None, &mut args, &None, Some(7), None);
    assert_eq!(sql, "SELECT 1 LIMIT -1 OFFSET ?1");
    assert_eq!(args, vec![QueryArg::Int(7)]);
}

#[test]
fn lock_rows_obey_lease_semantics() {
    let mut locks: Vec<LockRow> = Vec::new();
    // Fresh insert.
    assert!(lock_acquire(&mut locks, 77, 1_000, 1_000 + LOCK_EXPIRY));
    // Refused while the lease is active.
    assert!(!lock_acquire(&mut locks, 77, 2_000, 2_000 + LOCK_EXPIRY));
    // A different lock is independent.
    assert!(lock_acquire(&mut locks, 78, 2_000, 2_000 + LOCK_EXPIRY));
    // Taken over exactly when the lease has elapsed, with no release.
    let end = 1_000 + LOCK_EXPIRY;
    assert!(lock_acquire(&mut locks, 77, end, end + LOCK_EXPIRY));
    assert_eq!(locks.len(), 2);
}

#[test]
fn lock_hash_is_deterministic_per_entry() {
    let a = hash_lock_info(1, "c", "n");
    let b = hash_lock_info(1, "c", "n");
    assert_eq!(a, b);
    assert_ne!(hash_lock_info(1, "c", "n2"), a);
    assert_ne!(hash_lock_info(2, "c", "n"), a);
    // The separator keeps ("ab", "c") apart from ("a", "bc").
    assert_ne!(hash_lock_info(1, "ab", "c"), hash_lock_info(1, "a", "bc"));
}

#[test]
fn key_cache_set_and_get() {
    let mut cache = KeyCache::new(StoreKey { data: vec![1] });
    assert!(cache.get_profile_key(5).is_none());
    cache.set_profile_key(5, 11, Some(StoreKey { data: vec![2, 3] }));
    let (kid, key) = cache.get_profile_key(5).unwrap();
    assert_eq!(kid, 11);
    assert_eq!(key.unwrap().data, vec![2, 3]);
    cache.set_profile_key(5, 12, None);
    let (kid, key) = cache.get_profile_key(5).unwrap();
    assert_eq!(kid, 12);
    assert!(key.is_none());
}

#[test]
fn expiry_timestamp_is_a_checked_sum() {
    assert_eq!(expiry_timestamp(1_000, 500), Some(1_500));
    assert_eq!(expiry_timestamp(100, -500), Some(-400));
    assert_eq!(expiry_timestamp(i64::MAX, 1), None);
    assert_eq!(expiry_timestamp(i64::MIN, -1), None);
}
