use vstd::prelude::*;
use vstd::utf8::encode_utf8;

use crate::cipher::{dec_bytes_spec, decrypt_bytes, enc_field_spec, encrypt_bytes,
    okey_view, okey_wf, StoreKey};
use crate::error::{KvError, KvResult};
use crate::keycache::{cache_lookup, KeyCache};
use crate::locks::{locks_wf, Lock, LockRow};
use crate::types::{EncTagView, KeyId, KvEncTag, KvEntry, ProfileId, enc_tags_view};

verus! {

// ---------------------------------------------------------------------------
// Tables
// ---------------------------------------------------------------------------

/// One profile: an isolated namespace of entries under one store key.
pub struct ProfileRow {
    pub id: ProfileId,
    pub name: String,
    pub active_key_id: Option<KeyId>,
}

/// One store key at rest: the per-profile key, wrapped under the top-level
/// wrap key; `None` for a profile that stores in clear.
pub struct StoreKeyRow {
    pub id: KeyId,
    pub profile_id: ProfileId,
    pub wrapped: Option<Vec<u8>>,
}

/// One stored entry, with its tag set kept alongside: at most one row per
/// (store key, category, name).
pub struct ItemRow {
    pub key_id: KeyId,
    pub category: Vec<u8>,
    pub name: Vec<u8>,
    pub value: Vec<u8>,
    pub expiry: Option<i64>,
    pub tags: Vec<KvEncTag>,
}

/// Mathematical image of an [`ItemRow`].
pub ghost struct ItemRowView {
    pub key_id: KeyId,
    pub category: Seq<u8>,
    pub name: Seq<u8>,
    pub value: Seq<u8>,
    pub expiry: Option<i64>,
    pub tags: Seq<EncTagView>,
}

impl View for ItemRow {
    type V = ItemRowView;

    open spec fn view(&self) -> ItemRowView {
        ItemRowView {
            key_id: self.key_id,
            category: self.category@,
            name: self.name@,
            value: self.value@,
            expiry: self.expiry,
            tags: enc_tags_view(self.tags@),
        }
    }
}

/// The views of an item table.
pub open spec fn items_view(s: Seq<ItemRow>) -> Seq<ItemRowView> {
    Seq::new(s.len(), |i: int| s[i]@)
}

/// A process-local handle naming an open scan cursor.
#[derive(Clone, Copy, Debug, PartialEq, Eq, Structural)]
pub struct ScanToken(pub u64);

/// A process-local handle naming a held lock.
#[derive(Clone, Copy, Debug, PartialEq, Eq, Structural)]
pub struct LockToken(pub u64);

/// One open cursor: its token and the entries not yet delivered, kept in
/// reverse so a page moves values out of the buffer's end.
pub struct ScanSlot {
    pub token: u64,
    pub buf: Vec<KvEntry>,
}

/// One held lock: its token and the lock record it maps to.
pub struct LockSlot {
    pub token: u64,
    pub lock: Lock,
}

// ---------------------------------------------------------------------------
// Row predicates
// ---------------------------------------------------------------------------

/// Whether a row carries the given identifying triple.
pub open spec fn row_key_match(r: ItemRowView, kid: KeyId, cat: Seq<u8>, nm: Seq<u8>) -> bool {
    r.key_id == kid && r.category == cat && r.name == nm
}

/// At most one live entry per (store key, category, name).
pub open spec fn items_unique(items: Seq<ItemRowView>) -> bool {
    forall|i: int, j: int|
        0 <= i < j < items.len() ==> !row_key_match(
            #[trigger] items[i],
            (#[trigger] items[j]).key_id,
            items[j].category,
            items[j].name,
        )
}

/// Whether the table holds a row for the triple.
pub open spec fn has_row(items: Seq<ItemRowView>, kid: KeyId, cat: Seq<u8>, nm: Seq<u8>) -> bool {
    exists|i: int| 0 <= i < items.len() && row_key_match(#[trigger] items[i], kid, cat, nm)
}

/// The index of the row for the triple, when one exists.
pub open spec fn row_index(items: Seq<ItemRowView>, kid: KeyId, cat: Seq<u8>, nm: Seq<u8>) -> int {
    choose|i: int| 0 <= i < items.len() && row_key_match(#[trigger] items[i], kid, cat, nm)
}

/// The row for the triple, when one exists.
pub open spec fn row_at(items: Seq<ItemRowView>, kid: KeyId, cat: Seq<u8>, nm: Seq<u8>) -> ItemRowView {
    items[row_index(items, kid, cat, nm)]
}

/// An entry carrying an expiry is logically absent once it has passed.
pub open spec fn visible(r: ItemRowView, now: i64) -> bool {
    match r.expiry {
        Some(e) => e > now,
        None => true,
    }
}

/// The index of the profile row carrying `pid`, when one exists.
fn find_profile(profiles: &Vec<ProfileRow>, pid: ProfileId) -> (r: Option<usize>)
    ensures
        match r {
            Some(i) => i < profiles@.len() && profiles@[i as int].id == pid,
            None => forall|j: int| 0 <= j < profiles@.len() ==> (#[trigger] profiles@[j]).id != pid,
        },
{
    let mut i: usize = 0;
    while i < profiles.len()
        invariant
            i <= profiles@.len(),
            forall|j: int| 0 <= j < i ==> (#[trigger] profiles@[j]).id != pid,
        decreases profiles@.len() - i,
    {
        if profiles[i].id == pid {
            return Some(i);
        }
        i += 1;
    }
    None
}

/// The index of the store-key row carrying `kid`, when one exists.
fn find_store_key(keys: &Vec<StoreKeyRow>, kid: KeyId) -> (r: Option<usize>)
    ensures
        match r {
            Some(i) => i < keys@.len() && keys@[i as int].id == kid,
            None => forall|j: int| 0 <= j < keys@.len() ==> (#[trigger] keys@[j]).id != kid,
        },
{
    let mut i: usize = 0;
    while i < keys.len()
        invariant
            i <= keys@.len(),
            forall|j: int| 0 <= j < i ==> (#[trigger] keys@[j]).id != kid,
        decreases keys@.len() - i,
    {
        if keys[i].id == kid {
            return Some(i);
        }
        i += 1;
    }
    None
}

/// In a duplicate-free table whose index `i` carries the triple, the lookup
/// answers from index `i`.
pub proof fn lemma_row_found(items: Seq<ItemRowView>, kid: KeyId, cat: Seq<u8>, nm: Seq<u8>, i: int)
    requires
        items_unique(items),
        0 <= i < items.len(),
        row_key_match(items[i], kid, cat, nm),
    ensures
        has_row(items, kid, cat, nm),
        row_index(items, kid, cat, nm) == i,
        row_at(items, kid, cat, nm) == items[i],
{
    let w = choose|w: int| 0 <= w < items.len() && row_key_match(#[trigger] items[w], kid, cat, nm);
    assert(row_key_match(items[w], kid, cat, nm));
    assert(w == i);
}

// ---------------------------------------------------------------------------
// The store
// ---------------------------------------------------------------------------

/// The storage engine: the record, lock and cursor tables with their
/// invariants, the key cache, and the default profile.  A driver around the
/// library persists the same state in a relational backend; every operation
/// takes the clock reading `now_ms` as an argument.
pub struct KvStore {
    pub profiles: Vec<ProfileRow>,
    pub store_keys: Vec<StoreKeyRow>,
    pub items: Vec<ItemRow>,
    pub items_locks: Vec<LockRow>,
    pub key_cache: KeyCache,
    pub default_profile: ProfileId,
    pub scans: Vec<ScanSlot>,
    pub next_scan_token: u64,
    pub locks: Vec<LockSlot>,
    pub next_lock_token: u64,
    pub live: bool,
}

impl KvStore {
    /// The invariants every operation preserves: unique identifying triples,
    /// unique table identifiers, unique handles below their counters, and a
    /// well-formed key cache.
    pub open spec fn wf(&self) -> bool {
        &&& self.key_cache.wf()
        &&& items_unique(items_view(self.items@))
        &&& self.items@.len() <= 0x7fff_ffff_ffff_ffff
        &&& locks_wf(self.items_locks@)
        &&& forall|i: int, j: int|
            0 <= i < j < self.scans@.len() ==> (#[trigger] self.scans@[i]).token != (
            #[trigger] self.scans@[j]).token
        &&& forall|i: int|
            0 <= i < self.scans@.len() ==> (#[trigger] self.scans@[i]).token < self.next_scan_token
        &&& forall|i: int, j: int|
            0 <= i < j < self.locks@.len() ==> (#[trigger] self.locks@[i]).token != (
            #[trigger] self.locks@[j]).token
        &&& forall|i: int|
            0 <= i < self.locks@.len() ==> (#[trigger] self.locks@[i]).token < self.next_lock_token
        &&& forall|i: int, j: int|
            0 <= i < j < self.profiles@.len() ==> (#[trigger] self.profiles@[i]).id != (
            #[trigger] self.profiles@[j]).id
        &&& forall|i: int, j: int|
            0 <= i < j < self.store_keys@.len() ==> (#[trigger] self.store_keys@[i]).id != (
            #[trigger] self.store_keys@[j]).id
    }

    /// The profile an operation addresses: the given one, or the store's
    /// default.
    pub open spec fn target_pid(&self, pid: Option<ProfileId>) -> ProfileId {
        match pid {
            Some(p) => p,
            None => self.default_profile,
        }
    }

    /// What the profile tables say a profile's key is: its active key
    /// identifier and the key unwrapped under the wrap key.  `None` when the
    /// profile is unknown, has no active key, or its key does not unwrap.
    pub open spec fn table_key_view(&self, pid: ProfileId) -> Option<(KeyId, Option<Seq<u8>>)> {
        if exists|i: int| 0 <= i < self.profiles@.len() && (#[trigger] self.profiles@[i]).id == pid {
            let p = self.profiles@[choose|i: int|
                0 <= i < self.profiles@.len() && (#[trigger] self.profiles@[i]).id == pid];
            match p.active_key_id {
                Some(kid) => if exists|i: int|
                    0 <= i < self.store_keys@.len() && (#[trigger] self.store_keys@[i]).id == kid {
                    let k = self.store_keys@[choose|i: int|
                        0 <= i < self.store_keys@.len() && (#[trigger] self.store_keys@[i]).id
                            == kid];
                    match k.wrapped {
                        Some(w) => match dec_bytes_spec(self.key_cache.wrap_key.data@, w@) {
                            Some(kb) => if kb.len() > 0 {
                                Some((kid, Some(kb)))
                            } else {
                                None
                            },
                            None => None,
                        },
                        None => Some((kid, None)),
                    }
                } else {
                    None
                },
                None => None,
            }
        } else {
            None
        }
    }

    /// How an operation resolves a profile's key: from the cache when
    /// present, and otherwise from the profile tables.
    pub open spec fn resolve_spec(&self, pid: Option<ProfileId>) -> Option<
        (KeyId, Option<Seq<u8>>),
    > {
        let p = self.target_pid(pid);
        match cache_lookup(self.key_cache.entries@, p) {
            Some(r) => Some(r),
            None => self.table_key_view(p),
        }
    }

    /// Everything but the key cache agrees between two states.
    pub open spec fn same_but_cache(&self, b: &KvStore) -> bool {
        &&& b.profiles@ == self.profiles@
        &&& b.store_keys@ == self.store_keys@
        &&& b.items@ == self.items@
        &&& b.items_locks@ == self.items_locks@
        &&& b.default_profile == self.default_profile
        &&& b.scans@ == self.scans@
        &&& b.next_scan_token == self.next_scan_token
        &&& b.locks@ == self.locks@
        &&& b.next_lock_token == self.next_lock_token
        &&& b.live == self.live
    }

    /// An empty open store over a seeded key cache.
    pub fn new(default_profile: ProfileId, key_cache: KeyCache) -> (r: Self)
        requires
            key_cache.wf(),
        ensures
            r.wf(),
            r.live,
            r.default_profile == default_profile,
            r.key_cache == key_cache,
            r.profiles@.len() == 0,
            r.store_keys@.len() == 0,
            r.items@.len() == 0,
            r.items_locks@.len() == 0,
            r.scans@.len() == 0,
            r.locks@.len() == 0,
    {
        KvStore {
            profiles: Vec::new(),
            store_keys: Vec::new(),
            items: Vec::new(),
            items_locks: Vec::new(),
            key_cache,
            default_profile,
            scans: Vec::new(),
            next_scan_token: 1,
            locks: Vec::new(),
            next_lock_token: 1,
            live: true,
        }
    }

    /// One-time provisioning: creates the initial profile and its wrapped
    /// store key, and returns a store whose key cache is pre-seeded so that
    /// the default profile resolves to the new key.
    pub fn provision(profile_name: String, wrap_key: StoreKey, store_key: Option<StoreKey>) -> (r:
        Self)
        requires
            wrap_key.wf(),
            okey_wf(store_key),
        ensures
            r.wf(),
            r.live,
            r.default_profile == 1,
            r.resolve_spec(None) == Some((1 as KeyId, okey_view(store_key))),
            r.items@.len() == 0,
            r.items_locks@.len() == 0,
            r.scans@.len() == 0,
            r.locks@.len() == 0,
    {
        let wrapped = match &store_key {
            Some(k) => Some(encrypt_bytes(&wrap_key.data, &k.data)),
            None => None,
        };
        let mut key_cache = KeyCache::new(wrap_key);
        key_cache.set_profile_key(1, 1, store_key);
        let mut st = KvStore::new(1, key_cache);
        st.profiles.push(ProfileRow { id: 1, name: profile_name, active_key_id: Some(1) });
        st.store_keys.push(StoreKeyRow { id: 1, profile_id: 1, wrapped });
        st
    }

    /// Closes the store: every later operation fails with a backend error.
    pub fn close(&mut self) -> (r: KvResult<()>)
        requires
            old(self).wf(),
        ensures
            final(self).wf(),
            r is Ok,
            !final(self).live,
            final(self).items@ == old(self).items@,
            final(self).scans@ == old(self).scans@,
            final(self).locks@ == old(self).locks@,
            final(self).items_locks@ == old(self).items_locks@,
    {
        self.live = false;
        Ok(())
    }

    /// Resolves a profile's key identifier and key: answers from the cache,
    /// and on a miss loads the wrapped key from the profile tables, unwraps
    /// it, populates the cache and answers from it.  No resolution changes
    /// what any later resolution answers.
    pub fn get_profile_key(&mut self, pid: Option<ProfileId>) -> (r: KvResult<
        (KeyId, Option<StoreKey>),
    >)
        requires
            old(self).wf(),
        ensures
            final(self).wf(),
            old(self).same_but_cache(final(self)),
            forall|q: Option<ProfileId>|
                #[trigger] final(self).resolve_spec(q) == old(self).resolve_spec(q),
            match r {
                Ok((kid, k)) => old(self).resolve_spec(pid) == Some((kid, okey_view(k)))
                    && okey_wf(k),
                Err(e) => e == KvError::Backend && old(self).resolve_spec(pid) is None,
            },
    {
        let p = match pid {
            Some(p) => p,
            None => self.default_profile,
        };
        if let Some((kid, key)) = self.key_cache.get_profile_key(p) {
            return Ok((kid, key));
        }
        // Cache miss: fall back to the profile tables.
        let pi = match find_profile(&self.profiles, p) {
            Some(pi) => pi,
            None => {
                return Err(KvError::Backend);
            },
        };
        proof {
            let w = choose|w: int|
                0 <= w < self.profiles@.len() && (#[trigger] self.profiles@[w]).id == p;
            assert(self.profiles@[w].id == p);
            assert(w == pi);
        }
        let kid = match self.profiles[pi].active_key_id {
            Some(kid) => kid,
            None => {
                return Err(KvError::Backend);
            },
        };
        let ki = match find_store_key(&self.store_keys, kid) {
            Some(ki) => ki,
            None => {
                return Err(KvError::Backend);
            },
        };
        proof {
            let w = choose|w: int|
                0 <= w < self.store_keys@.len() && (#[trigger] self.store_keys@[w]).id == kid;
            assert(self.store_keys@[w].id == kid);
            assert(w == ki);
        }
        let key: Option<StoreKey> = match &self.store_keys[ki].wrapped {
            Some(w) => {
                let kb = match decrypt_bytes(&self.key_cache.wrap_key.data, w) {
                    Ok(kb) => kb,
                    Err(_) => {
                        return Err(KvError::Backend);
                    },
                };
                if kb.len() == 0 {
                    return Err(KvError::Backend);
                }
                Some(StoreKey { data: kb })
            },
            None => None,
        };
        let ghost pre = *self;
        let out = match &key {
            Some(k) => Some(k.duplicate()),
            None => None,
        };
        self.key_cache.set_profile_key(p, kid, key);
        proof {
            assert forall|q: Option<ProfileId>| #[trigger] final(self).resolve_spec(q) == old(
                self,
            ).resolve_spec(q) by {
                let t = old(self).target_pid(q);
                if t == p {
                    assert(cache_lookup(self.key_cache.entries@, p) == pre.table_key_view(p));
                    assert(self.table_key_view(p) == pre.table_key_view(p));
                } else {
                    assert(cache_lookup(self.key_cache.entries@, t) == cache_lookup(
                        pre.key_cache.entries@,
                        t,
                    ));
                    assert(self.table_key_view(t) == pre.table_key_view(t));
                }
            }
        }
        Ok((kid, out))
    }

    /// What `fetch` returns: the unique visible row for the triple, its value
    /// and (when asked for) its tags decrypted, under the identifying fields
    /// the caller supplied.
    pub open spec fn fetch_spec(
        &self,
        pid: Option<ProfileId>,
        category: Seq<char>,
        name: Seq<char>,
        retrieve_tags: bool,
        now: i64,
    ) -> KvResult<Option<crate::types::EntryView>> {
        if !self.live {
            Err(KvError::Backend)
        } else {
            match self.resolve_spec(pid) {
                None => Err(KvError::Backend),
                Some((kid, key)) => {
                    let cat = enc_field_spec(key, encode_utf8(category));
                    let nm = enc_field_spec(key, encode_utf8(name));
                    let items = items_view(self.items@);
                    if has_row(items, kid, cat, nm) {
                        let row = row_at(items, kid, cat, nm);
                        if visible(row, now) {
                            match fetch_result(key, row, category, name, retrieve_tags) {
                                Some(e) => Ok(Some(e)),
                                None => Err(KvError::Encryption),
                            }
                        } else {
                            Ok(None)
                        }
                    } else {
                        Ok(None)
                    }
                },
            }
        }
    }

    /// Looks up the unique entry of a profile's category under the given
    /// name; absent and expired entries give `None`, not an error.
    pub fn fetch(
        &mut self,
        profile_id: Option<ProfileId>,
        category: &str,
        name: &str,
        options: crate::types::KvFetchOptions,
        now_ms: i64,
    ) -> (r: KvResult<Option<KvEntry>>)
        requires
            old(self).wf(),
        ensures
            final(self).wf(),
            old(self).same_but_cache(final(self)),
            forall|q: Option<ProfileId>|
                #[trigger] final(self).resolve_spec(q) == old(self).resolve_spec(q),
            match (r, old(self).fetch_spec(
                profile_id,
                category@,
                name@,
                options.retrieve_tags,
                now_ms,
            )) {
                (Ok(Some(e)), Ok(Some(ev))) => e@ == ev,
                (Ok(None), Ok(None)) => true,
                (Err(a), Err(b)) => a == b,
                _ => false,
            },
    {
        if !self.live {
            return Err(KvError::Backend);
        }
        let (kid, key) = self.get_profile_key(profile_id)?;
        let cat = crate::cipher::encrypt_string_field(&key, category);
        let nm = crate::cipher::encrypt_string_field(&key, name);
        let idx = match find_item(&self.items, kid, &cat, &nm) {
            Some(i) => i,
            None => {
                return Ok(None);
            },
        };
        proof {
            lemma_row_found(items_view(self.items@), kid, cat@, nm@, idx as int);
        }
        let row = &self.items[idx];
        match row.expiry {
            Some(e) => {
                if e <= now_ms {
                    return Ok(None);
                }
            },
            None => {},
        }
        let value = crate::cipher::decrypt_field(&key, &row.value)?;
        let tags = if options.retrieve_tags && row.tags.len() > 0 {
            Some(crate::cipher::decrypt_entry_tags(&key, &row.tags)?)
        } else {
            None
        };
        Ok(Some(KvEntry { category: category.to_owned(), name: name.to_owned(), value, tags }))
    }

    /// Counts the visible entries of a profile's category that the filter
    /// accepts.
    pub fn count(
        &mut self,
        profile_id: Option<ProfileId>,
        category: &str,
        tag_filter: Option<crate::query::TagFilter>,
        now_ms: i64,
    ) -> (r: KvResult<i64>)
        requires
            old(self).wf(),
        ensures
            final(self).wf(),
            old(self).same_but_cache(final(self)),
            forall|q: Option<ProfileId>|
                #[trigger] final(self).resolve_spec(q) == old(self).resolve_spec(q),
            match r {
                Ok(c) => old(self).live && match old(self).resolve_spec(profile_id) {
                    Some((kid, key)) => c as int == count_rows(
                        items_view(old(self).items@),
                        kid,
                        enc_field_spec(key, encode_utf8(category@)),
                        key,
                        tag_filter,
                        now_ms,
                    ),
                    None => false,
                },
                Err(e) => e == KvError::Backend && (!old(self).live || old(self).resolve_spec(
                    profile_id,
                ) is None),
            },
    {
        if !self.live {
            return Err(KvError::Backend);
        }
        let (kid, key) = self.get_profile_key(profile_id)?;
        let cat = crate::cipher::encrypt_string_field(&key, category);
        let ghost gitems = items_view(self.items@);
        let ghost gkey = okey_view(key);
        let mut n: usize = 0;
        let mut i: usize = 0;
        while i < self.items.len()
            invariant
                self.wf(),
                okey_wf(key),
                gkey == okey_view(key),
                gitems == items_view(self.items@),
                cat@ == enc_field_spec(gkey, encode_utf8(category@)),
                i <= self.items@.len(),
                n <= i,
                n as int == count_rows(gitems.take(i as int), kid, cat@, gkey, tag_filter, now_ms),
            decreases self.items@.len() - i,
        {
            let row = &self.items[i];
            let mut hit = row.key_id == kid && crate::query::bytes_eq(&row.category, &cat);
            if hit {
                match row.expiry {
                    Some(e) => {
                        if e <= now_ms {
                            hit = false;
                        }
                    },
                    None => {},
                }
            }
            if hit {
                hit = match &tag_filter {
                    Some(q) => crate::query::filter_eval(&key, q, &row.tags),
                    None => true,
                };
            }
            if hit {
                n += 1;
            }
            proof {
                assert(gitems.take(i + 1).drop_last() =~= gitems.take(i as int));
                assert(gitems.take(i + 1).last() == gitems[i as int]);
            }
            i += 1;
        }
        proof {
            assert(gitems.take(gitems.len() as int) =~= gitems);
            lemma_count_rows_bound(gitems, kid, cat@, gkey, tag_filter, now_ms);
        }
        Ok(n as i64)
    }

    /// What `scan_start` registers under the fresh token: the visible
    /// matching rows in storage order, windowed by offset and limit, each
    /// decrypted.
    pub open spec fn scan_start_spec(
        &self,
        pid: Option<ProfileId>,
        category: Seq<char>,
        retrieve_tags: bool,
        f: Option<crate::query::TagFilter>,
        offset: Option<i64>,
        max_rows: Option<i64>,
        now: i64,
    ) -> KvResult<Seq<crate::types::EntryView>> {
        if !self.live || self.next_scan_token == u64::MAX {
            Err(KvError::Backend)
        } else {
            match self.resolve_spec(pid) {
                None => Err(KvError::Backend),
                Some((kid, key)) => {
                    let rows = scan_rows(
                        items_view(self.items@),
                        kid,
                        enc_field_spec(key, encode_utf8(category)),
                        key,
                        f,
                        now,
                    );
                    match decrypt_rows(key, scan_window(rows, offset, max_rows), category,
                        retrieve_tags) {
                        Some(es) => Ok(es),
                        None => Err(KvError::Encryption),
                    }
                },
            }
        }
    }

    /// Opens a paginated scan over the visible entries of a profile's
    /// category that the filter accepts, and registers its cursor under a
    /// fresh token.  No entries are delivered yet: `scan_next` pulls them
    /// page by page.
    pub fn scan_start(
        &mut self,
        profile_id: Option<ProfileId>,
        category: &str,
        options: crate::types::KvFetchOptions,
        tag_filter: Option<crate::query::TagFilter>,
        offset: Option<i64>,
        max_rows: Option<i64>,
        now_ms: i64,
    ) -> (r: KvResult<ScanToken>)
        requires
            old(self).wf(),
        ensures
            final(self).wf(),
            final(self).items@ == old(self).items@,
            final(self).items_locks@ == old(self).items_locks@,
            final(self).locks@ == old(self).locks@,
            final(self).next_lock_token == old(self).next_lock_token,
            final(self).profiles@ == old(self).profiles@,
            final(self).store_keys@ == old(self).store_keys@,
            final(self).default_profile == old(self).default_profile,
            final(self).live == old(self).live,
            forall|q: Option<ProfileId>|
                #[trigger] final(self).resolve_spec(q) == old(self).resolve_spec(q),
            match (r, old(self).scan_start_spec(
                profile_id,
                category@,
                options.retrieve_tags,
                tag_filter,
                offset,
                max_rows,
                now_ms,
            )) {
                (Ok(tok), Ok(es)) => {
                    &&& tok.0 == old(self).next_scan_token
                    &&& final(self).next_scan_token == old(self).next_scan_token + 1
                    &&& final(self).scans@.len() == old(self).scans@.len() + 1
                    &&& final(self).scans@.drop_last() == old(self).scans@
                    &&& scan_lookup(final(self).scans@, tok.0) == Some(es)
                    &&& forall|t2: u64|
                        t2 != tok.0 ==> #[trigger] scan_lookup(final(self).scans@, t2)
                            == scan_lookup(old(self).scans@, t2)
                },
                (Err(a), Err(b)) => a == b && final(self).scans@ == old(self).scans@
                    && final(self).next_scan_token == old(self).next_scan_token,
                _ => false,
            },
    {
        if !self.live {
            return Err(KvError::Backend);
        }
        if self.next_scan_token == u64::MAX {
            return Err(KvError::Backend);
        }
        let (kid, key) = self.get_profile_key(profile_id)?;
        let cat = crate::cipher::encrypt_string_field(&key, category);
        let ghost gitems = items_view(self.items@);
        let ghost gkey = okey_view(key);
        let ghost grows = scan_rows(gitems, kid, cat@, gkey, tag_filter, now_ms);

        // Collect the indices of the matching rows, in storage order.
        let mut idxs: Vec<usize> = Vec::new();
        let mut i: usize = 0;
        while i < self.items.len()
            invariant
                self.wf(),
                okey_wf(key),
                gkey == okey_view(key),
                gitems == items_view(self.items@),
                cat@ == enc_field_spec(gkey, encode_utf8(category@)),
                i <= self.items@.len(),
                idxs@.len() == scan_rows(
                    gitems.take(i as int),
                    kid,
                    cat@,
                    gkey,
                    tag_filter,
                    now_ms,
                ).len(),
                forall|j: int|
                    0 <= j < idxs@.len() ==> (#[trigger] idxs@[j]) < gitems.len() && gitems[
                        idxs@[j] as int
                    ] == scan_rows(gitems.take(i as int), kid, cat@, gkey, tag_filter, now_ms)[j],
            decreases self.items@.len() - i,
        {
            let row = &self.items[i];
            let mut hit = row.key_id == kid && crate::query::bytes_eq(&row.category, &cat);
            if hit {
                match row.expiry {
                    Some(e) => {
                        if e <= now_ms {
                            hit = false;
                        }
                    },
                    None => {},
                }
            }
            if hit {
                hit = match &tag_filter {
                    Some(q) => crate::query::filter_eval(&key, q, &row.tags),
                    None => true,
                };
            }
            if hit {
                idxs.push(i);
            }
            proof {
                assert(gitems.take(i + 1).drop_last() =~= gitems.take(i as int));
                assert(gitems.take(i + 1).last() == gitems[i as int]);
            }
            i += 1;
        }
        proof {
            assert(gitems.take(gitems.len() as int) =~= gitems);
        }

        // Apply the offset and row limit.
        let n = idxs.len();
        let start: usize = match offset {
            Some(o) => if o <= 0 {
                0
            } else if o as u64 >= n as u64 {
                n
            } else {
                o as usize
            },
            None => 0,
        };
        let end: usize = match max_rows {
            Some(m) => if m < 0 {
                n
            } else {
                let rem = n - start;
                if (m as u64) < (rem as u64) {
                    start + (m as usize)
                } else {
                    n
                }
            },
            None => n,
        };
        let ghost gwin = scan_window(grows, offset, max_rows);
        proof {
            assert(gwin =~= grows.subrange(start as int, end as int));
        }

        // Decrypt the windowed rows.
        let mut ev: Vec<KvEntry> = Vec::new();
        let mut j: usize = start;
        while j < end
            invariant
                self.wf(),
                okey_wf(key),
                gkey == okey_view(key),
                gitems == items_view(self.items@),
                self.items@ == old(self).items@,
                self.items_locks@ == old(self).items_locks@,
                self.locks@ == old(self).locks@,
                self.next_lock_token == old(self).next_lock_token,
                self.profiles@ == old(self).profiles@,
                self.store_keys@ == old(self).store_keys@,
                self.default_profile == old(self).default_profile,
                self.live == old(self).live,
                self.scans@ == old(self).scans@,
                self.next_scan_token == old(self).next_scan_token,
                old(self).live,
                old(self).next_scan_token != u64::MAX,
                old(self).resolve_spec(profile_id) == Some((kid, gkey)),
                forall|q: Option<ProfileId>|
                    #[trigger] self.resolve_spec(q) == old(self).resolve_spec(q),
                gwin == scan_window(
                    scan_rows(
                        items_view(old(self).items@),
                        kid,
                        enc_field_spec(gkey, encode_utf8(category@)),
                        gkey,
                        tag_filter,
                        now_ms,
                    ),
                    offset,
                    max_rows,
                ),
                start <= j <= end <= idxs@.len(),
                gwin.len() == end - start,
                grows.len() == idxs@.len(),
                grows == scan_rows(gitems, kid, cat@, gkey, tag_filter, now_ms),
                cat@ == enc_field_spec(gkey, encode_utf8(category@)),
                forall|p: int|
                    0 <= p < idxs@.len() ==> (#[trigger] idxs@[p]) < gitems.len() && gitems[
                        idxs@[p] as int
                    ] == grows[p],
                gwin == grows.subrange(start as int, end as int),
                decrypt_rows(gkey, gwin.take(j - start), category@, options.retrieve_tags) == Some(
                    crate::types::entries_view(ev@),
                ),
                ev@.len() == j - start,
            decreases end - j,
        {
            let row = &self.items[idxs[j]];
            proof {
                assert(gitems[idxs@[j as int] as int] == grows[j as int]);
                assert(gwin[j - start] == grows.subrange(start as int, end as int)[j - start]);
                assert(row@ == gwin[j - start]);
            }
            let name = match crate::cipher::decrypt_string_field(&key, &row.name) {
                Ok(nm) => nm,
                Err(_) => {
                    proof {
                        lemma_decrypt_rows_none(
                            gkey,
                            gwin,
                            category@,
                            options.retrieve_tags,
                            j - start,
                        );
                    }
                    return Err(KvError::Encryption);
                },
            };
            let value = match crate::cipher::decrypt_field(&key, &row.value) {
                Ok(v) => v,
                Err(_) => {
                    proof {
                        lemma_decrypt_rows_none(
                            gkey,
                            gwin,
                            category@,
                            options.retrieve_tags,
                            j - start,
                        );
                    }
                    return Err(KvError::Encryption);
                },
            };
            let tags = if options.retrieve_tags && row.tags.len() > 0 {
                match crate::cipher::decrypt_entry_tags(&key, &row.tags) {
                    Ok(ts) => Some(ts),
                    Err(_) => {
                        proof {
                            lemma_decrypt_rows_none(
                                gkey,
                                gwin,
                                category@,
                                options.retrieve_tags,
                                j - start,
                            );
                        }
                        return Err(KvError::Encryption);
                    },
                }
            } else {
                None
            };
            let entry = KvEntry { category: category.to_owned(), name, value, tags };
            proof {
                assert(entry@ == row_entry(gkey, gwin[j - start], category@,
                    options.retrieve_tags).unwrap());
            }
            ev.push(entry);
            proof {
                let k = (j - start) + 1;
                assert(gwin.take(k as int).drop_last() =~= gwin.take(k - 1));
                assert(gwin.take(k as int).last() == gwin[k - 1]);
                assert(crate::types::entries_view(ev@) =~= crate::types::entries_view(
                    ev@.drop_last(),
                ).push(ev@.last()@));
            }
            j += 1;
        }
        let ghost ges = crate::types::entries_view(ev@);
        proof {
            assert(gwin.take(gwin.len() as int) =~= gwin);
        }

        // Store the pending entries in reverse under a fresh token.
        let mut buf: Vec<KvEntry> = Vec::new();
        let ghost n0 = ev@.len();
        loop
            invariant
                buf@.len() + ev@.len() == n0,
                forall|p: int| 0 <= p < ev@.len() ==> ges[p] == (#[trigger] ev@[p])@,
                forall|p: int| 0 <= p < buf@.len() ==> (#[trigger] buf@[p])@ == ges[n0 - 1 - p],
                ges.len() == n0,
            ensures
                ev@.len() == 0,
                buf@.len() == n0,
                forall|p: int| 0 <= p < buf@.len() ==> (#[trigger] buf@[p])@ == ges[n0 - 1 - p],
            decreases ev@.len(),
        {
            match ev.pop() {
                Some(e) => {
                    buf.push(e);
                },
                None => {
                    break ;
                },
            }
        }
        proof {
            assert(crate::scan::pending_view(buf@) =~= ges);
        }
        let token = self.next_scan_token;
        let ghost scans0 = self.scans@;
        let ghost mid = *self;
        self.scans.push(ScanSlot { token, buf });
        self.next_scan_token = token + 1;
        proof {
            assert forall|q: Option<ProfileId>| #[trigger] self.resolve_spec(q)
                == mid.resolve_spec(q) by {
                let t = mid.target_pid(q);
                assert(cache_lookup(self.key_cache.entries@, t) == cache_lookup(
                    mid.key_cache.entries@,
                    t,
                ));
                assert(self.table_key_view(t) == mid.table_key_view(t));
            }
            lemma_scan_found(self.scans@, token, scans0.len() as int);
            assert(self.scans@.drop_last() =~= scans0);
            assert forall|t2: u64| t2 != token implies #[trigger] scan_lookup(self.scans@, t2)
                == scan_lookup(scans0, t2) by {
                assert forall|p: int|
                    0 <= p < scans0.len() && (#[trigger] scans0[p]).token != token implies exists|
                        q: int,
                    | 0 <= q < self.scans@.len() && #[trigger] self.scans@[q] == scans0[p] by {
                    assert(self.scans@[p] == scans0[p]);
                }
                assert forall|q: int|
                    0 <= q < self.scans@.len() && (#[trigger] self.scans@[q]).token != token
                        implies exists|p: int|
                    0 <= p < scans0.len() && #[trigger] scans0[p] == self.scans@[q] by {
                    assert(q < scans0.len());
                    assert(scans0[q] == self.scans@[q]);
                }
                lemma_scan_agree(scans0, self.scans@, token, t2);
            }
        }
        Ok(ScanToken(token))
    }

    /// Delivers the next page of an open scan.  A full page hands the token
    /// back for the next call; a shorter page (possibly empty) retires the
    /// cursor.  An unknown or already-exhausted token fails with `Timeout`,
    /// not a silent empty result; every other cursor is untouched.
    pub fn scan_next(&mut self, scan_token: ScanToken) -> (r: KvResult<
        (Vec<KvEntry>, Option<ScanToken>),
    >)
        requires
            old(self).wf(),
        ensures
            final(self).wf(),
            final(self).key_cache == old(self).key_cache,
            final(self).items@ == old(self).items@,
            final(self).items_locks@ == old(self).items_locks@,
            final(self).locks@ == old(self).locks@,
            final(self).next_lock_token == old(self).next_lock_token,
            final(self).profiles@ == old(self).profiles@,
            final(self).store_keys@ == old(self).store_keys@,
            final(self).default_profile == old(self).default_profile,
            final(self).live == old(self).live,
            final(self).next_scan_token == old(self).next_scan_token,
            match r {
                Ok((page, tok)) => {
                    &&& old(self).live
                    &&& scan_lookup(old(self).scans@, scan_token.0) matches Some(pend) && {
                    let k = crate::scan::page_len(pend);
                    &&& page@.len() == k
                    &&& crate::types::entries_view(page@) == pend.take(k)
                    &&& tok == (if k == crate::scan::PAGE_SIZE as int {
                        Some(scan_token)
                    } else {
                        None::<ScanToken>
                    })
                    &&& scan_lookup(final(self).scans@, scan_token.0) == (if k
                        == crate::scan::PAGE_SIZE as int {
                        Some(pend.skip(k))
                    } else {
                        None::<Seq<crate::types::EntryView>>
                    })
                    &&& forall|t2: u64|
                        t2 != scan_token.0 ==> #[trigger] scan_lookup(final(self).scans@, t2)
                            == scan_lookup(old(self).scans@, t2)
                }
                },
                Err(e) => final(self).scans@ == old(self).scans@ && (if !old(self).live {
                    e == KvError::Backend
                } else {
                    e == KvError::Timeout && scan_lookup(old(self).scans@, scan_token.0) is None
                }),
            },
    {
        if !self.live {
            return Err(KvError::Backend);
        }
        let idx = match find_scan(&self.scans, scan_token.0) {
            Some(i) => i,
            None => {
                return Err(KvError::Timeout);
            },
        };
        proof {
            lemma_scan_found(self.scans@, scan_token.0, idx as int);
        }
        let ghost scans0 = self.scans@;
        let mut slot = self.scans.remove(idx);
        let ghost pend = crate::scan::pending_view(slot.buf@);
        let ghost s1 = self.scans@;
        proof {
            assert forall|a: int, b: int| 0 <= a < b < s1.len() implies (#[trigger] s1[a]).token
                != (#[trigger] s1[b]).token by {
                let a0 = if a < idx {
                    a
                } else {
                    a + 1
                };
                let b0 = if b < idx {
                    b
                } else {
                    b + 1
                };
                assert(s1[a] == scans0[a0] && s1[b] == scans0[b0]);
            }
            assert forall|a: int| 0 <= a < s1.len() implies (#[trigger] s1[a]).token
                < self.next_scan_token by {
                let a0 = if a < idx {
                    a
                } else {
                    a + 1
                };
                assert(s1[a] == scans0[a0]);
            }
            assert forall|a: int| 0 <= a < s1.len() implies (#[trigger] s1[a]).token
                != scan_token.0 by {
                let a0 = if a < idx {
                    a
                } else {
                    a + 1
                };
                assert(s1[a] == scans0[a0]);
            }
        }
        let page = crate::scan::take_page(&mut slot.buf);
        let full = page.len() == crate::scan::PAGE_SIZE;
        let tok: Option<ScanToken>;
        if full {
            self.scans.push(slot);
            tok = Some(scan_token);
            proof {
                lemma_scan_found(self.scans@, scan_token.0, s1.len() as int);
            }
        } else {
            tok = None;
            proof {
                assert(!scan_has(self.scans@, scan_token.0));
            }
        }
        proof {
            let s2 = self.scans@;
            assert forall|t2: u64| t2 != scan_token.0 implies #[trigger] scan_lookup(s2, t2)
                == scan_lookup(scans0, t2) by {
                assert forall|p: int|
                    0 <= p < scans0.len() && (#[trigger] scans0[p]).token != scan_token.0 implies
                    exists|q: int| 0 <= q < s2.len() && #[trigger] s2[q] == scans0[p] by {
                    let q = if p < idx {
                        p
                    } else {
                        p - 1
                    };
                    assert(s1[q] == scans0[p]);
                    assert(s2[q] == scans0[p]);
                }
                assert forall|q: int|
                    0 <= q < s2.len() && (#[trigger] s2[q]).token != scan_token.0 implies exists|
                        p: int,
                    | 0 <= p < scans0.len() && #[trigger] scans0[p] == s2[q] by {
                    assert(q < s1.len());
                    let p = if q < idx {
                        q
                    } else {
                        q + 1
                    };
                    assert(s1[q] == scans0[p]);
                    assert(scans0[p] == s2[q]);
                }
                lemma_scan_agree(scans0, s2, scan_token.0, t2);
            }
        }
        Ok((page, tok))
    }

    /// Writes a batch of entries, each encrypted under its own profile's
    /// key, as one atomic transaction: every write lands or none does.  An
    /// existing visible entry has its value overwritten and its tag set
    /// replaced whole; an expired or absent one is written fresh with the
    /// request's expiry.  The lock token is advisory and not re-validated
    /// here: guarding writes with it is the caller's contract.
    pub fn update(
        &mut self,
        entries: Vec<crate::types::KvUpdateEntry>,
        _with_lock: Option<LockToken>,
        now_ms: i64,
    ) -> (r: KvResult<()>)
        requires
            old(self).wf(),
        ensures
            final(self).wf(),
            final(self).items_locks@ == old(self).items_locks@,
            final(self).locks@ == old(self).locks@,
            final(self).next_lock_token == old(self).next_lock_token,
            final(self).scans@ == old(self).scans@,
            final(self).next_scan_token == old(self).next_scan_token,
            final(self).profiles@ == old(self).profiles@,
            final(self).store_keys@ == old(self).store_keys@,
            final(self).default_profile == old(self).default_profile,
            final(self).live == old(self).live,
            forall|q: Option<ProfileId>|
                #[trigger] final(self).resolve_spec(q) == old(self).resolve_spec(q),
            match r {
                Ok(()) => {
                    &&& old(self).live
                    &&& old(self).items@.len() + entries@.len() <= 0x7fff_ffff_ffff_ffff
                    &&& apply_updates(
                        *old(self),
                        items_view(old(self).items@),
                        updates_view(entries@),
                        now_ms,
                    ) == Some(items_view(final(self).items@))
                },
                Err(e) => {
                    &&& e == KvError::Backend
                    &&& final(self).items@ == old(self).items@
                    &&& (!old(self).live || old(self).items@.len() + entries@.len()
                        > 0x7fff_ffff_ffff_ffff || apply_updates(
                        *old(self),
                        items_view(old(self).items@),
                        updates_view(entries@),
                        now_ms,
                    ) is None)
                },
            },
    {
        if !self.live {
            return Err(KvError::Backend);
        }
        let ghost st0 = *old(self);
        let ghost gus = updates_view(entries@);

        // Prepare every row first: resolution, encryption and the absolute
        // expiry can fail, and nothing may land unless all of them succeed.
        let mut rows: Vec<ItemRow> = Vec::new();
        let mut i: usize = 0;
        while i < entries.len()
            invariant
                self.wf(),
                self.items@ == old(self).items@,
                self.items_locks@ == old(self).items_locks@,
                self.locks@ == old(self).locks@,
                self.next_lock_token == old(self).next_lock_token,
                self.scans@ == old(self).scans@,
                self.next_scan_token == old(self).next_scan_token,
                self.profiles@ == old(self).profiles@,
                self.store_keys@ == old(self).store_keys@,
                self.default_profile == old(self).default_profile,
                self.live == old(self).live,
                old(self).live,
                st0 == *old(self),
                gus == updates_view(entries@),
                forall|q: Option<ProfileId>|
                    #[trigger] self.resolve_spec(q) == old(self).resolve_spec(q),
                i <= entries@.len(),
                rows@.len() == i,
                forall|j: int|
                    0 <= j < i ==> prepared_row(st0, gus[j], now_ms) == Some(
                        #[trigger] items_view(rows@)[j],
                    ),
            decreases entries@.len() - i,
        {
            let u = &entries[i];
            let (kid, key) = match self.get_profile_key(u.profile_id) {
                Ok(k) => k,
                Err(e) => {
                    proof {
                        lemma_apply_updates_none(st0, items_view(st0.items@), gus, now_ms, i as int);
                    }
                    return Err(e);
                },
            };
            let (ee, etags) = crate::cipher::encrypt_entry(&key, &u.entry);
            let expiry = match u.expire_ms {
                Some(ms) => match crate::types::expiry_timestamp(now_ms, ms) {
                    Some(t) => Some(t),
                    None => {
                        proof {
                            lemma_apply_updates_none(
                                st0,
                                items_view(st0.items@),
                                gus,
                                now_ms,
                                i as int,
                            );
                        }
                        return Err(KvError::Backend);
                    },
                },
                None => None,
            };
            let tags = match etags {
                Some(ts) => ts,
                None => Vec::new(),
            };
            let row = ItemRow {
                key_id: kid,
                category: ee.category,
                name: ee.name,
                value: ee.value,
                expiry,
                tags,
            };
            proof {
                assert(enc_tags_view(Seq::<KvEncTag>::empty()) =~= Seq::<EncTagView>::empty());
                assert(prepared_row(st0, gus[i as int], now_ms) == Some(row@));
            }
            let ghost rows_a = rows@;
            rows.push(row);
            proof {
                assert(items_view(rows@)[i as int] == row@);
                assert forall|p: int| 0 <= p < i implies #[trigger] items_view(rows@)[p]
                    == items_view(rows_a)[p] by {
                    assert(rows@[p] == rows_a[p]);
                }
            }
            i += 1;
        }
        if (rows.len() as u64) > 0x7fff_ffff_ffff_ffffu64 || (self.items.len() as u64)
            > 0x7fff_ffff_ffff_ffffu64 - (rows.len() as u64) {
            return Err(KvError::Backend);
        }

        // Apply the whole batch in order; nothing below can fail.
        let ghost gitems0 = items_view(self.items@);
        let ghost grows0 = items_view(rows@);
        let total = rows.len();
        let mut j: usize = 0;
        while j < total
            invariant
                self.wf(),
                self.items_locks@ == old(self).items_locks@,
                self.locks@ == old(self).locks@,
                self.next_lock_token == old(self).next_lock_token,
                self.scans@ == old(self).scans@,
                self.next_scan_token == old(self).next_scan_token,
                self.profiles@ == old(self).profiles@,
                self.store_keys@ == old(self).store_keys@,
                self.default_profile == old(self).default_profile,
                self.live == old(self).live,
                old(self).live,
                st0 == *old(self),
                gus == updates_view(entries@),
                gitems0 == items_view(old(self).items@),
                forall|q: Option<ProfileId>|
                    #[trigger] self.resolve_spec(q) == old(self).resolve_spec(q),
                j <= total,
                rows@.len() == total - j,
                grows0.len() == total,
                gus.len() == total,
                total + gitems0.len() <= 0x7fff_ffff_ffff_ffff,
                forall|p: int|
                    0 <= p < rows@.len() ==> #[trigger] items_view(rows@)[p] == grows0[p + j],
                forall|p: int|
                    0 <= p < total ==> prepared_row(st0, gus[p], now_ms) == Some(
                        #[trigger] grows0[p],
                    ),
                apply_updates(st0, gitems0, gus.take(j as int), now_ms) == Some(
                    items_view(self.items@),
                ),
                self.items@.len() <= gitems0.len() + j,
            decreases total - j,
        {
            let ghost mid = items_view(self.items@);
            let ghost pre_self = *self;
            let ghost rows_b = rows@;
            let row = rows.remove(0);
            proof {
                assert(row@ == items_view(rows_b)[0]);
                assert(row@ == grows0[j as int]);
                assert forall|p: int| 0 <= p < rows@.len() implies #[trigger] items_view(rows@)[p]
                    == grows0[p + j + 1] by {
                    assert(rows@[p] == rows_b[p + 1]);
                    assert(items_view(rows_b)[p + 1] == grows0[p + 1 + j]);
                }
            }
            match find_item(&self.items, row.key_id, &row.category, &row.name) {
                Some(i2) => {
                    proof {
                        lemma_row_found(mid, row@.key_id, row@.category, row@.name, i2 as int);
                    }
                    let visible_now = match self.items[i2].expiry {
                        Some(e) => e > now_ms,
                        None => true,
                    };
                    if visible_now {
                        let old_expiry = self.items[i2].expiry;
                        let new_row = ItemRow {
                            key_id: row.key_id,
                            category: row.category,
                            name: row.name,
                            value: row.value,
                            expiry: old_expiry,
                            tags: row.tags,
                        };
                        self.items.set(i2, new_row);
                    } else {
                        self.items.set(i2, row);
                    }
                    proof {
                        assert(items_view(self.items@) =~= upsert_spec(
                            mid,
                            grows0[j as int],
                            now_ms,
                        ));
                        assert forall|a: int, b: int|
                            0 <= a < b < items_view(self.items@).len() implies !row_key_match(
                            #[trigger] items_view(self.items@)[a],
                            (#[trigger] items_view(self.items@)[b]).key_id,
                            items_view(self.items@)[b].category,
                            items_view(self.items@)[b].name,
                        ) by {
                            assert(mid[a].key_id == items_view(self.items@)[a].key_id
                                && mid[a].category == items_view(self.items@)[a].category && mid[
                                a
                            ].name == items_view(self.items@)[a].name);
                            assert(mid[b].key_id == items_view(self.items@)[b].key_id
                                && mid[b].category == items_view(self.items@)[b].category && mid[
                                b
                            ].name == items_view(self.items@)[b].name);
                        }
                    }
                },
                None => {
                    self.items.push(row);
                    proof {
                        assert(items_view(self.items@) =~= upsert_spec(
                            mid,
                            grows0[j as int],
                            now_ms,
                        ));
                        assert forall|a: int, b: int|
                            0 <= a < b < items_view(self.items@).len() implies !row_key_match(
                            #[trigger] items_view(self.items@)[a],
                            (#[trigger] items_view(self.items@)[b]).key_id,
                            items_view(self.items@)[b].category,
                            items_view(self.items@)[b].name,
                        ) by {
                            if b < mid.len() {
                                assert(items_view(self.items@)[a] == mid[a]);
                                assert(items_view(self.items@)[b] == mid[b]);
                            } else {
                                assert(items_view(self.items@)[a] == mid[a]);
                                assert(items_view(self.items@)[b] == grows0[j as int]);
                                assert(!row_key_match(
                                    mid[a],
                                    grows0[j as int].key_id,
                                    grows0[j as int].category,
                                    grows0[j as int].name,
                                ));
                            }
                        }
                    }
                },
            }
            proof {
                assert(gus.take(j + 1).drop_last() =~= gus.take(j as int));
                assert(gus.take(j + 1).last() == gus[j as int]);
                assert forall|q: Option<ProfileId>| #[trigger] self.resolve_spec(q) == old(
                    self,
                ).resolve_spec(q) by {
                    let t = pre_self.target_pid(q);
                    assert(cache_lookup(self.key_cache.entries@, t) == cache_lookup(
                        pre_self.key_cache.entries@,
                        t,
                    ));
                    assert(self.table_key_view(t) == pre_self.table_key_view(t));
                    assert(pre_self.resolve_spec(q) == old(self).resolve_spec(q));
                }
            }
            j += 1;
        }
        proof {
            assert(gus.take(gus.len() as int) =~= gus);
        }
        Ok(())
    }

    /// What `create_lock` answers: `None` when the lock is held under an
    /// unexpired lease (not an error — the caller retries until its own
    /// deadline); otherwise the entry guarded by the lock, read if a visible
    /// row exists and created from the request if not (the `bool` says a row
    /// was written).
    pub open spec fn create_lock_spec(
        &self,
        u: crate::types::UpdateEntryView,
        now: i64,
    ) -> KvResult<Option<(crate::types::EntryView, bool)>> {
        if !self.live || self.next_lock_token == u64::MAX {
            Err(KvError::Backend)
        } else {
            match self.resolve_spec(u.profile_id) {
                None => Err(KvError::Backend),
                Some((kid, key)) => {
                    if !(i64::MIN <= now + crate::locks::LOCK_EXPIRY <= i64::MAX) {
                        Err(KvError::Backend)
                    } else {
                        let h = crate::locks::hash_lock_info_spec(
                            kid,
                            u.entry.category,
                            u.entry.name,
                        );
                        if crate::locks::lock_contains(self.items_locks@, h)
                            && crate::locks::lock_at(self.items_locks@, h).expiry > now {
                            Ok(None)
                        } else {
                            let items = items_view(self.items@);
                            let cat = enc_field_spec(key, encode_utf8(u.entry.category));
                            let nm = enc_field_spec(key, encode_utf8(u.entry.name));
                            if has_row(items, kid, cat, nm) && visible(
                                row_at(items, kid, cat, nm),
                                now,
                            ) {
                                match crate::cipher::dec_field_spec(
                                    key,
                                    row_at(items, kid, cat, nm).value,
                                ) {
                                    Some(v) => Ok(
                                        Some(
                                            (
                                                crate::types::EntryView {
                                                    category: u.entry.category,
                                                    name: u.entry.name,
                                                    value: v,
                                                    tags: None,
                                                },
                                                false,
                                            ),
                                        ),
                                    ),
                                    None => Err(KvError::Encryption),
                                }
                            } else {
                                match prepared_row(*self, u, now) {
                                    Some(_) => if has_row(items, kid, cat, nm) || self.items@.len()
                                        < 0x7fff_ffff_ffff_ffff {
                                        Ok(Some((u.entry, true)))
                                    } else {
                                        Err(KvError::Backend)
                                    },
                                    None => Err(KvError::Backend),
                                }
                            }
                        }
                    }
                },
            }
        }
    }

    /// One acquisition attempt for the advisory lock guarding one entry: an
    /// atomic insert-or-take-over against the lock table, granted only when
    /// no unexpired lease is present.  On a grant the guarded entry is read,
    /// or created from the request if absent, and a fresh token is
    /// registered; `Ok(None)` reports an unexpired lease held elsewhere.
    /// The acquisition timeout bounds how long a driver keeps retrying; it
    /// plays no part in a single attempt.
    pub fn create_lock(
        &mut self,
        lock_info: crate::types::KvUpdateEntry,
        _options: crate::types::KvFetchOptions,
        _acquire_timeout_ms: Option<i64>,
        now_ms: i64,
    ) -> (r: KvResult<Option<(LockToken, KvEntry)>>)
        requires
            old(self).wf(),
        ensures
            final(self).wf(),
            final(self).scans@ == old(self).scans@,
            final(self).next_scan_token == old(self).next_scan_token,
            final(self).profiles@ == old(self).profiles@,
            final(self).store_keys@ == old(self).store_keys@,
            final(self).default_profile == old(self).default_profile,
            final(self).live == old(self).live,
            forall|q: Option<ProfileId>|
                #[trigger] final(self).resolve_spec(q) == old(self).resolve_spec(q),
            match (r, old(self).create_lock_spec(lock_info@, now_ms)) {
                (Ok(None), Ok(None)) => final(self).items@ == old(self).items@
                    && final(self).items_locks@ == old(self).items_locks@
                    && final(self).locks@ == old(self).locks@
                    && final(self).next_lock_token == old(self).next_lock_token,
                (Ok(Some((tok, entry))), Ok(Some((ev, inserted)))) => {
                    &&& entry@ == ev
                    &&& tok == LockToken(old(self).next_lock_token)
                    &&& final(self).next_lock_token == old(self).next_lock_token + 1
                    &&& final(self).locks@.len() == old(self).locks@.len() + 1
                    &&& final(self).locks@.drop_last() == old(self).locks@
                    &&& final(self).locks@.last().token == tok.0
                    &&& match old(self).resolve_spec(lock_info@.profile_id) {
                        Some((kid, key)) => {
                            let h = crate::locks::hash_lock_info_spec(
                                kid,
                                lock_info@.entry.category,
                                lock_info@.entry.name,
                            );
                            &&& final(self).locks@.last().lock.id == h
                            &&& crate::locks::lock_acquire_spec(
                                old(self).items_locks@,
                                h,
                                now_ms,
                                (now_ms + crate::locks::LOCK_EXPIRY) as i64,
                            ).1
                            &&& final(self).items_locks@ == crate::locks::lock_acquire_spec(
                                old(self).items_locks@,
                                h,
                                now_ms,
                                (now_ms + crate::locks::LOCK_EXPIRY) as i64,
                            ).0
                            &&& if inserted {
                                prepared_row(*old(self), lock_info@, now_ms) matches Some(rowv)
                                    && items_view(final(self).items@) == upsert_spec(
                                    items_view(old(self).items@),
                                    rowv,
                                    now_ms,
                                )
                            } else {
                                final(self).items@ == old(self).items@
                            }
                        },
                        None => false,
                    }
                },
                (Err(a), Err(b)) => a == b && final(self).items@ == old(self).items@
                    && final(self).items_locks@ == old(self).items_locks@
                    && final(self).locks@ == old(self).locks@
                    && final(self).next_lock_token == old(self).next_lock_token,
                _ => false,
            },
    {
        if !self.live {
            return Err(KvError::Backend);
        }
        if self.next_lock_token == u64::MAX {
            return Err(KvError::Backend);
        }
        let (kid, key) = self.get_profile_key(lock_info.profile_id)?;
        let lease = match crate::types::expiry_timestamp(now_ms, crate::locks::LOCK_EXPIRY) {
            Some(t) => t,
            None => {
                return Err(KvError::Backend);
            },
        };
        let h = crate::locks::hash_lock_info(
            kid,
            lock_info.entry.category.as_str(),
            lock_info.entry.name.as_str(),
        );
        match find_lock(&self.items_locks, h) {
            Some(li) => {
                proof {
                    crate::locks::lemma_lock_found(self.items_locks@, h, li as int);
                }
                if self.items_locks[li].expiry > now_ms {
                    return Ok(None);
                }
            },
            None => {},
        }
        let (ee, etags) = crate::cipher::encrypt_entry(&key, &lock_info.entry);
        let ghost gitems0 = items_view(self.items@);
        let ghost pre_self = *self;
        let entry_out: KvEntry;
        let did_insert: bool;
        match find_item(&self.items, kid, &ee.category, &ee.name) {
            Some(i2) => {
                proof {
                    lemma_row_found(gitems0, kid, ee@.category, ee@.name, i2 as int);
                }
                let visible_now = match self.items[i2].expiry {
                    Some(e) => e > now_ms,
                    None => true,
                };
                if visible_now {
                    let v = crate::cipher::decrypt_field(&key, &self.items[i2].value)?;
                    entry_out = KvEntry {
                        category: lock_info.entry.category,
                        name: lock_info.entry.name,
                        value: v,
                        tags: None,
                    };
                    did_insert = false;
                } else {
                    let expiry = match lock_info.expire_ms {
                        Some(ms) => match crate::types::expiry_timestamp(now_ms, ms) {
                            Some(t) => Some(t),
                            None => {
                                return Err(KvError::Backend);
                            },
                        },
                        None => None,
                    };
                    let tags = match etags {
                        Some(ts) => ts,
                        None => Vec::new(),
                    };
                    let row = ItemRow {
                        key_id: kid,
                        category: ee.category,
                        name: ee.name,
                        value: ee.value,
                        expiry,
                        tags,
                    };
                    proof {
                        assert(enc_tags_view(Seq::<KvEncTag>::empty())
                            =~= Seq::<EncTagView>::empty());
                        assert(prepared_row(pre_self, lock_info@, now_ms) == Some(row@));
                    }
                    self.items.set(i2, row);
                    proof {
                        assert(items_view(self.items@) =~= upsert_spec(
                            gitems0,
                            prepared_row(pre_self, lock_info@, now_ms).unwrap(),
                            now_ms,
                        ));
                    }
                    did_insert = true;
                    entry_out = lock_info.entry;
                }
            },
            None => {
                let expiry = match lock_info.expire_ms {
                    Some(ms) => match crate::types::expiry_timestamp(now_ms, ms) {
                        Some(t) => Some(t),
                        None => {
                            return Err(KvError::Backend);
                        },
                    },
                    None => None,
                };
                if (self.items.len() as u64) >= 0x7fff_ffff_ffff_ffffu64 {
                    return Err(KvError::Backend);
                }
                let tags = match etags {
                    Some(ts) => ts,
                    None => Vec::new(),
                };
                let row = ItemRow {
                    key_id: kid,
                    category: ee.category,
                    name: ee.name,
                    value: ee.value,
                    expiry,
                    tags,
                };
                proof {
                    assert(enc_tags_view(Seq::<KvEncTag>::empty()) =~= Seq::<EncTagView>::empty());
                    assert(prepared_row(pre_self, lock_info@, now_ms) == Some(row@));
                }
                self.items.push(row);
                proof {
                    assert(items_view(self.items@) =~= upsert_spec(
                        gitems0,
                        prepared_row(pre_self, lock_info@, now_ms).unwrap(),
                        now_ms,
                    ));
                }
                did_insert = true;
                entry_out = lock_info.entry;
            },
        }
        proof {
            if did_insert {
                lemma_upsert_wf(gitems0, prepared_row(pre_self, lock_info@, now_ms).unwrap(), now_ms);
            }
            assert(prepared_row(pre_self, lock_info@, now_ms) == prepared_row(
                *old(self),
                lock_info@,
                now_ms,
            ));
        }
        let granted = crate::locks::lock_acquire(&mut self.items_locks, h, now_ms, lease);
        proof {
            assert(granted);
        }
        let token = self.next_lock_token;
        let ghost locks0 = self.locks@;
        self.locks.push(LockSlot { token, lock: Lock { id: h } });
        self.next_lock_token = token + 1;
        proof {
            assert(self.locks@.drop_last() =~= locks0);
            assert forall|q: Option<ProfileId>| #[trigger] self.resolve_spec(q)
                == old(self).resolve_spec(q) by {
                let t = pre_self.target_pid(q);
                assert(cache_lookup(self.key_cache.entries@, t) == cache_lookup(
                    pre_self.key_cache.entries@,
                    t,
                ));
                assert(self.table_key_view(t) == pre_self.table_key_view(t));
                assert(pre_self.resolve_spec(q) == old(self).resolve_spec(q));
            }
        }
        Ok(Some((LockToken(token), entry_out)))
    }
}

/// The index of the lock record carrying `id`, when one exists.
fn find_lock(locks: &Vec<LockRow>, id: i64) -> (r: Option<usize>)
    ensures
        match r {
            Some(i) => i < locks@.len() && locks@[i as int].id == id,
            None => !crate::locks::lock_contains(locks@, id),
        },
{
    let mut i: usize = 0;
    while i < locks.len()
        invariant
            i <= locks@.len(),
            forall|j: int| 0 <= j < i ==> (#[trigger] locks@[j]).id != id,
        decreases locks@.len() - i,
    {
        if locks[i].id == id {
            return Some(i);
        }
        i += 1;
    }
    None
}

/// Whether a row is counted: it carries the key and category, is visible,
/// and its tags satisfy the filter.
pub open spec fn row_counted(
    r: ItemRowView,
    kid: KeyId,
    cat: Seq<u8>,
    key: Option<Seq<u8>>,
    f: Option<crate::query::TagFilter>,
    now: i64,
) -> bool {
    &&& r.key_id == kid
    &&& r.category == cat
    &&& visible(r, now)
    &&& crate::query::opt_filter_matches(key, f, r.tags)
}

/// How many rows are counted.
pub open spec fn count_rows(
    items: Seq<ItemRowView>,
    kid: KeyId,
    cat: Seq<u8>,
    key: Option<Seq<u8>>,
    f: Option<crate::query::TagFilter>,
    now: i64,
) -> int
    decreases items.len(),
{
    if items.len() == 0 {
        0
    } else {
        count_rows(items.drop_last(), kid, cat, key, f, now) + if row_counted(
            items.last(),
            kid,
            cat,
            key,
            f,
            now,
        ) {
            1 as int
        } else {
            0 as int
        }
    }
}

/// A count never exceeds the table's length.
pub proof fn lemma_count_rows_bound(
    items: Seq<ItemRowView>,
    kid: KeyId,
    cat: Seq<u8>,
    key: Option<Seq<u8>>,
    f: Option<crate::query::TagFilter>,
    now: i64,
)
    ensures
        0 <= count_rows(items, kid, cat, key, f, now) <= items.len(),
    decreases items.len(),
{
    if items.len() > 0 {
        lemma_count_rows_bound(items.drop_last(), kid, cat, key, f, now);
    }
}

/// What decrypting one found row yields for the caller: `None` stands for a
/// key/ciphertext mismatch.
pub open spec fn fetch_result(
    key: Option<Seq<u8>>,
    row: ItemRowView,
    category: Seq<char>,
    name: Seq<char>,
    retrieve_tags: bool,
) -> Option<crate::types::EntryView> {
    match crate::cipher::dec_field_spec(key, row.value) {
        Some(v) => {
            if retrieve_tags && row.tags.len() > 0 {
                match crate::cipher::dec_tags_spec(key, row.tags) {
                    Some(ts) => Some(
                        crate::types::EntryView { category, name, value: v, tags: Some(ts) },
                    ),
                    None => None,
                }
            } else {
                Some(crate::types::EntryView { category, name, value: v, tags: None })
            }
        },
        None => None,
    }
}

/// The visible rows of a profile's category that the filter accepts, in
/// storage (insertion) order: the stable order scans deliver.
pub open spec fn scan_rows(
    items: Seq<ItemRowView>,
    kid: KeyId,
    cat: Seq<u8>,
    key: Option<Seq<u8>>,
    f: Option<crate::query::TagFilter>,
    now: i64,
) -> Seq<ItemRowView>
    decreases items.len(),
{
    if items.len() == 0 {
        Seq::empty()
    } else {
        scan_rows(items.drop_last(), kid, cat, key, f, now) + if row_counted(
            items.last(),
            kid,
            cat,
            key,
            f,
            now,
        ) {
            seq![items.last()]
        } else {
            Seq::empty()
        }
    }
}

/// The window a scan delivers: the matching rows after the offset, up to the
/// row limit.  A negative offset reads as zero; a negative limit, as the
/// backend's convention has it, means no limit.
pub open spec fn scan_window(
    rows: Seq<ItemRowView>,
    offset: Option<i64>,
    max_rows: Option<i64>,
) -> Seq<ItemRowView> {
    let o: int = match offset {
        Some(o) => if o < 0 {
            0
        } else {
            o as int
        },
        None => 0,
    };
    let s = if o >= rows.len() {
        Seq::<ItemRowView>::empty()
    } else {
        rows.skip(o)
    };
    match max_rows {
        Some(m) => if m < 0 || m >= s.len() {
            s
        } else {
            s.take(m as int)
        },
        None => s,
    }
}

/// What one scanned row yields: its name, value and (when asked for) tags
/// decrypted; `None` stands for a key/ciphertext mismatch.
pub open spec fn row_entry(
    key: Option<Seq<u8>>,
    row: ItemRowView,
    category: Seq<char>,
    retrieve_tags: bool,
) -> Option<crate::types::EntryView> {
    match crate::cipher::dec_string_spec(key, row.name) {
        Some(nm) => fetch_result(key, row, category, nm, retrieve_tags),
        None => None,
    }
}

/// The entries a window of rows decrypts to; `None` when any row fails.
pub open spec fn decrypt_rows(
    key: Option<Seq<u8>>,
    rows: Seq<ItemRowView>,
    category: Seq<char>,
    retrieve_tags: bool,
) -> Option<Seq<crate::types::EntryView>>
    decreases rows.len(),
{
    if rows.len() == 0 {
        Some(Seq::empty())
    } else {
        match (
            decrypt_rows(key, rows.drop_last(), category, retrieve_tags),
            row_entry(key, rows.last(), category, retrieve_tags),
        ) {
            (Some(init), Some(e)) => Some(init.push(e)),
            _ => None,
        }
    }
}

/// When one row in a window fails to decrypt, the whole window does.
proof fn lemma_decrypt_rows_none(
    key: Option<Seq<u8>>,
    rows: Seq<ItemRowView>,
    category: Seq<char>,
    retrieve_tags: bool,
    i: int,
)
    requires
        0 <= i < rows.len(),
        row_entry(key, rows[i], category, retrieve_tags) is None,
    ensures
        decrypt_rows(key, rows, category, retrieve_tags) is None,
    decreases rows.len(),
{
    if i < rows.len() - 1 {
        lemma_decrypt_rows_none(key, rows.drop_last(), category, retrieve_tags, i);
    }
}

/// Whether some cursor in the table answers to `token`.
pub open spec fn scan_has(scans: Seq<ScanSlot>, token: u64) -> bool {
    exists|i: int| 0 <= i < scans.len() && (#[trigger] scans[i]).token == token
}

/// The index of the cursor answering to `token`, when one exists.
pub open spec fn scan_index(scans: Seq<ScanSlot>, token: u64) -> int {
    choose|i: int| 0 <= i < scans.len() && (#[trigger] scans[i]).token == token
}

/// The pending entries of the cursor answering to `token`, when one exists.
pub open spec fn scan_lookup(scans: Seq<ScanSlot>, token: u64) -> Option<
    Seq<crate::types::EntryView>,
> {
    if scan_has(scans, token) {
        Some(crate::scan::pending_view(scans[scan_index(scans, token)].buf@))
    } else {
        None
    }
}

/// Cursor tokens are distinct.
pub open spec fn scans_unique(scans: Seq<ScanSlot>) -> bool {
    forall|i: int, j: int|
        0 <= i < j < scans.len() ==> (#[trigger] scans[i]).token != (#[trigger] scans[j]).token
}

/// In a duplicate-free cursor table whose index `i` answers to `token`, the
/// lookup answers from index `i`.
proof fn lemma_scan_found(scans: Seq<ScanSlot>, token: u64, i: int)
    requires
        scans_unique(scans),
        0 <= i < scans.len(),
        scans[i].token == token,
    ensures
        scan_has(scans, token),
        scan_index(scans, token) == i,
        scan_lookup(scans, token) == Some(crate::scan::pending_view(scans[i].buf@)),
{
    let w = choose|w: int| 0 <= w < scans.len() && (#[trigger] scans[w]).token == token;
    assert(scans[w].token == token);
    assert(w == i);
}

/// Two duplicate-free cursor tables carrying the same slots for every token
/// other than `t` answer alike for every such token.
proof fn lemma_scan_agree(s0: Seq<ScanSlot>, s1: Seq<ScanSlot>, t: u64, t2: u64)
    requires
        scans_unique(s0),
        scans_unique(s1),
        t2 != t,
        forall|i: int|
            0 <= i < s0.len() && (#[trigger] s0[i]).token != t ==> exists|j: int|
                0 <= j < s1.len() && #[trigger] s1[j] == s0[i],
        forall|j: int|
            0 <= j < s1.len() && (#[trigger] s1[j]).token != t ==> exists|i: int|
                0 <= i < s0.len() && #[trigger] s0[i] == s1[j],
    ensures
        scan_lookup(s0, t2) == scan_lookup(s1, t2),
{
    if scan_has(s0, t2) {
        let w = scan_index(s0, t2);
        assert(s0[w].token == t2);
        let j = choose|j: int| 0 <= j < s1.len() && #[trigger] s1[j] == s0[w];
        lemma_scan_found(s1, t2, j);
    }
    if scan_has(s1, t2) {
        let w = scan_index(s1, t2);
        assert(s1[w].token == t2);
        let i = choose|i: int| 0 <= i < s0.len() && #[trigger] s0[i] == s1[w];
        lemma_scan_found(s0, t2, i);
    }
}

// ---------------------------------------------------------------------------
// The write path
// ---------------------------------------------------------------------------

/// The views of a batch of requested writes.
pub open spec fn updates_view(us: Seq<crate::types::KvUpdateEntry>) -> Seq<
    crate::types::UpdateEntryView,
> {
    Seq::new(us.len(), |i: int| us[i]@)
}

/// The stored row one requested write prepares: its fields encrypted under
/// the resolved key and its expiry made absolute.  `None` when the profile
/// does not resolve or the expiry leaves `i64`.
pub open spec fn prepared_row(
    st: KvStore,
    u: crate::types::UpdateEntryView,
    now: i64,
) -> Option<ItemRowView> {
    match st.resolve_spec(u.profile_id) {
        None => None,
        Some((kid, key)) => {
            let (ee, etags) = crate::cipher::encrypt_entry_spec(key, u.entry);
            let tags = match etags {
                Some(ts) => ts,
                None => Seq::empty(),
            };
            match u.expire_ms {
                Some(ms) => if i64::MIN <= now + ms <= i64::MAX {
                    Some(
                        ItemRowView {
                            key_id: kid,
                            category: ee.category,
                            name: ee.name,
                            value: ee.value,
                            expiry: Some((now + ms) as i64),
                            tags,
                        },
                    )
                } else {
                    None
                },
                None => Some(
                    ItemRowView {
                        key_id: kid,
                        category: ee.category,
                        name: ee.name,
                        value: ee.value,
                        expiry: None,
                        tags,
                    },
                ),
            }
        },
    }
}

/// The upsert one prepared row performs: a visible row with the same triple
/// has its value and tag set overwritten (the expiry is kept); an expired
/// row is dropped and replaced whole; otherwise the row is inserted.
pub open spec fn upsert_spec(items: Seq<ItemRowView>, row: ItemRowView, now: i64) -> Seq<
    ItemRowView,
> {
    if has_row(items, row.key_id, row.category, row.name) {
        let i = row_index(items, row.key_id, row.category, row.name);
        if visible(items[i], now) {
            items.update(
                i,
                ItemRowView {
                    key_id: row.key_id,
                    category: row.category,
                    name: row.name,
                    value: row.value,
                    expiry: items[i].expiry,
                    tags: row.tags,
                },
            )
        } else {
            items.update(i, row)
        }
    } else {
        items.push(row)
    }
}

/// The item table after a batch of writes, applied in order; `None` when any
/// write fails to prepare.
pub open spec fn apply_updates(
    st: KvStore,
    items: Seq<ItemRowView>,
    us: Seq<crate::types::UpdateEntryView>,
    now: i64,
) -> Option<Seq<ItemRowView>>
    decreases us.len(),
{
    if us.len() == 0 {
        Some(items)
    } else {
        match apply_updates(st, items, us.drop_last(), now) {
            Some(mid) => match prepared_row(st, us.last(), now) {
                Some(row) => Some(upsert_spec(mid, row, now)),
                None => None,
            },
            None => None,
        }
    }
}

/// When one write in a batch fails to prepare, the whole batch does.
proof fn lemma_apply_updates_none(
    st: KvStore,
    items: Seq<ItemRowView>,
    us: Seq<crate::types::UpdateEntryView>,
    now: i64,
    i: int,
)
    requires
        0 <= i < us.len(),
        prepared_row(st, us[i], now) is None,
    ensures
        apply_updates(st, items, us, now) is None,
    decreases us.len(),
{
    if i < us.len() - 1 {
        lemma_apply_updates_none(st, items, us.drop_last(), now, i);
    }
}

/// An upsert keeps the uniqueness invariant, leaves the written triple
/// present with the written value and tag set, and grows the table by at
/// most the one inserted row.
pub proof fn lemma_upsert_wf(items: Seq<ItemRowView>, row: ItemRowView, now: i64)
    requires
        items_unique(items),
    ensures
        ({
            let f = upsert_spec(items, row, now);
            &&& items_unique(f)
            &&& has_row(f, row.key_id, row.category, row.name)
            &&& row_at(f, row.key_id, row.category, row.name).value == row.value
            &&& row_at(f, row.key_id, row.category, row.name).tags == row.tags
            &&& row_at(f, row.key_id, row.category, row.name).key_id == row.key_id
            &&& f.len() == (if has_row(items, row.key_id, row.category, row.name) {
                items.len() as int
            } else {
                items.len() as int + 1
            })
        }),
{
    let f = upsert_spec(items, row, now);
    if has_row(items, row.key_id, row.category, row.name) {
        let i = row_index(items, row.key_id, row.category, row.name);
        assert(0 <= i < items.len() && row_key_match(items[i], row.key_id, row.category, row.name));
        assert(items_unique(f));
        lemma_row_found(f, row.key_id, row.category, row.name, i);
    } else {
        assert(items_unique(f));
        lemma_row_found(f, row.key_id, row.category, row.name, items.len() as int);
    }
}

/// Uniqueness law: writing under one (key, category, name) twice leaves a
/// duplicate-free table in which the triple carries the second write's value
/// and tag set — the second write overwrites the first, and no reader can
/// see two rows for one triple.
pub proof fn lemma_second_write_overwrites(
    items: Seq<ItemRowView>,
    r1: ItemRowView,
    r2: ItemRowView,
    now1: i64,
    now2: i64,
)
    requires
        items_unique(items),
        r1.key_id == r2.key_id,
        r1.category == r2.category,
        r1.name == r2.name,
    ensures
        ({
            let f = upsert_spec(upsert_spec(items, r1, now1), r2, now2);
            &&& items_unique(f)
            &&& has_row(f, r2.key_id, r2.category, r2.name)
            &&& row_at(f, r2.key_id, r2.category, r2.name).value == r2.value
            &&& row_at(f, r2.key_id, r2.category, r2.name).tags == r2.tags
            &&& f.len() == upsert_spec(items, r1, now1).len()
        }),
{
    lemma_upsert_wf(items, r1, now1);
    lemma_upsert_wf(upsert_spec(items, r1, now1), r2, now2);
}

/// Only visible rows are scanned, and the count is exactly the number of
/// scanned rows: an entry whose expiry has passed is invisible to `count`
/// and `scan` with no grace period.
pub proof fn lemma_only_visible_rows(
    items: Seq<ItemRowView>,
    kid: KeyId,
    cat: Seq<u8>,
    key: Option<Seq<u8>>,
    f: Option<crate::query::TagFilter>,
    now: i64,
)
    ensures
        forall|j: int|
            0 <= j < scan_rows(items, kid, cat, key, f, now).len() ==> visible(
                #[trigger] scan_rows(items, kid, cat, key, f, now)[j],
                now,
            ),
        count_rows(items, kid, cat, key, f, now) == scan_rows(items, kid, cat, key, f, now).len(),
    decreases items.len(),
{
    if items.len() > 0 {
        lemma_only_visible_rows(items.drop_last(), kid, cat, key, f, now);
    }
}

/// Expiry law: an entry whose expiry is not after `now` is invisible to
/// `fetch` — the lookup answers `None`, exactly as for an absent entry.
pub proof fn lemma_expired_invisible_fetch(
    st: KvStore,
    pid: Option<ProfileId>,
    category: Seq<char>,
    name: Seq<char>,
    retrieve_tags: bool,
    now: i64,
)
    requires
        st.wf(),
        st.live,
        st.resolve_spec(pid) is Some,
        ({
            let (kid, key): (KeyId, Option<Seq<u8>>) = st.resolve_spec(pid).unwrap();
            let cat = enc_field_spec(key, encode_utf8(category));
            let nm = enc_field_spec(key, encode_utf8(name));
            has_row(items_view(st.items@), kid, cat, nm) ==> !visible(
                row_at(items_view(st.items@), kid, cat, nm),
                now,
            )
        }),
    ensures
        st.fetch_spec(pid, category, name, retrieve_tags, now) == Ok::<
            Option<crate::types::EntryView>,
            KvError,
        >(None),
{
}

/// The index of the cursor answering to `token`, when one exists.
fn find_scan(scans: &Vec<ScanSlot>, token: u64) -> (r: Option<usize>)
    ensures
        match r {
            Some(i) => i < scans@.len() && scans@[i as int].token == token,
            None => !scan_has(scans@, token),
        },
{
    let mut i: usize = 0;
    while i < scans.len()
        invariant
            i <= scans@.len(),
            forall|j: int| 0 <= j < i ==> (#[trigger] scans@[j]).token != token,
        decreases scans@.len() - i,
    {
        if scans[i].token == token {
            return Some(i);
        }
        i += 1;
    }
    None
}

/// The index of the row carrying the triple, when one exists.
fn find_item(items: &Vec<ItemRow>, kid: KeyId, cat: &Vec<u8>, nm: &Vec<u8>) -> (r: Option<usize>)
    ensures
        match r {
            Some(i) => i < items@.len() && row_key_match(
                items_view(items@)[i as int],
                kid,
                cat@,
                nm@,
            ),
            None => !has_row(items_view(items@), kid, cat@, nm@),
        },
{
    let mut i: usize = 0;
    while i < items.len()
        invariant
            i <= items@.len(),
            forall|j: int|
                0 <= j < i ==> !row_key_match(#[trigger] items_view(items@)[j], kid, cat@, nm@),
        decreases items@.len() - i,
    {
        let row = &items[i];
        if row.key_id == kid && crate::query::bytes_eq(&row.category, cat) && crate::query::bytes_eq(
            &row.name,
            nm,
        ) {
            return Some(i);
        }
        i += 1;
    }
    None
}

} // verus!
