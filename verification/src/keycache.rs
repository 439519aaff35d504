use vstd::prelude::*;

use crate::cipher::{okey_view, okey_wf, StoreKey};
use crate::types::{KeyId, ProfileId};

verus! {

/// One cached resolution: a profile's active key identifier and decrypted
/// key; `None` for a profile that stores in clear.
pub struct CacheEntry {
    pub profile_id: ProfileId,
    pub key_id: KeyId,
    pub key: Option<StoreKey>,
}

/// Process-local mapping from profile identifier to (key identifier, key),
/// consulted on every operation and populated at provisioning or on a
/// fallback load.
pub struct KeyCache {
    pub wrap_key: StoreKey,
    pub entries: Vec<CacheEntry>,
}

/// Whether some cache entry resolves `pid`.
pub open spec fn cache_has(s: Seq<CacheEntry>, pid: ProfileId) -> bool {
    exists|i: int| 0 <= i < s.len() && (#[trigger] s[i]).profile_id == pid
}

/// The cache entry resolving `pid`, when one exists.
pub open spec fn cache_at(s: Seq<CacheEntry>, pid: ProfileId) -> CacheEntry {
    s[choose|i: int| 0 <= i < s.len() && (#[trigger] s[i]).profile_id == pid]
}

/// What the cache answers for `pid`.
pub open spec fn cache_lookup(s: Seq<CacheEntry>, pid: ProfileId) -> Option<
    (KeyId, Option<Seq<u8>>),
> {
    if cache_has(s, pid) {
        let e = cache_at(s, pid);
        Some((e.key_id, okey_view(e.key)))
    } else {
        None
    }
}

impl KeyCache {
    /// At most one entry per profile, every key well-formed, and a
    /// well-formed wrap key.
    pub open spec fn wf(&self) -> bool {
        &&& self.wrap_key.wf()
        &&& forall|i: int, j: int|
            0 <= i < j < self.entries@.len() ==> (#[trigger] self.entries@[i]).profile_id != (
            #[trigger] self.entries@[j]).profile_id
        &&& forall|i: int| 0 <= i < self.entries@.len() ==> okey_wf((#[trigger] self.entries@[i]).key)
    }

    /// An empty cache holding the store's wrap key.
    pub fn new(wrap_key: StoreKey) -> (r: Self)
        requires
            wrap_key.wf(),
        ensures
            r.wf(),
            r.wrap_key.data@ == wrap_key.data@,
            r.entries@.len() == 0,
    {
        KeyCache { wrap_key, entries: Vec::new() }
    }

    /// The cached (key identifier, key) of a profile, when present.
    pub fn get_profile_key(&self, pid: ProfileId) -> (r: Option<(KeyId, Option<StoreKey>)>)
        requires
            self.wf(),
        ensures
            match r {
                Some((kid, k)) => cache_lookup(self.entries@, pid) == Some((kid, okey_view(k)))
                    && okey_wf(k),
                None => cache_lookup(self.entries@, pid) is None,
            },
    {
        let mut i: usize = 0;
        while i < self.entries.len()
            invariant
                self.wf(),
                i <= self.entries@.len(),
                forall|j: int| 0 <= j < i ==> (#[trigger] self.entries@[j]).profile_id != pid,
            decreases self.entries@.len() - i,
        {
            if self.entries[i].profile_id == pid {
                let e = &self.entries[i];
                proof {
                    let w = choose|w: int|
                        0 <= w < self.entries@.len() && (#[trigger] self.entries@[w]).profile_id
                            == pid;
                    assert(self.entries@[w].profile_id == pid);
                    assert(w == i);
                }
                let key = match &e.key {
                    Some(k) => Some(k.duplicate()),
                    None => None,
                };
                return Some((e.key_id, key));
            }
            i += 1;
        }
        None
    }

    /// Records the resolution of a profile, replacing any earlier one; every
    /// other profile's resolution is unchanged.
    pub fn set_profile_key(&mut self, pid: ProfileId, key_id: KeyId, key: Option<StoreKey>)
        requires
            old(self).wf(),
            okey_wf(key),
        ensures
            final(self).wf(),
            final(self).wrap_key.data@ == old(self).wrap_key.data@,
            cache_lookup(final(self).entries@, pid) == Some((key_id, okey_view(key))),
            forall|p: ProfileId|
                p != pid ==> #[trigger] cache_lookup(final(self).entries@, p) == cache_lookup(
                    old(self).entries@,
                    p,
                ),
    {
        let ghost kv = okey_view(key);
        let mut i: usize = 0;
        while i < self.entries.len()
            invariant
                self.wf(),
                i <= self.entries@.len(),
                okey_wf(key),
                kv == okey_view(key),
                self == old(self),
                forall|j: int| 0 <= j < i ==> (#[trigger] self.entries@[j]).profile_id != pid,
            decreases self.entries@.len() - i,
        {
            if self.entries[i].profile_id == pid {
                self.entries.set(i, CacheEntry { profile_id: pid, key_id, key });
                proof {
                    lemma_cache_determined(self.entries@, pid, i as int, key_id, kv);
                    assert forall|p: ProfileId| p != pid implies #[trigger] cache_lookup(
                        self.entries@,
                        p,
                    ) == cache_lookup(old(self).entries@, p) by {
                        lemma_cache_agree(old(self).entries@, self.entries@, i as int, p);
                    }
                }
                return ;
            }
            i += 1;
        }
        self.entries.push(CacheEntry { profile_id: pid, key_id, key });
        proof {
            let n = old(self).entries@.len() as int;
            lemma_cache_determined(self.entries@, pid, n, key_id, kv);
            assert forall|p: ProfileId| p != pid implies #[trigger] cache_lookup(
                self.entries@,
                p,
            ) == cache_lookup(old(self).entries@, p) by {
                lemma_cache_agree(old(self).entries@, self.entries@, n, p);
            }
        }
    }
}

/// In a duplicate-free cache whose index `i` holds `pid`, the lookup of
/// `pid` answers from index `i`.
proof fn lemma_cache_determined(
    s: Seq<CacheEntry>,
    pid: ProfileId,
    i: int,
    key_id: KeyId,
    kv: Option<Seq<u8>>,
)
    requires
        0 <= i < s.len(),
        s[i].profile_id == pid,
        s[i].key_id == key_id,
        okey_view(s[i].key) == kv,
        forall|a: int, b: int|
            0 <= a < b < s.len() ==> (#[trigger] s[a]).profile_id != (#[trigger] s[b]).profile_id,
    ensures
        cache_lookup(s, pid) == Some((key_id, kv)),
{
    assert(cache_has(s, pid));
    let w = choose|w: int| 0 <= w < s.len() && (#[trigger] s[w]).profile_id == pid;
    assert(w == i);
}

/// Two caches that agree everywhere but at index `i` answer alike for every
/// profile other than the one at `i`.
proof fn lemma_cache_agree(s1: Seq<CacheEntry>, s2: Seq<CacheEntry>, i: int, p: ProfileId)
    requires
        0 <= i < s2.len(),
        s1.len() == s2.len() || (s2.len() == s1.len() + 1 && i == s1.len()),
        forall|j: int| 0 <= j < s1.len() && j != i ==> s1[j] == s2[j],
        i < s1.len() ==> s1[i].profile_id == s2[i].profile_id,
        s2[i].profile_id != p,
        forall|a: int, b: int|
            0 <= a < b < s2.len() ==> (#[trigger] s2[a]).profile_id != (#[trigger] s2[b]).profile_id,
    ensures
        cache_lookup(s1, p) == cache_lookup(s2, p),
{
    if cache_has(s1, p) {
        let w = choose|w: int| 0 <= w < s1.len() && (#[trigger] s1[w]).profile_id == p;
        assert(s2[w].profile_id == p);
        assert(cache_has(s2, p));
    }
    if cache_has(s2, p) {
        let w = choose|w: int| 0 <= w < s2.len() && (#[trigger] s2[w]).profile_id == p;
        assert(w != i);
        assert(s1[w].profile_id == p);
        assert(cache_has(s1, p));
    }
    if cache_has(s1, p) && cache_has(s2, p) {
        let w1 = choose|w: int| 0 <= w < s1.len() && (#[trigger] s1[w]).profile_id == p;
        let w2 = choose|w: int| 0 <= w < s2.len() && (#[trigger] s2[w]).profile_id == p;
        assert(s2[w1].profile_id == p);
        assert(w1 == w2);
        assert(s1[w1] == s2[w2]);
    }
}

} // verus!
