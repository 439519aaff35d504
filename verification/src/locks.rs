use vstd::prelude::*;
use vstd::utf8::encode_utf8;

use crate::types::KeyId;

verus! {

/// How long a granted lease lasts, in milliseconds.  Independent of any
/// acquisition timeout: a holder that does not refresh is silently
/// reclaimable once this elapses.
pub const LOCK_EXPIRY: i64 = 120000;

/// A held advisory lock: the hash identifying the contended entry.
#[derive(Debug)]
pub struct Lock {
    pub id: i64,
}

// ---------------------------------------------------------------------------
// The lock identifier hash
// ---------------------------------------------------------------------------

pub const FNV_OFFSET: u64 = 0xcbf29ce484222325;

pub const FNV_PRIME: u64 = 0x100000001b3;

/// One step of the 64-bit FNV-1a fold.
pub open spec fn fnv_step(h: u64, b: u8) -> u64 {
    (((h ^ (b as u64)) as nat * FNV_PRIME as nat) % 0x1_0000_0000_0000_0000) as u64
}

/// The FNV-1a fold of a byte sequence onto `h`.
pub open spec fn fnv_bytes(h: u64, s: Seq<u8>) -> u64
    decreases s.len(),
{
    if s.len() == 0 {
        h
    } else {
        fnv_step(fnv_bytes(h, s.drop_last()), s.last())
    }
}

/// The little-endian bytes of a key identifier.
pub open spec fn key_id_bytes(k: u64) -> Seq<u8> {
    seq![
        k as u8,
        (k >> 8) as u8,
        (k >> 16) as u8,
        (k >> 24) as u8,
        (k >> 32) as u8,
        (k >> 40) as u8,
        (k >> 48) as u8,
        (k >> 56) as u8,
    ]
}

/// The deterministic identifier of the lock record contending on one entry:
/// the FNV-1a hash of the key identifier, the category and the name, with a
/// zero byte between the two strings.
pub open spec fn hash_lock_info_spec(key_id: KeyId, category: Seq<char>, name: Seq<char>) -> i64 {
    fnv_bytes(
        fnv_step(fnv_bytes(fnv_bytes(FNV_OFFSET, key_id_bytes(key_id as u64)), encode_utf8(category)), 0u8),
        encode_utf8(name),
    ) as i64
}

/// One FNV-1a step.
fn fnv_step_x(h: u64, b: u8) -> (r: u64)
    ensures
        r == fnv_step(h, b),
{
    (h ^ (b as u64)).wrapping_mul(FNV_PRIME)
}

/// The FNV-1a fold of a byte vector onto `h`.
fn fnv_vec(h0: u64, s: &Vec<u8>) -> (r: u64)
    ensures
        r == fnv_bytes(h0, s@),
{
    let mut h = h0;
    let mut i: usize = 0;
    while i < s.len()
        invariant
            i <= s@.len(),
            h == fnv_bytes(h0, s@.take(i as int)),
        decreases s@.len() - i,
    {
        h = fnv_step_x(h, s[i]);
        proof {
            assert(s@.take(i + 1).drop_last() =~= s@.take(i as int));
            assert(s@.take(i + 1).last() == s@[i as int]);
        }
        i += 1;
    }
    proof {
        assert(s@.take(s@.len() as int) =~= s@);
    }
    h
}

/// The lock identifier of an entry.
pub fn hash_lock_info(key_id: KeyId, category: &str, name: &str) -> (r: i64)
    ensures
        r == hash_lock_info_spec(key_id, category@, name@),
{
    let k = #[verifier::truncate] (key_id as u64);
    let mut kb: Vec<u8> = Vec::new();
    kb.push(#[verifier::truncate] (k as u8));
    kb.push(#[verifier::truncate] ((k >> 8) as u8));
    kb.push(#[verifier::truncate] ((k >> 16) as u8));
    kb.push(#[verifier::truncate] ((k >> 24) as u8));
    kb.push(#[verifier::truncate] ((k >> 32) as u8));
    kb.push(#[verifier::truncate] ((k >> 40) as u8));
    kb.push(#[verifier::truncate] ((k >> 48) as u8));
    kb.push(#[verifier::truncate] ((k >> 56) as u8));
    proof {
        assert(kb@ =~= key_id_bytes(k));
    }
    let mut h = fnv_vec(FNV_OFFSET, &kb);
    let cb = category.as_bytes_vec();
    h = fnv_vec(h, &cb);
    h = fnv_step_x(h, 0u8);
    let nb = name.as_bytes_vec();
    h = fnv_vec(h, &nb);
    #[verifier::truncate] (h as i64)
}

// ---------------------------------------------------------------------------
// The lock record table
// ---------------------------------------------------------------------------

/// One lock record: inserted on first acquisition, taken over when its lease
/// has elapsed, never explicitly deleted.
#[derive(Clone, Copy, Debug, PartialEq, Eq, Structural)]
pub struct LockRow {
    pub id: i64,
    pub expiry: i64,
}

/// At most one record per lock identifier.
pub open spec fn locks_wf(locks: Seq<LockRow>) -> bool {
    forall|i: int, j: int|
        0 <= i < j < locks.len() ==> (#[trigger] locks[i]).id != (#[trigger] locks[j]).id
}

/// Whether the table holds a record for `id`.
pub open spec fn lock_contains(locks: Seq<LockRow>, id: i64) -> bool {
    exists|i: int| 0 <= i < locks.len() && (#[trigger] locks[i]).id == id
}

/// The record for `id`, when one exists.
pub open spec fn lock_at(locks: Seq<LockRow>, id: i64) -> LockRow {
    locks[choose|i: int| 0 <= i < locks.len() && (#[trigger] locks[i]).id == id]
}

/// The atomic compare-and-swap at the heart of acquisition: insert the
/// record if absent; take it over (writing the new expiry) only if the
/// existing lease has already elapsed; otherwise change nothing and refuse.
pub open spec fn lock_acquire_spec(locks: Seq<LockRow>, id: i64, now: i64, new_expiry: i64) -> (
    Seq<LockRow>,
    bool,
) {
    if !lock_contains(locks, id) {
        (locks.push(LockRow { id, expiry: new_expiry }), true)
    } else {
        let i = choose|i: int| 0 <= i < locks.len() && (#[trigger] locks[i]).id == id;
        if locks[i].expiry <= now {
            (locks.update(i, LockRow { id, expiry: new_expiry }), true)
        } else {
            (locks, false)
        }
    }
}

/// One acquisition attempt against the table.
pub fn lock_acquire(locks: &mut Vec<LockRow>, id: i64, now: i64, new_expiry: i64) -> (r: bool)
    requires
        locks_wf(old(locks)@),
    ensures
        locks_wf(final(locks)@),
        final(locks)@ == lock_acquire_spec(old(locks)@, id, now, new_expiry).0,
        r == lock_acquire_spec(old(locks)@, id, now, new_expiry).1,
        r ==> lock_contains(final(locks)@, id) && lock_at(final(locks)@, id) == (LockRow {
            id,
            expiry: new_expiry,
        }),
        !r ==> final(locks)@ == old(locks)@,
{
    let ghost s0 = old(locks)@;
    let mut i: usize = 0;
    while i < locks.len()
        invariant
            locks_wf(locks@),
            locks@ == s0,
            s0 == old(locks)@,
            i <= locks@.len(),
            forall|j: int| 0 <= j < i ==> (#[trigger] locks@[j]).id != id,
        decreases locks@.len() - i,
    {
        if locks[i].id == id {
            proof {
                let w = choose|w: int| 0 <= w < s0.len() && (#[trigger] s0[w]).id == id;
                assert(s0[w].id == id);
                assert(w == i);
            }
            if locks[i].expiry <= now {
                locks.set(i, LockRow { id, expiry: new_expiry });
                proof {
                    lemma_lock_found(locks@, id, i as int);
                    assert(locks@ =~= lock_acquire_spec(s0, id, now, new_expiry).0);
                }
                return true;
            } else {
                return false;
            }
        }
        i += 1;
    }
    locks.push(LockRow { id, expiry: new_expiry });
    proof {
        lemma_lock_found(locks@, id, s0.len() as int);
        assert(locks@ =~= lock_acquire_spec(s0, id, now, new_expiry).0);
    }
    true
}

/// In a duplicate-free table whose index `i` holds `id`, the record for `id`
/// is the one at `i`.
pub proof fn lemma_lock_found(locks: Seq<LockRow>, id: i64, i: int)
    requires
        locks_wf(locks),
        0 <= i < locks.len(),
        locks[i].id == id,
    ensures
        lock_contains(locks, id),
        lock_at(locks, id) == locks[i],
{
    let w = choose|w: int| 0 <= w < locks.len() && (#[trigger] locks[w]).id == id;
    assert(locks[w].id == id);
    assert(w == i);
}

// ---------------------------------------------------------------------------
// Laws of the lease protocol
// ---------------------------------------------------------------------------

/// Mutual exclusion: once an acquisition for `id` is granted a lease that
/// expires at `exp1`, no further acquisition of `id` is granted strictly
/// before `exp1` elapses — the later caller is refused until then, however
/// it times its attempts.
pub proof fn lemma_lock_mutual_exclusion(
    locks: Seq<LockRow>,
    id: i64,
    now1: i64,
    exp1: i64,
    now2: i64,
    exp2: i64,
)
    requires
        locks_wf(locks),
        lock_acquire_spec(locks, id, now1, exp1).1,
        now2 < exp1,
    ensures
        !lock_acquire_spec(lock_acquire_spec(locks, id, now1, exp1).0, id, now2, exp2).1,
{
    let l1 = lock_acquire_spec(locks, id, now1, exp1).0;
    lemma_acquire_shape(locks, id, now1, exp1);
    let w = choose|w: int| 0 <= w < l1.len() && (#[trigger] l1[w]).id == id;
    assert(l1[w] == lock_at(l1, id));
}

/// Takeover: a record whose lease has elapsed is granted to a new caller
/// even though its holder never released it.
pub proof fn lemma_lock_takeover(locks: Seq<LockRow>, id: i64, now: i64, exp: i64)
    requires
        locks_wf(locks),
        lock_contains(locks, id),
        lock_at(locks, id).expiry <= now,
    ensures
        lock_acquire_spec(locks, id, now, exp).1,
{
}

/// A granted acquisition leaves a duplicate-free table holding the fresh
/// lease for `id`.
pub proof fn lemma_acquire_shape(locks: Seq<LockRow>, id: i64, now: i64, exp: i64)
    requires
        locks_wf(locks),
        lock_acquire_spec(locks, id, now, exp).1,
    ensures
        ({
            let l1 = lock_acquire_spec(locks, id, now, exp).0;
            &&& locks_wf(l1)
            &&& lock_contains(l1, id)
            &&& lock_at(l1, id) == (LockRow { id, expiry: exp })
        }),
{
    let l1 = lock_acquire_spec(locks, id, now, exp).0;
    if !lock_contains(locks, id) {
        assert(l1[locks.len() as int].id == id);
        assert(locks_wf(l1));
        lemma_lock_found(l1, id, locks.len() as int);
    } else {
        let i = choose|i: int| 0 <= i < locks.len() && (#[trigger] locks[i]).id == id;
        assert(locks_wf(l1));
        lemma_lock_found(l1, id, i);
    }
}

} // verus!
