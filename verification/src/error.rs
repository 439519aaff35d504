use vstd::prelude::*;

verus! {

/// Failure taxonomy of the store.
///
/// `Backend` stands for any underlying storage failure, `Encryption` for a
/// key or ciphertext mismatch detected on decryption, and `Timeout` for an
/// unknown or already-exhausted scan token.  A missing entry and a lock that
/// could not be acquired before its deadline are *not* errors: they are
/// reported as `None` results.
#[derive(Clone, Copy, Debug, PartialEq, Eq, Structural)]
pub enum KvError {
    Backend,
    Encryption,
    Timeout,
}

pub type KvResult<T> = Result<T, KvError>;

} // verus!
