//! Expiry of records.

use vstd::prelude::*;

verus! {

/// Whether a record that expires at `expiry_ms` has expired at `now_ms`.
pub fn is_expired(expiry_ms: u64, now_ms: u64) -> (r: bool)
    ensures
        r == (expiry_ms <= now_ms),
{
    expiry_ms <= now_ms
}

/// Whether a record has a time of expiry that has come.
pub open spec fn expired(expiry_ms: Option<u64>, now_ms: u64) -> bool {
    match expiry_ms {
        Some(t) => t <= now_ms,
        None => false,
    }
}

/// A record without a time of expiry never expires. One with such a time has expired from
/// that very time on, and not before.
pub proof fn lemma_expired(expiry_ms: Option<u64>, now_ms: u64)
    ensures
        expiry_ms is None ==> !expired(expiry_ms, now_ms),
        expiry_ms matches Some(t) ==> (expired(expiry_ms, now_ms) <==> t <= now_ms),
{
}

/// Whether a record has a time of expiry that has come.
pub fn has_expired(expiry_ms: Option<u64>, now_ms: u64) -> (r: bool)
    ensures
        r == expired(expiry_ms, now_ms),
        r <==> (expiry_ms matches Some(t) && t <= now_ms),
{
    match expiry_ms {
        Some(t) => is_expired(t, now_ms),
        None => false,
    }
}

} // verus!
