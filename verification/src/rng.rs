//! The one trusted doorway to the process-wide random number generator.

use vstd::prelude::*;

verus! {

/// Relies on `rand::Rng::gen_range` on the thread-local generator: it
/// panics only on an empty range and returns a draw from `lo..hi`.
/// Nothing more is assumed of the draw; every caller's contract holds for
/// every outcome in the range.
#[verifier::external_body]
pub(crate) fn rand_range(lo: i64, hi: i64) -> (r: i64)
    requires
        lo < hi,
    ensures
        lo <= r < hi,
{
    rand::Rng::gen_range(&mut rand::thread_rng(), lo..hi)
}

} // verus!
