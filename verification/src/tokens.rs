//! Token estimates from sizes.

use vstd::prelude::*;

verus! {

/// Tokens that `bytes` bytes of text are taken for: a quarter, rounded up.
pub open spec fn tokens_of(bytes: int) -> int {
    (bytes + 3) / 4
}

/// Tokens that `bytes` bytes of text are taken for: a quarter, rounded up.
pub fn tokens_from_bytes(bytes: u64) -> (r: u64)
    ensures
        r == tokens_of(bytes as int),
{
    bytes / 4 + (if bytes % 4 == 0 {
        0u64
    } else {
        1u64
    })
}

} // verus!
