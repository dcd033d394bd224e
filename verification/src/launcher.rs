//! When the launcher may trust a blur event.
//!
//! Showing the window emits a spurious blur while it comes forward; hiding on
//! that would make the launcher flash open and vanish. Reading the clock and
//! moving the window are left to the caller.

use vstd::prelude::*;

verus! {

/// How long after a show a blur is not trusted.
pub const BLUR_GRACE_MS: u64 = 400;

/// The time since the last show, or zero when the clock reads earlier.
pub open spec fn since(now_ms: u64, last_shown_ms: u64) -> int {
    if now_ms >= last_shown_ms {
        now_ms - last_shown_ms
    } else {
        0
    }
}

/// True when the window was shown too recently to trust a blur event.
pub fn in_blur_grace(now_ms: u64, last_shown_ms: u64) -> (r: bool)
    ensures
        r == (since(now_ms, last_shown_ms) < 400),
{
    now_ms.saturating_sub(last_shown_ms) < BLUR_GRACE_MS
}

} // verus!
