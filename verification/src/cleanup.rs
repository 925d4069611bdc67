//! The retry schedule for removing a closed instance's webview data
//! directory: the closed browser process keeps files open for a short
//! while, so removal is retried with backoff before giving up.

use vstd::prelude::*;

verus! {

/// The wait before removal attempt `attempt`, in milliseconds: none before
/// the first, then 100, 250, 500 and three times 1000; there are seven
/// attempts in all.
pub open spec fn removal_delay(attempt: nat) -> Option<u64> {
    if attempt == 0 {
        Some(0)
    } else if attempt == 1 {
        Some(100)
    } else if attempt == 2 {
        Some(250)
    } else if attempt == 3 {
        Some(500)
    } else if attempt < 7 {
        Some(1000)
    } else {
        None
    }
}

/// The wait before removal attempt `attempt`, or `None` once the attempts
/// are used up.
pub fn removal_delay_ms(attempt: usize) -> (r: Option<u64>)
    ensures
        r == removal_delay(attempt as nat),
{
    if attempt == 0 {
        Some(0)
    } else if attempt == 1 {
        Some(100)
    } else if attempt == 2 {
        Some(250)
    } else if attempt == 3 {
        Some(500)
    } else if attempt < 7 {
        Some(1000)
    } else {
        None
    }
}

/// The total wait over the first `n` attempts.
pub open spec fn total_removal_wait(n: nat) -> nat
    decreases n,
{
    if n == 0 {
        0
    } else {
        total_removal_wait((n - 1) as nat) + match removal_delay((n - 1) as nat) {
            Some(d) => d as nat,
            None => 0,
        }
    }
}

/// Removal is attempted seven times, waiting 3850 ms in all, longer than a
/// closed browser process takes to let go of its files.
pub proof fn lemma_removal_schedule()
    ensures
        removal_delay(6) is Some,
        removal_delay(7) is None,
        forall|a: nat| a >= 7 ==> #[trigger] removal_delay(a) is None,
        total_removal_wait(7) == 3850,
{
    reveal_with_fuel(total_removal_wait, 8);
}

} // verus!
