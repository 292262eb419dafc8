//! Asking during a search whether to stop. The questions are numbered, so that contracts can
//! speak of their order.
use vstd::prelude::*;

verus! {

/// No scan asks as many questions.
pub const QUESTIONS_PER_SCAN: u64 = 0x0200_0000_0000_0000;

/// There are numbers left for the questions of `scans` scans.
pub open spec fn has_room(asked: u64, scans: int) -> bool {
    asked + scans * QUESTIONS_PER_SCAN < u64::MAX
}

/// Every question can be asked.
pub open spec fn can_ask<F: Fn(u64) -> bool>(is_cancelled: &F) -> bool {
    forall|n: u64| #[trigger] call_requires(*is_cancelled, (n,))
}

/// The questions from number `a` up to but not including `b` were answered: go on.
pub open spec fn goes_on<F: Fn(u64) -> bool>(is_cancelled: &F, a: int, b: int) -> bool {
    forall|n: u64| a <= n < b ==> #[trigger] call_ensures(*is_cancelled, (n,), false)
}

/// The questions from number `a` on were answered so, until the last before `b` was
/// answered: stop.
pub open spec fn stops_before<F: Fn(u64) -> bool>(is_cancelled: &F, a: int, b: int) -> bool {
    &&& a < b
    &&& goes_on(is_cancelled, a, b - 1)
    &&& call_ensures(*is_cancelled, ((b - 1) as u64,), true)
}

/// A scan that asks `n` questions from number `a` on went through; `b` is the next.
pub open spec fn went_through<F: Fn(u64) -> bool>(
    is_cancelled: &F,
    a: int,
    b: int,
    n: int,
) -> bool {
    b == a + n && goes_on(is_cancelled, a, b)
}

/// A scan that asks at most `n` questions from number `a` on was stopped; `b` is the next.
pub open spec fn was_stopped<F: Fn(u64) -> bool>(
    is_cancelled: &F,
    a: int,
    b: int,
    n: int,
) -> bool {
    b <= a + n && stops_before(is_cancelled, a, b)
}

/// How many questions a scan of `n` candidates asks: one at every 128th.
pub open spec fn questions_of(n: nat) -> int {
    n as int / 128
}

/// Counts one more candidate; at every 128th it asks whether to stop.
pub fn should_cancel_scan<F: Fn(u64) -> bool>(
    scanned: &mut usize,
    is_cancelled: &F,
    asked: &mut u64,
) -> (r: bool)
    requires
        can_ask(is_cancelled),
        *old(asked) < u64::MAX,
    ensures
        *final(scanned) == if *old(scanned) < usize::MAX {
            *old(scanned) + 1
        } else {
            usize::MAX as int
        },
        *final(asked) == *old(asked) + if *final(scanned) % 128 == 0 {
            1int
        } else {
            0int
        },
        r ==> *final(scanned) % 128 == 0 && call_ensures(*is_cancelled, (*old(asked),), true),
        !r && *final(scanned) % 128 == 0 ==> call_ensures(*is_cancelled, (*old(asked),), false),
{
    *scanned = scanned.saturating_add(1);
    if *scanned % 128 == 0 {
        let number = *asked;
        *asked = number + 1;
        is_cancelled(number)
    } else {
        false
    }
}

} // verus!
