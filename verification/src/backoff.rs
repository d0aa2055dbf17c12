use vstd::prelude::*;

verus! {

/// The longest wait, in seconds, between two attempts to accept a connection.
pub const MAX_BACKOFF: u64 = 64;

/// What the listener does after an attempt to accept a connection failed.
#[derive(Clone, Copy, Debug, PartialEq, Eq, Structural)]
pub enum AcceptRetry {
    /// Wait `seconds`, then try again with a backoff of `next`.
    Wait { seconds: u64, next: u64 },
    /// Stop and report the failure.
    GiveUp,
}

/// After a failed attempt with the current `backoff`: give up once the
/// backoff has passed the longest wait, and otherwise wait that long and
/// double it.
pub open spec fn retry_after(backoff: u64) -> AcceptRetry {
    if backoff > MAX_BACKOFF {
        AcceptRetry::GiveUp
    } else {
        AcceptRetry::Wait { seconds: backoff, next: (backoff * 2) as u64 }
    }
}

/// Decides what to do after a failed attempt to accept a connection.
pub fn after_accept_failure(backoff: u64) -> (r: AcceptRetry)
    ensures
        r == retry_after(backoff),
{
    if backoff > MAX_BACKOFF {
        AcceptRetry::GiveUp
    } else {
        AcceptRetry::Wait { seconds: backoff, next: backoff * 2 }
    }
}

/// The backoff in force before the `failures + 1`-th attempt, starting
/// from one second.
pub open spec fn backoff_before(failures: nat) -> int
    decreases failures,
{
    if failures == 0 {
        1
    } else {
        2 * backoff_before((failures - 1) as nat)
    }
}

/// Starting from a backoff of one second, each of the first seven
/// consecutive failures is answered by a wait of 1, 2, 4, 8, 16, 32 and 64
/// seconds in turn, each wait doubling the backoff, and the eighth
/// consecutive failure gives up.
pub proof fn lemma_backoff_schedule()
    ensures
        forall|k: nat| #![trigger backoff_before(k)] k <= 6 ==> retry_after(backoff_before(k) as u64) == (AcceptRetry::Wait {
            seconds: backoff_before(k) as u64,
            next: backoff_before(k + 1) as u64,
        }),
        retry_after(backoff_before(7) as u64) == AcceptRetry::GiveUp,
        backoff_before(6) == 64,
{
    reveal_with_fuel(backoff_before, 8);
    assert forall|k: nat| #![trigger backoff_before(k)] k <= 6 implies retry_after(backoff_before(k) as u64) == (AcceptRetry::Wait {
        seconds: backoff_before(k) as u64,
        next: backoff_before(k + 1) as u64,
    }) by {
        reveal_with_fuel(backoff_before, 8);
        if k == 0 {} else if k == 1 {} else if k == 2 {} else if k == 3 {} else if k == 4 {} else if k == 5 {} else {}
    }
}

} // verus!
