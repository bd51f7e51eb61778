//! Taking the lock file that guards the saved game: how often to try, when
//! to wait, and when to give up.

use vstd::prelude::*;

verus! {

/// How many times the lock is tried before giving up.
pub const LOCK_TRIES: u32 = 10;

/// What one attempt to create the lock file came to.
#[derive(PartialEq, Eq, Structural, Debug, Clone, Copy)]
pub enum LockAttempt {
    /// The lock file was created: the lock is held.
    Created,
    /// The lock file exists already: someone else holds the lock.
    AlreadyExists,
    /// Creating the lock file failed otherwise.
    Failed,
}

/// What to do after an attempt.
#[derive(PartialEq, Eq, Structural, Debug, Clone, Copy)]
pub enum LockStep {
    /// Go on with the action, holding the lock.
    Proceed,
    /// Report the game as locked, wait a second, and try again.
    SleepThenRetry,
    /// Report the game as locked, wait a second, and give up.
    SleepThenGiveUp,
    /// Give up without acting, leaving the lock file in place.
    GiveUpHoldingLock,
    /// Stop with an error.
    Abort,
}

/// The step after attempt number `attempt` (counting from 1) came to
/// `outcome`. Any failure other than a held lock aborts. The lock is tried
/// `LOCK_TRIES` times; an attempt that succeeds on the last try still gives
/// up, and leaves the lock file behind.
pub fn lock_step(attempt: u32, outcome: LockAttempt) -> (step: LockStep)
    requires
        1 <= attempt <= LOCK_TRIES,
    ensures
        outcome == LockAttempt::Failed ==> step == LockStep::Abort,
        outcome == LockAttempt::Created ==> step == (if attempt < LOCK_TRIES {
            LockStep::Proceed
        } else {
            LockStep::GiveUpHoldingLock
        }),
        outcome == LockAttempt::AlreadyExists ==> step == (if attempt < LOCK_TRIES {
            LockStep::SleepThenRetry
        } else {
            LockStep::SleepThenGiveUp
        }),
{
    match outcome {
        LockAttempt::Created => {
            if attempt < LOCK_TRIES {
                LockStep::Proceed
            } else {
                LockStep::GiveUpHoldingLock
            }
        },
        LockAttempt::AlreadyExists => {
            if attempt < LOCK_TRIES {
                LockStep::SleepThenRetry
            } else {
                LockStep::SleepThenGiveUp
            }
        },
        LockAttempt::Failed => LockStep::Abort,
    }
}

} // verus!
