//! The operation lock.

use vstd::prelude::*;

use crate::error::{ErrorCategory, GitveilError};

verus! {

/// What follows an attempt to take the lock.
#[derive(Debug)]
pub enum LockAction {
    /// The lock is held: remove residue and go on.
    Proceed,
    /// Wait a moment and try again.
    Wait,
    /// Give up.
    Fail(GitveilError),
}

/// Decides after an attempt to take the lock. `held` tells whether the attempt
/// succeeded, `late` whether the time is up.
pub fn after_attempt(held: bool, late: bool) -> (r: LockAction)
    ensures
        if held {
            r is Proceed
        } else if late {
            r matches LockAction::Fail(e) && e@ == (
                ErrorCategory::Concurrency,
                "Gitveil operation.lock timed out"@,
            )
        } else {
            r is Wait
        },
{
    if held {
        LockAction::Proceed
    } else if late {
        LockAction::Fail(
            GitveilError::new(
                ErrorCategory::Concurrency,
                "Gitveil operation.lock timed out".to_owned(),
            ),
        )
    } else {
        LockAction::Wait
    }
}

} // verus!
