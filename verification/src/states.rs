use vstd::prelude::*;

verus! {

/// The review pipeline a newly onboarded guild moves through before the
/// engine watches it in earnest.
#[derive(Clone, Copy, Debug, PartialEq, Eq, Structural)]
pub enum OnboardState {
    Pending,
    QueueRemind,
    QueueForceClaim,
    Claimed,
    PendingManagerReview,
    Denied,
    Completed,
}

} // verus!
