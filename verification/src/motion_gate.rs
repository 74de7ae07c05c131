//! Who may have the one mount: motions take it alone, exposures share it.
use vstd::prelude::*;

verus! {

/// What came of asking for the mount the first time.
#[derive(Debug, Clone, Copy, PartialEq, Eq, Structural)]
pub enum FirstPoll {
    /// The mount is taken; the motion may start.
    Ready,
    /// The mount is held; the motion waits in the queue.
    Pending,
}

/// The event that a motion waits for the mount.
#[derive(Debug)]
pub struct MotionPending {
    pub event: String,
    pub operation: String,
}

/// What a motion announces: nothing where it can start at once, and that it
/// is pending where it has to wait. It is in the queue by then, so whoever
/// asks for the mount on hearing of it comes after it.
pub fn announce(operation: &str, first_poll: FirstPoll) -> (r: Option<MotionPending>)
    ensures
        match first_poll {
            FirstPoll::Ready => r is None,
            FirstPoll::Pending => r is Some && r->0.event@ == "mount_motion_pending"@
                && r->0.operation@ == operation@,
        },
{
    match first_poll {
        FirstPoll::Ready => None,
        FirstPoll::Pending => Some(
            MotionPending {
                event: "mount_motion_pending".to_owned(),
                operation: operation.to_owned(),
            },
        ),
    }
}

} // verus!
