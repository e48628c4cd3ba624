//! Errors surfaced by the mask readback path.
//!
//! Construction-time contract violations (an unregistered operation index, a
//! mismatched buffer size) are programming errors and are excluded by
//! `requires` clauses instead of being reported here.  The recoverable
//! failures all come from the device readback that a surrounding GPU layer
//! performs: a failed poll, a failed asynchronous buffer mapping, or a lost
//! device.

use vstd::prelude::*;

verus! {

/// A recoverable device failure reported while downloading a mask buffer.
#[derive(Clone, Copy, Debug, PartialEq, Eq, Structural)]
pub enum Error {
    /// Polling the device for completion failed.
    PollFailed,
    /// The asynchronous buffer mapping failed, or the mapped range did not
    /// have the expected size.
    MapFailed,
    /// The device was lost.
    DeviceLost,
}

impl Error {
    /// A short human-readable description of the failure.
    pub fn message(&self) -> (r: &'static str)
        ensures
            *self is PollFailed ==> r@ == "device poll failed"@,
            *self is MapFailed ==> r@ == "buffer mapping failed"@,
            *self is DeviceLost ==> r@ == "device lost"@,
    {
        match self {
            Error::PollFailed => "device poll failed",
            Error::MapFailed => "buffer mapping failed",
            Error::DeviceLost => "device lost",
        }
    }
}

} // verus!
