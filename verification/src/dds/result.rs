//! The ways in which a call on the middleware can fail.

use vstd::prelude::*;

verus! {

/// Why a call on the middleware failed.
#[derive(Debug, Clone, Copy, PartialEq, Eq, Structural)]
pub enum Error {
    /// An argument is out of the range that the call accepts.
    BadParameter,
    /// The call asks for what is not there yet.
    Unsupported,
    /// No port, memory or handle is left for the call.
    OutOfResources,
    /// The call needs an object that is gone, most often the participant.
    PreconditionNotMet,
    /// The call did not end in the time it was given.
    Timeout,
    /// There is nothing to hand out.
    NoData,
    /// A lock was left poisoned by a thread that ended badly.
    LockPoisoned,
    /// Something inside the middleware is not as it must be.
    Internal,
}

} // verus!
