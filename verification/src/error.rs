//! Error taxonomy of the provisioner: everything but the loss of the
//! subsystem context is recoverable, and the event loop is expected to
//! log it and continue.
use vstd::prelude::*;

verus! {

/// An error of the provisioner.
#[derive(PartialEq, Eq, Structural, Clone, Copy, Debug)]
pub enum Error {
    /// The availability-cores request was canceled.
    CanceledAvailabilityCores,
    /// The persisted-validation-data request was canceled.
    CanceledPersistedValidationData,
    /// The block-number request was canceled.
    CanceledBlockNumber,
    /// The backed-candidates request was canceled.
    CanceledBackedCandidates,
    /// One inherent-data assembly ran past its hard deadline.
    SendInherentDataTimeout,
    /// A requester's reply channel was dropped before the reply.
    InherentDataReturnChannel,
    /// The background assembly task could not be spawned.
    FailedToSpawnBackgroundTask,
    /// The backing subsystem's reply was not an order-preserving
    /// subsequence of the request.
    BackedCandidateOrderingProblem,
    /// A transient runtime-api failure.
    RuntimeApi,
    /// The subsystem context channel is gone; the loop cannot continue.
    SubsystemContextLost,
}

impl Error {
    /// Whether this error must terminate the event loop. Only the loss of
    /// the subsystem context is fatal; everything else is logged and the
    /// loop continues.
    pub fn is_fatal(&self) -> (r: bool)
        ensures
            r == (*self is SubsystemContextLost),
    {
        match self {
            Error::SubsystemContextLost => true,
            _ => false,
        }
    }
}

} // verus!
