use vstd::prelude::*;

verus! {

/// Why an operation was refused. A refused operation changes nothing.
#[derive(Clone, Copy, Debug, PartialEq, Eq, Structural)]
pub enum EngineError {
    /// An index lies at or beyond the end of the registry.
    OutOfRange,
    /// More winners were asked for than the registry holds.
    InsufficientParticipants,
    /// A round was opened for no recipients.
    ZeroRecipients,
    /// The deposit is smaller than the number of recipients.
    ZeroPerRecipientAmount,
    /// The deposit does not split evenly over the recipients.
    RemainderMismatch,
    /// A round for another asset is in flight.
    RoundAlreadyActive,
    /// No round is in flight.
    NoActiveRound,
}

} // verus!
