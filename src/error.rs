use vstd::prelude::*;

verus! {

/// The ways in which an operation of this library can fail.
#[derive(Clone, Copy, Debug, PartialEq, Eq, Structural)]
pub enum Error {
    /// A strict-limit insert whose charge cannot fit in its shard.
    CapacityExceeded,
    /// An invalid combination of builder options.
    ConfigurationError,
    /// The output of a writer could not be created, flushed or closed.
    IoError,
    /// A key that does not sort strictly after the previous one.
    OutOfOrder,
    /// A writer finished without any entry.
    EmptyFile,
    /// A writer call that its current state does not allow.
    InvalidState,
}

} // verus!
