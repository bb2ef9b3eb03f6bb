use vstd::prelude::*;

verus! {

/// The failures that the engine reports.
#[derive(Clone, Copy, Debug, PartialEq, Eq, Structural)]
pub enum RaftError {
    /// The store could not persist or read back what it was asked to.
    Store,
    /// The store holds nothing under the requested metadata key.
    NotFound,
    /// The log was asked to commit an entry it does not hold, to go back
    /// behind its commit index, or to drop a committed entry.
    LogInconsistency,
    /// Bytes that should hold an encoded value do not.
    Decode,
    /// A peer could not be reached.
    PeerUnreachable,
    /// A message or instruction that does not fit the current state.
    InvalidTransition,
    /// A term or an index has reached the largest number it can hold.
    Exhausted,
}

impl RaftError {
    /// A short description of the failure.
    pub fn describe(&self) -> (text: String)
        ensures
            text@ == self.description(),
    {
        match self {
            RaftError::Store => "store failure".to_string(),
            RaftError::NotFound => "no such metadata key".to_string(),
            RaftError::LogInconsistency => "log inconsistency".to_string(),
            RaftError::Decode => "decode failure".to_string(),
            RaftError::PeerUnreachable => "peer unreachable".to_string(),
            RaftError::InvalidTransition => "invalid transition".to_string(),
            RaftError::Exhausted => "counter exhausted".to_string(),
        }
    }

    /// The text that `describe` returns.
    pub open spec fn description(&self) -> Seq<char> {
        match self {
            RaftError::Store => "store failure"@,
            RaftError::NotFound => "no such metadata key"@,
            RaftError::LogInconsistency => "log inconsistency"@,
            RaftError::Decode => "decode failure"@,
            RaftError::PeerUnreachable => "peer unreachable"@,
            RaftError::InvalidTransition => "invalid transition"@,
            RaftError::Exhausted => "counter exhausted"@,
        }
    }
}

} // verus!
