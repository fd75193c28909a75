use vstd::prelude::*;

verus! {

/// The error kinds that core operations report. All failures are explicit
/// return values; no verified operation panics on user input.
#[derive(Debug, Clone, Copy, PartialEq, Eq, Structural)]
pub enum EngineError {
    /// A parameter is malformed: a size that is not a power of two, a zero
    /// period, a zero price or quantity, and the like.
    InvalidArgument,
    /// The operation would exceed a fixed storage limit or counter range.
    CapacityExceeded,
    /// A log reservation would overlap the region the reader has not
    /// consumed yet.
    BufferFull,
    /// No price level rests at the requested price.
    NotFound,
    /// A price level exists but holds less size than was asked to remove.
    InsufficientSize,
    /// An index range reaches past the filled part of an array or region.
    OutOfBounds,
    /// The platform lacks the requested facility.
    Unsupported,
    /// The operating system reported a failure.
    IoError,
    /// All senders or all receivers of a channel were dropped.
    Disconnected,
}

impl EngineError {
    /// A short description of the error kind, for reporting by callers.
    pub fn message(&self) -> (r: &'static str)
        ensures
            r@.len() > 0,
            self == EngineError::InvalidArgument ==> r@ == "invalid argument"@,
            self == EngineError::CapacityExceeded ==> r@ == "capacity exceeded"@,
            self == EngineError::BufferFull ==> r@ == "buffer full"@,
            self == EngineError::NotFound ==> r@ == "not found"@,
            self == EngineError::InsufficientSize ==> r@ == "insufficient size"@,
            self == EngineError::OutOfBounds ==> r@ == "out of bounds"@,
            self == EngineError::Unsupported ==> r@ == "unsupported"@,
            self == EngineError::IoError ==> r@ == "io error"@,
            self == EngineError::Disconnected ==> r@ == "disconnected"@,
    {
        proof {
            reveal_strlit("invalid argument");
            reveal_strlit("capacity exceeded");
            reveal_strlit("buffer full");
            reveal_strlit("not found");
            reveal_strlit("insufficient size");
            reveal_strlit("out of bounds");
            reveal_strlit("unsupported");
            reveal_strlit("io error");
            reveal_strlit("disconnected");
        }
        match self {
            EngineError::InvalidArgument => "invalid argument",
            EngineError::CapacityExceeded => "capacity exceeded",
            EngineError::BufferFull => "buffer full",
            EngineError::NotFound => "not found",
            EngineError::InsufficientSize => "insufficient size",
            EngineError::OutOfBounds => "out of bounds",
            EngineError::Unsupported => "unsupported",
            EngineError::IoError => "io error",
            EngineError::Disconnected => "disconnected",
        }
    }
}

} // verus!
