use vstd::prelude::*;

verus! {

/// Why a read or a decode step could not go on.
#[derive(Clone, Copy, Debug, PartialEq, Eq, Structural)]
pub enum ErrorKind {
    /// No byte is left where a new item would start.
    EndOfStream,
    /// Fewer bytes are available than a declared field needs.
    Truncated,
    /// A back-reference points before the start of the decoded output.
    InvalidReference,
}

/// A failure, with the byte offset at which it was found.
#[derive(Clone, Copy, Debug, PartialEq, Eq, Structural)]
pub struct DecodeError {
    pub kind: ErrorKind,
    pub offset: usize,
}

impl DecodeError {
    /// The same failure, seen from a stream in which the failing input
    /// starts `base` bytes further on.
    pub open spec fn shifted(self, base: int) -> DecodeError {
        DecodeError { kind: self.kind, offset: (self.offset + base) as usize }
    }
}

} // verus!
