use vstd::prelude::*;

verus! {

/// Why a byte stream is not a sequence of well-formed row groups.
///
/// Every variant carries a byte offset into the stream that was parsed.
#[derive(Debug, Clone, Copy, PartialEq, Eq, Structural)]
pub enum FormatError {
    /// The stream ends inside a value. `offset` is the length of the stream:
    /// the place at which further bytes were expected.
    UnexpectedEof { offset: usize },
    /// A row group announces no rows, or more rows than a row group may
    /// hold. `offset` is where the row group starts.
    ItemCountOutOfRange { offset: usize },
    /// The runs of a key column do not add up to the row group's item count.
    /// `offset` is where the row group starts.
    RunCountMismatch { offset: usize },
}

} // verus!
