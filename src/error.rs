use vstd::prelude::*;

verus! {

/// Why an operation of the store failed.
///
/// Every variant but `BadEncoding` describes malformed stored data.
#[derive(Debug, Clone, Copy, PartialEq, Eq, Structural)]
pub enum Error {
    /// Fewer than eight bytes where a kind tag was expected.
    Truncated,
    /// A kind tag whose value names no kind.
    UnknownKind(u64),
    /// A record whose hash differs from the id it was read under.
    Corrupt,
    /// A `Tree` object, or an index whose children are trees.
    TreeNotAllowed,
    /// An index whose entries do not fill a whole number of ids.
    PartialEntry,
    /// An index that lists an object the store does not hold.
    MissingChild,
    /// An index child whose kind differs from the kind the index names.
    WrongChildKind,
    /// Indexes nested deeper than the store allows.
    TooDeep,
    /// Text that is not hexadecimal.
    BadEncoding,
}

impl Error {
    /// Whether this error reports malformed stored data (all but `BadEncoding`).
    pub fn is_invalid_data(&self) -> (r: bool)
        ensures
            r == !(*self is BadEncoding),
    {
        match self {
            Error::BadEncoding => false,
            _ => true,
        }
    }
}

} // verus!
