use vstd::prelude::*;

verus! {

/// Why a path lookup or a journal operation was refused.
///
/// All failures in this core are ordinary fallible results; nothing here
/// panics or aborts the process.
#[derive(Clone, Copy, Debug, PartialEq, Eq, Structural)]
pub enum StateError {
    /// The access path was empty.
    MalformedPath,
    /// A literal was used where a container (struct or list) was required
    /// at the root of a lookup.
    NotAContainer,
    /// The access kind does not match the container variant (an index into a
    /// struct, or a member lookup on a list).
    InvalidAccess,
    /// An intermediate path segment resolved to a literal, which cannot be
    /// traversed further.
    TypeMismatch,
    /// A member, index, mapping or key was absent.
    NotFound,
    /// A leaf index lay beyond the bounds of its mapping.
    OutOfRange,
    /// A mapping or key was already present on create or insert.
    AlreadyExists,
}

/// Why a byte string was refused when decoding an `Access` or a
/// `FinalizeOperation`.
#[derive(Clone, Copy, Debug, PartialEq, Eq, Structural)]
pub enum DecodeError {
    /// The discriminant byte does not name any variant.
    UnknownTag,
    /// The buffer ended before the encoding was complete.
    Truncated,
    /// The payload does not hold a well-formed identifier.
    BadIdentifier,
}

} // verus!
