use vstd::bytes::{spec_u64_from_le_bytes, spec_u64_to_le_bytes, u64_from_le_bytes, u64_to_le_bytes};
use vstd::prelude::*;

verus! {

/// Appends the eight-byte little-endian encoding of `x` to `out`.
pub fn push_u64_le(out: &mut Vec<u8>, x: u64)
    ensures
        final(out)@ == old(out)@ + spec_u64_to_le_bytes(x),
{
    let mut tail = u64_to_le_bytes(x);
    out.append(&mut tail);
}

/// Reads a little-endian integer from the eight bytes at `pos`.
pub fn read_u64_le(bytes: &[u8], pos: usize) -> (r: u64)
    requires
        pos + 8 <= bytes@.len(),
    ensures
        r == spec_u64_from_le_bytes(bytes@.subrange(pos as int, pos + 8)),
{
    // The runtime length, a usize, bounds `pos + 8` within the machine's
    // address range, which the ghost precondition alone does not.
    let len = bytes.len();
    let window = vstd::slice::slice_subrange(bytes, pos, pos + 8);
    u64_from_le_bytes(window)
}

/// A deterministic content-address (a digest drawn from the proof system's
/// field) that names a mapping, a key, or a value. Two semantically equal
/// objects always carry the same `FieldId`; it is the identity used across
/// the journal and the mapping store.
///
/// The digest itself is produced by an external hash provider; this core
/// only stores, compares and serializes the value, so it is modeled as the
/// integer it is.
#[derive(Clone, Copy, Debug, PartialEq, Eq, Hash, PartialOrd, Ord, Structural)]
pub struct FieldId {
    pub value: u64,
}

impl FieldId {
    /// Wraps a raw digest value.
    pub fn new(value: u64) -> (r: FieldId)
        ensures
            r.value == value,
    {
        FieldId { value }
    }

    /// The canonical little-endian byte encoding of this identifier.
    pub open spec fn spec_bytes(self) -> Seq<u8> {
        spec_u64_to_le_bytes(self.value)
    }

    /// The identifier whose encoding stands at `pos` in `s`.
    pub open spec fn spec_at(s: Seq<u8>, pos: int) -> FieldId {
        FieldId { value: spec_u64_from_le_bytes(s.subrange(pos, pos + 8)) }
    }

    /// Appends the canonical encoding of this identifier to `out`.
    pub fn write_le(&self, out: &mut Vec<u8>)
        ensures
            final(out)@ == old(out)@ + self.spec_bytes(),
    {
        push_u64_le(out, self.value);
    }

    /// Reads an identifier back from the eight bytes at `pos`.
    pub fn read_le(bytes: &[u8], pos: usize) -> (r: FieldId)
        requires
            pos + 8 <= bytes@.len(),
        ensures
            r == FieldId::spec_at(bytes@, pos as int),
    {
        FieldId { value: read_u64_le(bytes, pos) }
    }
}

} // verus!
