use crate::errors::DecodeError;
use crate::field_id::{push_u64_le, read_u64_le, FieldId};
use vstd::bytes::{
    lemma_auto_spec_u64_to_from_le_bytes, spec_u64_from_le_bytes, spec_u64_to_le_bytes,
};
use vstd::prelude::*;

verus! {

/// One entry of a block's finalize journal: a single mutation of the
/// mapping store, immutable once recorded. It carries exactly the
/// content-addresses and positional index the mutation needs.
#[derive(Clone, Copy, Debug, PartialEq, Eq, Structural)]
pub enum FinalizeOperation {
    /// Initializes a new mapping, (`mapping ID`).
    InitializeMapping(FieldId),
    /// Inserts a key-value pair, (`mapping ID`, `key ID`, `value ID`).
    InsertKeyValue(FieldId, FieldId, FieldId),
    /// Updates the key-value pair, (`mapping ID`, `index`, `key ID`, `value ID`).
    UpdateKeyValue(FieldId, u64, FieldId, FieldId),
    /// Removes the key-value pair, (`mapping ID`, `index`).
    RemoveKeyValue(FieldId, u64),
    /// Removes a mapping, (`mapping ID`).
    RemoveMapping(FieldId),
}

impl FinalizeOperation {
    /// The mapping this operation addresses.
    pub open spec fn spec_mapping_id(&self) -> FieldId {
        match *self {
            FinalizeOperation::InitializeMapping(mapping_id) => mapping_id,
            FinalizeOperation::InsertKeyValue(mapping_id, _, _) => mapping_id,
            FinalizeOperation::UpdateKeyValue(mapping_id, _, _, _) => mapping_id,
            FinalizeOperation::RemoveKeyValue(mapping_id, _) => mapping_id,
            FinalizeOperation::RemoveMapping(mapping_id) => mapping_id,
        }
    }

    /// Returns the mapping ID of the finalize operation, without decoding
    /// the full payload; the ledger groups operations per mapping by it.
    pub fn mapping_id(&self) -> (r: FieldId)
        ensures
            r == self.spec_mapping_id(),
    {
        match self {
            FinalizeOperation::InitializeMapping(mapping_id) => *mapping_id,
            FinalizeOperation::InsertKeyValue(mapping_id, _, _) => *mapping_id,
            FinalizeOperation::UpdateKeyValue(mapping_id, _, _, _) => *mapping_id,
            FinalizeOperation::RemoveKeyValue(mapping_id, _) => *mapping_id,
            FinalizeOperation::RemoveMapping(mapping_id) => *mapping_id,
        }
    }
}

/// The canonical byte encoding of one journal entry: a discriminant byte,
/// one per variant, then the little-endian encodings of its mapping ID,
/// index, key ID and value ID, in the order the variant lists them.
pub open spec fn operation_bytes(op: FinalizeOperation) -> Seq<u8> {
    match op {
        FinalizeOperation::InitializeMapping(m) => seq![0u8] + m.spec_bytes(),
        FinalizeOperation::InsertKeyValue(m, k, v) => seq![1u8] + m.spec_bytes() + k.spec_bytes()
            + v.spec_bytes(),
        FinalizeOperation::UpdateKeyValue(m, i, k, v) => seq![2u8] + m.spec_bytes()
            + spec_u64_to_le_bytes(i) + k.spec_bytes() + v.spec_bytes(),
        FinalizeOperation::RemoveKeyValue(m, i) => seq![3u8] + m.spec_bytes()
            + spec_u64_to_le_bytes(i),
        FinalizeOperation::RemoveMapping(m) => seq![4u8] + m.spec_bytes(),
    }
}

/// What decoding a byte string as one journal entry yields: the entry and
/// the number of bytes consumed, or the exact reason the bytes were
/// refused. Any discriminant byte beyond the five variants is refused.
pub open spec fn read_operation(s: Seq<u8>) -> Result<(FinalizeOperation, int), DecodeError> {
    if s.len() < 1 {
        Err(DecodeError::Truncated)
    } else if s[0] == 0 {
        if s.len() < 9 {
            Err(DecodeError::Truncated)
        } else {
            Ok((FinalizeOperation::InitializeMapping(FieldId::spec_at(s, 1)), 9))
        }
    } else if s[0] == 1 {
        if s.len() < 25 {
            Err(DecodeError::Truncated)
        } else {
            Ok(
                (
                    FinalizeOperation::InsertKeyValue(
                        FieldId::spec_at(s, 1),
                        FieldId::spec_at(s, 9),
                        FieldId::spec_at(s, 17),
                    ),
                    25,
                ),
            )
        }
    } else if s[0] == 2 {
        if s.len() < 33 {
            Err(DecodeError::Truncated)
        } else {
            Ok(
                (
                    FinalizeOperation::UpdateKeyValue(
                        FieldId::spec_at(s, 1),
                        spec_u64_from_le_bytes(s.subrange(9, 17)),
                        FieldId::spec_at(s, 17),
                        FieldId::spec_at(s, 25),
                    ),
                    33,
                ),
            )
        }
    } else if s[0] == 3 {
        if s.len() < 17 {
            Err(DecodeError::Truncated)
        } else {
            Ok(
                (
                    FinalizeOperation::RemoveKeyValue(
                        FieldId::spec_at(s, 1),
                        spec_u64_from_le_bytes(s.subrange(9, 17)),
                    ),
                    17,
                ),
            )
        }
    } else if s[0] == 4 {
        if s.len() < 9 {
            Err(DecodeError::Truncated)
        } else {
            Ok((FinalizeOperation::RemoveMapping(FieldId::spec_at(s, 1)), 9))
        }
    } else {
        Err(DecodeError::UnknownTag)
    }
}

impl FinalizeOperation {
    /// Appends the canonical encoding of this entry to `out`.
    pub fn write_le(&self, out: &mut Vec<u8>)
        ensures
            final(out)@ == old(out)@ + operation_bytes(*self),
    {
        match self {
            FinalizeOperation::InitializeMapping(m) => {
                out.push(0u8);
                m.write_le(out);
            },
            FinalizeOperation::InsertKeyValue(m, k, v) => {
                out.push(1u8);
                m.write_le(out);
                k.write_le(out);
                v.write_le(out);
            },
            FinalizeOperation::UpdateKeyValue(m, i, k, v) => {
                out.push(2u8);
                m.write_le(out);
                push_u64_le(out, *i);
                k.write_le(out);
                v.write_le(out);
            },
            FinalizeOperation::RemoveKeyValue(m, i) => {
                out.push(3u8);
                m.write_le(out);
                push_u64_le(out, *i);
            },
            FinalizeOperation::RemoveMapping(m) => {
                out.push(4u8);
                m.write_le(out);
            },
        }
        proof {
            assert(out@ =~= old(out)@ + operation_bytes(*self));
        }
    }

    /// Reads one entry from the front of `bytes`, returning the entry and
    /// the number of bytes consumed, exactly as [`read_operation`]
    /// describes.
    pub fn read_le(bytes: &[u8]) -> (r: Result<(FinalizeOperation, usize), DecodeError>)
        ensures
            match r {
                Ok(p) => ({
                    &&& read_operation(bytes@) == Ok::<(FinalizeOperation, int), DecodeError>(
                        (p.0, p.1 as int),
                    )
                    &&& p.1 <= bytes@.len()
                }),
                Err(e) => read_operation(bytes@) == Err::<(FinalizeOperation, int), DecodeError>(e),
            },
    {
        let len = bytes.len();
        if len < 1 {
            return Err(DecodeError::Truncated);
        }
        let tag = *vstd::slice::slice_index_get(bytes, 0);
        if tag == 0 {
            if len < 9 {
                return Err(DecodeError::Truncated);
            }
            Ok((FinalizeOperation::InitializeMapping(FieldId::read_le(bytes, 1)), 9))
        } else if tag == 1 {
            if len < 25 {
                return Err(DecodeError::Truncated);
            }
            Ok(
                (
                    FinalizeOperation::InsertKeyValue(
                        FieldId::read_le(bytes, 1),
                        FieldId::read_le(bytes, 9),
                        FieldId::read_le(bytes, 17),
                    ),
                    25,
                ),
            )
        } else if tag == 2 {
            if len < 33 {
                return Err(DecodeError::Truncated);
            }
            Ok(
                (
                    FinalizeOperation::UpdateKeyValue(
                        FieldId::read_le(bytes, 1),
                        read_u64_le(bytes, 9),
                        FieldId::read_le(bytes, 17),
                        FieldId::read_le(bytes, 25),
                    ),
                    33,
                ),
            )
        } else if tag == 3 {
            if len < 17 {
                return Err(DecodeError::Truncated);
            }
            Ok(
                (
                    FinalizeOperation::RemoveKeyValue(
                        FieldId::read_le(bytes, 1),
                        read_u64_le(bytes, 9),
                    ),
                    17,
                ),
            )
        } else if tag == 4 {
            if len < 9 {
                return Err(DecodeError::Truncated);
            }
            Ok((FinalizeOperation::RemoveMapping(FieldId::read_le(bytes, 1)), 9))
        } else {
            Err(DecodeError::UnknownTag)
        }
    }
}

/// Round-trip law: decoding the canonical encoding of any journal entry,
/// whatever bytes follow it, yields that very entry back and consumes
/// exactly its encoding.
pub proof fn lemma_operation_round_trip(op: FinalizeOperation, rest: Seq<u8>)
    ensures
        read_operation(operation_bytes(op) + rest) == Ok::<(FinalizeOperation, int), DecodeError>(
            (op, operation_bytes(op).len() as int),
        ),
{
    lemma_auto_spec_u64_to_from_le_bytes();
    let s = operation_bytes(op) + rest;
    match op {
        FinalizeOperation::InitializeMapping(m) => {
            assert(s.subrange(1, 9) =~= m.spec_bytes());
        },
        FinalizeOperation::InsertKeyValue(m, k, v) => {
            assert(s.subrange(1, 9) =~= m.spec_bytes());
            assert(s.subrange(9, 17) =~= k.spec_bytes());
            assert(s.subrange(17, 25) =~= v.spec_bytes());
        },
        FinalizeOperation::UpdateKeyValue(m, i, k, v) => {
            assert(s.subrange(1, 9) =~= m.spec_bytes());
            assert(s.subrange(9, 17) =~= spec_u64_to_le_bytes(i));
            assert(s.subrange(17, 25) =~= k.spec_bytes());
            assert(s.subrange(25, 33) =~= v.spec_bytes());
        },
        FinalizeOperation::RemoveKeyValue(m, i) => {
            assert(s.subrange(1, 9) =~= m.spec_bytes());
            assert(s.subrange(9, 17) =~= spec_u64_to_le_bytes(i));
        },
        FinalizeOperation::RemoveMapping(m) => {
            assert(s.subrange(1, 9) =~= m.spec_bytes());
        },
    }
}

} // verus!
