use crate::errors::DecodeError;
use crate::identifier::{valid_name, Identifier};
use vstd::bytes::{
    lemma_auto_spec_u32_to_from_le_bytes, spec_u32_from_le_bytes, spec_u32_to_le_bytes,
    u32_from_le_bytes, u32_to_le_bytes,
};
use vstd::prelude::*;
use vstd::slice::{slice_subrange, slice_to_vec};

verus! {

/// One segment of an access path into a structured value.
#[derive(Clone, Debug, PartialEq, Eq)]
pub enum Access {
    /// Selects a positional element of a list; indices are 0-based.
    Index(u32),
    /// Selects a named field of a struct.
    Member(Identifier),
}

/// The mathematical value of one path segment: the index, or the member
/// name's bytes.
#[verifier::ext_equal]
pub enum AccessVal {
    Index(u32),
    Member(Seq<u8>),
}

impl View for Access {
    type V = AccessVal;

    open spec fn view(&self) -> AccessVal {
        match self {
            Access::Index(i) => AccessVal::Index(*i),
            Access::Member(id) => AccessVal::Member(id@),
        }
    }
}

/// Whether one abstract path segment is well formed: a member name must be
/// a valid identifier.
pub open spec fn access_val_wf(a: AccessVal) -> bool {
    match a {
        AccessVal::Index(_) => true,
        AccessVal::Member(name) => valid_name(name),
    }
}

/// The canonical byte encoding of one path segment: a discriminant byte
/// (`0` for `Index`, `1` for `Member`), then the little-endian index or the
/// length-prefixed member name.
pub open spec fn access_bytes(a: AccessVal) -> Seq<u8> {
    match a {
        AccessVal::Index(i) => seq![0u8] + spec_u32_to_le_bytes(i),
        AccessVal::Member(name) => seq![1u8] + seq![name.len() as u8] + name,
    }
}

/// What decoding a byte string as one path segment yields: the segment and
/// the number of bytes consumed, or the exact reason the bytes were
/// refused. Any discriminant byte other than `0` or `1` is refused.
pub open spec fn read_access(s: Seq<u8>) -> Result<(AccessVal, int), DecodeError> {
    if s.len() < 1 {
        Err(DecodeError::Truncated)
    } else if s[0] == 0 {
        if s.len() < 5 {
            Err(DecodeError::Truncated)
        } else {
            Ok((AccessVal::Index(spec_u32_from_le_bytes(s.subrange(1, 5))), 5))
        }
    } else if s[0] == 1 {
        if s.len() < 2 {
            Err(DecodeError::Truncated)
        } else if s.len() < 2 + s[1] {
            Err(DecodeError::Truncated)
        } else if valid_name(s.subrange(2, 2 + s[1])) {
            Ok((AccessVal::Member(s.subrange(2, 2 + s[1])), 2 + s[1]))
        } else {
            Err(DecodeError::BadIdentifier)
        }
    } else {
        Err(DecodeError::UnknownTag)
    }
}

impl Access {
    /// Whether this segment is well formed.
    pub open spec fn wf(&self) -> bool {
        access_val_wf(self@)
    }

    /// Appends the canonical encoding of this segment to `out`.
    pub fn write_le(&self, out: &mut Vec<u8>)
        requires
            self.wf(),
        ensures
            final(out)@ == old(out)@ + access_bytes(self@),
    {
        match self {
            Access::Index(index) => {
                out.push(0u8);
                let mut tail = u32_to_le_bytes(*index);
                out.append(&mut tail);
                proof {
                    assert(out@ =~= old(out)@ + access_bytes(self@));
                }
            },
            Access::Member(identifier) => {
                out.push(1u8);
                out.push(identifier.len() as u8);
                let mut tail = identifier.as_bytes().clone();
                proof {
                    assert(tail@ =~= identifier@);
                }
                out.append(&mut tail);
                proof {
                    assert(out@ =~= old(out)@ + access_bytes(self@));
                }
            },
        }
    }

    /// Reads one segment from the front of `bytes`, returning the segment
    /// and the number of bytes consumed, exactly as [`read_access`]
    /// describes.
    pub fn read_le(bytes: &[u8]) -> (r: Result<(Access, usize), DecodeError>)
        ensures
            match r {
                Ok(p) => ({
                    &&& read_access(bytes@) == Ok::<(AccessVal, int), DecodeError>((p.0@, p.1 as int))
                    &&& p.0.wf()
                    &&& p.1 <= bytes@.len()
                }),
                Err(e) => read_access(bytes@) == Err::<(AccessVal, int), DecodeError>(e),
            },
    {
        let len = bytes.len();
        if len < 1 {
            return Err(DecodeError::Truncated);
        }
        let tag = *vstd::slice::slice_index_get(bytes, 0);
        if tag == 0 {
            if len < 5 {
                return Err(DecodeError::Truncated);
            }
            let window = slice_subrange(bytes, 1, 5);
            let index = u32_from_le_bytes(window);
            Ok((Access::Index(index), 5))
        } else if tag == 1 {
            if len < 2 {
                return Err(DecodeError::Truncated);
            }
            let n = *vstd::slice::slice_index_get(bytes, 1) as usize;
            if len - 2 < n {
                return Err(DecodeError::Truncated);
            }
            let window = slice_subrange(bytes, 2, 2 + n);
            let name = slice_to_vec(window);
            match Identifier::from_bytes(name) {
                Some(identifier) => Ok((Access::Member(identifier), 2 + n)),
                None => Err(DecodeError::BadIdentifier),
            }
        } else {
            Err(DecodeError::UnknownTag)
        }
    }
}

/// Round-trip law: decoding the canonical encoding of any well-formed path
/// segment, whatever bytes follow it, yields that very segment back and
/// consumes exactly its encoding.
pub proof fn lemma_access_round_trip(a: AccessVal, rest: Seq<u8>)
    requires
        access_val_wf(a),
    ensures
        read_access(access_bytes(a) + rest) == Ok::<(AccessVal, int), DecodeError>(
            (a, access_bytes(a).len() as int),
        ),
{
    let s = access_bytes(a) + rest;
    match a {
        AccessVal::Index(i) => {
            lemma_auto_spec_u32_to_from_le_bytes();
            assert(spec_u32_to_le_bytes(i).len() == 4);
            assert(s[0] == 0);
            assert(s.subrange(1, 5) =~= spec_u32_to_le_bytes(i));
        },
        AccessVal::Member(name) => {
            assert(s[0] == 1);
            assert(s[1] == name.len() as u8);
            assert(s.len() >= 2 + name.len());
            assert(s.subrange(2, 2 + s[1]) =~= name);
        },
    }
}

} // verus!
