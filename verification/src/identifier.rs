use vstd::prelude::*;

verus! {

/// Greatest number of bytes an identifier may hold.
pub const MAX_IDENTIFIER_BYTES: usize = 31;

/// Whether `b` is an ASCII letter.
pub open spec fn is_letter(b: u8) -> bool {
    (97 <= b <= 122) || (65 <= b <= 90)
}

/// Whether `b` may stand in an identifier: an ASCII letter, digit or
/// underscore.
pub open spec fn is_name_byte(b: u8) -> bool {
    is_letter(b) || (48 <= b <= 57) || b == 95
}

/// Whether `s` is a well-formed identifier: non-empty, at most
/// `MAX_IDENTIFIER_BYTES` bytes, starting with a letter, every byte a
/// letter, digit or underscore.
pub open spec fn valid_name(s: Seq<u8>) -> bool {
    &&& 1 <= s.len() <= MAX_IDENTIFIER_BYTES
    &&& is_letter(s[0])
    &&& forall|i: int| 0 <= i < s.len() ==> is_name_byte(#[trigger] s[i])
}

/// A bounded-length canonical name token, used as a struct member key.
/// Equality and ordering are structural over the bytes.
///
/// The derived `PartialEq` serves unverified callers; verified code
/// compares identifiers with [`Identifier::eq_name`], whose contract speaks
/// of the byte view.
#[derive(Clone, Debug, PartialEq, Eq, Hash)]
pub struct Identifier {
    bytes: Vec<u8>,
}

impl View for Identifier {
    type V = Seq<u8>;

    closed spec fn view(&self) -> Seq<u8> {
        self.bytes@
    }
}

impl Identifier {
    /// Whether this token is a well-formed identifier.
    pub open spec fn wf(&self) -> bool {
        valid_name(self@)
    }

    /// Builds an identifier from its bytes, refusing any byte string that is
    /// not a well-formed name.
    pub fn from_bytes(bytes: Vec<u8>) -> (r: Option<Identifier>)
        ensures
            match r {
                Some(id) => id@ == bytes@ && id.wf(),
                None => !valid_name(bytes@),
            },
    {
        if bytes.len() < 1 || bytes.len() > MAX_IDENTIFIER_BYTES {
            return None;
        }
        let first = bytes[0];
        if !((97 <= first && first <= 122) || (65 <= first && first <= 90)) {
            return None;
        }
        let mut i: usize = 0;
        while i < bytes.len()
            invariant
                i <= bytes@.len(),
                forall|j: int| 0 <= j < i ==> is_name_byte(#[trigger] bytes@[j]),
            decreases bytes@.len() - i,
        {
            let b = bytes[i];
            if !((97 <= b && b <= 122) || (65 <= b && b <= 90) || (48 <= b && b <= 57) || b == 95)
            {
                return None;
            }
            i = i + 1;
        }
        Some(Identifier { bytes })
    }

    /// The number of bytes in this identifier.
    pub fn len(&self) -> (r: usize)
        ensures
            r == self@.len(),
    {
        self.bytes.len()
    }

    /// Whether two identifiers hold the same bytes; this is the exact
    /// equality by which struct members are looked up.
    pub fn eq_name(&self, other: &Identifier) -> (r: bool)
        ensures
            r == (self@ == other@),
    {
        if self.bytes.len() != other.bytes.len() {
            proof {
                assert(self@ != other@);
            }
            return false;
        }
        let mut i: usize = 0;
        while i < self.bytes.len()
            invariant
                self.bytes@.len() == other.bytes@.len(),
                i <= self.bytes@.len(),
                forall|j: int| 0 <= j < i ==> self.bytes@[j] == other.bytes@[j],
            decreases self.bytes@.len() - i,
        {
            if self.bytes[i] != other.bytes[i] {
                return false;
            }
            i = i + 1;
        }
        proof {
            assert(self@ =~= other@);
        }
        true
    }

    /// The bytes of this identifier.
    pub fn as_bytes(&self) -> (r: &Vec<u8>)
        ensures
            r@ == self@,
    {
        &self.bytes
    }

    /// Returns an independent copy holding the same bytes.
    pub fn duplicate(&self) -> (r: Identifier)
        ensures
            r@ == self@,
            r.wf() == self.wf(),
    {
        let bytes = self.bytes.clone();
        proof {
            assert(bytes@ =~= self.bytes@);
        }
        Identifier { bytes }
    }
}

} // verus!
