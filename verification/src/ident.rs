//! Object ids.

use vstd::prelude::*;
use vstd::std_specs::cmp::PartialEqSpecImpl;
use vstd::std_specs::convert::FromSpecImpl;
use vstd::string::StringSliceAdditionalSpecFns;

use crate::hexcode::{all_hex, decode, encode, hex_text, hex_to_bytes, HexError};

verus! {

/// The 20-byte SHA-1 that names an object. Its view is the 20 bytes; two
/// ids are equal exactly when their bytes are.
#[derive(Clone, Copy, Debug, Eq, Hash)]
pub struct ObjectId(pub [u8; 20]);

impl View for ObjectId {
    type V = Seq<u8>;

    open spec fn view(&self) -> Seq<u8> {
        self.0@
    }
}

impl PartialEq for ObjectId {
    fn eq(&self, other: &ObjectId) -> (r: bool) {
        let mut i: usize = 0;
        while i < 20
            invariant
                i <= 20,
                forall|j: int| 0 <= j < i ==> self.0@[j] == other.0@[j],
            decreases 20 - i,
        {
            if self.0[i] != other.0[i] {
                return false;
            }
            i += 1;
        }
        assert(self.0@ =~= other.0@);
        true
    }
}

impl PartialEqSpecImpl for ObjectId {
    open spec fn obeys_eq_spec() -> bool {
        true
    }

    open spec fn eq_spec(&self, other: &ObjectId) -> bool {
        self@ == other@
    }
}

impl From<[u8; 20]> for ObjectId {
    fn from(value: [u8; 20]) -> (r: ObjectId) {
        ObjectId(value)
    }
}

impl FromSpecImpl<[u8; 20]> for ObjectId {
    open spec fn obeys_from_spec() -> bool {
        true
    }

    open spec fn from_spec(value: [u8; 20]) -> ObjectId {
        ObjectId(value)
    }
}

/// `s` begins with `prefix`.
pub open spec fn has_prefix(s: Seq<u8>, prefix: Seq<u8>) -> bool {
    prefix.len() <= s.len() && s.subrange(0, prefix.len() as int) == prefix
}

impl ObjectId {
    /// The id's 20 bytes.
    pub fn as_bytes(&self) -> (r: &[u8; 20])
        ensures
            r@ == self@,
    {
        &self.0
    }

    /// The id with the 20 bytes of `bytes`; `None` for any other length.
    pub fn from_slice(bytes: &[u8]) -> (r: Option<ObjectId>)
        ensures
            r is Some <==> bytes@.len() == 20,
            r matches Some(id) ==> id@ == bytes@,
    {
        if bytes.len() != 20 {
            return None;
        }
        let mut raw: [u8; 20] = [0u8; 20];
        let mut i: usize = 0;
        while i < 20
            invariant
                i <= 20,
                bytes@.len() == 20,
                forall|j: int| 0 <= j < i ==> raw@[j] == bytes@[j],
            decreases 20 - i,
        {
            raw[i] = bytes[i];
            i += 1;
        }
        assert(raw@ =~= bytes@);
        Some(ObjectId(raw))
    }

    /// The id written as 40 hex digits of either case.
    pub fn from_hex(text: &str) -> (r: Result<ObjectId, HexError>)
        ensures
            r is Ok <==> (text.spec_bytes().len() == 40 && all_hex(text.spec_bytes())),
            r matches Ok(id) ==> id@ == hex_to_bytes(text.spec_bytes()),
            r matches Err(e) ==> id_text_error(text.spec_bytes(), e),
    {
        let raw = text.as_bytes();
        if raw.len() % 2 == 0 && raw.len() != 40 {
            return Err(HexError::InvalidStringLength);
        }
        match decode(raw) {
            Ok(bytes) => match ObjectId::from_slice(bytes.as_slice()) {
                Some(id) => Ok(id),
                None => Err(HexError::InvalidStringLength),
            },
            Err(e) => Err(e),
        }
    }

    /// The id as 40 lower-case hex digits.
    pub fn to_hex(&self) -> (r: String)
        ensures
            r@ == hex_text(self@),
    {
        encode(self.0.as_slice())
    }

    /// Whether the id's bytes begin with `prefix`.
    pub fn starts_with(&self, prefix: &[u8]) -> (r: bool)
        ensures
            r == has_prefix(self@, prefix@),
    {
        if prefix.len() > 20 {
            return false;
        }
        let mut i: usize = 0;
        while i < prefix.len()
            invariant
                i <= prefix@.len() <= 20,
                forall|j: int| 0 <= j < i ==> self.0@[j] == prefix@[j],
            decreases prefix@.len() - i,
        {
            if self.0[i] != prefix[i] {
                assert(self@.subrange(0, prefix@.len() as int)[i as int] != prefix@[i as int]);
                return false;
            }
            i += 1;
        }
        assert(self@.subrange(0, prefix@.len() as int) =~= prefix@);
        true
    }
}

/// Which error refuses a text that is not a 40-digit id: an odd length,
/// then a length other than 40, then the first byte that is no hex digit.
pub open spec fn id_text_error(s: Seq<u8>, e: HexError) -> bool {
    if s.len() % 2 != 0 {
        e is OddLength
    } else if s.len() != 40 {
        e is InvalidStringLength
    } else {
        e matches HexError::InvalidHexCharacter { c, index } && crate::hexcode::first_bad_digit(
            s,
            index as int,
        ) && c == s[index as int] as char
    }
}

/// The id that a text of 40 hex digits names; `None` for any other text.
pub open spec fn id_of_text(s: Seq<u8>) -> Option<Seq<u8>> {
    if s.len() == 40 && all_hex(s) {
        Some(hex_to_bytes(s))
    } else {
        None
    }
}

/// The views of a list of ids.
pub open spec fn ids_of(list: Seq<ObjectId>) -> Seq<Seq<u8>> {
    Seq::new(list.len(), |i: int| list[i]@)
}

/// Reads an id from the 40 hex digits of `text`.
pub fn id_from_text(text: &[u8]) -> (r: Option<ObjectId>)
    ensures
        match r {
            Some(id) => id_of_text(text@) == Some(id@),
            None => id_of_text(text@) is None,
        },
{
    if text.len() != 40 {
        return None;
    }
    match decode(text) {
        Ok(bytes) => ObjectId::from_slice(bytes.as_slice()),
        Err(_) => None,
    }
}

/// Whether `id` stands in `list`.
pub fn id_in(list: &Vec<ObjectId>, id: &ObjectId) -> (r: bool)
    ensures
        r == ids_of(list@).contains(id@),
{
    let mut i: usize = 0;
    while i < list.len()
        invariant
            i <= list@.len(),
            forall|j: int| 0 <= j < i ==> ids_of(list@)[j] != id@,
        decreases list@.len() - i,
    {
        if list[i] == *id {
            assert(ids_of(list@)[i as int] == id@);
            return true;
        }
        i += 1;
    }
    false
}

} // verus!
