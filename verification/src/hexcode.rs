//! Hexadecimal text, as the `hex` crate reads and writes it.

use vstd::prelude::*;

verus! {

/// Why a byte string is not the hex form of a byte sequence.
#[derive(Clone, Copy, Debug, PartialEq, Eq)]
pub enum HexError {
    /// The byte at `index` is not a hex digit; `c` is that byte as a character.
    InvalidHexCharacter { c: char, index: usize },
    /// The text has an odd number of bytes.
    OddLength,
    /// The text does not have twice as many bytes as the buffer to fill.
    InvalidStringLength,
}

/// The value of one hex digit, either case; `None` for any other byte.
pub open spec fn hex_digit(c: u8) -> Option<u8> {
    if 0x30 <= c <= 0x39 {
        Some((c - 0x30) as u8)
    } else if 0x61 <= c <= 0x66 {
        Some((c - 0x61 + 10) as u8)
    } else if 0x41 <= c <= 0x46 {
        Some((c - 0x41 + 10) as u8)
    } else {
        None
    }
}

/// Every byte of `s` is a hex digit.
pub open spec fn all_hex(s: Seq<u8>) -> bool {
    forall|i: int| 0 <= i < s.len() ==> (#[trigger] hex_digit(s[i])) is Some
}

/// The bytes that an even-length hex text stands for: digits `2i` and
/// `2i + 1` give byte `i`, high nibble first.
pub open spec fn hex_to_bytes(s: Seq<u8>) -> Seq<u8> {
    Seq::new(
        s.len() / 2,
        |i: int| (hex_digit(s[2 * i]).unwrap() * 16 + hex_digit(s[2 * i + 1]).unwrap()) as u8,
    )
}

/// `index` is the place of the first byte of `s` that is no hex digit.
pub open spec fn first_bad_digit(s: Seq<u8>, index: int) -> bool {
    &&& 0 <= index < s.len()
    &&& hex_digit(s[index]) is None
    &&& forall|j: int| 0 <= j < index ==> (#[trigger] hex_digit(s[j])) is Some
}

/// The lower-case hex digit for a nibble.
pub open spec fn nibble_char(n: int) -> char {
    if n < 10 {
        (0x30 + n) as char
    } else {
        (0x61 + n - 10) as char
    }
}

/// The lower-case hex text of `b`: two digits a byte, high nibble first.
pub open spec fn hex_text(b: Seq<u8>) -> Seq<char> {
    Seq::new(
        2 * b.len(),
        |i: int| if i % 2 == 0 { nibble_char(b[i / 2] as int / 16) } else { nibble_char(b[i / 2] as int % 16) },
    )
}

/// What `e` must be when `s` is refused: an odd length comes first, then
/// the first byte that is no hex digit, with its place.
pub open spec fn decode_error(s: Seq<u8>, e: HexError) -> bool {
    if s.len() % 2 != 0 {
        e is OddLength
    } else {
        e matches HexError::InvalidHexCharacter { c, index } && first_bad_digit(s, index as int)
            && c == s[index as int] as char
    }
}

/// Calls `hex::decode`. The text must have an even number of bytes, each a
/// hex digit of either case; then the result is the bytes it stands for.
/// An odd length is reported before any digit is looked at, and otherwise
/// the first byte that is no digit is reported with its place.
#[verifier::external_body]
pub(crate) fn decode(text: &[u8]) -> (r: Result<Vec<u8>, HexError>)
    ensures
        r is Ok <==> (text@.len() % 2 == 0 && all_hex(text@)),
        r matches Ok(v) ==> v@ == hex_to_bytes(text@),
        r matches Err(e) ==> decode_error(text@, e),
{
    match hex::decode(text) {
        Ok(v) => Ok(v),
        Err(hex::FromHexError::InvalidHexCharacter { c, index }) => Err(
            HexError::InvalidHexCharacter { c, index },
        ),
        Err(hex::FromHexError::OddLength) => Err(HexError::OddLength),
        Err(hex::FromHexError::InvalidStringLength) => Err(HexError::InvalidStringLength),
    }
}

/// Calls `hex::encode`: the lower-case hex text of `data`.
#[verifier::external_body]
pub(crate) fn encode(data: &[u8]) -> (r: String)
    ensures
        r@ == hex_text(data@),
{
    hex::encode(data)
}

} // verus!
