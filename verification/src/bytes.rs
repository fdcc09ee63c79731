//! Reading fixed-width integers out of a byte buffer.

use byteorder::{BigEndian, ReadBytesExt};
use vstd::prelude::*;

verus! {

/// The number that the bytes of `s` spell, most significant byte first.
pub open spec fn be_value(s: Seq<u8>) -> nat
    decreases s.len(),
{
    if s.len() == 0 {
        0
    } else {
        be_value(s.drop_last()) * 256 + s.last() as nat
    }
}

/// The big-endian number in the `width` bytes of `s` that start at `at`.
pub open spec fn be_at(s: Seq<u8>, at: int, width: int) -> nat {
    be_value(s.subrange(at, at + width))
}

/// Calls `ReadBytesExt::read_u8` on the bytes from `at` on: the byte at
/// `at`, or `None` where the buffer ends there.
#[verifier::external_body]
pub(crate) fn read_u8(data: &[u8], at: usize) -> (r: Option<u8>)
    requires
        at <= data@.len(),
    ensures
        r is Some <==> at < data@.len(),
        r matches Some(b) ==> b == data@[at as int],
{
    let mut rest = &data[at..];
    rest.read_u8().ok()
}

/// Calls `ReadBytesExt::read_u32::<BigEndian>` on the bytes from `at` on:
/// the next four bytes as a big-endian number, or `None` where fewer are left.
#[verifier::external_body]
pub(crate) fn read_u32_be(data: &[u8], at: usize) -> (r: Option<u32>)
    requires
        at <= data@.len(),
    ensures
        r is Some <==> at + 4 <= data@.len(),
        r matches Some(v) ==> v as nat == be_at(data@, at as int, 4),
{
    let mut rest = &data[at..];
    rest.read_u32::<BigEndian>().ok()
}

/// Calls `ReadBytesExt::read_u64::<BigEndian>` on the bytes from `at` on:
/// the next eight bytes as a big-endian number, or `None` where fewer are left.
#[verifier::external_body]
pub(crate) fn read_u64_be(data: &[u8], at: usize) -> (r: Option<u64>)
    requires
        at <= data@.len(),
    ensures
        r is Some <==> at + 8 <= data@.len(),
        r matches Some(v) ==> v as nat == be_at(data@, at as int, 8),
{
    let mut rest = &data[at..];
    rest.read_u64::<BigEndian>().ok()
}

/// A copy of the bytes of `data` from `from` up to `to`.
pub fn copy_range(data: &[u8], from: usize, to: usize) -> (r: Vec<u8>)
    requires
        from <= to <= data@.len(),
    ensures
        r@ == data@.subrange(from as int, to as int),
{
    let mut out: Vec<u8> = Vec::new();
    let mut i: usize = from;
    while i < to
        invariant
            from <= i <= to <= data@.len(),
            out@ == data@.subrange(from as int, i as int),
        decreases to - i,
    {
        out.push(data[i]);
        assert(data@.subrange(from as int, i + 1) =~= data@.subrange(from as int, i as int).push(
            data@[i as int],
        ));
        i += 1;
    }
    out
}

/// The place of the first `byte` in `s` at or after `from`, or the length of
/// `s` where there is none.
pub open spec fn find_byte(s: Seq<u8>, from: int, byte: u8) -> int
    decreases s.len() - from,
{
    if from < 0 || from >= s.len() {
        s.len() as int
    } else if s[from] == byte {
        from
    } else {
        find_byte(s, from + 1, byte)
    }
}

/// `find_byte` lies between `from` and the end, and no `byte` comes before it.
pub proof fn lemma_find_byte(s: Seq<u8>, from: int, byte: u8)
    requires
        0 <= from <= s.len(),
    ensures
        from <= find_byte(s, from, byte) <= s.len(),
        find_byte(s, from, byte) < s.len() ==> s[find_byte(s, from, byte)] == byte,
        forall|j: int| from <= j < find_byte(s, from, byte) ==> s[j] != byte,
    decreases s.len() - from,
{
    if from < s.len() && s[from] != byte {
        lemma_find_byte(s, from + 1, byte);
    }
}

/// Finds the first `byte` of `data` at or after `from`.
pub fn scan_to(data: &[u8], from: usize, byte: u8) -> (r: usize)
    requires
        from <= data@.len(),
    ensures
        r as int == find_byte(data@, from as int, byte),
        from <= r <= data@.len(),
{
    let mut i: usize = from;
    while i < data.len() && data[i] != byte
        invariant
            from <= i <= data@.len(),
            find_byte(data@, from as int, byte) == find_byte(data@, i as int, byte),
        decreases data@.len() - i,
    {
        i += 1;
    }
    i
}

} // verus!
