//! Text in object bodies: lossy UTF-8, and numbers written in digits.

use vstd::prelude::*;
use vstd::utf8::{decode_utf8, valid_utf8};

verus! {

/// What `String::from_utf8_lossy` makes of bytes that are not valid UTF-8:
/// each invalid sequence gives way to U+FFFD.
pub uninterp spec fn lossy_text(bytes: Seq<u8>) -> Seq<char>;

/// The text that bytes are shown as: their decoding where they are valid
/// UTF-8, the lossy reading otherwise.
pub open spec fn text_of(bytes: Seq<u8>) -> Seq<char> {
    if valid_utf8(bytes) {
        decode_utf8(bytes)
    } else {
        lossy_text(bytes)
    }
}

/// Calls `String::from_utf8_lossy`. Valid UTF-8 is decoded as it stands;
/// of other input the result is only named.
#[verifier::external_body]
pub(crate) fn utf8_lossy(bytes: &[u8]) -> (r: String)
    ensures
        valid_utf8(bytes@) ==> r@ == decode_utf8(bytes@),
        !valid_utf8(bytes@) ==> r@ == lossy_text(bytes@),
{
    String::from_utf8_lossy(bytes).into_owned()
}

/// Whether two byte strings are the same.
pub fn bytes_eq(a: &[u8], b: &[u8]) -> (r: bool)
    ensures
        r == (a@ == b@),
{
    if a.len() != b.len() {
        return false;
    }
    let mut i: usize = 0;
    while i < a.len()
        invariant
            i <= a@.len(),
            a@.len() == b@.len(),
            forall|j: int| 0 <= j < i ==> a@[j] == b@[j],
        decreases a@.len() - i,
    {
        if a[i] != b[i] {
            return false;
        }
        i += 1;
    }
    assert(a@ =~= b@);
    true
}

/// The number that the digits of `s` spell in base `radix`.
pub open spec fn digits_value(s: Seq<u8>, radix: nat) -> nat
    decreases s.len(),
{
    if s.len() == 0 {
        0
    } else {
        digits_value(s.drop_last(), radix) * radix + (s.last() - 0x30) as nat
    }
}

/// Every byte of `s` is a digit of base `radix`.
pub open spec fn all_digits(s: Seq<u8>, radix: nat) -> bool {
    forall|i: int| 0 <= i < s.len() ==> 0x30 <= #[trigger] s[i] < 0x30 + radix
}

/// `s` without a plus sign at its head.
pub open spec fn unsigned_digits(s: Seq<u8>) -> Seq<u8> {
    if s.len() > 0 && s[0] == 0x2b {
        s.skip(1)
    } else {
        s
    }
}

/// The number that `s` spells in base `radix`: one or more digits, which a
/// plus sign may precede. `None` where `s` has another form or spells more
/// than `max`.
pub open spec fn number_value(s: Seq<u8>, radix: nat, max: nat) -> Option<nat> {
    let digits = unsigned_digits(s);
    if digits.len() > 0 && all_digits(digits, radix) && digits_value(digits, radix) <= max {
        Some(digits_value(digits, radix))
    } else {
        None
    }
}

/// The digits of a prefix spell no more than the digits of the whole.
pub proof fn lemma_digits_value_prefix(s: Seq<u8>, radix: nat, n: int)
    requires
        0 <= n <= s.len(),
        1 <= radix,
        all_digits(s, radix),
    ensures
        digits_value(s.subrange(0, n), radix) <= digits_value(s, radix),
    decreases s.len(),
{
    if n == s.len() {
        assert(s.subrange(0, n) =~= s);
    } else {
        assert(s.drop_last().subrange(0, n) =~= s.subrange(0, n));
        lemma_digits_value_prefix(s.drop_last(), radix, n);
        assert(digits_value(s.drop_last(), radix) <= digits_value(s.drop_last(), radix) * radix)
            by (nonlinear_arith)
            requires
                radix >= 1,
        ;
        assert(s.last() == s[s.len() - 1]);
    }
}

/// Reads the number that `data` spells in base `radix`, up to `max`.
pub fn parse_number(data: &[u8], radix: u8, max: u64) -> (r: Option<u64>)
    requires
        2 <= radix <= 10,
    ensures
        match r {
            Some(v) => number_value(data@, radix as nat, max as nat) == Some(v as nat),
            None => number_value(data@, radix as nat, max as nat) is None,
        },
{
    let start: usize = if data.len() > 0 && data[0] == 0x2b {
        1
    } else {
        0
    };
    let ghost digits = unsigned_digits(data@);
    assert(digits =~= data@.subrange(start as int, data@.len() as int));
    if start >= data.len() {
        return None;
    }
    let mut i: usize = start;
    let mut acc: u64 = 0;
    assert(digits.subrange(0, 0) =~= Seq::<u8>::empty());
    while i < data.len()
        invariant
            start <= i <= data@.len(),
            2 <= radix <= 10,
            digits == data@.subrange(start as int, data@.len() as int),
            digits == unsigned_digits(data@),
            all_digits(digits.subrange(0, i - start), radix as nat),
            acc as nat == digits_value(digits.subrange(0, i - start), radix as nat),
            acc <= max,
        decreases data@.len() - i,
    {
        let b = data[i];
        if b < 0x30 || b >= 0x30 + radix {
            assert(digits[i - start] == b);
            return None;
        }
        let ghost upto = digits.subrange(0, i + 1 - start);
        assert(upto.drop_last() =~= digits.subrange(0, i - start));
        assert(upto.last() == b);
        assert(all_digits(upto, radix as nat)) by {
            assert forall|j: int| 0 <= j < upto.len() implies 0x30 <= #[trigger] upto[j] < 0x30
                + radix by {
                if j < upto.len() - 1 {
                    assert(upto[j] == digits.subrange(0, i - start)[j]);
                }
            }
        }
        assert(acc as u128 * radix as u128 <= 0xffff_ffff_ffff_ffff * 10) by (nonlinear_arith)
            requires
                acc <= 0xffff_ffff_ffff_ffff,
                radix <= 10,
        ;
        let wide: u128 = acc as u128 * radix as u128 + (b - 0x30) as u128;
        assert(wide == digits_value(upto, radix as nat));
        if wide > max as u128 {
            proof {
                if all_digits(digits, radix as nat) {
                    lemma_digits_value_prefix(digits, radix as nat, i + 1 - start);
                }
            }
            return None;
        }
        acc = wide as u64;
        i += 1;
    }
    assert(digits.subrange(0, i - start) =~= digits);
    Some(acc)
}

/// The digits of `n` in base 8, the most significant first.
pub open spec fn octal_digits(n: nat) -> Seq<u8>
    decreases n,
{
    if n < 8 {
        seq![(0x30 + n) as u8]
    } else {
        octal_digits(n / 8).push((0x30 + n % 8) as u8)
    }
}

/// `s` with zeros before it up to a width of six.
pub open spec fn zero_padded(s: Seq<u8>) -> Seq<u8> {
    if s.len() >= 6 {
        s
    } else {
        Seq::new((6 - s.len()) as nat, |i: int| 0x30u8) + s
    }
}

/// Appends to `out` the octal digits of `n`, with zeros before them up to a
/// width of six.
pub fn push_octal(out: &mut Vec<u8>, n: u32)
    ensures
        final(out)@ == old(out)@ + zero_padded(octal_digits(n as nat)),
{
    let mut low_first: Vec<u8> = Vec::new();
    let mut rest: u32 = n;
    while rest >= 8
        invariant
            octal_digits(n as nat) == octal_digits(rest as nat) + low_first@.reverse(),
        decreases rest,
    {
        let ghost before = low_first@;
        low_first.push(0x30 + (rest % 8) as u8);
        assert(low_first@.reverse() =~= seq![(0x30 + rest % 8) as u8] + before.reverse());
        assert(octal_digits(rest as nat) =~= octal_digits((rest / 8) as nat) + seq![
            (0x30 + rest % 8) as u8,
        ]);
        rest = rest / 8;
    }
    let ghost before = low_first@;
    low_first.push(0x30 + rest as u8);
    assert(low_first@.reverse() =~= seq![(0x30 + rest) as u8] + before.reverse());
    assert(low_first@.reverse() =~= octal_digits(n as nat));
    let ghost start = out@;
    let mut pad: usize = low_first.len();
    while pad < 6
        invariant
            low_first@.len() <= pad,
            low_first@.len() >= 6 ==> out@ == start,
            low_first@.len() < 6 ==> pad <= 6 && out@ == start + Seq::new(
                (pad - low_first@.len()) as nat,
                |i: int| 0x30u8,
            ),
        decreases 6 - pad,
    {
        out.push(0x30);
        pad += 1;
        assert(out@ =~= start + Seq::new((pad - low_first@.len()) as nat, |i: int| 0x30u8));
    }
    let ghost padded = out@;
    let mut i: usize = low_first.len();
    while i > 0
        invariant
            i <= low_first@.len(),
            out@ == padded + low_first@.reverse().subrange(0, low_first@.len() - i),
        decreases i,
    {
        i -= 1;
        out.push(low_first[i]);
        assert(out@ =~= padded + low_first@.reverse().subrange(0, low_first@.len() - i));
    }
    assert(low_first@.reverse().subrange(0, low_first@.len() as int) =~= low_first@.reverse());
    assert(out@ =~= start + zero_padded(octal_digits(n as nat)));
}

/// Appends the bytes of `src` to `out`.
pub fn push_bytes(out: &mut Vec<u8>, src: &[u8])
    ensures
        final(out)@ == old(out)@ + src@,
{
    let mut i: usize = 0;
    while i < src.len()
        invariant
            i <= src@.len(),
            out@ == old(out)@ + src@.subrange(0, i as int),
        decreases src@.len() - i,
    {
        out.push(src[i]);
        assert(out@ =~= old(out)@ + src@.subrange(0, i + 1));
        i += 1;
    }
    assert(src@.subrange(0, src@.len() as int) =~= src@);
}

} // verus!
