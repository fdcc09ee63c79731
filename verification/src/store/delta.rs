//! Delta-encoded pack entries: the two variable-length integers of the pack
//! format and the copy/insert bytecode.

use vstd::prelude::*;

use crate::bytes::{copy_range, read_u8};
use crate::error::GetError;
use crate::store::pack::{
    entry_header, read_kind_length_obj_header, DeltaKind, ObjectKind, PackedObjectKind,
};
use crate::store::inflate::{asks_new, inflated_stream, stream_data, Inflated, Stream};

verus! {

/// 128 to the power `n`.
pub open spec fn pow128(n: nat) -> nat
    decreases n,
{
    if n == 0 {
        1
    } else {
        128 * pow128((n - 1) as nat)
    }
}

/// The place just past the first byte at or after `at` whose top bit is
/// clear: where a variable-length integer that starts at `at` ends. `None`
/// where every byte from `at` on has its top bit set.
pub open spec fn varint_end(s: Seq<u8>, at: int) -> Option<int>
    decreases s.len() - at,
{
    if at < 0 || at >= s.len() {
        None
    } else if s[at] < 0x80 {
        Some(at + 1)
    } else {
        varint_end(s, at + 1)
    }
}

/// The size that the bytes of `s` encode: the low seven bits of each byte,
/// the first byte least significant.
pub open spec fn size_value(s: Seq<u8>) -> nat
    decreases s.len(),
{
    if s.len() == 0 {
        0
    } else {
        size_value(s.drop_last()) + (s.last() % 128) as nat * pow128((s.len() - 1) as nat)
    }
}

/// The offset that the bytes of `s` encode: the low seven bits of each byte,
/// the first byte most significant, and one added for each byte that
/// another follows.
pub open spec fn offset_value(s: Seq<u8>) -> nat
    decreases s.len(),
{
    if s.len() == 0 {
        0
    } else if s.len() == 1 {
        (s.last() % 128) as nat
    } else {
        (offset_value(s.drop_last()) + 1) * 128 + (s.last() % 128) as nat
    }
}

/// A variable-length integer ends after the place it starts at, within `s`,
/// and every byte before its last has the top bit set.
pub proof fn lemma_varint_end(s: Seq<u8>, at: int)
    requires
        varint_end(s, at) is Some,
    ensures
        0 <= at < varint_end(s, at).unwrap() <= s.len(),
        s[varint_end(s, at).unwrap() - 1] < 0x80,
        forall|j: int| at <= j < varint_end(s, at).unwrap() - 1 ==> s[j] >= 0x80,
    decreases s.len() - at,
{
    if s[at] >= 0x80 {
        lemma_varint_end(s, at + 1);
    }
}

/// A prefix of an encoded size encodes no more than the whole.
pub proof fn lemma_size_value_prefix(s: Seq<u8>, n: int)
    requires
        0 <= n <= s.len(),
    ensures
        size_value(s.subrange(0, n)) <= size_value(s),
    decreases s.len(),
{
    if n == s.len() {
        assert(s.subrange(0, n) =~= s);
    } else {
        assert(s.drop_last().subrange(0, n) =~= s.subrange(0, n));
        lemma_size_value_prefix(s.drop_last(), n);
    }
}

/// A prefix of an encoded offset encodes no more than the whole.
pub proof fn lemma_offset_value_prefix(s: Seq<u8>, n: int)
    requires
        0 <= n <= s.len(),
    ensures
        offset_value(s.subrange(0, n)) <= offset_value(s),
    decreases s.len(),
{
    if n == s.len() {
        assert(s.subrange(0, n) =~= s);
    } else {
        assert(s.drop_last().subrange(0, n) =~= s.subrange(0, n));
        lemma_offset_value_prefix(s.drop_last(), n);
        if s.len() > 1 {
            assert(offset_value(s.drop_last()) <= (offset_value(s.drop_last()) + 1) * 128)
                by (nonlinear_arith);
        }
    }
}

/// Reads the size that starts at `at`: the value and the place after it.
/// `None` where the buffer ends before the size does, or the size does not
/// fit 64 bits.
pub fn size_decode(data: &[u8], at: usize) -> (r: Option<(u64, usize)>)
    ensures
        match r {
            Some((v, end)) => varint_end(data@, at as int) == Some(end as int) && v as nat
                == size_value(data@.subrange(at as int, end as int)),
            None => match varint_end(data@, at as int) {
                Some(end) => size_value(data@.subrange(at as int, end)) > u64::MAX,
                None => true,
            },
        },
{
    if at >= data.len() {
        return None;
    }
    let mut i: usize = at;
    let mut acc: u64 = 0;
    let mut weight: u128 = 1;
    assert(data@.subrange(at as int, at as int) =~= Seq::<u8>::empty());
    loop
        invariant
            at <= i < data@.len(),
            varint_end(data@, at as int) == varint_end(data@, i as int),
            acc as nat == size_value(data@.subrange(at as int, i as int)),
            weight == pow128((i - at) as nat) || (weight > u64::MAX && weight <= pow128(
                (i - at) as nat,
            )),
            1 <= weight <= 0x800_0000_0000_0000_0000,
            data@.len() <= usize::MAX,
        decreases data@.len() - i,
    {
        let b = match read_u8(data, i) {
            Some(b) => b,
            None => { return None; },
        };
        let low: u128 = (b % 128) as u128;
        let ghost upto = data@.subrange(at as int, i + 1);
        assert(upto.drop_last() =~= data@.subrange(at as int, i as int));
        assert(low * weight <= 127 * weight) by (nonlinear_arith)
            requires
                low <= 127,
                weight >= 0,
        ;
        let sum: u128 = acc as u128 + low * weight;
        assert(low * weight <= low * pow128((i - at) as nat)) by (nonlinear_arith)
            requires
                weight <= pow128((i - at) as nat),
                low >= 0,
        ;
        if sum > u64::MAX as u128 {
            proof {
                if varint_end(data@, at as int) is Some {
                    lemma_varint_end(data@, i as int);
                    let end = varint_end(data@, at as int).unwrap();
                    let whole = data@.subrange(at as int, end);
                    assert(whole.subrange(0, i + 1 - at) =~= upto);
                    lemma_size_value_prefix(whole, i + 1 - at);
                }
            }
            return None;
        }
        proof {
            let full = pow128((i - at) as nat);
            if weight != full {
                assert(low == 0) by (nonlinear_arith)
                    requires
                        low * weight <= u64::MAX,
                        weight > u64::MAX,
                        low >= 0,
                ;
                assert(low * weight == 0 && low * full == 0) by (nonlinear_arith)
                    requires
                        low == 0,
                ;
            }
            assert(upto.last() == b);
            assert(upto.len() - 1 == i - at);
            assert(size_value(upto) == acc + low * full);
        }
        acc = sum as u64;
        if b < 0x80 {
            return Some((acc, i + 1));
        }
        if i + 1 >= data.len() {
            assert(varint_end(data@, i + 1) is None);
            return None;
        }
        if weight <= u64::MAX as u128 {
            weight = weight * 128;
        }
        i += 1;
    }
}

/// Reads the offset that starts at `at`: the value and the place after it.
/// `None` where the buffer ends before the offset does, or the offset does
/// not fit 64 bits.
pub fn read_negative_relative_offset(data: &[u8], at: usize) -> (r: Option<(u64, usize)>)
    ensures
        match r {
            Some((v, end)) => varint_end(data@, at as int) == Some(end as int) && v as nat
                == offset_value(data@.subrange(at as int, end as int)),
            None => match varint_end(data@, at as int) {
                Some(end) => offset_value(data@.subrange(at as int, end)) > u64::MAX,
                None => true,
            },
        },
{
    if at >= data.len() {
        return None;
    }
    let first = match read_u8(data, at) {
        Some(b) => b,
        None => { return None; },
    };
    let mut byte: u8 = first;
    let mut acc: u64 = (first % 128) as u64;
    let mut i: usize = at;
    assert(data@.subrange(at as int, at + 1).drop_last() =~= Seq::<u8>::empty());
    while byte >= 0x80
        invariant
            at <= i < data@.len(),
            byte == data@[i as int],
            varint_end(data@, at as int) == varint_end(data@, i as int),
            acc as nat == offset_value(data@.subrange(at as int, i + 1)),
            data@.len() <= usize::MAX,
        decreases data@.len() - i,
    {
        if i + 1 >= data.len() {
            assert(varint_end(data@, i + 1) is None);
            return None;
        }
        let next = match read_u8(data, i + 1) {
            Some(b) => b,
            None => { return None; },
        };
        let ghost upto = data@.subrange(at as int, i + 2);
        assert(upto.drop_last() =~= data@.subrange(at as int, i + 1));
        let wide: u128 = (acc as u128 + 1) * 128 + (next % 128) as u128;
        assert(wide == offset_value(upto));
        if wide > u64::MAX as u128 {
            proof {
                if varint_end(data@, at as int) is Some {
                    lemma_varint_end(data@, i + 1);
                    let end = varint_end(data@, at as int).unwrap();
                    let whole = data@.subrange(at as int, end);
                    assert(whole.subrange(0, i + 2 - at) =~= upto);
                    lemma_offset_value_prefix(whole, i + 2 - at);
                }
            }
            return None;
        }
        acc = wide as u64;
        byte = next;
        i += 1;
    }
    Some((acc, i + 1))
}


/// What a byte of a copy instruction's offset or size weighs: field `k` of
/// the four offset bytes, or of the three size bytes that follow them, is
/// byte `k` of its number, least significant first.
pub open spec fn field_weight(k: nat) -> nat {
    if k == 0 || k == 4 {
        1
    } else if k == 1 || k == 5 {
        0x100
    } else if k == 2 || k == 6 {
        0x1_0000
    } else {
        0x100_0000
    }
}

/// The arguments of a copy instruction, from field `k` on: `flags` holds the
/// presence bits of the fields `k..7`, lowest first, and `p` is the place of
/// the next argument byte. Gives what these fields add to the offset and to
/// the size, and the place after the last of them. `None` where the
/// instructions end before a field that is present.
pub open spec fn copy_fields(ins: Seq<u8>, flags: nat, k: nat, p: int) -> Option<(nat, nat, int)>
    decreases 7 - k,
{
    if k >= 7 {
        Some((0, 0, p))
    } else if flags % 2 == 0 {
        copy_fields(ins, flags / 2, k + 1, p)
    } else if p < 0 || p >= ins.len() {
        None
    } else {
        match copy_fields(ins, flags / 2, k + 1, p + 1) {
            None => None,
            Some((offset, size, end)) => if k < 4 {
                Some((offset + ins[p] as nat * field_weight(k), size, end))
            } else {
                Some((offset, size + ins[p] as nat * field_weight(k), end))
            },
        }
    }
}

/// The arguments of a copy instruction end after its first byte, within
/// the instructions.
pub proof fn lemma_copy_fields(ins: Seq<u8>, flags: nat, k: nat, p: int)
    requires
        copy_fields(ins, flags, k, p) is Some,
    ensures
        p <= copy_fields(ins, flags, k, p).unwrap().2,
        p <= ins.len() ==> copy_fields(ins, flags, k, p).unwrap().2 <= ins.len(),
    decreases 7 - k,
{
    if k < 7 {
        if flags % 2 == 0 {
            lemma_copy_fields(ins, flags / 2, k + 1, p);
        } else {
            lemma_copy_fields(ins, flags / 2, k + 1, p + 1);
        }
    }
}

/// What the instructions of `ins` from `at` on produce against `base`,
/// applied left to right. A byte with the top bit set copies
/// `base[offset..offset + size]`, where a size of zero stands for 0x10000;
/// a byte `n` from 1 to 127 inserts the `n` bytes that follow it; a zero
/// byte is forbidden. `None` where an instruction is forbidden or cut
/// short, or copies from beyond the base.
pub open spec fn delta_output(base: Seq<u8>, ins: Seq<u8>, at: int) -> Option<Seq<u8>>
    decreases ins.len() - at,
    via delta_output_decreases
{
    if at < 0 || at >= ins.len() {
        Some(Seq::empty())
    } else if ins[at] >= 0x80 {
        match copy_fields(ins, (ins[at] % 128) as nat, 0, at + 1) {
            None => None,
            Some((offset, size, end)) => {
                let count: int = if size == 0 {
                    0x10000
                } else {
                    size as int
                };
                if offset + count > base.len() {
                    None
                } else {
                    match delta_output(base, ins, end) {
                        None => None,
                        Some(rest) => Some(base.subrange(offset as int, offset + count) + rest),
                    }
                }
            },
        }
    } else if ins[at] == 0 {
        None
    } else if at + 1 + ins[at] > ins.len() {
        None
    } else {
        match delta_output(base, ins, at + 1 + ins[at]) {
            None => None,
            Some(rest) => Some(ins.subrange(at + 1, at + 1 + ins[at]) + rest),
        }
    }
}

#[via_fn]
proof fn delta_output_decreases(base: Seq<u8>, ins: Seq<u8>, at: int) {
    if 0 <= at < ins.len() && ins[at] >= 0x80 {
        let args = copy_fields(ins, (ins[at] % 128) as nat, 0, at + 1);
        if args is Some {
            lemma_copy_fields(ins, (ins[at] % 128) as nat, 0, at + 1);
            assert(args.unwrap().2 > at);
        }
    }
}

/// Writes `count` bytes of `src`, from `from` on, over those of `dest` from
/// `at` on.
fn write_range(dest: &mut Vec<u8>, at: usize, src: &[u8], from: usize, count: usize)
    requires
        at + count <= old(dest)@.len(),
        from + count <= src@.len(),
    ensures
        final(dest)@.len() == old(dest)@.len(),
        final(dest)@.subrange(0, at as int) == old(dest)@.subrange(0, at as int),
        final(dest)@.subrange(at as int, at + count) == src@.subrange(from as int, from + count),
        final(dest)@.subrange(at + count, old(dest)@.len() as int) == old(dest)@.subrange(
            at + count,
            old(dest)@.len() as int,
        ),
{
    let dest_len = dest.len();
    let src_len = src.len();
    let mut j: usize = 0;
    while j < count
        invariant
            j <= count,
            at + count <= dest@.len() <= usize::MAX,
            from + count <= src@.len() <= usize::MAX,
            dest@.len() == old(dest)@.len(),
            dest@.subrange(0, at as int) == old(dest)@.subrange(0, at as int),
            dest@.subrange(at as int, at + j) == src@.subrange(from as int, from + j),
            dest@.subrange(at + count, dest@.len() as int) == old(dest)@.subrange(
                at + count,
                dest@.len() as int,
            ),
        decreases count - j,
    {
        let ghost before = dest@;
        dest.set(at + j, src[from + j]);
        assert(dest@.subrange(0, at as int) =~= before.subrange(0, at as int));
        assert(dest@.subrange(at as int, at + j + 1) =~= before.subrange(at as int, at + j).push(
            src@[from + j],
        ));
        assert(src@.subrange(from as int, from + j + 1) =~= src@.subrange(from as int, from + j).push(
            src@[from + j],
        ));
        assert(dest@.subrange(at + count, dest@.len() as int) =~= before.subrange(
            at + count,
            dest@.len() as int,
        ));
        j += 1;
    }
}

/// Reads the arguments of the copy instruction at `ip`: its offset, its
/// size as written, and the place after it.
fn read_copy_args(ins: &[u8], ip: usize) -> (r: Option<(u64, u64, usize)>)
    requires
        ip < ins@.len(),
    ensures
        match r {
            Some((offset, size, end)) => copy_fields(ins@, (ins@[ip as int] % 128) as nat, 0, ip + 1)
                == Some((offset as nat, size as nat, end as int)),
            None => copy_fields(ins@, (ins@[ip as int] % 128) as nat, 0, ip + 1) is None,
        },
        r matches Some((offset, size, _)) ==> offset <= 0xffff_ffff && size <= 0xff_ffff,
{
    let mut flags: u8 = ins[ip] % 128;
    let mut k: u8 = 0;
    let mut p: usize = ip + 1;
    let mut offset: u64 = 0;
    let mut size: u64 = 0;
    let mut weight: u64 = 1;
    let ghost whole = copy_fields(ins@, (ins@[ip as int] % 128) as nat, 0, ip + 1);
    while k < 7
        invariant
            k <= 7,
            ip < p <= ins@.len(),
            ins@.len() <= usize::MAX,
            k < 7 ==> weight == field_weight(k as nat),
            offset <= 0xffff_ffff,
            size <= 0xff_ffff,
            k < 4 ==> offset < field_weight(k as nat) && size == 0,
            4 <= k < 7 ==> size < field_weight(k as nat),
            whole == copy_fields(ins@, (ins@[ip as int] % 128) as nat, 0, ip + 1),
            whole == match copy_fields(ins@, flags as nat, k as nat, p as int) {
                None => None,
                Some((o, s, e)) => Some(((offset + o) as nat, (size + s) as nat, e)),
            },
        decreases 7 - k,
    {
        if flags % 2 == 1 {
            if p >= ins.len() {
                return None;
            }
            let b: u64 = ins[p] as u64;
            assert(b * weight <= 255 * weight) by (nonlinear_arith)
                requires
                    b <= 255,
                    weight >= 0,
            ;
            if k < 4 {
                offset = offset + b * weight;
            } else {
                size = size + b * weight;
            }
            p = p + 1;
        }
        flags = flags / 2;
        k = k + 1;
        if k == 4 {
            weight = 1;
        } else if k < 7 {
            weight = weight * 256;
        }
    }
    Some((offset, size, p))
}

/// Applies the instructions `instructions` to `base_buffer` and writes what
/// they produce over `dest_buffer`, which must have the length that the
/// delta declares for its result. Fails where an instruction is forbidden,
/// cut short or copies from beyond the base, and where what is produced is
/// shorter or longer than `dest_buffer`.
pub fn apply_delta(base_buffer: &[u8], dest_buffer: &mut Vec<u8>, instructions: &[u8]) -> (r:
    Result<(), GetError>)
    ensures
        final(dest_buffer)@.len() == old(dest_buffer)@.len(),
        r is Ok <==> delta_output(base_buffer@, instructions@, 0) is Some && delta_output(
            base_buffer@,
            instructions@,
            0,
        ).unwrap().len() == old(dest_buffer)@.len(),
        r is Ok ==> Some(final(dest_buffer)@) == delta_output(base_buffer@, instructions@, 0),
        r matches Err(e) ==> e == GetError::DeltaMismatch,
{
    let mut ip: usize = 0;
    let mut dp: usize = 0;
    let ghost whole = delta_output(base_buffer@, instructions@, 0);
    assert(dest_buffer@.subrange(0, 0) =~= Seq::<u8>::empty());
    while ip < instructions.len()
        invariant
            ip <= instructions@.len(),
            dp <= dest_buffer@.len(),
            dest_buffer@.len() == old(dest_buffer)@.len(),
            whole == delta_output(base_buffer@, instructions@, 0),
            whole == match delta_output(base_buffer@, instructions@, ip as int) {
                None => None,
                Some(rest) => Some(dest_buffer@.subrange(0, dp as int) + rest),
            },
        decreases instructions@.len() - ip,
    {
        let cmd = instructions[ip];
        let ghost done = dest_buffer@.subrange(0, dp as int);
        if cmd >= 0x80 {
            let (offset, size, end) = match read_copy_args(instructions, ip) {
                Some(args) => args,
                None => { return Err(GetError::DeltaMismatch); },
            };
            proof {
                lemma_copy_fields(instructions@, (cmd % 128) as nat, 0, ip + 1);
            }
            let count: u64 = if size == 0 {
                0x10000
            } else {
                size
            };
            if offset + count > base_buffer.len() as u64 {
                return Err(GetError::DeltaMismatch);
            }
            if count > (dest_buffer.len() - dp) as u64 {
                return Err(GetError::DeltaMismatch);
            }
            write_range(dest_buffer, dp, base_buffer, offset as usize, count as usize);
            proof {
                let piece = base_buffer@.subrange(offset as int, offset + count);
                assert(dest_buffer@.subrange(0, dp + count) =~= done + piece) by {
                    assert(dest_buffer@.subrange(0, dp + count) =~= dest_buffer@.subrange(
                        0,
                        dp as int,
                    ) + dest_buffer@.subrange(dp as int, dp + count));
                }
                let after = delta_output(base_buffer@, instructions@, end as int);
                if after is Some {
                    assert((done + piece) + after.unwrap() =~= done + (piece + after.unwrap()));
                }
            }
            dp = dp + count as usize;
            ip = end;
        } else if cmd == 0 {
            return Err(GetError::DeltaMismatch);
        } else {
            let count: usize = cmd as usize;
            if count > instructions.len() - ip - 1 {
                return Err(GetError::DeltaMismatch);
            }
            if count > dest_buffer.len() - dp {
                return Err(GetError::DeltaMismatch);
            }
            write_range(dest_buffer, dp, instructions, ip + 1, count);
            proof {
                let piece = instructions@.subrange(ip + 1, ip + 1 + count);
                assert(dest_buffer@.subrange(0, dp + count) =~= done + piece) by {
                    assert(dest_buffer@.subrange(0, dp + count) =~= dest_buffer@.subrange(
                        0,
                        dp as int,
                    ) + dest_buffer@.subrange(dp as int, dp + count));
                }
                let after = delta_output(base_buffer@, instructions@, ip + 1 + count);
                if after is Some {
                    assert((done + piece) + after.unwrap() =~= done + (piece + after.unwrap()));
                }
            }
            dp = dp + count;
            ip = ip + 1 + count;
        }
    }
    if dp != dest_buffer.len() {
        assert(dest_buffer@.subrange(0, dp as int) + Seq::<u8>::empty() =~= dest_buffer@.subrange(
            0,
            dp as int,
        ));
        return Err(GetError::DeltaMismatch);
    }
    assert(dest_buffer@.subrange(0, dp as int) + Seq::<u8>::empty() =~= dest_buffer@);
    Ok(())
}


/// The most deltas that may stand between an entry and its base.
pub const MAX_DELTA_DEPTH: usize = 50;

/// One delta of a chain, as its inflated data gives it.
pub struct DeltaFrame {
    /// The length that the delta declares for its base.
    pub base_size: u64,
    /// The length that the delta declares for what it produces.
    pub result_size: u64,
    /// The copy and insert instructions.
    pub instructions: Seq<u8>,
}

/// A delta read from a pack, waiting for its base.
#[derive(Debug)]
pub struct DeltaStackItem {
    pub base_size: u64,
    pub result_size: u64,
    pub instructions: Vec<u8>,
}

impl View for DeltaStackItem {
    type V = DeltaFrame;

    open spec fn view(&self) -> DeltaFrame {
        DeltaFrame {
            base_size: self.base_size,
            result_size: self.result_size,
            instructions: self.instructions@,
        }
    }
}

/// The views of the items of a stack, bottom first.
pub open spec fn frames_of(stack: Seq<DeltaStackItem>) -> Seq<DeltaFrame> {
    Seq::new(stack.len(), |i: int| stack[i]@)
}

/// The delta that inflated data holds: the base's size, the result's size,
/// then the instructions to the end. `None` where a size is cut short or
/// does not fit 64 bits.
pub open spec fn delta_frame(payload: Seq<u8>) -> Option<DeltaFrame> {
    match varint_end(payload, 0) {
        None => None,
        Some(mid) => match varint_end(payload, mid) {
            None => None,
            Some(end) => if size_value(payload.subrange(0, mid)) > u64::MAX || size_value(
                payload.subrange(mid, end),
            ) > u64::MAX {
                None
            } else {
                Some(
                    DeltaFrame {
                        base_size: size_value(payload.subrange(0, mid)) as u64,
                        result_size: size_value(payload.subrange(mid, end)) as u64,
                        instructions: payload.skip(end),
                    },
                )
            },
        },
    }
}

/// Splits the inflated data of a delta into its two sizes and its
/// instructions.
pub fn parse_delta_payload(payload: &[u8]) -> (r: Option<DeltaStackItem>)
    ensures
        match r {
            Some(item) => delta_frame(payload@) == Some(item@),
            None => delta_frame(payload@) is None,
        },
{
    let (base_size, mid) = match size_decode(payload, 0) {
        Some(pair) => pair,
        None => { return None; },
    };
    let (result_size, end) = match size_decode(payload, mid) {
        Some(pair) => pair,
        None => { return None; },
    };
    proof {
        lemma_varint_end(payload@, mid as int);
        assert(payload@.subrange(end as int, payload@.len() as int) =~= payload@.skip(end as int));
    }
    let instructions = copy_range(payload, end, payload.len());
    Some(DeltaStackItem { base_size, result_size, instructions })
}

/// The deltas from the entry at `offset` down to the first entry that is no
/// delta, outermost first, with that entry's place; `depth` deltas lie
/// above `offset`. Each delta by offset names its base by the distance back
/// from its own start, which must be at least one and at most `offset`.
/// Refused where a header or a distance is malformed, a delta names its
/// base by id, the chain is longer than `MAX_DELTA_DEPTH`, a delta declares
/// a length that no buffer can have, or its data does not inflate to the
/// declared length or does not hold two sizes.
pub open spec fn delta_chain(
    pack: Seq<u8>,
    table: Seq<Inflated>,
    k: usize,
    offset: int,
    depth: nat,
) -> Result<(Seq<DeltaFrame>, int), GetError>
    decreases MAX_DELTA_DEPTH - depth,
{
    match entry_header(pack, offset) {
        Err(e) => Err(e),
        Ok((PackedObjectKind::Object(_), _, _)) => Ok((Seq::empty(), offset)),
        Ok((PackedObjectKind::Delta(DeltaKind::Reference), _, _)) => Err(
            GetError::UnsupportedFormat,
        ),
        Ok((PackedObjectKind::Delta(DeltaKind::Offset), length, end)) => {
            if depth >= MAX_DELTA_DEPTH {
                Err(GetError::DeltaMismatch)
            } else {
                match varint_end(pack, end) {
                    None => Err(GetError::MalformedHeader),
                    Some(data_at) => {
                        let back = offset_value(pack.subrange(end, data_at));
                        if back == 0 || back > offset || length > isize::MAX {
                            Err(GetError::MalformedHeader)
                        } else {
                            match stream_data(
                                table,
                                Stream::Packed {
                                    pack: k,
                                    at: data_at as usize,
                                    len: length as usize,
                                },
                            ) {
                                Err(e) => Err(e),
                                Ok(payload) => match delta_frame(payload) {
                                    None => Err(GetError::MalformedHeader),
                                    Some(frame) => match delta_chain(
                                        pack,
                                        table,
                                        k,
                                        offset - back,
                                        depth + 1,
                                    ) {
                                        Err(e) => Err(e),
                                        Ok((rest, base_at)) => Ok((seq![frame] + rest, base_at)),
                                    },
                                },
                            }
                        }
                    },
                }
            }
        },
    }
}

/// What the deltas of `frames` make of `base`, the last applied first. Each
/// must produce exactly the length it declares, which must be one that a
/// buffer can have.
pub open spec fn apply_frames(base: Seq<u8>, frames: Seq<DeltaFrame>) -> Result<Seq<u8>, GetError>
    decreases frames.len(),
{
    if frames.len() == 0 {
        Ok(base)
    } else {
        match delta_output(base, frames.last().instructions, 0) {
            Some(out) if out.len() == frames.last().result_size && out.len() <= isize::MAX =>
                apply_frames(out, frames.drop_last()),
            _ => Err(GetError::DeltaMismatch),
        }
    }
}

/// What the chain `frames` gives on the entry at `base_at`, which must be
/// an object whose declared length is the base size of the last frame and
/// whose data inflates to that length: the object's kind, and the deltas
/// applied to its data.
pub open spec fn chain_result(
    pack: Seq<u8>,
    table: Seq<Inflated>,
    k: usize,
    base_at: int,
    frames: Seq<DeltaFrame>,
) -> Result<(ObjectKind, Seq<u8>), GetError> {
    match entry_header(pack, base_at) {
        Ok((PackedObjectKind::Object(kind), length, end)) => match chain_apply(
            table,
            k,
            length,
            end,
            frames,
        ) {
            Err(e) => Err(e),
            Ok(out) => Ok((kind, out)),
        },
        Ok(_) => Err(GetError::MalformedHeader),
        Err(e) => Err(e),
    }
}

/// What the chain `frames` makes of the object whose header declares
/// `length` and whose data starts at `end`. There must be a frame, the
/// last frame's base size must be `length`, and the data must inflate to
/// that length.
pub open spec fn chain_apply(
    table: Seq<Inflated>,
    k: usize,
    length: u64,
    end: int,
    frames: Seq<DeltaFrame>,
) -> Result<Seq<u8>, GetError> {
    if frames.len() == 0 {
        Err(GetError::MalformedHeader)
    } else if length != frames.last().base_size {
        Err(GetError::DeltaMismatch)
    } else if length > isize::MAX {
        Err(GetError::MalformedHeader)
    } else {
        match stream_data(table, Stream::Packed { pack: k, at: end as usize, len: length as usize }) {
            Err(e) => Err(e),
            Ok(base) => apply_frames(base, frames),
        }
    }
}

/// The object that the delta at `offset` stands for: the kind of the base
/// at the end of its chain, and the base's data with the deltas applied
/// from the innermost out. An entry that is no delta is refused.
pub open spec fn resolved_delta(pack: Seq<u8>, table: Seq<Inflated>, k: usize, offset: int) -> Result<
    (ObjectKind, Seq<u8>),
    GetError,
> {
    match delta_chain(pack, table, k, offset, 0) {
        Err(e) => Err(e),
        Ok((frames, base_at)) => chain_result(pack, table, k, base_at, frames),
    }
}

/// A chain of deltas is bounded and runs backwards: it ends at an object
/// that lies before every delta of it, and holds no more deltas than the
/// depth allows.
pub proof fn lemma_delta_chain(
    pack: Seq<u8>,
    table: Seq<Inflated>,
    k: usize,
    offset: int,
    depth: nat,
)
    requires
        delta_chain(pack, table, k, offset, depth) is Ok,
    ensures
        entry_header(pack, delta_chain(pack, table, k, offset, depth).unwrap().1) is Ok,
        entry_header(pack, delta_chain(pack, table, k, offset, depth).unwrap().1).unwrap().0
            is Object,
        0 <= delta_chain(pack, table, k, offset, depth).unwrap().1 <= offset,
        delta_chain(pack, table, k, offset, depth).unwrap().0.len() > 0 ==> depth + delta_chain(
            pack,
            table,
            k,
            offset,
            depth,
        ).unwrap().0.len() <= MAX_DELTA_DEPTH && delta_chain(
            pack,
            table,
            k,
            offset,
            depth,
        ).unwrap().1 < offset,
    decreases MAX_DELTA_DEPTH - depth,
{
    match entry_header(pack, offset) {
        Ok((PackedObjectKind::Delta(DeltaKind::Offset), length, end)) => {
            let data_at = varint_end(pack, end).unwrap();
            let back = offset_value(pack.subrange(end, data_at));
            lemma_delta_chain(pack, table, k, offset - back, depth + 1);
        },
        _ => {},
    }
}

/// Every delta of a chain that applies produces the length it declares:
/// what comes out has the length that the outermost delta declares.
pub proof fn lemma_apply_frames_len(base: Seq<u8>, frames: Seq<DeltaFrame>)
    requires
        frames.len() > 0,
        apply_frames(base, frames) is Ok,
    ensures
        apply_frames(base, frames).unwrap().len() == frames[0].result_size,
    decreases frames.len(),
{
    let out = delta_output(base, frames.last().instructions, 0).unwrap();
    assert(apply_frames(base, frames) == apply_frames(out, frames.drop_last()));
    if frames.len() > 1 {
        lemma_apply_frames_len(out, frames.drop_last());
        assert(frames.drop_last()[0] == frames[0]);
    } else {
        assert(frames.drop_last().len() == 0);
        assert(frames.last() == frames[0]);
    }
}

/// Delta reconstruction gives the length that the delta asked for
/// declares: what a resolved delta rebuilds is as long as the result size
/// of the outermost delta of its chain.
pub proof fn lemma_resolved_delta_len(pack: Seq<u8>, table: Seq<Inflated>, k: usize, offset: int)
    requires
        resolved_delta(pack, table, k, offset) is Ok,
    ensures
        delta_chain(pack, table, k, offset, 0) is Ok,
        delta_chain(pack, table, k, offset, 0).unwrap().0.len() > 0,
        resolved_delta(pack, table, k, offset).unwrap().1.len() == delta_chain(
            pack,
            table,
            k,
            offset,
            0,
        ).unwrap().0[0].result_size,
{
    let (frames, base_at) = delta_chain(pack, table, k, offset, 0).unwrap();
    match entry_header(pack, base_at) {
        Ok((PackedObjectKind::Object(kind), length, end)) => {
            let base = stream_data(
                table,
                Stream::Packed { pack: k, at: end as usize, len: length as usize },
            ).unwrap();
            lemma_apply_frames_len(base, frames);
        },
        _ => {},
    }
}

/// Applies the deltas of `frames`, the last first, to the data of the
/// object whose header, read at the end of the chain, gave `length` and `end`.
fn apply_chain(
    table: &Vec<Inflated>,
    k: usize,
    length: u64,
    end: usize,
    frames: Vec<DeltaStackItem>,
) -> (r: Result<Vec<u8>, GetError>)
    ensures
        match r {
            Ok(out) => chain_apply(table@, k, length, end as int, frames_of(frames@)) matches Ok(v)
                && v == out@,
            Err(e) => chain_apply(table@, k, length, end as int, frames_of(frames@)) matches Err(f)
                && f == e,
        },
{
    let mut stack = frames;
    if stack.len() == 0 {
        return Err(GetError::MalformedHeader);
    }
    if length != stack[stack.len() - 1].base_size {
        return Err(GetError::DeltaMismatch);
    }
    if length > isize::MAX as u64 {
        return Err(GetError::MalformedHeader);
    }
    let stream = Stream::Packed { pack: k, at: end, len: length as usize };
    let mut base: Vec<u8> = match inflated_stream(table, stream) {
        Ok(data) => copy_range(data.as_slice(), 0, data.len()),
        Err(e) => { return Err(e); },
    };
    assert(base@ =~= stream_data(table@, stream).unwrap());
    let ghost whole = chain_apply(table@, k, length, end as int, frames_of(frames@));
    while stack.len() > 0
        invariant
            whole == chain_apply(table@, k, length, end as int, frames_of(frames@)),
            whole == apply_frames(base@, frames_of(stack@)),
        decreases stack@.len(),
    {
        let ghost before = frames_of(stack@);
        let item = stack.pop().unwrap();
        assert(before.last() == item@);
        assert(before.drop_last() =~= frames_of(stack@));
        if item.result_size > isize::MAX as u64 {
            return Err(GetError::DeltaMismatch);
        }
        let mut dest: Vec<u8> = vec![0u8; item.result_size as usize];
        match apply_delta(base.as_slice(), &mut dest, item.instructions.as_slice()) {
            Ok(()) => {},
            Err(e) => { return Err(e); },
        }
        base = dest;
    }
    Ok(base)
}

/// Resolves the delta at `offset` of the pack `pack`, which is pack
/// `pack_index` of the store that `inflated` belongs to: follows the chain
/// of deltas down to an object and applies them to the object's data from
/// the innermost out. Gives the object's kind and the data rebuilt, whose
/// length is what the delta at `offset` declares. Where a stream of the
/// chain is not inflated yet, it names the first such stream.
pub fn resolve_delta(pack: &[u8], inflated: &Vec<Inflated>, pack_index: usize, offset: usize) -> (r:
    Result<(PackedObjectKind, Vec<u8>), GetError>)
    ensures
        match r {
            Ok((kind, out)) => resolved_delta(pack@, inflated@, pack_index, offset as int) matches Ok(
                (k, v),
            ) && kind == PackedObjectKind::Object(k) && v == out@,
            Err(e) => resolved_delta(pack@, inflated@, pack_index, offset as int) matches Err(f)
                && f == e,
        },
        r matches Ok((_, out)) ==> delta_chain(pack@, inflated@, pack_index, offset as int, 0)
            matches Ok((frames, _)) && frames.len() > 0 && out@.len() == frames[0].result_size,
{
    let mut stack: Vec<DeltaStackItem> = Vec::new();
    let mut cur: usize = offset;
    let ghost whole = delta_chain(pack@, inflated@, pack_index, offset as int, 0);
    assert(frames_of(stack@) + Seq::<DeltaFrame>::empty() =~= Seq::<DeltaFrame>::empty());
    loop
        invariant
            stack@.len() <= MAX_DELTA_DEPTH,
            whole == delta_chain(pack@, inflated@, pack_index, offset as int, 0),
            whole == match delta_chain(pack@, inflated@, pack_index, cur as int, stack@.len()) {
                Err(e) => Err(e),
                Ok((rest, base_at)) => Ok((frames_of(stack@) + rest, base_at)),
            },
        decreases MAX_DELTA_DEPTH - stack@.len(),
    {
        let (kind, length, end) = match read_kind_length_obj_header(pack, cur) {
            Ok(header) => header,
            Err(e) => { return Err(e); },
        };
        proof {
            lemma_varint_end(pack@, cur as int);
        }
        match kind {
            PackedObjectKind::Object(k) => {
                proof {
                    assert(frames_of(stack@) + Seq::<DeltaFrame>::empty() =~= frames_of(stack@));
                }
                let ghost frames = frames_of(stack@);
                return match apply_chain(inflated, pack_index, length, end, stack) {
                    Ok(out) => {
                        proof {
                            let base = stream_data(
                                inflated@,
                                Stream::Packed { pack: pack_index, at: end, len: length as usize },
                            ).unwrap();
                            lemma_apply_frames_len(base, frames);
                            assert(frames[0] == whole.unwrap().0[0]);
                        }
                        Ok((PackedObjectKind::Object(k), out))
                    },
                    Err(e) => Err(e),
                };
            },
            PackedObjectKind::Delta(DeltaKind::Reference) => {
                return Err(GetError::UnsupportedFormat);
            },
            PackedObjectKind::Delta(DeltaKind::Offset) => {
                if stack.len() >= MAX_DELTA_DEPTH {
                    return Err(GetError::DeltaMismatch);
                }
                let (back, data_at) = match read_negative_relative_offset(pack, end) {
                    Some(pair) => pair,
                    None => { return Err(GetError::MalformedHeader); },
                };
                proof {
                    lemma_varint_end(pack@, end as int);
                }
                if back == 0 || back > cur as u64 || length > isize::MAX as u64 {
                    return Err(GetError::MalformedHeader);
                }
                let payload = match inflated_stream(
                    inflated,
                    Stream::Packed { pack: pack_index, at: data_at, len: length as usize },
                ) {
                    Ok(data) => data,
                    Err(e) => { return Err(e); },
                };
                let item = match parse_delta_payload(payload.as_slice()) {
                    Some(item) => item,
                    None => { return Err(GetError::MalformedHeader); },
                };
                let ghost before = frames_of(stack@);
                let ghost frame = item@;
                stack.push(item);
                proof {
                    assert(frames_of(stack@) =~= before + seq![frame]);
                    let below = delta_chain(pack@, inflated@, pack_index, cur - back, stack@.len());
                    if below is Ok {
                        assert((before + seq![frame]) + below.unwrap().0 =~= before + (seq![frame]
                            + below.unwrap().0));
                    }
                }
                cur = cur - back as usize;
            },
        }
    }
}

/// A delta that cannot be resolved yet asks for a stream that has no
/// entry.
pub proof fn lemma_delta_chain_asks_new(
    pack: Seq<u8>,
    table: Seq<Inflated>,
    k: usize,
    offset: int,
    depth: nat,
)
    ensures
        delta_chain(pack, table, k, offset, depth) matches Err(e) ==> asks_new(table, e),
    decreases MAX_DELTA_DEPTH - depth,
{
    match entry_header(pack, offset) {
        Ok((PackedObjectKind::Delta(DeltaKind::Offset), length, end)) => {
            if depth < MAX_DELTA_DEPTH && varint_end(pack, end) is Some {
                let data_at = varint_end(pack, end).unwrap();
                let back = offset_value(pack.subrange(end, data_at));
                lemma_delta_chain_asks_new(pack, table, k, offset - back, depth + 1);
            }
        },
        _ => {},
    }
}

/// Applying deltas asks for no stream.
pub proof fn lemma_apply_frames_asks_none(base: Seq<u8>, frames: Seq<DeltaFrame>)
    ensures
        apply_frames(base, frames) matches Err(e) ==> e == GetError::DeltaMismatch,
    decreases frames.len(),
{
    if frames.len() > 0 {
        match delta_output(base, frames.last().instructions, 0) {
            Some(out) => {
                lemma_apply_frames_asks_none(out, frames.drop_last());
            },
            None => {},
        }
    }
}

/// A delta that cannot be resolved yet asks for a stream that has no
/// entry.
pub proof fn lemma_resolved_delta_asks_new(pack: Seq<u8>, table: Seq<Inflated>, k: usize, offset: int)
    ensures
        resolved_delta(pack, table, k, offset) matches Err(e) ==> asks_new(table, e),
{
    lemma_delta_chain_asks_new(pack, table, k, offset, 0);
    match delta_chain(pack, table, k, offset, 0) {
        Ok((frames, base_at)) => {
            match entry_header(pack, base_at) {
                Ok((PackedObjectKind::Object(kind), length, end)) => {
                    let stream = Stream::Packed { pack: k, at: end as usize, len: length as usize };
                    match stream_data(table, stream) {
                        Ok(base) => {
                            lemma_apply_frames_asks_none(base, frames);
                        },
                        Err(_) => {},
                    }
                },
                _ => {},
            }
        },
        Err(_) => {},
    }
}

} // verus!
