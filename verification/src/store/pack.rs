//! Pack files and their indexes.

use vstd::prelude::*;

use vstd::string::StringSliceAdditionalSpecFns;

use crate::bytes::{be_at, read_u32_be, read_u64_be, read_u8};
use crate::error::GetError;
use crate::ident::{has_prefix, ObjectId};
use crate::store::delta::{resolve_delta, resolved_delta};
use crate::store::{
    body_of, parse_object, GitObject, GitObjectData, GitObjectStore, ObjectView, PackFile,
    RawObject,
};
use crate::text::bytes_eq;
use crate::bytes::copy_range;
use crate::store::inflate::{asks_new, inflated_stream, stream_data, Inflated, Stream};
use crate::store::delta::{size_decode, size_value, varint_end};

verus! {

/// How a deltified entry names its base.
#[derive(Clone, Copy, Debug, PartialEq, Eq, Structural)]
pub enum DeltaKind {
    /// By the distance back to the base's entry in the same pack.
    Offset,
    /// By the base's id.
    Reference,
}

/// The four kinds of object.
#[derive(Clone, Copy, Debug, PartialEq, Eq, Structural)]
pub enum ObjectKind {
    Commit,
    Tree,
    Blob,
    Tag,
}

/// What a pack entry holds: an object whole, or a delta against another.
#[derive(Clone, Copy, Debug, PartialEq, Eq, Structural)]
pub enum PackedObjectKind {
    Object(ObjectKind),
    Delta(DeltaKind),
}

/// The kind that the three type bits of an entry's first byte stand for.
pub open spec fn kind_of_code(code: int) -> Option<PackedObjectKind> {
    if code == 1 {
        Some(PackedObjectKind::Object(ObjectKind::Commit))
    } else if code == 2 {
        Some(PackedObjectKind::Object(ObjectKind::Tree))
    } else if code == 3 {
        Some(PackedObjectKind::Object(ObjectKind::Blob))
    } else if code == 4 {
        Some(PackedObjectKind::Object(ObjectKind::Tag))
    } else if code == 6 {
        Some(PackedObjectKind::Delta(DeltaKind::Offset))
    } else if code == 7 {
        Some(PackedObjectKind::Delta(DeltaKind::Reference))
    } else {
        None
    }
}

/// The header of the pack entry at `at`: its kind, the length it declares
/// for its inflated data, and the place after the header. Bits 6 to 4 of
/// the first byte are the kind and its low four bits the low bits of the
/// length; while a byte has its top bit set, another follows with seven
/// more bits. Refused where the kind is none of the six, the pack ends
/// inside the header, or the length does not fit 64 bits.
pub open spec fn entry_header(s: Seq<u8>, at: int) -> Result<(PackedObjectKind, u64, int), GetError> {
    if at < 0 || at >= s.len() {
        Err(GetError::MalformedHeader)
    } else {
        match (kind_of_code((s[at] as int / 16) % 8), varint_end(s, at)) {
            (Some(kind), Some(end)) => {
                let length = (s[at] % 16) as nat + 16 * size_value(s.subrange(at + 1, end));
                if length > u64::MAX {
                    Err(GetError::MalformedHeader)
                } else {
                    Ok((kind, length as u64, end))
                }
            },
            _ => Err(GetError::MalformedHeader),
        }
    }
}

/// Reads the header of the pack entry at `at`: its kind, its declared
/// length, and the place after the header.
pub fn read_kind_length_obj_header(data: &[u8], at: usize) -> (r: Result<
    (PackedObjectKind, u64, usize),
    GetError,
>)
    ensures
        match r {
            Ok(header) => entry_header(data@, at as int) matches Ok(h) && h == (
                header.0,
                header.1,
                header.2 as int,
            ),
            Err(e) => entry_header(data@, at as int) matches Err(f) && f == e,
        },
{
    if at >= data.len() {
        return Err(GetError::MalformedHeader);
    }
    let first = match read_u8(data, at) {
        Some(b) => b,
        None => { return Err(GetError::MalformedHeader); },
    };
    let code: u8 = (first / 16) % 8;
    let kind = if code == 1 {
        PackedObjectKind::Object(ObjectKind::Commit)
    } else if code == 2 {
        PackedObjectKind::Object(ObjectKind::Tree)
    } else if code == 3 {
        PackedObjectKind::Object(ObjectKind::Blob)
    } else if code == 4 {
        PackedObjectKind::Object(ObjectKind::Tag)
    } else if code == 6 {
        PackedObjectKind::Delta(DeltaKind::Offset)
    } else if code == 7 {
        PackedObjectKind::Delta(DeltaKind::Reference)
    } else {
        return Err(GetError::MalformedHeader);
    };
    let low: u64 = (first % 16) as u64;
    if first < 0x80 {
        assert(data@.subrange(at + 1, at + 1) =~= Seq::<u8>::empty());
        return Ok((kind, low, at + 1));
    }
    match size_decode(data, at + 1) {
        Some((rest, end)) => {
            let wide: u128 = low as u128 + 16 * (rest as u128);
            if wide > u64::MAX as u128 {
                Err(GetError::MalformedHeader)
            } else {
                Ok((kind, wide as u64, end))
            }
        },
        None => Err(GetError::MalformedHeader),
    }
}


/// The four bytes `\377tOc` that open a pack index of version 2 or later.
pub const PACK_IDX_MAGIC: u32 = 0xff744f63;

/// Where each object of one pack starts in it: a mapping from the ids of a
/// pack index to their offsets, kept as a list in which no id stands
/// twice. The ids come in the order in which the index first names them;
/// where the index names an id more than once, its last offset counts.
#[derive(Debug)]
pub struct GitPackIdx {
    pub locations: Vec<(ObjectId, u64)>,
}

/// The entries of an index as pairs of an id's bytes and an offset.
pub open spec fn entries_of(locations: Seq<(ObjectId, u64)>) -> Seq<(Seq<u8>, u64)> {
    Seq::new(locations.len(), |i: int| (locations[i].0@, locations[i].1))
}

impl View for GitPackIdx {
    type V = Seq<(Seq<u8>, u64)>;

    open spec fn view(&self) -> Seq<(Seq<u8>, u64)> {
        entries_of(self.locations@)
    }
}

/// No id stands twice in `entries`.
pub open spec fn distinct_ids(entries: Seq<(Seq<u8>, u64)>) -> bool {
    forall|i: int, j: int| 0 <= i < j < entries.len() ==> entries[i].0 != entries[j].0
}

/// The place of the first entry at or after `from` whose id is `id`, or
/// the number of entries where there is none.
pub open spec fn entry_place(entries: Seq<(Seq<u8>, u64)>, id: Seq<u8>, from: int) -> int
    decreases entries.len() - from,
{
    if from < 0 || from >= entries.len() {
        entries.len() as int
    } else if entries[from].0 == id {
        from
    } else {
        entry_place(entries, id, from + 1)
    }
}

/// `entries` with `id` put at `offset`: the entry of `id` takes the new
/// offset, or, where there is none, a new entry is added at the end.
pub open spec fn with_entry(entries: Seq<(Seq<u8>, u64)>, id: Seq<u8>, offset: u64) -> Seq<
    (Seq<u8>, u64),
> {
    let at = entry_place(entries, id, 0);
    if at < entries.len() {
        entries.update(at, (id, offset))
    } else {
        entries.push((id, offset))
    }
}

/// The mapping that the records of an index make: each record is put in
/// turn, so a later record of an id takes the place of an earlier one.
pub open spec fn merged(records: Seq<(Seq<u8>, u64)>) -> Seq<(Seq<u8>, u64)>
    decreases records.len(),
{
    if records.len() == 0 {
        Seq::empty()
    } else {
        with_entry(merged(records.drop_last()), records.last().0, records.last().1)
    }
}

/// `entry_place` lies between `from` and the end, and no entry before it
/// has the id.
pub proof fn lemma_entry_place(entries: Seq<(Seq<u8>, u64)>, id: Seq<u8>, from: int)
    requires
        0 <= from <= entries.len(),
    ensures
        from <= entry_place(entries, id, from) <= entries.len(),
        entry_place(entries, id, from) < entries.len() ==> entries[entry_place(
            entries,
            id,
            from,
        )].0 == id,
        forall|j: int| from <= j < entry_place(entries, id, from) ==> entries[j].0 != id,
    decreases entries.len() - from,
{
    if from < entries.len() && entries[from].0 != id {
        lemma_entry_place(entries, id, from + 1);
    }
}

/// Putting an id keeps the ids distinct.
pub proof fn lemma_with_entry_distinct(entries: Seq<(Seq<u8>, u64)>, id: Seq<u8>, offset: u64)
    requires
        distinct_ids(entries),
    ensures
        distinct_ids(with_entry(entries, id, offset)),
{
    lemma_entry_place(entries, id, 0);
    let at = entry_place(entries, id, 0);
    let after = with_entry(entries, id, offset);
    assert forall|i: int, j: int| 0 <= i < j < after.len() implies after[i].0 != after[j].0 by {
        if at < entries.len() {
            assert(after[i].0 == entries[i].0);
            assert(after[j].0 == entries[j].0);
        } else if j < entries.len() {
            assert(after[i] == entries[i] && after[j] == entries[j]);
        } else {
            assert(after[i] == entries[i]);
        }
    }
}

/// An index names each object once: no id stands twice in the mapping
/// that its records make.
pub proof fn lemma_merged_distinct(records: Seq<(Seq<u8>, u64)>)
    ensures
        distinct_ids(merged(records)),
    decreases records.len(),
{
    if records.len() > 0 {
        lemma_merged_distinct(records.drop_last());
        lemma_with_entry_distinct(merged(records.drop_last()), records.last().0, records.last().1);
    }
}

/// The offset that `entries` gives for `id`: that of the last entry with
/// this id.
pub open spec fn idx_lookup(entries: Seq<(Seq<u8>, u64)>, id: Seq<u8>) -> Option<u64>
    decreases entries.len(),
{
    if entries.len() == 0 {
        None
    } else if entries.last().0 == id {
        Some(entries.last().1)
    } else {
        idx_lookup(entries.drop_last(), id)
    }
}

/// An index of version 1: 256 fan-out words, the last of which is the
/// number of records, then one record of a 4-byte offset and a 20-byte id
/// for each object. Gives the mapping that the records make. `None` where
/// the file is shorter than that.
pub open spec fn idx_v1(s: Seq<u8>) -> Option<Seq<(Seq<u8>, u64)>> {
    let count = be_at(s, 1020, 4);
    if s.len() < 1024 || s.len() < 1024 + 24 * count {
        None
    } else {
        Some(
            merged(
                Seq::new(
                    count,
                    |i: int|
                        (s.subrange(1028 + 24 * i, 1048 + 24 * i), be_at(s, 1024 + 24 * i, 4) as u64),
                ),
            ),
        )
    }
}

/// The offset of object `i` of a version 2 index with `count` objects. A
/// 4-byte entry with its top bit clear is the offset; with it set, the
/// other 31 bits number an entry of the table of 8-byte offsets that
/// follows. `None` where the file ends before that entry does.
pub open spec fn idx_v2_offset(s: Seq<u8>, count: nat, i: int) -> Option<u64> {
    let word = be_at(s, 1032 + 24 * count + 4 * i, 4);
    if word < 0x8000_0000 {
        Some(word as u64)
    } else {
        let wide_at = 1032 + 28 * count + 8 * (word - 0x8000_0000);
        if wide_at + 8 <= s.len() {
            Some(be_at(s, wide_at, 8) as u64)
        } else {
            None
        }
    }
}

/// An index of version 2: after the 8 bytes of magic and version, 256
/// fan-out words, the last of which is the number of objects; then the
/// ids, 20 bytes each; a 4-byte checksum for each, which is not read; and
/// a 4-byte offset entry for each. Gives the mapping that the ids make
/// with their offsets. `None` where the file is shorter than that, or an
/// offset entry numbers an 8-byte entry that the file does not hold.
pub open spec fn idx_v2(s: Seq<u8>) -> Option<Seq<(Seq<u8>, u64)>> {
    let count = be_at(s, 1028, 4);
    if s.len() < 1032 || s.len() < 1032 + 28 * count {
        None
    } else if exists|i: int| 0 <= i < count && (#[trigger] idx_v2_offset(s, count, i)) is None {
        None
    } else {
        Some(
            merged(
                Seq::new(
                    count,
                    |i: int|
                        (s.subrange(1032 + 20 * i, 1052 + 20 * i), idx_v2_offset(s, count, i).unwrap()),
                ),
            ),
        )
    }
}

/// A file that opens with the magic: the next word is its version, which
/// must be 2.
pub open spec fn idx_modern(s: Seq<u8>) -> Result<Seq<(Seq<u8>, u64)>, GetError> {
    if s.len() < 8 {
        Err(GetError::MalformedHeader)
    } else if be_at(s, 4, 4) != 2 {
        Err(GetError::UnsupportedFormat)
    } else {
        match idx_v2(s) {
            Some(entries) => Ok(entries),
            None => Err(GetError::MalformedHeader),
        }
    }
}

/// The entries of the pack index `s`. A file that opens with the magic has
/// version 2 or later; in any other the first word is the first fan-out
/// word of version 1.
pub open spec fn pack_idx(s: Seq<u8>) -> Result<Seq<(Seq<u8>, u64)>, GetError> {
    if s.len() < 4 {
        Err(GetError::MalformedHeader)
    } else if be_at(s, 0, 4) == PACK_IDX_MAGIC {
        idx_modern(s)
    } else {
        match idx_v1(s) {
            Some(entries) => Ok(entries),
            None => Err(GetError::MalformedHeader),
        }
    }
}

/// A pack index that could be read names each object once.
pub proof fn lemma_pack_idx_distinct(s: Seq<u8>)
    requires
        pack_idx(s) is Ok,
    ensures
        distinct_ids(pack_idx(s).unwrap()),
{
    if be_at(s, 0, 4) == PACK_IDX_MAGIC {
        let count = be_at(s, 1028, 4);
        lemma_merged_distinct(
            Seq::new(
                count,
                |i: int|
                    (s.subrange(1032 + 20 * i, 1052 + 20 * i), idx_v2_offset(s, count, i).unwrap()),
            ),
        );
    } else {
        let count = be_at(s, 1020, 4);
        lemma_merged_distinct(
            Seq::new(
                count,
                |i: int|
                    (s.subrange(1028 + 24 * i, 1048 + 24 * i), be_at(s, 1024 + 24 * i, 4) as u64),
            ),
        );
    }
}

/// `a` comes before `b`, byte by byte.
pub open spec fn id_before(a: Seq<u8>, b: Seq<u8>) -> bool {
    exists|k: int|
        0 <= k < a.len() && k < b.len() && a[k] < b[k] && forall|j: int|
            0 <= j < k ==> a[j] == b[j]
}

/// Each id comes before those after it, as in an index that is sorted.
pub open spec fn ascending(entries: Seq<(Seq<u8>, u64)>) -> bool {
    forall|i: int, j: int| 0 <= i < j < entries.len() ==> id_before(entries[i].0, entries[j].0)
}

/// What comes before comes before what follows.
pub proof fn lemma_before_follows(a: Seq<u8>, b: Seq<u8>, c: Seq<u8>)
    requires
        id_before(a, b),
        id_before(b, c),
    ensures
        id_before(a, c),
{
    let first = choose|k: int|
        0 <= k < a.len() && k < b.len() && a[k] < b[k] && forall|j: int|
            0 <= j < k ==> a[j] == b[j];
    let second = choose|k: int|
        0 <= k < b.len() && k < c.len() && b[k] < c[k] && forall|j: int|
            0 <= j < k ==> b[j] == c[j];
    let k = if first <= second {
        first
    } else {
        second
    };
    assert(a[k] < c[k]);
    assert forall|j: int| 0 <= j < k implies a[j] == c[j] by {
        assert(a[j] == b[j]);
    }
}

/// An id that comes after the last of a sorted list is not in the list.
proof fn lemma_after_last_is_new(entries: Seq<(Seq<u8>, u64)>, id: Seq<u8>)
    requires
        ascending(entries),
        entries.len() > 0,
        id_before(entries.last().0, id),
    ensures
        entry_place(entries, id, 0) == entries.len(),
        ascending(entries.push((id, 0u64))),
{
    lemma_entry_place(entries, id, 0);
    let last = entries.len() - 1;
    assert forall|i: int| 0 <= i < entries.len() implies id_before(entries[i].0, id) by {
        if i < last {
            lemma_before_follows(entries[i].0, entries[last].0, id);
        }
    }
    let at = entry_place(entries, id, 0);
    if at < entries.len() {
        assert(id_before(entries[at].0, id));
    }
}

/// Whether `a` comes before `b`.
fn comes_before(a: &ObjectId, b: &ObjectId) -> (r: bool)
    ensures
        r ==> id_before(a@, b@),
{
    let mut i: usize = 0;
    while i < 20
        invariant
            i <= 20,
            forall|j: int| 0 <= j < i ==> a@[j] == b@[j],
        decreases 20 - i,
    {
        if a.0[i] < b.0[i] {
            return true;
        }
        if a.0[i] > b.0[i] {
            return false;
        }
        i += 1;
    }
    false
}

/// Puts `id` at `offset`: the entry of `id` takes the new offset, or a new
/// entry is added at the end. Where the list is sorted so far,
/// `sorted` says so, and an id that comes after the last is added without
/// a search; the result says whether the list is still known to be sorted.
fn put_entry(locations: &mut Vec<(ObjectId, u64)>, id: ObjectId, offset: u64, sorted: bool) -> (still:
    bool)
    requires
        sorted ==> ascending(entries_of(old(locations)@)),
    ensures
        entries_of(final(locations)@) == with_entry(entries_of(old(locations)@), id@, offset),
        still ==> ascending(entries_of(final(locations)@)),
{
    let ghost before = entries_of(locations@);
    let count = locations.len();
    if sorted {
        if count == 0 {
            locations.push((id, offset));
            assert(entries_of(locations@) =~= before.push((id@, offset)));
            return true;
        }
        if comes_before(&locations[count - 1].0, &id) {
            proof {
                lemma_after_last_is_new(before, id@);
            }
            locations.push((id, offset));
            assert(entries_of(locations@) =~= before.push((id@, offset)));
            assert forall|i: int, j: int| 0 <= i < j < entries_of(locations@).len() implies id_before(
                entries_of(locations@)[i].0,
                entries_of(locations@)[j].0,
            ) by {
                assert(entries_of(locations@)[i].0 == before.push((id@, 0u64))[i].0);
                assert(entries_of(locations@)[j].0 == before.push((id@, 0u64))[j].0);
            }
            return true;
        }
    }
    let mut i: usize = 0;
    while i < locations.len()
        invariant
            i <= locations@.len(),
            locations@ == old(locations)@,
            before == entries_of(locations@),
            entry_place(before, id@, 0) == entry_place(before, id@, i as int),
        decreases locations@.len() - i,
    {
        if locations[i].0 == id {
            locations.set(i, (id, offset));
            assert(entries_of(locations@) =~= before.update(i as int, (id@, offset)));
            return false;
        }
        i += 1;
    }
    locations.push((id, offset));
    assert(entries_of(locations@) =~= before.push((id@, offset)));
    false
}

impl GitPackIdx {
    /// No id stands twice in the index.
    pub open spec fn well_formed(&self) -> bool {
        distinct_ids(self@)
    }

    /// The offset of the object `id`, if the index holds it.
    pub fn get(&self, id: &ObjectId) -> (r: Option<u64>)
        ensures
            r == idx_lookup(self@, id@),
    {
        let mut i: usize = self.locations.len();
        assert(self@.subrange(0, i as int) =~= self@);
        while i > 0
            invariant
                i <= self.locations@.len(),
                idx_lookup(self@, id@) == idx_lookup(self@.subrange(0, i as int), id@),
            decreases i,
        {
            i -= 1;
            let ghost upto = self@.subrange(0, i + 1);
            assert(upto.drop_last() =~= self@.subrange(0, i as int));
            assert(upto.last() == self@[i as int]);
            if self.locations[i].0 == *id {
                return Some(self.locations[i].1);
            }
        }
        None
    }
}

/// Reads the id in the 20 bytes of `data` from `at` on.
fn id_at(data: &[u8], at: usize) -> (r: ObjectId)
    requires
        at + 20 <= data@.len(),
    ensures
        r@ == data@.subrange(at as int, at + 20),
{
    let len = data.len();
    let piece = vstd::slice::slice_subrange(data, at, at + 20);
    ObjectId::from_slice(piece).unwrap()
}

/// Reads a pack index of version 1.
pub fn parse_pack_idx_legacy(data: &[u8]) -> (r: Result<GitPackIdx, GetError>)
    ensures
        match r {
            Ok(idx) => idx_v1(data@) == Some(idx@) && idx.well_formed(),
            Err(e) => idx_v1(data@) is None && e == GetError::MalformedHeader,
        },
{
    if data.len() < 1024 {
        return Err(GetError::MalformedHeader);
    }
    let count = match read_u32_be(data, 1020) {
        Some(n) => n,
        None => { return Err(GetError::MalformedHeader); },
    };
    if (data.len() as u64) < 1024 + 24 * (count as u64) {
        return Err(GetError::MalformedHeader);
    }
    let mut locations: Vec<(ObjectId, u64)> = Vec::new();
    let mut sorted: bool = true;
    let mut i: u32 = 0;
    while i < count
        invariant
            i <= count,
            sorted ==> ascending(entries_of(locations@)),
            count as nat == be_at(data@, 1020, 4),
            1024 + 24 * count <= data@.len() <= usize::MAX,
            entries_of(locations@) == merged(
                Seq::new(
                    i as nat,
                    |j: int| (
                        data@.subrange(1028 + 24 * j, 1048 + 24 * j),
                        be_at(data@, 1024 + 24 * j, 4) as u64,
                    ),
                ),
            ),
        decreases count - i,
    {
        let at: usize = 1024 + 24 * (i as usize);
        let offset = match read_u32_be(data, at) {
            Some(v) => v,
            None => { return Err(GetError::MalformedHeader); },
        };
        let id = id_at(data, at + 4);
        sorted = put_entry(&mut locations, id, offset as u64, sorted);
        proof {
            let upto = Seq::new(
                (i + 1) as nat,
                |j: int| (
                    data@.subrange(1028 + 24 * j, 1048 + 24 * j),
                    be_at(data@, 1024 + 24 * j, 4) as u64,
                ),
            );
            assert(upto.drop_last() =~= Seq::new(
                i as nat,
                |j: int| (
                    data@.subrange(1028 + 24 * j, 1048 + 24 * j),
                    be_at(data@, 1024 + 24 * j, 4) as u64,
                ),
            ));
            assert(upto.last() == (id@, offset as u64));
        }
        i += 1;
    }
    proof {
        lemma_merged_distinct(
            Seq::new(
                count as nat,
                |j: int| (
                    data@.subrange(1028 + 24 * j, 1048 + 24 * j),
                    be_at(data@, 1024 + 24 * j, 4) as u64,
                ),
            ),
        );
    }
    Ok(GitPackIdx { locations })
}

/// Reads a pack index of version 2.
pub fn parse_pack_idx_v2(data: &[u8]) -> (r: Result<GitPackIdx, GetError>)
    ensures
        match r {
            Ok(idx) => idx_v2(data@) == Some(idx@) && idx.well_formed(),
            Err(e) => idx_v2(data@) is None && e == GetError::MalformedHeader,
        },
{
    if data.len() < 1032 {
        return Err(GetError::MalformedHeader);
    }
    let count = match read_u32_be(data, 1028) {
        Some(n) => n,
        None => { return Err(GetError::MalformedHeader); },
    };
    if (data.len() as u64) < 1032 + 28 * (count as u64) {
        return Err(GetError::MalformedHeader);
    }
    let wide_base: u64 = 1032 + 28 * (count as u64);
    let mut locations: Vec<(ObjectId, u64)> = Vec::new();
    let mut sorted: bool = true;
    let mut i: u32 = 0;
    while i < count
        invariant
            i <= count,
            sorted ==> ascending(entries_of(locations@)),
            count as nat == be_at(data@, 1028, 4),
            wide_base == 1032 + 28 * count,
            1032 + 28 * count <= data@.len() <= usize::MAX,
            forall|j: int| 0 <= j < i ==> (#[trigger] idx_v2_offset(data@, count as nat, j)) is Some,
            entries_of(locations@) == merged(
                Seq::new(
                    i as nat,
                    |j: int| (
                        data@.subrange(1032 + 20 * j, 1052 + 20 * j),
                        idx_v2_offset(data@, count as nat, j).unwrap(),
                    ),
                ),
            ),
        decreases count - i,
    {
        let id = id_at(data, 1032 + 20 * (i as usize));
        let word = match read_u32_be(data, 1032 + 24 * (count as usize) + 4 * (i as usize)) {
            Some(v) => v,
            None => { return Err(GetError::MalformedHeader); },
        };
        let offset: u64 = if word < 0x8000_0000 {
            word as u64
        } else {
            let wide_at: u64 = wide_base + 8 * ((word - 0x8000_0000) as u64);
            if wide_at + 8 > data.len() as u64 {
                assert(idx_v2_offset(data@, count as nat, i as int) is None);
                return Err(GetError::MalformedHeader);
            }
            match read_u64_be(data, wide_at as usize) {
                Some(v) => v,
                None => { return Err(GetError::MalformedHeader); },
            }
        };
        assert(idx_v2_offset(data@, count as nat, i as int) == Some(offset));
        sorted = put_entry(&mut locations, id, offset, sorted);
        proof {
            let upto = Seq::new(
                (i + 1) as nat,
                |j: int| (
                    data@.subrange(1032 + 20 * j, 1052 + 20 * j),
                    idx_v2_offset(data@, count as nat, j).unwrap(),
                ),
            );
            assert(upto.drop_last() =~= Seq::new(
                i as nat,
                |j: int| (
                    data@.subrange(1032 + 20 * j, 1052 + 20 * j),
                    idx_v2_offset(data@, count as nat, j).unwrap(),
                ),
            ));
            assert(upto.last() == (id@, offset));
        }
        i += 1;
    }
    proof {
        lemma_merged_distinct(
            Seq::new(
                count as nat,
                |j: int| (
                    data@.subrange(1032 + 20 * j, 1052 + 20 * j),
                    idx_v2_offset(data@, count as nat, j).unwrap(),
                ),
            ),
        );
    }
    Ok(GitPackIdx { locations })
}

/// Reads a pack index that opens with the magic: checks that its version
/// is 2 and reads it as such.
pub fn parse_pack_idx_modern(data: &[u8]) -> (r: Result<GitPackIdx, GetError>)
    ensures
        match r {
            Ok(idx) => idx_modern(data@) matches Ok(v) && v == idx@ && idx.well_formed(),
            Err(e) => idx_modern(data@) matches Err(f) && f == e,
        },
{
    if data.len() < 8 {
        return Err(GetError::MalformedHeader);
    }
    match read_u32_be(data, 4) {
        Some(2) => parse_pack_idx_v2(data),
        _ => Err(GetError::UnsupportedFormat),
    }
}

/// Reads a pack index of either version.
pub fn parse_pack_idx(data: &[u8]) -> (r: Result<GitPackIdx, GetError>)
    ensures
        match r {
            Ok(idx) => pack_idx(data@) matches Ok(v) && v == idx@ && idx.well_formed(),
            Err(e) => pack_idx(data@) matches Err(f) && f == e,
        },
{
    match read_u32_be(data, 0) {
        None => Err(GetError::MalformedHeader),
        Some(first_word) => if first_word == PACK_IDX_MAGIC {
            parse_pack_idx_modern(data)
        } else {
            parse_pack_idx_legacy(data)
        },
    }
}


/// The kind and the data of the entry at `offset` of a pack. An object
/// kept whole must inflate to the length its header declares, which must
/// be one that a buffer can have; a delta is resolved against its chain.
pub open spec fn packed_entry(pack: Seq<u8>, table: Seq<Inflated>, k: usize, offset: int) -> Result<
    (ObjectKind, Seq<u8>),
    GetError,
> {
    match entry_header(pack, offset) {
        Err(e) => Err(e),
        Ok((PackedObjectKind::Object(kind), length, end)) => if length > isize::MAX {
            Err(GetError::MalformedHeader)
        } else {
            match stream_data(
                table,
                Stream::Packed { pack: k, at: end as usize, len: length as usize },
            ) {
                Err(e) => Err(e),
                Ok(data) => Ok((kind, data)),
            }
        },
        Ok((PackedObjectKind::Delta(_), _, _)) => resolved_delta(pack, table, k, offset),
    }
}

/// The first pack at or after pack `from` whose index holds `id`, with the
/// offset that the index gives. An index that cannot be read ends the
/// search.
pub open spec fn locate(packs: Seq<PackFile>, id: Seq<u8>, from: int) -> Option<(int, u64)>
    decreases packs.len() - from,
{
    if from < 0 || from >= packs.len() {
        None
    } else {
        match pack_idx(packs[from].idx@) {
            Err(_) => None,
            Ok(entries) => match idx_lookup(entries, id) {
                Some(offset) => Some((from, offset)),
                None => locate(packs, id, from + 1),
            },
        }
    }
}

/// The kind and the data of the packed object `id`: the entry at the
/// offset that the first index that holds the id gives, in that index's
/// pack, which must open with the bytes `PACK`.
pub open spec fn packed_raw(store: &GitObjectStore, id: Seq<u8>) -> Result<
    (ObjectKind, Seq<u8>),
    GetError,
> {
    match locate(store.packs@, id, 0) {
        None => Err(GetError::NotFound),
        Some((k, offset)) => if has_prefix(store.packs@[k].pack@, "PACK".spec_bytes()) {
            packed_entry(store.packs@[k].pack@, store.inflated@, k as usize, offset as int)
        } else {
            Err(GetError::MalformedHeader)
        },
    }
}

/// The packed object `id`, parsed.
pub open spec fn packed_object(store: &GitObjectStore, id: Seq<u8>) -> Result<ObjectView, GetError> {
    match packed_raw(store, id) {
        Err(e) => Err(e),
        Ok((kind, data)) => match body_of(store, kind, data) {
            Err(e) => Err(e),
            Ok(body) => Ok(ObjectView { id, size: data.len(), data: body }),
        },
    }
}

/// What the entry at `offset` of a pack holds, parsed, and the length of
/// its data.
pub open spec fn packed_body(store: &GitObjectStore, k: usize, offset: int) -> Result<
    (crate::store::DataView, nat),
    GetError,
> {
    match packed_entry(store.packs@[k as int].pack@, store.inflated@, k, offset) {
        Err(e) => Err(e),
        Ok((kind, raw)) => match body_of(store, kind, raw) {
            Err(e) => Err(e),
            Ok(body) => Ok((body, raw.len())),
        },
    }
}

/// Reads the kind and the data of the entry at `offset` of the pack
/// `pack`, which is pack `pack_index` of the store that `inflated` belongs
/// to.
pub fn read_packed_entry(pack: &[u8], inflated: &Vec<Inflated>, pack_index: usize, offset: usize) -> (r:
    Result<RawObject, GetError>)
    ensures
        match r {
            Ok(raw) => packed_entry(pack@, inflated@, pack_index, offset as int) matches Ok(v) && v
                == raw@,
            Err(e) => packed_entry(pack@, inflated@, pack_index, offset as int) matches Err(f) && f
                == e,
        },
{
    let (kind, length, end) = match read_kind_length_obj_header(pack, offset) {
        Ok(header) => header,
        Err(e) => { return Err(e); },
    };
    match kind {
        PackedObjectKind::Object(object_kind) => {
            if length > isize::MAX as u64 {
                return Err(GetError::MalformedHeader);
            }
            let stream = Stream::Packed { pack: pack_index, at: end, len: length as usize };
            match inflated_stream(inflated, stream) {
                Ok(bytes) => {
                    let data = copy_range(bytes.as_slice(), 0, bytes.len());
                    assert(data@ =~= bytes@);
                    Ok(RawObject { kind: object_kind, data })
                },
                Err(e) => Err(e),
            }
        },
        PackedObjectKind::Delta(_) => {
            match resolve_delta(pack, inflated, pack_index, offset) {
                Ok((PackedObjectKind::Object(object_kind), data)) => Ok(
                    RawObject { kind: object_kind, data },
                ),
                // A resolved delta is never itself a delta.
                Ok((PackedObjectKind::Delta(_), _)) => Err(GetError::MalformedHeader),
                Err(e) => Err(e),
            }
        },
    }
}

/// Parses the entry at `offset` of pack `pack_index` of the store: what
/// the object holds, and the length of its data.
pub fn parse_packed_object_and_size(store: &GitObjectStore, pack_index: usize, offset: usize) -> (r:
    Result<(GitObjectData, usize), GetError>)
    requires
        pack_index < store.packs@.len(),
    ensures
        match r {
            Ok((data, size)) => packed_body(store, pack_index, offset as int) matches Ok(v) && v
                == (data@, size as nat),
            Err(e) => packed_body(store, pack_index, offset as int) matches Err(f) && f == e,
        },
{
    let pack = store.packs[pack_index].pack.as_slice();
    let raw = match read_packed_entry(pack, &store.inflated, pack_index, offset) {
        Ok(raw) => raw,
        Err(e) => { return Err(e); },
    };
    let size = raw.data.len();
    match parse_object(store, raw.kind, raw.data.as_slice()) {
        Ok(data) => Ok((data, size)),
        Err(e) => Err(e),
    }
}

/// Finds the first pack whose index holds `id`, and the offset there.
fn locate_packed(store: &GitObjectStore, id: &ObjectId) -> (r: Option<(usize, u64)>)
    ensures
        match r {
            Some((k, offset)) => locate(store.packs@, id@, 0) == Some((k as int, offset)) && k
                < store.packs@.len(),
            None => locate(store.packs@, id@, 0) is None,
        },
{
    let mut k: usize = 0;
    while k < store.packs.len()
        invariant
            k <= store.packs@.len(),
            locate(store.packs@, id@, 0) == locate(store.packs@, id@, k as int),
        decreases store.packs@.len() - k,
    {
        let idx = match parse_pack_idx(store.packs[k].idx.as_slice()) {
            Ok(idx) => idx,
            Err(_) => { return None; },
        };
        match idx.get(id) {
            Some(offset) => { return Some((k, offset)); },
            None => {},
        }
        k += 1;
    }
    None
}

/// Reads the kind and the data of the packed object `id`.
pub fn read_packed_raw(store: &GitObjectStore, id: &ObjectId) -> (r: Result<RawObject, GetError>)
    ensures
        match r {
            Ok(raw) => packed_raw(store, id@) matches Ok(v) && v == raw@,
            Err(e) => packed_raw(store, id@) matches Err(f) && f == e,
        },
{
    let (k, offset) = match locate_packed(store, id) {
        Some(pair) => pair,
        None => { return Err(GetError::NotFound); },
    };
    let pack = store.packs[k].pack.as_slice();
    let magic = "PACK".as_bytes();
    if pack.len() < magic.len() {
        return Err(GetError::MalformedHeader);
    }
    if !bytes_eq(vstd::slice::slice_subrange(pack, 0, magic.len()), magic) {
        return Err(GetError::MalformedHeader);
    }
    if offset > pack.len() as u64 {
        return Err(GetError::MalformedHeader);
    }
    read_packed_entry(pack, &store.inflated, k, offset as usize)
}

/// Fetches the object `id` from the packs: finds the pack whose index
/// holds it, checks that the pack opens with `PACK`, and parses the entry
/// at the offset that the index gives.
pub fn get_packed_object(store: &GitObjectStore, id: ObjectId) -> (r: Result<GitObject, GetError>)
    ensures
        match r {
            Ok(object) => packed_object(store, id@) matches Ok(v) && v == object@,
            Err(e) => packed_object(store, id@) matches Err(f) && f == e,
        },
{
    let raw = match read_packed_raw(store, &id) {
        Ok(raw) => raw,
        Err(e) => { return Err(e); },
    };
    let size = raw.data.len();
    match parse_object(store, raw.kind, raw.data.as_slice()) {
        Ok(data) => Ok(GitObject { id, size, data }),
        Err(e) => Err(e),
    }
}

/// A packed entry that cannot be read yet asks for a stream that has no
/// entry.
pub proof fn lemma_packed_entry_asks_new(pack: Seq<u8>, table: Seq<Inflated>, k: usize, offset: int)
    ensures
        packed_entry(pack, table, k, offset) matches Err(e) ==> asks_new(table, e),
{
    crate::store::delta::lemma_resolved_delta_asks_new(pack, table, k, offset);
}

} // verus!
