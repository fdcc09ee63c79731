//! Finding ids: the ids that the store holds, the backend that holds one,
//! and the id that an abbreviation stands for.

use vstd::prelude::*;
use vstd::string::StringSliceAdditionalSpecFns;
use vstd::utf8::encode_utf8;

use crate::hexcode::{all_hex, decode, encode, hex_digit, hex_text, hex_to_bytes};
use crate::ident::{has_prefix, id_from_text, id_in, id_of_text, ids_of, ObjectId};
use crate::store::pack::{lemma_pack_idx_distinct, pack_idx, parse_pack_idx};
use crate::store::{GitObjectStore, LooseDir, PackFile, StoreBackend};
use crate::text::push_bytes;

verus! {

/// The id that a loose file stands for: the directory's name and the file's
/// name, one after the other, must be 40 hex digits.
pub open spec fn loose_file_id(dir: Seq<char>, file: Seq<char>) -> Option<Seq<u8>> {
    id_of_text(encode_utf8(dir) + encode_utf8(file))
}

/// The ids of the files of a directory from file `from` on, in order, up to
/// the first file whose name gives no id; and whether every file gave one.
pub open spec fn dir_ids(dir: LooseDir, from: int) -> (Seq<Seq<u8>>, bool)
    decreases dir.files@.len() - from,
{
    if from < 0 || from >= dir.files@.len() {
        (Seq::empty(), true)
    } else {
        match loose_file_id(dir.name@, dir.files@[from].name@) {
            None => (Seq::empty(), false),
            Some(id) => (seq![id] + dir_ids(dir, from + 1).0, dir_ids(dir, from + 1).1),
        }
    }
}

/// The place of the first directory at or after `from` that is named
/// `name`, or the number of directories where there is none.
pub open spec fn find_dir(dirs: Seq<LooseDir>, name: Seq<char>, from: int) -> int
    decreases dirs.len() - from,
{
    if from < 0 || from >= dirs.len() {
        dirs.len() as int
    } else if dirs[from].name@ == name {
        from
    } else {
        find_dir(dirs, name, from + 1)
    }
}

/// The ids of the directories from directory `from` on, one directory
/// after the other, up to the first file whose name gives no id.
pub open spec fn all_dir_ids(dirs: Seq<LooseDir>, from: int) -> (Seq<Seq<u8>>, bool)
    decreases dirs.len() - from,
{
    if from < 0 || from >= dirs.len() {
        (Seq::empty(), true)
    } else if !dir_ids(dirs[from], 0).1 {
        (dir_ids(dirs[from], 0).0, false)
    } else {
        (dir_ids(dirs[from], 0).0 + all_dir_ids(dirs, from + 1).0, all_dir_ids(dirs, from + 1).1)
    }
}

/// The loose ids that a visit comes by, and whether it came to its end.
/// With a first byte given, only the directory named by its two hex digits
/// is visited, and the visit fails at once where there is none; without,
/// every directory is. A file whose name gives no id ends the visit.
pub open spec fn loose_ids(dirs: Seq<LooseDir>, hint: Option<u8>) -> (Seq<Seq<u8>>, bool) {
    match hint {
        Some(first) => {
            let at = find_dir(dirs, hex_text(seq![first]), 0);
            if at < dirs.len() {
                dir_ids(dirs[at], 0)
            } else {
                (Seq::empty(), false)
            }
        },
        None => all_dir_ids(dirs, 0),
    }
}

/// Visits the files of one directory.
fn visit_dir(dir: &LooseDir, found: &mut Vec<ObjectId>) -> (complete: bool)
    ensures
        ids_of(final(found)@) == ids_of(old(found)@) + dir_ids(*dir, 0).0,
        complete == dir_ids(*dir, 0).1,
{
    let mut i: usize = 0;
    let ghost start = ids_of(found@);
    assert(start + Seq::<Seq<u8>>::empty() =~= start);
    while i < dir.files.len()
        invariant
            i <= dir.files@.len(),
            start == ids_of(old(found)@),
            dir_ids(*dir, 0).1 == dir_ids(*dir, i as int).1,
            start + dir_ids(*dir, 0).0 == ids_of(found@) + dir_ids(*dir, i as int).0,
        decreases dir.files@.len() - i,
    {
        let mut text: Vec<u8> = Vec::new();
        push_bytes(&mut text, dir.name.as_str().as_bytes());
        push_bytes(&mut text, dir.files[i].name.as_str().as_bytes());
        assert(text@ =~= encode_utf8(dir.name@) + encode_utf8(dir.files@[i as int].name@));
        match id_from_text(text.as_slice()) {
            None => {
                assert(ids_of(found@) + Seq::<Seq<u8>>::empty() =~= ids_of(found@));
                return false;
            },
            Some(id) => {
                let ghost before = ids_of(found@);
                found.push(id);
                assert(ids_of(found@) =~= before + seq![id@]);
                assert((before + seq![id@]) + dir_ids(*dir, i + 1).0 =~= before + (seq![id@]
                    + dir_ids(*dir, i + 1).0));
            },
        }
        i += 1;
    }
    assert(ids_of(found@) + Seq::<Seq<u8>>::empty() =~= ids_of(found@));
    true
}

/// Visits the ids of the loose objects: those of the directory that
/// `first_byte_hint` names, or of every directory. Gives the ids in the
/// order of the visit, and whether the visit came to its end.
pub fn visit_loose_ids(store: &GitObjectStore, first_byte_hint: Option<u8>) -> (r: (
    Vec<ObjectId>,
    bool,
))
    ensures
        ids_of(r.0@) == loose_ids(store.loose@, first_byte_hint).0,
        r.1 == loose_ids(store.loose@, first_byte_hint).1,
{
    let mut found: Vec<ObjectId> = Vec::new();
    assert(ids_of(found@) =~= Seq::<Seq<u8>>::empty());
    match first_byte_hint {
        Some(first_byte) => {
            let mut one: Vec<u8> = Vec::new();
            one.push(first_byte);
            assert(one@ =~= seq![first_byte]);
            let name = encode(one.as_slice());
            let mut i: usize = 0;
            while i < store.loose.len()
                invariant
                    i <= store.loose@.len(),
                    first_byte_hint == Some(first_byte),
                    ids_of(found@) == Seq::<Seq<u8>>::empty(),
                    name@ == hex_text(seq![first_byte]),
                    find_dir(store.loose@, name@, 0) == find_dir(store.loose@, name@, i as int),
                decreases store.loose@.len() - i,
            {
                if store.loose[i].name == name {
                    let complete = visit_dir(&store.loose[i], &mut found);
                    assert(Seq::<Seq<u8>>::empty() + dir_ids(store.loose@[i as int], 0).0
                        =~= dir_ids(store.loose@[i as int], 0).0);
                    return (found, complete);
                }
                i += 1;
            }
            (found, false)
        },
        None => {
            let mut i: usize = 0;
            assert(ids_of(found@) + all_dir_ids(store.loose@, 0).0 =~= all_dir_ids(
                store.loose@,
                0,
            ).0);
            while i < store.loose.len()
                invariant
                    i <= store.loose@.len(),
                    first_byte_hint is None,
                    all_dir_ids(store.loose@, 0).1 == all_dir_ids(store.loose@, i as int).1,
                    all_dir_ids(store.loose@, 0).0 == ids_of(found@) + all_dir_ids(
                        store.loose@,
                        i as int,
                    ).0,
                decreases store.loose@.len() - i,
            {
                let ghost before = ids_of(found@);
                let complete = visit_dir(&store.loose[i], &mut found);
                let ghost here = dir_ids(store.loose@[i as int], 0).0;
                if !complete {
                    assert((before + here) + Seq::<Seq<u8>>::empty() =~= before + here);
                    return (found, false);
                }
                assert((before + here) + all_dir_ids(store.loose@, i + 1).0 =~= before + (here
                    + all_dir_ids(store.loose@, i + 1).0));
                i += 1;
            }
            assert(ids_of(found@) + Seq::<Seq<u8>>::empty() =~= ids_of(found@));
            (found, true)
        },
    }
}


/// One object of a pack, as a visit of the packs comes by it.
#[derive(Debug)]
pub struct PackObjectDesc {
    pub oid: ObjectId,
    /// The name of the pack that holds the object, where the visit was
    /// asked for names.
    pub pack_name: Option<String>,
}

impl View for PackObjectDesc {
    type V = (Seq<u8>, Option<Seq<char>>);

    open spec fn view(&self) -> (Seq<u8>, Option<Seq<char>>) {
        (
            self.oid@,
            match self.pack_name {
                Some(name) => Some(name@),
                None => None,
            },
        )
    }
}

/// The views of a list of descriptions.
pub open spec fn descs_of(list: Seq<PackObjectDesc>) -> Seq<(Seq<u8>, Option<Seq<char>>)> {
    Seq::new(list.len(), |i: int| list[i]@)
}

/// The descriptions of the entries of one index, in its order.
pub open spec fn idx_descs(entries: Seq<(Seq<u8>, u64)>, name: Option<Seq<char>>) -> Seq<
    (Seq<u8>, Option<Seq<char>>),
> {
    Seq::new(entries.len(), |i: int| (entries[i].0, name))
}

/// The objects of the packs from pack `from` on, pack after pack and each
/// in the order of its index, up to the first index that cannot be read;
/// and whether every index could.
pub open spec fn pack_descs(packs: Seq<PackFile>, from: int, names: bool) -> (
    Seq<(Seq<u8>, Option<Seq<char>>)>,
    bool,
)
    decreases packs.len() - from,
{
    if from < 0 || from >= packs.len() {
        (Seq::empty(), true)
    } else {
        match pack_idx(packs[from].idx@) {
            Err(_) => (Seq::empty(), false),
            Ok(entries) => (
                idx_descs(
                    entries,
                    if names {
                        Some(packs[from].name@)
                    } else {
                        None
                    },
                ) + pack_descs(packs, from + 1, names).0,
                pack_descs(packs, from + 1, names).1,
            ),
        }
    }
}

/// The ids of the packed objects that a visit comes by.
pub open spec fn pack_ids(packs: Seq<PackFile>) -> Seq<Seq<u8>> {
    Seq::new(pack_descs(packs, 0, false).0.len(), |i: int| pack_descs(packs, 0, false).0[i].0)
}

/// Visits the objects of the packs, pack after pack, each in the order of
/// its index. Gives their descriptions, with the pack's name where
/// `include_pack_name` asks for it, and whether the visit came to its end:
/// an index that cannot be read ends it.
pub fn visit_pack_ids(store: &GitObjectStore, include_pack_name: bool) -> (r: (
    Vec<PackObjectDesc>,
    bool,
))
    ensures
        descs_of(r.0@) == pack_descs(store.packs@, 0, include_pack_name).0,
        r.1 == pack_descs(store.packs@, 0, include_pack_name).1,
{
    let mut found: Vec<PackObjectDesc> = Vec::new();
    let mut k: usize = 0;
    let ghost whole = pack_descs(store.packs@, 0, include_pack_name);
    assert(descs_of(found@) + whole.0 =~= whole.0);
    while k < store.packs.len()
        invariant
            k <= store.packs@.len(),
            whole == pack_descs(store.packs@, 0, include_pack_name),
            whole.1 == pack_descs(store.packs@, k as int, include_pack_name).1,
            whole.0 == descs_of(found@) + pack_descs(store.packs@, k as int, include_pack_name).0,
        decreases store.packs@.len() - k,
    {
        let pack = &store.packs[k];
        let idx = match parse_pack_idx(pack.idx.as_slice()) {
            Ok(idx) => idx,
            Err(_) => {
                assert(descs_of(found@) + Seq::<(Seq<u8>, Option<Seq<char>>)>::empty()
                    =~= descs_of(found@));
                return (found, false);
            },
        };
        let ghost before = descs_of(found@);
        let ghost name = if include_pack_name {
            Some(pack.name@)
        } else {
            None
        };
        let mut j: usize = 0;
        assert(before + idx_descs(idx@, name).subrange(0, 0) =~= before);
        while j < idx.locations.len()
            invariant
                j <= idx.locations@.len(),
                k < store.packs@.len(),
                pack == store.packs@[k as int],
                name == if include_pack_name {
                    Some(pack.name@)
                } else {
                    None::<Seq<char>>
                },
                descs_of(found@) == before + idx_descs(idx@, name).subrange(0, j as int),
            decreases idx.locations@.len() - j,
        {
            let desc = PackObjectDesc {
                oid: idx.locations[j].0,
                pack_name: if include_pack_name {
                    Some(pack.name.clone())
                } else {
                    None
                },
            };
            let ghost so_far = descs_of(found@);
            found.push(desc);
            assert(descs_of(found@) =~= so_far.push(idx_descs(idx@, name)[j as int]));
            assert(before + idx_descs(idx@, name).subrange(0, j + 1) =~= (before + idx_descs(
                idx@,
                name,
            ).subrange(0, j as int)).push(idx_descs(idx@, name)[j as int]));
            j += 1;
        }
        proof {
            let here = idx_descs(idx@, name);
            assert(here.subrange(0, here.len() as int) =~= here);
            let rest = pack_descs(store.packs@, k + 1, include_pack_name).0;
            assert((before + here) + rest =~= before + (here + rest));
        }
        k += 1;
    }
    assert(descs_of(found@) + Seq::<(Seq<u8>, Option<Seq<char>>)>::empty() =~= descs_of(found@));
    (found, true)
}

/// The ids of the packed objects, in the order of a visit.
pub fn visit_pack_oids(store: &GitObjectStore) -> (r: Vec<ObjectId>)
    ensures
        ids_of(r@) == pack_ids(store.packs@),
{
    let (descs, _) = visit_pack_ids(store, false);
    let mut out: Vec<ObjectId> = Vec::new();
    let mut i: usize = 0;
    while i < descs.len()
        invariant
            i <= descs@.len(),
            descs_of(descs@) == pack_descs(store.packs@, 0, false).0,
            ids_of(out@) == pack_ids(store.packs@).subrange(0, i as int),
        decreases descs@.len() - i,
    {
        let ghost before = ids_of(out@);
        out.push(descs[i].oid);
        assert(descs_of(descs@).len() == descs@.len());
        assert(descs_of(descs@)[i as int].0 == descs@[i as int].oid@);
        assert(pack_ids(store.packs@)[i as int] == descs@[i as int].oid@);
        assert(ids_of(out@) =~= before.push(descs@[i as int].oid@));
        assert(pack_ids(store.packs@).subrange(0, i + 1) =~= pack_ids(store.packs@).subrange(
            0,
            i as int,
        ).push(pack_ids(store.packs@)[i as int]));
        i += 1;
    }
    assert(pack_ids(store.packs@).subrange(0, i as int) =~= pack_ids(store.packs@));
    out
}

/// The backend that holds `id`: the loose one where a visit of the
/// directory of the id's first byte comes by it, else the packed one where
/// a visit of the packs does.
pub open spec fn backend_of(store: &GitObjectStore, id: Seq<u8>) -> Option<StoreBackend> {
    if loose_ids(store.loose@, Some(id[0])).0.contains(id) {
        Some(StoreBackend::Loose)
    } else if pack_ids(store.packs@).contains(id) {
        Some(StoreBackend::Packed)
    } else {
        None
    }
}

/// Finds the backend that holds `id`. An object that is both loose and
/// packed is had from the loose backend.
pub fn find_backend(store: &GitObjectStore, id: ObjectId) -> (r: Option<StoreBackend>)
    ensures
        r == backend_of(store, id@),
{
    let first_byte = id.0[0];
    let (loose, _) = visit_loose_ids(store, Some(first_byte));
    if id_in(&loose, &id) {
        return Some(StoreBackend::Loose);
    }
    let packed = visit_pack_oids(store);
    if id_in(&packed, &id) {
        return Some(StoreBackend::Packed);
    }
    None
}

/// Why an abbreviation stands for no id.
#[derive(Debug, PartialEq, Eq)]
pub enum ResolveError {
    /// It has fewer than four hex digits.
    TooShort,
    /// It has more than 40 digits, or a byte that is no hex digit.
    InvalidHex,
    /// No id of the store begins with it.
    NotFound,
    /// More than one id begins with it: these, each once.
    Ambiguous(Vec<ObjectId>),
}

/// What an abbreviation resolves to.
pub enum Resolution {
    Unique(Seq<u8>),
    TooShort,
    InvalidHex,
    NotFound,
    Ambiguous(Seq<Seq<u8>>),
}

/// The outcome of `resolve_id` as a `Resolution`.
pub open spec fn resolution_of(r: Result<ObjectId, ResolveError>) -> Resolution {
    match r {
        Ok(id) => Resolution::Unique(id@),
        Err(ResolveError::TooShort) => Resolution::TooShort,
        Err(ResolveError::InvalidHex) => Resolution::InvalidHex,
        Err(ResolveError::NotFound) => Resolution::NotFound,
        Err(ResolveError::Ambiguous(list)) => Resolution::Ambiguous(ids_of(list@)),
    }
}

/// The ids of `ids` that begin with `prefix`, each once, in the order in
/// which they first appear.
pub open spec fn matching(ids: Seq<Seq<u8>>, prefix: Seq<u8>) -> Seq<Seq<u8>>
    decreases ids.len(),
{
    if ids.len() == 0 {
        Seq::empty()
    } else {
        let before = matching(ids.drop_last(), prefix);
        if has_prefix(ids.last(), prefix) && !before.contains(ids.last()) {
            before.push(ids.last())
        } else {
            before
        }
    }
}

/// The hex digits of an abbreviation that are looked at: all of them where
/// their number is even, all but the last where it is odd.
pub open spec fn even_digits(text: Seq<u8>) -> Seq<u8> {
    if text.len() % 2 == 0 {
        text
    } else {
        text.drop_last()
    }
}

/// The ids that a search for `prefix` looks through: the loose ids of the
/// directory of its first byte, then the packed ids.
pub open spec fn searched_ids(store: &GitObjectStore, prefix: Seq<u8>) -> Seq<Seq<u8>> {
    loose_ids(store.loose@, Some(prefix[0])).0 + pack_ids(store.packs@)
}

/// What the abbreviation `text` resolves to in `store`. It must have 4 to
/// 40 bytes, and those looked at must be hex digits; the bytes they stand
/// for are the prefix searched for. One id that begins with it is the
/// answer; none and several are errors.
pub open spec fn resolution(store: &GitObjectStore, text: Seq<u8>) -> Resolution {
    if text.len() < 4 {
        Resolution::TooShort
    } else if text.len() > 40 || !all_hex(even_digits(text)) {
        Resolution::InvalidHex
    } else {
        let prefix = hex_to_bytes(even_digits(text));
        let found = matching(searched_ids(store, prefix), prefix);
        if found.len() == 0 {
            Resolution::NotFound
        } else if found.len() == 1 {
            Resolution::Unique(found[0])
        } else {
            Resolution::Ambiguous(found)
        }
    }
}

/// Resolves a hex abbreviation of 4 to 40 digits, of either case, to the
/// one id of the store that begins with it. Of an odd number of digits the
/// last is not looked at.
pub fn resolve_id(store: &GitObjectStore, id_str: &str) -> (r: Result<ObjectId, ResolveError>)
    ensures
        resolution_of(r) == resolution(store, id_str.spec_bytes()),
{
    let text = id_str.as_bytes();
    let id_len = text.len();
    if id_len < crate::MIN_USER_HASH_LEN {
        return Err(ResolveError::TooShort);
    }
    if id_len > crate::SHA1_HASH_SIZE * 2 {
        return Err(ResolveError::InvalidHex);
    }
    let digits = if id_len % 2 == 0 {
        text
    } else {
        vstd::slice::slice_subrange(text, 0, id_len - 1)
    };
    assert(digits@ =~= even_digits(text@));
    let id_bytes = match decode(digits) {
        Ok(bytes) => bytes,
        Err(_) => { return Err(ResolveError::InvalidHex); },
    };
    let first_byte = id_bytes[0];
    let (mut ids, _) = visit_loose_ids(store, Some(first_byte));
    let mut packed = visit_pack_oids(store);
    let ghost loose = ids_of(ids@);
    ids.append(&mut packed);
    assert(ids_of(ids@) =~= loose + pack_ids(store.packs@));
    let mut candidates: Vec<ObjectId> = Vec::new();
    let mut i: usize = 0;
    assert(ids_of(ids@).subrange(0, 0) =~= Seq::<Seq<u8>>::empty());
    assert(ids_of(candidates@) =~= Seq::<Seq<u8>>::empty());
    while i < ids.len()
        invariant
            i <= ids@.len(),
            ids_of(candidates@) == matching(ids_of(ids@).subrange(0, i as int), id_bytes@),
        decreases ids@.len() - i,
    {
        let ghost upto = ids_of(ids@).subrange(0, i + 1);
        assert(upto.drop_last() =~= ids_of(ids@).subrange(0, i as int));
        assert(upto.last() == ids@[i as int]@);
        let ghost before = ids_of(candidates@);
        if ids[i].starts_with(id_bytes.as_slice()) && !id_in(&candidates, &ids[i]) {
            candidates.push(ids[i]);
            assert(ids_of(candidates@) =~= before.push(ids@[i as int]@));
        }
        i += 1;
    }
    assert(ids_of(ids@).subrange(0, i as int) =~= ids_of(ids@));
    if candidates.len() == 0 {
        return Err(ResolveError::NotFound);
    }
    if candidates.len() > 1 {
        return Err(ResolveError::Ambiguous(candidates));
    }
    Ok(candidates[0])
}


/// Hex digit `i` of `id`, as a number: the high half of a byte comes
/// first.
pub open spec fn nibble(id: Seq<u8>, i: int) -> int {
    if i % 2 == 0 {
        id[i / 2] as int / 16
    } else {
        id[i / 2] as int % 16
    }
}

/// The hex form of `id` begins with `digits`, the case of letters aside.
pub open spec fn hex_begins(id: Seq<u8>, digits: Seq<u8>) -> bool {
    digits.len() <= 2 * id.len() && forall|i: int|
        0 <= i < digits.len() ==> #[trigger] hex_digit(digits[i]) == Some(nibble(id, i) as u8)
}

/// An id's hex form begins with an even number of hex digits exactly when
/// the id's bytes begin with the bytes that the digits stand for.
pub proof fn lemma_hex_prefix(id: Seq<u8>, digits: Seq<u8>)
    requires
        digits.len() % 2 == 0,
        all_hex(digits),
    ensures
        hex_begins(id, digits) <==> has_prefix(id, hex_to_bytes(digits)),
{
    let bytes = hex_to_bytes(digits);
    if hex_begins(id, digits) {
        assert(bytes.len() <= id.len());
        assert forall|j: int| 0 <= j < bytes.len() implies id[j] == bytes[j] by {
            assert(hex_digit(digits[2 * j]) == Some(nibble(id, 2 * j) as u8));
            assert(hex_digit(digits[2 * j + 1]) == Some(nibble(id, 2 * j + 1) as u8));
        }
        assert(id.subrange(0, bytes.len() as int) =~= bytes);
    }
    if has_prefix(id, bytes) {
        assert forall|i: int| 0 <= i < digits.len() implies #[trigger] hex_digit(digits[i])
            == Some(nibble(id, i) as u8) by {
            let j = i / 2;
            assert(id.subrange(0, bytes.len() as int)[j] == bytes[j]);
            assert(hex_digit(digits[2 * j]) is Some);
            assert(hex_digit(digits[2 * j + 1]) is Some);
        }
    }
}

/// The ids that match a prefix are listed once each, and they are the ids
/// looked through that begin with the prefix.
pub proof fn lemma_matching(ids: Seq<Seq<u8>>, prefix: Seq<u8>)
    ensures
        matching(ids, prefix).no_duplicates(),
        forall|y: Seq<u8>| #[trigger]
            matching(ids, prefix).contains(y) <==> ids.contains(y) && has_prefix(y, prefix),
    decreases ids.len(),
{
    if ids.len() > 0 {
        let before = matching(ids.drop_last(), prefix);
        let last = ids.last();
        lemma_matching(ids.drop_last(), prefix);
        let now = matching(ids, prefix);
        assert forall|y: Seq<u8>| #[trigger]
            now.contains(y) <==> ids.contains(y) && has_prefix(y, prefix) by {
            if ids.contains(y) {
                let k = choose|k: int| 0 <= k < ids.len() && ids[k] == y;
                if k < ids.len() - 1 {
                    assert(ids.drop_last()[k] == y);
                }
            }
            if ids.drop_last().contains(y) {
                let k = choose|k: int| 0 <= k < ids.drop_last().len() && ids.drop_last()[k] == y;
                assert(ids[k] == y);
            }
            assert(ids[ids.len() - 1] == last);
            if has_prefix(last, prefix) && !before.contains(last) {
                assert(now == before.push(last));
                if now.contains(y) {
                    let k = choose|k: int| 0 <= k < now.len() && now[k] == y;
                    if k < before.len() {
                        assert(before[k] == y);
                    }
                }
                if before.contains(y) {
                    let k = choose|k: int| 0 <= k < before.len() && before[k] == y;
                    assert(now[k] == y);
                }
                assert(now[before.len() as int] == last);
            }
        }
        if has_prefix(last, prefix) && !before.contains(last) {
            assert forall|i: int, j: int| 0 <= i < now.len() && 0 <= j < now.len() && i != j implies now[i]
                != now[j] by {
                if i < before.len() && j < before.len() {
                    assert(before[i] != before[j]);
                } else if i < before.len() {
                    assert(before.contains(before[i]));
                } else {
                    assert(before.contains(before[j]));
                }
            }
        }
    }
}

/// An abbreviation resolves to the one id that it stands for. Where `text`
/// has 4 to 40 hex digits, and `x` is the only id, among those looked
/// through, whose hex form begins with the digits looked at, `resolve_id`
/// gives `x`.
pub proof fn lemma_resolve_unique(store: &GitObjectStore, text: Seq<u8>, x: Seq<u8>)
    requires
        4 <= text.len() <= 40,
        all_hex(even_digits(text)),
        searched_ids(store, hex_to_bytes(even_digits(text))).contains(x),
        hex_begins(x, even_digits(text)),
        forall|y: Seq<u8>|
            searched_ids(store, hex_to_bytes(even_digits(text))).contains(y) && hex_begins(
                y,
                even_digits(text),
            ) ==> y == x,
    ensures
        resolution(store, text) == Resolution::Unique(x),
{
    let digits = even_digits(text);
    let prefix = hex_to_bytes(digits);
    let ids = searched_ids(store, prefix);
    let found = matching(ids, prefix);
    lemma_matching(ids, prefix);
    lemma_hex_prefix(x, digits);
    assert(found.contains(x));
    assert forall|i: int| 0 <= i < found.len() implies found[i] == x by {
        assert(found.contains(found[i]));
        lemma_hex_prefix(found[i], digits);
    }
    if found.len() > 1 {
        assert(found[0] == found[1]);
    }
}

/// An abbreviation that several ids share is ambiguous. Where `text` has 4
/// to 40 hex digits, and the hex forms of two different ids, among those
/// looked through, begin with the digits looked at, `resolve_id` reports
/// the ambiguity with a list that holds every such id, each once, and no
/// other.
pub proof fn lemma_resolve_ambiguous(store: &GitObjectStore, text: Seq<u8>, a: Seq<u8>, b: Seq<u8>)
    requires
        4 <= text.len() <= 40,
        all_hex(even_digits(text)),
        a != b,
        searched_ids(store, hex_to_bytes(even_digits(text))).contains(a),
        searched_ids(store, hex_to_bytes(even_digits(text))).contains(b),
        hex_begins(a, even_digits(text)),
        hex_begins(b, even_digits(text)),
    ensures
        resolution(store, text) matches Resolution::Ambiguous(list) && list.no_duplicates()
            && forall|y: Seq<u8>| #[trigger]
            list.contains(y) <==> searched_ids(store, hex_to_bytes(even_digits(text))).contains(y)
                && hex_begins(y, even_digits(text)),
{
    let digits = even_digits(text);
    let prefix = hex_to_bytes(digits);
    let ids = searched_ids(store, prefix);
    let found = matching(ids, prefix);
    lemma_matching(ids, prefix);
    lemma_hex_prefix(a, digits);
    lemma_hex_prefix(b, digits);
    assert(found.contains(a));
    assert(found.contains(b));
    if found.len() <= 1 {
        let i = choose|i: int| 0 <= i < found.len() && found[i] == a;
        let j = choose|j: int| 0 <= j < found.len() && found[j] == b;
        assert(i == j);
    }
    assert forall|y: Seq<u8>| #[trigger]
        found.contains(y) <==> ids.contains(y) && hex_begins(y, digits) by {
        lemma_hex_prefix(y, digits);
    }
}


/// An id's hex form begins with each run of its own first digits.
pub proof fn lemma_own_digits(id: Seq<u8>, n: int)
    requires
        0 <= n <= 2 * id.len(),
    ensures
        hex_begins(id, Seq::new(n as nat, |i: int| hex_text(id)[i] as u8)),
{
    let digits = Seq::new(n as nat, |i: int| hex_text(id)[i] as u8);
    assert forall|i: int| 0 <= i < digits.len() implies #[trigger] hex_digit(digits[i]) == Some(
        nibble(id, i) as u8,
    ) by {
        let k = nibble(id, i);
        assert(0 <= k < 16);
        assert(hex_text(id)[i] == crate::hexcode::nibble_char(k));
    }
}

/// An id whose hex form begins with all the digits of an abbreviation
/// begins with the digits looked at.
pub proof fn lemma_fewer_digits(id: Seq<u8>, text: Seq<u8>)
    requires
        hex_begins(id, text),
    ensures
        hex_begins(id, even_digits(text)),
{
    let digits = even_digits(text);
    assert forall|i: int| 0 <= i < digits.len() implies #[trigger] hex_digit(digits[i]) == Some(
        nibble(id, i) as u8,
    ) by {
        assert(digits[i] == text[i]);
    }
}

/// A visit lists each object of a pack once: no id stands twice among the
/// descriptions that one index gives.
pub proof fn lemma_pack_listed_once(index: Seq<u8>, name: Option<Seq<char>>)
    requires
        pack_idx(index) is Ok,
    ensures
        forall|i: int, j: int|
            0 <= i < j < idx_descs(pack_idx(index).unwrap(), name).len() ==> idx_descs(
                pack_idx(index).unwrap(),
                name,
            )[i].0 != idx_descs(pack_idx(index).unwrap(), name)[j].0,
{
    lemma_pack_idx_distinct(index);
}

} // verus!
