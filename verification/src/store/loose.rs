//! Loose objects: one zlib stream each, in a file named by the id.

use vstd::prelude::*;
use vstd::string::StringSliceAdditionalSpecFns;
use vstd::utf8::encode_utf8;

use crate::bytes::{copy_range, find_byte, scan_to};
use crate::error::GetError;
use crate::hexcode::{encode, hex_text};
use crate::ident::{id_from_text, ObjectId};
use crate::store::pack::ObjectKind;
use crate::store::util::{find_dir, loose_file_id};
use crate::store::util::backend_of;
use crate::store::{
    body_of, object_of, parse_object, raw_of, DataView, GitObject, GitObjectStore, LooseDir,
    ObjectView, RawObject, StoreBackend,
};
use crate::text::{bytes_eq, number_value, parse_number, push_bytes};
use crate::store::inflate::{inflated_stream, stream_data, Stream};

verus! {

/// The place of the first file of `dir`, at or after file `from`, that
/// stands for `id`. A file whose name gives no id ends the search.
pub open spec fn loose_file_place(dir: LooseDir, id: Seq<u8>, from: int) -> Option<int>
    decreases dir.files@.len() - from,
{
    if from < 0 || from >= dir.files@.len() {
        None
    } else {
        match loose_file_id(dir.name@, dir.files@[from].name@) {
            None => None,
            Some(found) => if found == id {
                Some(from)
            } else {
                loose_file_place(dir, id, from + 1)
            },
        }
    }
}

/// The stream of the loose object `id`: its file lies in the directory
/// named by the two hex digits of the id's first byte.
pub open spec fn loose_stream(store: &GitObjectStore, id: Seq<u8>) -> Option<Stream> {
    let at = find_dir(store.loose@, hex_text(seq![id[0]]), 0);
    if at < store.loose@.len() {
        match loose_file_place(store.loose@[at], id, 0) {
            Some(file) => Some(Stream::Loose { dir: at as usize, file: file as usize }),
            None => None,
        }
    } else {
        None
    }
}

/// The kind that a name stands for.
pub open spec fn kind_of_label(name: Seq<u8>) -> Option<ObjectKind> {
    if name == "blob".spec_bytes() {
        Some(ObjectKind::Blob)
    } else if name == "commit".spec_bytes() {
        Some(ObjectKind::Commit)
    } else if name == "tree".spec_bytes() {
        Some(ObjectKind::Tree)
    } else if name == "tag".spec_bytes() {
        Some(ObjectKind::Tag)
    } else {
        None
    }
}

/// The kind and the data of a loose object whose inflated content is
/// `content`: `<kind> SP <size> NUL <data>`. The header ends at the first
/// NUL and its kind at the first space; the kind must be one of the four
/// names, and the size, in decimal digits, must be the length of the data.
pub open spec fn loose_split(content: Seq<u8>) -> Result<(ObjectKind, Seq<u8>), GetError> {
    let nul = find_byte(content, 0, 0);
    let space = find_byte(content.subrange(0, nul), 0, 0x20);
    if nul >= content.len() || space >= nul {
        Err(GetError::MalformedHeader)
    } else {
        match (
            kind_of_label(content.subrange(0, space)),
            number_value(content.subrange(space + 1, nul), 10, usize::MAX as nat),
        ) {
            (Some(kind), Some(size)) => if size == content.len() - nul - 1 {
                Ok((kind, content.skip(nul + 1)))
            } else {
                Err(GetError::MalformedHeader)
            },
            _ => Err(GetError::MalformedHeader),
        }
    }
}

/// The kind and the data of the loose object `id`.
pub open spec fn loose_raw(store: &GitObjectStore, id: Seq<u8>) -> Result<
    (ObjectKind, Seq<u8>),
    GetError,
> {
    match loose_stream(store, id) {
        None => Err(GetError::NotFound),
        Some(stream) => match stream_data(store.inflated@, stream) {
            Err(e) => Err(e),
            Ok(content) => loose_split(content),
        },
    }
}

/// The loose object `id`, parsed.
pub open spec fn loose_object(store: &GitObjectStore, id: Seq<u8>) -> Result<ObjectView, GetError> {
    match loose_raw(store, id) {
        Err(e) => Err(e),
        Ok((kind, data)) => match body_of(store, kind, data) {
            Err(e) => Err(e),
            Ok(body) => Ok(ObjectView { id, size: data.len(), data: body }),
        },
    }
}

/// Finds the stream of the loose object `id`.
fn find_loose_stream(store: &GitObjectStore, id: &ObjectId) -> (r: Option<Stream>)
    ensures
        r == loose_stream(store, id@),
{
    let mut one: Vec<u8> = Vec::new();
    one.push(id.0[0]);
    assert(one@ =~= seq![id@[0]]);
    let name = encode(one.as_slice());
    let mut k: usize = 0;
    while k < store.loose.len()
        invariant
            k <= store.loose@.len(),
            name@ == hex_text(seq![id@[0]]),
            find_dir(store.loose@, name@, 0) == find_dir(store.loose@, name@, k as int),
        decreases store.loose@.len() - k,
    {
        if store.loose[k].name == name {
            let dir = &store.loose[k];
            let mut i: usize = 0;
            while i < dir.files.len()
                invariant
                    i <= dir.files@.len(),
                    k < store.loose@.len(),
                    *dir == store.loose@[k as int],
                    name@ == hex_text(seq![id@[0]]),
                    find_dir(store.loose@, name@, 0) == k,
                    loose_file_place(*dir, id@, 0) == loose_file_place(*dir, id@, i as int),
                decreases dir.files@.len() - i,
            {
                let mut text: Vec<u8> = Vec::new();
                push_bytes(&mut text, dir.name.as_str().as_bytes());
                push_bytes(&mut text, dir.files[i].name.as_str().as_bytes());
                assert(text@ =~= encode_utf8(dir.name@) + encode_utf8(dir.files@[i as int].name@));
                match id_from_text(text.as_slice()) {
                    None => { return None; },
                    Some(found) => {
                        if found == *id {
                            return Some(Stream::Loose { dir: k, file: i });
                        }
                    },
                }
                i += 1;
            }
            return None;
        }
        k += 1;
    }
    None
}

/// Tells the kind that a name stands for.
fn kind_from_label(name: &[u8]) -> (r: Option<ObjectKind>)
    ensures
        r == kind_of_label(name@),
{
    if bytes_eq(name, "blob".as_bytes()) {
        Some(ObjectKind::Blob)
    } else if bytes_eq(name, "commit".as_bytes()) {
        Some(ObjectKind::Commit)
    } else if bytes_eq(name, "tree".as_bytes()) {
        Some(ObjectKind::Tree)
    } else if bytes_eq(name, "tag".as_bytes()) {
        Some(ObjectKind::Tag)
    } else {
        None
    }
}

/// Splits the inflated content of a loose object into its kind and data.
pub fn split_loose(content: &[u8]) -> (r: Result<RawObject, GetError>)
    ensures
        match r {
            Ok(raw) => loose_split(content@) matches Ok(v) && v == raw@,
            Err(e) => loose_split(content@) matches Err(f) && f == e,
        },
{
    let total = content.len();
    let nul = scan_to(content, 0, 0);
    if nul >= total {
        return Err(GetError::MalformedHeader);
    }
    let header = vstd::slice::slice_subrange(content, 0, nul);
    let space = scan_to(header, 0, 0x20);
    if space >= nul {
        return Err(GetError::MalformedHeader);
    }
    let kind_text = vstd::slice::slice_subrange(content, 0, space);
    let size_text = vstd::slice::slice_subrange(content, space + 1, nul);
    let size = match parse_number(size_text, 10, usize::MAX as u64) {
        Some(n) => n,
        None => { return Err(GetError::MalformedHeader); },
    };
    let kind = match kind_from_label(kind_text) {
        Some(k) => k,
        None => { return Err(GetError::MalformedHeader); },
    };
    if size != (total - nul - 1) as u64 {
        return Err(GetError::MalformedHeader);
    }
    let data = copy_range(content, nul + 1, total);
    assert(content@.subrange(nul + 1, total as int) =~= content@.skip(nul + 1));
    Ok(RawObject { kind, data })
}

/// Reads the kind and the data of the loose object `id`.
pub fn read_loose_raw(store: &GitObjectStore, id: &ObjectId) -> (r: Result<RawObject, GetError>)
    ensures
        match r {
            Ok(raw) => loose_raw(store, id@) matches Ok(v) && v == raw@,
            Err(e) => loose_raw(store, id@) matches Err(f) && f == e,
        },
{
    let stream = match find_loose_stream(store, id) {
        Some(stream) => stream,
        None => { return Err(GetError::NotFound); },
    };
    let content = match inflated_stream(&store.inflated, stream) {
        Ok(bytes) => bytes,
        Err(e) => { return Err(e); },
    };
    split_loose(content.as_slice())
}

/// Gets the loose object `id`: takes what its file inflates to, splits
/// the header from the data, and parses the data as the kind that the
/// header names. Where the file is not inflated yet, names its stream.
pub fn get_loose_object(store: &GitObjectStore, id: ObjectId) -> (r: Result<GitObject, GetError>)
    ensures
        match r {
            Ok(object) => loose_object(store, id@) matches Ok(v) && v == object@,
            Err(e) => loose_object(store, id@) matches Err(f) && f == e,
        },
{
    let raw = match read_loose_raw(store, &id) {
        Ok(raw) => raw,
        Err(e) => { return Err(e); },
    };
    let size = raw.data.len();
    match parse_object(store, raw.kind, raw.data.as_slice()) {
        Ok(data) => Ok(GitObject { id, size, data }),
        Err(e) => Err(e),
    }
}


/// The data of a well-formed loose object is its content after the NUL
/// that ends the header, and has the length that the header declares.
pub proof fn lemma_loose_split(content: Seq<u8>)
    requires
        loose_split(content) is Ok,
    ensures
        loose_split(content).unwrap().1 == content.skip(find_byte(content, 0, 0) + 1),
{
}

/// A loose blob holds what its file inflates to: where the stream of `id`
/// has given `content`, and that is a well-formed blob, the object that
/// the store gives for `id` holds the bytes of `content` after the NUL
/// that ends its header.
pub proof fn lemma_loose_blob(store: &GitObjectStore, id: Seq<u8>, stream: Stream, content: Seq<u8>)
    requires
        backend_of(store, id) == Some(StoreBackend::Loose),
        loose_stream(store, id) == Some(stream),
        stream_data(store.inflated@, stream) == Ok::<Seq<u8>, GetError>(content),
        loose_split(content) is Ok,
        loose_split(content).unwrap().0 == ObjectKind::Blob,
    ensures
        object_of(store, id) is Ok,
        object_of(store, id).unwrap().data == (DataView::Blob {
            data: content.skip(find_byte(content, 0, 0) + 1),
        }),
{
    lemma_loose_split(content);
    assert(raw_of(store, id) == loose_split(content));
    crate::store::lemma_blob_content(store, id);
}

} // verus!
