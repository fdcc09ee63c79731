//! The object store: what lies under the objects directory of a
//! repository, read into memory, and the ways into it.
//!
//! The store does not inflate. Where an object needs a zlib stream that
//! the store has no bytes for, `get` answers with
//! `GetError::NotInflated`, which names the stream; the caller inflates
//! it, pushes what came out onto `inflated`, and asks again. Each answer
//! of that kind names a stream that has no entry yet.

use vstd::prelude::*;

use crate::error::GetError;
use crate::ident::{ids_of, ObjectId};
use crate::store::inflate::{asks_new, Inflated};
use crate::store::loose::{get_loose_object, loose_object, loose_raw, read_loose_raw};
use crate::store::object::{
    blob_of, commit_of, parse_blob, parse_commit, parse_tag, parse_tree, tag_of, tree_of,
};
use crate::store::pack::{
    get_packed_object, packed_object, packed_raw, read_packed_raw, ObjectKind,
};
use crate::store::util::{backend_of, find_backend};

pub mod delta;
pub mod inflate;
pub mod loose;
pub mod object;
pub mod pack;
pub mod render;
pub mod util;

verus! {

/// One file of a directory of loose objects.
#[derive(Debug)]
pub struct LooseFile {
    /// The file's name: for an object, the last 38 hex digits of its id.
    pub name: String,
    /// The file's bytes: for an object, a zlib stream.
    pub data: Vec<u8>,
}

/// One directory under the objects directory, with its files in the order
/// in which the directory lists them.
#[derive(Debug)]
pub struct LooseDir {
    /// The directory's name: where it holds objects, the first 2 hex
    /// digits of their ids.
    pub name: String,
    pub files: Vec<LooseFile>,
}

/// One pack with its index.
#[derive(Debug)]
pub struct PackFile {
    /// The name that the two files share, without `.idx` and `.pack`.
    pub name: String,
    /// The bytes of the index file.
    pub idx: Vec<u8>,
    /// The bytes of the pack file; empty where it is absent.
    pub pack: Vec<u8>,
}

/// The primary interface into the git object store. It holds the store as
/// it was read: the directories of loose objects and the packs, each in the
/// order in which its directory lists them.
#[derive(Debug)]
pub struct GitObjectStore {
    pub loose: Vec<LooseDir>,
    pub packs: Vec<PackFile>,
    /// What the streams inflated so far gave. An object whose streams are
    /// not all here is not had yet: `get` names the stream that is
    /// missing.
    pub inflated: Vec<Inflated>,
}

/// Where an object is kept.
#[derive(Clone, Copy, Debug, PartialEq, Eq, Structural)]
pub enum StoreBackend {
    Loose,
    Packed,
}


/// One entry of a tree: a mode, a path and the id of what lies there.
#[derive(Debug, PartialEq)]
pub struct TreeEntry {
    pub mode: u32,
    /// The kind of the object that `id` names: `blob`, `tree`, `commit` or
    /// `tag`.
    pub kind: String,
    /// The entry's name, as the bytes that the tree holds.
    pub path: Vec<u8>,
    pub id: ObjectId,
}

/// What an object holds, by its kind.
#[derive(Debug, PartialEq)]
pub enum GitObjectData {
    Blob { data: Vec<u8> },
    Tree { entries: Vec<TreeEntry> },
    Commit {
        tree: ObjectId,
        parents: Vec<ObjectId>,
        author: String,
        committer: String,
        encoding: Option<String>,
        /// The signature, its lines joined by newlines.
        gpgsig: Option<String>,
        message: Vec<u8>,
    },
    Tag {
        object: ObjectId,
        kind: String,
        tag: String,
        tagger: String,
        /// The message, with the signature of a signed tag at its end.
        message: Vec<u8>,
    },
}

/// An object of the store.
#[derive(Debug)]
pub struct GitObject {
    /// The id under which the object was asked for.
    pub id: ObjectId,
    /// The length of the object's data before it was parsed.
    pub size: usize,
    pub data: GitObjectData,
}

/// A tree entry as plain values.
pub struct EntryView {
    pub mode: u32,
    pub kind: Seq<char>,
    pub path: Seq<u8>,
    pub id: Seq<u8>,
}

/// What an object holds as plain values.
pub enum DataView {
    Blob { data: Seq<u8> },
    Tree { entries: Seq<EntryView> },
    Commit {
        tree: Seq<u8>,
        parents: Seq<Seq<u8>>,
        author: Seq<char>,
        committer: Seq<char>,
        encoding: Option<Seq<char>>,
        gpgsig: Option<Seq<char>>,
        message: Seq<u8>,
    },
    Tag { object: Seq<u8>, kind: Seq<char>, tag: Seq<char>, tagger: Seq<char>, message: Seq<u8> },
}

/// An object as plain values.
pub struct ObjectView {
    pub id: Seq<u8>,
    pub size: nat,
    pub data: DataView,
}

impl View for TreeEntry {
    type V = EntryView;

    open spec fn view(&self) -> EntryView {
        EntryView { mode: self.mode, kind: self.kind@, path: self.path@, id: self.id@ }
    }
}

/// The views of a list of entries.
pub open spec fn entries_view(entries: Seq<TreeEntry>) -> Seq<EntryView> {
    Seq::new(entries.len(), |i: int| entries[i]@)
}

/// The view of a text that may be absent.
pub open spec fn text_view(text: Option<String>) -> Option<Seq<char>> {
    match text {
        Some(t) => Some(t@),
        None => None,
    }
}

impl View for GitObjectData {
    type V = DataView;

    open spec fn view(&self) -> DataView {
        match *self {
            GitObjectData::Blob { data } => DataView::Blob { data: data@ },
            GitObjectData::Tree { entries } => DataView::Tree { entries: entries_view(entries@) },
            GitObjectData::Commit {
                tree,
                parents,
                author,
                committer,
                encoding,
                gpgsig,
                message,
            } => DataView::Commit {
                tree: tree@,
                parents: ids_of(parents@),
                author: author@,
                committer: committer@,
                encoding: text_view(encoding),
                gpgsig: text_view(gpgsig),
                message: message@,
            },
            GitObjectData::Tag { object, kind, tag, tagger, message } => DataView::Tag {
                object: object@,
                kind: kind@,
                tag: tag@,
                tagger: tagger@,
                message: message@,
            },
        }
    }
}

impl View for GitObject {
    type V = ObjectView;

    open spec fn view(&self) -> ObjectView {
        ObjectView { id: self.id@, size: self.size as nat, data: self.data@ }
    }
}

/// The name of a kind: `commit`, `tree`, `blob` or `tag`.
pub open spec fn kind_label(kind: ObjectKind) -> Seq<char> {
    match kind {
        ObjectKind::Commit => "commit"@,
        ObjectKind::Tree => "tree"@,
        ObjectKind::Blob => "blob"@,
        ObjectKind::Tag => "tag"@,
    }
}

/// The kind of the object that `data` belongs to.
pub open spec fn kind_of_data(data: DataView) -> ObjectKind {
    match data {
        DataView::Blob { .. } => ObjectKind::Blob,
        DataView::Tree { .. } => ObjectKind::Tree,
        DataView::Commit { .. } => ObjectKind::Commit,
        DataView::Tag { .. } => ObjectKind::Tag,
    }
}

impl ObjectKind {
    /// The kind's name.
    pub fn label(&self) -> (r: &'static str)
        ensures
            r@ == kind_label(*self),
    {
        match self {
            ObjectKind::Commit => "commit",
            ObjectKind::Tree => "tree",
            ObjectKind::Blob => "blob",
            ObjectKind::Tag => "tag",
        }
    }
}

impl GitObject {
    /// The object's kind.
    pub fn kind(&self) -> (r: ObjectKind)
        ensures
            r == kind_of_data(self@.data),
    {
        match self.data {
            GitObjectData::Blob { .. } => ObjectKind::Blob,
            GitObjectData::Tree { .. } => ObjectKind::Tree,
            GitObjectData::Commit { .. } => ObjectKind::Commit,
            GitObjectData::Tag { .. } => ObjectKind::Tag,
        }
    }

    /// The name of the object's kind.
    pub fn type_str(&self) -> (r: &'static str)
        ensures
            r@ == kind_label(kind_of_data(self@.data)),
    {
        self.kind().label()
    }

    /// The name of the object's kind, as an owned string.
    pub fn type_string(&self) -> (r: String)
        ensures
            r@ == kind_label(kind_of_data(self@.data)),
    {
        self.type_str().to_owned()
    }
}


/// An object as it is stored: its kind, and its data not yet parsed.
#[derive(Debug)]
pub struct RawObject {
    pub kind: ObjectKind,
    pub data: Vec<u8>,
}

impl View for RawObject {
    type V = (ObjectKind, Seq<u8>);

    open spec fn view(&self) -> (ObjectKind, Seq<u8>) {
        (self.kind, self.data@)
    }
}

/// The kind and the data of the object `id`, from the backend that holds
/// it.
pub open spec fn raw_of(store: &GitObjectStore, id: Seq<u8>) -> Result<(ObjectKind, Seq<u8>), GetError> {
    match backend_of(store, id) {
        None => Err(GetError::NotFound),
        Some(StoreBackend::Loose) => loose_raw(store, id),
        Some(StoreBackend::Packed) => packed_raw(store, id),
    }
}

/// What data of the kind `kind` holds. The entries of a tree are given the
/// kinds of the objects they name, so a tree needs the store.
pub open spec fn body_of(store: &GitObjectStore, kind: ObjectKind, data: Seq<u8>) -> Result<
    DataView,
    GetError,
> {
    match kind {
        ObjectKind::Commit => commit_of(data),
        ObjectKind::Tree => tree_of(store, data),
        ObjectKind::Blob => Ok(blob_of(data)),
        ObjectKind::Tag => tag_of(data),
    }
}

/// The object `id` of the store: from the loose backend where that holds
/// it, else from the packs, and an error where neither does.
pub open spec fn object_of(store: &GitObjectStore, id: Seq<u8>) -> Result<ObjectView, GetError> {
    match backend_of(store, id) {
        None => Err(GetError::NotFound),
        Some(StoreBackend::Loose) => loose_object(store, id),
        Some(StoreBackend::Packed) => packed_object(store, id),
    }
}

/// Parses `data` as the body of an object of the kind `kind`.
pub fn parse_object(store: &GitObjectStore, kind: ObjectKind, data: &[u8]) -> (r: Result<
    GitObjectData,
    GetError,
>)
    ensures
        match r {
            Ok(d) => body_of(store, kind, data@) matches Ok(v) && v == d@,
            Err(e) => body_of(store, kind, data@) matches Err(f) && f == e,
        },
{
    match kind {
        ObjectKind::Commit => parse_commit(data),
        ObjectKind::Tree => parse_tree(store, data),
        ObjectKind::Blob => parse_blob(data),
        ObjectKind::Tag => parse_tag(data),
    }
}

impl GitObjectStore {
    /// Reads the kind and the data of the object `id`, without parsing
    /// the data.
    pub fn read_raw(&self, id: &ObjectId) -> (r: Result<RawObject, GetError>)
        ensures
            match r {
                Ok(raw) => raw_of(self, id@) matches Ok(v) && v == raw@,
                Err(e) => raw_of(self, id@) matches Err(f) && f == e,
            },
    {
        match find_backend(self, *id) {
            None => Err(GetError::NotFound),
            Some(StoreBackend::Loose) => read_loose_raw(self, id),
            Some(StoreBackend::Packed) => read_packed_raw(self, id),
        }
    }

    /// Retrieves the object keyed by the SHA-1 `id` from the store,
    /// whether it is kept loose or packed. The object returned carries the
    /// id it was asked for. Where a stream that the object needs is not
    /// inflated yet, the error names it, and the store has no entry for
    /// it.
    pub fn get(&self, id: ObjectId) -> (r: Result<GitObject, GetError>)
        ensures
            match r {
                Ok(object) => object_of(self, id@) matches Ok(v) && v == object@,
                Err(e) => object_of(self, id@) matches Err(f) && f == e,
            },
            r matches Ok(object) ==> object.id@ == id@,
            r matches Err(e) ==> asks_new(self.inflated@, e),
    {
        proof {
            lemma_object_asks_new(self, id@);
        }
        match find_backend(self, id) {
            None => Err(GetError::NotFound),
            Some(StoreBackend::Loose) => get_loose_object(self, id),
            Some(StoreBackend::Packed) => get_packed_object(self, id),
        }
    }
}


/// Data that parses as the body of a kind gives an object of that kind.
pub proof fn lemma_body_kind(store: &GitObjectStore, kind: ObjectKind, data: Seq<u8>)
    requires
        body_of(store, kind, data) is Ok,
    ensures
        kind_of_data(body_of(store, kind, data).unwrap()) == kind,
{
}

/// An object that the store gives carries the id it was asked for, the
/// kind under which it is stored, and the length of its stored data.
pub proof fn lemma_object_keeps_id(store: &GitObjectStore, id: Seq<u8>)
    requires
        object_of(store, id) is Ok,
    ensures
        object_of(store, id).unwrap().id == id,
        raw_of(store, id) is Ok,
        kind_of_data(object_of(store, id).unwrap().data) == raw_of(store, id).unwrap().0,
        object_of(store, id).unwrap().size == raw_of(store, id).unwrap().1.len(),
{
    let raw = raw_of(store, id).unwrap();
    lemma_body_kind(store, raw.0, raw.1);
}

/// A blob that the store gives holds the bytes under which it is stored:
/// those that its loose stream gave after the header, or those that its
/// pack entry's stream gave or that its delta chain rebuilds.
pub proof fn lemma_blob_content(store: &GitObjectStore, id: Seq<u8>)
    requires
        raw_of(store, id) is Ok,
        raw_of(store, id).unwrap().0 == ObjectKind::Blob,
    ensures
        object_of(store, id) == Ok::<ObjectView, GetError>(
            ObjectView {
                id,
                size: raw_of(store, id).unwrap().1.len(),
                data: DataView::Blob { data: raw_of(store, id).unwrap().1 },
            },
        ),
{
}

/// An object whose data cannot be read yet asks for a stream that has no
/// entry.
pub proof fn lemma_raw_asks_new(store: &GitObjectStore, id: Seq<u8>)
    ensures
        raw_of(store, id) matches Err(e) ==> asks_new(store.inflated@, e),
{
    match backend_of(store, id) {
        Some(StoreBackend::Loose) => {
            match crate::store::loose::loose_stream(store, id) {
                Some(stream) => {
                    crate::store::inflate::lemma_asked_stream_is_new(store.inflated@, stream);
                },
                None => {},
            }
        },
        Some(StoreBackend::Packed) => {
            match crate::store::pack::locate(store.packs@, id, 0) {
                Some((k, offset)) => {
                    crate::store::pack::lemma_packed_entry_asks_new(
                        store.packs@[k].pack@,
                        store.inflated@,
                        k as usize,
                        offset as int,
                    );
                },
                None => {},
            }
        },
        None => {},
    }
}

/// An object that cannot be had yet asks for a stream that has no entry:
/// once the caller has added what that stream gave, the store does not ask
/// for it again.
pub proof fn lemma_object_asks_new(store: &GitObjectStore, id: Seq<u8>)
    ensures
        object_of(store, id) matches Err(e) ==> asks_new(store.inflated@, e),
{
    lemma_raw_asks_new(store, id);
    match raw_of(store, id) {
        Ok((kind, data)) => {
            if kind == ObjectKind::Tree {
                crate::store::object::lemma_tree_entries_asks_new(store, data, 0);
            }
        },
        Err(_) => {},
    }
}

} // verus!
