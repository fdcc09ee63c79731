//! The bodies of the four kinds of object.

use vstd::prelude::*;
use vstd::string::StringSliceAdditionalSpecFns;

use crate::bytes::{copy_range, find_byte, lemma_find_byte, scan_to};
use crate::error::{GetError, ParseErrorKind};
use crate::ident::{id_from_text, id_of_text, ids_of, ObjectId};
use crate::store::{
    entries_view, kind_label, raw_of, DataView, EntryView, GitObjectData, GitObjectStore,
    TreeEntry,
};
use crate::text::{bytes_eq, number_value, parse_number, text_of, utf8_lossy};

verus! {

/// The body of a blob: the data as it stands.
pub open spec fn blob_of(s: Seq<u8>) -> DataView {
    DataView::Blob { data: s }
}

/// Blob object format: `<data>`.
pub fn parse_blob(data: &[u8]) -> (r: Result<GitObjectData, GetError>)
    ensures
        r matches Ok(d) && d@ == blob_of(data@),
{
    let copy = copy_range(data, 0, data.len());
    assert(data@.subrange(0, data@.len() as int) =~= data@);
    Ok(GitObjectData::Blob { data: copy })
}

/// The value of a header that starts at `at`, and the place after it. The
/// value runs to the end of the line; a line after it that begins with a
/// space continues it, the space dropped and the newline between them
/// kept. `None` where nothing follows the header's last line.
pub open spec fn header_value(s: Seq<u8>, at: int) -> Option<(Seq<u8>, int)>
    decreases s.len() - at,
    via header_value_decreases
{
    let line_end = find_byte(s, at, 0x0a);
    if at < 0 || at > s.len() || line_end + 1 >= s.len() {
        None
    } else if s[line_end + 1] == 0x20 {
        match header_value(s, line_end + 2) {
            None => None,
            Some((rest, end)) => Some((s.subrange(at, line_end) + seq![0x0au8] + rest, end)),
        }
    } else {
        Some((s.subrange(at, line_end), line_end + 1))
    }
}

#[via_fn]
proof fn header_value_decreases(s: Seq<u8>, at: int) {
    if 0 <= at <= s.len() {
        lemma_find_byte(s, at, 0x0a);
    }
}

/// A header's value ends after the place it starts at.
pub proof fn lemma_header_value(s: Seq<u8>, at: int)
    requires
        header_value(s, at) is Some,
    ensures
        at < header_value(s, at).unwrap().1 < s.len(),
    decreases s.len() - at,
{
    lemma_find_byte(s, at, 0x0a);
    let line_end = find_byte(s, at, 0x0a);
    if s[line_end + 1] == 0x20 {
        lemma_header_value(s, line_end + 2);
    }
}

/// The header that starts at `at`, as its key and its value, and the place
/// after it. The key runs up to the first space, the value from there on.
pub open spec fn header_at(s: Seq<u8>, at: int) -> Option<((Seq<u8>, Seq<u8>), int)> {
    let key_end = find_byte(s, at, 0x20);
    let value_at = if key_end < s.len() {
        key_end + 1
    } else {
        key_end
    };
    match header_value(s, value_at) {
        None => None,
        Some((value, end)) => Some(((s.subrange(at, key_end), value), end)),
    }
}

/// The headers from `at` up to the empty line that ends them, in order,
/// and the place of that line. `None` where the data ends before it.
pub open spec fn headers_from(s: Seq<u8>, at: int) -> Option<(Seq<(Seq<u8>, Seq<u8>)>, int)>
    decreases s.len() - at,
    via headers_from_decreases
{
    if at < 0 || at >= s.len() {
        None
    } else if s[at] == 0x0a {
        Some((Seq::empty(), at))
    } else {
        match header_at(s, at) {
            None => None,
            Some((header, next)) => match headers_from(s, next) {
                None => None,
                Some((rest, end)) => Some((seq![header] + rest, end)),
            },
        }
    }
}

#[via_fn]
proof fn headers_from_decreases(s: Seq<u8>, at: int) {
    if 0 <= at < s.len() && header_at(s, at) is Some {
        lemma_header_at(s, at);
    }
}

/// A header ends after the place it starts at.
pub proof fn lemma_header_at(s: Seq<u8>, at: int)
    requires
        0 <= at <= s.len(),
        header_at(s, at) is Some,
    ensures
        at < header_at(s, at).unwrap().1 < s.len(),
{
    lemma_find_byte(s, at, 0x20);
    let key_end = find_byte(s, at, 0x20);
    let value_at = if key_end < s.len() {
        key_end + 1
    } else {
        key_end
    };
    lemma_header_value(s, value_at);
}

/// The headers end at a newline within the data.
pub proof fn lemma_headers_from(s: Seq<u8>, at: int)
    requires
        headers_from(s, at) is Some,
    ensures
        at <= headers_from(s, at).unwrap().1 < s.len(),
        s[headers_from(s, at).unwrap().1] == 0x0a,
    decreases s.len() - at,
{
    if s[at] != 0x0a {
        lemma_header_at(s, at);
        lemma_headers_from(s, header_at(s, at).unwrap().1);
    }
}

/// One header of a commit or a tag.
#[derive(Debug)]
pub struct Header {
    pub key: Vec<u8>,
    pub value: Vec<u8>,
}

impl View for Header {
    type V = (Seq<u8>, Seq<u8>);

    open spec fn view(&self) -> (Seq<u8>, Seq<u8>) {
        (self.key@, self.value@)
    }
}

/// The views of a list of headers.
pub open spec fn headers_view(list: Seq<Header>) -> Seq<(Seq<u8>, Seq<u8>)> {
    Seq::new(list.len(), |i: int| list[i]@)
}

/// Reads the header that starts at `at`: the header, and the place after
/// it.
pub fn parse_header(data: &[u8], at: usize) -> (r: Option<(Header, usize)>)
    requires
        at <= data@.len(),
    ensures
        match r {
            Some((header, end)) => header_at(data@, at as int) == Some((header@, end as int)),
            None => header_at(data@, at as int) is None,
        },
{
    let key_end = scan_to(data, at, 0x20);
    let key = copy_range(data, at, key_end);
    let value_at: usize = if key_end < data.len() {
        key_end + 1
    } else {
        key_end
    };
    let mut value: Vec<u8> = Vec::new();
    let mut line_at: usize = value_at;
    let ghost whole = header_value(data@, value_at as int);
    proof {
        if whole is Some {
            assert(value@ + whole.unwrap().0 =~= whole.unwrap().0);
        }
    }
    loop
        invariant
            line_at <= data@.len() <= usize::MAX,
            key_end == find_byte(data@, at as int, 0x20),
            key@ == data@.subrange(at as int, key_end as int),
            value_at == if key_end < data@.len() {
                key_end + 1
            } else {
                key_end as int
            },
            whole == header_value(data@, value_at as int),
            whole == match header_value(data@, line_at as int) {
                None => None,
                Some((rest, end)) => Some((value@ + rest, end)),
            },
        decreases data@.len() - line_at,
    {
        let line_end = scan_to(data, line_at, 0x0a);
        let ghost before = value@;
        let ghost line = data@.subrange(line_at as int, line_end as int);
        if line_end >= data.len() || line_end + 1 >= data.len() {
            return None;
        }
        push_range(&mut value, data, line_at, line_end);
        if data[line_end + 1] == 0x20 {
            value.push(0x0a);
            proof {
                let after = header_value(data@, line_end + 2);
                if after is Some {
                    assert((before + line + seq![0x0au8]) + after.unwrap().0 =~= before + (line
                        + seq![0x0au8] + after.unwrap().0));
                }
            }
            line_at = line_end + 2;
        } else {
            assert(value@ =~= before + line);
            return Some((Header { key, value }, line_end + 1));
        }
    }
}

/// Appends the bytes of `data` from `from` up to `to` to `out`.
fn push_range(out: &mut Vec<u8>, data: &[u8], from: usize, to: usize)
    requires
        from <= to <= data@.len(),
    ensures
        final(out)@ == old(out)@ + data@.subrange(from as int, to as int),
{
    let mut i: usize = from;
    assert(data@.subrange(from as int, from as int) =~= Seq::<u8>::empty());
    assert(out@ + Seq::<u8>::empty() =~= out@);
    while i < to
        invariant
            from <= i <= to <= data@.len(),
            out@ == old(out)@ + data@.subrange(from as int, i as int),
        decreases to - i,
    {
        out.push(data[i]);
        assert(out@ =~= old(out)@ + data@.subrange(from as int, i + 1));
        i += 1;
    }
}

/// Reads the headers from `at` up to the empty line that ends them: the
/// headers in order, every occurrence of a key kept, and the place of the
/// empty line.
pub fn parse_headers(data: &[u8], at: usize) -> (r: Option<(Vec<Header>, usize)>)
    ensures
        match r {
            Some((headers, end)) => headers_from(data@, at as int) == Some(
                (headers_view(headers@), end as int),
            ),
            None => headers_from(data@, at as int) is None,
        },
{
    let mut headers: Vec<Header> = Vec::new();
    let mut pos: usize = at;
    let ghost whole = headers_from(data@, at as int);
    assert(headers_view(headers@) =~= Seq::<(Seq<u8>, Seq<u8>)>::empty());
    proof {
        let rest = headers_from(data@, pos as int);
        if rest is Some {
            assert(headers_view(headers@) + rest.unwrap().0 =~= rest.unwrap().0);
        }
    }
    loop
        invariant
            whole == headers_from(data@, at as int),
            whole == match headers_from(data@, pos as int) {
                None => None,
                Some((rest, end)) => Some((headers_view(headers@) + rest, end)),
            },
        decreases data@.len() - pos,
    {
        if pos >= data.len() {
            return None;
        }
        if data[pos] == 0x0a {
            assert(headers_view(headers@) + Seq::<(Seq<u8>, Seq<u8>)>::empty() =~= headers_view(
                headers@,
            ));
            return Some((headers, pos));
        }
        let (header, next) = match parse_header(data, pos) {
            Some(pair) => pair,
            None => { return None; },
        };
        proof {
            lemma_header_at(data@, pos as int);
        }
        let ghost before = headers_view(headers@);
        let ghost one = header@;
        headers.push(header);
        proof {
            assert(headers_view(headers@) =~= before + seq![one]);
            let after = headers_from(data@, next as int);
            if after is Some {
                assert((before + seq![one]) + after.unwrap().0 =~= before + (seq![one]
                    + after.unwrap().0));
            }
        }
        pos = next;
    }
}

/// The value of the first header at or after `from` whose key is `key`.
pub open spec fn first_value(headers: Seq<(Seq<u8>, Seq<u8>)>, key: Seq<u8>, from: int) -> Option<
    Seq<u8>,
>
    decreases headers.len() - from,
{
    if from < 0 || from >= headers.len() {
        None
    } else if headers[from].0 == key {
        Some(headers[from].1)
    } else {
        first_value(headers, key, from + 1)
    }
}

/// Finds the value of the first header whose key is `key`.
pub fn find_header<'a>(headers: &'a Vec<Header>, key: &str) -> (r: Option<&'a Vec<u8>>)
    ensures
        match r {
            Some(value) => first_value(headers_view(headers@), key.spec_bytes(), 0) == Some(value@),
            None => first_value(headers_view(headers@), key.spec_bytes(), 0) is None,
        },
{
    let mut i: usize = 0;
    while i < headers.len()
        invariant
            i <= headers@.len(),
            first_value(headers_view(headers@), key.spec_bytes(), 0) == first_value(
                headers_view(headers@),
                key.spec_bytes(),
                i as int,
            ),
        decreases headers@.len() - i,
    {
        if bytes_eq(headers[i].key.as_slice(), key.as_bytes()) {
            return Some(&headers[i].value);
        }
        i += 1;
    }
    None
}

/// The ids that the `parent` headers at or after `from` name, in order.
/// `None` where the value of one of them is not 40 hex digits.
pub open spec fn parent_ids(headers: Seq<(Seq<u8>, Seq<u8>)>, from: int) -> Option<Seq<Seq<u8>>>
    decreases headers.len() - from,
{
    if from < 0 || from >= headers.len() {
        Some(Seq::empty())
    } else if headers[from].0 != "parent".spec_bytes() {
        parent_ids(headers, from + 1)
    } else {
        match (id_of_text(headers[from].1), parent_ids(headers, from + 1)) {
            (Some(id), Some(rest)) => Some(seq![id] + rest),
            _ => None,
        }
    }
}

/// The text of a header that may be absent.
pub open spec fn optional_text(value: Option<Seq<u8>>) -> Option<Seq<char>> {
    match value {
        Some(v) => Some(text_of(v)),
        None => None,
    }
}

/// The body of a commit. It must have a `tree` header whose value is 40
/// hex digits; each `parent` header must have such a value; and it must
/// have an `author` and a `committer`. Of a key that stands more than
/// once, but for `parent`, the first occurrence counts. The message is
/// what follows the empty line.
pub open spec fn commit_of(s: Seq<u8>) -> Result<DataView, GetError> {
    match headers_from(s, 0) {
        None => Err(GetError::ParseError(ParseErrorKind::Truncated)),
        Some((headers, end)) => match first_value(headers, "tree".spec_bytes(), 0) {
            None => Err(GetError::ParseError(ParseErrorKind::MissingHeader)),
            Some(tree_text) => match (id_of_text(tree_text), parent_ids(headers, 0)) {
                (Some(tree), Some(parents)) => match (
                    first_value(headers, "author".spec_bytes(), 0),
                    first_value(headers, "committer".spec_bytes(), 0),
                ) {
                    (Some(author), Some(committer)) => Ok(
                        DataView::Commit {
                            tree,
                            parents,
                            author: text_of(author),
                            committer: text_of(committer),
                            encoding: optional_text(
                                first_value(headers, "encoding".spec_bytes(), 0),
                            ),
                            gpgsig: optional_text(first_value(headers, "gpgsig".spec_bytes(), 0)),
                            message: s.skip(end + 1),
                        },
                    ),
                    _ => Err(GetError::ParseError(ParseErrorKind::MissingHeader)),
                },
                _ => Err(GetError::ParseError(ParseErrorKind::BadObjectId)),
            },
        },
    }
}

/// Reads the ids of the `parent` headers.
fn read_parents(headers: &Vec<Header>) -> (r: Option<Vec<ObjectId>>)
    ensures
        match r {
            Some(ids) => parent_ids(headers_view(headers@), 0) == Some(ids_of(ids@)),
            None => parent_ids(headers_view(headers@), 0) is None,
        },
{
    let mut parents: Vec<ObjectId> = Vec::new();
    let mut i: usize = 0;
    let ghost whole = parent_ids(headers_view(headers@), 0);
    proof {
        assert(ids_of(parents@) =~= Seq::<Seq<u8>>::empty());
        if whole is Some {
            assert(ids_of(parents@) + whole.unwrap() =~= whole.unwrap());
        }
    }
    while i < headers.len()
        invariant
            i <= headers@.len(),
            whole == parent_ids(headers_view(headers@), 0),
            whole == match parent_ids(headers_view(headers@), i as int) {
                None => None,
                Some(rest) => Some(ids_of(parents@) + rest),
            },
        decreases headers@.len() - i,
    {
        if bytes_eq(headers[i].key.as_slice(), "parent".as_bytes()) {
            let id = match id_from_text(headers[i].value.as_slice()) {
                Some(id) => id,
                None => { return None; },
            };
            let ghost before = ids_of(parents@);
            parents.push(id);
            proof {
                assert(ids_of(parents@) =~= before + seq![id@]);
                let after = parent_ids(headers_view(headers@), i + 1);
                if after is Some {
                    assert((before + seq![id@]) + after.unwrap() =~= before + (seq![id@]
                        + after.unwrap()));
                }
            }
        }
        i += 1;
    }
    assert(ids_of(parents@) + Seq::<Seq<u8>>::empty() =~= ids_of(parents@));
    Some(parents)
}

/// The text of a header's value where the header is present.
fn header_text(value: Option<&Vec<u8>>) -> (r: Option<String>)
    ensures
        match (r, value) {
            (Some(t), Some(v)) => t@ == text_of(v@),
            (None, None) => true,
            _ => false,
        },
{
    match value {
        Some(v) => Some(utf8_lossy(v.as_slice())),
        None => None,
    }
}

/// Commit object format:
///
/// ```text
/// "tree " <tree-sha> \n
/// "parent " <parent-sha> \n   (any number of them)
/// "author " <user-info> \n
/// "committer " <user-info> \n
/// "encoding " <encoding> \n   (optional)
/// "gpgsig " <signature> \n    (optional, continued over lines that begin with a space)
/// \n
/// <commit-message>
/// ```
pub fn parse_commit(data: &[u8]) -> (r: Result<GitObjectData, GetError>)
    ensures
        match r {
            Ok(d) => commit_of(data@) matches Ok(v) && v == d@,
            Err(e) => commit_of(data@) matches Err(f) && f == e,
        },
{
    let (headers, end) = match parse_headers(data, 0) {
        Some(pair) => pair,
        None => { return Err(GetError::ParseError(ParseErrorKind::Truncated)); },
    };
    proof {
        lemma_headers_from(data@, 0);
    }
    let tree_text = match find_header(&headers, "tree") {
        Some(v) => v,
        None => { return Err(GetError::ParseError(ParseErrorKind::MissingHeader)); },
    };
    let tree = match id_from_text(tree_text.as_slice()) {
        Some(id) => id,
        None => { return Err(GetError::ParseError(ParseErrorKind::BadObjectId)); },
    };
    let parents = match read_parents(&headers) {
        Some(ids) => ids,
        None => { return Err(GetError::ParseError(ParseErrorKind::BadObjectId)); },
    };
    let author = match find_header(&headers, "author") {
        Some(v) => utf8_lossy(v.as_slice()),
        None => { return Err(GetError::ParseError(ParseErrorKind::MissingHeader)); },
    };
    let committer = match find_header(&headers, "committer") {
        Some(v) => utf8_lossy(v.as_slice()),
        None => { return Err(GetError::ParseError(ParseErrorKind::MissingHeader)); },
    };
    let encoding = header_text(find_header(&headers, "encoding"));
    let gpgsig = header_text(find_header(&headers, "gpgsig"));
    let total = data.len();
    let message = copy_range(data, end + 1, total);
    assert(data@.subrange(end + 1, data@.len() as int) =~= data@.skip(end + 1));
    Ok(GitObjectData::Commit { tree, parents, author, committer, encoding, gpgsig, message })
}

/// The body of a tag. It must have the headers `object`, whose value is 40
/// hex digits, `type`, `tag` and `tagger`. Of a key that stands more than
/// once the first occurrence counts. The message is what follows the empty
/// line.
pub open spec fn tag_of(s: Seq<u8>) -> Result<DataView, GetError> {
    match headers_from(s, 0) {
        None => Err(GetError::ParseError(ParseErrorKind::Truncated)),
        Some((headers, end)) => match (
            first_value(headers, "object".spec_bytes(), 0),
            first_value(headers, "type".spec_bytes(), 0),
            first_value(headers, "tag".spec_bytes(), 0),
            first_value(headers, "tagger".spec_bytes(), 0),
        ) {
            (Some(object_text), Some(kind), Some(tag), Some(tagger)) => match id_of_text(
                object_text,
            ) {
                Some(object) => Ok(
                    DataView::Tag {
                        object,
                        kind: text_of(kind),
                        tag: text_of(tag),
                        tagger: text_of(tagger),
                        message: s.skip(end + 1),
                    },
                ),
                None => Err(GetError::ParseError(ParseErrorKind::BadObjectId)),
            },
            _ => Err(GetError::ParseError(ParseErrorKind::MissingHeader)),
        },
    }
}

/// Tag object format:
///
/// ```text
/// "object " <sha> \n
/// "type " <kind> \n
/// "tag " <name> \n
/// "tagger " <user-info> \n
/// \n
/// <message>
/// ```
pub fn parse_tag(data: &[u8]) -> (r: Result<GitObjectData, GetError>)
    ensures
        match r {
            Ok(d) => tag_of(data@) matches Ok(v) && v == d@,
            Err(e) => tag_of(data@) matches Err(f) && f == e,
        },
{
    let (headers, end) = match parse_headers(data, 0) {
        Some(pair) => pair,
        None => { return Err(GetError::ParseError(ParseErrorKind::Truncated)); },
    };
    proof {
        lemma_headers_from(data@, 0);
    }
    let object_text = match find_header(&headers, "object") {
        Some(v) => v,
        None => { return Err(GetError::ParseError(ParseErrorKind::MissingHeader)); },
    };
    let kind = match find_header(&headers, "type") {
        Some(v) => utf8_lossy(v.as_slice()),
        None => { return Err(GetError::ParseError(ParseErrorKind::MissingHeader)); },
    };
    let tag = match find_header(&headers, "tag") {
        Some(v) => utf8_lossy(v.as_slice()),
        None => { return Err(GetError::ParseError(ParseErrorKind::MissingHeader)); },
    };
    let tagger = match find_header(&headers, "tagger") {
        Some(v) => utf8_lossy(v.as_slice()),
        None => { return Err(GetError::ParseError(ParseErrorKind::MissingHeader)); },
    };
    let object = match id_from_text(object_text.as_slice()) {
        Some(id) => id,
        None => { return Err(GetError::ParseError(ParseErrorKind::BadObjectId)); },
    };
    let total = data.len();
    let message = copy_range(data, end + 1, total);
    assert(data@.subrange(end + 1, data@.len() as int) =~= data@.skip(end + 1));
    Ok(GitObjectData::Tag { object, kind, tag, tagger, message })
}


/// The tree entry that starts at `at`, and the place after it:
/// `<mode> SP <path> NUL <20 bytes of id>`. The mode is an octal number
/// that fits 32 bits; the path is the bytes up to the NUL; the kind is
/// that of the object that the id names in the store, which must be there.
pub open spec fn tree_entry_at(store: &GitObjectStore, s: Seq<u8>, at: int) -> Result<
    (EntryView, int),
    GetError,
> {
    let space = find_byte(s, at, 0x20);
    let path_at = if space < s.len() {
        space + 1
    } else {
        space
    };
    let nul = find_byte(s, path_at, 0);
    let id_at = if nul < s.len() {
        nul + 1
    } else {
        nul
    };
    match number_value(s.subrange(at, space), 8, 0xffff_ffff) {
        None => Err(GetError::ParseError(ParseErrorKind::BadMode)),
        Some(mode) => if id_at + 20 > s.len() {
            Err(GetError::ParseError(ParseErrorKind::BadObjectId))
        } else {
            match raw_of(store, s.subrange(id_at, id_at + 20)) {
                Err(e) => Err(e),
                Ok((kind, _)) => Ok(
                    (
                        EntryView {
                            mode: mode as u32,
                            kind: kind_label(kind),
                            path: s.subrange(path_at, nul),
                            id: s.subrange(id_at, id_at + 20),
                        },
                        id_at + 20,
                    ),
                ),
            }
        },
    }
}

/// A tree entry ends after the place it starts at, within the data.
pub proof fn lemma_tree_entry_at(store: &GitObjectStore, s: Seq<u8>, at: int)
    requires
        0 <= at <= s.len(),
        tree_entry_at(store, s, at) is Ok,
    ensures
        at < tree_entry_at(store, s, at).unwrap().1 <= s.len(),
{
    lemma_find_byte(s, at, 0x20);
    let space = find_byte(s, at, 0x20);
    let path_at = if space < s.len() {
        space + 1
    } else {
        space
    };
    lemma_find_byte(s, path_at, 0);
}

/// The entries of a tree from `at` to the end of the data, in the order
/// of the data.
pub open spec fn tree_entries(store: &GitObjectStore, s: Seq<u8>, at: int) -> Result<
    Seq<EntryView>,
    GetError,
>
    decreases s.len() - at,
    via tree_entries_decreases
{
    if at < 0 || at >= s.len() {
        Ok(Seq::empty())
    } else {
        match tree_entry_at(store, s, at) {
            Err(e) => Err(e),
            Ok((entry, next)) => match tree_entries(store, s, next) {
                Err(e) => Err(e),
                Ok(rest) => Ok(seq![entry] + rest),
            },
        }
    }
}

#[via_fn]
proof fn tree_entries_decreases(store: &GitObjectStore, s: Seq<u8>, at: int) {
    if 0 <= at < s.len() && tree_entry_at(store, s, at) is Ok {
        lemma_tree_entry_at(store, s, at);
    }
}

/// The body of a tree: its entries, in the order of the data.
pub open spec fn tree_of(store: &GitObjectStore, s: Seq<u8>) -> Result<DataView, GetError> {
    match tree_entries(store, s, 0) {
        Err(e) => Err(e),
        Ok(entries) => Ok(DataView::Tree { entries }),
    }
}

/// Reads the tree entry that starts at `at`: the entry, and the place
/// after it.
pub fn parse_tree_entry(store: &GitObjectStore, data: &[u8], at: usize) -> (r: Result<
    (TreeEntry, usize),
    GetError,
>)
    requires
        at <= data@.len(),
    ensures
        match r {
            Ok((entry, next)) => tree_entry_at(store, data@, at as int) matches Ok(v) && v == (
                entry@,
                next as int,
            ),
            Err(e) => tree_entry_at(store, data@, at as int) matches Err(f) && f == e,
        },
{
    let total = data.len();
    let space = scan_to(data, at, 0x20);
    let path_at: usize = if space < total {
        space + 1
    } else {
        space
    };
    let nul = scan_to(data, path_at, 0);
    let id_at: usize = if nul < total {
        nul + 1
    } else {
        nul
    };
    let mode_text = vstd::slice::slice_subrange(data, at, space);
    let mode = match parse_number(mode_text, 8, 0xffff_ffff) {
        Some(v) => v as u32,
        None => { return Err(GetError::ParseError(ParseErrorKind::BadMode)); },
    };
    if total - id_at < 20 {
        return Err(GetError::ParseError(ParseErrorKind::BadObjectId));
    }
    let id = match ObjectId::from_slice(vstd::slice::slice_subrange(data, id_at, id_at + 20)) {
        Some(id) => id,
        None => { return Err(GetError::ParseError(ParseErrorKind::BadObjectId)); },
    };
    let raw = match store.read_raw(&id) {
        Ok(raw) => raw,
        Err(e) => { return Err(e); },
    };
    let path = copy_range(data, path_at, nul);
    let kind = raw.kind.label().to_owned();
    Ok((TreeEntry { mode, kind, path, id }, id_at + 20))
}

/// Tree object format: entries, one after the other, each
/// `<mode> ' ' <path> '\0' <sha>`, the mode in octal digits.
pub fn parse_tree(store: &GitObjectStore, data: &[u8]) -> (r: Result<GitObjectData, GetError>)
    ensures
        match r {
            Ok(d) => tree_of(store, data@) matches Ok(v) && v == d@,
            Err(e) => tree_of(store, data@) matches Err(f) && f == e,
        },
{
    let mut entries: Vec<TreeEntry> = Vec::new();
    let mut pos: usize = 0;
    let ghost whole = tree_entries(store, data@, 0);
    proof {
        assert(entries_view(entries@) =~= Seq::<EntryView>::empty());
        if whole is Ok {
            assert(entries_view(entries@) + whole.unwrap() =~= whole.unwrap());
        }
    }
    while pos < data.len()
        invariant
            pos <= data@.len(),
            whole == tree_entries(store, data@, 0),
            match tree_entries(store, data@, pos as int) {
                Err(e) => whole matches Err(f) && f == e,
                Ok(rest) => whole matches Ok(all) && all == entries_view(entries@) + rest,
            },
        decreases data@.len() - pos,
    {
        let (entry, next) = match parse_tree_entry(store, data, pos) {
            Ok(pair) => pair,
            Err(e) => { return Err(e); },
        };
        proof {
            lemma_tree_entry_at(store, data@, pos as int);
        }
        let ghost before = entries_view(entries@);
        let ghost one = entry@;
        entries.push(entry);
        proof {
            assert(entries_view(entries@) =~= before + seq![one]);
            let after = tree_entries(store, data@, next as int);
            if after is Ok {
                assert((before + seq![one]) + after.unwrap() =~= before + (seq![one]
                    + after.unwrap()));
            }
        }
        pos = next;
    }
    assert(entries_view(entries@) + Seq::<EntryView>::empty() =~= entries_view(entries@));
    Ok(GitObjectData::Tree { entries })
}

/// A tree that cannot be parsed yet asks for a stream that has no entry.
pub proof fn lemma_tree_entries_asks_new(store: &GitObjectStore, s: Seq<u8>, at: int)
    ensures
        tree_entries(store, s, at) matches Err(e) ==> crate::store::inflate::asks_new(
            store.inflated@,
            e,
        ),
    decreases s.len() - at,
{
    if 0 <= at < s.len() {
        match tree_entry_at(store, s, at) {
            Ok((entry, next)) => {
                lemma_tree_entry_at(store, s, at);
                lemma_tree_entries_asks_new(store, s, next);
            },
            Err(e) => {
                let space = find_byte(s, at, 0x20);
                let path_at = if space < s.len() {
                    space + 1
                } else {
                    space
                };
                let nul = find_byte(s, path_at, 0);
                let id_at = if nul < s.len() {
                    nul + 1
                } else {
                    nul
                };
                crate::store::lemma_raw_asks_new(store, s.subrange(id_at, id_at + 20));
            },
        }
    }
}

} // verus!
