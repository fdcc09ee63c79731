//! The canonical text of an object, as `cat-file -p` shows it.

use vstd::prelude::*;
use vstd::string::StringSliceAdditionalSpecFns;
use vstd::utf8::encode_utf8;

use crate::hexcode::hex_text;
use crate::ident::ObjectId;
use crate::store::{DataView, EntryView, GitObject, GitObjectData, TreeEntry};
use crate::text::{octal_digits, push_bytes, push_octal, zero_padded};

verus! {

/// One entry of a tree as text: the mode in at least six octal digits, the
/// kind, the id in hex, and the path, with a space between each two.
pub open spec fn entry_line(entry: EntryView) -> Seq<u8> {
    zero_padded(octal_digits(entry.mode as nat)) + " ".spec_bytes() + encode_utf8(entry.kind)
        + " ".spec_bytes() + encode_utf8(hex_text(entry.id)) + " ".spec_bytes() + entry.path
}

/// The lines of the entries of a tree, one line an entry, in their order.
pub open spec fn tree_lines(entries: Seq<EntryView>) -> Seq<u8>
    decreases entries.len(),
{
    if entries.len() == 0 {
        Seq::empty()
    } else {
        tree_lines(entries.drop_last()) + entry_line(entries.last()) + "\n".spec_bytes()
    }
}

/// One header line: the key, the value, and a newline.
pub open spec fn header_line(key: Seq<u8>, value: Seq<u8>) -> Seq<u8> {
    key + value + "\n".spec_bytes()
}

/// The `parent` lines of a commit, in the order of its parents.
pub open spec fn parent_lines(parents: Seq<Seq<u8>>) -> Seq<u8>
    decreases parents.len(),
{
    if parents.len() == 0 {
        Seq::empty()
    } else {
        parent_lines(parents.drop_last()) + header_line(
            "parent ".spec_bytes(),
            encode_utf8(hex_text(parents.last())),
        )
    }
}

/// A header line for a value that may be absent.
pub open spec fn optional_line(key: Seq<u8>, value: Option<Seq<char>>) -> Seq<u8> {
    match value {
        Some(v) => header_line(key, encode_utf8(v)),
        None => Seq::empty(),
    }
}

/// The canonical text of what an object holds. A blob is its bytes; a tree
/// is a line for each entry; a commit and a tag are their headers, an
/// empty line and the message.
pub open spec fn rendered(data: DataView) -> Seq<u8> {
    match data {
        DataView::Blob { data } => data,
        DataView::Tree { entries } => tree_lines(entries),
        DataView::Commit { tree, parents, author, committer, encoding, gpgsig, message } =>
            header_line("tree ".spec_bytes(), encode_utf8(hex_text(tree))) + parent_lines(parents)
                + header_line("author ".spec_bytes(), encode_utf8(author)) + header_line(
                "committer ".spec_bytes(),
                encode_utf8(committer),
            ) + optional_line("encoding ".spec_bytes(), encoding) + optional_line(
                "gpgsig ".spec_bytes(),
                gpgsig,
            ) + "\n".spec_bytes() + message,
        DataView::Tag { object, kind, tag, tagger, message } => header_line(
            "object ".spec_bytes(),
            encode_utf8(hex_text(object)),
        ) + header_line("type ".spec_bytes(), encode_utf8(kind)) + header_line(
            "tag ".spec_bytes(),
            encode_utf8(tag),
        ) + header_line("tagger ".spec_bytes(), encode_utf8(tagger)) + "\n".spec_bytes() + message,
    }
}

/// The lines of a tree keep the order of its entries: the lines of two
/// runs of entries, one after the other, are the lines of the first run
/// and then those of the second.
pub proof fn lemma_tree_lines_concat(first: Seq<EntryView>, second: Seq<EntryView>)
    ensures
        tree_lines(first + second) == tree_lines(first) + tree_lines(second),
    decreases second.len(),
{
    if second.len() == 0 {
        assert(first + second =~= first);
        assert(tree_lines(first) + tree_lines(second) =~= tree_lines(first));
    } else {
        let all = first + second;
        assert(all.drop_last() =~= first + second.drop_last());
        assert(all.last() == second.last());
        lemma_tree_lines_concat(first, second.drop_last());
        assert(tree_lines(all) =~= tree_lines(first) + tree_lines(second));
    }
}

/// Appends a header line to `out`.
fn push_line(out: &mut Vec<u8>, key: &str, value: &[u8])
    ensures
        final(out)@ == old(out)@ + header_line(key.spec_bytes(), value@),
{
    push_bytes(out, key.as_bytes());
    push_bytes(out, value);
    push_bytes(out, "\n".as_bytes());
    assert(out@ =~= old(out)@ + header_line(key.spec_bytes(), value@));
}

/// Appends a header line to `out` where the value is present.
fn push_optional_line(out: &mut Vec<u8>, key: &str, value: &Option<String>)
    ensures
        final(out)@ == old(out)@ + optional_line(key.spec_bytes(), crate::store::text_view(*value)),
{
    match value {
        Some(v) => {
            push_line(out, key, v.as_str().as_bytes());
        },
        None => {
            assert(out@ + Seq::<u8>::empty() =~= out@);
        },
    }
}

impl TreeEntry {
    /// The entry as text, without a newline.
    pub fn render(&self) -> (r: Vec<u8>)
        ensures
            r@ == entry_line(self@),
    {
        let mut out: Vec<u8> = Vec::new();
        push_octal(&mut out, self.mode);
        push_bytes(&mut out, " ".as_bytes());
        push_bytes(&mut out, self.kind.as_str().as_bytes());
        push_bytes(&mut out, " ".as_bytes());
        let hex = self.id.to_hex();
        push_bytes(&mut out, hex.as_str().as_bytes());
        push_bytes(&mut out, " ".as_bytes());
        push_bytes(&mut out, self.path.as_slice());
        assert(out@ =~= entry_line(self@));
        out
    }
}

/// Appends the hex form of `id` under `key` as a header line.
fn push_id_line(out: &mut Vec<u8>, key: &str, id: &ObjectId)
    ensures
        final(out)@ == old(out)@ + header_line(key.spec_bytes(), encode_utf8(hex_text(id@))),
{
    let hex = id.to_hex();
    push_line(out, key, hex.as_str().as_bytes());
}

impl GitObject {
    /// The canonical text of the object.
    pub fn render(&self) -> (r: Vec<u8>)
        ensures
            r@ == rendered(self@.data),
    {
        let mut out: Vec<u8> = Vec::new();
        match &self.data {
            GitObjectData::Blob { data } => {
                push_bytes(&mut out, data.as_slice());
                assert(out@ =~= data@);
            },
            GitObjectData::Tree { entries } => {
                let mut i: usize = 0;
                let ghost views = crate::store::entries_view(entries@);
                assert(views.subrange(0, 0) =~= Seq::<EntryView>::empty());
                while i < entries.len()
                    invariant
                        i <= entries@.len(),
                        views == crate::store::entries_view(entries@),
                        out@ == tree_lines(views.subrange(0, i as int)),
                    decreases entries@.len() - i,
                {
                    let line = entries[i].render();
                    push_bytes(&mut out, line.as_slice());
                    push_bytes(&mut out, "\n".as_bytes());
                    proof {
                        let upto = views.subrange(0, i + 1);
                        assert(upto.drop_last() =~= views.subrange(0, i as int));
                        assert(upto.last() == entries@[i as int]@);
                    }
                    i += 1;
                }
                assert(views.subrange(0, i as int) =~= views);
            },
            GitObjectData::Commit {
                tree,
                parents,
                author,
                committer,
                encoding,
                gpgsig,
                message,
            } => {
                push_id_line(&mut out, "tree ", tree);
                let ghost head = out@;
                let ghost ids = crate::ident::ids_of(parents@);
                let mut i: usize = 0;
                assert(ids.subrange(0, 0) =~= Seq::<Seq<u8>>::empty());
                assert(head + Seq::<u8>::empty() =~= head);
                while i < parents.len()
                    invariant
                        i <= parents@.len(),
                        ids == crate::ident::ids_of(parents@),
                        out@ == head + parent_lines(ids.subrange(0, i as int)),
                    decreases parents@.len() - i,
                {
                    push_id_line(&mut out, "parent ", &parents[i]);
                    proof {
                        let upto = ids.subrange(0, i + 1);
                        assert(upto.drop_last() =~= ids.subrange(0, i as int));
                        assert(upto.last() == parents@[i as int]@);
                        assert(out@ =~= head + parent_lines(upto));
                    }
                    i += 1;
                }
                assert(ids.subrange(0, i as int) =~= ids);
                push_line(&mut out, "author ", author.as_str().as_bytes());
                push_line(&mut out, "committer ", committer.as_str().as_bytes());
                push_optional_line(&mut out, "encoding ", encoding);
                push_optional_line(&mut out, "gpgsig ", gpgsig);
                push_bytes(&mut out, "\n".as_bytes());
                push_bytes(&mut out, message.as_slice());
            },
            GitObjectData::Tag { object, kind, tag, tagger, message } => {
                push_id_line(&mut out, "object ", object);
                push_line(&mut out, "type ", kind.as_str().as_bytes());
                push_line(&mut out, "tag ", tag.as_str().as_bytes());
                push_line(&mut out, "tagger ", tagger.as_str().as_bytes());
                push_bytes(&mut out, "\n".as_bytes());
                push_bytes(&mut out, message.as_slice());
            },
        }
        out
    }
}

} // verus!
