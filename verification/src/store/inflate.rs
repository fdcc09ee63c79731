//! What the zlib streams of the store inflate to. The library does not
//! inflate: it names the stream it needs, and reads what the caller has
//! added to the store for it.

use vstd::prelude::*;

use crate::error::GetError;

verus! {

/// A zlib stream of the store, by its place.
#[derive(Clone, Copy, Debug, PartialEq, Eq, Structural)]
pub enum Stream {
    /// The whole stream in file `file` of directory `dir` of the loose
    /// objects, both counted as the store lists them.
    Loose { dir: usize, file: usize },
    /// The first `len` bytes of the stream that starts at `at` in the pack
    /// file of pack `pack`, counted as the store lists the packs.
    Packed { pack: usize, at: usize, len: usize },
}

/// What a stream gave when it was inflated.
#[derive(Debug)]
pub struct Inflated {
    pub stream: Stream,
    /// The bytes that came out; `None` where the decoder failed.
    pub data: Option<Vec<u8>>,
}

/// The bytes that an entry holds for its stream: for a stream of a pack
/// they must be as many as were asked for.
pub open spec fn entry_data(entry: Inflated) -> Option<Seq<u8>> {
    match entry.data {
        None => None,
        Some(data) => match entry.stream {
            Stream::Loose { .. } => Some(data@),
            Stream::Packed { len, .. } => if data@.len() == len {
                Some(data@)
            } else {
                None
            },
        },
    }
}

/// The place of the first entry for `stream` at or after `from`, or the
/// number of entries where there is none.
pub open spec fn find_stream(table: Seq<Inflated>, stream: Stream, from: int) -> int
    decreases table.len() - from,
{
    if from < 0 || from >= table.len() {
        table.len() as int
    } else if table[from].stream == stream {
        from
    } else {
        find_stream(table, stream, from + 1)
    }
}

/// What `stream` inflates to, as `table` has it: the bytes of the first
/// entry for the stream. A stream without an entry is not inflated yet; an
/// entry without bytes of the right number is a stream that is corrupt.
pub open spec fn stream_data(table: Seq<Inflated>, stream: Stream) -> Result<Seq<u8>, GetError> {
    let at = find_stream(table, stream, 0);
    if at >= table.len() {
        Err(GetError::NotInflated(stream))
    } else {
        match entry_data(table[at]) {
            Some(data) => Ok(data),
            None => Err(GetError::CorruptCompression),
        }
    }
}

/// Looks up what `stream` inflates to.
pub fn inflated_stream<'a>(table: &'a Vec<Inflated>, stream: Stream) -> (r: Result<
    &'a Vec<u8>,
    GetError,
>)
    ensures
        match r {
            Ok(data) => stream_data(table@, stream) matches Ok(v) && v == data@,
            Err(e) => stream_data(table@, stream) matches Err(f) && f == e,
        },
{
    let mut i: usize = 0;
    while i < table.len()
        invariant
            i <= table@.len(),
            find_stream(table@, stream, 0) == find_stream(table@, stream, i as int),
        decreases table@.len() - i,
    {
        if table[i].stream == stream {
            return match &table[i].data {
                None => Err(GetError::CorruptCompression),
                Some(data) => match stream {
                    Stream::Loose { .. } => Ok(data),
                    Stream::Packed { len, .. } => if data.len() == len {
                        Ok(data)
                    } else {
                        Err(GetError::CorruptCompression)
                    },
                },
            };
        }
        i += 1;
    }
    Err(GetError::NotInflated(stream))
}

/// Where `e` asks for a stream, `table` has no entry for that stream.
pub open spec fn asks_new(table: Seq<Inflated>, e: GetError) -> bool {
    e matches GetError::NotInflated(stream) ==> find_stream(table, stream, 0) >= table.len()
}

/// A stream that is asked for has no entry yet: once the caller has added
/// one, the same stream is not asked for again.
pub proof fn lemma_asked_stream_is_new(table: Seq<Inflated>, stream: Stream)
    ensures
        stream_data(table, stream) matches Err(e) ==> asks_new(table, e),
{
}

} // verus!
