//! The `cat-file` command: what it was asked, and what it prints.

use vstd::prelude::*;
use vstd::string::StringSliceAdditionalSpecFns;
use vstd::utf8::encode_utf8;

use crate::error::GetError;
use crate::store::inflate::Stream;
use crate::store::render::rendered;
use crate::store::util::{resolution, resolve_id, Resolution};
use crate::store::{kind_label, kind_of_data, object_of, GitObjectStore};
use crate::text::push_bytes;

verus! {

/// The command line.
#[derive(Debug)]
pub struct Cli {
    pub command: Commands,
}

/// The commands.
#[derive(Debug)]
pub enum Commands {
    CatFile(CatFileArgs),
}

/// The arguments of `cat-file`.
#[derive(Debug)]
pub struct CatFileArgs {
    pub mode: CatFileMode,
    /// The object asked for: an id, or the first digits of one.
    pub id: String,
}

/// What `cat-file` prints of the object.
#[derive(Clone, Copy, Debug)]
pub struct CatFileMode {
    /// `-p`: the object's canonical text.
    pub print: bool,
    /// `-t`: the name of the object's kind, and a newline.
    pub kind: bool,
}

/// Why a command printed nothing.
#[derive(Clone, Copy, Debug, PartialEq, Eq, Structural)]
pub enum CliError {
    /// The id given resolves to no object.
    InvalidObjectId,
    /// The object could not be retrieved.
    ObjectNotFound,
    /// The object needs a stream that the store has not inflated yet: the
    /// caller inflates it, adds what came out to the store, and runs the
    /// command again.
    NotInflated(Stream),
}

/// What the command prints: the canonical text where that is asked for,
/// then the kind's name and a newline where that is.
pub open spec fn cat_file_output(store: &GitObjectStore, args: CatFileArgs) -> Result<
    Seq<u8>,
    CliError,
> {
    match resolution(store, encode_utf8(args.id@)) {
        Resolution::Unique(id) => match object_of(store, id) {
            Err(GetError::NotInflated(stream)) => Err(CliError::NotInflated(stream)),
            Err(_) => Err(CliError::ObjectNotFound),
            Ok(object) => Ok(
                (if args.mode.print {
                    rendered(object.data)
                } else {
                    Seq::empty()
                }) + (if args.mode.kind {
                    encode_utf8(kind_label(kind_of_data(object.data))) + "\n".spec_bytes()
                } else {
                    Seq::empty()
                }),
            ),
        },
        _ => Err(CliError::InvalidObjectId),
    }
}

/// Runs `cat-file` against `store`: resolves the id, gets the object, and
/// gives the bytes to print.
pub fn cat_file(store: &GitObjectStore, args: &CatFileArgs) -> (r: Result<Vec<u8>, CliError>)
    ensures
        match r {
            Ok(out) => cat_file_output(store, *args) matches Ok(v) && v == out@,
            Err(e) => cat_file_output(store, *args) matches Err(f) && f == e,
        },
{
    let id = match resolve_id(store, args.id.as_str()) {
        Ok(id) => id,
        Err(_) => { return Err(CliError::InvalidObjectId); },
    };
    let object = match store.get(id) {
        Ok(object) => object,
        Err(GetError::NotInflated(stream)) => { return Err(CliError::NotInflated(stream)); },
        Err(_) => { return Err(CliError::ObjectNotFound); },
    };
    let mut out: Vec<u8> = Vec::new();
    if args.mode.print {
        let text = object.render();
        push_bytes(&mut out, text.as_slice());
    }
    let ghost first = out@;
    if args.mode.kind {
        push_bytes(&mut out, object.type_str().as_bytes());
        push_bytes(&mut out, "\n".as_bytes());
        assert(out@ =~= first + (encode_utf8(kind_label(kind_of_data(object@.data)))
            + "\n".spec_bytes()));
    } else {
        assert(out@ =~= first + Seq::<u8>::empty());
    }
    assert(Seq::<u8>::empty() + rendered(object@.data) =~= rendered(object@.data));
    Ok(out)
}

/// Runs the command that the command line holds.
pub fn run(store: &GitObjectStore, cli: &Cli) -> (r: Result<Vec<u8>, CliError>)
    ensures
        match (r, cli.command) {
            (Ok(out), Commands::CatFile(args)) => cat_file_output(store, args) matches Ok(v) && v
                == out@,
            (Err(e), Commands::CatFile(args)) => cat_file_output(store, args) matches Err(f) && f
                == e,
        },
{
    match &cli.command {
        Commands::CatFile(args) => cat_file(store, args),
    }
}

} // verus!
