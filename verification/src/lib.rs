//! A read-only object store for the on-disk object database of a git
//! repository: loose objects, pack files with their indexes, delta chains,
//! and the four object kinds.
//!
//! The library reads and decides; it opens no file and inflates no stream.
//! Its caller reads the objects directory into a `GitObjectStore`, and
//! inflates the streams that the store names as it is asked for objects.

use vstd::prelude::*;

pub mod bytes;
pub mod cli;
pub mod error;
pub mod hexcode;
pub mod ident;
pub mod store;
pub mod text;

verus! {

/// Fewest hex digits accepted as an abbreviated object id.
pub const MIN_USER_HASH_LEN: usize = 4;

/// Bytes in a SHA-1 object id.
pub const SHA1_HASH_SIZE: usize = 20;

} // verus!
