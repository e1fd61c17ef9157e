//! An append-only, crash-recoverable journal (write-ahead log) of byte
//! records, together with the integer-coding primitives it is built on and
//! the skeleton of the storage engine that will sit above it.
//!
//! Records are framed into checksummed fragments aligned to fixed-size
//! blocks; a reader reassembles them in order and reports corruption as
//! recoverable errors.

use vstd::prelude::*;

pub mod checksum;
pub mod coding;
pub mod db;
pub mod encoding;
pub mod errors;
pub mod journal;

verus! {

/// Number of bytes in one on-disk block; fragments never cross a block boundary.
pub const BLOCK_SIZE: usize = 32768;

/// Size in bytes of a fragment header: checksum (4), length (2), type (1).
pub const HEADER_SIZE: usize = 7;

} // verus!
