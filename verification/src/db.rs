//! The storage-engine façade above the journal: option structs, key and
//! value wrappers, and the handle a caller opens.
//!
//! Only opening a handle is implemented here; reading and writing through
//! it are future work that will replay and append the journal.

use vstd::prelude::*;
use crate::errors::FileError;

verus! {

/// A caller-supplied key.
pub struct Key(Vec<u8>);

/// A caller-supplied value.
pub struct Value(Vec<u8>);

/// One mutation of the store.
pub enum Operation {
    Put(Key, Value),
    Delete(Key),
}

/// Tuning options for a database.
pub struct DBOptions {
    /// Create the database when it is missing.
    pub create_if_missing: bool,
    /// Raise an error when the database already exists.
    pub error_if_exists: bool,
    /// How many bytes go into one file before switching to a new one.
    pub max_file_size: u32,
    /// Approximate bytes of user data packed per table block.
    pub block_size: u32,
    /// Bytes of data built up in memory before conversion to a sorted
    /// on-disk file.
    pub write_buffer_size: u32,
}

impl Default for DBOptions {
    /// Defaults: create nothing, two-megabyte files, four-kilobyte table
    /// blocks, a four-megabyte write buffer.
    fn default() -> (r: DBOptions)
        ensures
            r.create_if_missing == false,
            r.error_if_exists == false,
            r.max_file_size == 0x200000u32,
            r.block_size == 4096u32,
            r.write_buffer_size == 0x400000u32,
    {
        DBOptions {
            create_if_missing: false,
            error_if_exists: false,
            max_file_size: 0x200000,
            block_size: 4096,
            write_buffer_size: 0x400000,
        }
    }
}

/// Options for one read.
pub struct ReadOptions {}

/// Options for one write.
pub struct WriteOptions {}

/// An open database handle.
pub struct DB {
    name: String,
    options: DBOptions,
}

impl DB {
    /// The name the database was opened under.
    pub closed spec fn spec_name(self) -> Seq<char> {
        self.name@
    }

    /// The options the database was opened with.
    pub closed spec fn spec_options(self) -> DBOptions {
        self.options
    }

    /// Open a handle on the database called `name`.
    pub fn open(options: DBOptions, name: &str) -> (r: Result<DB, FileError>)
        ensures
            r is Ok,
            r->Ok_0.spec_name() == name@,
            r->Ok_0.spec_options() == options,
    {
        Ok(DB { name: name.to_owned(), options })
    }
}

} // verus!
