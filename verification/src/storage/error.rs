//! The failures that the storage engine reports.

use vstd::prelude::*;

verus! {

/// What a storage operation can fail with.
#[derive(Debug, Clone, Copy, PartialEq, Eq)]
pub enum StorageError {
    /// The values handed to the row encoder do not fit the schema.
    SchemaMismatch,
    /// A row is shorter than its header.
    ShortRow,
    /// A text column does not hold valid UTF-8.
    BadUtf8,
    /// A column runs past the end of the row.
    TruncatedField,
    /// A slot index is not below the page's slot count.
    InvalidSlot,
    /// A slot's row is too short to carry a tombstone byte.
    RowTooShort,
    /// A page does not start with the page magic.
    BadMagic,
    /// A heap file's length is not a whole number of pages.
    BadFileSize,
    /// A page id is not below the heap file's page count.
    PageOutOfRange,
    /// The key is already in the index.
    DuplicateKey,
    /// The index file holds no page, so there is no root to insert into.
    EmptyTree,
    /// The byte source ended before a whole page could be read.
    Io,
}

} // verus!
