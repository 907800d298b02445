//! Storage engine: rows, pages, heap files and the primary-key index.

pub mod btree;
pub mod capacity;
pub mod chain;
pub mod error;
pub mod grow;
pub mod heap;
pub mod kids;
pub mod layout;
pub mod node;
pub mod page;
pub mod row;
pub mod scan;
pub mod tree;
pub mod validate;

pub use btree::{BTree, RowRef};
pub use error::StorageError;
pub use heap::{HeapFile, PageId};
pub use page::{Page, PageFlags, HEADER_LEN, PAGE_SIZE};
pub use row::{decode as row_decode, encode as row_encode, ColumnType, Value, ROW_HEADER_LEN};
