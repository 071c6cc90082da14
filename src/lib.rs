//! A content-addressed object store: typed records kept under the hash of
//! their bytes, and large byte streams cut into chunks that an index lists.
//!
//! This crate holds the store's rules as verified code: the record format,
//! object identifiers, where an object lives on disk, how a stream becomes a
//! tree of records and how such a tree is read back. Performing the file
//! operations is left to the caller, which hands records in and takes
//! records out.

pub mod dir;
pub mod error;
pub mod index;
pub mod kind;
pub mod layout;
pub mod oid;
pub mod read;
pub mod record;
pub mod split;

pub use dir::{open_or_create_next, tempdir_name, tempdir_next, DirOutcome, DirStep};
pub use error::Error;
pub use index::read_piece_entry;
pub use kind::Kind;
pub use layout::{object_path, walk_entry, ObjectPath, WalkEntry, SPLIT_DEPTH};
pub use oid::Oid;
pub use read::{BlobReader, BlobStep, MAX_DEPTH};
pub use record::{make_record, Object, PendingObject, Record};
pub use split::{put_blob, BlobPlan};
