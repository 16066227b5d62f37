//! A log-structured key-value store in the Bitcask style.
//!
//! Values are appended to segment files. A key directory, held in memory,
//! maps each live key to the segment and byte offset of its latest record.
//! A delete marks the record where it stands; a merge writes the live
//! records into new segments and drops the old ones.
//!
//! The store works on *images*: a [`Directory`] holds the bytes of each
//! segment file and the state of the write lock. [`BitcaskHandler::open`]
//! takes such an image, every operation is a function from images to
//! images, and [`BitcaskHandler::directory`] gives the image back. The
//! program around the store reads the image from disk and writes it back.
//!
//! What a store holds is defined by its bytes alone: the segments in
//! ascending order of id, read record by record, are the log (`log`), and
//! for each key the last record of the log decides (`log::contents`). Each
//! operation states its effect on the segments and on what they hold;
//! `laws` states what follows across operations.
//!
//! Modules, from the bytes up:
//! - `varint`, `checksum`, `entry`: the binary form of a record;
//! - `log`, `compaction`: segments, the log and compaction as mathematical
//!   values;
//! - `names`, `files`, `keydir`: segment files, their names, and the key
//!   directory;
//! - `engine`, `handler`: the store and the handle on it;
//! - `laws`: what holds across operations.

pub mod checksum;
pub mod clock;
pub mod compaction;
pub mod engine;
pub mod entry;
pub mod error;
pub mod files;
pub mod handler;
pub mod keydir;
pub mod laws;
pub mod log;
pub mod names;
pub mod options;
pub mod varint;

pub use engine::Bitcask;
pub use entry::{Decoded, Entry};
pub use error::Error;
pub use files::{Directory, FilePool, WorkingFile};
pub use handler::BitcaskHandler;
pub use keydir::{DirEntry, KeyDir};
pub use options::Options;
