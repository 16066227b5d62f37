//! Configuration of a store handle.

use vstd::prelude::*;

verus! {

/// Size at which the active segment is sealed when no other is configured: 2 GiB.
pub const DEFAULT_MAX_DATA_SIZE: usize = 2147483648;

/// The options recognised when a store is opened.
#[derive(Clone, Copy, Debug, PartialEq, Eq)]
pub struct Options {
    /// Open for writing: takes the write lock and creates an active segment.
    pub read_write: bool,
    /// Make every `put` durable before it returns.
    pub sync_on_put: bool,
    /// Reserved; has no effect.
    pub enable_compression: bool,
    /// The active segment is sealed once it holds more than this many bytes.
    pub max_data_size: usize,
}

impl Options {
    /// The defaults: read-only, no sync on put, no compression, 2 GiB segments.
    pub fn default() -> (options: Options)
        ensures
            options == (Options {
                read_write: false,
                sync_on_put: false,
                enable_compression: false,
                max_data_size: 2147483648,
            }),
    {
        Options {
            read_write: false,
            sync_on_put: false,
            enable_compression: false,
            max_data_size: DEFAULT_MAX_DATA_SIZE,
        }
    }
}

} // verus!
