//! The handle that callers hold on an open store.

use crate::engine::Bitcask;
use crate::entry::Record;
use crate::error::Error;
use crate::files::Directory;
use crate::keydir::DirEntry;
use crate::options::Options;
use vstd::prelude::*;

verus! {

/// A handle on an open store. Every operation is that of the engine.
pub struct BitcaskHandler {
    pub(crate) bitcask_engine: Bitcask,
}

impl View for BitcaskHandler {
    type V = Map<Seq<u8>, Seq<u8>>;

    /// The keys of the store with their values.
    open spec fn view(&self) -> Map<Seq<u8>, Seq<u8>> {
        self.engine()@
    }
}

impl BitcaskHandler {
    /// The engine behind the handle.
    pub closed spec fn engine(&self) -> Bitcask {
        self.bitcask_engine
    }

    /// The handle's invariant: that of its engine.
    pub open spec fn wf(&self) -> bool {
        self.engine().wf()
    }

    /// The handle on an engine.
    pub(crate) fn from_engine(engine: Bitcask) -> (handler: BitcaskHandler)
        ensures
            handler.engine() == engine,
    {
        BitcaskHandler { bitcask_engine: engine }
    }

    /// Opens the store of a directory. Without options the store is opened
    /// read-only. See `Bitcask::open`.
    pub fn open(
        directory: Directory,
        options: Option<Options>,
    ) -> (r: Result<BitcaskHandler, Error>)
        requires
            directory.wf(),
        ensures
            Bitcask::open_post(directory, options, r),
    {
        Bitcask::open(directory, options)
    }

    /// The value of `key`. See `Bitcask::get`.
    pub fn get(&self, key: &[u8]) -> (r: Result<Vec<u8>, Error>)
        requires
            self.wf(),
        ensures
            match r {
                Ok(value) => self.engine().get_spec(key@) == Ok::<Seq<u8>, Error>(value@),
                Err(e) => self.engine().get_spec(key@) == Err::<Seq<u8>, Error>(e),
            },
    {
        self.bitcask_engine.get(key)
    }

    /// Stores `value` under `key`, stamped with the current time. See
    /// `Bitcask::put`.
    pub fn put(&mut self, key: &[u8], value: &[u8]) -> (r: Result<(), Error>)
        requires
            old(self).wf(),
        ensures
            final(self).wf(),
            Bitcask::put_now_post(old(self).engine(), final(self).engine(), key@, value@, r),
    {
        self.bitcask_engine.put(key, value)
    }

    /// Stores `value` under `key` with the given timestamp. See
    /// `Bitcask::put_at`.
    pub fn put_at(&mut self, key: &[u8], value: &[u8], timestamp: u64) -> (r: Result<(), Error>)
        requires
            old(self).wf(),
        ensures
            final(self).wf(),
            Bitcask::put_post(
                old(self).engine(),
                final(self).engine(),
                Record::live(timestamp, key@, value@),
                r,
            ),
    {
        self.bitcask_engine.put_at(key, value, timestamp)
    }

    /// Deletes `key`. See `Bitcask::delete`.
    pub fn delete(&mut self, key: &[u8]) -> (r: Result<(), Error>)
        requires
            old(self).wf(),
        ensures
            final(self).wf(),
            Bitcask::delete_post(old(self).engine(), final(self).engine(), key@, r),
    {
        self.bitcask_engine.delete(key)
    }

    /// The keys of the store, each once. See `Bitcask::list_keys`.
    pub fn list_keys(&self) -> (r: Result<Vec<Vec<u8>>, Error>)
        requires
            self.wf(),
        ensures
            self.engine().key_order().no_duplicates(),
            forall|key: Seq<u8>|
                self.engine().key_order().contains(key) <==> self@.contains_key(key),
            match r {
                Ok(keys) => !self.engine().is_closed() && keys@.len()
                    == self.engine().key_order().len() && forall|i: int|
                    0 <= i < keys@.len() ==> (#[trigger] keys@[i])@ == self.engine().key_order()[i],
                Err(e) => self.engine().is_closed() && e == Error::InvalidState,
            },
    {
        self.bitcask_engine.list_keys()
    }

    /// Compacts the store. See `Bitcask::merge`.
    pub fn merge(&mut self) -> (r: Result<(), Error>)
        requires
            old(self).wf(),
        ensures
            final(self).wf(),
            Bitcask::merge_post(old(self).engine(), final(self).engine(), r),
    {
        self.bitcask_engine.merge()
    }

    /// Forces what was written to stable storage. See `Bitcask::sync`.
    pub fn sync(&mut self) -> (r: Result<(), Error>)
        requires
            old(self).wf(),
        ensures
            final(self).wf(),
            Bitcask::sync_post(old(self).engine(), final(self).engine(), r),
    {
        self.bitcask_engine.sync()
    }

    /// Closes the handle. See `Bitcask::close`.
    pub fn close(&mut self) -> (r: Result<(), Error>)
        requires
            old(self).wf(),
        ensures
            final(self).wf(),
            Bitcask::close_post(old(self).engine(), final(self).engine(), r),
    {
        self.bitcask_engine.close()
    }

    /// Where the live record of `key` stands, if the key is live.
    pub fn lookup(&self, key: &[u8]) -> (place: Option<DirEntry>)
        requires
            self.wf(),
        ensures
            place == if self.engine().index().contains_key(key@) {
                Some(self.engine().index()[key@])
            } else {
                None
            },
    {
        self.bitcask_engine.lookup(key)
    }

    /// The image of the store's directory as it stands. See
    /// `Bitcask::directory`.
    pub fn directory(&self) -> (directory: Directory)
        requires
            self.wf(),
        ensures
            directory.wf(),
            directory.segments() == self.engine().segments(),
            directory.synced_lens() == self.engine().synced_lens(),
            directory.is_locked() == self.engine().holds_lock(),
    {
        self.bitcask_engine.directory()
    }
}

} // verus!
