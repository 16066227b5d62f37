//! The store engine: recovery, reads, writes, deletes and compaction over
//! the segments of one directory.

use crate::clock::now_millis;
use crate::entry::{parse_record, Decoded, Entry, Record};
use crate::error::Error;
use crate::files::{Directory, FilePool, WorkingFile};
use crate::keydir::{agrees, lemma_agrees_delete, lemma_agrees_put, DirEntry, KeyDir};
use crate::log::{
    appended, appended_item, ascending, contents, item_in, items_before, lemma_appended,
    lemma_contents_delete, lemma_contents_put, lemma_last_for_index, lemma_log_locate,
    lemma_tombstoned, live, log_of, numbered, room, scan, scan_end, tombstoned, LogItem,
    SegmentView,
};
use crate::options::Options;
use crate::varint::copy_range;
use vstd::prelude::*;

mod merge;
mod recovery;

pub use recovery::corruption_at;

verus! {

/// The synced lengths after a record was appended to the last segment: that
/// segment is synced in full where `sync` is set or the segment was sealed; a
/// segment that was created has nothing to sync.
pub open spec fn synced_after(
    lens: Seq<int>,
    segments: Seq<SegmentView>,
    record: Record,
    max: usize,
    sync: bool,
) -> Seq<int> {
    let n = segments.len() as int;
    let grown = segments.last().data.len() + record.size();
    let sealed = grown > max;
    let kept = lens.update(
        n - 1,
        if sync || sealed {
            grown
        } else {
            lens[n - 1]
        },
    );
    if sealed {
        kept.push(0)
    } else {
        kept
    }
}

/// Appends `entry` to `file`, the last segment after those of `sealed`. Where
/// that makes the file longer than `max`, seals it and creates the next
/// segment. Gives back the last segment and the place of the record. Fails
/// with `Io`, and writes nothing, exactly when the file has no room.
fn append_and_rotate(
    sealed: &mut FilePool,
    file: WorkingFile,
    entry: &Entry,
    max: usize,
    sync: bool,
) -> (r: (WorkingFile, Result<DirEntry, Error>))
    requires
        old(sealed).wf(),
        file.wf(),
        ascending(old(sealed)@.push(file@)),
    ensures
        final(sealed).wf(),
        r.0.wf(),
        match r.1 {
            Ok(place) => {
                &&& room(old(sealed)@.push(file@), entry@)
                &&& final(sealed)@.push(r.0@) == appended(old(sealed)@.push(file@), entry@, max)
                &&& final(sealed).synced_lens().push(r.0.synced_len()) == synced_after(
                    old(sealed).synced_lens().push(file.synced_len()),
                    old(sealed)@.push(file@),
                    entry@,
                    max,
                    sync,
                )
                &&& place == (DirEntry {
                    segment_id: file@.id as usize,
                    entry_pos: file@.data.len() as usize,
                    timestamp: entry@.timestamp,
                })
            },
            Err(e) => {
                &&& !room(old(sealed)@.push(file@), entry@)
                &&& e == Error::Io
                &&& final(sealed)@ == old(sealed)@
                &&& final(sealed).synced_lens() == old(sealed).synced_lens()
                &&& r.0@ == file@
                &&& r.0.synced_len() == file.synced_len()
            },
        },
{
    let ghost segments = sealed@.push(file@);
    let ghost lens = sealed.synced_lens().push(file.synced_len());
    proof {
        sealed.lemma_lens();
    }
    let mut file = file;
    let id = file.id();
    if id == usize::MAX {
        return (file, Err(Error::Io));
    }
    let offset = file.bytes_count();
    match file.append(entry) {
        Ok(_) => {},
        Err(e) => { return (file, Err(e)); },
    }
    let place = DirEntry::new(id, offset, entry.timestamp());
    if sync {
        file.sync();
    }
    if file.bytes_count() > max {
        file.sync();
        assert forall|i: int| 0 <= i < sealed@.len() implies (#[trigger] sealed@[i]).id
            < file@.id by {
            assert(segments[i].id < segments[segments.len() - 1].id);
        }
        sealed.push(file);
        match WorkingFile::open(sealed, id + 1) {
            Ok(fresh) => {
                assert(sealed@.push(fresh@) =~= appended(segments, entry@, max));
                assert(sealed.synced_lens().push(fresh.synced_len()) =~= synced_after(
                    lens,
                    segments,
                    entry@,
                    max,
                    sync,
                ));
                (fresh, Ok(place))
            },
            Err(e) => {
                proof {
                    let taken = choose|i: int|
                        0 <= i < sealed@.len() && (#[trigger] sealed@[i]).id == id + 1;
                    if taken < sealed@.len() - 1 {
                        assert(segments[taken].id < segments[segments.len() - 1].id);
                    }
                }
                (WorkingFile::from_bytes(0, Vec::new()), Err(e))
            },
        }
    } else {
        assert(sealed@.push(file@) =~= appended(segments, entry@, max));
        assert(sealed.synced_lens().push(file.synced_len()) =~= synced_after(
            lens,
            segments,
            entry@,
            max,
            sync,
        ));
        (file, Ok(place))
    }
}

/// The store over the segments of one directory.
pub struct Bitcask {
    sealed: FilePool,
    working_file: Option<WorkingFile>,
    key_dir: KeyDir,
    options: Options,
    lock_held: bool,
    closed: bool,
}

impl View for Bitcask {
    type V = Map<Seq<u8>, Seq<u8>>;

    /// The keys of the store with their values: what its log holds.
    open spec fn view(&self) -> Map<Seq<u8>, Seq<u8>> {
        contents(self.log())
    }
}

impl Bitcask {
    /// The segments of the directory in ascending order of id: the sealed
    /// ones, then the active one where the store has one.
    pub closed spec fn segments(&self) -> Seq<SegmentView> {
        match self.working_file {
            Some(file) => self.sealed@.push(file@),
            None => self.sealed@,
        }
    }

    /// For each segment, the number of its bytes that are on stable storage.
    pub closed spec fn synced_lens(&self) -> Seq<int> {
        match self.working_file {
            Some(file) => self.sealed.synced_lens().push(file.synced_len()),
            None => self.sealed.synced_lens(),
        }
    }

    /// The log that the segments hold.
    pub open spec fn log(&self) -> Seq<LogItem> {
        log_of(self.segments())->0
    }

    /// The key directory: each live key with the place of its record.
    pub closed spec fn index(&self) -> Map<Seq<u8>, DirEntry> {
        self.key_dir@
    }

    /// The keys in the order in which `list_keys` gives them.
    pub closed spec fn key_order(&self) -> Seq<Seq<u8>> {
        self.key_dir.keys()
    }

    /// The options the store was opened with.
    pub closed spec fn options(&self) -> Options {
        self.options
    }

    /// Whether the handle has been closed.
    pub closed spec fn is_closed(&self) -> bool {
        self.closed
    }

    /// Whether the handle holds the directory's write lock.
    pub closed spec fn holds_lock(&self) -> bool {
        self.lock_held
    }

    /// Whether the handle accepts writes: it is open, and was opened for
    /// writing.
    pub open spec fn writable(&self) -> bool {
        !self.is_closed() && self.options().read_write
    }

    /// The parts of a store fit together: ids rise, the active segment is
    /// the last and every byte of it belongs to a record, no segment holds a
    /// corrupt record, and the directory is the index of the log. A store
    /// opened for writing has an active segment, and its segments are
    /// numbered without a gap.
    pub open spec fn consistent(
        sealed: Seq<SegmentView>,
        active: Option<SegmentView>,
        dir: Map<Seq<u8>, DirEntry>,
        options: Options,
    ) -> bool {
        let segments = match active {
            Some(file) => sealed.push(file),
            None => sealed,
        };
        &&& ascending(segments)
        &&& log_of(segments) is Some
        &&& agrees(dir, log_of(segments)->0)
        &&& active is Some <==> options.read_write
        &&& active matches Some(file) ==> scan_end(file.data, 0) == file.data.len() && numbered(
            segments,
        )
    }

    /// The store's invariant.
    pub closed spec fn wf(&self) -> bool {
        &&& self.sealed.wf()
        &&& self.key_dir.wf()
        &&& self.working_file matches Some(file) ==> file.wf()
        &&& Self::consistent(
            self.sealed@,
            match self.working_file {
                Some(file) => Some(file@),
                None => None,
            },
            self.key_dir@,
            self.options,
        )
        &&& self.lock_held == (self.options.read_write && !self.closed)
    }

    /// What the invariant says of the store's public state.
    pub proof fn lemma_wf(&self)
        requires
            self.wf(),
        ensures
            ascending(self.segments()),
            log_of(self.segments()) is Some,
            agrees(self.index(), self.log()),
            self.synced_lens().len() == self.segments().len(),
            forall|i: int|
                0 <= i < self.segments().len() ==> 0 <= (#[trigger] self.synced_lens()[i])
                    <= self.segments()[i].data.len(),
            self.options().read_write ==> self.segments().len() > 0 && numbered(self.segments())
                && scan_end(self.segments().last().data, 0) == self.segments().last().data.len(),
            self.holds_lock() == self.writable(),
            self.key_order().no_duplicates(),
            forall|key: Seq<u8>| self.key_order().contains(key) <==> self@.contains_key(key),
            forall|key: Seq<u8>| self.index().contains_key(key) <==> self@.contains_key(key),
    {
        self.key_dir.lemma_keys();
        self.sealed.lemma_lens();
        assert forall|i: int| 0 <= i < self.segments().len() implies 0 <= (
        #[trigger] self.synced_lens()[i]) <= self.segments()[i].data.len() by {
            if i < self.sealed@.len() {
                assert(self.synced_lens()[i] == self.sealed.synced_lens()[i]);
            } else {
                self.working_file->0.lemma_synced();
            }
        }
        assert forall|key: Seq<u8>| self.index().contains_key(key) <==> self@.contains_key(
            key,
        ) by {
            let _ = live(self.log(), key);
        }
    }

    /// Puts a store together from its parts.
    pub fn new(
        sealed: FilePool,
        working_file: Option<WorkingFile>,
        key_dir: KeyDir,
        options: Options,
    ) -> (store: Bitcask)
        requires
            sealed.wf(),
            key_dir.wf(),
            working_file matches Some(file) ==> file.wf(),
            Self::consistent(
                sealed@,
                match working_file {
                    Some(file) => Some(file@),
                    None => None,
                },
                key_dir@,
                options,
            ),
        ensures
            store.wf(),
            store.segments() == (match working_file {
                Some(file) => sealed@.push(file@),
                None => sealed@,
            }),
            store.synced_lens() == (match working_file {
                Some(file) => sealed.synced_lens().push(file.synced_len()),
                None => sealed.synced_lens(),
            }),
            store.index() == key_dir@,
            store.options() == options,
            !store.is_closed(),
            store.holds_lock() == options.read_write,
    {
        let lock_held = options.read_write;
        Bitcask { sealed, working_file, key_dir, options, lock_held, closed: false }
    }

    /// Where the live record of `key` stands, if the key is live.
    pub fn lookup(&self, key: &[u8]) -> (place: Option<DirEntry>)
        requires
            self.wf(),
        ensures
            place == if self.index().contains_key(key@) {
                Some(self.index()[key@])
            } else {
                None
            },
    {
        self.key_dir.get(key)
    }

    /// The live item of a key that the directory holds: its index in the
    /// log, the index of its segment, and its index among the segment's
    /// items.
    proof fn lemma_live_item(&self, key: Seq<u8>) -> (at: (int, int, int))
        requires
            self.wf(),
            self.index().contains_key(key),
        ensures
            live(self.log(), key) is Some,
            0 <= at.0 < self.log().len(),
            self.log()[at.0] == live(self.log(), key)->0,
            self.log()[at.0].record.key == key,
            !self.log()[at.0].record.deleted,
            forall|k: int|
                at.0 < k < self.log().len() ==> (#[trigger] self.log()[k]).record.key != key,
            self.index()[key].points_to(self.log()[at.0]),
            0 <= at.1 < self.segments().len(),
            scan(self.segments()[at.1].id, self.segments()[at.1].data, 0) is Some,
            0 <= at.2 < scan(self.segments()[at.1].id, self.segments()[at.1].data, 0)->0.len(),
            self.log()[at.0] == scan(
                self.segments()[at.1].id,
                self.segments()[at.1].data,
                0,
            )->0[at.2],
            at.0 == items_before(self.segments(), at.1) + at.2,
            item_in(self.log()[at.0], self.segments()[at.1].id, self.segments()[at.1].data),
            self.contains_key(key),
            self@[key] == self.log()[at.0].record.value,
    {
        let _ = live(self.log(), key);
        let i = lemma_last_for_index(self.log(), key);
        let place = lemma_log_locate(self.segments(), i);
        (i, place.0, place.1)
    }

    /// Whether the store holds `key`.
    pub open spec fn contains_key(&self, key: Seq<u8>) -> bool {
        self@.contains_key(key)
    }

    /// The segment with the given id, and its index among the segments.
    fn segment(&self, id: usize) -> (found: Option<(&WorkingFile, Ghost<int>)>)
        requires
            self.wf(),
        ensures
            match found {
                Some((file, j)) => 0 <= j@ < self.segments().len() && self.segments()[j@] == file@
                    && file@.id == id && file.wf(),
                None => forall|j: int|
                    0 <= j < self.segments().len() ==> (#[trigger] self.segments()[j]).id != id,
            },
    {
        if let Some(file) = &self.working_file {
            if file.id() == id {
                return Some((file, Ghost(self.sealed@.len() as int)));
            }
        }
        match self.sealed.position(id) {
            Some(j) => Some((self.sealed.file(j), Ghost(j as int))),
            None => {
                assert forall|j: int| 0 <= j < self.segments().len() implies (
                #[trigger] self.segments()[j]).id != id by {
                    if j < self.sealed@.len() {
                        assert(self.sealed@[j].id != id);
                    }
                }
                None
            },
        }
    }

    /// What `get` gives for a key.
    pub open spec fn get_spec(&self, key: Seq<u8>) -> Result<Seq<u8>, Error> {
        if self.is_closed() {
            Err(Error::InvalidState)
        } else if self@.contains_key(key) {
            Ok(self@[key])
        } else {
            Err(Error::NotFound)
        }
    }

    /// The value of `key`. Fails with `NotFound` where the key is not live,
    /// and with `InvalidState` on a closed handle. The record is read back
    /// from its segment and its checksum is verified.
    pub fn get(&self, key: &[u8]) -> (r: Result<Vec<u8>, Error>)
        requires
            self.wf(),
        ensures
            match r {
                Ok(value) => self.get_spec(key@) == Ok::<Seq<u8>, Error>(value@),
                Err(e) => self.get_spec(key@) == Err::<Seq<u8>, Error>(e),
            },
    {
        if self.closed {
            return Err(Error::InvalidState);
        }
        proof {
            self.lemma_wf();
        }
        let place = match self.key_dir.get(key) {
            Some(place) => place,
            None => { return Err(Error::NotFound); },
        };
        let ghost at = self.lemma_live_item(key@);
        match self.segment(place.segment_id) {
            Some((file, j)) => {
                assert(j@ == at.1);
                match file.read_at(place.entry_pos) {
                    Decoded::Entry(entry, _) => Ok(entry.into_value()),
                    _ => Err(
                        Error::Corruption { segment: place.segment_id, offset: place.entry_pos },
                    ),
                }
            },
            None => Err(Error::Corruption { segment: place.segment_id, offset: place.entry_pos }),
        }
    }

    /// Nothing that can be seen of the store has changed.
    pub open spec fn unchanged(pre: Bitcask, post: Bitcask) -> bool {
        &&& post.segments() == pre.segments()
        &&& post.synced_lens() == pre.synced_lens()
        &&& post.index() == pre.index()
        &&& post.key_order() == pre.key_order()
        &&& post.options() == pre.options()
        &&& post.is_closed() == pre.is_closed()
        &&& post.holds_lock() == pre.holds_lock()
    }

    /// Whether the active segment can take `record`: the record's binary
    /// form and the segment with it are no longer than the machine can
    /// address, and a segment id is left for the segment that may follow.
    pub open spec fn has_room(&self, record: Record) -> bool {
        room(self.segments(), record)
    }

    /// What a successful put of `record` leaves: the record stands at the
    /// end of what was the active segment, the directory points at it, the
    /// key has the record's value, and the active segment was sealed and
    /// followed by a new one exactly when the record made it longer than the
    /// configured size.
    pub open spec fn put_done(pre: Bitcask, post: Bitcask, record: Record) -> bool {
        &&& pre.writable()
        &&& pre.has_room(record)
        &&& post.segments() == appended(pre.segments(), record, pre.options().max_data_size)
        &&& post.synced_lens() == synced_after(
            pre.synced_lens(),
            pre.segments(),
            record,
            pre.options().max_data_size,
            pre.options().sync_on_put,
        )
        &&& post.log() == pre.log().push(appended_item(pre.segments(), record))
        &&& post.index() == pre.index().insert(
            record.key,
            DirEntry {
                segment_id: pre.segments().last().id as usize,
                entry_pos: pre.segments().last().data.len() as usize,
                timestamp: record.timestamp,
            },
        )
        &&& post@ == pre@.insert(record.key, record.value)
        &&& post.options() == pre.options()
        &&& post.is_closed() == pre.is_closed()
        &&& post.holds_lock() == pre.holds_lock()
    }

    /// What a put of `record` leaves, and what it gives back: done where the
    /// store is writable and has room; `InvalidState` where it is not
    /// writable; `Io` where it has no room; nothing has changed where it
    /// fails.
    pub open spec fn put_post(
        pre: Bitcask,
        post: Bitcask,
        record: Record,
        r: Result<(), Error>,
    ) -> bool {
        match r {
            Ok(()) => Self::put_done(pre, post, record),
            Err(e) => Self::unchanged(pre, post) && if !pre.writable() {
                e == Error::InvalidState
            } else {
                !pre.has_room(record) && e == Error::Io
            },
        }
    }

    /// Stores `value` under `key` with the given timestamp.
    pub fn put_at(&mut self, key: &[u8], value: &[u8], timestamp: u64) -> (r: Result<(), Error>)
        requires
            old(self).wf(),
        ensures
            final(self).wf(),
            Self::put_post(*old(self), *final(self), Record::live(timestamp, key@, value@), r),
    {
        if self.closed || !self.options.read_write {
            return Err(Error::InvalidState);
        }
        let ghost record = Record::live(timestamp, key@, value@);
        let ghost pre = *self;
        proof {
            self.lemma_wf();
        }
        let file = match self.working_file.take() {
            Some(file) => file,
            None => { return Err(Error::InvalidState); },
        };
        let entry = Entry::with_timestamp(
            copy_range(key, 0, key.len()),
            copy_range(value, 0, value.len()),
            timestamp,
        );
        assert(key@.subrange(0, key@.len() as int) =~= key@);
        assert(value@.subrange(0, value@.len() as int) =~= value@);
        let (file, written) = append_and_rotate(
            &mut self.sealed,
            file,
            &entry,
            self.options.max_data_size,
            self.options.sync_on_put,
        );
        self.working_file = Some(file);
        let place = match written {
            Ok(place) => place,
            Err(e) => { return Err(e); },
        };
        proof {
            entry.lemma_size();
            lemma_appended(pre.segments(), record, self.options.max_data_size);
            let item = appended_item(pre.segments(), record);
            lemma_agrees_put(self.key_dir@, pre.log(), item, place);
            lemma_contents_put(pre.log(), item);
        }
        self.key_dir.insert(entry.into_key(), place);
        Ok(())
    }

    /// What a put at the current time leaves and gives back: what a put of
    /// the record with some timestamp does.
    pub open spec fn put_now_post(
        pre: Bitcask,
        post: Bitcask,
        key: Seq<u8>,
        value: Seq<u8>,
        r: Result<(), Error>,
    ) -> bool {
        exists|timestamp: u64| #[trigger]
            Self::put_post(pre, post, Record::live(timestamp, key, value), r)
    }

    /// Stores `value` under `key`, stamped with the current time.
    pub fn put(&mut self, key: &[u8], value: &[u8]) -> (r: Result<(), Error>)
        requires
            old(self).wf(),
        ensures
            final(self).wf(),
            Self::put_now_post(*old(self), *final(self), key@, value@, r),
    {
        let timestamp = now_millis();
        let r = self.put_at(key, value, timestamp);
        assert(Self::put_post(*old(self), *self, Record::live(timestamp, key@, value@), r));
        r
    }

    /// The index, among the segments, of the one that holds the live record
    /// of `key`.
    pub open spec fn segment_of(&self, key: Seq<u8>) -> int {
        choose|j: int|
            0 <= j < self.segments().len() && (#[trigger] self.segments()[j]).id
                == self.index()[key].segment_id
    }

    /// The offset after the live record of `key` in its segment.
    pub open spec fn end_of(&self, key: Seq<u8>) -> int {
        parse_record(
            self.segments()[self.segment_of(key)].data,
            self.index()[key].entry_pos as int,
        )->next
    }

    /// What a successful delete of `key` leaves: the flag byte of the key's
    /// live record is set, in place, and nothing else on disk has changed;
    /// the key is gone from the directory and from the store.
    pub open spec fn delete_done(pre: Bitcask, post: Bitcask, key: Seq<u8>) -> bool {
        &&& pre.writable()
        &&& pre@.contains_key(key)
        &&& post.segments() == tombstoned(pre.segments(), pre.segment_of(key), pre.end_of(key))
        &&& post.synced_lens().len() == pre.synced_lens().len()
        &&& forall|j: int|
            0 <= j < pre.synced_lens().len() ==> (#[trigger] post.synced_lens()[j])
                <= pre.synced_lens()[j]
        &&& post.index() == pre.index().remove(key)
        &&& post@ == pre@.remove(key)
        &&& post.options() == pre.options()
        &&& post.is_closed() == pre.is_closed()
        &&& post.holds_lock() == pre.holds_lock()
    }

    /// What a delete of `key` leaves, and what it gives back: done where the
    /// store is writable and holds the key; `InvalidState` where it is not
    /// writable; `NotFound` where it does not hold the key; nothing has
    /// changed where it fails.
    pub open spec fn delete_post(
        pre: Bitcask,
        post: Bitcask,
        key: Seq<u8>,
        r: Result<(), Error>,
    ) -> bool {
        match r {
            Ok(()) => Self::delete_done(pre, post, key),
            Err(e) => Self::unchanged(pre, post) && if !pre.writable() {
                e == Error::InvalidState
            } else {
                !pre@.contains_key(key) && e == Error::NotFound
            },
        }
    }

    /// Deletes `key`: marks its live record as deleted where it stands, and
    /// takes the key out of the directory.
    pub fn delete(&mut self, key: &[u8]) -> (r: Result<(), Error>)
        requires
            old(self).wf(),
        ensures
            final(self).wf(),
            Self::delete_post(*old(self), *final(self), key@, r),
    {
        if self.closed || !self.options.read_write {
            return Err(Error::InvalidState);
        }
        let ghost pre = *self;
        proof {
            self.lemma_wf();
        }
        let place = match self.key_dir.get(key) {
            Some(place) => place,
            None => { return Err(Error::NotFound); },
        };
        let ghost at = self.lemma_live_item(key@);
        let ghost item = pre.log()[at.0];
        proof {
            assert(pre.segments()[at.1].id == place.segment_id);
            assert forall|j: int|
                0 <= j < pre.segments().len() && (#[trigger] pre.segments()[j]).id
                    == place.segment_id implies j == at.1 by {
                if j < at.1 {
                    assert(pre.segments()[j].id < pre.segments()[at.1].id);
                } else if j > at.1 {
                    assert(pre.segments()[at.1].id < pre.segments()[j].id);
                }
            }
            assert(pre.segment_of(key@) == at.1);
            assert(pre.end_of(key@) == item.end);
            lemma_tombstoned(pre.segments(), at.0, at.1, at.2);
            lemma_agrees_delete(pre.index(), pre.log(), at.0);
            lemma_contents_delete(pre.log(), at.0);
        }
        let mut file = match self.working_file.take() {
            Some(file) => file,
            None => { return Err(Error::InvalidState); },
        };
        if file.id() == place.segment_id {
            let done = file.mark_deleted(place.entry_pos);
            self.working_file = Some(file);
            match done {
                Ok(()) => {},
                Err(e) => { return Err(e); },
            }
            assert(self.segments() =~= tombstoned(pre.segments(), at.1, item.end));
        } else {
            self.working_file = Some(file);
            let j = match self.sealed.position(place.segment_id) {
                Some(j) => j,
                None => {
                    assert(pre.segments()[at.1] == self.sealed@[at.1]);
                    return Err(
                        Error::Corruption { segment: place.segment_id, offset: place.entry_pos },
                    );
                },
            };
            assert(pre.segments()[j as int].id == place.segment_id);
            assert(j == at.1);
            match self.sealed.mark_deleted(j, place.entry_pos) {
                Ok(()) => {},
                Err(e) => { return Err(e); },
            }
            assert(self.segments() =~= tombstoned(pre.segments(), at.1, item.end));
        }
        self.key_dir.remove(key);
        Ok(())
    }

    /// The keys of the store, each once. Fails with `InvalidState` on a
    /// closed handle. Reads the directory alone, not the segments.
    pub fn list_keys(&self) -> (r: Result<Vec<Vec<u8>>, Error>)
        requires
            self.wf(),
        ensures
            self.key_order().no_duplicates(),
            forall|key: Seq<u8>| self.key_order().contains(key) <==> self@.contains_key(key),
            match r {
                Ok(keys) => !self.is_closed() && keys@.len() == self.key_order().len() && forall|
                    i: int,
                |
                    0 <= i < keys@.len() ==> (#[trigger] keys@[i])@ == self.key_order()[i],
                Err(e) => self.is_closed() && e == Error::InvalidState,
            },
    {
        proof {
            self.lemma_wf();
        }
        if self.closed {
            return Err(Error::InvalidState);
        }
        Ok(self.key_dir.key_list())
    }

    /// Every byte of every segment is on stable storage.
    pub open spec fn all_synced(&self) -> bool {
        self.synced_lens() == self.segments().map_values(|s: SegmentView| s.data.len() as int)
    }

    /// The store as it was, with every segment synced in full.
    pub open spec fn synced(pre: Bitcask, post: Bitcask) -> bool {
        &&& post.segments() == pre.segments()
        &&& post.all_synced()
        &&& post.index() == pre.index()
        &&& post.key_order() == pre.key_order()
        &&& post.options() == pre.options()
    }

    /// What a sync leaves, and what it gives back: everything synced, and
    /// nothing else changed, on an open handle; `InvalidState`, and nothing
    /// changed, on a closed one.
    pub open spec fn sync_post(pre: Bitcask, post: Bitcask, r: Result<(), Error>) -> bool {
        match r {
            Ok(()) => !pre.is_closed() && Self::synced(pre, post) && !post.is_closed()
                && post.holds_lock() == pre.holds_lock(),
            Err(e) => pre.is_closed() && e == Error::InvalidState && Self::unchanged(pre, post),
        }
    }

    /// What a close leaves, and what it gives back: everything synced, the
    /// handle closed and the lock given up, on an open handle;
    /// `InvalidState`, and nothing changed, on a closed one.
    pub open spec fn close_post(pre: Bitcask, post: Bitcask, r: Result<(), Error>) -> bool {
        match r {
            Ok(()) => !pre.is_closed() && Self::synced(pre, post) && post.is_closed()
                && !post.holds_lock(),
            Err(e) => pre.is_closed() && e == Error::InvalidState && Self::unchanged(pre, post),
        }
    }

    /// Forces what was written to stable storage. Calling it again changes
    /// nothing; on a read-only handle there is nothing to force. Fails with
    /// `InvalidState` on a closed handle.
    pub fn sync(&mut self) -> (r: Result<(), Error>)
        requires
            old(self).wf(),
        ensures
            final(self).wf(),
            Self::sync_post(*old(self), *final(self), r),
    {
        if self.closed {
            return Err(Error::InvalidState);
        }
        self.flush();
        Ok(())
    }

    /// Syncs every segment.
    fn flush(&mut self)
        requires
            old(self).wf(),
        ensures
            final(self).wf(),
            Self::synced(*old(self), *final(self)),
            final(self).is_closed() == old(self).is_closed(),
            final(self).holds_lock() == old(self).holds_lock(),
    {
        self.sealed.sync();
        match self.working_file.take() {
            Some(mut file) => {
                file.sync();
                self.working_file = Some(file);
            },
            None => {},
        }
        assert(self.synced_lens() =~= self.segments().map_values(
            |s: SegmentView| s.data.len() as int,
        ));
    }

    /// Closes the handle: forces what was written to stable storage and
    /// gives up the write lock. Every later operation on the handle fails
    /// with `InvalidState`, a second close too.
    pub fn close(&mut self) -> (r: Result<(), Error>)
        requires
            old(self).wf(),
        ensures
            final(self).wf(),
            Self::close_post(*old(self), *final(self), r),
    {
        if self.closed {
            return Err(Error::InvalidState);
        }
        self.flush();
        self.lock_held = false;
        self.closed = true;
        Ok(())
    }

    /// The image of the store's directory as it stands: a copy of every
    /// segment, and whether this handle holds the lock.
    pub fn directory(&self) -> (directory: Directory)
        requires
            self.wf(),
        ensures
            directory.wf(),
            directory.segments() == self.segments(),
            directory.synced_lens() == self.synced_lens(),
            directory.is_locked() == self.holds_lock(),
    {
        proof {
            self.lemma_wf();
            self.sealed.lemma_lens();
        }
        let mut files = FilePool::new();
        let mut i: usize = 0;
        while i < self.sealed.len()
            invariant
                self.wf(),
                files.wf(),
                i <= self.sealed@.len(),
                files@ == self.sealed@.take(i as int),
                files.synced_lens() == self.sealed.synced_lens().take(i as int),
                self.sealed.synced_lens().len() == self.sealed@.len(),
            decreases self.sealed@.len() - i,
        {
            let file = self.sealed.file(i);
            assert forall|j: int| 0 <= j < files@.len() implies (#[trigger] files@[j]).id
                < file@.id by {
                assert(self.segments()[j].id < self.segments()[i as int].id);
            }
            files.push(file.duplicate());
            assert(self.sealed@.take(i + 1) =~= self.sealed@.take(i as int).push(
                self.sealed@[i as int],
            ));
            assert(self.sealed.synced_lens().take(i + 1) =~= self.sealed.synced_lens().take(
                i as int,
            ).push(self.sealed.synced_lens()[i as int]));
            i = i + 1;
        }
        assert(self.sealed@.take(self.sealed@.len() as int) =~= self.sealed@);
        assert(self.sealed.synced_lens().take(self.sealed@.len() as int)
            =~= self.sealed.synced_lens());
        match &self.working_file {
            Some(file) => {
                assert forall|j: int| 0 <= j < files@.len() implies (#[trigger] files@[j]).id
                    < file@.id by {
                    assert(self.segments()[j].id < self.segments()[self.segments().len() - 1].id);
                }
                files.push(file.duplicate());
            },
            None => {},
        }
        Directory::from_parts(files, self.lock_held)
    }
}

} // verus!
