//! Opening a store: rebuilding the key directory from the segments, taking
//! the lock and creating the active segment.

use crate::engine::Bitcask;
use crate::entry::Decoded;
use crate::error::Error;
use crate::files::{Directory, FilePool, WorkingFile};
use crate::handler::BitcaskHandler;
use crate::keydir::{agrees, lemma_agrees_put, lemma_agrees_tombstone, DirEntry, KeyDir};
use crate::log::{
    contents, lemma_log_fault, lemma_log_fault_at, lemma_log_push, lemma_numbered,
    lemma_scan_empty, lemma_scanned_done, lemma_scanned_step, live, log_fault, log_of,
    next_id_free, scan, scan_fault, scanned_to, Fault, LogItem, SegmentView,
};
use crate::options::Options;
use vstd::prelude::*;

verus! {

/// The failure that a corrupt record at `fault` is reported with.
pub open spec fn corruption_at(fault: Fault) -> Error {
    Error::Corruption { segment: fault.segment as usize, offset: fault.offset as usize }
}

impl Bitcask {
    /// Replays one segment into the directory: a live record gives its key
    /// the record's place, a tombstone takes its key away. Records are
    /// taken in the order in which they stand; timestamps are not compared.
    fn replay(
        dir: &mut KeyDir,
        file: &WorkingFile,
        Ghost(before): Ghost<Seq<LogItem>>,
    ) -> (r: Result<(), Error>)
        requires
            old(dir).wf(),
            agrees(old(dir)@, before),
        ensures
            final(dir).wf(),
            match r {
                Ok(()) => scan(file@.id, file@.data, 0) is Some && agrees(
                    final(dir)@,
                    before + scan(file@.id, file@.data, 0)->0,
                ),
                Err(e) => scan(file@.id, file@.data, 0) is None
                    && scan_fault(file@.data, 0) is Some && e == (Error::Corruption {
                    segment: file@.id as usize,
                    offset: scan_fault(file@.data, 0)->0 as usize,
                }),
            },
    {
        let id = file.id();
        let size = file.bytes_count();
        let mut at: usize = 0;
        let ghost mut done: Seq<LogItem> = Seq::empty();
        proof {
            assert(before + done =~= before);
            if let Some(rest) = scan(file@.id, file@.data, 0) {
                assert(done + rest =~= rest);
            }
        }
        loop
            invariant
                dir.wf(),
                id == file@.id,
                size == file@.data.len(),
                at <= size,
                scanned_to(file@.id, file@.data, done, at as int),
                scan_fault(file@.data, at as int) == scan_fault(file@.data, 0),
                agrees(dir@, before + done),
            decreases size - at,
        {
            match file.read_at(at) {
                Decoded::Entry(entry, next) => {
                    let ghost item = LogItem {
                        segment: id as int,
                        offset: at as int,
                        end: next as int,
                        record: entry@,
                    };
                    proof {
                        lemma_scanned_step(file@.id, file@.data, done, at as int);
                        assert((before + done).push(item) =~= before + done.push(item));
                    }
                    if entry.is_deleted() {
                        proof {
                            lemma_agrees_tombstone(dir@, before + done, item);
                        }
                        dir.remove(entry.key().as_slice());
                    } else {
                        let place = DirEntry::new(id, at, entry.timestamp());
                        proof {
                            lemma_agrees_put(dir@, before + done, item, place);
                        }
                        dir.insert(entry.into_key(), place);
                    }
                    proof {
                        done = done.push(item);
                    }
                    at = next;
                },
                Decoded::EndOfLog => {
                    proof {
                        lemma_scanned_done(file@.id, file@.data, done, at as int);
                    }
                    return Ok(());
                },
                Decoded::Corruption => {
                    return Err(Error::Corruption { segment: id, offset: at });
                },
            }
        }
    }

    /// Rebuilds the key directory of a set of segments by replaying them in
    /// ascending order of id. Fails with `Corruption` exactly when a segment
    /// holds a corrupt record, and says where the first one stands; a record
    /// cut short at the end of a segment is the end of that segment, not a
    /// failure.
    pub fn rebuild(files: &FilePool) -> (r: Result<KeyDir, Error>)
        requires
            files.wf(),
        ensures
            match r {
                Ok(dir) => dir.wf() && log_of(files@) is Some && agrees(dir@, log_of(files@)->0),
                Err(e) => log_of(files@) is None && log_fault(files@) is Some && e
                    == corruption_at(log_fault(files@)->0),
            },
    {
        let mut dir = KeyDir::new();
        let mut i: usize = 0;
        proof {
            assert(files@.take(0) =~= Seq::<SegmentView>::empty());
            assert(log_fault(Seq::<SegmentView>::empty()) is None);
            let _ = live(Seq::<LogItem>::empty(), Seq::<u8>::empty());
            assert forall|key: Seq<u8>| live(Seq::<LogItem>::empty(), key) is None by {}
        }
        while i < files.len()
            invariant
                files.wf(),
                dir.wf(),
                i <= files@.len(),
                log_of(files@.take(i as int)) is Some,
                log_fault(files@.take(i as int)) is None,
                agrees(dir@, log_of(files@.take(i as int))->0),
            decreases files@.len() - i,
        {
            let file = files.file(i);
            let ghost before = log_of(files@.take(i as int))->0;
            proof {
                assert(files@.take(i + 1) =~= files@.take(i as int).push(files@[i as int]));
                lemma_log_push(files@.take(i as int), files@[i as int]);
                lemma_log_fault(files@.take(i + 1));
            }
            match Bitcask::replay(&mut dir, file, Ghost(before)) {
                Ok(()) => {},
                Err(e) => {
                    proof {
                        files.lemma_ids();
                        lemma_log_fault_at(files@, i as int);
                        lemma_log_fault(files@);
                    }
                    return Err(e);
                },
            }
            i = i + 1;
        }
        proof {
            assert(files@.take(files@.len() as int) =~= files@);
        }
        Ok(dir)
    }

    /// What opening a directory gives: the segments of the store, or the
    /// failure. Recovery comes first and fails at the first corrupt record.
    /// Then, for writing, the lock must be free and the id of the new active
    /// segment, the number of segments, must lie above all ids in use.
    pub open spec fn open_spec(
        segments: Seq<SegmentView>,
        locked: bool,
        options: Options,
    ) -> Result<Seq<SegmentView>, Error> {
        if log_of(segments) is None {
            Err(corruption_at(log_fault(segments)->0))
        } else if !options.read_write {
            Ok(segments)
        } else if locked {
            Err(Error::AlreadyLocked)
        } else if !next_id_free(segments) {
            Err(Error::Io)
        } else {
            Ok(segments.push(SegmentView { id: segments.len() as int, data: Seq::empty() }))
        }
    }

    /// The options that `open` works with: the given ones, or the defaults.
    pub open spec fn options_or_default(options: Option<Options>) -> Options {
        match options {
            Some(options) => options,
            None => Options {
                read_write: false,
                sync_on_put: false,
                enable_compression: false,
                max_data_size: 2147483648,
            },
        }
    }

    /// What `open` gives for a directory and options.
    pub open spec fn open_post(
        directory: Directory,
        options: Option<Options>,
        r: Result<BitcaskHandler, Error>,
    ) -> bool {
        let options = Self::options_or_default(options);
        let outcome = Self::open_spec(directory.segments(), directory.is_locked(), options);
        match r {
            Ok(handler) => {
                &&& outcome == Ok::<Seq<SegmentView>, Error>(handler.engine().segments())
                &&& handler.wf()
                &&& handler@ == contents(log_of(directory.segments())->0)
                &&& handler.engine().log() == log_of(directory.segments())->0
                &&& handler.engine().options() == options
                &&& !handler.engine().is_closed()
                &&& handler.engine().holds_lock() == options.read_write
                &&& handler.engine().synced_lens() == if options.read_write {
                    directory.synced_lens().push(0)
                } else {
                    directory.synced_lens()
                }
            },
            Err(e) => outcome == Err::<Seq<SegmentView>, Error>(e),
        }
    }

    /// Takes the write lock of a directory. Fails with `AlreadyLocked`
    /// exactly when a writer holds it; does not wait.
    fn try_acquire_write_lock(locked: bool) -> (r: Result<bool, Error>)
        ensures
            match r {
                Ok(held) => !locked && held,
                Err(e) => locked && e == Error::AlreadyLocked,
            },
    {
        if locked {
            Err(Error::AlreadyLocked)
        } else {
            Ok(true)
        }
    }

    /// Opens the store of a directory. Rebuilds the key directory from the
    /// segments; for writing, takes the lock and creates the active segment,
    /// whose id is the number of segments in the directory.
    pub fn open(
        directory: Directory,
        options: Option<Options>,
    ) -> (r: Result<BitcaskHandler, Error>)
        requires
            directory.wf(),
        ensures
            Self::open_post(directory, options, r),
    {
        let options = match options {
            Some(options) => options,
            None => Options::default(),
        };
        proof {
            directory.lemma_wf();
        }
        let (files, locked) = directory.into_parts();
        let key_dir = match Bitcask::rebuild(&files) {
            Ok(key_dir) => key_dir,
            Err(e) => { return Err(e); },
        };
        if !options.read_write {
            let store = Bitcask::new(files, None, key_dir, options);
            return Ok(BitcaskHandler::from_engine(store));
        }
        match Bitcask::try_acquire_write_lock(locked) {
            Ok(_) => {},
            Err(e) => { return Err(e); },
        }
        let id = WorkingFile::get_working_file_id(&files);
        if id > 0 && files.file(id - 1).id() >= id {
            assert(!next_id_free(files@));
            return Err(Error::Io);
        }
        proof {
            assert forall|i: int| 0 <= i < files@.len() implies (#[trigger] files@[i]).id
                < files@.len() by {
                if i < files@.len() - 1 {
                    assert(files@[i].id < files@[files@.len() - 1].id);
                }
            }
            lemma_numbered(files@);
        }
        let file = match WorkingFile::open(&files, id) {
            Ok(file) => file,
            Err(e) => { return Err(e); },
        };
        proof {
            let segments = files@.push(file@);
            lemma_log_push(files@, file@);
            lemma_scan_empty(file@.id);
            assert(log_of(files@)->0 + Seq::<LogItem>::empty() =~= log_of(files@)->0);
            assert forall|i: int, j: int| 0 <= i < j < segments.len() implies (
            #[trigger] segments[i]).id < (#[trigger] segments[j]).id by {
                if j < files@.len() {
                    assert(files@[i].id < files@[j].id);
                }
            }
        }
        let store = Bitcask::new(files, Some(file), key_dir, options);
        Ok(BitcaskHandler::from_engine(store))
    }
}

} // verus!
