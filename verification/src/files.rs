//! Segment files as byte images, and the pool of the segments of a directory.

use crate::entry::{append_bytes, parse_record, Decoded, Entry};
use crate::error::Error;
use crate::log::{ascending, SegmentView};
use crate::names::{file_name, segment_id, segment_id_spec, segment_name};
use crate::varint::copy_range;
use vstd::prelude::*;

verus! {

/// One segment file: its id and its bytes. The bytes up to `synced` have
/// been forced to stable storage.
#[derive(Debug)]
pub struct WorkingFile {
    id: usize,
    data: Vec<u8>,
    synced: usize,
}

impl View for WorkingFile {
    type V = SegmentView;

    closed spec fn view(&self) -> SegmentView {
        SegmentView { id: self.id as int, data: self.data@ }
    }
}

impl WorkingFile {
    /// The file's invariant: no more bytes are synced than it holds.
    pub closed spec fn wf(&self) -> bool {
        self.synced <= self.data@.len()
    }

    /// What the invariant says of the synced length.
    pub proof fn lemma_synced(&self)
        requires
            self.wf(),
        ensures
            0 <= self.synced_len() <= self@.data.len(),
    {
    }

    /// The number of bytes, from the start, that are on stable storage.
    pub closed spec fn synced_len(&self) -> int {
        self.synced as int
    }

    /// Whether `entry` can be appended: its binary form can be built, and
    /// the file with it is no longer than the machine can address.
    pub open spec fn has_room(&self, entry: &Entry) -> bool {
        entry.fits() && self@.data.len() + entry@.size() <= usize::MAX
    }

    /// Creates the segment `id` in a directory that holds the files of
    /// `directory`. Fails with `Io` exactly when a segment with that id
    /// exists: a segment is never opened for writing twice.
    pub fn open(directory: &FilePool, id: usize) -> (r: Result<WorkingFile, Error>)
        requires
            directory.wf(),
        ensures
            match r {
                Ok(file) => !directory.has(id as int) && file.wf() && file@ == (SegmentView {
                    id: id as int,
                    data: Seq::empty(),
                }) && file.synced_len() == 0,
                Err(e) => directory.has(id as int) && e == Error::Io,
            },
    {
        match directory.position(id) {
            Some(_) => Err(Error::Io),
            None => Ok(WorkingFile { id, data: Vec::new(), synced: 0 }),
        }
    }

    /// The image of a segment file that was read from stable storage.
    pub fn from_bytes(id: usize, data: Vec<u8>) -> (file: WorkingFile)
        ensures
            file.wf(),
            file@ == (SegmentView { id: id as int, data: data@ }),
            file.synced_len() == data@.len(),
    {
        let synced = data.len();
        WorkingFile { id, data, synced }
    }

    /// Appends the binary form of `entry`. Gives back the number of bytes
    /// written. Fails with `Io`, and writes nothing, exactly when the entry
    /// has no room.
    pub fn append(&mut self, entry: &Entry) -> (r: Result<usize, Error>)
        requires
            old(self).wf(),
        ensures
            final(self).wf(),
            final(self)@.id == old(self)@.id,
            final(self).synced_len() == old(self).synced_len(),
            match r {
                Ok(written) => old(self).has_room(entry) && written == entry@.size()
                    && entry@.bytes().len() == written && final(self)@.data == old(self)@.data
                    + entry@.bytes(),
                Err(e) => !old(self).has_room(entry) && e == Error::Io && final(self)@
                    == old(self)@,
            },
    {
        let bytes = match entry.encode() {
            Ok(bytes) => bytes,
            Err(e) => { return Err(e); },
        };
        proof {
            entry.lemma_size();
        }
        if bytes.len() > usize::MAX - self.data.len() {
            return Err(Error::Io);
        }
        append_bytes(&mut self.data, bytes.as_slice());
        Ok(bytes.len())
    }

    /// The number of bytes the file holds.
    pub fn bytes_count(&self) -> (n: usize)
        ensures
            n == self@.data.len(),
    {
        self.data.len()
    }

    /// The file's id.
    pub fn id(&self) -> (id: usize)
        ensures
            id == self@.id,
    {
        self.id
    }

    /// The file's bytes.
    pub fn data(&self) -> (data: &Vec<u8>)
        ensures
            data@ == self@.data,
    {
        &self.data
    }

    /// The name of the file: `working_file_` and the id in decimal.
    pub fn get_file_name(&self) -> (name: String)
        ensures
            name@ == segment_name(self@.id as nat),
    {
        file_name(self.id)
    }

    /// The number of bytes, from the start, that are on stable storage.
    pub fn synced_bytes(&self) -> (n: usize)
        ensures
            n == self.synced_len(),
    {
        self.synced
    }

    /// Reads the record that starts at `at`.
    pub fn read_at(&self, at: usize) -> (d: Decoded)
        ensures
            d.shows(parse_record(self@.data, at as int)),
            d matches Decoded::Entry(_, next) ==> at < next <= self@.data.len(),
    {
        Entry::decode(self.data.as_slice(), at)
    }

    /// Marks the record that starts at `at` as deleted, in place: its flag
    /// byte becomes 1 and nothing else changes. Fails with `Corruption` at
    /// `at`, and changes nothing, exactly when no record can be read there.
    /// Bytes from the flag on count as not synced afterwards.
    pub fn mark_deleted(&mut self, at: usize) -> (r: Result<(), Error>)
        requires
            old(self).wf(),
        ensures
            final(self).wf(),
            final(self)@.id == old(self)@.id,
            match r {
                Ok(()) => parse_record(old(self)@.data, at as int) is Entry && final(self)@.data
                    == old(self)@.data.update(
                    parse_record(old(self)@.data, at as int)->next - 1,
                    1u8,
                ) && final(self).synced_len() <= old(self).synced_len(),
                Err(e) => !(parse_record(old(self)@.data, at as int) is Entry) && e == (
                Error::Corruption { segment: old(self)@.id as usize, offset: at }) && final(self)@
                    == old(self)@ && final(self).synced_len() == old(self).synced_len(),
            },
    {
        match self.read_at(at) {
            Decoded::Entry(_, next) => {
                self.data[next - 1] = 1;
                if self.synced > next - 1 {
                    self.synced = next - 1;
                }
                Ok(())
            },
            _ => Err(Error::Corruption { segment: self.id, offset: at }),
        }
    }

    /// A copy of the file.
    pub fn duplicate(&self) -> (copy: WorkingFile)
        requires
            self.wf(),
        ensures
            copy.wf(),
            copy@ == self@,
            copy.synced_len() == self.synced_len(),
    {
        let data = copy_range(self.data.as_slice(), 0, self.data.len());
        assert(self.data@.subrange(0, self.data@.len() as int) =~= self.data@);
        WorkingFile { id: self.id, data, synced: self.synced }
    }

    /// Gives the file another id. Its bytes stay as they are.
    pub fn renumber(&mut self, id: usize)
        requires
            old(self).wf(),
        ensures
            final(self).wf(),
            final(self)@ == (SegmentView { id: id as int, data: old(self)@.data }),
            final(self).synced_len() == old(self).synced_len(),
    {
        self.id = id;
    }

    /// Forces the file's bytes to stable storage. A second call changes
    /// nothing.
    pub fn sync(&mut self)
        ensures
            final(self).wf(),
            final(self)@ == old(self)@,
            final(self).synced_len() == final(self)@.data.len(),
    {
        self.synced = self.data.len();
    }

    /// The id that the next segment of the directory gets: the number of
    /// segment files that the directory holds.
    pub fn get_working_file_id(directory: &FilePool) -> (id: usize)
        ensures
            id == directory@.len(),
    {
        directory.len()
    }
}

/// The segment files of a directory, in ascending order of id.
#[derive(Debug)]
pub struct FilePool {
    files: Vec<WorkingFile>,
}

impl View for FilePool {
    type V = Seq<SegmentView>;

    closed spec fn view(&self) -> Seq<SegmentView> {
        Seq::new(self.files@.len(), |i: int| self.files@[i]@)
    }
}

impl FilePool {
    /// The pool's invariant: each file is well formed, and ids rise strictly.
    pub closed spec fn wf(&self) -> bool {
        &&& forall|i: int| 0 <= i < self.files@.len() ==> (#[trigger] self.files@[i]).wf()
        &&& ascending(self@)
    }

    /// Whether the pool holds a segment with the given id.
    pub open spec fn has(&self, id: int) -> bool {
        exists|i: int| 0 <= i < self@.len() && (#[trigger] self@[i]).id == id
    }

    /// For each file, the number of its bytes that are on stable storage.
    pub closed spec fn synced_lens(&self) -> Seq<int> {
        Seq::new(self.files@.len(), |i: int| self.files@[i].synced_len())
    }

    /// Ids are machine integers.
    pub proof fn lemma_ids(&self)
        ensures
            forall|i: int| 0 <= i < self@.len() ==> 0 <= (#[trigger] self@[i]).id <= usize::MAX,
    {
    }

    /// There is one synced length for each file, and no more of a file is
    /// synced than the file holds.
    pub proof fn lemma_lens(&self)
        ensures
            self.synced_lens().len() == self@.len(),
            self.wf() ==> forall|i: int|
                0 <= i < self@.len() ==> 0 <= (#[trigger] self.synced_lens()[i])
                    <= self@[i].data.len(),
    {
        if self.wf() {
            assert forall|i: int| 0 <= i < self@.len() implies 0 <= (
            #[trigger] self.synced_lens()[i]) <= self@[i].data.len() by {
                assert(self.files@[i].wf());
            }
        }
    }

    /// The empty pool.
    pub fn new() -> (pool: FilePool)
        ensures
            pool.wf(),
            pool@ == Seq::<SegmentView>::empty(),
            pool.synced_lens() == Seq::<int>::empty(),
    {
        let pool = FilePool { files: Vec::new() };
        assert(pool@ =~= Seq::<SegmentView>::empty());
        assert(pool.synced_lens() =~= Seq::<int>::empty());
        pool
    }

    /// The number of files.
    pub fn len(&self) -> (n: usize)
        ensures
            n == self@.len(),
    {
        self.files.len()
    }

    /// The file at index `i`.
    pub fn file(&self, i: usize) -> (file: &WorkingFile)
        requires
            self.wf(),
            i < self@.len(),
        ensures
            file@ == self@[i as int],
            file.wf(),
            file.synced_len() == self.synced_lens()[i as int],
    {
        &self.files[i]
    }

    /// The index of the file with the given id, if the pool holds one. Where
    /// the files are numbered without a gap, the file is found at once.
    pub fn position(&self, id: usize) -> (found: Option<usize>)
        requires
            self.wf(),
        ensures
            match found {
                Some(i) => i < self@.len() && self@[i as int].id == id,
                None => !self.has(id as int),
            },
    {
        if id < self.files.len() && self.files[id].id == id {
            assert(self@[id as int].id == id);
            return Some(id);
        }
        let mut i: usize = 0;
        while i < self.files.len()
            invariant
                i <= self.files@.len(),
                self@.len() == self.files@.len(),
                forall|j: int| 0 <= j < i ==> (#[trigger] self@[j]).id != id,
            decreases self.files@.len() - i,
        {
            if self.files[i].id == id {
                return Some(i);
            }
            i = i + 1;
        }
        None
    }

    /// The file with the given id, if the pool holds one.
    pub fn get(&self, id: usize) -> (found: Option<&WorkingFile>)
        requires
            self.wf(),
        ensures
            match found {
                Some(file) => exists|i: int|
                    0 <= i < self@.len() && #[trigger] self@[i] == file@ && file@.id == id,
                None => !self.has(id as int),
            },
    {
        match self.position(id) {
            Some(i) => Some(&self.files[i]),
            None => None,
        }
    }

    /// Adds a file whose id is above all ids in the pool.
    pub(crate) fn push(&mut self, file: WorkingFile)
        requires
            old(self).wf(),
            file.wf(),
            forall|i: int| 0 <= i < old(self)@.len() ==> (#[trigger] old(self)@[i]).id < file@.id,
        ensures
            final(self).wf(),
            final(self)@ == old(self)@.push(file@),
            final(self).synced_lens() == old(self).synced_lens().push(file.synced_len()),
    {
        self.files.push(file);
        assert(self@ =~= old(self)@.push(file@));
        assert(self.synced_lens() =~= old(self).synced_lens().push(file.synced_len()));
    }

    /// Adds a file at its place in the order of ids. Fails with `Io`, and
    /// changes nothing, exactly when the pool holds a file with that id.
    pub fn insert(&mut self, file: WorkingFile) -> (r: Result<(), Error>)
        requires
            old(self).wf(),
            file.wf(),
        ensures
            final(self).wf(),
            match r {
                Ok(()) => !old(self).has(file@.id) && exists|at: int|
                    0 <= at <= old(self)@.len() && final(self)@ == #[trigger] old(self)@.insert(
                        at,
                        file@,
                    ) && final(self).synced_lens() == old(self).synced_lens().insert(
                        at,
                        file.synced_len(),
                    ),
                Err(e) => old(self).has(file@.id) && e == Error::Io && final(self)@ == old(self)@
                    && final(self).synced_lens() == old(self).synced_lens(),
            },
    {
        let mut at: usize = 0;
        while at < self.files.len() && self.files[at].id < file.id
            invariant
                at <= self.files@.len(),
                self@.len() == self.files@.len(),
                self.wf(),
                *self == *old(self),
                forall|j: int| 0 <= j < at ==> (#[trigger] self@[j]).id < file@.id,
            decreases self.files@.len() - at,
        {
            at = at + 1;
        }
        if at < self.files.len() && self.files[at].id == file.id {
            assert(self@[at as int].id == file@.id);
            return Err(Error::Io);
        }
        assert forall|j: int| 0 <= j < self@.len() implies (#[trigger] self@[j]).id != file@.id by {
            if j >= at {
                assert(self@[at as int].id <= self@[j].id);
            }
        }
        let ghost before = self@;
        let ghost shown = file@;
        let ghost shown_synced = file.synced_len();
        self.files.insert(at, file);
        assert(self@ =~= before.insert(at as int, shown));
        assert(self.synced_lens() =~= old(self).synced_lens().insert(at as int, shown_synced));
        assert forall|i: int, j: int| 0 <= i < j < self@.len() implies (#[trigger] self@[i]).id < (
        #[trigger] self@[j]).id by {
            if j > at && i < at {
                assert(before[i].id < shown.id);
                assert(shown.id < before[j - 1].id || before[at as int].id <= before[j - 1].id);
            } else if i > at {
                assert(before[i - 1].id < before[j - 1].id);
            } else if j < at {
                assert(before[i].id < before[j].id);
            } else if i == at {
                assert(before[at as int].id <= before[j - 1].id);
            }
        }
        Ok(())
    }

    /// Forces the bytes of every file to stable storage.
    pub fn sync(&mut self)
        requires
            old(self).wf(),
        ensures
            final(self).wf(),
            final(self)@ == old(self)@,
            final(self).synced_lens() == final(self)@.map_values(
                |s: SegmentView| s.data.len() as int,
            ),
    {
        let mut i: usize = 0;
        while i < self.files.len()
            invariant
                i <= self.files@.len(),
                self.wf(),
                self@ == old(self)@,
                forall|j: int|
                    0 <= j < i ==> (#[trigger] self.files@[j]).synced_len()
                        == self.files@[j]@.data.len(),
            decreases self.files@.len() - i,
        {
            let ghost before = self.files@;
            self.files[i].sync();
            assert(forall|j: int| 0 <= j < before.len() && j != i ==> self.files@[j] == before[j]);
            assert(self@ =~= old(self)@);
            i = i + 1;
        }
        assert(self.synced_lens() =~= self@.map_values(|s: SegmentView| s.data.len() as int));
    }

    /// Marks the record at `at` of file `i` as deleted, in place.
    pub fn mark_deleted(&mut self, i: usize, at: usize) -> (r: Result<(), Error>)
        requires
            old(self).wf(),
            i < old(self)@.len(),
        ensures
            final(self).wf(),
            match r {
                Ok(()) => parse_record(old(self)@[i as int].data, at as int) is Entry
                    && final(self)@ == old(self)@.update(
                    i as int,
                    SegmentView {
                        id: old(self)@[i as int].id,
                        data: old(self)@[i as int].data.update(
                            parse_record(old(self)@[i as int].data, at as int)->next - 1,
                            1u8,
                        ),
                    },
                ) && final(self).synced_lens().len() == old(self).synced_lens().len() && forall|
                    j: int,
                |
                    0 <= j < old(self)@.len() ==> (#[trigger] final(self).synced_lens()[j])
                        <= old(self).synced_lens()[j],
                Err(e) => !(parse_record(old(self)@[i as int].data, at as int) is Entry) && e == (
                Error::Corruption { segment: old(self)@[i as int].id as usize, offset: at })
                    && final(self)@ == old(self)@ && final(self).synced_lens()
                    == old(self).synced_lens(),
            },
    {
        let ghost before = self.files@;
        let r = self.files[i].mark_deleted(at);
        assert(forall|j: int| 0 <= j < before.len() && j != i ==> self.files@[j] == before[j]);
        match r {
            Ok(()) => {
                assert(self@ =~= old(self)@.update(
                    i as int,
                    SegmentView {
                        id: old(self)@[i as int].id,
                        data: old(self)@[i as int].data.update(
                            parse_record(old(self)@[i as int].data, at as int)->next - 1,
                            1u8,
                        ),
                    },
                ));
            },
            Err(_) => {
                assert(self@ =~= old(self)@);
                assert(self.synced_lens() =~= old(self).synced_lens());
            },
        }
        assert forall|a: int, b: int| 0 <= a < b < self@.len() implies (#[trigger] self@[a]).id < (
        #[trigger] self@[b]).id by {
            assert(old(self)@[a].id < old(self)@[b].id);
        }
        r
    }
}

/// The image of a store directory: its segment files, and whether a writer
/// holds its lock.
#[derive(Debug)]
pub struct Directory {
    files: FilePool,
    locked: bool,
}

impl Directory {
    /// The segments of the directory in ascending order of id.
    pub closed spec fn segments(&self) -> Seq<SegmentView> {
        self.files@
    }

    /// For each segment, the number of its bytes that are on stable storage.
    pub closed spec fn synced_lens(&self) -> Seq<int> {
        self.files.synced_lens()
    }

    /// Whether a writer holds the directory's lock.
    pub closed spec fn is_locked(&self) -> bool {
        self.locked
    }

    /// The directory's invariant: that of its files.
    pub closed spec fn wf(&self) -> bool {
        self.files.wf()
    }

    /// Whether the directory holds a segment with the given id.
    pub open spec fn has(&self, id: int) -> bool {
        exists|i: int| 0 <= i < self.segments().len() && (#[trigger] self.segments()[i]).id == id
    }

    /// What the invariant says of the segments.
    pub proof fn lemma_wf(&self)
        requires
            self.wf(),
        ensures
            ascending(self.segments()),
            self.synced_lens().len() == self.segments().len(),
            forall|i: int|
                0 <= i < self.segments().len() ==> 0 <= (#[trigger] self.segments()[i]).id
                    <= usize::MAX,
    {
        self.files.lemma_ids();
        self.files.lemma_lens();
    }

    /// The empty directory, not locked.
    pub fn new() -> (directory: Directory)
        ensures
            directory.wf(),
            directory.segments() == Seq::<SegmentView>::empty(),
            !directory.is_locked(),
    {
        Directory { files: FilePool::new(), locked: false }
    }

    /// A directory of the given files.
    pub fn from_parts(files: FilePool, locked: bool) -> (directory: Directory)
        requires
            files.wf(),
        ensures
            directory.wf(),
            directory.segments() == files@,
            directory.synced_lens() == files.synced_lens(),
            directory.is_locked() == locked,
    {
        Directory { files, locked }
    }

    /// Gives up the directory for its files and its lock state.
    pub fn into_parts(self) -> (parts: (FilePool, bool))
        requires
            self.wf(),
        ensures
            parts.0.wf(),
            parts.0@ == self.segments(),
            parts.0.synced_lens() == self.synced_lens(),
            parts.1 == self.is_locked(),
    {
        (self.files, self.locked)
    }

    /// Adds the segment `id` with the given bytes, as read from stable
    /// storage. Fails with `Io`, and changes nothing, exactly when the
    /// directory holds a segment with that id.
    pub fn add_segment(&mut self, id: usize, data: Vec<u8>) -> (r: Result<(), Error>)
        requires
            old(self).wf(),
        ensures
            final(self).wf(),
            final(self).is_locked() == old(self).is_locked(),
            match r {
                Ok(()) => !old(self).has(id as int) && exists|at: int|
                    0 <= at <= old(self).segments().len() && final(self).segments()
                        == #[trigger] old(self).segments().insert(
                        at,
                        SegmentView { id: id as int, data: data@ },
                    ),
                Err(e) => old(self).has(id as int) && e == Error::Io && final(self).segments()
                    == old(self).segments(),
            },
    {
        let file = WorkingFile::from_bytes(id, data);
        let r = self.files.insert(file);
        proof {
            if r is Ok {
                let at = choose|at: int|
                    0 <= at <= old(self).segments().len() && self.files@
                        == #[trigger] old(self).files@.insert(at, file@);
                assert(self.segments() == old(self).segments().insert(
                    at,
                    SegmentView { id: id as int, data: data@ },
                ));
            }
        }
        r
    }

    /// Adds the file `name` with the given bytes where the name is that of
    /// a segment file; any other file is passed over. Says whether the file
    /// was added. Fails with `Io`, and changes nothing, exactly when the
    /// directory holds the segment that the name stands for.
    pub fn add_file(&mut self, name: &str, data: Vec<u8>) -> (r: Result<bool, Error>)
        requires
            old(self).wf(),
        ensures
            final(self).wf(),
            final(self).is_locked() == old(self).is_locked(),
            match (segment_id_spec(name@), r) {
                (Some(id), Ok(added)) => added && !old(self).has(id as int) && exists|at: int|
                    0 <= at <= old(self).segments().len() && final(self).segments()
                        == #[trigger] old(self).segments().insert(
                        at,
                        SegmentView { id: id as int, data: data@ },
                    ),
                (Some(id), Err(e)) => old(self).has(id as int) && e == Error::Io
                    && final(self).segments() == old(self).segments(),
                (None, Ok(added)) => !added && final(self).segments() == old(self).segments(),
                (None, Err(_)) => false,
            },
    {
        match segment_id(name) {
            Some(id) => match self.add_segment(id, data) {
                Ok(()) => Ok(true),
                Err(e) => Err(e),
            },
            None => Ok(false),
        }
    }

    /// Records whether a writer holds the directory's lock.
    pub fn set_locked(&mut self, locked: bool)
        requires
            old(self).wf(),
        ensures
            final(self).wf(),
            final(self).segments() == old(self).segments(),
            final(self).synced_lens() == old(self).synced_lens(),
            final(self).is_locked() == locked,
    {
        self.locked = locked;
    }

    /// Whether a writer holds the directory's lock.
    pub fn locked(&self) -> (locked: bool)
        ensures
            locked == self.is_locked(),
    {
        self.locked
    }

    /// The directory's segment files.
    pub fn files(&self) -> (files: &FilePool)
        requires
            self.wf(),
        ensures
            files.wf(),
            files@ == self.segments(),
            files.synced_lens() == self.synced_lens(),
    {
        &self.files
    }
}

} // verus!
