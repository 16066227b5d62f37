//! Compaction of a store.

use crate::compaction::{
    compacted, lemma_compacted_prefix, lemma_compacted_sealed, lemma_compacted_step,
    lemma_compaction, lemma_take_contains,
    lemma_take_lacks, merged, repointed, settled, without_empty,
};
use crate::engine::{append_and_rotate, Bitcask};
use crate::entry::{lemma_parse_entry, Decoded};
use crate::error::Error;
use crate::files::{FilePool, WorkingFile};
use crate::keydir::{agrees, lemma_agrees_put, DirEntry};
use crate::log::{
    appended, appended_item, ascending, contents, items_before, lemma_appended,
    lemma_last_for_push, lemma_log_push, lemma_log_segments, lemma_scan_empty, lemma_scan_id,
    lemma_scan_items, live, log_of, numbered, room, scan, scan_end, LogItem, SegmentView,
};
use vstd::prelude::*;

verus! {

impl Bitcask {
    /// What a successful merge leaves: the segments that compaction gives,
    /// in which every record of a sealed segment is the live record of its
    /// key; the same keys, in the same order, with the same values; the
    /// sealed segments synced in full.
    pub open spec fn merge_done(pre: Bitcask, post: Bitcask) -> bool {
        let sealed = post.segments().len() - 1;
        &&& pre.writable()
        &&& merged(pre.segments(), pre.log(), pre.key_order(), pre.options().max_data_size)
            == Some(post.segments())
        &&& post@ == pre@
        &&& post.key_order() == pre.key_order()
        &&& forall|i: int| 0 <= i < sealed ==> (#[trigger] post.segments()[i]).data.len() > 0
        &&& log_of(post.segments().take(sealed)) is Some
        &&& forall|t: int|
            0 <= t < items_before(post.segments(), sealed) ==> live(
                post.log(),
                (#[trigger] post.log()[t]).record.key,
            ) == Some(post.log()[t])
        &&& post.synced_lens() == post.segments().take(sealed).map_values(
            |s: SegmentView| s.data.len() as int,
        ).push(pre.synced_lens().last())
        &&& post.options() == pre.options()
        &&& post.is_closed() == pre.is_closed()
        &&& post.holds_lock() == pre.holds_lock()
    }

    /// What a merge leaves, and what it gives back: done where the store is
    /// writable and every record has room; `InvalidState` where it is not
    /// writable; `Io` where a record has no room; nothing has changed where
    /// it fails.
    pub open spec fn merge_post(pre: Bitcask, post: Bitcask, r: Result<(), Error>) -> bool {
        match r {
            Ok(()) => Self::merge_done(pre, post),
            Err(e) => Self::unchanged(pre, post) && if !pre.writable() {
                e == Error::InvalidState
            } else {
                merged(pre.segments(), pre.log(), pre.key_order(), pre.options().max_data_size)
                    is None && e == Error::Io
            },
        }
    }

    /// What holds while compaction goes through the keys: after the first
    /// `i` keys, `written` is what compaction has written, and `places` has
    /// the new place of each key whose record was written.
    pub open spec fn merging(
        &self,
        i: int,
        written: Seq<SegmentView>,
        places: Map<Seq<u8>, DirEntry>,
        moved: Seq<DirEntry>,
    ) -> bool {
        let active = self.segments().last().id;
        let keys = self.key_order();
        &&& 0 <= i <= keys.len()
        &&& moved.len() == i
        &&& compacted(self.log(), keys.take(i), active, self.options().max_data_size) == Some(
            written,
        )
        &&& written.len() > 0
        &&& ascending(written)
        &&& numbered(written)
        &&& log_of(written) is Some
        &&& scan_end(written.last().data, 0) == written.last().data.len()
        &&& agrees(places, log_of(written)->0)
        &&& forall|key: Seq<u8>| #[trigger]
            places.contains_key(key) <==> keys.take(i).contains(key) && self.index()[key].segment_id
                != active
        &&& forall|key: Seq<u8>| #[trigger]
            places.contains_key(key) ==> live(log_of(written)->0, key)->0.record == live(
                self.log(),
                key,
            )->0.record
        &&& forall|t: int|
            0 <= t < log_of(written)->0.len() ==> live(
                log_of(written)->0,
                (#[trigger] log_of(written)->0[t]).record.key,
            ) == Some(log_of(written)->0[t])
        &&& forall|j: int|
            0 <= j < i ==> #[trigger] moved[j] == if self.index()[keys[j]].segment_id == active {
                self.index()[keys[j]]
            } else {
                places[keys[j]]
            }
    }

    /// Compaction starts with one empty segment and no place.
    proof fn lemma_merging_start(&self)
        requires
            self.wf(),
            self.options().read_write,
        ensures
            self.merging(
                0,
                seq![SegmentView { id: 0, data: Seq::empty() }],
                Map::empty(),
                Seq::empty(),
            ),
    {
        let written = seq![SegmentView { id: 0, data: Seq::<u8>::empty() }];
        let nothing = Seq::<SegmentView>::empty();
        assert(written =~= nothing.push(written[0]));
        lemma_log_push(nothing, written[0]);
        lemma_scan_empty(0);
        assert(Seq::<LogItem>::empty() + Seq::<LogItem>::empty() =~= Seq::<LogItem>::empty());
        assert(self.key_order().take(0) =~= Seq::<Seq<u8>>::empty());
        assert forall|key: Seq<u8>| live(Seq::<LogItem>::empty(), key) is None by {}
    }

    /// A key whose record stands in the active segment is passed over.
    proof fn lemma_merging_skip(
        &self,
        i: int,
        written: Seq<SegmentView>,
        places: Map<Seq<u8>, DirEntry>,
        moved: Seq<DirEntry>,
    )
        requires
            self.wf(),
            self.options().read_write,
            self.merging(i, written, places, moved),
            i < self.key_order().len(),
            self.index()[self.key_order()[i]].segment_id == self.segments().last().id,
        ensures
            self.merging(i + 1, written, places, moved.push(self.index()[self.key_order()[i]])),
    {
        let keys = self.key_order();
        let key = keys[i];
        self.lemma_wf();
        assert(keys.contains(key));
        let at = self.lemma_live_item(key);
        lemma_compacted_step(
            self.log(),
            keys,
            self.segments().last().id,
            self.options().max_data_size,
            i,
        );
        assert(keys.take(i + 1) =~= keys.take(i).push(key));
        assert forall|k: Seq<u8>| keys.take(i + 1).contains(k) <==> keys.take(i).contains(k) || k
            == key by {
            lemma_take_contains(keys, i, k);
        }
    }

    /// The live record of a key whose record stands in a sealed segment is
    /// written, and the key has its new place.
    proof fn lemma_merging_move(
        &self,
        i: int,
        written: Seq<SegmentView>,
        places: Map<Seq<u8>, DirEntry>,
        moved: Seq<DirEntry>,
        place: DirEntry,
    )
        requires
            self.wf(),
            self.options().read_write,
            self.merging(i, written, places, moved),
            i < self.key_order().len(),
            self.index()[self.key_order()[i]].segment_id != self.segments().last().id,
            room(written, live(self.log(), self.key_order()[i])->0.record),
            place == (DirEntry {
                segment_id: written.last().id as usize,
                entry_pos: written.last().data.len() as usize,
                timestamp: live(self.log(), self.key_order()[i])->0.record.timestamp,
            }),
        ensures
            self.merging(
                i + 1,
                appended(
                    written,
                    live(self.log(), self.key_order()[i])->0.record,
                    self.options().max_data_size,
                ),
                places.insert(self.key_order()[i], place),
                moved.push(place),
            ),
    {
        let keys = self.key_order();
        let key = keys[i];
        let max = self.options().max_data_size;
        self.lemma_wf();
        assert(keys.contains(key));
        let at = self.lemma_live_item(key);
        let record = live(self.log(), key)->0.record;
        let after = appended(written, record, max);
        let item = appended_item(written, record);
        let old_log = log_of(written)->0;
        let new_log = old_log.push(item);
        let new_places = places.insert(key, place);
        lemma_parse_entry(
            self.segments()[at.1].data,
            self.log()[at.0].offset,
        );
        lemma_compacted_step(self.log(), keys, self.segments().last().id, max, i);
        lemma_appended(written, record, max);
        assert(written[written.len() - 1].id == written.len() - 1);
        lemma_agrees_put(places, old_log, item, place);
        assert(keys.take(i + 1) =~= keys.take(i).push(key));
        assert(!keys.take(i).contains(key)) by {
            lemma_take_lacks(keys, i);
        }
        assert forall|k: Seq<u8>| keys.take(i + 1).contains(k) <==> keys.take(i).contains(k) || k
            == key by {
            lemma_take_contains(keys, i, k);
        }
        assert forall|k: Seq<u8>| #[trigger] live(new_log, k) == if k == key {
            Some(item)
        } else {
            live(old_log, k)
        } by {
            lemma_last_for_push(old_log, item, k);
        }
        assert forall|t: int| 0 <= t < new_log.len() implies live(
            new_log,
            (#[trigger] new_log[t]).record.key,
        ) == Some(new_log[t]) by {
            if t < old_log.len() {
                assert(new_log[t] == old_log[t]);
                let k = old_log[t].record.key;
                assert(live(old_log, k) == Some(old_log[t]));
                assert(places.contains_key(k));
            }
        }
        let active = self.segments().last().id;
        let longer = moved.push(place);
        let dir = self.index();
        assert forall|j: int|
            0 <= j < i + 1 implies #[trigger] longer[j] == if dir[keys[j]].segment_id == active {
            dir[keys[j]]
        } else {
            new_places[keys[j]]
        } by {
            if j < i {
                assert(longer[j] == moved[j]);
                assert(keys[j] != keys[i]);
            }
        }
    }

    /// Once compaction has gone through all keys, the new segments with the
    /// active one behind them hold what the store held, and the repointed
    /// directory is their index.
    proof fn lemma_merging_done(
        &self,
        written: Seq<SegmentView>,
        places: Map<Seq<u8>, DirEntry>,
        moved: Seq<DirEntry>,
        new_dir: Map<Seq<u8>, DirEntry>,
    )
        requires
            self.wf(),
            self.options().read_write,
            self.merging(self.key_order().len() as int, written, places, moved),
            without_empty(written).len() <= usize::MAX,
            new_dir.dom() == self.index().dom(),
            forall|j: int|
                0 <= j < self.key_order().len() ==> new_dir[#[trigger] self.key_order()[j]]
                    == settled(
                    self.index()[self.key_order()[j]],
                    moved[j],
                    self.segments().last().id,
                    without_empty(written).len() as int,
                ),
        ensures
            merged(self.segments(), self.log(), self.key_order(), self.options().max_data_size)
                is Some,
            ({
                let after = merged(
                    self.segments(),
                    self.log(),
                    self.key_order(),
                    self.options().max_data_size,
                )->0;
                let sealed = without_empty(written);
                &&& after == sealed.push(
                    SegmentView { id: sealed.len() as int, data: self.segments().last().data },
                )
                &&& Self::consistent(sealed, Some(after.last()), new_dir, self.options())
                &&& contents(log_of(after)->0) == self@
                &&& forall|i: int| 0 <= i < sealed.len() ==> (#[trigger] after[i]).data.len() > 0
                &&& log_of(sealed) is Some
                &&& forall|t: int|
                    0 <= t < log_of(sealed)->0.len() ==> live(
                        log_of(after)->0,
                        (#[trigger] log_of(after)->0[t]).record.key,
                    ) == Some(log_of(after)->0[t])
            }),
    {
        let keys = self.key_order();
        let n = keys.len() as int;
        let max = self.options().max_data_size;
        let segments = self.segments();
        let active = segments.last();
        let before = segments.drop_last();
        let sealed = without_empty(written);
        let m = sealed.len() as int;
        let fresh = SegmentView { id: m, data: active.data };
        let after = sealed.push(fresh);
        self.lemma_wf();
        assert(keys.take(n) =~= keys);
        lemma_compacted_sealed(self.log(), keys, active.id, max);
        assert forall|i: int| 0 <= i < sealed.len() implies (#[trigger] after[i]).data.len()
            > 0 by {
            assert(after[i] == written[i]);
        }
        // the old log, in its two parts
        assert(segments =~= before.push(active));
        lemma_log_push(before, active);
        let sealed_log = log_of(before)->0;
        let active_log = scan(active.id, active.data, 0)->0;
        assert forall|j: int| 0 <= j < before.len() implies (#[trigger] before[j]).id
            < active.id by {
            assert(segments[j].id < segments[segments.len() - 1].id);
        }
        lemma_log_segments(before, active.id);
        lemma_scan_items(active.id, active.data, 0);
        // the new sealed segments hold what was written
        let new_log = log_of(written)->0;
        if written.last().data.len() == 0 {
            assert(written =~= sealed.push(written.last()));
            lemma_log_push(sealed, written.last());
            lemma_scan_empty(written.last().id);
            assert(log_of(sealed)->0 + Seq::<LogItem>::empty() =~= log_of(sealed)->0);
        }
        assert(log_of(sealed) == Some(new_log));
        // the active segment under its new id
        lemma_scan_id(active.id, m, active.data, 0);
        lemma_log_push(sealed, fresh);
        let moved_log = active_log.map_values(|it: LogItem| it.moved_to(m));
        assert(log_of(after) == Some(new_log + moved_log));
        assert forall|i: int, j: int| 0 <= i < j < after.len() implies (#[trigger] after[i]).id < (
        #[trigger] after[j]).id by {
            assert(written[i].id == i);
            if j < m {
                assert(written[j].id == j);
            }
        }
        assert forall|i: int| 0 <= i < after.len() implies (#[trigger] after[i]).id == i by {
            if i < m {
                assert(written[i].id == i);
            }
        }
        // the directory
        assert forall|key: Seq<u8>| #[trigger]
            places.contains_key(key) <==> self.index().contains_key(key)
                && self.index()[key].segment_id != active.id by {
            let _ = keys.contains(key);
        }
        lemma_compaction(sealed_log, active_log, new_log, self.index(), places, active.id, m);
        let target = repointed(self.index(), places, active.id, m);
        assert forall|key: Seq<u8>| target.contains_key(key) implies #[trigger] new_dir[key]
            == target[key] by {
            assert(keys.contains(key));
            let j = choose|j: int| 0 <= j < keys.len() && keys[j] == key;
            assert(new_dir[keys[j]] == target[key]);
        }
        assert(new_dir =~= target);
        assert forall|t: int| 0 <= t < new_log.len() implies live(
            log_of(after)->0,
            (#[trigger] log_of(after)->0[t]).record.key,
        ) == Some(log_of(after)->0[t]) by {
            assert(log_of(after)->0[t] == new_log[t]);
        }
    }

    /// Compacts the store: writes the live record of every key whose record
    /// stands in a sealed segment into new segments, as puts would, and puts
    /// the new segments in the place of the sealed ones. The active segment
    /// takes no part; it keeps its bytes and gets the id after the last new
    /// segment. The store is changed only once every record is written.
    pub fn merge(&mut self) -> (r: Result<(), Error>)
        requires
            old(self).wf(),
        ensures
            final(self).wf(),
            Self::merge_post(*old(self), *final(self), r),
    {
        if self.closed || !self.options.read_write {
            return Err(Error::InvalidState);
        }
        let ghost pre = *self;
        proof {
            self.lemma_wf();
            self.lemma_merging_start();
        }
        let active_id = match &self.working_file {
            Some(file) => file.id(),
            None => { return Err(Error::InvalidState); },
        };
        let max = self.options.max_data_size;
        let mut outputs = FilePool::new();
        let mut current = match WorkingFile::open(&outputs, 0) {
            Ok(file) => file,
            Err(e) => { return Err(e); },
        };
        let mut moved: Vec<DirEntry> = Vec::new();
        let ghost mut places: Map<Seq<u8>, DirEntry> = Map::empty();
        let n = self.key_dir.len();
        let mut i: usize = 0;
        assert(outputs@.push(current@) =~= seq![SegmentView { id: 0, data: Seq::empty() }]);
        while i < n
            invariant
                *self == pre,
                self.wf(),
                self.options().read_write,
                !self.is_closed(),
                n == self.key_order().len(),
                active_id == self.segments().last().id,
                max == self.options().max_data_size,
                outputs.wf(),
                current.wf(),
                self.merging(i as int, outputs@.push(current@), places, moved@),
            decreases n - i,
        {
            let ghost written = outputs@.push(current@);
            let ghost key = self.key_order()[i as int];
            let place = self.key_dir.entry_at(i);
            proof {
                self.lemma_wf();
            }
            if place.segment_id == active_id {
                proof {
                    self.lemma_merging_skip(i as int, written, places, moved@);
                }
                moved.push(place);
            } else {
                let ghost at = self.lemma_live_item(key);
                let entry = match self.segment(place.segment_id) {
                    Some((file, j)) => {
                        assert(j@ == at.1);
                        match file.read_at(place.entry_pos) {
                            Decoded::Entry(entry, _) => entry,
                            _ => {
                                return Err(
                                    Error::Corruption {
                                        segment: place.segment_id,
                                        offset: place.entry_pos,
                                    },
                                );
                            },
                        }
                    },
                    None => {
                        return Err(
                            Error::Corruption {
                                segment: place.segment_id,
                                offset: place.entry_pos,
                            },
                        );
                    },
                };
                let (next, done) = append_and_rotate(&mut outputs, current, &entry, max, false);
                current = next;
                match done {
                    Ok(new_place) => {
                        proof {
                            self.lemma_merging_move(i as int, written, places, moved@, new_place);
                            places = places.insert(key, new_place);
                        }
                        moved.push(new_place);
                    },
                    Err(e) => {
                        proof {
                            lemma_compacted_step(
                                self.log(),
                                self.key_order(),
                                active_id as int,
                                max,
                                i as int,
                            );
                            if compacted(self.log(), self.key_order(), active_id as int, max)
                                is Some {
                                lemma_compacted_prefix(
                                    self.log(),
                                    self.key_order(),
                                    active_id as int,
                                    max,
                                    i + 1,
                                );
                            }
                        }
                        return Err(e);
                    },
                }
            }
            i = i + 1;
        }
        let ghost written = outputs@.push(current@);
        if current.bytes_count() > 0 {
            proof {
                assert forall|j: int| 0 <= j < outputs@.len() implies (#[trigger] outputs@[j]).id
                    < current@.id by {
                    assert(written[j].id < written[written.len() - 1].id);
                }
            }
            outputs.push(current);
        } else {
            assert(written.drop_last() =~= outputs@);
        }
        assert(outputs@ =~= without_empty(written));
        outputs.sync();
        let id = outputs.len();
        let mut entries: Vec<DirEntry> = Vec::new();
        let mut j: usize = 0;
        while j < n
            invariant
                *self == pre,
                self.wf(),
                n == self.key_order().len(),
                moved@.len() == n,
                j <= n,
                entries@.len() == j,
                forall|k: int|
                    0 <= k < j ==> #[trigger] entries@[k] == settled(
                        self.index()[self.key_order()[k]],
                        moved@[k],
                        active_id as int,
                        id as int,
                    ),
            decreases n - j,
        {
            let place = self.key_dir.entry_at(j);
            if place.segment_id == active_id {
                entries.push(DirEntry::new(id, place.entry_pos, place.timestamp));
            } else {
                entries.push(moved[j]);
            }
            j = j + 1;
        }
        let mut file = match self.working_file.take() {
            Some(file) => file,
            None => { return Err(Error::InvalidState); },
        };
        file.renumber(id);
        self.key_dir.repoint(&entries);
        proof {
            pre.lemma_merging_done(written, places, moved@, self.key_dir@);
            assert(outputs.synced_lens().push(file.synced_len()) =~= outputs@.push(file@).take(
                outputs@.len() as int,
            ).map_values(|s: SegmentView| s.data.len() as int).push(pre.synced_lens().last())) by {
                assert(outputs@.push(file@).take(outputs@.len() as int) =~= outputs@);
            }
            assert(outputs@.push(file@).take(outputs@.len() as int) =~= outputs@);
        }
        self.sealed = outputs;
        self.working_file = Some(file);
        Ok(())
    }
}

} // verus!
