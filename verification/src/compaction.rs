//! Compaction as a mathematical function, and why it keeps what the store
//! holds.
//!
//! Compaction writes the live record of every key whose record stands in a
//! sealed segment into new segments, numbered from 0, and drops the old
//! sealed segments. The active segment keeps its bytes and takes the id after
//! the last new segment.

use crate::keydir::{agrees, DirEntry};
use crate::log::{
    appended, contents, last_for, lemma_last_for_concat, live, room, LogItem, SegmentView,
};
use vstd::prelude::*;

verus! {

/// The segments that compaction has written once it has gone through
/// `keys` in order: for each key whose live record stands outside the
/// segment `active`, that record, appended as a put appends it. `None` where
/// a record has no room.
pub open spec fn compacted(
    log: Seq<LogItem>,
    keys: Seq<Seq<u8>>,
    active: int,
    max: usize,
) -> Option<Seq<SegmentView>>
    decreases keys.len(),
{
    if keys.len() == 0 {
        Some(seq![SegmentView { id: 0, data: Seq::empty() }])
    } else {
        match compacted(log, keys.drop_last(), active, max) {
            None => None,
            Some(written) => {
                let item = live(log, keys.last())->0;
                if item.segment == active {
                    Some(written)
                } else if room(written, item.record) {
                    Some(appended(written, item.record, max))
                } else {
                    None
                }
            },
        }
    }
}

/// What was written without its last segment where that is empty: no
/// segment without a record is kept.
pub open spec fn without_empty(written: Seq<SegmentView>) -> Seq<SegmentView> {
    if written.last().data.len() == 0 {
        written.drop_last()
    } else {
        written
    }
}

/// The segments after compaction: the new sealed segments, then the active
/// segment under the next id. `None` where a record has no room.
pub open spec fn merged(
    segments: Seq<SegmentView>,
    log: Seq<LogItem>,
    keys: Seq<Seq<u8>>,
    max: usize,
) -> Option<Seq<SegmentView>> {
    match compacted(log, keys, segments.last().id, max) {
        Some(written) => Some(
            without_empty(written).push(
                SegmentView {
                    id: without_empty(written).len() as int,
                    data: segments.last().data,
                },
            ),
        ),
        None => None,
    }
}

/// The place of a record of the active segment once the segment has the id
/// `id`.
pub open spec fn renumbered(entry: DirEntry, id: int) -> DirEntry {
    DirEntry { segment_id: id as usize, ..entry }
}

/// The place of a key once compaction is through: that of its record in the
/// active segment under the segment's new id, or else the place `moved` to
/// which its record was written.
pub open spec fn settled(old: DirEntry, moved: DirEntry, active: int, id: int) -> DirEntry {
    if old.segment_id == active {
        renumbered(old, id)
    } else {
        moved
    }
}

/// The directory after compaction: a key whose record stands in the active
/// segment keeps its place under the segment's new id; every other key has
/// the place that `moved` gives it.
pub open spec fn repointed(
    dir: Map<Seq<u8>, DirEntry>,
    moved: Map<Seq<u8>, DirEntry>,
    active: int,
    id: int,
) -> Map<Seq<u8>, DirEntry> {
    Map::new(
        |key: Seq<u8>| dir.contains_key(key),
        |key: Seq<u8>|
            if dir[key].segment_id == active {
                renumbered(dir[key], id)
            } else {
                moved[key]
            },
    )
}

/// Where compaction went through all of `keys`, it went through the first
/// `n` of them.
pub proof fn lemma_compacted_prefix(
    log: Seq<LogItem>,
    keys: Seq<Seq<u8>>,
    active: int,
    max: usize,
    n: int,
)
    requires
        0 <= n <= keys.len(),
        compacted(log, keys, active, max) is Some,
    ensures
        compacted(log, keys.take(n), active, max) is Some,
    decreases keys.len(),
{
    if n == keys.len() {
        assert(keys.take(n) =~= keys);
    } else {
        lemma_compacted_prefix(log, keys.drop_last(), active, max, n);
        assert(keys.drop_last().take(n) =~= keys.take(n));
    }
}

/// Of what compaction has written, only the last segment can be empty: each
/// segment before it was sealed because it had grown over `max`.
pub proof fn lemma_compacted_sealed(log: Seq<LogItem>, keys: Seq<Seq<u8>>, active: int, max: usize)
    requires
        compacted(log, keys, active, max) is Some,
    ensures
        compacted(log, keys, active, max)->0.len() > 0,
        forall|i: int|
            0 <= i < compacted(log, keys, active, max)->0.len() - 1 ==> (#[trigger] compacted(
                log,
                keys,
                active,
                max,
            )->0[i]).data.len() > max,
    decreases keys.len(),
{
    if keys.len() > 0 {
        lemma_compacted_sealed(log, keys.drop_last(), active, max);
    }
}

/// One more key: what compaction has written after `n + 1` keys, from what
/// it has written after `n`.
pub proof fn lemma_compacted_step(
    log: Seq<LogItem>,
    keys: Seq<Seq<u8>>,
    active: int,
    max: usize,
    n: int,
)
    requires
        0 <= n < keys.len(),
    ensures
        compacted(log, keys.take(n + 1), active, max) == match compacted(
            log,
            keys.take(n),
            active,
            max,
        ) {
            None => None,
            Some(written) => {
                let item = live(log, keys[n])->0;
                if item.segment == active {
                    Some(written)
                } else if room(written, item.record) {
                    Some(appended(written, item.record, max))
                } else {
                    None
                }
            },
        },
{
    assert(keys.take(n + 1).drop_last() =~= keys.take(n));
}

/// The last item of a key in a log whose items all moved to one segment.
pub proof fn lemma_last_for_moved(log: Seq<LogItem>, id: int, key: Seq<u8>)
    ensures
        last_for(log.map_values(|it: LogItem| it.moved_to(id)), key) == match last_for(log, key) {
            Some(item) => Some(item.moved_to(id)),
            None => None,
        },
    decreases log.len(),
{
    let moved = log.map_values(|it: LogItem| it.moved_to(id));
    if log.len() > 0 {
        assert(moved.drop_last() =~= log.drop_last().map_values(|it: LogItem| it.moved_to(id)));
        lemma_last_for_moved(log.drop_last(), id, key);
    }
}

/// Compaction keeps what the store holds. The old log is that of the sealed
/// segments, then that of the active one. The new log is that of the new
/// segments, then that of the active one under its new id. Where the new
/// segments hold exactly the live records of the keys whose records stood in
/// sealed segments, at the places `moved` gives, the repointed directory is
/// the index of the new log, and the new log holds what the old one held.
pub proof fn lemma_compaction(
    sealed_log: Seq<LogItem>,
    active_log: Seq<LogItem>,
    new_log: Seq<LogItem>,
    dir: Map<Seq<u8>, DirEntry>,
    moved: Map<Seq<u8>, DirEntry>,
    active: int,
    id: int,
)
    requires
        0 <= id <= usize::MAX,
        agrees(dir, sealed_log + active_log),
        agrees(moved, new_log),
        forall|t: int| 0 <= t < sealed_log.len() ==> (#[trigger] sealed_log[t]).segment != active,
        forall|t: int| 0 <= t < active_log.len() ==> (#[trigger] active_log[t]).segment == active,
        forall|key: Seq<u8>| #[trigger]
            moved.contains_key(key) <==> dir.contains_key(key) && dir[key].segment_id != active,
        forall|key: Seq<u8>| #[trigger]
            moved.contains_key(key) ==> live(new_log, key)->0.record == live(
                sealed_log + active_log,
                key,
            )->0.record,
        forall|t: int|
            0 <= t < new_log.len() ==> live(new_log, (#[trigger] new_log[t]).record.key) == Some(
                new_log[t],
            ),
    ensures
        forall|t: int|
            0 <= t < new_log.len() ==> live(
                new_log + active_log.map_values(|it: LogItem| it.moved_to(id)),
                (#[trigger] new_log[t]).record.key,
            ) == Some(new_log[t]),
        agrees(
            repointed(dir, moved, active, id),
            new_log + active_log.map_values(|it: LogItem| it.moved_to(id)),
        ),
        contents(new_log + active_log.map_values(|it: LogItem| it.moved_to(id))) == contents(
            sealed_log + active_log,
        ),
{
    let old_log = sealed_log + active_log;
    let moved_log = active_log.map_values(|it: LogItem| it.moved_to(id));
    let after = new_log + moved_log;
    let new_dir = repointed(dir, moved, active, id);
    assert forall|key: Seq<u8>|
        (match #[trigger] live(after, key) {
            Some(item) => new_dir.contains_key(key) && new_dir[key].points_to(item),
            None => !new_dir.contains_key(key),
        }) && (live(after, key) is Some <==> live(old_log, key) is Some) && (live(after, key)
            is Some ==> live(after, key)->0.record.value == live(old_log, key)->0.record.value) by {
        lemma_last_for_concat(sealed_log, active_log, key);
        lemma_last_for_concat(new_log, moved_log, key);
        lemma_last_for_moved(active_log, id, key);
        let _ = live(old_log, key);
        let _ = live(new_log, key);
        let _ = dir.contains_key(key);
        let _ = moved.contains_key(key);
        match last_for(active_log, key) {
            Some(item) => {
                lemma_last_for_member(active_log, key);
            },
            None => {
                if last_for(sealed_log, key) is Some {
                    lemma_last_for_member(sealed_log, key);
                }
            },
        }
    }
    assert(contents(after) =~= contents(old_log));
    assert forall|t: int| 0 <= t < new_log.len() implies live(
        after,
        (#[trigger] new_log[t]).record.key,
    ) == Some(new_log[t]) by {
        let key = new_log[t].record.key;
        let _ = live(new_log, key);
        let _ = moved.contains_key(key);
        lemma_last_for_concat(sealed_log, active_log, key);
        lemma_last_for_concat(new_log, moved_log, key);
        lemma_last_for_moved(active_log, id, key);
        let _ = live(old_log, key);
        if last_for(active_log, key) is Some {
            lemma_last_for_member(active_log, key);
        }
    }
}

/// One element more of a sequence: what the longer prefix holds.
pub proof fn lemma_take_contains<T>(s: Seq<T>, i: int, x: T)
    requires
        0 <= i < s.len(),
    ensures
        s.take(i + 1).contains(x) <==> s.take(i).contains(x) || x == s[i],
{
    let longer = s.take(i + 1);
    let shorter = s.take(i);
    if longer.contains(x) {
        let t = choose|t: int| 0 <= t < longer.len() && longer[t] == x;
        if t < i {
            assert(shorter[t] == x);
        }
    }
    if shorter.contains(x) {
        let t = choose|t: int| 0 <= t < shorter.len() && shorter[t] == x;
        assert(longer[t] == x);
    }
    if x == s[i] {
        assert(longer[i] == x);
    }
}

/// In a sequence without duplicates no element stands before itself.
pub proof fn lemma_take_lacks<T>(s: Seq<T>, i: int)
    requires
        0 <= i < s.len(),
        s.no_duplicates(),
    ensures
        !s.take(i).contains(s[i]),
{
    let shorter = s.take(i);
    if shorter.contains(s[i]) {
        let t = choose|t: int| 0 <= t < shorter.len() && shorter[t] == s[i];
        assert(s[t] == s[i]);
    }
}

/// The last item of a key is an item of the log.
pub proof fn lemma_last_for_member(log: Seq<LogItem>, key: Seq<u8>)
    requires
        last_for(log, key) is Some,
    ensures
        exists|t: int| 0 <= t < log.len() && #[trigger] log[t] == last_for(log, key)->0,
    decreases log.len(),
{
    if log.last().record.key == key {
        assert(log[log.len() - 1] == last_for(log, key)->0);
    } else {
        lemma_last_for_member(log.drop_last(), key);
        let t = choose|t: int|
            0 <= t < log.drop_last().len() && #[trigger] log.drop_last()[t] == last_for(
                log.drop_last(),
                key,
            )->0;
        assert(log[t] == last_for(log, key)->0);
    }
}

} // verus!
