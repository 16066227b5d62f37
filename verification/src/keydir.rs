//! The key directory: for each live key, where its latest record stands.
//!
//! The keys stand in a vector of slots. A hash map files each slot's index
//! under the hash of its key, so that a key is found by its hash and a
//! comparison with the few keys that share it.

use crate::log::{lemma_last_for_push, lemma_last_for_update, live, LogItem};
use crate::varint::copy_range;
use std::collections::HashMap;
use vstd::prelude::*;

verus! {

/// Where the latest record of a key stands.
#[derive(Clone, Copy, Debug, PartialEq, Eq, Structural)]
pub struct DirEntry {
    /// Id of the segment that holds the record.
    pub segment_id: usize,
    /// Offset of the record's first byte in the segment.
    pub entry_pos: usize,
    /// The record's timestamp.
    pub timestamp: u64,
}

impl DirEntry {
    /// The entry with the given fields.
    pub fn new(segment_id: usize, entry_pos: usize, timestamp: u64) -> (entry: DirEntry)
        ensures
            entry == (DirEntry { segment_id, entry_pos, timestamp }),
    {
        DirEntry { segment_id, entry_pos, timestamp }
    }

    /// Whether the entry is the place and timestamp of `item`.
    pub open spec fn points_to(self, item: LogItem) -> bool {
        &&& self.segment_id == item.segment
        &&& self.entry_pos == item.offset
        &&& self.timestamp == item.record.timestamp
    }
}

/// Whether a directory is the index of a log: it holds exactly the keys
/// that are live in the log, each with the place of its live item.
pub open spec fn agrees(dir: Map<Seq<u8>, DirEntry>, log: Seq<LogItem>) -> bool {
    forall|key: Seq<u8>|
        #![trigger live(log, key)]
        #![trigger dir.contains_key(key)]
        match live(log, key) {
            Some(item) => dir.contains_key(key) && dir[key].points_to(item),
            None => !dir.contains_key(key),
        }
}

/// The index of a log with one more live record.
pub proof fn lemma_agrees_put(
    dir: Map<Seq<u8>, DirEntry>,
    log: Seq<LogItem>,
    item: LogItem,
    entry: DirEntry,
)
    requires
        agrees(dir, log),
        !item.record.deleted,
        entry.points_to(item),
    ensures
        agrees(dir.insert(item.record.key, entry), log.push(item)),
{
    assert forall|key: Seq<u8>| #[trigger] live(log.push(item), key) == if key == item.record.key {
        Some(item)
    } else {
        live(log, key)
    } by {
        lemma_last_for_push(log, item, key);
    }
}

/// The index of a log with one more tombstone.
pub proof fn lemma_agrees_tombstone(dir: Map<Seq<u8>, DirEntry>, log: Seq<LogItem>, item: LogItem)
    requires
        agrees(dir, log),
        item.record.deleted,
    ensures
        agrees(dir.remove(item.record.key), log.push(item)),
{
    assert forall|key: Seq<u8>| #[trigger] live(log.push(item), key) == if key == item.record.key {
        None
    } else {
        live(log, key)
    } by {
        lemma_last_for_push(log, item, key);
    }
}

/// The index of a log in which the live item of a key became its tombstone.
pub proof fn lemma_agrees_delete(dir: Map<Seq<u8>, DirEntry>, log: Seq<LogItem>, i: int)
    requires
        agrees(dir, log),
        0 <= i < log.len(),
        forall|k: int| i < k < log.len() ==> (#[trigger] log[k]).record.key != log[i].record.key,
    ensures
        agrees(dir.remove(log[i].record.key), log.update(i, log[i].tombstone())),
{
    let changed = log.update(i, log[i].tombstone());
    assert forall|key: Seq<u8>| #[trigger] live(changed, key) == if key == log[i].record.key {
        None
    } else {
        live(log, key)
    } by {
        lemma_last_for_update(log, i, log[i].tombstone(), key);
    }
}

/// Whether two byte strings are equal.
pub fn same_bytes(a: &[u8], b: &[u8]) -> (same: bool)
    ensures
        same == (a@ == b@),
{
    if a.len() != b.len() {
        return false;
    }
    let mut i: usize = 0;
    while i < a.len()
        invariant
            a@.len() == b@.len(),
            i <= a@.len(),
            forall|j: int| 0 <= j < i ==> a@[j] == b@[j],
        decreases a@.len() - i,
    {
        if a[i] != b[i] {
            return false;
        }
        i = i + 1;
    }
    assert(a@ =~= b@);
    true
}

/// The hash of the empty key: the offset basis of 64-bit FNV-1a.
pub const HASH_SEED: u64 = 14695981039346656037;

/// The prime of 64-bit FNV-1a.
pub const HASH_PRIME: u64 = 1099511628211;

/// One step of the hash: the next byte is mixed in.
pub open spec fn mix(h: u64, b: u8) -> u64 {
    (h ^ (b as u64)).wrapping_mul(1099511628211)
}

/// The hash under which a key is filed: 64-bit FNV-1a.
pub open spec fn key_hash(key: Seq<u8>) -> u64
    decreases key.len(),
{
    if key.len() == 0 {
        14695981039346656037
    } else {
        mix(key_hash(key.drop_last()), key.last())
    }
}

/// The hash under which a key is filed.
pub fn hash_of(key: &[u8]) -> (h: u64)
    ensures
        h == key_hash(key@),
{
    let mut h: u64 = HASH_SEED;
    let mut i: usize = 0;
    while i < key.len()
        invariant
            i <= key@.len(),
            h == key_hash(key@.take(i as int)),
        decreases key@.len() - i,
    {
        assert(key@.take(i + 1).drop_last() =~= key@.take(i as int));
        h = (h ^ (key[i] as u64)).wrapping_mul(HASH_PRIME);
        i = i + 1;
    }
    assert(key@.take(key@.len() as int) =~= key@);
    h
}

/// The indices of `list` but `i`.
fn without(list: &Vec<usize>, i: usize) -> (out: Vec<usize>)
    ensures
        forall|x: usize| out@.contains(x) <==> list@.contains(x) && x != i,
{
    let mut out: Vec<usize> = Vec::new();
    let mut k: usize = 0;
    while k < list.len()
        invariant
            k <= list@.len(),
            forall|t: int|
                0 <= t < out@.len() ==> (#[trigger] out@[t]) != i && list@.contains(out@[t]),
            forall|t: int| 0 <= t < k ==> (#[trigger] list@[t]) == i || out@.contains(list@[t]),
        decreases list@.len() - k,
    {
        let x = list[k];
        if x != i {
            let ghost before = out@;
            out.push(x);
            assert(out@[before.len() as int] == x);
            assert forall|t: int| 0 <= t < k + 1 implies (#[trigger] list@[t]) == i
                || out@.contains(list@[t]) by {
                if t < k && list@[t] != i {
                    let u = choose|u: int| 0 <= u < before.len() && before[u] == list@[t];
                    assert(out@[u] == list@[t]);
                }
            }
        }
        k = k + 1;
    }
    assert forall|x: usize| out@.contains(x) <==> list@.contains(x) && x != i by {
        if out@.contains(x) {
            let u = choose|u: int| 0 <= u < out@.len() && out@[u] == x;
            assert(out@[u] != i);
        }
        if list@.contains(x) && x != i {
            let t = choose|t: int| 0 <= t < list@.len() && list@[t] == x;
            assert(list@[t] == i || out@.contains(list@[t]));
        }
    }
    out
}

/// The indices of `list` with `to` in the place of `from`.
fn renamed(list: &Vec<usize>, from: usize, to: usize) -> (out: Vec<usize>)
    ensures
        forall|x: usize|
            out@.contains(x) <==> (list@.contains(x) && x != from) || (x == to && list@.contains(
                from,
            )),
{
    let mut out: Vec<usize> = Vec::new();
    let mut k: usize = 0;
    while k < list.len()
        invariant
            k <= list@.len(),
            out@.len() == k,
            forall|t: int|
                0 <= t < k ==> (#[trigger] out@[t]) == if list@[t] == from {
                    to
                } else {
                    list@[t]
                },
        decreases list@.len() - k,
    {
        let x = list[k];
        if x == from {
            out.push(to);
        } else {
            out.push(x);
        }
        k = k + 1;
    }
    assert forall|x: usize|
        out@.contains(x) <==> (list@.contains(x) && x != from) || (x == to && list@.contains(
            from,
        )) by {
        if out@.contains(x) {
            let u = choose|u: int| 0 <= u < out@.len() && out@[u] == x;
            assert(list@[u] == from || list@[u] == x);
        }
        if list@.contains(x) && x != from {
            let t = choose|t: int| 0 <= t < list@.len() && list@[t] == x;
            assert(out@[t] == x);
        }
        if x == to && list@.contains(from) {
            let t = choose|t: int| 0 <= t < list@.len() && list@[t] == from;
            assert(out@[t] == x);
        }
    }
    out
}

/// A key with its directory entry.
#[derive(Debug)]
pub struct Slot {
    key: Vec<u8>,
    entry: DirEntry,
}

/// The key directory. No key stands in it twice.
pub struct KeyDir {
    slots: Vec<Slot>,
    buckets: HashMap<u64, Vec<usize>>,
    map: Ghost<Map<Seq<u8>, DirEntry>>,
}

impl View for KeyDir {
    type V = Map<Seq<u8>, DirEntry>;

    closed spec fn view(&self) -> Map<Seq<u8>, DirEntry> {
        self.map@
    }
}

/// Whether slot `i` is filed under the hash of its key.
pub closed spec fn filed(buckets: Map<u64, Vec<usize>>, slots: Seq<Slot>, i: int) -> bool {
    buckets.contains_key(key_hash(slots[i].key@)) && buckets[key_hash(slots[i].key@)]@.contains(
        i as usize,
    )
}

/// Whether `x`, where it is filed under `h`, is the index of a slot whose
/// key has the hash `h`.
pub closed spec fn sound(
    buckets: Map<u64, Vec<usize>>,
    slots: Seq<Slot>,
    h: u64,
    x: usize,
) -> bool {
    buckets.contains_key(h) && buckets[h]@.contains(x) ==> x < slots.len() && key_hash(
        slots[x as int].key@,
    ) == h
}

impl KeyDir {
    /// The keys in the order in which the directory holds them.
    pub closed spec fn keys(&self) -> Seq<Seq<u8>> {
        Seq::new(self.slots@.len(), |i: int| self.slots@[i].key@)
    }

    /// The slots are the map, key by key, and no key stands in two slots.
    pub closed spec fn slots_wf(&self) -> bool {
        &&& forall|i: int|
            0 <= i < self.slots@.len() ==> self.map@.contains_key(
                (#[trigger] self.slots@[i]).key@,
            ) && self.map@[self.slots@[i].key@] == self.slots@[i].entry
        &&& forall|key: Seq<u8>| #[trigger]
            self.map@.contains_key(key) ==> exists|i: int|
                0 <= i < self.slots@.len() && (#[trigger] self.slots@[i]).key@ == key
        &&& forall|i: int, j: int|
            0 <= i < j < self.slots@.len() ==> (#[trigger] self.slots@[i]).key@
                != (#[trigger] self.slots@[j]).key@
    }

    /// Each slot is filed under the hash of its key, and nothing else is
    /// filed.
    pub closed spec fn buckets_wf(&self) -> bool {
        &&& forall|i: int|
            0 <= i < self.slots@.len() ==> #[trigger] filed(self.buckets@, self.slots@, i)
        &&& forall|h: u64, x: usize| #[trigger] sound(self.buckets@, self.slots@, h, x)
    }

    /// The directory's invariant.
    pub closed spec fn wf(&self) -> bool {
        self.slots_wf() && self.buckets_wf()
    }

    /// The keys are those of the map, each once.
    pub proof fn lemma_keys(&self)
        requires
            self.wf(),
        ensures
            self.keys().no_duplicates(),
            forall|key: Seq<u8>| self.keys().contains(key) <==> self@.contains_key(key),
    {
        let keys = self.keys();
        assert forall|key: Seq<u8>| keys.contains(key) <==> self@.contains_key(key) by {
            if keys.contains(key) {
                let i = choose|i: int| 0 <= i < keys.len() && keys[i] == key;
                assert(self.slots@[i].key@ == key);
            }
            if self@.contains_key(key) {
                let i = choose|i: int|
                    0 <= i < self.slots@.len() && (#[trigger] self.slots@[i]).key@ == key;
                assert(keys[i] == key);
            }
        }
    }

    /// The empty directory.
    pub fn new() -> (dir: KeyDir)
        ensures
            dir.wf(),
            dir@ == Map::<Seq<u8>, DirEntry>::empty(),
    {
        let dir = KeyDir { slots: Vec::new(), buckets: HashMap::new(), map: Ghost(Map::empty()) };
        assert forall|h: u64, x: usize| #[trigger] sound(dir.buckets@, dir.slots@, h, x) by {}
        dir
    }

    /// The number of keys.
    pub fn len(&self) -> (n: usize)
        requires
            self.wf(),
        ensures
            n == self.keys().len(),
    {
        self.slots.len()
    }

    /// The slot that holds `key`, if one does.
    fn find(&self, key: &[u8]) -> (found: Option<usize>)
        requires
            self.wf(),
        ensures
            match found {
                Some(i) => i < self.slots@.len() && self.slots@[i as int].key@ == key@
                    && self@.contains_key(key@) && self@[key@] == self.slots@[i as int].entry,
                None => !self@.contains_key(key@),
            },
    {
        let h = hash_of(key);
        let n = self.slots.len();
        match self.buckets.get(&h) {
            Some(list) => {
                let mut t: usize = 0;
                while t < list.len()
                    invariant
                        self.wf(),
                        n == self.slots@.len(),
                        h == key_hash(key@),
                        self.buckets@.contains_key(h),
                        self.buckets@[h] == *list,
                        t <= list@.len(),
                        forall|u: int|
                            0 <= u < t ==> (#[trigger] list@[u]) < self.slots@.len()
                                && self.slots@[list@[u] as int].key@ != key@,
                    decreases list@.len() - t,
                {
                    let i = list[t];
                    assert(sound(self.buckets@, self.slots@, h, i));
                    if same_bytes(self.slots[i].key.as_slice(), key) {
                        return Some(i);
                    }
                    t = t + 1;
                }
                assert(!self@.contains_key(key@)) by {
                    if self@.contains_key(key@) {
                        let i = choose|i: int|
                            0 <= i < self.slots@.len() && (#[trigger] self.slots@[i]).key@ == key@;
                        assert(filed(self.buckets@, self.slots@, i));
                        let u = choose|u: int| 0 <= u < list@.len() && list@[u] == i as usize;
                        assert(self.slots@[list@[u] as int].key@ != key@);
                    }
                }
                None
            },
            None => {
                assert(!self@.contains_key(key@)) by {
                    if self@.contains_key(key@) {
                        let i = choose|i: int|
                            0 <= i < self.slots@.len() && (#[trigger] self.slots@[i]).key@ == key@;
                        assert(filed(self.buckets@, self.slots@, i));
                    }
                }
                None
            },
        }
    }

    /// The entry of `key`, if the key is in the directory.
    pub fn get(&self, key: &[u8]) -> (entry: Option<DirEntry>)
        requires
            self.wf(),
        ensures
            entry == if self@.contains_key(key@) {
                Some(self@[key@])
            } else {
                None
            },
    {
        match self.find(key) {
            Some(i) => Some(self.slots[i].entry),
            None => None,
        }
    }

    /// Gives slot `i` the entry `entry`.
    fn set_entry(&mut self, i: usize, entry: DirEntry)
        requires
            old(self).wf(),
            i < old(self).slots@.len(),
        ensures
            final(self).wf(),
            final(self).keys() == old(self).keys(),
            final(self)@ == old(self)@.insert(old(self).slots@[i as int].key@, entry),
    {
        let ghost before = self.slots@;
        let ghost key = self.slots@[i as int].key@;
        self.slots[i].entry = entry;
        self.map = Ghost(self.map@.insert(key, entry));
        proof {
            assert(self.slots@.len() == before.len());
            assert(forall|j: int|
                0 <= j < before.len() && j != i ==> (#[trigger] self.slots@[j]) == before[j]);
            assert(self.slots@[i as int].key@ == key);
            assert forall|j: int| 0 <= j < self.slots@.len() implies self.map@.contains_key(
                (#[trigger] self.slots@[j]).key@,
            ) && self.map@[self.slots@[j].key@] == self.slots@[j].entry by {
                if j != i {
                    assert(before[j].key@ != before[i as int].key@);
                }
            }
            assert forall|k: Seq<u8>| #[trigger]
                self.map@.contains_key(k) implies exists|j: int|
                0 <= j < self.slots@.len() && (#[trigger] self.slots@[j]).key@ == k by {
                if k == key {
                    assert(self.slots@[i as int].key@ == k);
                } else {
                    let j = choose|j: int|
                        0 <= j < before.len() && (#[trigger] before[j]).key@ == k;
                    assert(self.slots@[j].key@ == k);
                }
            }
            assert forall|a: int, b: int| 0 <= a < b < self.slots@.len() implies (
            #[trigger] self.slots@[a]).key@ != (#[trigger] self.slots@[b]).key@ by {
                assert(self.slots@[a].key@ == before[a].key@);
                assert(self.slots@[b].key@ == before[b].key@);
            }
            assert forall|j: int| 0 <= j < self.slots@.len() implies #[trigger] filed(
                self.buckets@,
                self.slots@,
                j,
            ) by {
                assert(filed(self.buckets@, before, j));
                assert(self.slots@[j].key@ == before[j].key@);
            }
            assert forall|h: u64, x: usize| #[trigger]
                sound(self.buckets@, self.slots@, h, x) by {
                assert(sound(self.buckets@, before, h, x));
                if x < before.len() {
                    assert(self.slots@[x as int].key@ == before[x as int].key@);
                }
            }
            assert(self.keys() =~= old(self).keys());
        }
    }

    /// Gives `key` the entry `entry`, whether or not it had one. A new key
    /// comes last in the order of the keys.
    pub fn insert(&mut self, key: Vec<u8>, entry: DirEntry)
        requires
            old(self).wf(),
        ensures
            final(self).wf(),
            final(self)@ == old(self)@.insert(key@, entry),
            final(self).keys() == if old(self)@.contains_key(key@) {
                old(self).keys()
            } else {
                old(self).keys().push(key@)
            },
    {
        match self.find(key.as_slice()) {
            Some(i) => {
                self.set_entry(i, entry);
            },
            None => {
                let ghost before = self.slots@;
                let ghost filing = self.buckets@;
                let ghost shown = key@;
                let h = hash_of(key.as_slice());
                let i = self.slots.len();
                let mut list = match self.buckets.remove(&h) {
                    Some(list) => list,
                    None => Vec::new(),
                };
                let ghost earlier = list@;
                list.push(i);
                self.buckets.insert(h, list);
                self.slots.push(Slot { key, entry });
                self.map = Ghost(self.map@.insert(shown, entry));
                proof {
                    assert(forall|j: int| 0 <= j < before.len() ==> self.slots@[j] == before[j]);
                    assert(self.slots@[i as int].key@ == shown);
                    assert(list@[earlier.len() as int] == i);
                    assert forall|k: Seq<u8>| #[trigger]
                        self.map@.contains_key(k) implies exists|j: int|
                        0 <= j < self.slots@.len() && (#[trigger] self.slots@[j]).key@ == k by {
                        if k == shown {
                            assert(self.slots@[i as int].key@ == k);
                        } else {
                            let j = choose|j: int|
                                0 <= j < before.len() && (#[trigger] before[j]).key@ == k;
                            assert(self.slots@[j].key@ == k);
                        }
                    }
                    assert forall|j: int| 0 <= j < self.slots@.len() implies #[trigger] filed(
                        self.buckets@,
                        self.slots@,
                        j,
                    ) by {
                        if j < i {
                            assert(filed(filing, before, j));
                            if key_hash(before[j].key@) == h {
                                let u = choose|u: int|
                                    0 <= u < earlier.len() && earlier[u] == j as usize;
                                assert(list@[u] == j as usize);
                            }
                        }
                    }
                    assert forall|g: u64, x: usize| #[trigger]
                        sound(self.buckets@, self.slots@, g, x) by {
                        assert(sound(filing, before, g, x));
                        if g == h && list@.contains(x) {
                            let u = choose|u: int| 0 <= u < list@.len() && list@[u] == x;
                            if u < earlier.len() {
                                assert(earlier[u] == x);
                            }
                        }
                    }
                    assert(self.keys() =~= old(self).keys().push(shown));
                }
            },
        }
    }

    /// Takes `key` out of the directory. Gives back the entry it had. The
    /// key that was last in the order of the keys takes its place.
    pub fn remove(&mut self, key: &[u8]) -> (entry: Option<DirEntry>)
        requires
            old(self).wf(),
        ensures
            final(self).wf(),
            final(self)@ == old(self)@.remove(key@),
            entry == if old(self)@.contains_key(key@) {
                Some(old(self)@[key@])
            } else {
                None
            },
            !old(self)@.contains_key(key@) ==> final(self).keys() == old(self).keys(),
    {
        let i = match self.find(key) {
            Some(i) => i,
            None => {
                assert(self.map@.remove(key@) =~= self.map@);
                return None;
            },
        };
        let ghost before = self.slots@;
        let ghost filing = self.buckets@;
        let last = self.slots.len() - 1;
        let h = hash_of(key);
        proof {
            assert(filed(filing, before, i as int));
        }
        let list = match self.buckets.remove(&h) {
            Some(list) => list,
            None => Vec::new(),
        };
        self.buckets.insert(h, without(&list, i));
        let ghost unfiled = self.buckets@;
        if i != last {
            let moved = hash_of(self.slots[last].key.as_slice());
            proof {
                assert(filed(filing, before, last as int));
            }
            let list = match self.buckets.remove(&moved) {
                Some(list) => list,
                None => Vec::new(),
            };
            self.buckets.insert(moved, renamed(&list, last, i));
        }
        let slot = self.slots.swap_remove(i);
        self.map = Ghost(self.map@.remove(key@));
        proof {
            let moved = key_hash(before[last as int].key@);
            assert(self.slots@.len() == last);
            assert(forall|j: int| 0 <= j < last && j != i ==> self.slots@[j] == before[j]);
            if i != last {
                assert(self.slots@[i as int] == before[last as int]);
            }
            assert forall|j: int| 0 <= j < self.slots@.len() implies self.map@.contains_key(
                (#[trigger] self.slots@[j]).key@,
            ) && self.map@[self.slots@[j].key@] == self.slots@[j].entry by {
                if j == i {
                    assert(before[last as int].key@ != before[i as int].key@);
                } else {
                    assert(before[j].key@ != before[i as int].key@);
                }
            }
            assert forall|k: Seq<u8>| #[trigger]
                self.map@.contains_key(k) implies exists|j: int|
                0 <= j < self.slots@.len() && (#[trigger] self.slots@[j]).key@ == k by {
                let j = choose|j: int| 0 <= j < before.len() && (#[trigger] before[j]).key@ == k;
                if j == last {
                    assert(self.slots@[i as int].key@ == k);
                } else {
                    assert(self.slots@[j].key@ == k);
                }
            }
            assert forall|a: int, b: int| 0 <= a < b < self.slots@.len() implies (
            #[trigger] self.slots@[a]).key@ != (#[trigger] self.slots@[b]).key@ by {
                let a0 = if a == i {
                    last as int
                } else {
                    a
                };
                let b0 = if b == i {
                    last as int
                } else {
                    b
                };
                assert(self.slots@[a].key@ == before[a0].key@);
                assert(self.slots@[b].key@ == before[b0].key@);
                if a0 < b0 {
                    assert(before[a0].key@ != before[b0].key@);
                } else {
                    assert(before[b0].key@ != before[a0].key@);
                }
            }
            assert forall|j: int| 0 <= j < self.slots@.len() implies #[trigger] filed(
                self.buckets@,
                self.slots@,
                j,
            ) by {
                if j == i {
                    assert(filed(filing, before, last as int));
                } else {
                    assert(filed(filing, before, j));
                }
            }
            assert forall|g: u64, x: usize| #[trigger]
                sound(self.buckets@, self.slots@, g, x) by {
                assert(sound(filing, before, g, x));
                assert(sound(filing, before, g, last));
                assert(sound(filing, before, g, i));
            }
        }
        Some(slot.entry)
    }

    /// The key in slot `i`.
    pub fn key_at(&self, i: usize) -> (key: &Vec<u8>)
        requires
            self.wf(),
            i < self.keys().len(),
        ensures
            key@ == self.keys()[i as int],
            self@.contains_key(key@),
    {
        &self.slots[i].key
    }

    /// The entry in slot `i`.
    pub fn entry_at(&self, i: usize) -> (entry: DirEntry)
        requires
            self.wf(),
            i < self.keys().len(),
        ensures
            entry == self@[self.keys()[i as int]],
            self@.contains_key(self.keys()[i as int]),
    {
        self.slots[i].entry
    }

    /// Gives each key the entry at its slot's index in `entries`. Keeps the
    /// keys and their order.
    pub fn repoint(&mut self, entries: &Vec<DirEntry>)
        requires
            old(self).wf(),
            entries@.len() == old(self).keys().len(),
        ensures
            final(self).wf(),
            final(self).keys() == old(self).keys(),
            final(self)@.dom() == old(self)@.dom(),
            forall|i: int|
                0 <= i < entries@.len() ==> final(self)@[#[trigger] old(self).keys()[i]]
                    == entries@[i],
    {
        let mut i: usize = 0;
        while i < self.slots.len()
            invariant
                i <= self.slots@.len(),
                self.wf(),
                self.keys() == old(self).keys(),
                self@.dom() == old(self)@.dom(),
                entries@.len() == self.slots@.len(),
                forall|j: int|
                    0 <= j < i ==> self@[#[trigger] old(self).keys()[j]] == entries@[j],
            decreases self.slots@.len() - i,
        {
            let ghost before = *self;
            proof {
                before.lemma_keys();
                assert(before.keys()[i as int] == before.slots@[i as int].key@);
                assert(before.keys().contains(before.keys()[i as int]));
            }
            self.set_entry(i, entries[i]);
            proof {
                assert(self@.dom() =~= before@.dom());
                assert forall|j: int| 0 <= j < i + 1 implies self@[#[trigger] old(self).keys()[j]]
                    == entries@[j] by {
                    if j < i {
                        assert(before.keys()[j] != before.keys()[i as int]);
                    }
                }
            }
            i = i + 1;
        }
    }

    /// The keys, each once, in the order in which the directory holds them.
    pub fn key_list(&self) -> (keys: Vec<Vec<u8>>)
        requires
            self.wf(),
        ensures
            keys@.len() == self.keys().len(),
            forall|i: int| 0 <= i < keys@.len() ==> (#[trigger] keys@[i])@ == self.keys()[i],
    {
        let mut keys: Vec<Vec<u8>> = Vec::new();
        let mut i: usize = 0;
        while i < self.slots.len()
            invariant
                i <= self.slots@.len(),
                keys@.len() == i,
                forall|j: int| 0 <= j < i ==> (#[trigger] keys@[j])@ == self.slots@[j].key@,
            decreases self.slots@.len() - i,
        {
            keys.push(copy_range(self.slots[i].key.as_slice(), 0, self.slots[i].key.len()));
            assert(self.slots@[i as int].key@.subrange(0, self.slots@[i as int].key@.len() as int)
                =~= self.slots@[i as int].key@);
            i = i + 1;
        }
        keys
    }
}

} // verus!
