//! What holds of the store across operations.

use crate::engine::Bitcask;
use crate::entry::{lemma_record_reads, Record};
use crate::error::Error;
use crate::engine::corruption_at;
use crate::log::{
    contents, lemma_log_fault, lemma_log_fault_at, lemma_log_push, lemma_log_segments,
    lemma_scan_corrupt, lemma_scan_cut, lemma_scan_items, lemma_scan_take, live, log_fault,
    log_of, scan, scan_end, Fault, SegmentView,
};
use crate::options::Options;
use vstd::prelude::*;

verus! {

/// After a key was put, it has the value that was put.
pub proof fn lemma_put_then_get(
    pre: Bitcask,
    post: Bitcask,
    timestamp: u64,
    key: Seq<u8>,
    value: Seq<u8>,
)
    requires
        Bitcask::put_post(pre, post, Record::live(timestamp, key, value), Ok(())),
    ensures
        post.get_spec(key) == Ok::<Seq<u8>, Error>(value),
{
}

/// After a key was put with the clock's time, it has the value that was put.
pub proof fn lemma_put_now_then_get(pre: Bitcask, post: Bitcask, key: Seq<u8>, value: Seq<u8>)
    requires
        Bitcask::put_now_post(pre, post, key, value, Ok(())),
    ensures
        post.get_spec(key) == Ok::<Seq<u8>, Error>(value),
{
    let timestamp = choose|timestamp: u64| #[trigger]
        Bitcask::put_post(pre, post, Record::live(timestamp, key, value), Ok(()));
    lemma_put_then_get(pre, post, timestamp, key, value);
}

/// After a key was put, it is among the keys that are listed.
pub proof fn lemma_put_lists_key(pre: Bitcask, post: Bitcask, record: Record)
    requires
        post.wf(),
        Bitcask::put_post(pre, post, record, Ok(())),
    ensures
        post.key_order().contains(record.key),
{
    post.lemma_wf();
}

/// A put changes the value of no other key.
pub proof fn lemma_put_keeps_others(
    pre: Bitcask,
    post: Bitcask,
    timestamp: u64,
    key: Seq<u8>,
    value: Seq<u8>,
    other: Seq<u8>,
)
    requires
        Bitcask::put_post(pre, post, Record::live(timestamp, key, value), Ok(())),
        other != key,
    ensures
        post.get_spec(other) == pre.get_spec(other),
{
}

/// After a key was deleted, reading it fails with `NotFound`, and the key is
/// not among the keys that are listed.
pub proof fn lemma_delete_then_get(pre: Bitcask, post: Bitcask, key: Seq<u8>)
    requires
        post.wf(),
        Bitcask::delete_post(pre, post, key, Ok(())),
    ensures
        post.get_spec(key) == Err::<Seq<u8>, Error>(Error::NotFound),
        !post.key_order().contains(key),
{
    post.lemma_wf();
}

/// A delete changes the value of no other key.
pub proof fn lemma_delete_keeps_others(pre: Bitcask, post: Bitcask, key: Seq<u8>, other: Seq<u8>)
    requires
        Bitcask::delete_post(pre, post, key, Ok(())),
        other != key,
    ensures
        post.get_spec(other) == pre.get_spec(other),
{
}

/// After a key was put twice, it has the second value. The first record
/// still stands in the log, where it stood; the directory points at the
/// second.
pub proof fn lemma_put_again(
    first: Bitcask,
    second: Bitcask,
    third: Bitcask,
    t1: u64,
    t2: u64,
    key: Seq<u8>,
    v1: Seq<u8>,
    v2: Seq<u8>,
)
    requires
        second.wf(),
        Bitcask::put_post(first, second, Record::live(t1, key, v1), Ok(())),
        Bitcask::put_post(second, third, Record::live(t2, key, v2), Ok(())),
    ensures
        third.get_spec(key) == Ok::<Seq<u8>, Error>(v2),
        third.log().len() == first.log().len() + 2,
        third.log()[first.log().len() as int].record == Record::live(t1, key, v1),
        third.index()[key].points_to(third.log().last()),
        third.log().last().record == Record::live(t2, key, v2),
{
    second.lemma_wf();
    let segments = second.segments();
    assert(segments[segments.len() - 1].id == segments.len() - 1);
}

/// A crash in the middle of a put leaves the first part of the record at the
/// end of the active segment. A directory in that state opens read-only, and
/// holds what the store held before the put: every record that was written
/// in full, and nothing of the record that was cut.
pub proof fn lemma_crash_recovery(store: Bitcask, record: Record, n: int, locked: bool)
    requires
        store.wf(),
        store.options().read_write,
        record.intact(),
        record.encodable(),
        0 <= n < record.size(),
    ensures
        ({
            let segments = store.segments();
            let torn = segments.update(
                segments.len() - 1,
                SegmentView {
                    id: segments.last().id,
                    data: segments.last().data + record.bytes().take(n),
                },
            );
            let options = Options {
                read_write: false,
                sync_on_put: false,
                enable_compression: false,
                max_data_size: 2147483648,
            };
            &&& Bitcask::open_spec(torn, locked, options) == Ok::<Seq<SegmentView>, Error>(torn)
            &&& log_of(torn) == Some(store.log())
            &&& contents(log_of(torn)->0) == store@
        }),
{
    store.lemma_wf();
    let segments = store.segments();
    let last = segments.last();
    let cut = SegmentView { id: last.id, data: last.data + record.bytes().take(n) };
    let torn = segments.update(segments.len() - 1, cut);
    let before = segments.drop_last();
    assert(segments =~= before.push(last));
    assert(torn =~= before.push(cut));
    lemma_log_push(before, last);
    lemma_log_push(before, cut);
    lemma_scan_cut(last.id, last.data, 0, record, n);
}

/// A crash may leave any number of the first bytes of the active segment,
/// but no fewer than were synced. A directory in that state opens read-only,
/// and its log is the first part of the store's log: the part that is given
/// back. It holds every record that ends within what was left, and so every
/// record that was synced; each record that is lost ends after what was
/// left.
pub proof fn lemma_crash_keeps_synced(store: Bitcask, c: int, locked: bool) -> (kept: int)
    requires
        store.wf(),
        store.options().read_write,
        store.synced_lens().last() <= c <= store.segments().last().data.len(),
    ensures
        ({
            let segments = store.segments();
            let torn = segments.update(
                segments.len() - 1,
                SegmentView { id: segments.last().id, data: segments.last().data.take(c) },
            );
            let options = Options {
                read_write: false,
                sync_on_put: false,
                enable_compression: false,
                max_data_size: 2147483648,
            };
            &&& Bitcask::open_spec(torn, locked, options) == Ok::<Seq<SegmentView>, Error>(torn)
            &&& 0 <= kept <= store.log().len()
            &&& log_of(torn) == Some(store.log().take(kept))
            &&& forall|t: int|
                kept <= t < store.log().len() ==> (#[trigger] store.log()[t]).segment
                    == segments.last().id && store.log()[t].end > c
            &&& forall|t: int|
                0 <= t < store.log().len() && (#[trigger] store.log()[t]).segment
                    == segments.last().id && store.log()[t].end <= store.synced_lens().last()
                    ==> t < kept
        }),
{
    store.lemma_wf();
    let segments = store.segments();
    let last = segments.last();
    let cut = SegmentView { id: last.id, data: last.data.take(c) };
    let torn = segments.update(segments.len() - 1, cut);
    let before = segments.drop_last();
    assert(segments =~= before.push(last));
    assert(torn =~= before.push(cut));
    lemma_log_push(before, last);
    lemma_log_push(before, cut);
    lemma_scan_items(last.id, last.data, 0);
    let k = lemma_scan_take(last.id, last.data, 0, c);
    let earlier = log_of(before)->0;
    let items = scan(last.id, last.data, 0)->0;
    assert(earlier + items.take(k) =~= (earlier + items).take(earlier.len() + k));
    assert forall|j: int| 0 <= j < before.len() implies (#[trigger] before[j]).id < last.id by {
        assert(segments[j].id < segments[segments.len() - 1].id);
    }
    lemma_log_segments(before, last.id);
    earlier.len() + k
}

/// A record that is present in full and whose checksum does not match makes
/// `open` fail with `Corruption`, whatever the options, and the failure says
/// where the record stands: where the segments before segment `j` hold no
/// corrupt record, and the bytes of segment `j` are whole records, then such
/// a record, then anything.
pub proof fn lemma_corruption_fails_open(
    segments: Seq<SegmentView>,
    j: int,
    good: Seq<u8>,
    record: Record,
    rest: Seq<u8>,
    locked: bool,
    options: Options,
)
    requires
        0 <= j < segments.len(),
        log_of(segments.take(j)) is Some,
        segments[j].data == good + record.bytes() + rest,
        scan(segments[j].id, good, 0) is Some,
        scan_end(good, 0) == good.len(),
        record.encodable(),
        !record.intact(),
    ensures
        Bitcask::open_spec(segments, locked, options) == Err::<Seq<SegmentView>, Error>(
            corruption_at(Fault { segment: segments[j].id, offset: good.len() as int }),
        ),
{
    lemma_record_reads(record, rest);
    lemma_scan_corrupt(segments[j].id, good, 0, record.bytes() + rest);
    assert(good + (record.bytes() + rest) =~= good + record.bytes() + rest);
    lemma_log_fault(segments.take(j));
    lemma_log_fault_at(segments, j);
    lemma_log_fault(segments);
}

/// A second sync changes nothing.
pub proof fn lemma_sync_twice(first: Bitcask, second: Bitcask, third: Bitcask)
    requires
        Bitcask::sync_post(first, second, Ok(())),
        Bitcask::sync_post(second, third, Ok(())),
    ensures
        Bitcask::unchanged(second, third),
{
}

/// A closed handle refuses every operation with `InvalidState`, and
/// nothing changes.
pub proof fn lemma_closed_refuses(
    pre: Bitcask,
    post: Bitcask,
    key: Seq<u8>,
    record: Record,
    r: Result<(), Error>,
)
    requires
        pre.is_closed(),
    ensures
        pre.get_spec(key) == Err::<Seq<u8>, Error>(Error::InvalidState),
        Bitcask::put_post(pre, post, record, r) ==> r == Err::<(), Error>(Error::InvalidState)
            && Bitcask::unchanged(pre, post),
        Bitcask::delete_post(pre, post, key, r) ==> r == Err::<(), Error>(Error::InvalidState)
            && Bitcask::unchanged(pre, post),
        Bitcask::merge_post(pre, post, r) ==> r == Err::<(), Error>(Error::InvalidState)
            && Bitcask::unchanged(pre, post),
        Bitcask::sync_post(pre, post, r) ==> r == Err::<(), Error>(Error::InvalidState)
            && Bitcask::unchanged(pre, post),
        Bitcask::close_post(pre, post, r) ==> r == Err::<(), Error>(Error::InvalidState)
            && Bitcask::unchanged(pre, post),
{
}

/// While a handle that was opened for writing is open, the directory cannot
/// be opened for writing again: the attempt fails with `AlreadyLocked`.
pub proof fn lemma_second_writer(store: Bitcask, options: Options)
    requires
        store.wf(),
        store.writable(),
        options.read_write,
    ensures
        Bitcask::open_spec(store.segments(), store.holds_lock(), options) == Err::<
            Seq<SegmentView>,
            Error,
        >(Error::AlreadyLocked),
{
    store.lemma_wf();
}

/// Once the handle is closed, the directory can be opened for writing
/// again, and the new store holds what the closed one held.
pub proof fn lemma_reopen_after_close(pre: Bitcask, post: Bitcask, options: Options)
    requires
        pre.wf(),
        post.wf(),
        pre.options().read_write,
        Bitcask::close_post(pre, post, Ok(())),
        options.read_write,
    ensures
        Bitcask::open_spec(post.segments(), post.holds_lock(), options) is Ok,
        contents(log_of(post.segments())->0) == pre@,
{
    post.lemma_wf();
    let segments = post.segments();
    assert forall|i: int| 0 <= i < segments.len() implies (#[trigger] segments[i]).id
        < segments.len() by {
        assert(segments[i].id == i);
    }
}

/// The key directory is a function of the log: two stores with the same log
/// have the same directory. So the directory that a store keeps in memory is
/// the one that opening its segments rebuilds.
pub proof fn lemma_directory_is_rebuilt(store: Bitcask, reopened: Bitcask)
    requires
        store.wf(),
        reopened.wf(),
        reopened.log() == store.log(),
    ensures
        reopened.index() == store.index(),
{
    store.lemma_wf();
    reopened.lemma_wf();
    assert forall|key: Seq<u8>|
        (store.index().contains_key(key) <==> reopened.index().contains_key(key)) && (
        store.index().contains_key(key) ==> store.index()[key] == reopened.index()[key]) by {
        let _ = live(store.log(), key);
    }
    assert(reopened.index() =~= store.index());
}

/// A merge keeps the keys, their order and their values; afterwards no
/// sealed segment is empty, and every record of a sealed segment is the live
/// record of its key.
pub proof fn lemma_merge_keeps_contents(pre: Bitcask, post: Bitcask, key: Seq<u8>)
    requires
        Bitcask::merge_post(pre, post, Ok(())),
    ensures
        post@ == pre@,
        post.key_order() == pre.key_order(),
        post.get_spec(key) == pre.get_spec(key),
        forall|i: int|
            0 <= i < post.segments().len() - 1 ==> (#[trigger] post.segments()[i]).data.len() > 0,
        forall|t: int|
            0 <= t < log_of(post.segments().take(post.segments().len() - 1))->0.len() ==> live(
                post.log(),
                (#[trigger] post.log()[t]).record.key,
            ) == Some(post.log()[t]),
{
}

} // verus!
