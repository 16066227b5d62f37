//! The log as a mathematical value: what a set of segments holds.
//!
//! A segment is read record by record from offset 0 until nothing more can
//! be read. The segments in ascending order of id, read one after the other,
//! are the log. For each key the last record of the log decides: a live
//! record gives the key its value, a tombstone takes the key away.

use crate::entry::{
    lemma_parse_take, lemma_parse_agree, lemma_parse_entry, lemma_parse_skip, lemma_parse_tombstone,
    lemma_record_reads, parse_record, Parsed, Record,
};
use crate::varint::read_varint;
use vstd::prelude::*;

verus! {

/// A segment file as a mathematical value.
pub struct SegmentView {
    pub id: int,
    pub data: Seq<u8>,
}

/// A record of the log and where it stands.
pub struct LogItem {
    /// Id of the segment that holds the record.
    pub segment: int,
    /// Offset of the record's first byte.
    pub offset: int,
    /// Offset after the record's last byte.
    pub end: int,
    pub record: Record,
}

impl LogItem {
    /// The same item with its record marked deleted.
    pub open spec fn tombstone(self) -> LogItem {
        LogItem { record: self.record.tombstone(), ..self }
    }

    /// The same item in a segment of another id.
    pub open spec fn moved_to(self, segment: int) -> LogItem {
        LogItem { segment, ..self }
    }
}

/// The records of `data` from `at` on, up to the first position where nothing
/// more can be read. `None` where a corrupt record is met.
pub open spec fn scan(segment: int, data: Seq<u8>, at: int) -> Option<Seq<LogItem>>
    decreases data.len() - at,
{
    match parse_record(data, at) {
        Parsed::Entry { record, next } => {
            if at < next <= data.len() {
                match scan(segment, data, next) {
                    Some(rest) => Some(
                        seq![LogItem { segment, offset: at, end: next, record }] + rest,
                    ),
                    None => None,
                }
            } else {
                None
            }
        },
        Parsed::EndOfLog => Some(Seq::empty()),
        Parsed::Corrupt => None,
    }
}

/// The position at which reading from `at` on stops.
pub open spec fn scan_end(data: Seq<u8>, at: int) -> int
    decreases data.len() - at,
{
    match parse_record(data, at) {
        Parsed::Entry { record, next } => {
            if at < next <= data.len() {
                scan_end(data, next)
            } else {
                at
            }
        },
        _ => at,
    }
}

/// The offset of the first corrupt record that reading from `at` on meets.
pub open spec fn scan_fault(data: Seq<u8>, at: int) -> Option<int>
    decreases data.len() - at,
{
    match parse_record(data, at) {
        Parsed::Entry { record, next } => {
            if at < next <= data.len() {
                scan_fault(data, next)
            } else {
                Some(at)
            }
        },
        Parsed::EndOfLog => None,
        Parsed::Corrupt => Some(at),
    }
}

/// Reading meets a corrupt record exactly where it gives no items.
pub proof fn lemma_scan_fault(segment: int, data: Seq<u8>, at: int)
    ensures
        scan_fault(data, at) is Some <==> scan(segment, data, at) is None,
    decreases data.len() - at,
{
    match parse_record(data, at) {
        Parsed::Entry { record, next } => {
            if at < next <= data.len() {
                lemma_scan_fault(segment, data, next);
            }
        },
        _ => {},
    }
}

/// At or past the end of the input nothing can be read.
pub proof fn lemma_parse_at_end(bytes: Seq<u8>, at: int)
    requires
        at >= bytes.len(),
    ensures
        parse_record(bytes, at) is EndOfLog,
{
    reveal(read_varint);
}

/// Whether reading finds corruption does not depend on the segment's id, and
/// the items differ in the id alone.
pub proof fn lemma_scan_id(a: int, b: int, data: Seq<u8>, at: int)
    ensures
        scan(a, data, at) is Some <==> scan(b, data, at) is Some,
        scan(a, data, at) is Some ==> scan(b, data, at)->0 == scan(a, data, at)->0.map_values(
            |it: LogItem| it.moved_to(b),
        ),
    decreases data.len() - at,
{
    match parse_record(data, at) {
        Parsed::Entry { record, next } => {
            if at < next <= data.len() {
                lemma_scan_id(a, b, data, next);
                if scan(a, data, next) is Some {
                    let first = LogItem { segment: a, offset: at, end: next, record };
                    let rest = scan(a, data, next)->0;
                    assert((seq![first] + rest).map_values(|it: LogItem| it.moved_to(b)) =~= seq![
                        first.moved_to(b),
                    ] + rest.map_values(|it: LogItem| it.moved_to(b)));
                }
            }
        },
        Parsed::EndOfLog => {
            assert(Seq::<LogItem>::empty().map_values(|it: LogItem| it.moved_to(b))
                =~= Seq::<LogItem>::empty());
        },
        Parsed::Corrupt => {},
    }
}

/// Whether `item` is a record of segment `segment` read from `data`.
pub open spec fn item_in(item: LogItem, segment: int, data: Seq<u8>) -> bool {
    &&& item.segment == segment
    &&& 0 <= item.offset < item.end <= data.len()
    &&& parse_record(data, item.offset) == (Parsed::Entry { record: item.record, next: item.end })
}

/// The items that reading gives are records of the data, each where it says,
/// one after the other.
pub proof fn lemma_scan_items(segment: int, data: Seq<u8>, at: int)
    requires
        0 <= at,
        scan(segment, data, at) is Some,
    ensures
        forall|i: int|
            0 <= i < scan(segment, data, at)->0.len() ==> item_in(
                #[trigger] scan(segment, data, at)->0[i],
                segment,
                data,
            ) && at <= scan(segment, data, at)->0[i].offset,
        forall|i: int, j: int|
            0 <= i < j < scan(segment, data, at)->0.len() ==> (#[trigger] scan(
                segment,
                data,
                at,
            )->0[i]).end <= (#[trigger] scan(segment, data, at)->0[j]).offset,
        scan(segment, data, at)->0.len() > 0 ==> scan(segment, data, at)->0.last().end == scan_end(
            data,
            at,
        ),
        scan(segment, data, at)->0.len() == 0 ==> scan_end(data, at) == at,
        at <= scan_end(data, at),
    decreases data.len() - at,
{
    match parse_record(data, at) {
        Parsed::Entry { record, next } => {
            lemma_scan_items(segment, data, next);
            let first = LogItem { segment, offset: at, end: next, record };
            let rest = scan(segment, data, next)->0;
            let items = scan(segment, data, at)->0;
            assert(items == seq![first] + rest);
            assert forall|i: int| 0 <= i < items.len() implies item_in(
                #[trigger] items[i],
                segment,
                data,
            ) && at <= items[i].offset by {
                if i > 0 {
                    assert(items[i] == rest[i - 1]);
                }
            }
            assert forall|i: int, j: int| 0 <= i < j < items.len() implies (#[trigger] items[i]).end
                <= (#[trigger] items[j]).offset by {
                assert(items[j] == rest[j - 1]);
                if i > 0 {
                    assert(items[i] == rest[i - 1]);
                }
            }
            if rest.len() > 0 {
                assert(items.last() == rest.last());
            }
        },
        _ => {},
    }
}

/// Reading from the start is reading up to `at` and then from `at`, where
/// `at` is the position after the items in `done`.
pub open spec fn scanned_to(segment: int, data: Seq<u8>, done: Seq<LogItem>, at: int) -> bool {
    match scan(segment, data, at) {
        Some(rest) => scan(segment, data, 0) == Some(done + rest),
        None => scan(segment, data, 0) is None,
    }
}

/// One more record read moves the position on.
pub proof fn lemma_scanned_step(segment: int, data: Seq<u8>, done: Seq<LogItem>, at: int)
    requires
        scanned_to(segment, data, done, at),
        parse_record(data, at) is Entry,
    ensures
        scanned_to(
            segment,
            data,
            done.push(
                LogItem {
                    segment,
                    offset: at,
                    end: parse_record(data, at)->next,
                    record: parse_record(data, at)->record,
                },
            ),
            parse_record(data, at)->next,
        ),
{
    lemma_parse_entry(data, at);
    let next = parse_record(data, at)->next;
    let item = LogItem { segment, offset: at, end: next, record: parse_record(data, at)->record };
    if let Some(rest) = scan(segment, data, next) {
        assert(done + (seq![item] + rest) =~= done.push(item) + rest);
    }
}

/// Where reading stops without corruption, all items have been read.
pub proof fn lemma_scanned_done(segment: int, data: Seq<u8>, done: Seq<LogItem>, at: int)
    requires
        scanned_to(segment, data, done, at),
        parse_record(data, at) is EndOfLog,
    ensures
        scan(segment, data, 0) == Some(done),
{
    assert(done + Seq::<LogItem>::empty() =~= done);
}

/// A record appended to data that ends where a record ends is one more item
/// at the end, and the data ends where that record ends.
pub proof fn lemma_scan_append(segment: int, data: Seq<u8>, at: int, r: Record)
    requires
        0 <= at <= data.len(),
        scan(segment, data, at) is Some,
        scan_end(data, at) == data.len(),
        r.intact(),
        r.encodable(),
    ensures
        scan(segment, data + r.bytes(), at) == Some(
            scan(segment, data, at)->0.push(
                LogItem {
                    segment,
                    offset: data.len() as int,
                    end: data.len() + r.size(),
                    record: r,
                },
            ),
        ),
        scan_end(data + r.bytes(), at) == data.len() + r.size(),
        r.bytes().len() == r.size(),
    decreases data.len() - at,
{
    let longer = data + r.bytes();
    let added = LogItem {
        segment,
        offset: data.len() as int,
        end: data.len() + r.size(),
        record: r,
    };
    lemma_record_reads(r, Seq::empty());
    match parse_record(data, at) {
        Parsed::Entry { record, next } => {
            lemma_parse_entry(data, at);
            lemma_parse_agree(data, longer, at);
            lemma_scan_append(segment, data, next, r);
            let first = LogItem { segment, offset: at, end: next, record };
            let rest = scan(segment, data, next)->0;
            assert(seq![first] + rest.push(added) =~= (seq![first] + rest).push(added));
        },
        Parsed::EndOfLog => {
            assert(at == data.len());
            lemma_parse_skip(longer, at);
            assert(longer.skip(at) =~= r.bytes() + Seq::<u8>::empty());
            lemma_parse_at_end(longer, at + r.size());
            assert(parse_record(longer, at) == (Parsed::Entry { record: r, next: at + r.size() }));
            assert(scan(segment, longer, at + r.size()) == Some(Seq::<LogItem>::empty()));
            assert(scan_end(longer, at + r.size()) == at + r.size());
            assert(seq![added] + Seq::<LogItem>::empty() =~= Seq::<LogItem>::empty().push(added));
        },
        Parsed::Corrupt => {},
    }
}

/// The first `c` bytes of a segment hold the first items of the segment:
/// those that end within them. Their number is given back.
pub proof fn lemma_scan_take(segment: int, data: Seq<u8>, at: int, c: int) -> (k: int)
    requires
        0 <= at,
        0 <= c <= data.len(),
        scan(segment, data, at) is Some,
    ensures
        0 <= k <= scan(segment, data, at)->0.len(),
        scan(segment, data.take(c), at) == Some(scan(segment, data, at)->0.take(k)),
        forall|t: int| 0 <= t < k ==> (#[trigger] scan(segment, data, at)->0[t]).end <= c,
        forall|t: int|
            k <= t < scan(segment, data, at)->0.len() ==> (#[trigger] scan(
                segment,
                data,
                at,
            )->0[t]).end > c,
    decreases data.len() - at,
{
    let items = scan(segment, data, at)->0;
    let cut = data.take(c);
    lemma_parse_take(data, at, c);
    lemma_scan_items(segment, data, at);
    match parse_record(data, at) {
        Parsed::Entry { record, next } => {
            let first = LogItem { segment, offset: at, end: next, record };
            let rest = scan(segment, data, next)->0;
            assert(items == seq![first] + rest);
            if next <= c {
                let k = lemma_scan_take(segment, data, next, c);
                assert(seq![first] + rest.take(k) =~= items.take(k + 1));
                assert forall|t: int| 0 <= t < k + 1 implies (#[trigger] items[t]).end <= c by {
                    if t > 0 {
                        assert(items[t] == rest[t - 1]);
                    }
                }
                assert forall|t: int| k + 1 <= t < items.len() implies (#[trigger] items[t]).end
                    > c by {
                    assert(items[t] == rest[t - 1]);
                }
                k + 1
            } else {
                assert(items.take(0) =~= Seq::<LogItem>::empty());
                assert forall|t: int| 0 <= t < items.len() implies (#[trigger] items[t]).end
                    > c by {
                    if t > 0 {
                        assert(items[0].end <= items[t].offset);
                    }
                }
                0
            }
        },
        _ => {
            assert(items.take(0) =~= items);
            0
        },
    }
}

/// A record that is cut before its end, appended to data that ends where a
/// record ends, adds no item.
pub proof fn lemma_scan_cut(segment: int, data: Seq<u8>, at: int, r: Record, n: int)
    requires
        0 <= at <= data.len(),
        scan(segment, data, at) is Some,
        scan_end(data, at) == data.len(),
        r.intact(),
        r.encodable(),
        0 <= n < r.size(),
    ensures
        scan(segment, data + r.bytes().take(n), at) == scan(segment, data, at),
{
    let whole = data + r.bytes();
    let items = scan(segment, data, at)->0;
    lemma_scan_append(segment, data, at, r);
    lemma_scan_items(segment, data, at);
    let k = lemma_scan_take(segment, whole, at, data.len() + n);
    assert(whole.take(data.len() + n) =~= data + r.bytes().take(n));
    let longer = scan(segment, whole, at)->0;
    assert(longer[items.len() as int].end > data.len() + n);
    if k < items.len() {
        assert(longer[k] == items[k]);
    }
    assert(longer.take(k) =~= items);
}

/// A corrupt record after data that ends where a record ends makes the
/// whole corrupt: reading meets that record first.
pub proof fn lemma_scan_corrupt(segment: int, data: Seq<u8>, at: int, tail: Seq<u8>)
    requires
        0 <= at <= data.len(),
        scan(segment, data, at) is Some,
        scan_end(data, at) == data.len(),
        parse_record(tail, 0) is Corrupt,
    ensures
        scan(segment, data + tail, at) is None,
        scan_fault(data + tail, at) == Some(data.len() as int),
    decreases data.len() - at,
{
    let longer = data + tail;
    match parse_record(data, at) {
        Parsed::Entry { record, next } => {
            lemma_parse_entry(data, at);
            lemma_parse_agree(data, longer, at);
            lemma_scan_corrupt(segment, data, next, tail);
        },
        Parsed::EndOfLog => {
            assert(at == data.len());
            lemma_parse_skip(longer, at);
            assert(longer.skip(at) =~= tail);
        },
        Parsed::Corrupt => {},
    }
}

/// Setting the flag byte of the item at index `i` replaces that item by its
/// tombstone and leaves the others as they are.
pub proof fn lemma_scan_tombstone(segment: int, data: Seq<u8>, at: int, i: int)
    requires
        0 <= at,
        scan(segment, data, at) is Some,
        0 <= i < scan(segment, data, at)->0.len(),
    ensures
        scan(segment, data.update(scan(segment, data, at)->0[i].end - 1, 1u8), at) == Some(
            scan(segment, data, at)->0.update(i, scan(segment, data, at)->0[i].tombstone()),
        ),
        scan_end(data.update(scan(segment, data, at)->0[i].end - 1, 1u8), at) == scan_end(data, at),
    decreases data.len() - at,
{
    let items = scan(segment, data, at)->0;
    let patched = data.update(items[i].end - 1, 1u8);
    lemma_scan_items(segment, data, at);
    match parse_record(data, at) {
        Parsed::Entry { record, next } => {
            lemma_parse_entry(data, at);
            let first = LogItem { segment, offset: at, end: next, record };
            let rest = scan(segment, data, next)->0;
            assert(items == seq![first] + rest);
            if i == 0 {
                lemma_parse_tombstone(data, at);
                lemma_scan_same_from(segment, data, patched, next);
                assert(seq![first.tombstone()] + rest =~= items.update(0, first.tombstone()));
            } else {
                assert(items[i] == rest[i - 1]);
                lemma_scan_items(segment, data, next);
                lemma_parse_agree(data, patched, at);
                lemma_scan_tombstone(segment, data, next, i - 1);
                assert(seq![first] + rest.update(i - 1, rest[i - 1].tombstone()) =~= items.update(
                    i,
                    items[i].tombstone(),
                ));
            }
        },
        _ => {},
    }
}

/// Reading from `at` on depends on the bytes from `at` on alone.
pub proof fn lemma_scan_same_from(segment: int, a: Seq<u8>, b: Seq<u8>, at: int)
    requires
        0 <= at,
        a.len() == b.len(),
        forall|i: int| at <= i < a.len() ==> a[i] == b[i],
    ensures
        scan(segment, a, at) == scan(segment, b, at),
        scan_end(a, at) == scan_end(b, at),
    decreases a.len() - at,
{
    if at <= a.len() {
        lemma_parse_skip(a, at);
        lemma_parse_skip(b, at);
        assert(a.skip(at) =~= b.skip(at));
    } else {
        lemma_parse_at_end(a, at);
        lemma_parse_at_end(b, at);
    }
    match parse_record(a, at) {
        Parsed::Entry { record, next } => {
            if at < next <= a.len() {
                lemma_scan_same_from(segment, a, b, next);
            }
        },
        _ => {},
    }
}

/// The log of the segments, read in the order given. `None` where a
/// segment holds a corrupt record.
pub open spec fn log_of(segments: Seq<SegmentView>) -> Option<Seq<LogItem>>
    decreases segments.len(),
{
    if segments.len() == 0 {
        Some(Seq::empty())
    } else {
        match (
            log_of(segments.drop_last()),
            scan(segments.last().id, segments.last().data, 0),
        ) {
            (Some(before), Some(items)) => Some(before + items),
            _ => None,
        }
    }
}

/// The ids of the segments rise strictly.
pub open spec fn ascending(segments: Seq<SegmentView>) -> bool {
    forall|i: int, j: int|
        0 <= i < j < segments.len() ==> (#[trigger] segments[i]).id < (#[trigger] segments[j]).id
}

/// The number of log items that stand before those of segment `j`.
pub open spec fn items_before(segments: Seq<SegmentView>, j: int) -> int {
    log_of(segments.take(j))->0.len() as int
}

/// The log of one more segment is the log so far, then the segment's items.
pub proof fn lemma_log_push(segments: Seq<SegmentView>, s: SegmentView)
    ensures
        log_of(segments.push(s)) == match (log_of(segments), scan(s.id, s.data, 0)) {
            (Some(before), Some(items)) => Some(before + items),
            _ => None,
        },
{
    assert(segments.push(s).drop_last() =~= segments);
}

/// Where the log of segments exists, so does the log of the first `j` of
/// them and what segment `j` holds, and the log goes on from there.
pub proof fn lemma_log_prefix(segments: Seq<SegmentView>, j: int)
    requires
        log_of(segments) is Some,
        0 <= j <= segments.len(),
    ensures
        log_of(segments.take(j)) is Some,
        items_before(segments, j) <= log_of(segments)->0.len(),
        log_of(segments.take(j))->0 == log_of(segments)->0.take(items_before(segments, j)),
        j < segments.len() ==> scan(segments[j].id, segments[j].data, 0) is Some && log_of(
            segments.take(j + 1),
        ) == Some(log_of(segments.take(j))->0 + scan(segments[j].id, segments[j].data, 0)->0),
    decreases segments.len(),
{
    if j == segments.len() {
        assert(segments.take(j) =~= segments);
        assert(log_of(segments)->0.take(log_of(segments)->0.len() as int) =~= log_of(segments)->0);
    } else {
        let shorter = segments.drop_last();
        lemma_log_prefix(shorter, j);
        assert(shorter.take(j) =~= segments.take(j));
        let whole = log_of(segments)->0;
        let before = log_of(shorter)->0;
        assert(before.take(items_before(segments, j)) =~= whole.take(items_before(segments, j)));
        if j == segments.len() - 1 {
            assert(segments.take(j + 1) =~= segments);
            assert(shorter =~= segments.take(j));
        } else {
            assert(shorter.take(j + 1) =~= segments.take(j + 1));
        }
    }
}

/// Each item of the log is an item of one segment: the one at the index
/// given back, at the position given back among that segment's items.
pub proof fn lemma_log_locate(segments: Seq<SegmentView>, i: int) -> (place: (int, int))
    requires
        log_of(segments) is Some,
        0 <= i < log_of(segments)->0.len(),
    ensures
        0 <= place.0 < segments.len(),
        log_of(segments.take(place.0)) is Some,
        scan(segments[place.0].id, segments[place.0].data, 0) is Some,
        0 <= place.1 < scan(segments[place.0].id, segments[place.0].data, 0)->0.len(),
        i == items_before(segments, place.0) + place.1,
        log_of(segments)->0[i] == scan(segments[place.0].id, segments[place.0].data, 0)->0[place.1],
        item_in(log_of(segments)->0[i], segments[place.0].id, segments[place.0].data),
    decreases segments.len(),
{
    let shorter = segments.drop_last();
    let before = log_of(shorter)->0;
    let last = segments.last();
    if i < before.len() {
        let place = lemma_log_locate(shorter, i);
        assert(shorter.take(place.0) =~= segments.take(place.0));
        place
    } else {
        assert(shorter =~= segments.take(segments.len() - 1));
        lemma_scan_items(last.id, last.data, 0);
        (segments.len() - 1, i - before.len())
    }
}

/// Replacing one item of one segment replaces that item of the log.
pub proof fn lemma_log_update(
    segments: Seq<SegmentView>,
    j: int,
    patched: SegmentView,
    m: int,
    item: LogItem,
)
    requires
        log_of(segments) is Some,
        0 <= j < segments.len(),
        scan(segments[j].id, segments[j].data, 0) is Some,
        0 <= m < scan(segments[j].id, segments[j].data, 0)->0.len(),
        scan(patched.id, patched.data, 0) == Some(
            scan(segments[j].id, segments[j].data, 0)->0.update(m, item),
        ),
    ensures
        log_of(segments.take(j)) is Some,
        items_before(segments, j) + m < log_of(segments)->0.len(),
        log_of(segments.update(j, patched)) == Some(
            log_of(segments)->0.update(items_before(segments, j) + m, item),
        ),
    decreases segments.len(),
{
    let shorter = segments.drop_last();
    let before = log_of(shorter)->0;
    let items = scan(segments.last().id, segments.last().data, 0)->0;
    let changed = segments.update(j, patched);
    if j == segments.len() - 1 {
        assert(shorter =~= segments.take(j));
        assert(changed.drop_last() =~= shorter);
        assert(before + items.update(m, item) =~= (before + items).update(before.len() + m, item));
    } else {
        lemma_log_update(shorter, j, patched, m, item);
        assert(shorter.take(j) =~= segments.take(j));
        assert(changed.drop_last() =~= shorter.update(j, patched));
        let p = items_before(segments, j) + m;
        assert(before.update(p, item) + items =~= (before + items).update(p, item));
    }
}

/// Where a corrupt record stands.
pub struct Fault {
    /// Id of the segment that holds the record.
    pub segment: int,
    /// Offset of the record's first byte.
    pub offset: int,
}

/// The first corrupt record that reading the segments in order meets.
pub open spec fn log_fault(segments: Seq<SegmentView>) -> Option<Fault>
    decreases segments.len(),
{
    if segments.len() == 0 {
        None
    } else {
        match log_fault(segments.drop_last()) {
            Some(fault) => Some(fault),
            None => match scan_fault(segments.last().data, 0) {
                Some(offset) => Some(Fault { segment: segments.last().id, offset }),
                None => None,
            },
        }
    }
}

/// The segments have a log exactly where none holds a corrupt record.
pub proof fn lemma_log_fault(segments: Seq<SegmentView>)
    ensures
        log_fault(segments) is Some <==> log_of(segments) is None,
    decreases segments.len(),
{
    if segments.len() > 0 {
        lemma_log_fault(segments.drop_last());
        lemma_scan_fault(segments.last().id, segments.last().data, 0);
    }
}

/// The first corrupt record of the first `j` segments is the first of all.
pub proof fn lemma_log_fault_prefix(segments: Seq<SegmentView>, j: int)
    requires
        0 <= j <= segments.len(),
        log_fault(segments.take(j)) is Some,
    ensures
        log_fault(segments) == log_fault(segments.take(j)),
    decreases segments.len(),
{
    if j == segments.len() {
        assert(segments.take(j) =~= segments);
    } else {
        assert(segments.drop_last().take(j) =~= segments.take(j));
        lemma_log_fault_prefix(segments.drop_last(), j);
    }
}

/// Where the segments before segment `j` hold no corrupt record and
/// segment `j` does, the first corrupt record is that of segment `j`.
pub proof fn lemma_log_fault_at(segments: Seq<SegmentView>, j: int)
    requires
        0 <= j < segments.len(),
        log_fault(segments.take(j)) is None,
        scan_fault(segments[j].data, 0) is Some,
    ensures
        log_fault(segments) == Some(
            Fault { segment: segments[j].id, offset: scan_fault(segments[j].data, 0)->0 },
        ),
{
    assert(segments.take(j + 1).drop_last() =~= segments.take(j));
    lemma_log_fault_prefix(segments, j + 1);
}

/// Each item of the log stands in one of the segments.
pub proof fn lemma_log_segments(segments: Seq<SegmentView>, bound: int)
    requires
        log_of(segments) is Some,
        forall|j: int| 0 <= j < segments.len() ==> (#[trigger] segments[j]).id < bound,
    ensures
        forall|t: int|
            0 <= t < log_of(segments)->0.len() ==> (#[trigger] log_of(segments)->0[t]).segment
                < bound,
{
    assert forall|t: int| 0 <= t < log_of(segments)->0.len() implies (#[trigger] log_of(
        segments,
    )->0[t]).segment < bound by {
        let place = lemma_log_locate(segments, t);
        assert(segments[place.0].id < bound);
    }
}

/// The last item of the log with the given key, if there is one.
pub open spec fn last_for(log: Seq<LogItem>, key: Seq<u8>) -> Option<LogItem>
    decreases log.len(),
{
    if log.len() == 0 {
        None
    } else if log.last().record.key == key {
        Some(log.last())
    } else {
        last_for(log.drop_last(), key)
    }
}

/// The item that gives `key` its value: the last with that key, unless it is
/// a tombstone.
pub open spec fn live(log: Seq<LogItem>, key: Seq<u8>) -> Option<LogItem> {
    match last_for(log, key) {
        Some(item) => if item.record.deleted {
            None
        } else {
            Some(item)
        },
        None => None,
    }
}

/// The keys of the log with their values.
pub open spec fn contents(log: Seq<LogItem>) -> Map<Seq<u8>, Seq<u8>> {
    Map::new(|key: Seq<u8>| live(log, key) is Some, |key: Seq<u8>| live(log, key)->0.record.value)
}

/// The last item for a key in a log with one more item.
pub proof fn lemma_last_for_push(log: Seq<LogItem>, item: LogItem, key: Seq<u8>)
    ensures
        last_for(log.push(item), key) == if item.record.key == key {
            Some(item)
        } else {
            last_for(log, key)
        },
{
    assert(log.push(item).drop_last() =~= log);
}

/// The last item for a key in two logs, one after the other.
pub proof fn lemma_last_for_concat(a: Seq<LogItem>, b: Seq<LogItem>, key: Seq<u8>)
    ensures
        last_for(a + b, key) == match last_for(b, key) {
            Some(item) => Some(item),
            None => last_for(a, key),
        },
    decreases b.len(),
{
    if b.len() == 0 {
        assert(a + b =~= a);
    } else {
        assert((a + b).drop_last() =~= a + b.drop_last());
        lemma_last_for_concat(a, b.drop_last(), key);
    }
}

/// Where a key has a last item, the index of that item: no later item has
/// the key.
pub proof fn lemma_last_for_index(log: Seq<LogItem>, key: Seq<u8>) -> (i: int)
    requires
        last_for(log, key) is Some,
    ensures
        0 <= i < log.len(),
        log[i] == last_for(log, key)->0,
        log[i].record.key == key,
        forall|k: int| i < k < log.len() ==> (#[trigger] log[k]).record.key != key,
    decreases log.len(),
{
    if log.last().record.key == key {
        log.len() - 1
    } else {
        let i = lemma_last_for_index(log.drop_last(), key);
        assert forall|k: int| i < k < log.len() implies (#[trigger] log[k]).record.key != key by {
            if k < log.len() - 1 {
                assert(log.drop_last()[k] == log[k]);
            }
        }
        i
    }
}

/// Replacing the last item of a key by another with that key replaces the
/// key's last item, and leaves every other key's last item as it is.
pub proof fn lemma_last_for_update(log: Seq<LogItem>, i: int, item: LogItem, key: Seq<u8>)
    requires
        0 <= i < log.len(),
        item.record.key == log[i].record.key,
        forall|k: int| i < k < log.len() ==> (#[trigger] log[k]).record.key != log[i].record.key,
    ensures
        last_for(log.update(i, item), key) == if key == item.record.key {
            Some(item)
        } else {
            last_for(log, key)
        },
    decreases log.len(),
{
    let changed = log.update(i, item);
    if i == log.len() - 1 {
        assert(changed.drop_last() =~= log.drop_last());
    } else {
        assert(changed.drop_last() =~= log.drop_last().update(i, item));
        lemma_last_for_update(log.drop_last(), i, item, key);
    }
}

/// A live record more gives its key its value.
pub proof fn lemma_contents_put(log: Seq<LogItem>, item: LogItem)
    requires
        !item.record.deleted,
    ensures
        contents(log.push(item)) == contents(log).insert(item.record.key, item.record.value),
{
    assert forall|key: Seq<u8>| #[trigger] live(log.push(item), key) == if key == item.record.key {
        Some(item)
    } else {
        live(log, key)
    } by {
        lemma_last_for_push(log, item, key);
    }
    assert(contents(log.push(item)) =~= contents(log).insert(item.record.key, item.record.value));
}

/// Turning the live item of a key into its tombstone takes the key away.
pub proof fn lemma_contents_delete(log: Seq<LogItem>, i: int)
    requires
        0 <= i < log.len(),
        forall|k: int| i < k < log.len() ==> (#[trigger] log[k]).record.key != log[i].record.key,
    ensures
        contents(log.update(i, log[i].tombstone())) == contents(log).remove(log[i].record.key),
{
    let changed = log.update(i, log[i].tombstone());
    assert forall|key: Seq<u8>| #[trigger] live(changed, key) == if key == log[i].record.key {
        None
    } else {
        live(log, key)
    } by {
        lemma_last_for_update(log, i, log[i].tombstone(), key);
    }
    assert(contents(changed) =~= contents(log).remove(log[i].record.key));
}

/// The segments are numbered from 0 without a gap.
pub open spec fn numbered(segments: Seq<SegmentView>) -> bool {
    forall|i: int| 0 <= i < segments.len() ==> (#[trigger] segments[i]).id == i
}

/// The id that a new segment gets, the number of segments, lies above all
/// ids in use.
pub open spec fn next_id_free(segments: Seq<SegmentView>) -> bool {
    forall|i: int| 0 <= i < segments.len() ==> (#[trigger] segments[i]).id < segments.len()
}

/// Segments with rising ids from 0 on, none of which reaches their number,
/// are numbered without a gap.
pub proof fn lemma_numbered(segments: Seq<SegmentView>)
    requires
        ascending(segments),
        next_id_free(segments),
        forall|i: int| 0 <= i < segments.len() ==> 0 <= (#[trigger] segments[i]).id,
    ensures
        numbered(segments),
    decreases segments.len(),
{
    if segments.len() > 0 {
        let shorter = segments.drop_last();
        let n = segments.len() - 1;
        lemma_at_least_index(segments, n);
        assert(segments[n].id == n);
        assert forall|i: int| 0 <= i < shorter.len() implies (#[trigger] shorter[i]).id
            < shorter.len() by {
            assert(segments[i].id < segments[n].id);
        }
        assert forall|i: int, j: int| 0 <= i < j < shorter.len() implies (#[trigger] shorter[i]).id
            < (#[trigger] shorter[j]).id by {
            assert(segments[i].id < segments[j].id);
        }
        assert forall|i: int| 0 <= i < shorter.len() implies 0 <= (#[trigger] shorter[i]).id by {
            assert(0 <= segments[i].id);
        }
        lemma_numbered(shorter);
        assert forall|i: int| 0 <= i < segments.len() implies (#[trigger] segments[i]).id == i by {
            if i < n {
                assert(shorter[i].id == i);
            }
        }
    }
}

/// With rising ids from 0 on, each id is at least its index.
pub proof fn lemma_at_least_index(segments: Seq<SegmentView>, i: int)
    requires
        ascending(segments),
        forall|k: int| 0 <= k < segments.len() ==> 0 <= (#[trigger] segments[k]).id,
        0 <= i < segments.len(),
    ensures
        segments[i].id >= i,
    decreases i,
{
    if i > 0 {
        lemma_at_least_index(segments, i - 1);
        assert(segments[i - 1].id < segments[i].id);
    }
}

/// An empty segment holds no record.
pub proof fn lemma_scan_empty(segment: int)
    ensures
        scan(segment, Seq::empty(), 0) == Some(Seq::<LogItem>::empty()),
        scan_end(Seq::empty(), 0) == 0,
{
    lemma_parse_at_end(Seq::empty(), 0);
}

/// The segments after `record` is appended to the last of them. Where that
/// makes the last segment longer than `max`, a new, empty segment follows.
pub open spec fn appended(
    segments: Seq<SegmentView>,
    record: Record,
    max: usize,
) -> Seq<SegmentView> {
    let active = segments.last();
    let grown = SegmentView { id: active.id, data: active.data + record.bytes() };
    let kept = segments.drop_last().push(grown);
    if grown.data.len() > max {
        kept.push(SegmentView { id: active.id + 1, data: Seq::empty() })
    } else {
        kept
    }
}

/// Whether the last segment can take `record`: the record's binary form and
/// the segment with it are no longer than the machine can address, and a
/// segment id is left for the segment that may follow.
pub open spec fn room(segments: Seq<SegmentView>, record: Record) -> bool {
    &&& record.key.len() + record.value.len() + 33 <= usize::MAX
    &&& segments.last().data.len() + record.size() <= usize::MAX
    &&& segments.last().id < usize::MAX
}

/// The item that a record appended to the last segment becomes.
pub open spec fn appended_item(segments: Seq<SegmentView>, record: Record) -> LogItem {
    LogItem {
        segment: segments.last().id,
        offset: segments.last().data.len() as int,
        end: segments.last().data.len() + record.size(),
        record,
    }
}

/// Appending a record to the last segment appends its item to the log, and
/// keeps the segments in order; the last segment ends where a record ends.
pub proof fn lemma_appended(segments: Seq<SegmentView>, record: Record, max: usize)
    requires
        segments.len() > 0,
        ascending(segments),
        log_of(segments) is Some,
        scan_end(segments.last().data, 0) == segments.last().data.len(),
        record.intact(),
        record.encodable(),
    ensures
        ascending(appended(segments, record, max)),
        numbered(segments) ==> numbered(appended(segments, record, max)),
        log_of(appended(segments, record, max)) == Some(
            log_of(segments)->0.push(appended_item(segments, record)),
        ),
        scan_end(appended(segments, record, max).last().data, 0) == appended(
            segments,
            record,
            max,
        ).last().data.len(),
{
    let before = segments.drop_last();
    let active = segments.last();
    let grown = SegmentView { id: active.id, data: active.data + record.bytes() };
    let kept = before.push(grown);
    let item = appended_item(segments, record);
    assert(segments =~= before.push(active));
    lemma_log_push(before, active);
    lemma_scan_append(active.id, active.data, 0, record);
    lemma_log_push(before, grown);
    let old_items = scan(active.id, active.data, 0)->0;
    assert(log_of(before)->0 + old_items.push(item) =~= (log_of(before)->0 + old_items).push(item));
    assert forall|i: int, j: int| 0 <= i < j < kept.len() implies (#[trigger] kept[i]).id < (
    #[trigger] kept[j]).id by {
        assert(segments[i].id < segments[j].id);
    }
    if grown.data.len() > max {
        let fresh = SegmentView { id: active.id + 1, data: Seq::empty() };
        let after = kept.push(fresh);
        lemma_log_push(kept, fresh);
        lemma_scan_empty(fresh.id);
        assert(log_of(kept)->0 + Seq::<LogItem>::empty() =~= log_of(kept)->0);
        assert forall|i: int, j: int| 0 <= i < j < after.len() implies (#[trigger] after[i]).id < (
        #[trigger] after[j]).id by {
            if j < kept.len() {
                assert(kept[i].id < kept[j].id);
            } else if i < kept.len() - 1 {
                assert(kept[i].id < kept[kept.len() - 1].id);
            }
        }
        if numbered(segments) {
            assert forall|i: int| 0 <= i < after.len() implies (#[trigger] after[i]).id == i by {
                if i < segments.len() {
                    assert(segments[i].id == i);
                }
            }
        }
    } else {
        if numbered(segments) {
            assert forall|i: int| 0 <= i < kept.len() implies (#[trigger] kept[i]).id == i by {
                assert(segments[i].id == i);
            }
        }
    }
}

/// The segments after the flag byte of the record that ends at `end` in
/// segment `j` is set.
pub open spec fn tombstoned(segments: Seq<SegmentView>, j: int, end: int) -> Seq<SegmentView> {
    segments.update(
        j,
        SegmentView { id: segments[j].id, data: segments[j].data.update(end - 1, 1u8) },
    )
}

/// Setting the flag byte of the item at index `i` of the log turns that item
/// into its tombstone, and keeps the segments in order; reading the last
/// segment stops where it stopped before.
pub proof fn lemma_tombstoned(segments: Seq<SegmentView>, i: int, j: int, m: int)
    requires
        ascending(segments),
        log_of(segments) is Some,
        0 <= j < segments.len(),
        scan(segments[j].id, segments[j].data, 0) is Some,
        0 <= m < scan(segments[j].id, segments[j].data, 0)->0.len(),
        i == items_before(segments, j) + m,
        0 <= i < log_of(segments)->0.len(),
        log_of(segments)->0[i] == scan(segments[j].id, segments[j].data, 0)->0[m],
    ensures
        ascending(tombstoned(segments, j, log_of(segments)->0[i].end)),
        numbered(segments) ==> numbered(tombstoned(segments, j, log_of(segments)->0[i].end)),
        log_of(tombstoned(segments, j, log_of(segments)->0[i].end)) == Some(
            log_of(segments)->0.update(i, log_of(segments)->0[i].tombstone()),
        ),
        scan_end(tombstoned(segments, j, log_of(segments)->0[i].end).last().data, 0) == scan_end(
            segments.last().data,
            0,
        ),
        tombstoned(segments, j, log_of(segments)->0[i].end).last().data.len()
            == segments.last().data.len(),
{
    let item = log_of(segments)->0[i];
    let after = tombstoned(segments, j, item.end);
    lemma_scan_items(segments[j].id, segments[j].data, 0);
    lemma_scan_tombstone(segments[j].id, segments[j].data, 0, m);
    lemma_log_update(segments, j, after[j], m, item.tombstone());
    assert forall|a: int, b: int| 0 <= a < b < after.len() implies (#[trigger] after[a]).id < (
    #[trigger] after[b]).id by {
        assert(segments[a].id < segments[b].id);
    }
    if numbered(segments) {
        assert forall|a: int| 0 <= a < after.len() implies (#[trigger] after[a]).id == a by {
            assert(segments[a].id == a);
        }
    }
}

} // verus!
