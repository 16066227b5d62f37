use bitcask::{Bitcask, BitcaskHandler, Directory, Entry, Error, Options};

const T0: u64 = 1_700_000_000_000;

fn writable(max_data_size: usize) -> Options {
    let mut options = Options::default();
    options.read_write = true;
    options.max_data_size = max_data_size;
    options
}

fn record(key: &[u8], value: &[u8], timestamp: u64) -> Vec<u8> {
    Entry::with_timestamp(key.to_vec(), value.to_vec(), timestamp).encode().unwrap()
}

fn tombstone(key: &[u8], value: &[u8], timestamp: u64) -> Vec<u8> {
    let mut bytes = record(key, value, timestamp);
    let last = bytes.len() - 1;
    bytes[last] = 1;
    bytes
}

fn directory_of(segments: Vec<(usize, Vec<u8>)>) -> Directory {
    let mut directory = Directory::new();
    for (id, data) in segments {
        directory.add_segment(id, data).unwrap();
    }
    directory
}

fn sorted(mut keys: Vec<Vec<u8>>) -> Vec<Vec<u8>> {
    keys.sort();
    keys
}

#[test]
fn an_empty_directory_opens_with_segment_zero_active() {
    let store = BitcaskHandler::open(Directory::new(), Some(writable(100))).unwrap();
    let directory = store.directory();
    assert_eq!(directory.files().len(), 1);
    assert_eq!(directory.files().file(0).id(), 0);
    assert_eq!(directory.files().file(0).bytes_count(), 0);
    assert_eq!(store.list_keys(), Ok(Vec::new()));
}

#[test]
fn without_options_the_store_opens_read_only() {
    let mut store = BitcaskHandler::open(Directory::new(), None).unwrap();
    assert_eq!(store.directory().files().len(), 0);
    assert_eq!(store.put_at(b"k", b"v", T0), Err(Error::InvalidState));
}

#[test]
fn recovery_replays_segments_in_order_of_id() {
    let mut zero = record(b"a", b"a0", T0);
    zero.extend(record(b"b", b"b0", T0));
    let mut one = record(b"a", b"a1", T0);
    one.extend(record(b"c", b"c1", T0));
    // given out of order; ids decide
    let store = BitcaskHandler::open(directory_of(vec![(1, one), (0, zero)]), None).unwrap();
    assert_eq!(store.get(b"a"), Ok(b"a1".to_vec()));
    assert_eq!(store.get(b"b"), Ok(b"b0".to_vec()));
    assert_eq!(store.get(b"c"), Ok(b"c1".to_vec()));
    assert_eq!(
        sorted(store.list_keys().unwrap()),
        vec![b"a".to_vec(), b"b".to_vec(), b"c".to_vec()]
    );
    assert_eq!(store.lookup(b"a").unwrap().segment_id, 1);
    assert_eq!(store.lookup(b"b").unwrap().entry_pos, record(b"a", b"a0", T0).len());
}

#[test]
fn recovery_goes_by_position_not_by_timestamp() {
    let mut zero = record(b"k", b"early position, late time", T0 + 1000);
    zero.extend(record(b"k", b"late position, early time", T0));
    let store = BitcaskHandler::open(directory_of(vec![(0, zero)]), None).unwrap();
    assert_eq!(store.get(b"k"), Ok(b"late position, early time".to_vec()));
    assert_eq!(store.lookup(b"k").unwrap().timestamp, T0);
}

#[test]
fn recovery_applies_tombstones() {
    let mut zero = record(b"a", b"1", T0);
    zero.extend(tombstone(b"a", b"1", T0));
    zero.extend(tombstone(b"never", b"", T0));
    zero.extend(record(b"b", b"2", T0));
    let mut one = tombstone(b"b", b"2", T0);
    one.extend(record(b"c", b"3", T0));
    one.extend(tombstone(b"c", b"3", T0));
    one.extend(record(b"c", b"4", T0));
    let store = BitcaskHandler::open(directory_of(vec![(0, zero), (1, one)]), None).unwrap();
    assert_eq!(store.get(b"a"), Err(Error::NotFound));
    assert_eq!(store.get(b"b"), Err(Error::NotFound));
    assert_eq!(store.get(b"never"), Err(Error::NotFound));
    assert_eq!(store.get(b"c"), Ok(b"4".to_vec()));
    assert_eq!(store.list_keys().unwrap(), vec![b"c".to_vec()]);
}

#[test]
fn a_record_cut_by_a_crash_is_the_end_of_its_segment() {
    let first = record(b"a", b"written in full", T0);
    let second = record(b"b", b"also written in full", T0 + 1);
    let torn = record(b"c", b"cut in the middle of the write", T0 + 2);
    for cut in 0..torn.len() {
        let mut data = first.clone();
        data.extend_from_slice(&second);
        data.extend_from_slice(&torn[..cut]);
        let store = BitcaskHandler::open(directory_of(vec![(0, data)]), None).unwrap();
        assert_eq!(store.get(b"a"), Ok(b"written in full".to_vec()), "cut at {}", cut);
        assert_eq!(store.get(b"b"), Ok(b"also written in full".to_vec()));
        assert_eq!(store.get(b"c"), Err(Error::NotFound));
        assert_eq!(sorted(store.list_keys().unwrap()), vec![b"a".to_vec(), b"b".to_vec()]);
    }
}

#[test]
fn a_crash_in_the_middle_of_a_put_loses_only_that_put() {
    let mut store = BitcaskHandler::open(Directory::new(), Some(writable(60))).unwrap();
    store.put_at(b"one", b"first value of some length", T0).unwrap();
    store.put_at(b"two", b"second value of some length", T0).unwrap();
    store.put_at(b"three", b"third", T0).unwrap();
    let whole = store.directory();
    let active = whole.files().len() - 1;
    let before_len = whole.files().file(active).bytes_count();
    store.put_at(b"four", b"the put that the crash cuts", T0).unwrap();
    let after = store.directory();
    let after_len = after.files().file(active).bytes_count();
    assert!(after_len > before_len);
    for cut in before_len..after_len {
        let mut crashed = Directory::new();
        for i in 0..whole.files().len() {
            let file = after.files().file(i);
            let mut data = file.data().clone();
            if i == active {
                data.truncate(cut);
            }
            crashed.add_segment(file.id(), data).unwrap();
        }
        let reopened = BitcaskHandler::open(crashed, None).unwrap();
        assert_eq!(reopened.get(b"one"), Ok(b"first value of some length".to_vec()));
        assert_eq!(reopened.get(b"two"), Ok(b"second value of some length".to_vec()));
        assert_eq!(reopened.get(b"three"), Ok(b"third".to_vec()));
        assert_eq!(reopened.get(b"four"), Err(Error::NotFound));
    }
}

#[test]
fn a_flipped_bit_in_a_whole_record_fails_open_with_corruption() {
    let first = record(b"a", b"good", T0);
    let second = record(b"b", b"to be damaged", T0);
    let third = record(b"c", b"good", T0);
    let mut data = first.clone();
    data.extend_from_slice(&second);
    data.extend_from_slice(&third);
    // every byte of the value of the second record, every bit
    let value_at = first.len() + second.len() - 1 - 13;
    for byte in value_at..value_at + 13 {
        for bit in 0..8 {
            let mut damaged = data.clone();
            damaged[byte] ^= 1 << bit;
            let expected = Error::Corruption { segment: 0, offset: first.len() };
            let read_only = BitcaskHandler::open(directory_of(vec![(0, damaged.clone())]), None);
            assert_eq!(read_only.err(), Some(expected));
            let for_writing =
                BitcaskHandler::open(directory_of(vec![(0, damaged)]), Some(writable(100)));
            assert_eq!(for_writing.err(), Some(expected));
        }
    }
}

#[test]
fn corruption_in_an_early_segment_fails_open() {
    let mut damaged = record(b"a", b"value", T0);
    damaged[20] ^= 0x40;
    let good = record(b"b", b"value", T0);
    let opened = BitcaskHandler::open(directory_of(vec![(0, damaged), (1, good)]), None);
    assert_eq!(opened.err(), Some(Error::Corruption { segment: 0, offset: 0 }));
}

#[test]
fn corruption_comes_before_the_lock() {
    let mut damaged = record(b"a", b"value", T0);
    damaged[20] ^= 0x40;
    let mut directory = directory_of(vec![(0, damaged)]);
    directory.set_locked(true);
    let opened = BitcaskHandler::open(directory, Some(writable(100)));
    assert_eq!(opened.err(), Some(Error::Corruption { segment: 0, offset: 0 }));
}

#[test]
fn rebuild_gives_the_directory_of_the_segments() {
    let mut zero = record(b"a", b"1", T0);
    let second_at = zero.len();
    zero.extend(record(b"b", b"2", T0 + 1));
    let directory = directory_of(vec![(0, zero)]);
    let dir = Bitcask::rebuild(directory.files()).ok().unwrap();
    assert_eq!(dir.len(), 2);
    assert_eq!(dir.get(b"a").unwrap().entry_pos, 0);
    assert_eq!(dir.get(b"b").unwrap().entry_pos, second_at);
    assert_eq!(dir.get(b"b").unwrap().timestamp, T0 + 1);
}

#[test]
fn reopening_for_writing_continues_with_the_next_id() {
    let mut store = BitcaskHandler::open(Directory::new(), Some(writable(1000))).unwrap();
    store.put_at(b"a", b"1", T0).unwrap();
    store.close().unwrap();
    let mut again = BitcaskHandler::open(store.directory(), Some(writable(1000))).unwrap();
    assert_eq!(again.directory().files().len(), 2);
    again.put_at(b"b", b"2", T0).unwrap();
    assert_eq!(again.lookup(b"a").unwrap().segment_id, 0);
    assert_eq!(again.lookup(b"b").unwrap().segment_id, 1);
    assert_eq!(again.get(b"a"), Ok(b"1".to_vec()));
    again.delete(b"a").unwrap();
    again.close().unwrap();
    let third = BitcaskHandler::open(again.directory(), None).unwrap();
    assert_eq!(third.get(b"a"), Err(Error::NotFound));
    assert_eq!(third.get(b"b"), Ok(b"2".to_vec()));
}

#[test]
fn a_gap_in_the_ids_refuses_a_writer_but_not_a_reader() {
    let segments = || vec![(0, record(b"a", b"1", T0)), (2, record(b"b", b"2", T0))];
    let writer = BitcaskHandler::open(directory_of(segments()), Some(writable(100)));
    assert_eq!(writer.err(), Some(Error::Io));
    let reader = BitcaskHandler::open(directory_of(segments()), None).unwrap();
    assert_eq!(reader.get(b"a"), Ok(b"1".to_vec()));
    assert_eq!(reader.get(b"b"), Ok(b"2".to_vec()));
}

#[test]
fn an_id_equal_to_the_number_of_segments_refuses_a_writer() {
    let writer =
        BitcaskHandler::open(directory_of(vec![(1, record(b"a", b"1", T0))]), Some(writable(100)));
    assert_eq!(writer.err(), Some(Error::Io));
}

#[test]
fn a_writer_reopens_after_a_crash_and_writes_on() {
    let mut data = record(b"a", b"whole", T0);
    let torn = record(b"b", b"torn by the crash", T0);
    data.extend_from_slice(&torn[..torn.len() - 3]);
    let mut store =
        BitcaskHandler::open(directory_of(vec![(0, data.clone())]), Some(writable(1000))).unwrap();
    assert_eq!(store.get(b"a"), Ok(b"whole".to_vec()));
    assert_eq!(store.get(b"b"), Err(Error::NotFound));
    store.put_at(b"b", b"again", T0).unwrap();
    store.delete(b"a").unwrap();
    // the torn segment keeps its bytes but for the flag of the deleted record
    let directory = store.directory();
    assert_eq!(directory.files().file(0).bytes_count(), data.len());
    assert_eq!(store.lookup(b"b").unwrap().segment_id, 1);
    store.close().unwrap();
    let again = BitcaskHandler::open(store.directory(), None).unwrap();
    assert_eq!(again.get(b"a"), Err(Error::NotFound));
    assert_eq!(again.get(b"b"), Ok(b"again".to_vec()));
}

#[test]
fn what_was_synced_survives_any_cut_of_the_active_segment() {
    let mut store = BitcaskHandler::open(Directory::new(), Some(writable(10_000))).unwrap();
    store.put_at(b"a", b"synced", T0).unwrap();
    store.put_at(b"b", b"synced too", T0).unwrap();
    store.sync().unwrap();
    let synced = store.directory().files().file(0).synced_bytes();
    store.put_at(b"c", b"not synced", T0).unwrap();
    store.put_at(b"a", b"overwritten, not synced", T0).unwrap();
    let whole = store.directory().files().file(0).data().clone();
    for cut in synced..=whole.len() {
        let reopened =
            BitcaskHandler::open(directory_of(vec![(0, whole[..cut].to_vec())]), None).unwrap();
        assert_eq!(reopened.get(b"b"), Ok(b"synced too".to_vec()));
        let a = reopened.get(b"a").unwrap();
        if cut == whole.len() {
            assert_eq!(a, b"overwritten, not synced".to_vec());
            assert_eq!(reopened.get(b"c"), Ok(b"not synced".to_vec()));
        } else {
            assert_eq!(a, b"synced".to_vec());
        }
    }
}

#[test]
fn corruption_is_reported_where_the_first_corrupt_record_stands() {
    let good = record(b"a", b"fine", T0);
    let mut second = good.clone();
    let mut damaged = record(b"b", b"value", T0);
    damaged[20] ^= 0x40;
    second.extend_from_slice(&damaged);
    let mut third = damaged.clone();
    third.extend_from_slice(&good);
    let opened = BitcaskHandler::open(
        directory_of(vec![(0, good.clone()), (3, second), (7, third)]),
        None,
    );
    assert_eq!(opened.err(), Some(Error::Corruption { segment: 3, offset: good.len() }));
}
