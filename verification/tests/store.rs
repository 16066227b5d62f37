use bitcask::{Bitcask, BitcaskHandler, DirEntry, Directory, Error, KeyDir, Options};

const T0: u64 = 1_700_000_000_000;

fn writable(max_data_size: usize) -> Options {
    let mut options = Options::default();
    options.read_write = true;
    options.max_data_size = max_data_size;
    options
}

fn fresh(max_data_size: usize) -> BitcaskHandler {
    BitcaskHandler::open(Directory::new(), Some(writable(max_data_size))).unwrap()
}

fn sorted(mut keys: Vec<Vec<u8>>) -> Vec<Vec<u8>> {
    keys.sort();
    keys
}

#[test]
fn default_options_are_read_only_with_two_gib_segments() {
    let options = Options::default();
    assert!(!options.read_write);
    assert!(!options.sync_on_put);
    assert!(!options.enable_compression);
    assert_eq!(options.max_data_size, 2 * 1024 * 1024 * 1024);
}

#[test]
fn dir_entry_new_keeps_its_fields() {
    let entry = DirEntry::new(3, 40, 99);
    assert_eq!(entry.segment_id, 3);
    assert_eq!(entry.entry_pos, 40);
    assert_eq!(entry.timestamp, 99);
}

#[test]
fn error_messages() {
    assert_eq!(Error::NotFound.message(), "Key-Value not found");
    assert_eq!(Error::AlreadyLocked.message(), "directory is already open for writing");
    assert_eq!(
        Error::Corruption { segment: 1, offset: 2 }.message(),
        "record checksum mismatch"
    );
    assert_eq!(Error::InvalidState.message(), "operation not available on this handle");
    assert_eq!(Error::Io.message(), "segment file could not be created or written");
}

#[test]
fn put_then_get_returns_the_value() {
    let mut store = fresh(1000);
    assert_eq!(store.put_at(b"k", b"v", T0), Ok(()));
    assert_eq!(store.get(b"k"), Ok(b"v".to_vec()));
}

#[test]
fn get_of_an_absent_key_is_not_found() {
    let mut store = fresh(1000);
    assert_eq!(store.get(b"k"), Err(Error::NotFound));
    store.put_at(b"k", b"v", T0).unwrap();
    assert_eq!(store.get(b"other"), Err(Error::NotFound));
    assert_eq!(store.get(b""), Err(Error::NotFound));
}

#[test]
fn empty_key_and_empty_value_are_stored() {
    let mut store = fresh(1000);
    store.put_at(b"", b"nameless", T0).unwrap();
    store.put_at(b"void", b"", T0).unwrap();
    assert_eq!(store.get(b""), Ok(b"nameless".to_vec()));
    assert_eq!(store.get(b"void"), Ok(Vec::new()));
    assert_eq!(sorted(store.list_keys().unwrap()), vec![b"".to_vec(), b"void".to_vec()]);
}

#[test]
fn long_values_and_binary_keys_round_trip() {
    let mut store = fresh(1 << 20);
    let key: Vec<u8> = (0..=255u8).collect();
    let value: Vec<u8> = (0..70000u32).map(|i| (i % 251) as u8).collect();
    store.put_at(&key, &value, T0).unwrap();
    assert_eq!(store.get(&key), Ok(value));
}

#[test]
fn put_records_where_the_record_stands() {
    let mut store = fresh(1000);
    store.put_at(b"key", b"value32423423423432432423423", T0).unwrap();
    store.put_at(b"key4", b"value4", T0 + 4).unwrap();
    assert_eq!(store.lookup(b"key"), Some(DirEntry::new(0, 0, T0)));
    assert_eq!(store.lookup(b"key4"), Some(DirEntry::new(0, 48, T0 + 4)));
    assert_eq!(store.lookup(b"nope"), None);
    let directory = store.directory();
    assert_eq!(directory.files().file(0).bytes_count(), 48 + 27);
}

#[test]
fn put_again_gives_the_new_value_and_keeps_the_old_bytes() {
    let mut store = fresh(1000);
    store.put_at(b"k", b"first", T0).unwrap();
    let before = store.directory().files().file(0).data().clone();
    store.put_at(b"k", b"second", T0 + 1).unwrap();
    assert_eq!(store.get(b"k"), Ok(b"second".to_vec()));
    let after = store.directory().files().file(0).data().clone();
    assert!(after.len() > before.len());
    assert_eq!(&after[..before.len()], &before[..]);
    assert_eq!(store.lookup(b"k").unwrap().entry_pos, before.len());
    assert_eq!(store.list_keys().unwrap(), vec![b"k".to_vec()]);
}

#[test]
fn delete_takes_the_key_away() {
    let mut store = fresh(1000);
    store.put_at(b"a", b"1", T0).unwrap();
    store.put_at(b"b", b"2", T0).unwrap();
    assert_eq!(store.delete(b"a"), Ok(()));
    assert_eq!(store.get(b"a"), Err(Error::NotFound));
    assert_eq!(store.get(b"b"), Ok(b"2".to_vec()));
    assert_eq!(store.list_keys().unwrap(), vec![b"b".to_vec()]);
    assert_eq!(store.lookup(b"a"), None);
}

#[test]
fn delete_sets_the_flag_byte_in_place() {
    let mut store = fresh(1000);
    store.put_at(b"key", b"value", T0).unwrap();
    store.put_at(b"other", b"x", T0).unwrap();
    let before = store.directory().files().file(0).data().clone();
    store.delete(b"key").unwrap();
    let after = store.directory().files().file(0).data().clone();
    assert_eq!(after.len(), before.len());
    let mut expected = before.clone();
    assert_eq!(expected[24], 0);
    expected[24] = 1;
    assert_eq!(after, expected);
}

#[test]
fn delete_of_an_absent_key_is_not_found() {
    let mut store = fresh(1000);
    assert_eq!(store.delete(b"k"), Err(Error::NotFound));
    store.put_at(b"k", b"v", T0).unwrap();
    assert_eq!(store.delete(b"k"), Ok(()));
    assert_eq!(store.delete(b"k"), Err(Error::NotFound));
}

#[test]
fn a_deleted_key_can_be_put_again() {
    let mut store = fresh(1000);
    store.put_at(b"k", b"one", T0).unwrap();
    store.delete(b"k").unwrap();
    store.put_at(b"k", b"two", T0 + 1).unwrap();
    assert_eq!(store.get(b"k"), Ok(b"two".to_vec()));
    assert_eq!(store.list_keys().unwrap(), vec![b"k".to_vec()]);
}

#[test]
fn delete_reaches_into_a_sealed_segment() {
    let mut store = fresh(10);
    store.put_at(b"old", b"sealed away", T0).unwrap();
    store.put_at(b"new", b"x", T0).unwrap();
    assert_eq!(store.lookup(b"old").unwrap().segment_id, 0);
    assert_eq!(store.lookup(b"new").unwrap().segment_id, 1);
    store.delete(b"old").unwrap();
    assert_eq!(store.get(b"old"), Err(Error::NotFound));
    assert_eq!(store.get(b"new"), Ok(b"x".to_vec()));
    let directory = store.directory();
    let sealed = directory.files().file(0);
    assert_eq!(sealed.data()[sealed.bytes_count() - 1], 1);
}

#[test]
fn list_keys_gives_each_live_key_once() {
    let mut store = fresh(50);
    for i in 0..20u8 {
        store.put_at(&[i], &[i, i], T0).unwrap();
    }
    for i in 0..20u8 {
        store.put_at(&[i], &[i], T0 + 1).unwrap();
    }
    for i in (0..20u8).step_by(2) {
        store.delete(&[i]).unwrap();
    }
    let expected: Vec<Vec<u8>> = (0..20u8).filter(|i| i % 2 == 1).map(|i| vec![i]).collect();
    assert_eq!(sorted(store.list_keys().unwrap()), expected);
    for i in 0..20u8 {
        if i % 2 == 1 {
            assert_eq!(store.get(&[i]), Ok(vec![i]));
        } else {
            assert_eq!(store.get(&[i]), Err(Error::NotFound));
        }
    }
}

#[test]
fn the_active_segment_is_sealed_once_it_exceeds_the_size() {
    let mut store = fresh(48);
    store.put_at(b"key", b"value32423423423432432423423", T0).unwrap();
    // exactly 48 bytes: not above the size, so the segment stays active
    assert_eq!(store.directory().files().len(), 1);
    store.put_at(b"key4", b"value4", T0 + 4).unwrap();
    let directory = store.directory();
    assert_eq!(directory.files().len(), 2);
    assert_eq!(directory.files().file(0).bytes_count(), 75);
    assert_eq!(directory.files().file(1).bytes_count(), 0);
    assert_eq!(directory.files().file(1).id(), 1);
    store.put_at(b"next", b"x", T0).unwrap();
    assert_eq!(store.lookup(b"next").unwrap(), DirEntry::new(1, 0, T0));
}

#[test]
fn a_read_only_store_refuses_writes() {
    let mut store = fresh(1000);
    store.put_at(b"k", b"v", T0).unwrap();
    store.close().unwrap();
    let mut reader = BitcaskHandler::open(store.directory(), None).unwrap();
    assert_eq!(reader.get(b"k"), Ok(b"v".to_vec()));
    assert_eq!(reader.list_keys().unwrap(), vec![b"k".to_vec()]);
    assert_eq!(reader.put_at(b"k", b"w", T0), Err(Error::InvalidState));
    assert_eq!(reader.put(b"k", b"w"), Err(Error::InvalidState));
    assert_eq!(reader.delete(b"k"), Err(Error::InvalidState));
    assert_eq!(reader.merge(), Err(Error::InvalidState));
    assert_eq!(reader.sync(), Ok(()));
    assert_eq!(reader.get(b"k"), Ok(b"v".to_vec()));
    // a read-only open creates no segment
    assert_eq!(reader.directory().files().len(), 1);
    assert!(!reader.directory().locked());
}

#[test]
fn a_closed_handle_refuses_everything() {
    let mut store = fresh(1000);
    store.put_at(b"k", b"v", T0).unwrap();
    assert_eq!(store.close(), Ok(()));
    assert_eq!(store.get(b"k"), Err(Error::InvalidState));
    assert_eq!(store.put_at(b"k", b"w", T0), Err(Error::InvalidState));
    assert_eq!(store.put(b"k", b"w"), Err(Error::InvalidState));
    assert_eq!(store.delete(b"k"), Err(Error::InvalidState));
    assert_eq!(store.list_keys(), Err(Error::InvalidState));
    assert_eq!(store.merge(), Err(Error::InvalidState));
    assert_eq!(store.sync(), Err(Error::InvalidState));
    assert_eq!(store.close(), Err(Error::InvalidState));
}

#[test]
fn a_second_writer_is_locked_out_until_the_first_closes() {
    let mut first = fresh(1000);
    first.put_at(b"k", b"v", T0).unwrap();
    assert!(first.directory().locked());
    let second = BitcaskHandler::open(first.directory(), Some(writable(1000)));
    assert_eq!(second.err(), Some(Error::AlreadyLocked));
    // readers take no lock
    let reader = BitcaskHandler::open(first.directory(), None).unwrap();
    assert_eq!(reader.get(b"k"), Ok(b"v".to_vec()));
    first.close().unwrap();
    assert!(!first.directory().locked());
    let mut second = BitcaskHandler::open(first.directory(), Some(writable(1000))).unwrap();
    assert_eq!(second.get(b"k"), Ok(b"v".to_vec()));
    assert_eq!(second.put_at(b"k2", b"v2", T0), Ok(()));
}

#[test]
fn a_locked_directory_refuses_a_writer() {
    let mut directory = Directory::new();
    directory.set_locked(true);
    let refused = BitcaskHandler::open(directory, Some(writable(1000)));
    assert_eq!(refused.err(), Some(Error::AlreadyLocked));
    let mut directory = Directory::new();
    directory.set_locked(true);
    assert!(BitcaskHandler::open(directory, None).is_ok());
}

#[test]
fn sync_marks_everything_as_on_stable_storage() {
    let mut store = fresh(1000);
    store.put_at(b"k", b"v", T0).unwrap();
    let directory = store.directory();
    assert_eq!(directory.files().file(0).synced_bytes(), 0);
    assert_eq!(store.sync(), Ok(()));
    let directory = store.directory();
    assert_eq!(directory.files().file(0).synced_bytes(), directory.files().file(0).bytes_count());
    assert_eq!(store.sync(), Ok(()));
    assert_eq!(store.get(b"k"), Ok(b"v".to_vec()));
    store.put_at(b"k2", b"v", T0).unwrap();
    let directory = store.directory();
    assert!(directory.files().file(0).synced_bytes() < directory.files().file(0).bytes_count());
}

#[test]
fn sync_on_put_syncs_each_put() {
    let mut options = writable(1000);
    options.sync_on_put = true;
    let mut store = BitcaskHandler::open(Directory::new(), Some(options)).unwrap();
    store.put_at(b"k", b"v", T0).unwrap();
    store.put_at(b"k2", b"v", T0).unwrap();
    let directory = store.directory();
    assert_eq!(directory.files().file(0).synced_bytes(), directory.files().file(0).bytes_count());
}

#[test]
fn close_syncs_and_gives_up_the_lock() {
    let mut store = fresh(20);
    store.put_at(b"a", b"0123456789012345678901234567890123456789", T0).unwrap();
    store.put_at(b"b", b"v", T0).unwrap();
    store.delete(b"a").unwrap();
    store.close().unwrap();
    let directory = store.directory();
    assert!(!directory.locked());
    for i in 0..directory.files().len() {
        let file = directory.files().file(i);
        assert_eq!(file.synced_bytes(), file.bytes_count());
    }
}

#[test]
fn the_engine_can_be_put_together_from_parts() {
    let store = Bitcask::new(bitcask::FilePool::new(), None, KeyDir::new(), Options::default());
    assert_eq!(store.get(b"k"), Err(Error::NotFound));
    assert_eq!(store.list_keys(), Ok(Vec::new()));
}

#[test]
fn key_dir_insert_get_remove() {
    let mut dir = KeyDir::new();
    assert_eq!(dir.len(), 0);
    dir.insert(b"a".to_vec(), DirEntry::new(0, 0, 1));
    dir.insert(b"b".to_vec(), DirEntry::new(0, 10, 2));
    dir.insert(b"a".to_vec(), DirEntry::new(1, 0, 3));
    assert_eq!(dir.len(), 2);
    assert_eq!(dir.get(b"a"), Some(DirEntry::new(1, 0, 3)));
    assert_eq!(dir.get(b"b"), Some(DirEntry::new(0, 10, 2)));
    assert_eq!(dir.get(b"c"), None);
    assert_eq!(dir.remove(b"a"), Some(DirEntry::new(1, 0, 3)));
    assert_eq!(dir.remove(b"a"), None);
    assert_eq!(dir.key_list(), vec![b"b".to_vec()]);
    assert_eq!(dir.key_at(0), &b"b".to_vec());
    assert_eq!(dir.entry_at(0), DirEntry::new(0, 10, 2));
    dir.repoint(&vec![DirEntry::new(5, 5, 5)]);
    assert_eq!(dir.get(b"b"), Some(DirEntry::new(5, 5, 5)));
}

#[test]
fn timestamps_keep_the_low_64_bits_of_the_millisecond_count() {
    assert_eq!(bitcask::clock::to_timestamp(1_700_000_000_000), 1_700_000_000_000);
    assert_eq!(bitcask::clock::to_timestamp((1u128 << 64) + 5), 5);
    assert_eq!(bitcask::clock::to_timestamp(u128::MAX), u64::MAX);
}

#[test]
fn a_clock_before_the_epoch_stamps_zero() {
    assert_eq!(bitcask::clock::timestamp_of(None), 0);
    assert_eq!(bitcask::clock::timestamp_of(Some(1_700_000_000_000)), 1_700_000_000_000);
    assert_eq!(bitcask::clock::timestamp_of(Some((1u128 << 64) + 5)), 5);
}

#[test]
fn file_pool_keeps_files_in_order_of_id() {
    let mut pool = bitcask::FilePool::new();
    for id in [5usize, 1, 3] {
        assert_eq!(pool.insert(bitcask::WorkingFile::from_bytes(id, vec![id as u8])), Ok(()));
    }
    assert_eq!(pool.insert(bitcask::WorkingFile::from_bytes(3, Vec::new())), Err(Error::Io));
    assert_eq!(pool.len(), 3);
    assert_eq!(pool.file(0).id(), 1);
    assert_eq!(pool.file(1).id(), 3);
    assert_eq!(pool.file(2).id(), 5);
    assert_eq!(pool.position(3), Some(1));
    assert_eq!(pool.position(4), None);
    assert_eq!(pool.get(5).unwrap().data(), &vec![5u8]);
    assert!(pool.get(0).is_none());
}

#[test]
fn working_file_append_read_and_mark_deleted() {
    let mut file = bitcask::WorkingFile::from_bytes(9, Vec::new());
    let first = bitcask::Entry::with_timestamp(b"a".to_vec(), b"1".to_vec(), 0);
    let second = bitcask::Entry::with_timestamp(b"b".to_vec(), b"2".to_vec(), 0);
    assert_eq!(file.append(&first), Ok(11));
    assert_eq!(file.append(&second), Ok(11));
    assert_eq!(file.bytes_count(), 22);
    assert_eq!(file.synced_bytes(), 0);
    file.sync();
    assert_eq!(file.synced_bytes(), 22);
    assert_eq!(file.mark_deleted(11), Ok(()));
    assert_eq!(file.synced_bytes(), 21);
    assert_eq!(file.data()[21], 1);
    match file.read_at(11) {
        bitcask::Decoded::Entry(entry, next) => {
            assert!(entry.is_deleted());
            assert_eq!(entry.key(), &b"b".to_vec());
            assert_eq!(next, 22);
        }
        other => panic!("expected a record, got {:?}", other),
    }
    assert_eq!(file.mark_deleted(22), Err(Error::Corruption { segment: 9, offset: 22 }));
    assert_eq!(file.mark_deleted(5), Err(Error::Corruption { segment: 9, offset: 5 }));
    assert!(matches!(file.read_at(100), bitcask::Decoded::EndOfLog));
    let copy = file.duplicate();
    assert_eq!(copy.data(), file.data());
    assert_eq!(copy.id(), 9);
    file.renumber(2);
    assert_eq!(file.id(), 2);
    assert_eq!(file.get_file_name(), "working_file_2");
}

#[test]
fn keys_are_filed_under_their_fnv_hash() {
    assert_eq!(bitcask::keydir::hash_of(b""), 0xcbf29ce484222325);
    assert_eq!(bitcask::keydir::hash_of(b"a"), 0xaf63dc4c8601ec8c);
    assert_eq!(bitcask::keydir::hash_of(b"foobar"), 0x85944171f73967e8);
}

#[test]
fn key_dir_holds_many_keys() {
    let mut dir = KeyDir::new();
    for i in 0..2000u32 {
        dir.insert(i.to_le_bytes().to_vec(), DirEntry::new(0, i as usize, 0));
    }
    assert_eq!(dir.len(), 2000);
    for i in (0..2000u32).step_by(3) {
        assert_eq!(dir.remove(&i.to_le_bytes()), Some(DirEntry::new(0, i as usize, 0)));
    }
    for i in 0..2000u32 {
        let expected = if i % 3 == 0 { None } else { Some(DirEntry::new(0, i as usize, 0)) };
        assert_eq!(dir.get(&i.to_le_bytes()), expected);
    }
    let mut keys = dir.key_list();
    keys.sort();
    let mut expected: Vec<Vec<u8>> =
        (0..2000u32).filter(|i| i % 3 != 0).map(|i| i.to_le_bytes().to_vec()).collect();
    expected.sort();
    assert_eq!(keys, expected);
    for i in (0..2000u32).step_by(3) {
        dir.insert(i.to_le_bytes().to_vec(), DirEntry::new(1, 0, 0));
        assert_eq!(dir.get(&i.to_le_bytes()), Some(DirEntry::new(1, 0, 0)));
    }
    assert_eq!(dir.len(), 2000);
}
