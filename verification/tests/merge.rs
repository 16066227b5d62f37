use bitcask::{BitcaskHandler, Decoded, Directory, Entry, Error, Options};

const T0: u64 = 1_700_000_000_000;

fn writable(max_data_size: usize) -> Options {
    let mut options = Options::default();
    options.read_write = true;
    options.max_data_size = max_data_size;
    options
}

fn fresh(max_data_size: usize) -> BitcaskHandler {
    BitcaskHandler::open(Directory::new(), Some(writable(max_data_size))).unwrap()
}

fn total_bytes(directory: &Directory) -> usize {
    (0..directory.files().len()).map(|i| directory.files().file(i).bytes_count()).sum()
}

fn records_of(data: &[u8]) -> Vec<Entry> {
    let mut at = 0;
    let mut records = Vec::new();
    loop {
        match Entry::decode(data, at) {
            Decoded::Entry(entry, next) => {
                records.push(entry);
                at = next;
            }
            Decoded::EndOfLog => return records,
            Decoded::Corruption => panic!("corrupt record at {}", at),
        }
    }
}

fn busy_store() -> BitcaskHandler {
    let mut store = fresh(100);
    for round in 0..4u64 {
        for i in 0..10u8 {
            let value = vec![i + round as u8; 20];
            store.put_at(&[b'k', i], &value, T0 + round).unwrap();
        }
    }
    for i in 0..5u8 {
        store.delete(&[b'k', i]).unwrap();
    }
    store
}

#[test]
fn merge_keeps_keys_and_values() {
    let mut store = busy_store();
    let keys_before = store.list_keys().unwrap();
    let values_before: Vec<Vec<u8>> =
        keys_before.iter().map(|key| store.get(key).unwrap()).collect();
    assert_eq!(store.merge(), Ok(()));
    assert_eq!(store.list_keys().unwrap(), keys_before);
    for (key, value) in keys_before.iter().zip(values_before.iter()) {
        assert_eq!(&store.get(key).unwrap(), value);
    }
    for i in 0..5u8 {
        assert_eq!(store.get(&[b'k', i]), Err(Error::NotFound));
    }
}

#[test]
fn merge_shrinks_the_segments_to_live_records() {
    let mut store = busy_store();
    let before = store.directory();
    store.merge().unwrap();
    let after = store.directory();
    assert!(after.files().len() < before.files().len());
    assert!(total_bytes(&after) < total_bytes(&before));
    let sealed = after.files().len() - 1;
    let mut seen: Vec<Vec<u8>> = Vec::new();
    for i in 0..sealed {
        let file = after.files().file(i);
        assert_eq!(file.id(), i);
        assert!(file.bytes_count() > 0);
        for entry in records_of(file.data()) {
            assert!(!entry.is_deleted());
            assert!(!seen.contains(entry.key()));
            assert_eq!(&store.get(entry.key()).unwrap(), entry.value());
            seen.push(entry.key().clone());
        }
    }
    assert_eq!(after.files().file(sealed).id(), sealed);
}

#[test]
fn merge_packs_with_the_rotation_of_puts() {
    let mut store = fresh(100);
    // five live records of 34 bytes each, each with a dead record before it
    for i in 0..5u8 {
        store.put_at(&[i], &[0u8; 16], T0).unwrap();
        store.put_at(&[i], &[1u8; 16], T0).unwrap();
    }
    assert_eq!(store.lookup(&[0]).unwrap().entry_pos, 34);
    // a put that seals the active segment, so that all records are sealed away
    store.put_at(b"last", &[9u8; 100], T0).unwrap();
    assert_eq!(store.directory().files().len(), 5);
    store.merge().unwrap();
    let directory = store.directory();
    // three records make 102 > 100 bytes: the first new segment is sealed after
    // them; the other two and the large one (121 bytes) make the second
    assert_eq!(directory.files().len(), 3);
    assert_eq!(directory.files().file(0).bytes_count(), 3 * 34);
    assert_eq!(directory.files().file(1).bytes_count(), 2 * 34 + 121);
    assert_eq!(directory.files().file(2).bytes_count(), 0);
    assert_eq!(store.lookup(&[0]).unwrap().segment_id, 0);
    assert_eq!(store.lookup(&[2]).unwrap().segment_id, 0);
    assert_eq!(store.lookup(&[2]).unwrap().entry_pos, 2 * 34);
    assert_eq!(store.lookup(&[3]).unwrap().segment_id, 1);
    assert_eq!(store.lookup(&[3]).unwrap().entry_pos, 0);
    assert_eq!(store.lookup(&[4]).unwrap().entry_pos, 34);
    assert_eq!(store.lookup(b"last").unwrap().segment_id, 1);
    assert_eq!(store.lookup(b"last").unwrap().entry_pos, 68);
    assert_eq!(store.get(&[4]), Ok(vec![1u8; 16]));
}

#[test]
fn merge_leaves_the_active_segment_as_it_is() {
    let mut store = fresh(100);
    store.put_at(b"sealed", &[1u8; 120], T0).unwrap();
    store.put_at(b"sealed", &[2u8; 120], T0).unwrap();
    store.put_at(b"active", b"in the active segment", T0 + 7).unwrap();
    store.put_at(b"gone", b"x", T0).unwrap();
    store.delete(b"gone").unwrap();
    let before = store.directory();
    let active_before = before.files().file(before.files().len() - 1).data().clone();
    assert_eq!(before.files().len(), 3);
    store.merge().unwrap();
    let after = store.directory();
    assert_eq!(after.files().len(), 2);
    let active = after.files().file(1);
    assert_eq!(active.id(), 1);
    assert_eq!(active.data(), &active_before);
    let place = store.lookup(b"active").unwrap();
    assert_eq!(place.segment_id, 1);
    assert_eq!(place.entry_pos, 0);
    assert_eq!(place.timestamp, T0 + 7);
    assert_eq!(store.get(b"active"), Ok(b"in the active segment".to_vec()));
    assert_eq!(store.get(b"sealed"), Ok(vec![2u8; 120]));
    assert_eq!(store.get(b"gone"), Err(Error::NotFound));
    // writes go on in the active segment
    store.put_at(b"more", b"y", T0).unwrap();
    assert_eq!(store.lookup(b"more").unwrap().segment_id, 1);
}

#[test]
fn merge_of_a_store_without_sealed_records_leaves_only_the_active_segment() {
    let mut store = fresh(1000);
    store.put_at(b"a", b"1", T0).unwrap();
    store.merge().unwrap();
    let directory = store.directory();
    assert_eq!(directory.files().len(), 1);
    assert_eq!(directory.files().file(0).id(), 0);
    assert_eq!(store.get(b"a"), Ok(b"1".to_vec()));
    let mut empty = fresh(1000);
    assert_eq!(empty.merge(), Ok(()));
    assert_eq!(empty.directory().files().len(), 1);
}

#[test]
fn a_merged_directory_reopens_with_the_same_contents() {
    let mut store = busy_store();
    store.merge().unwrap();
    let keys = store.list_keys().unwrap();
    store.close().unwrap();
    let mut again = BitcaskHandler::open(store.directory(), Some(writable(100))).unwrap();
    let mut reopened_keys = again.list_keys().unwrap();
    let mut expected = keys.clone();
    reopened_keys.sort();
    expected.sort();
    assert_eq!(reopened_keys, expected);
    for i in 5..10u8 {
        assert_eq!(again.get(&[b'k', i]), Ok(vec![i + 3; 20]));
    }
    again.put_at(b"after", b"merge", T0).unwrap();
    assert_eq!(again.merge(), Ok(()));
    assert_eq!(again.get(b"after"), Ok(b"merge".to_vec()));
}

#[test]
fn merge_syncs_the_new_segments() {
    let mut store = busy_store();
    store.merge().unwrap();
    let directory = store.directory();
    for i in 0..directory.files().len() - 1 {
        let file = directory.files().file(i);
        assert_eq!(file.synced_bytes(), file.bytes_count());
    }
}

#[test]
fn merge_twice_changes_nothing_more() {
    let mut store = busy_store();
    store.merge().unwrap();
    let once = store.directory();
    store.merge().unwrap();
    let twice = store.directory();
    assert_eq!(once.files().len(), twice.files().len());
    for i in 0..once.files().len() {
        assert_eq!(once.files().file(i).data(), twice.files().file(i).data());
    }
}
