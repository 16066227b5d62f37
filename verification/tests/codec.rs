use bitcask::{Decoded, Entry};

const T0: u64 = 1_700_000_000_000;

fn expect_entry(decoded: Decoded) -> (Entry, usize) {
    match decoded {
        Decoded::Entry(entry, next) => (entry, next),
        other => panic!("expected a record, got {:?}", other),
    }
}

fn is_end_of_log(decoded: &Decoded) -> bool {
    matches!(decoded, Decoded::EndOfLog)
}

fn is_corruption(decoded: &Decoded) -> bool {
    matches!(decoded, Decoded::Corruption)
}

#[test]
fn checksum_is_crc32_of_timestamp_key_value() {
    let sum = Entry::generate_checksum(T0, &b"key".to_vec(), &b"value".to_vec());
    assert_eq!(sum, 2738525631);
    let mut input = T0.to_le_bytes().to_vec();
    input.extend_from_slice(b"key");
    input.extend_from_slice(b"value");
    assert_eq!(sum, crc32fast::hash(&input));
}

#[test]
fn checksum_of_small_fields() {
    assert_eq!(Entry::generate_checksum(0, &b"a".to_vec(), &b"b".to_vec()), 1020277476);
    assert_eq!(Entry::generate_checksum(5, &Vec::new(), &Vec::new()), 767742221);
}

#[test]
fn encode_gives_the_documented_layout() {
    let entry = Entry::with_timestamp(b"key".to_vec(), b"value".to_vec(), T0);
    let bytes = entry.encode().unwrap();
    assert_eq!(
        bytes,
        vec![
            252, 191, 149, 58, 163, 253, 0, 104, 229, 207, 139, 1, 0, 0, 3, 107, 101, 121, 5, 118,
            97, 108, 117, 101, 0
        ]
    );
}

#[test]
fn encode_of_empty_key_and_value() {
    let entry = Entry::with_timestamp(Vec::new(), Vec::new(), 5);
    assert_eq!(entry.encode().unwrap(), vec![252, 13, 209, 194, 45, 5, 0, 0, 0]);
}

#[test]
fn encode_uses_one_byte_for_small_timestamps() {
    let entry = Entry::with_timestamp(b"a".to_vec(), b"b".to_vec(), 0);
    assert_eq!(entry.encode().unwrap(), vec![252, 228, 50, 208, 60, 0, 1, 97, 1, 98, 0]);
}

#[test]
fn encode_is_what_bincode_gives_for_the_fields() {
    let key = b"some key".to_vec();
    let value = vec![7u8; 300];
    let entry = Entry::with_timestamp(key.clone(), value.clone(), T0);
    let expected = bincode::encode_to_vec(
        (entry.checksum(), T0, key, value, false),
        bincode::config::standard(),
    )
    .unwrap();
    assert_eq!(entry.encode().unwrap(), expected);
}

#[test]
fn length_prefix_widens_at_251() {
    let short = Entry::with_timestamp(vec![1u8; 250], Vec::new(), 0).encode().unwrap();
    let long = Entry::with_timestamp(vec![1u8; 251], Vec::new(), 0).encode().unwrap();
    // checksum (5 bytes here or fewer), timestamp (1 byte), then the key's length
    let short_at = short.len() - 250 - 2 - 1;
    let long_at = long.len() - 251 - 2 - 3;
    assert_eq!(short[short_at], 250);
    assert_eq!(&long[long_at..long_at + 3], &[251, 251, 0]);
}

#[test]
fn length_prefix_widens_at_65536() {
    let below = Entry::with_timestamp(Vec::new(), vec![0u8; 65535], 0).encode().unwrap();
    let above = Entry::with_timestamp(Vec::new(), vec![0u8; 65536], 0).encode().unwrap();
    let below_at = below.len() - 65535 - 1 - 3;
    let above_at = above.len() - 65536 - 1 - 5;
    assert_eq!(&below[below_at..below_at + 3], &[251, 255, 255]);
    assert_eq!(&above[above_at..above_at + 5], &[252, 0, 0, 1, 0]);
}

#[test]
fn timestamp_widens_at_each_boundary() {
    for (timestamp, width) in [
        (250u64, 1usize),
        (251, 3),
        (65535, 3),
        (65536, 5),
        (4294967295, 5),
        (4294967296, 9),
        (u64::MAX, 9),
    ] {
        let entry = Entry::with_timestamp(Vec::new(), Vec::new(), timestamp);
        let bytes = entry.encode().unwrap();
        let (back, next) = expect_entry(Entry::decode(&bytes, 0));
        assert_eq!(back.timestamp(), timestamp);
        assert_eq!(next, bytes.len());
        let checksum_width = bytes.len() - width - 3;
        assert!(checksum_width == 1 || checksum_width == 3 || checksum_width == 5);
    }
}

#[test]
fn decode_reads_back_what_encode_wrote() {
    let entry = Entry::with_timestamp(b"key".to_vec(), b"value".to_vec(), T0);
    let bytes = entry.encode().unwrap();
    let (back, next) = expect_entry(Entry::decode(&bytes, 0));
    assert_eq!(next, 25);
    assert_eq!(back.key(), &b"key".to_vec());
    assert_eq!(back.value(), &b"value".to_vec());
    assert_eq!(back.timestamp(), T0);
    assert_eq!(back.checksum(), 2738525631);
    assert!(!back.is_deleted());
}

#[test]
fn decode_reads_at_an_offset_and_ignores_what_follows() {
    let first = Entry::with_timestamp(b"a".to_vec(), b"1".to_vec(), 1).encode().unwrap();
    let second = Entry::with_timestamp(b"b".to_vec(), b"22".to_vec(), 2).encode().unwrap();
    let mut data = first.clone();
    data.extend_from_slice(&second);
    data.extend_from_slice(&[9, 9, 9]);
    let (one, next) = expect_entry(Entry::decode(&data, 0));
    assert_eq!(one.key(), &b"a".to_vec());
    assert_eq!(next, first.len());
    let (two, end) = expect_entry(Entry::decode(&data, next));
    assert_eq!(two.value(), &b"22".to_vec());
    assert_eq!(end, first.len() + second.len());
}

#[test]
fn decode_of_nothing_is_end_of_log() {
    assert!(is_end_of_log(&Entry::decode(&[], 0)));
    let bytes = Entry::with_timestamp(b"k".to_vec(), b"v".to_vec(), 3).encode().unwrap();
    assert!(is_end_of_log(&Entry::decode(&bytes, bytes.len())));
}

#[test]
fn decode_of_every_cut_record_is_end_of_log() {
    let bytes = Entry::with_timestamp(b"key".to_vec(), vec![5u8; 300], T0).encode().unwrap();
    for n in 0..bytes.len() {
        assert!(is_end_of_log(&Entry::decode(&bytes[..n], 0)), "cut at {}", n);
    }
}

#[test]
fn decode_of_a_flipped_value_bit_is_corruption() {
    let mut bytes = Entry::with_timestamp(b"key".to_vec(), b"value".to_vec(), T0).encode().unwrap();
    bytes[20] ^= 0x01;
    assert!(is_corruption(&Entry::decode(&bytes, 0)));
}

#[test]
fn decode_of_a_flipped_checksum_bit_is_corruption() {
    let mut bytes = Entry::with_timestamp(b"key".to_vec(), b"value".to_vec(), T0).encode().unwrap();
    bytes[2] ^= 0x10;
    assert!(is_corruption(&Entry::decode(&bytes, 0)));
}

#[test]
fn decode_of_a_flipped_timestamp_bit_is_corruption() {
    let mut bytes = Entry::with_timestamp(b"key".to_vec(), b"value".to_vec(), T0).encode().unwrap();
    bytes[7] ^= 0x01;
    assert!(is_corruption(&Entry::decode(&bytes, 0)));
}

#[test]
fn the_deleted_flag_is_not_under_the_checksum() {
    let mut bytes = Entry::with_timestamp(b"key".to_vec(), b"value".to_vec(), T0).encode().unwrap();
    let last = bytes.len() - 1;
    bytes[last] = 1;
    let (back, next) = expect_entry(Entry::decode(&bytes, 0));
    assert!(back.is_deleted());
    assert_eq!(back.value(), &b"value".to_vec());
    assert_eq!(next, bytes.len());
}

#[test]
fn decode_of_a_flag_that_is_neither_0_nor_1_is_corruption() {
    let mut bytes = Entry::with_timestamp(b"key".to_vec(), b"value".to_vec(), T0).encode().unwrap();
    let last = bytes.len() - 1;
    bytes[last] = 2;
    assert!(is_corruption(&Entry::decode(&bytes, 0)));
}

#[test]
fn decode_of_an_unknown_tag_is_corruption() {
    assert!(is_corruption(&Entry::decode(&[255, 0, 0, 0, 0], 0)));
    assert!(is_corruption(&Entry::decode(&[254, 0, 0, 0, 0], 0)));
    // a 64-bit tag where the 32-bit checksum stands
    assert!(is_corruption(&Entry::decode(&[253, 0, 0, 0, 0, 0, 0, 0, 0], 0)));
    // a tag of 128 bits where the timestamp stands
    assert!(is_corruption(&Entry::decode(&[0, 254, 0, 0, 0], 0)));
}

#[test]
fn decode_takes_a_wider_integer_than_needed() {
    // timestamp 5 written in three bytes; the checksum is that of timestamp 5
    let bytes = vec![252, 13, 209, 194, 45, 251, 5, 0, 0, 0, 0];
    let (back, next) = expect_entry(Entry::decode(&bytes, 0));
    assert_eq!(back.timestamp(), 5);
    assert_eq!(next, 11);
    assert_eq!(back.encode().unwrap().len(), 9);
}

#[test]
fn a_length_longer_than_the_input_is_end_of_log() {
    // checksum 0, timestamp 0, key length 2^32 - 1 with no key behind it
    assert!(is_end_of_log(&Entry::decode(&[0, 0, 252, 255, 255, 255, 255], 0)));
    // key length 2^64 - 1
    assert!(is_end_of_log(&Entry::decode(
        &[0, 0, 253, 255, 255, 255, 255, 255, 255, 255, 255, 1, 2, 3],
        0
    )));
}

#[test]
fn new_stamps_the_clock_and_a_valid_checksum() {
    let entry = Entry::new(b"key".to_vec(), b"value".to_vec());
    assert!(entry.timestamp() > 1_600_000_000_000);
    assert!(!entry.is_deleted());
    assert_eq!(
        entry.checksum(),
        Entry::generate_checksum(entry.timestamp(), &b"key".to_vec(), &b"value".to_vec())
    );
    let bytes = entry.encode().unwrap();
    let (back, _) = expect_entry(Entry::decode(&bytes, 0));
    assert_eq!(back.value(), &b"value".to_vec());
}

#[test]
fn into_key_and_into_value_give_the_fields() {
    let entry = Entry::with_timestamp(b"k".to_vec(), b"v".to_vec(), 9);
    assert_eq!(entry.into_key(), b"k".to_vec());
    let entry = Entry::with_timestamp(b"k".to_vec(), b"v".to_vec(), 9);
    assert_eq!(entry.into_value(), b"v".to_vec());
}

#[test]
fn bincode_reads_back_what_encode_wrote() {
    let entry = Entry::with_timestamp(b"some key".to_vec(), vec![3u8; 400], T0);
    let bytes = entry.encode().unwrap();
    let ((checksum, timestamp, key, value, deleted), read): (
        (u32, u64, Vec<u8>, Vec<u8>, bool),
        usize,
    ) = bincode::decode_from_slice(&bytes, bincode::config::standard()).unwrap();
    assert_eq!(read, bytes.len());
    assert_eq!(checksum, entry.checksum());
    assert_eq!(timestamp, T0);
    assert_eq!(&key, entry.key());
    assert_eq!(&value, entry.value());
    assert!(!deleted);
}

/// A small generator of byte strings that are rich in tags, flags and short
/// lengths.
fn sample(seed: &mut u64, len: usize) -> Vec<u8> {
    const PICKS: [u8; 12] = [0, 1, 2, 3, 5, 9, 250, 251, 252, 253, 254, 255];
    let mut bytes = Vec::with_capacity(len);
    for _ in 0..len {
        *seed = seed.wrapping_mul(6364136223846793005).wrapping_add(1442695040888963407);
        let r = (*seed >> 33) as u32;
        bytes.push(if r % 4 == 0 { (r >> 8) as u8 } else { PICKS[(r >> 8) as usize % PICKS.len()] });
    }
    bytes
}

/// Holds the decoder against `bincode`'s borrowing decoder, which reads the
/// same form and takes no memory for a length that the input does not have.
fn same_as_bincode(bytes: &[u8]) {
    type Fields<'a> = (u32, u64, &'a [u8], &'a [u8], bool);
    let theirs: Result<(Fields, usize), bincode::error::DecodeError> =
        bincode::borrow_decode_from_slice(bytes, bincode::config::standard());
    let ours = Entry::decode(bytes, 0);
    match theirs {
        Ok(((checksum, timestamp, key, value, deleted), read)) => {
            if checksum == Entry::generate_checksum(timestamp, &key.to_vec(), &value.to_vec()) {
                let (entry, next) = expect_entry(ours);
                assert_eq!(next, read);
                assert_eq!(entry.checksum(), checksum);
                assert_eq!(entry.timestamp(), timestamp);
                assert_eq!(entry.key().as_slice(), key);
                assert_eq!(entry.value().as_slice(), value);
                assert_eq!(entry.is_deleted(), deleted);
            } else {
                assert!(is_corruption(&ours), "{:?}", bytes);
            }
        }
        Err(bincode::error::DecodeError::UnexpectedEnd { .. }) => {
            assert!(is_end_of_log(&ours), "{:?}", bytes);
        }
        Err(_) => {
            assert!(is_corruption(&ours), "{:?}", bytes);
        }
    }
}

#[test]
fn decode_agrees_with_bincode_on_arbitrary_bytes() {
    let mut seed = 0x2545F4914F6CDD1D;
    for round in 0..20000usize {
        let bytes = sample(&mut seed, round % 24);
        same_as_bincode(&bytes);
    }
}

#[test]
fn decode_agrees_with_bincode_on_damaged_records() {
    let mut seed = 0x9E3779B97F4A7C15u64;
    for round in 0..400usize {
        let key = sample(&mut seed, round % 7);
        let value = sample(&mut seed, round % 11);
        let timestamp = [0u64, 250, 251, 70000, T0][round % 5];
        let whole = Entry::with_timestamp(key, value, timestamp).encode().unwrap();
        same_as_bincode(&whole);
        for cut in 0..whole.len() {
            same_as_bincode(&whole[..cut]);
        }
        for at in 0..whole.len() {
            let mut damaged = whole.clone();
            let change = sample(&mut seed, 1)[0];
            damaged[at] = if change == whole[at] { change ^ 1 } else { change };
            same_as_bincode(&damaged);
        }
    }
}
