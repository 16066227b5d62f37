//! The record of the log and its binary form.
//!
//! A record is five fields in this order: checksum (32-bit integer),
//! timestamp (64-bit integer), key, value (byte strings), deleted flag (one
//! byte, 0 or 1). Integers and lengths are variable-length (see `varint`).
//! The checksum covers the timestamp's eight little-endian bytes, the key
//! and the value; it does not cover the flag, so a record can be marked
//! deleted in place.
//!
//! This is the form that `bincode` gives the five fields under its standard
//! configuration, and records are encoded by `bincode`. They are decoded
//! here: segment bytes come from disk and may be cut short or damaged, and
//! the decoder tells a record that is cut short from one that is corrupt,
//! allocates nothing by a length that it has not held against the input,
//! and gives the position after the record.

use crate::checksum::{crc32, crc32_of};
use crate::clock::now_millis;
use crate::error::Error;
use crate::varint::{
    blob, decode_blob, decode_varint, lemma_blob_reads_back, lemma_read_blob_agree,
    lemma_read_blob_bounds, lemma_read_blob_skip, lemma_read_blob_take, lemma_read_varint_agree,
    lemma_read_varint_bounds, lemma_read_varint_skip, lemma_read_varint_take,
    lemma_varint_reads_back, read_blob, read_varint, varint, varint_len, Field, Read, TAG_U32,
    TAG_U64,
};
use bincode::error::EncodeError;
use vstd::bytes::*;
use vstd::prelude::*;

verus! {

/// A record as a mathematical value.
pub struct Record {
    pub checksum: u32,
    pub timestamp: u64,
    pub key: Seq<u8>,
    pub value: Seq<u8>,
    pub deleted: bool,
}

/// The bytes a record's checksum is taken over.
pub open spec fn checksum_input(timestamp: u64, key: Seq<u8>, value: Seq<u8>) -> Seq<u8> {
    spec_u64_to_le_bytes(timestamp) + key + value
}

/// The byte that stands for a deleted flag.
pub open spec fn flag_byte(deleted: bool) -> u8 {
    if deleted {
        1
    } else {
        0
    }
}

impl Record {
    /// The record with the given fields.
    pub open spec fn of(
        checksum: u32,
        timestamp: u64,
        key: Seq<u8>,
        value: Seq<u8>,
        deleted: bool,
    ) -> Record {
        Record { checksum, timestamp, key, value, deleted }
    }

    /// The live record of `key` and `value` written at `timestamp`.
    pub open spec fn live(timestamp: u64, key: Seq<u8>, value: Seq<u8>) -> Record {
        Record {
            checksum: crc32(checksum_input(timestamp, key, value)),
            timestamp,
            key,
            value,
            deleted: false,
        }
    }

    /// The checksum is that of the timestamp, key and value.
    pub open spec fn intact(self) -> bool {
        self.checksum == crc32(checksum_input(self.timestamp, self.key, self.value))
    }

    /// Key and value are short enough for a length prefix.
    pub open spec fn encodable(self) -> bool {
        self.key.len() <= u64::MAX && self.value.len() <= u64::MAX
    }

    /// The record's binary form.
    pub open spec fn bytes(self) -> Seq<u8> {
        varint(self.checksum as u64) + varint(self.timestamp) + blob(self.key) + blob(self.value)
            + seq![flag_byte(self.deleted)]
    }

    /// The length of the binary form.
    pub open spec fn size(self) -> int {
        varint_len(self.checksum as u64) + varint_len(self.timestamp) + varint_len(
            self.key.len() as u64,
        ) + self.key.len() + varint_len(self.value.len() as u64) + self.value.len() + 1
    }

    /// The same record, marked deleted.
    pub open spec fn tombstone(self) -> Record {
        Record { deleted: true, ..self }
    }
}

/// What reading one record at a position of a byte string gives.
pub enum Parsed {
    /// A complete record whose checksum verifies, and the position after it.
    Entry { record: Record, next: int },
    /// The input ends at the position, or before the record is complete.
    EndOfLog,
    /// The bytes are no record, or the record's checksum does not verify.
    Corrupt,
}

/// Reads the record that starts at `at`.
pub open spec fn parse_record(bytes: Seq<u8>, at: int) -> Parsed {
    match read_varint(bytes, at, 252) {
        Field::Short => Parsed::EndOfLog,
        Field::Invalid => Parsed::Corrupt,
        Field::Value { value: checksum, next: at_time } => match read_varint(bytes, at_time, 253) {
            Field::Short => Parsed::EndOfLog,
            Field::Invalid => Parsed::Corrupt,
            Field::Value { value: timestamp, next: at_key } => match read_blob(bytes, at_key) {
                Field::Short => Parsed::EndOfLog,
                Field::Invalid => Parsed::Corrupt,
                Field::Value { value: key, next: at_value } => match read_blob(bytes, at_value) {
                    Field::Short => Parsed::EndOfLog,
                    Field::Invalid => Parsed::Corrupt,
                    Field::Value { value, next: at_flag } => {
                        if at_flag >= bytes.len() {
                            Parsed::EndOfLog
                        } else if bytes[at_flag] > 1 {
                            Parsed::Corrupt
                        } else if checksum != crc32(checksum_input(timestamp, key, value)) {
                            Parsed::Corrupt
                        } else {
                            Parsed::Entry {
                                record: Record {
                                    checksum: checksum as u32,
                                    timestamp,
                                    key,
                                    value,
                                    deleted: bytes[at_flag] == 1,
                                },
                                next: at_flag + 1,
                            }
                        }
                    },
                },
            },
        },
    }
}

impl Parsed {
    /// This outcome moved `by` positions to the right.
    pub open spec fn shifted(self, by: int) -> Parsed {
        match self {
            Parsed::Entry { record, next } => Parsed::Entry { record, next: next + by },
            Parsed::EndOfLog => Parsed::EndOfLog,
            Parsed::Corrupt => Parsed::Corrupt,
        }
    }
}

/// A record that is read is intact, is at least five bytes long and lies
/// within the input; its flag is its last byte.
pub proof fn lemma_parse_entry(bytes: Seq<u8>, at: int)
    requires
        parse_record(bytes, at) is Entry,
    ensures
        parse_record(bytes, at)->record.intact(),
        parse_record(bytes, at)->record.encodable(),
        0 <= at,
        at + 5 <= parse_record(bytes, at)->next <= bytes.len(),
        bytes[parse_record(bytes, at)->next - 1] == flag_byte(
            parse_record(bytes, at)->record.deleted,
        ),
{
    lemma_read_varint_bounds(bytes, at, 252);
    let at_time = read_varint(bytes, at, 252)->next;
    lemma_read_varint_bounds(bytes, at_time, 253);
    let at_key = read_varint(bytes, at_time, 253)->next;
    lemma_read_blob_bounds(bytes, at_key);
    let at_value = read_blob(bytes, at_key)->next;
    lemma_read_blob_bounds(bytes, at_value);
}

/// Reading at `at` is reading at the start of what follows `at`.
pub proof fn lemma_parse_skip(bytes: Seq<u8>, at: int)
    requires
        0 <= at <= bytes.len(),
    ensures
        parse_record(bytes, at) == parse_record(bytes.skip(at), 0).shifted(at),
{
    let tail = bytes.skip(at);
    lemma_read_varint_skip(bytes, at, 252);
    if let Field::Value { value: _, next: at_time } = read_varint(bytes, at, 252) {
        lemma_read_varint_bounds(bytes, at, 252);
        lemma_read_varint_skip(bytes, at_time, 253);
        lemma_read_varint_skip(tail, at_time - at, 253);
        assert(tail.skip(at_time - at) =~= bytes.skip(at_time));
        if let Field::Value { value: _, next: at_key } = read_varint(bytes, at_time, 253) {
            lemma_read_varint_bounds(bytes, at_time, 253);
            lemma_read_blob_skip(bytes, at_key);
            lemma_read_blob_skip(tail, at_key - at);
            assert(tail.skip(at_key - at) =~= bytes.skip(at_key));
            if let Field::Value { value: _, next: at_value } = read_blob(bytes, at_key) {
                lemma_read_blob_bounds(bytes, at_key);
                lemma_read_blob_skip(bytes, at_value);
                lemma_read_blob_skip(tail, at_value - at);
                assert(tail.skip(at_value - at) =~= bytes.skip(at_value));
                if let Field::Value { value: _, next: at_flag } = read_blob(bytes, at_value) {
                    lemma_read_blob_bounds(bytes, at_value);
                    if at_flag < bytes.len() {
                        assert(tail[at_flag - at] == bytes[at_flag]);
                    }
                }
            }
        }
    }
}

/// A record reads the same in every byte string that agrees on its bytes.
pub proof fn lemma_parse_agree(a: Seq<u8>, b: Seq<u8>, at: int)
    requires
        parse_record(a, at) is Entry,
        parse_record(a, at)->next <= b.len(),
        forall|i: int| at <= i < parse_record(a, at)->next ==> a[i] == b[i],
    ensures
        parse_record(b, at) == parse_record(a, at),
{
    lemma_read_varint_bounds(a, at, 252);
    let at_time = read_varint(a, at, 252)->next;
    lemma_read_varint_bounds(a, at_time, 253);
    let at_key = read_varint(a, at_time, 253)->next;
    lemma_read_blob_bounds(a, at_key);
    let at_value = read_blob(a, at_key)->next;
    lemma_read_blob_bounds(a, at_value);
    lemma_read_varint_agree(a, b, at, 252);
    lemma_read_varint_agree(a, b, at_time, 253);
    lemma_read_blob_agree(a, b, at_key);
    lemma_read_blob_agree(a, b, at_value);
}

/// Reading a record from the first `c` bytes of an input gives what reading
/// from the whole gives where the record ends within them, and the end of
/// the log where it does not.
pub proof fn lemma_parse_take(bytes: Seq<u8>, at: int, c: int)
    requires
        0 <= at,
        0 <= c <= bytes.len(),
    ensures
        match parse_record(bytes, at) {
            Parsed::Entry { record, next } => if next <= c {
                parse_record(bytes.take(c), at) == parse_record(bytes, at)
            } else {
                parse_record(bytes.take(c), at) is EndOfLog
            },
            Parsed::EndOfLog => parse_record(bytes.take(c), at) is EndOfLog,
            Parsed::Corrupt => !(parse_record(bytes.take(c), at) is Entry),
        },
{
    let cut = bytes.take(c);
    lemma_read_varint_take(bytes, at, 252, c);
    if let Field::Value { value: _, next: at_time } = read_varint(bytes, at, 252) {
        lemma_read_varint_bounds(bytes, at, 252);
        lemma_read_varint_take(bytes, at_time, 253, c);
        if let Field::Value { value: _, next: at_key } = read_varint(bytes, at_time, 253) {
            lemma_read_varint_bounds(bytes, at_time, 253);
            lemma_read_blob_take(bytes, at_key, c);
            if let Field::Value { value: _, next: at_value } = read_blob(bytes, at_key) {
                lemma_read_blob_bounds(bytes, at_key);
                lemma_read_blob_take(bytes, at_value, c);
                if let Field::Value { value: _, next: at_flag } = read_blob(bytes, at_value) {
                    lemma_read_blob_bounds(bytes, at_value);
                    if at_flag < c {
                        assert(cut[at_flag] == bytes[at_flag]);
                    }
                }
            }
        }
    }
}

/// Setting the last byte of a record to 1 turns it into its tombstone and
/// leaves its length as it is.
pub proof fn lemma_parse_tombstone(bytes: Seq<u8>, at: int)
    requires
        parse_record(bytes, at) is Entry,
    ensures
        parse_record(bytes.update(parse_record(bytes, at)->next - 1, 1u8), at) == (Parsed::Entry {
            record: parse_record(bytes, at)->record.tombstone(),
            next: parse_record(bytes, at)->next,
        }),
{
    let patched = bytes.update(parse_record(bytes, at)->next - 1, 1u8);
    lemma_read_varint_bounds(bytes, at, 252);
    let at_time = read_varint(bytes, at, 252)->next;
    lemma_read_varint_bounds(bytes, at_time, 253);
    let at_key = read_varint(bytes, at_time, 253)->next;
    lemma_read_blob_bounds(bytes, at_key);
    let at_value = read_blob(bytes, at_key)->next;
    lemma_read_blob_bounds(bytes, at_value);
    let at_flag = read_blob(bytes, at_value)->next;
    lemma_read_varint_agree(bytes, patched, at, 252);
    lemma_read_varint_agree(bytes, patched, at_time, 253);
    lemma_read_blob_agree(bytes, patched, at_key);
    lemma_read_blob_agree(bytes, patched, at_value);
}

/// The length of a record's binary form is its size.
pub proof fn lemma_bytes_len(r: Record)
    requires
        r.encodable(),
    ensures
        r.bytes().len() == r.size(),
        5 <= r.size(),
{
    lemma_varint_reads_back(r.checksum as u64, Seq::empty(), 252);
    lemma_varint_reads_back(r.timestamp, Seq::empty(), 253);
    lemma_blob_reads_back(r.key, Seq::empty());
    lemma_blob_reads_back(r.value, Seq::empty());
}

/// The binary form of a record reads back as the record where the record
/// is intact, and as corrupt where it is not, whatever follows it.
pub proof fn lemma_record_reads(r: Record, rest: Seq<u8>)
    requires
        r.encodable(),
    ensures
        r.bytes().len() == r.size(),
        parse_record(r.bytes() + rest, 0) == if r.intact() {
            Parsed::Entry { record: r, next: r.size() }
        } else {
            Parsed::Corrupt
        },
{
    let whole = r.bytes() + rest;
    let flag = seq![flag_byte(r.deleted)];
    let n1 = varint_len(r.checksum as u64);
    let n2 = n1 + varint_len(r.timestamp);
    let n3 = n2 + varint_len(r.key.len() as u64) + r.key.len();
    let n4 = n3 + varint_len(r.value.len() as u64) + r.value.len();
    let t1 = varint(r.timestamp) + blob(r.key) + blob(r.value) + flag + rest;
    let t2 = blob(r.key) + blob(r.value) + flag + rest;
    let t3 = blob(r.value) + flag + rest;
    let t4 = flag + rest;
    lemma_varint_reads_back(r.checksum as u64, t1, 252);
    lemma_varint_reads_back(r.timestamp, t2, 253);
    lemma_blob_reads_back(r.key, t3);
    lemma_blob_reads_back(r.value, t4);
    assert(whole =~= varint(r.checksum as u64) + t1);
    assert(whole.skip(n1) =~= varint(r.timestamp) + t2);
    assert(whole.skip(n2) =~= blob(r.key) + t3);
    assert(whole.skip(n3) =~= blob(r.value) + t4);
    lemma_read_varint_skip(whole, n1, 253);
    lemma_read_blob_skip(whole, n2);
    lemma_read_blob_skip(whole, n3);
    assert(whole[n4] == flag_byte(r.deleted));
}

/// One record of the log.
#[derive(Debug)]
pub struct Entry {
    crc_checksum: u32,
    timestamp: u64,
    key: Vec<u8>,
    value: Vec<u8>,
    deleted: bool,
}

impl View for Entry {
    type V = Record;

    closed spec fn view(&self) -> Record {
        Record {
            checksum: self.crc_checksum,
            timestamp: self.timestamp,
            key: self.key@,
            value: self.value@,
            deleted: self.deleted,
        }
    }
}

/// The outcome of decoding at a position of a segment.
#[derive(Debug)]
pub enum Decoded {
    /// A record, and the position after it.
    Entry(Entry, usize),
    /// Nothing more can be read: the segment ends here or mid-record.
    EndOfLog,
    /// The bytes are no record, or the checksum does not verify.
    Corruption,
}

impl Decoded {
    /// Whether this outcome is the mathematical one.
    pub open spec fn shows(self, parsed: Parsed) -> bool {
        match self {
            Decoded::Entry(entry, next) => parsed == (Parsed::Entry {
                record: entry@,
                next: next as int,
            }),
            Decoded::EndOfLog => parsed is EndOfLog,
            Decoded::Corruption => parsed is Corrupt,
        }
    }
}

/// `bincode::error::EncodeError`, which `bincode::encode_to_vec` may return.
#[verifier::external_type_specification]
#[verifier::external_body]
pub struct ExEncodeError(EncodeError);

/// Largest number of bytes a record holds besides its key and value.
pub const MAX_OVERHEAD: usize = 33;

/// Calls `bincode::encode_to_vec` with the standard configuration on the five
/// fields of a record. The contract states the documented format of that
/// configuration: little-endian variable-length integers, byte strings with a
/// length prefix, a boolean as one byte, fields in order with nothing between
/// them. It also states that the call succeeds: writing these types into a
/// growing buffer has no failing path. The size bound keeps the length that
/// the call adds up first within `usize`.
#[verifier::external_body]
fn encode_fields(
    checksum: u32,
    timestamp: u64,
    key: &[u8],
    value: &[u8],
    deleted: bool,
) -> (encoded: Result<Vec<u8>, EncodeError>)
    requires
        key@.len() + value@.len() + 33 <= usize::MAX,
    ensures
        encoded is Ok,
        encoded->Ok_0@ == Record::of(checksum, timestamp, key@, value@, deleted).bytes(),
{
    bincode::encode_to_vec((checksum, timestamp, key, value, deleted), bincode::config::standard())
}

/// Appends `src` to `dst`.
pub fn append_bytes(dst: &mut Vec<u8>, src: &[u8])
    ensures
        final(dst)@ == old(dst)@ + src@,
{
    let mut i: usize = 0;
    while i < src.len()
        invariant
            i <= src@.len(),
            dst@ == old(dst)@ + src@.take(i as int),
        decreases src@.len() - i,
    {
        dst.push(src[i]);
        i = i + 1;
    }
    assert(src@.take(src@.len() as int) =~= src@);
}

impl Entry {
    /// A live record of `key` and `value`, stamped with the current time.
    pub fn new(key: Vec<u8>, value: Vec<u8>) -> (entry: Entry)
        ensures
            entry@ == Record::live(entry@.timestamp, key@, value@),
    {
        Entry::with_timestamp(key, value, now_millis())
    }

    /// A live record of `key` and `value` written at `timestamp`.
    pub fn with_timestamp(key: Vec<u8>, value: Vec<u8>, timestamp: u64) -> (entry: Entry)
        ensures
            entry@ == Record::live(timestamp, key@, value@),
    {
        let crc_checksum = Entry::generate_checksum(timestamp, &key, &value);
        Entry { crc_checksum, timestamp, key, value, deleted: false }
    }

    /// The checksum of a record with these fields.
    pub fn generate_checksum(timestamp: u64, key: &Vec<u8>, value: &Vec<u8>) -> (sum: u32)
        ensures
            sum == crc32(checksum_input(timestamp, key@, value@)),
    {
        let mut input: Vec<u8> = u64_to_le_bytes(timestamp);
        append_bytes(&mut input, key.as_slice());
        append_bytes(&mut input, value.as_slice());
        crc32_of(input.as_slice())
    }

    /// The stored checksum.
    pub fn checksum(&self) -> (sum: u32)
        ensures
            sum == self@.checksum,
    {
        self.crc_checksum
    }

    /// Milliseconds since the epoch at which the record was written.
    pub fn timestamp(&self) -> (timestamp: u64)
        ensures
            timestamp == self@.timestamp,
    {
        self.timestamp
    }

    /// The key.
    pub fn key(&self) -> (key: &Vec<u8>)
        ensures
            key@ == self@.key,
    {
        &self.key
    }

    /// The value.
    pub fn value(&self) -> (value: &Vec<u8>)
        ensures
            value@ == self@.value,
    {
        &self.value
    }

    /// Whether the record marks its key as deleted.
    pub fn is_deleted(&self) -> (deleted: bool)
        ensures
            deleted == self@.deleted,
    {
        self.deleted
    }

    /// Gives up the record for its key.
    pub fn into_key(self) -> (key: Vec<u8>)
        ensures
            key@ == self@.key,
    {
        self.key
    }

    /// Gives up the record for its value.
    pub fn into_value(self) -> (value: Vec<u8>)
        ensures
            value@ == self@.value,
    {
        self.value
    }

    /// Whether the binary form can be built: its length fits the machine.
    pub open spec fn fits(self) -> bool {
        self@.key.len() + self@.value.len() + 33 <= usize::MAX
    }

    /// A record that fits the machine is encodable, and the length of its
    /// binary form is its size.
    pub proof fn lemma_size(&self)
        requires
            self.fits(),
        ensures
            self@.encodable(),
            self@.bytes().len() == self@.size(),
            self@.size() <= self@.key.len() + self@.value.len() + 33,
    {
        lemma_bytes_len(self@);
    }

    /// The binary form of the record. Fails with `Io` exactly when the form
    /// would be longer than the machine can address.
    pub fn encode(&self) -> (r: Result<Vec<u8>, Error>)
        ensures
            match r {
                Ok(bytes) => self.fits() && bytes@ == self@.bytes(),
                Err(e) => !self.fits() && e == Error::Io,
            },
    {
        let room: usize = usize::MAX - MAX_OVERHEAD;
        if self.key.len() > room || self.value.len() > room - self.key.len() {
            return Err(Error::Io);
        }
        match encode_fields(
            self.crc_checksum,
            self.timestamp,
            self.key.as_slice(),
            self.value.as_slice(),
            self.deleted,
        ) {
            Ok(bytes) => Ok(bytes),
            Err(_) => Err(Error::Io),
        }
    }

    /// Reads the record that starts at `at` in `data`.
    pub fn decode(data: &[u8], at: usize) -> (d: Decoded)
        ensures
            d.shows(parse_record(data@, at as int)),
            d matches Decoded::Entry(_, next) ==> at < next <= data@.len(),
    {
        let (checksum, at_time) = match decode_varint(data, at, TAG_U32) {
            Read::Short => { return Decoded::EndOfLog; },
            Read::Invalid => { return Decoded::Corruption; },
            Read::Value(v, n) => (v, n),
        };
        let (timestamp, at_key) = match decode_varint(data, at_time, TAG_U64) {
            Read::Short => { return Decoded::EndOfLog; },
            Read::Invalid => { return Decoded::Corruption; },
            Read::Value(v, n) => (v, n),
        };
        let (key, at_value) = match decode_blob(data, at_key) {
            Read::Short => { return Decoded::EndOfLog; },
            Read::Invalid => { return Decoded::Corruption; },
            Read::Value(v, n) => (v, n),
        };
        let (value, at_flag) = match decode_blob(data, at_value) {
            Read::Short => { return Decoded::EndOfLog; },
            Read::Invalid => { return Decoded::Corruption; },
            Read::Value(v, n) => (v, n),
        };
        if at_flag >= data.len() {
            return Decoded::EndOfLog;
        }
        let flag: u8 = data[at_flag];
        if flag > 1 {
            return Decoded::Corruption;
        }
        let sum = Entry::generate_checksum(timestamp, &key, &value);
        if checksum != sum as u64 {
            return Decoded::Corruption;
        }
        Decoded::Entry(
            Entry { crc_checksum: sum, timestamp, key, value, deleted: flag == 1 },
            at_flag + 1,
        )
    }
}

} // verus!
