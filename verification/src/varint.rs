//! Variable-length integers and length-prefixed byte strings, as records hold them.
//!
//! An unsigned integer below 251 is one byte. A larger one is a tag byte
//! (251, 252 or 253) followed by the value in 2, 4 or 8 little-endian bytes,
//! in the narrowest of the three widths that holds it.

use vstd::bytes::*;
use vstd::prelude::*;
use vstd::slice::slice_subrange;

verus! {

/// The largest value that is its own encoding.
pub const SINGLE_BYTE_MAX: u8 = 250;

/// Tag of a 16-bit value.
pub const TAG_U16: u8 = 251;

/// Tag of a 32-bit value.
pub const TAG_U32: u8 = 252;

/// Tag of a 64-bit value.
pub const TAG_U64: u8 = 253;

/// The encoding of `v`.
#[verifier::opaque]
pub open spec fn varint(v: u64) -> Seq<u8> {
    if v <= 250 {
        seq![v as u8]
    } else if v <= 0xFFFF {
        seq![251u8] + spec_u16_to_le_bytes(v as u16)
    } else if v <= 0xFFFF_FFFF {
        seq![252u8] + spec_u32_to_le_bytes(v as u32)
    } else {
        seq![253u8] + spec_u64_to_le_bytes(v)
    }
}

/// The number of bytes in the encoding of `v`.
pub open spec fn varint_len(v: u64) -> int {
    if v <= 250 {
        1
    } else if v <= 0xFFFF {
        3
    } else if v <= 0xFFFF_FFFF {
        5
    } else {
        9
    }
}

/// The encoding of a byte string: its length, then its bytes.
#[verifier::opaque]
pub open spec fn blob(s: Seq<u8>) -> Seq<u8> {
    varint(s.len() as u64) + s
}

/// What reading one field at a position of a byte string gives.
pub enum Field<T> {
    /// The field is complete: its value, and the position after it.
    Value { value: T, next: int },
    /// The input ends before the field does.
    Short,
    /// The bytes are not an encoding of the field.
    Invalid,
}

/// Reads an integer at `at`. `max_tag` is the widest tag the integer's type
/// admits: 252 for 32 bits, 253 for 64 bits.
#[verifier::opaque]
pub open spec fn read_varint(bytes: Seq<u8>, at: int, max_tag: u8) -> Field<u64> {
    if at < 0 || at >= bytes.len() {
        Field::Short
    } else {
        let tag = bytes[at];
        if tag <= 250 {
            Field::Value { value: tag as u64, next: at + 1 }
        } else if tag > max_tag {
            Field::Invalid
        } else if tag == 251 {
            if at + 3 > bytes.len() {
                Field::Short
            } else {
                Field::Value {
                    value: spec_u16_from_le_bytes(bytes.subrange(at + 1, at + 3)) as u64,
                    next: at + 3,
                }
            }
        } else if tag == 252 {
            if at + 5 > bytes.len() {
                Field::Short
            } else {
                Field::Value {
                    value: spec_u32_from_le_bytes(bytes.subrange(at + 1, at + 5)) as u64,
                    next: at + 5,
                }
            }
        } else {
            if at + 9 > bytes.len() {
                Field::Short
            } else {
                Field::Value {
                    value: spec_u64_from_le_bytes(bytes.subrange(at + 1, at + 9)),
                    next: at + 9,
                }
            }
        }
    }
}

/// Reads a length-prefixed byte string at `at`.
#[verifier::opaque]
pub open spec fn read_blob(bytes: Seq<u8>, at: int) -> Field<Seq<u8>> {
    match read_varint(bytes, at, 253) {
        Field::Short => Field::Short,
        Field::Invalid => Field::Invalid,
        Field::Value { value, next } => {
            if next + value > bytes.len() {
                Field::Short
            } else {
                Field::Value { value: bytes.subrange(next, next + value), next: next + value }
            }
        },
    }
}

/// A read result moved `by` positions to the right.
pub open spec fn shifted<T>(f: Field<T>, by: int) -> Field<T> {
    match f {
        Field::Value { value, next } => Field::Value { value, next: next + by },
        Field::Short => Field::Short,
        Field::Invalid => Field::Invalid,
    }
}

/// Reading at `at` is reading at the start of what follows `at`.
pub proof fn lemma_read_varint_skip(bytes: Seq<u8>, at: int, max_tag: u8)
    requires
        0 <= at <= bytes.len(),
    ensures
        read_varint(bytes, at, max_tag) == shifted(read_varint(bytes.skip(at), 0, max_tag), at),
{
    reveal(read_varint);
    let tail = bytes.skip(at);
    if at < bytes.len() {
        assert(tail[0] == bytes[at]);
        if at + 3 <= bytes.len() {
            assert(tail.subrange(1, 3) =~= bytes.subrange(at + 1, at + 3));
        }
        if at + 5 <= bytes.len() {
            assert(tail.subrange(1, 5) =~= bytes.subrange(at + 1, at + 5));
        }
        if at + 9 <= bytes.len() {
            assert(tail.subrange(1, 9) =~= bytes.subrange(at + 1, at + 9));
        }
    }
}

/// A complete integer reads the same in every byte string that agrees on its bytes.
pub proof fn lemma_read_varint_agree(a: Seq<u8>, b: Seq<u8>, at: int, max_tag: u8)
    requires
        read_varint(a, at, max_tag) is Value,
        read_varint(a, at, max_tag)->next <= b.len(),
        forall|i: int| at <= i < read_varint(a, at, max_tag)->next ==> a[i] == b[i],
    ensures
        read_varint(b, at, max_tag) == read_varint(a, at, max_tag),
{
    reveal(read_varint);
    let next = read_varint(a, at, max_tag)->next;
    assert(a[at] == b[at]);
    if next == at + 3 {
        assert(a.subrange(at + 1, at + 3) =~= b.subrange(at + 1, at + 3));
    } else if next == at + 5 {
        assert(a.subrange(at + 1, at + 5) =~= b.subrange(at + 1, at + 5));
    } else if next == at + 9 {
        assert(a.subrange(at + 1, at + 9) =~= b.subrange(at + 1, at + 9));
    }
}

/// A complete integer ends after it starts and within the input.
pub proof fn lemma_read_varint_bounds(bytes: Seq<u8>, at: int, max_tag: u8)
    requires
        read_varint(bytes, at, max_tag) is Value,
    ensures
        0 <= at < read_varint(bytes, at, max_tag)->next <= bytes.len(),
        max_tag == 252 ==> read_varint(bytes, at, max_tag)->value <= 0xFFFF_FFFF,
{
    reveal(read_varint);
}

/// A complete byte string ends after it starts and within the input.
pub proof fn lemma_read_blob_bounds(bytes: Seq<u8>, at: int)
    requires
        read_blob(bytes, at) is Value,
    ensures
        0 <= at < read_blob(bytes, at)->next <= bytes.len(),
        read_blob(bytes, at)->value.len() <= u64::MAX,
{
    reveal(read_blob);
    lemma_read_varint_bounds(bytes, at, 253);
}

/// Reading an integer from the first `c` bytes of an input gives what
/// reading from the whole gives where the integer ends within them, and
/// finds the input short where it does not.
pub proof fn lemma_read_varint_take(bytes: Seq<u8>, at: int, max_tag: u8, c: int)
    requires
        0 <= at,
        0 <= c <= bytes.len(),
    ensures
        match read_varint(bytes, at, max_tag) {
            Field::Value { value, next } => if next <= c {
                read_varint(bytes.take(c), at, max_tag) == read_varint(bytes, at, max_tag)
            } else {
                read_varint(bytes.take(c), at, max_tag) is Short
            },
            Field::Short => read_varint(bytes.take(c), at, max_tag) is Short,
            Field::Invalid => !(read_varint(bytes.take(c), at, max_tag) is Value),
        },
{
    reveal(read_varint);
    let cut = bytes.take(c);
    if at < c {
        assert(cut[at] == bytes[at]);
        if at + 3 <= c {
            assert(cut.subrange(at + 1, at + 3) =~= bytes.subrange(at + 1, at + 3));
        }
        if at + 5 <= c {
            assert(cut.subrange(at + 1, at + 5) =~= bytes.subrange(at + 1, at + 5));
        }
        if at + 9 <= c {
            assert(cut.subrange(at + 1, at + 9) =~= bytes.subrange(at + 1, at + 9));
        }
    }
}

/// Reading a byte string from the first `c` bytes of an input gives what
/// reading from the whole gives where the string ends within them, and
/// finds the input short where it does not.
pub proof fn lemma_read_blob_take(bytes: Seq<u8>, at: int, c: int)
    requires
        0 <= at,
        0 <= c <= bytes.len(),
    ensures
        match read_blob(bytes, at) {
            Field::Value { value, next } => if next <= c {
                read_blob(bytes.take(c), at) == read_blob(bytes, at)
            } else {
                read_blob(bytes.take(c), at) is Short
            },
            Field::Short => read_blob(bytes.take(c), at) is Short,
            Field::Invalid => !(read_blob(bytes.take(c), at) is Value),
        },
{
    reveal(read_blob);
    lemma_read_varint_take(bytes, at, 253, c);
    let cut = bytes.take(c);
    if let Field::Value { value, next } = read_varint(bytes, at, 253) {
        lemma_read_varint_bounds(bytes, at, 253);
        if next + value <= c {
            assert(cut.subrange(next, next + value) =~= bytes.subrange(next, next + value));
        }
    }
}

/// Whether an integer of a type with the given widest tag can hold `v`.
pub open spec fn fits_tag(v: u64, max_tag: u8) -> bool {
    max_tag == 253 || (max_tag == 252 && v <= 0xFFFF_FFFF)
}

/// An encoded integer reads back as itself, whatever follows it.
pub proof fn lemma_varint_reads_back(v: u64, rest: Seq<u8>, max_tag: u8)
    requires
        fits_tag(v, max_tag),
    ensures
        varint(v).len() == varint_len(v),
        read_varint(varint(v) + rest, 0, max_tag) == (Field::Value {
            value: v,
            next: varint_len(v),
        }),
{
    reveal(read_varint);
    reveal(varint);
    let whole = varint(v) + rest;
    lemma_auto_spec_u16_to_from_le_bytes();
    lemma_auto_spec_u32_to_from_le_bytes();
    lemma_auto_spec_u64_to_from_le_bytes();
    assert(whole[0] == varint(v)[0]);
    if v <= 250 {
    } else if v <= 0xFFFF {
        assert(whole.subrange(1, 3) =~= spec_u16_to_le_bytes(v as u16));
    } else if v <= 0xFFFF_FFFF {
        assert(whole.subrange(1, 5) =~= spec_u32_to_le_bytes(v as u32));
    } else {
        assert(whole.subrange(1, 9) =~= spec_u64_to_le_bytes(v));
    }
}

/// Reading at `at` is reading at the start of what follows `at`.
pub proof fn lemma_read_blob_skip(bytes: Seq<u8>, at: int)
    requires
        0 <= at <= bytes.len(),
    ensures
        read_blob(bytes, at) == shifted(read_blob(bytes.skip(at), 0), at),
{
    reveal(read_blob);
    lemma_read_varint_skip(bytes, at, 253);
    let tail = bytes.skip(at);
    match read_varint(tail, 0, 253) {
        Field::Value { value, next } => {
            lemma_read_varint_bounds(tail, 0, 253);
            if next + value <= tail.len() {
                assert(tail.subrange(next, next + value) =~= bytes.subrange(
                    next + at,
                    next + at + value,
                ));
            }
        },
        _ => {},
    }
}

/// A complete byte string reads the same in every input that agrees on its bytes.
pub proof fn lemma_read_blob_agree(a: Seq<u8>, b: Seq<u8>, at: int)
    requires
        read_blob(a, at) is Value,
        read_blob(a, at)->next <= b.len(),
        forall|i: int| at <= i < read_blob(a, at)->next ==> a[i] == b[i],
    ensures
        read_blob(b, at) == read_blob(a, at),
{
    reveal(read_blob);
    let start = read_varint(a, at, 253)->next;
    let len = read_varint(a, at, 253)->value;
    lemma_read_varint_bounds(a, at, 253);
    lemma_read_varint_agree(a, b, at, 253);
    assert(a.subrange(start, start + len) =~= b.subrange(start, start + len));
}

/// An encoded byte string reads back as itself, whatever follows it.
pub proof fn lemma_blob_reads_back(s: Seq<u8>, rest: Seq<u8>)
    requires
        s.len() <= u64::MAX,
    ensures
        blob(s).len() == varint_len(s.len() as u64) + s.len(),
        read_blob(blob(s) + rest, 0) == (Field::Value { value: s, next: blob(s).len() as int }),
{
    reveal(read_blob);
    reveal(blob);
    let n = s.len() as u64;
    let whole = blob(s) + rest;
    lemma_varint_reads_back(n, s + rest, 253);
    assert(whole =~= varint(n) + (s + rest));
    assert(whole.subrange(varint_len(n), varint_len(n) + n) =~= s);
}

/// The outcome of reading one field from a slice.
pub enum Read<T> {
    /// The value, and the position after it.
    Value(T, usize),
    /// The slice ends before the field does.
    Short,
    /// The bytes are not an encoding of the field.
    Invalid,
}

/// Whether an executable read result is the given mathematical one.
pub open spec fn same_int(r: Read<u64>, f: Field<u64>) -> bool {
    match r {
        Read::Value(v, n) => f == (Field::Value { value: v, next: n as int }),
        Read::Short => f is Short,
        Read::Invalid => f is Invalid,
    }
}

/// Whether an executable read result is the given mathematical one.
pub open spec fn same_blob(r: Read<Vec<u8>>, f: Field<Seq<u8>>) -> bool {
    match r {
        Read::Value(v, n) => f == (Field::Value { value: v@, next: n as int }),
        Read::Short => f is Short,
        Read::Invalid => f is Invalid,
    }
}

/// Reads an integer at `at`.
pub fn decode_varint(data: &[u8], at: usize, max_tag: u8) -> (r: Read<u64>)
    ensures
        same_int(r, read_varint(data@, at as int, max_tag)),
        r matches Read::Value(_, n) ==> at < n <= data@.len(),
{
    proof {
        reveal(read_varint);
    }
    if at >= data.len() {
        return Read::Short;
    }
    let tag: u8 = data[at];
    let rest: usize = data.len() - at;
    if tag <= SINGLE_BYTE_MAX {
        Read::Value(tag as u64, at + 1)
    } else if tag > max_tag {
        Read::Invalid
    } else if tag == TAG_U16 {
        if rest < 3 {
            Read::Short
        } else {
            let v: u16 = u16_from_le_bytes(slice_subrange(data, at + 1, at + 3));
            Read::Value(v as u64, at + 3)
        }
    } else if tag == TAG_U32 {
        if rest < 5 {
            Read::Short
        } else {
            let v: u32 = u32_from_le_bytes(slice_subrange(data, at + 1, at + 5));
            Read::Value(v as u64, at + 5)
        }
    } else {
        if rest < 9 {
            Read::Short
        } else {
            let v: u64 = u64_from_le_bytes(slice_subrange(data, at + 1, at + 9));
            Read::Value(v, at + 9)
        }
    }
}

/// Copies `data[from..to]` into a vector of its own.
pub fn copy_range(data: &[u8], from: usize, to: usize) -> (out: Vec<u8>)
    requires
        from <= to <= data@.len(),
    ensures
        out@ == data@.subrange(from as int, to as int),
{
    let mut out: Vec<u8> = Vec::new();
    let mut i: usize = from;
    while i < to
        invariant
            from <= i <= to <= data@.len(),
            out@ == data@.subrange(from as int, i as int),
        decreases to - i,
    {
        out.push(data[i]);
        i = i + 1;
    }
    out
}

/// Reads a length-prefixed byte string at `at`.
pub fn decode_blob(data: &[u8], at: usize) -> (r: Read<Vec<u8>>)
    ensures
        same_blob(r, read_blob(data@, at as int)),
        r matches Read::Value(_, n) ==> at < n <= data@.len(),
{
    proof {
        reveal(read_blob);
    }
    match decode_varint(data, at, TAG_U64) {
        Read::Short => Read::Short,
        Read::Invalid => Read::Invalid,
        Read::Value(len, start) => {
            let rest: usize = data.len() - start;
            if len > rest as u64 {
                Read::Short
            } else {
                let n: usize = len as usize;
                Read::Value(copy_range(data, start, start + n), start + n)
            }
        },
    }
}

} // verus!
