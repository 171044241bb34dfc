use vstd::prelude::*;
use vstd::utf8::*;
use vstd::string::StringSliceAdditionalSpecFns;

use crate::error::StorageError;

verus! {

broadcast use vstd::array::group_array_axioms;

/// Largest key, in bytes, that an index record can hold.
pub const MAX_KEY_SIZE: usize = 128;

/// Width of one encoded index record: key size, key buffer, start, data size
/// and segment number, each integer as eight little-endian bytes.
pub const OFFSET_SIZE: usize = 160;

/// Where the payload of one key lives: which payload segment, at which byte,
/// and how many bytes.
#[derive(Debug, Clone, Copy, PartialEq, Eq)]
pub struct Offset {
    key_size: usize,
    key: [u8; MAX_KEY_SIZE],
    start: usize,
    data_size: usize,
    segment_count: usize,
}

/// The meaning of an index record: its key bytes and its location.
pub struct OffsetView {
    pub key: Seq<u8>,
    pub start: usize,
    pub data_size: usize,
    pub segment_count: usize,
}

/// A record is meaningful when its key fits the key buffer and is UTF-8 text.
pub open spec fn valid_record(r: OffsetView) -> bool {
    r.key.len() <= MAX_KEY_SIZE && valid_utf8(r.key)
}

/// Eight little-endian bytes of `v`.
pub open spec fn le8(v: u64) -> Seq<u8> {
    seq![
        (v & 0xff) as u8,
        ((v >> 8u64) & 0xff) as u8,
        ((v >> 16u64) & 0xff) as u8,
        ((v >> 24u64) & 0xff) as u8,
        ((v >> 32u64) & 0xff) as u8,
        ((v >> 40u64) & 0xff) as u8,
        ((v >> 48u64) & 0xff) as u8,
        ((v >> 56u64) & 0xff) as u8,
    ]
}

/// The integer held by eight little-endian bytes starting at `at`.
pub open spec fn le_value(b: Seq<u8>, at: int) -> u64 {
    (b[at] as u64) | ((b[at + 1] as u64) << 8u64) | ((b[at + 2] as u64) << 16u64) | ((b[at
        + 3] as u64) << 24u64) | ((b[at + 4] as u64) << 32u64) | ((b[at + 5] as u64) << 40u64)
        | ((b[at + 6] as u64) << 48u64) | ((b[at + 7] as u64) << 56u64)
}

/// The on-disk bytes of a record: key size, key zero-padded to the buffer
/// width, start, data size, segment number.
pub open spec fn encode_record(r: OffsetView) -> Seq<u8> {
    le8(r.key.len() as u64) + r.key + Seq::new((MAX_KEY_SIZE - r.key.len()) as nat, |i: int| 0u8)
        + le8(r.start as u64) + le8(r.data_size as u64) + le8(r.segment_count as u64)
}

/// The record held by one record-width chunk, if its key is well formed.
/// Bytes of the key buffer past the key size are not read.
#[verifier::opaque]
pub open spec fn decode_record(b: Seq<u8>) -> Option<OffsetView> {
    let key_size = le_value(b, 0);
    if b.len() == OFFSET_SIZE && key_size <= MAX_KEY_SIZE && valid_utf8(
        b.subrange(8, 8 + key_size),
    ) {
        Some(
            OffsetView {
                key: b.subrange(8, 8 + key_size),
                start: le_value(b, 136) as usize,
                data_size: le_value(b, 144) as usize,
                segment_count: le_value(b, 152) as usize,
            },
        )
    } else {
        None
    }
}

/// The encoding of a list of records, one after the other.
pub open spec fn encode_records(rs: Seq<OffsetView>) -> Seq<u8>
    decreases rs.len(),
{
    if rs.len() == 0 {
        Seq::empty()
    } else {
        encode_records(rs.drop_last()) + encode_record(rs.last())
    }
}

pub proof fn lemma_le8_round_trip(v: u64)
    ensures
        le_value(le8(v), 0) == v,
{
    let b = le8(v);
    assert(b[0] == (v & 0xff) as u8);
    assert(b[1] == ((v >> 8u64) & 0xff) as u8);
    assert(b[2] == ((v >> 16u64) & 0xff) as u8);
    assert(b[3] == ((v >> 24u64) & 0xff) as u8);
    assert(b[4] == ((v >> 32u64) & 0xff) as u8);
    assert(b[5] == ((v >> 40u64) & 0xff) as u8);
    assert(b[6] == ((v >> 48u64) & 0xff) as u8);
    assert(b[7] == ((v >> 56u64) & 0xff) as u8);
    assert((((v & 0xff) as u8) as u64) | (((((v >> 8u64) & 0xff) as u8) as u64) << 8u64) | (((((v
        >> 16u64) & 0xff) as u8) as u64) << 16u64) | (((((v >> 24u64) & 0xff) as u8) as u64)
        << 24u64) | (((((v >> 32u64) & 0xff) as u8) as u64) << 32u64) | (((((v >> 40u64) & 0xff)
        as u8) as u64) << 40u64) | (((((v >> 48u64) & 0xff) as u8) as u64) << 48u64) | (((((v
        >> 56u64) & 0xff) as u8) as u64) << 56u64) == v) by (bit_vector);
}

/// A record survives encoding followed by decoding: every field comes back.
pub proof fn lemma_record_round_trip(r: OffsetView)
    requires
        valid_record(r),
    ensures
        encode_record(r).len() == OFFSET_SIZE,
        decode_record(encode_record(r)) == Some(r),
{
    reveal(decode_record);
    let b = encode_record(r);
    let ks = r.key.len();
    lemma_le8_round_trip(ks as u64);
    lemma_le8_round_trip(r.start as u64);
    lemma_le8_round_trip(r.data_size as u64);
    lemma_le8_round_trip(r.segment_count as u64);
    assert(b.len() == OFFSET_SIZE);
    assert(b.subrange(0, 8) =~= le8(ks as u64));
    assert(b.subrange(136, 144) =~= le8(r.start as u64));
    assert(b.subrange(144, 152) =~= le8(r.data_size as u64));
    assert(b.subrange(152, 160) =~= le8(r.segment_count as u64));
    assert(le_value(b, 0) == le_value(b.subrange(0, 8), 0));
    assert(le_value(b, 136) == le_value(b.subrange(136, 144), 0));
    assert(le_value(b, 144) == le_value(b.subrange(144, 152), 0));
    assert(le_value(b, 152) == le_value(b.subrange(152, 160), 0));
    assert(b.subrange(8, 8 + ks as int) =~= r.key);
}

/// Appends the eight little-endian bytes of `v`.
fn push_le8(out: &mut Vec<u8>, v: u64)
    ensures
        final(out)@ == old(out)@ + le8(v),
{
    out.push((v & 0xff) as u8);
    out.push(((v >> 8) & 0xff) as u8);
    out.push(((v >> 16) & 0xff) as u8);
    out.push(((v >> 24) & 0xff) as u8);
    out.push(((v >> 32) & 0xff) as u8);
    out.push(((v >> 40) & 0xff) as u8);
    out.push(((v >> 48) & 0xff) as u8);
    out.push(((v >> 56) & 0xff) as u8);
    assert(final(out)@ =~= old(out)@ + le8(v));
}

/// Reads eight little-endian bytes at `at`.
fn read_le8(b: &[u8], at: usize) -> (r: u64)
    requires
        at + 8 <= b@.len(),
    ensures
        r == le_value(b@, at as int),
{
    (b[at] as u64) | ((b[at + 1] as u64) << 8) | ((b[at + 2] as u64) << 16) | ((b[at + 3] as u64)
        << 24) | ((b[at + 4] as u64) << 32) | ((b[at + 5] as u64) << 40) | ((b[at + 6] as u64)
        << 48) | ((b[at + 7] as u64) << 56)
}

/// Relies on std::str::from_utf8: it succeeds exactly on well-formed UTF-8,
/// and the text it returns is made of the given bytes.
#[verifier::external_body]
fn text_of(b: &[u8]) -> (r: Option<&str>)
    ensures
        r is Some <==> valid_utf8(b@),
        r matches Some(s) ==> s.spec_bytes() == b@,
{
    std::str::from_utf8(b).ok()
}

impl View for Offset {
    type V = OffsetView;

    closed spec fn view(&self) -> OffsetView {
        OffsetView {
            key: self.key@.subrange(0, self.key_size as int),
            start: self.start,
            data_size: self.data_size,
            segment_count: self.segment_count,
        }
    }
}

impl Offset {
    /// The key fits the buffer, is text, and the buffer is zero past it.
    pub closed spec fn wf(&self) -> bool {
        &&& self.key_size <= MAX_KEY_SIZE
        &&& valid_utf8(self.key@.subrange(0, self.key_size as int))
        &&& forall|i: int| self.key_size <= i < MAX_KEY_SIZE ==> self.key@[i] == 0u8
    }

    pub proof fn lemma_wf_valid(&self)
        requires
            self.wf(),
        ensures
            valid_record(self@),
    {
    }

    /// Builds a record from a key and a location, trusting its arguments.
    fn build(k: &[u8], start: usize, data_size: usize, segment_count: usize) -> (r: Offset)
        requires
            k@.len() <= MAX_KEY_SIZE,
            valid_utf8(k@),
        ensures
            r.wf(),
            r@ == (OffsetView { key: k@, start, data_size, segment_count }),
    {
        let mut key = [0u8; MAX_KEY_SIZE];
        let mut i: usize = 0;
        while i < k.len()
            invariant
                k@.len() <= MAX_KEY_SIZE,
                i <= k@.len(),
                forall|j: int| 0 <= j < i ==> key@[j] == k@[j],
                forall|j: int| i <= j < MAX_KEY_SIZE ==> key@[j] == 0u8,
            decreases k@.len() - i,
        {
            key[i] = k[i];
            i += 1;
        }
        assert(key@.subrange(0, k@.len() as int) =~= k@);
        Offset { key_size: k.len(), key, start, data_size, segment_count }
    }

    /// A record for `k` covering bytes `start..end` of payload segment
    /// `segment_count`; the key must fit and the range must not be empty.
    pub fn new(k: &str, start: usize, end: usize, segment_count: usize) -> (r: Result<
        Offset,
        StorageError,
    >)
        ensures
            k.spec_bytes().len() > MAX_KEY_SIZE ==> r == Err::<Offset, StorageError>(
                StorageError::KeyTooLong { size: k.spec_bytes().len() as usize },
            ),
            k.spec_bytes().len() <= MAX_KEY_SIZE && start >= end ==> r == Err::<
                Offset,
                StorageError,
            >(StorageError::InvalidRange { start, end }),
            k.spec_bytes().len() <= MAX_KEY_SIZE && start < end ==> r is Ok,
            r matches Ok(o) ==> o.wf() && o@ == (OffsetView {
                key: k.spec_bytes(),
                start,
                data_size: (end - start) as usize,
                segment_count,
            }),
    {
        let bytes = k.as_bytes();
        if bytes.len() > MAX_KEY_SIZE {
            return Err(StorageError::KeyTooLong { size: bytes.len() });
        }
        if start >= end {
            return Err(StorageError::InvalidRange { start, end });
        }
        proof {
            encode_utf8_valid_utf8(k@);
        }
        Ok(Offset::build(bytes, start, end - start, segment_count))
    }

    /// A record for `k` with a known data size, as read back from disk.
    pub fn from(k: &str, start: usize, data_size: usize, segment_count: usize) -> (r: Offset)
        requires
            k.spec_bytes().len() <= MAX_KEY_SIZE,
        ensures
            r.wf(),
            r@ == (OffsetView { key: k.spec_bytes(), start, data_size, segment_count }),
    {
        proof {
            encode_utf8_valid_utf8(k@);
        }
        Offset::build(k.as_bytes(), start, data_size, segment_count)
    }

    /// The fixed-width on-disk encoding of this record.
    pub fn as_bytes(&self) -> (r: Vec<u8>)
        requires
            self.wf(),
        ensures
            r@ == encode_record(self@),
            r@.len() == OFFSET_SIZE,
    {
        let mut out: Vec<u8> = Vec::with_capacity(OFFSET_SIZE);
        push_le8(&mut out, self.key_size as u64);
        let mut i: usize = 0;
        while i < MAX_KEY_SIZE
            invariant
                self.wf(),
                i <= MAX_KEY_SIZE,
                out@ =~= le8(self.key_size as u64) + self.key@.subrange(0, i as int),
            decreases MAX_KEY_SIZE - i,
        {
            out.push(self.key[i]);
            i += 1;
            assert(out@ =~= le8(self.key_size as u64) + self.key@.subrange(0, i as int));
        }
        assert(self.key@.subrange(0, MAX_KEY_SIZE as int) =~= self@.key + Seq::new(
            (MAX_KEY_SIZE - self@.key.len()) as nat,
            |i: int| 0u8,
        ));
        push_le8(&mut out, self.start as u64);
        push_le8(&mut out, self.data_size as u64);
        push_le8(&mut out, self.segment_count as u64);
        assert(out@ =~= encode_record(self@));
        out
    }

    /// Decodes one record-width chunk; `None` where the key size is out of
    /// range or the key is not UTF-8 text.
    pub fn from_bytes(b: &[u8]) -> (r: Option<Offset>)
        requires
            b@.len() == OFFSET_SIZE,
        ensures
            decode_record(b@) is None ==> r is None,
            decode_record(b@) matches Some(v) ==> r matches Some(o) && o.wf() && o@ == v,
    {
        reveal(decode_record);
        let key_size = read_le8(b, 0);
        if key_size > MAX_KEY_SIZE as u64 {
            return None;
        }
        let ks = key_size as usize;
        let key = vstd::slice::slice_subrange(b, 8, 8 + ks);
        if text_of(key).is_none() {
            return None;
        }
        let start = read_le8(b, 136) as usize;
        let data_size = read_le8(b, 144) as usize;
        let segment_count = read_le8(b, 152) as usize;
        Some(Offset::build(key, start, data_size, segment_count))
    }

    pub fn start(&self) -> (r: usize)
        ensures
            r == self@.start,
    {
        self.start
    }

    pub fn data_size(&self) -> (r: usize)
        ensures
            r == self@.data_size,
    {
        self.data_size
    }

    pub fn segment_count(&self) -> (r: usize)
        ensures
            r == self@.segment_count,
    {
        self.segment_count
    }

    /// The key bytes, without the padding.
    pub fn key_bytes(&self) -> (r: &[u8])
        requires
            self.wf(),
        ensures
            r@ == self@.key,
    {
        vstd::slice::slice_subrange(self.key.as_slice(), 0, self.key_size)
    }

    /// The key as text.
    pub fn key(&self) -> (r: String)
        requires
            self.wf(),
        ensures
            encode_utf8(r@) == self@.key,
            r@ == decode_utf8(self@.key),
    {
        let bytes = self.key_bytes();
        let s: &str = text_of(bytes).unwrap();
        proof {
            encode_utf8_decode_utf8(s@);
        }
        s.to_owned()
    }
}

} // verus!
