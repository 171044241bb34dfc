use vstd::prelude::*;
use vstd::string::StringSliceAdditionalSpecFns;

use crate::error::StorageError;
use crate::offset::{
    encode_record, encode_records, valid_record, Offset, OffsetView, MAX_KEY_SIZE, OFFSET_SIZE,
};

verus! {

/// Capacity of the write buffer of a batch, in bytes.
pub const MAX_BATCH_SIZE: usize = 16384;

/// What `Batch::add` made of an entry.
#[derive(Debug, Clone, Copy, PartialEq, Eq, Structural)]
pub enum BatchState {
    /// The entry does not fit: flush the batch and add it again.
    ShouldFlush,
    /// The entry was buffered.
    Allowable,
}

/// The entries of a batch as handed to the disk: payload bytes and records.
#[derive(Debug)]
pub struct Prune<'a> {
    pub buffer: &'a [u8],
    pub offsets: &'a [Offset],
}

/// The contents of a batch.
pub struct BatchView {
    /// The payload bytes accumulated so far, in order.
    pub bytes: Seq<u8>,
    /// One record per accumulated entry, in order.
    pub records: Seq<OffsetView>,
    /// Number of entries held.
    pub entries: nat,
    /// Position reached within the current payload segment.
    pub segment_size: usize,
    /// Segment marker that the next entry is compared against.
    pub segment_count: usize,
}

/// Sum of the data sizes of the records.
pub open spec fn total_size(rs: Seq<OffsetView>) -> nat
    decreases rs.len(),
{
    if rs.len() == 0 {
        0
    } else {
        total_size(rs.drop_last()) + rs.last().data_size as nat
    }
}

impl BatchView {
    /// Bytes and records agree, the buffer is not full, every record is valid.
    pub open spec fn consistent(self) -> bool {
        &&& self.bytes.len() == total_size(self.records)
        &&& self.bytes.len() < MAX_BATCH_SIZE
        &&& self.entries == self.records.len()
        &&& forall|i: int| 0 <= i < self.records.len() ==> valid_record(#[trigger] self.records[i])
    }

    /// Where within the payload segment the next entry starts, given the
    /// segment number reported by the segment manager: a new segment number
    /// starts over at zero.
    pub open spec fn next_start(self, latest_segment_count: usize) -> usize {
        if latest_segment_count != self.segment_count {
            0
        } else {
            self.segment_size
        }
    }

    /// The outcome of adding an entry with key bytes `key` and `len` payload
    /// bytes.
    pub open spec fn add_outcome(self, key: Seq<u8>, len: nat, latest_segment_count: usize) -> Result<
        BatchState,
        StorageError,
    > {
        let start = self.next_start(latest_segment_count);
        if self.bytes.len() + len >= MAX_BATCH_SIZE {
            Ok(BatchState::ShouldFlush)
        } else if start + len > usize::MAX {
            Err(StorageError::PositionOverflow { start, size: len as usize })
        } else if key.len() > MAX_KEY_SIZE {
            Err(StorageError::KeyTooLong { size: key.len() as usize })
        } else if len == 0 {
            Err(StorageError::InvalidRange { start, end: start })
        } else {
            Ok(BatchState::Allowable)
        }
    }

    /// The batch after a successful add. The segment marker takes the
    /// reported segment size whenever the reported segment number differs
    /// from it.
    pub open spec fn added(
        self,
        key: Seq<u8>,
        payload: Seq<u8>,
        latest_segment_count: usize,
        latest_segment_size: usize,
    ) -> BatchView {
        let start = self.next_start(latest_segment_count);
        BatchView {
            bytes: self.bytes + payload,
            records: self.records.push(
                OffsetView {
                    key,
                    start,
                    data_size: payload.len() as usize,
                    segment_count: latest_segment_count,
                },
            ),
            entries: self.entries + 1,
            segment_size: (start + payload.len()) as usize,
            segment_count: if latest_segment_count != self.segment_count {
                latest_segment_size
            } else {
                self.segment_count
            },
        }
    }

    /// The batch after a reset: empty, with its segment position kept.
    pub open spec fn cleared(self) -> BatchView {
        BatchView {
            bytes: Seq::empty(),
            records: Seq::empty(),
            entries: 0,
            segment_size: self.segment_size,
            segment_count: self.segment_count,
        }
    }
}

/// An entry refused for want of room fits once the batch has been emptied,
/// as long as the entry alone is smaller than the buffer.
pub proof fn lemma_retry_after_flush(
    v: BatchView,
    key: Seq<u8>,
    len: nat,
    latest_segment_count: usize,
)
    requires
        v.add_outcome(key, len, latest_segment_count) == Ok::<BatchState, StorageError>(
            BatchState::ShouldFlush,
        ),
        len < MAX_BATCH_SIZE,
        0 < len,
        key.len() <= MAX_KEY_SIZE,
        v.next_start(latest_segment_count) + len <= usize::MAX,
    ensures
        v.cleared().add_outcome(key, len, latest_segment_count) == Ok::<BatchState, StorageError>(
            BatchState::Allowable,
        ),
{
}

/// After a successful add, the last record describes exactly the bytes of
/// the new payload within the batch.
pub proof fn lemma_added_payload(
    v: BatchView,
    key: Seq<u8>,
    payload: Seq<u8>,
    latest_segment_count: usize,
    latest_segment_size: usize,
)
    requires
        v.consistent(),
        v.add_outcome(key, payload.len(), latest_segment_count) == Ok::<BatchState, StorageError>(
            BatchState::Allowable,
        ),
    ensures
        ({
            let w = v.added(key, payload, latest_segment_count, latest_segment_size);
            &&& w.bytes.subrange(total_size(v.records) as int, w.bytes.len() as int) == payload
            &&& w.records.last().data_size == payload.len()
            &&& w.records.last().start == v.next_start(latest_segment_count)
        }),
{
    let w = v.added(key, payload, latest_segment_count, latest_segment_size);
    assert(w.bytes.subrange(total_size(v.records) as int, w.bytes.len() as int) =~= payload);
}

impl<'a> Prune<'a> {
    pub open spec fn wf(&self) -> bool {
        forall|i: int| 0 <= i < self.offsets@.len() ==> (#[trigger] self.offsets@[i]).wf()
    }

    /// The records as views.
    pub open spec fn records(&self) -> Seq<OffsetView> {
        self.offsets@.map_values(|o: Offset| o@)
    }

    /// The encoding of every record, one after the other.
    pub fn offsets_as_bytes(&self) -> (r: Vec<u8>)
        requires
            self.wf(),
        ensures
            r@ == encode_records(self.records()),
            r@.len() == self.offsets@.len() * OFFSET_SIZE,
    {
        let mut out: Vec<u8> = Vec::new();
        let mut i: usize = 0;
        while i < self.offsets.len()
            invariant
                self.wf(),
                i <= self.offsets@.len(),
                out@ == encode_records(self.records().subrange(0, i as int)),
                out@.len() == i * OFFSET_SIZE,
            decreases self.offsets@.len() - i,
        {
            let bytes = self.offsets[i].as_bytes();
            let ghost before = out@;
            let mut j: usize = 0;
            while j < bytes.len()
                invariant
                    j <= bytes@.len(),
                    out@ == before + bytes@.subrange(0, j as int),
                decreases bytes@.len() - j,
            {
                out.push(bytes[j]);
                j += 1;
                assert(out@ =~= before + bytes@.subrange(0, j as int));
            }
            assert(bytes@.subrange(0, bytes@.len() as int) =~= bytes@);
            let ghost rs = self.records().subrange(0, i + 1);
            assert(rs.drop_last() =~= self.records().subrange(0, i as int));
            assert(rs.last() == self.offsets@[i as int]@);
            i += 1;
            assert(out@ =~= encode_records(self.records().subrange(0, i as int)));
        }
        assert(self.records().subrange(0, i as int) =~= self.records());
        out
    }

    /// The payload bytes of the batch.
    pub fn buffer_as_bytes(&self) -> (r: &[u8])
        ensures
            r@ == self.buffer@,
    {
        self.buffer
    }
}

/// A bounded write buffer with one record per buffered entry.
#[derive(Debug)]
pub struct Batch {
    buffer: Vec<u8>,
    offsets: Vec<Offset>,
    current_batch_size: usize,
    current_batch_index: usize,
    current_segment_size: usize,
    current_segment_count: usize,
}

impl View for Batch {
    type V = BatchView;

    closed spec fn view(&self) -> BatchView {
        BatchView {
            bytes: self.buffer@.subrange(0, self.current_batch_size as int),
            records: self.offsets@.map_values(|o: Offset| o@),
            entries: self.current_batch_index as nat,
            segment_size: self.current_segment_size,
            segment_count: self.current_segment_count,
        }
    }
}

impl Batch {
    pub closed spec fn wf(&self) -> bool {
        &&& self.buffer@.len() == MAX_BATCH_SIZE
        &&& self.current_batch_size < MAX_BATCH_SIZE
        &&& forall|i: int| 0 <= i < self.offsets@.len() ==> (#[trigger] self.offsets@[i]).wf()
        &&& self@.consistent()
    }

    pub proof fn lemma_consistent(&self)
        requires
            self.wf(),
        ensures
            self@.consistent(),
    {
    }

    /// An empty batch at the start of segment zero.
    pub fn new() -> (r: Batch)
        ensures
            r.wf(),
            r@ == (BatchView {
                bytes: Seq::empty(),
                records: Seq::empty(),
                entries: 0,
                segment_size: 0,
                segment_count: 0,
            }),
    {
        let r = Batch {
            buffer: vec![0u8; MAX_BATCH_SIZE],
            offsets: Vec::with_capacity(1024),
            current_batch_size: 0,
            current_batch_index: 0,
            current_segment_size: 0,
            current_segment_count: 0,
        };
        assert(r@.bytes =~= Seq::<u8>::empty());
        assert(r@.records =~= Seq::<OffsetView>::empty());
        r
    }

    /// Buffers `buf` under `key`, placed in payload segment
    /// `latest_segment_count`. Nothing changes unless the entry is buffered.
    pub fn add(
        &mut self,
        key: &str,
        buf: &[u8],
        latest_segment_count: usize,
        latest_segment_size: usize,
    ) -> (r: Result<BatchState, StorageError>)
        requires
            old(self).wf(),
        ensures
            final(self).wf(),
            r == old(self)@.add_outcome(key.spec_bytes(), buf@.len(), latest_segment_count),
            r == Ok::<BatchState, StorageError>(BatchState::Allowable) ==> final(self)@ == old(
                self,
            )@.added(key.spec_bytes(), buf@, latest_segment_count, latest_segment_size),
            r != Ok::<BatchState, StorageError>(BatchState::Allowable) ==> final(self)@ == old(
                self,
            )@,
    {
        if buf.len() >= MAX_BATCH_SIZE - self.current_batch_size {
            return Ok(BatchState::ShouldFlush);
        }
        let start = if latest_segment_count != self.current_segment_count {
            0
        } else {
            self.current_segment_size
        };
        if start > usize::MAX - buf.len() {
            return Err(StorageError::PositionOverflow { start, size: buf.len() });
        }
        let offset = match Offset::new(key, start, start + buf.len(), latest_segment_count) {
            Ok(o) => o,
            Err(e) => {
                return Err(e);
            },
        };
        let ghost old_view = self@;
        let ghost old_offsets = self.offsets@;
        if latest_segment_count != self.current_segment_count {
            self.current_segment_count = latest_segment_size;
        }
        let base = self.current_batch_size;
        let ghost marker = self.current_segment_count;
        let mut i: usize = 0;
        while i < buf.len()
            invariant
                base == self.current_batch_size,
                base + buf@.len() < MAX_BATCH_SIZE,
                self.offsets@ == old_offsets,
                self.current_segment_count == marker,
                self.buffer@.len() == MAX_BATCH_SIZE,
                i <= buf@.len(),
                self.buffer@.subrange(0, base as int) == old_view.bytes,
                self.buffer@.subrange(base as int, base + i) == buf@.subrange(0, i as int),
            decreases buf@.len() - i,
        {
            let ghost prev = self.buffer@;
            self.buffer.set(base + i, buf[i]);
            assert(self.buffer@.subrange(0, base as int) =~= prev.subrange(0, base as int));
            i += 1;
            assert(self.buffer@.subrange(base as int, base + i) =~= buf@.subrange(0, i as int));
        }
        self.current_batch_size = base + buf.len();
        self.offsets.push(offset);
        self.current_batch_index = self.offsets.len();
        self.current_segment_size = start + buf.len();
        proof {
            let v = self@;
            let w = old_view.added(key.spec_bytes(), buf@, latest_segment_count, latest_segment_size);
            assert(self.buffer@.subrange(0, (base + buf@.len()) as int) =~= self.buffer@.subrange(
                0,
                base as int,
            ) + self.buffer@.subrange(base as int, base + buf@.len()));
            assert(buf@.subrange(0, buf@.len() as int) =~= buf@);
            assert(v.bytes =~= w.bytes);
            assert(self.offsets@ == old_offsets.push(offset));
            assert forall|j: int| 0 <= j < v.records.len() implies v.records[j] == w.records[j] by {
                if j < old_offsets.len() {
                    assert(self.offsets@[j] == old_offsets[j]);
                }
            }
            assert(v.records =~= w.records);
            assert(v.records.drop_last() =~= old_view.records);
            assert forall|j: int| 0 <= j < v.records.len() implies valid_record(
                #[trigger] v.records[j],
            ) by {
                if j < old_view.records.len() {
                    assert(v.records[j] == old_view.records[j]);
                } else {
                    offset.lemma_wf_valid();
                }
            }
        }
        Ok(BatchState::Allowable)
    }

    /// Empties the batch for the next round; the segment position is kept.
    pub fn reset(&mut self)
        requires
            old(self).wf(),
        ensures
            final(self).wf(),
            final(self)@ == old(self)@.cleared(),
    {
        self.offsets.clear();
        self.current_batch_size = 0;
        self.current_batch_index = 0;
        assert(self@.bytes =~= Seq::<u8>::empty());
        assert(self@.records =~= Seq::<OffsetView>::empty());
    }

    /// The buffered payload bytes and records, borrowed.
    pub fn get_prunable(&self) -> (r: Prune<'_>)
        requires
            self.wf(),
        ensures
            r.wf(),
            r.buffer@ == self@.bytes,
            r.records() == self@.records,
    {
        Prune {
            buffer: vstd::slice::slice_subrange(self.buffer.as_slice(), 0, self.current_batch_size),
            offsets: self.offsets.as_slice(),
        }
    }
}

} // verus!
