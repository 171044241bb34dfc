use vstd::prelude::*;
use vstd::string::StringSliceAdditionalSpecFns;

use crate::batch::{total_size, Batch, BatchState, BatchView, Prune};
use crate::error::StorageError;
use crate::indices::{
    apply_records, chunk, chunk_count, lemma_apply_concat, lemma_last_write_wins, scanned,
    segment_ok, segment_records, segments_ok, Indices,
};
use crate::offset::{
    decode_record, encode_record, encode_records, lemma_record_round_trip, valid_record, Offset, OffsetView,
    OFFSET_SIZE,
};

verus! {

/// Largest payload of a single entry, in bytes.
pub const MAX_ENTRY_SIZE: usize = 16777216;

/// Largest payload segment, in bytes; the segment manager rotates at it.
pub const MAX_SEGMENT_SIZE: u64 = 4000000000;

/// The state of a storage instance: the flushed, visible records and the
/// pending batch.
pub struct StorageView {
    pub index: Map<Seq<u8>, OffsetView>,
    pub batch: BatchView,
}

/// The in-memory half of the storage of one partition: the index of flushed
/// records and the batch of pending writes. Reading and writing segment
/// files is left to the caller, which hands in what the segment manager
/// reports and writes out what `prunable` gives.
pub struct Storage {
    indices: Indices,
    batch: Batch,
    compaction: bool,
}

impl View for Storage {
    type V = StorageView;

    closed spec fn view(&self) -> StorageView {
        StorageView { index: self.indices@, batch: self.batch@ }
    }
}

impl Storage {
    pub closed spec fn wf(&self) -> bool {
        self.indices.wf() && self.batch.wf()
    }

    /// The pending batch of a well-formed storage is consistent.
    pub proof fn lemma_batch_consistent(&self)
        requires
            self.wf(),
        ensures
            self@.batch.consistent(),
    {
        self.batch.lemma_consistent();
    }

    pub closed spec fn spec_compaction(&self) -> bool {
        self.compaction
    }

    /// A storage instance over an index rebuilt from the index segments.
    pub fn new(indices: Indices, compaction: bool) -> (r: Storage)
        requires
            indices.wf(),
        ensures
            r.wf(),
            r@.index == indices@,
            r@.batch == (BatchView {
                bytes: Seq::empty(),
                records: Seq::empty(),
                entries: 0,
                segment_size: 0,
                segment_count: 0,
            }),
            r.spec_compaction() == compaction,
    {
        Storage { indices, batch: Batch::new(), compaction }
    }

    /// Buffers a write of `buf` under `key`, given the number and size of
    /// the active payload segment. `ShouldFlush` asks the caller to flush and
    /// then issue the same call again. Pending writes are not visible.
    pub fn set(
        &mut self,
        key: &str,
        buf: &[u8],
        latest_segment_count: usize,
        latest_segment_size: usize,
    ) -> (r: Result<BatchState, StorageError>)
        requires
            old(self).wf(),
        ensures
            final(self).wf(),
            final(self)@.index == old(self)@.index,
            final(self).spec_compaction() == old(self).spec_compaction(),
            buf@.len() > MAX_ENTRY_SIZE ==> r == Err::<BatchState, StorageError>(
                StorageError::EntryTooLarge { size: buf@.len() as usize },
            ),
            buf@.len() <= MAX_ENTRY_SIZE ==> r == old(self)@.batch.add_outcome(
                key.spec_bytes(),
                buf@.len(),
                latest_segment_count,
            ),
            r == Ok::<BatchState, StorageError>(BatchState::Allowable) ==> final(self)@.batch == old(
                self,
            )@.batch.added(key.spec_bytes(), buf@, latest_segment_count, latest_segment_size),
            r != Ok::<BatchState, StorageError>(BatchState::Allowable) ==> final(self)@ == old(
                self,
            )@,
    {
        if buf.len() > MAX_ENTRY_SIZE {
            return Err(StorageError::EntryTooLarge { size: buf.len() });
        }
        self.batch.add(key, buf, latest_segment_count, latest_segment_size)
    }

    /// The pending payload bytes and records, for the caller to append to
    /// the active payload segment and index segment.
    pub fn prunable(&self) -> (r: Prune<'_>)
        requires
            self.wf(),
        ensures
            r.wf(),
            r.buffer@ == self@.batch.bytes,
            r.records() == self@.batch.records,
    {
        self.batch.get_prunable()
    }

    /// Once the pending bytes and records are on disk: makes every pending
    /// record visible, in order, and empties the batch.
    pub fn complete_flush(&mut self)
        requires
            old(self).wf(),
        ensures
            final(self).wf(),
            final(self)@.index == apply_records(old(self)@.index, old(self)@.batch.records),
            final(self)@.batch == old(self)@.batch.cleared(),
            final(self).spec_compaction() == old(self).spec_compaction(),
    {
        let prune = self.batch.get_prunable();
        self.indices.insert_all(prune.offsets);
        self.batch.reset();
    }

    /// Number of keys that can be read.
    pub fn len(&self) -> (r: usize)
        requires
            self.wf(),
        ensures
            r == self@.index.len(),
    {
        self.indices.len()
    }

    /// Where the latest flushed payload of `key` lies; `None` for a key
    /// never flushed.
    pub fn lookup(&self, key: &str) -> (r: Option<Offset>)
        requires
            self.wf(),
        ensures
            r is Some <==> self@.index.contains_key(key.spec_bytes()),
            r matches Some(o) ==> o@ == self@.index[key.spec_bytes()] && o.wf(),
    {
        self.indices.get(key.as_bytes())
    }

    pub fn compaction(&self) -> (r: bool)
        ensures
            r == self.spec_compaction(),
    {
        self.compaction
    }
}

/// A write that was buffered becomes visible by the next flush: its key
/// then resolves to a record whose range within the flushed bytes holds
/// exactly the payload.
pub proof fn lemma_flush_makes_visible(
    v: StorageView,
    key: Seq<u8>,
    payload: Seq<u8>,
    latest_segment_count: usize,
    latest_segment_size: usize,
)
    requires
        v.batch.consistent(),
        v.batch.add_outcome(key, payload.len(), latest_segment_count) == Ok::<
            BatchState,
            StorageError,
        >(BatchState::Allowable),
    ensures
        ({
            let w = v.batch.added(key, payload, latest_segment_count, latest_segment_size);
            let index = apply_records(v.index, w.records);
            let at = total_size(v.batch.records) as int;
            &&& index.contains_key(key)
            &&& index[key] == w.records.last()
            &&& index[key].data_size == payload.len()
            &&& w.bytes.subrange(at, at + payload.len()) == payload
        }),
{
    let w = v.batch.added(key, payload, latest_segment_count, latest_segment_size);
    crate::batch::lemma_added_payload(v.batch, key, payload, latest_segment_count, latest_segment_size);
    lemma_last_write_wins(v.index, w.records, w.records.len() - 1);
}

/// Of several writes of one key, flushed together or across flushes, the
/// latest is the one that the key resolves to.
pub proof fn lemma_latest_write_wins(
    m: Map<Seq<u8>, OffsetView>,
    earlier: Seq<OffsetView>,
    later: Seq<OffsetView>,
    i: int,
)
    requires
        0 <= i < later.len(),
        forall|j: int| i < j < later.len() ==> #[trigger] later[j].key != later[i].key,
    ensures
        apply_records(apply_records(m, earlier), later)[later[i].key] == later[i],
{
    lemma_last_write_wins(apply_records(m, earlier), later, i);
}

/// The lists of records, one after the other.
pub open spec fn flat(rss: Seq<Seq<OffsetView>>) -> Seq<OffsetView>
    decreases rss.len(),
{
    if rss.len() == 0 {
        Seq::empty()
    } else {
        flat(rss.drop_last()) + rss.last()
    }
}

/// The index after flushing each batch of records in turn.
pub open spec fn flushed_index(m: Map<Seq<u8>, OffsetView>, flushes: Seq<Seq<OffsetView>>) -> Map<
    Seq<u8>,
    OffsetView,
>
    decreases flushes.len(),
{
    if flushes.len() == 0 {
        m
    } else {
        apply_records(flushed_index(m, flushes.drop_last()), flushes.last())
    }
}

proof fn lemma_flushed_index_flat(m: Map<Seq<u8>, OffsetView>, flushes: Seq<Seq<OffsetView>>)
    ensures
        flushed_index(m, flushes) == apply_records(m, flat(flushes)),
    decreases flushes.len(),
{
    if flushes.len() > 0 {
        lemma_flushed_index_flat(m, flushes.drop_last());
        lemma_apply_concat(m, flat(flushes.drop_last()), flushes.last());
    }
}

proof fn lemma_encode_len(rs: Seq<OffsetView>)
    requires
        forall|i: int| 0 <= i < rs.len() ==> valid_record(#[trigger] rs[i]),
    ensures
        encode_records(rs).len() == rs.len() * OFFSET_SIZE,
    decreases rs.len(),
{
    if rs.len() > 0 {
        let p = rs.drop_last();
        assert forall|i: int| 0 <= i < p.len() implies valid_record(#[trigger] p[i]) by {
            assert(p[i] == rs[i]);
        }
        lemma_encode_len(p);
        lemma_record_round_trip(rs.last());
        assert(p.len() * OFFSET_SIZE + OFFSET_SIZE == rs.len() * OFFSET_SIZE) by (nonlinear_arith)
            requires
                p.len() + 1 == rs.len(),
        ;
    }
}

proof fn lemma_chunk_concat(a: Seq<u8>, x: Seq<u8>, n: nat, i: int)
    requires
        a.len() == n * OFFSET_SIZE,
        x.len() == OFFSET_SIZE,
        0 <= i <= n,
    ensures
        chunk(a + x, i) == if i < n {
            chunk(a, i)
        } else {
            x
        },
{
    assert(0 <= i * OFFSET_SIZE) by (nonlinear_arith)
        requires
            0 <= i,
    ;
    if i < n {
        assert(i * OFFSET_SIZE + OFFSET_SIZE <= n * OFFSET_SIZE) by (nonlinear_arith)
            requires
                i < n,
        ;
        assert(chunk(a + x, i) =~= chunk(a, i));
    } else {
        assert(chunk(a + x, i) =~= x);
    }
}

/// Scanning the encoding of valid records gives the records back.
proof fn lemma_scan_encoded(rs: Seq<OffsetView>)
    requires
        forall|i: int| 0 <= i < rs.len() ==> valid_record(#[trigger] rs[i]),
    ensures
        segment_ok(encode_records(rs)),
        segment_records(encode_records(rs)) == rs,
    decreases rs.len(),
{
    let e = encode_records(rs);
    lemma_encode_len(rs);
    assert(chunk_count(e) == rs.len()) by (nonlinear_arith)
        requires
            e.len() == rs.len() * OFFSET_SIZE,
            chunk_count(e) == e.len() / (OFFSET_SIZE as nat),
    ;
    if rs.len() > 0 {
        let p = rs.drop_last();
        assert forall|i: int| 0 <= i < p.len() implies valid_record(#[trigger] p[i]) by {
            assert(p[i] == rs[i]);
        }
        lemma_scan_encoded(p);
        lemma_encode_len(p);
        let ep = encode_records(p);
        lemma_record_round_trip(rs.last());
        assert(e == ep + encode_record(rs.last()));
        assert forall|i: int| 0 <= i < rs.len() implies #[trigger] chunk(e, i) == if i < p.len() {
            chunk(ep, i)
        } else {
            encode_record(rs.last())
        } by {
            lemma_chunk_concat(ep, encode_record(rs.last()), p.len(), i);
        }
        assert forall|i: int| 0 <= i < chunk_count(e) implies (#[trigger] decode_record(chunk(e, i)))
            is Some by {
            if i < p.len() {
                assert(decode_record(chunk(ep, i)) is Some);
            }
        }
        assert(segment_records(e) =~= rs) by {
            assert forall|i: int| 0 <= i < rs.len() implies segment_records(e)[i] == rs[i] by {
                if i < p.len() {
                    assert(segment_records(ep)[i] == p[i]);
                }
            }
        }
    } else {
        assert(segment_records(e) =~= rs);
    }
}

proof fn lemma_scanned_flat(rss: Seq<Seq<OffsetView>>)
    requires
        forall|s: int, i: int|
            0 <= s < rss.len() && 0 <= i < rss[s].len() ==> valid_record(#[trigger] rss[s][i]),
    ensures
        segments_ok(rss.map_values(|rs: Seq<OffsetView>| encode_records(rs))),
        scanned(rss.map_values(|rs: Seq<OffsetView>| encode_records(rs))) == flat(rss),
    decreases rss.len(),
{
    let segs = rss.map_values(|rs: Seq<OffsetView>| encode_records(rs));
    if rss.len() > 0 {
        let p = rss.drop_last();
        assert forall|s: int, i: int| 0 <= s < p.len() && 0 <= i < p[s].len() implies valid_record(
            #[trigger] p[s][i],
        ) by {
            assert(p[s] == rss[s]);
        }
        lemma_scanned_flat(p);
        assert(segs.drop_last() =~= p.map_values(|rs: Seq<OffsetView>| encode_records(rs)));
        let last = rss.last();
        assert forall|i: int| 0 <= i < last.len() implies valid_record(#[trigger] last[i]) by {
            assert(rss[rss.len() - 1][i] == last[i]);
        }
        lemma_scan_encoded(last);
        assert forall|s: int| 0 <= s < segs.len() implies segment_ok(#[trigger] segs[s]) by {
            if s < p.len() {
                assert(segs[s] == segs.drop_last()[s]);
            }
        }
    }
}

/// Reopening restores the index: index segments that hold the encodings of
/// the flushed records, in flush order and however they are split into
/// segments, scan without error and rebuild the index that the flushes built
/// in memory.
pub proof fn lemma_reopen_restores_index(
    flushes: Seq<Seq<OffsetView>>,
    segment_records: Seq<Seq<OffsetView>>,
)
    requires
        flat(segment_records) == flat(flushes),
        forall|s: int, i: int|
            0 <= s < segment_records.len() && 0 <= i < segment_records[s].len() ==> valid_record(
                #[trigger] segment_records[s][i],
            ),
    ensures
        ({
            let segs = segment_records.map_values(|rs: Seq<OffsetView>| encode_records(rs));
            &&& segments_ok(segs)
            &&& apply_records(Map::empty(), scanned(segs)) == flushed_index(Map::empty(), flushes)
        }),
{
    lemma_scanned_flat(segment_records);
    lemma_flushed_index_flat(Map::empty(), flushes);
}

} // verus!
