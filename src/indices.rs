use vstd::prelude::*;

use crate::batch::total_size;
use crate::error::StorageError;
use crate::offset::{decode_record, Offset, OffsetView, OFFSET_SIZE};

verus! {

/// The table after recording each of `rs` in order: later records of a key
/// replace earlier ones.
pub open spec fn apply_records(m: Map<Seq<u8>, OffsetView>, rs: Seq<OffsetView>) -> Map<
    Seq<u8>,
    OffsetView,
>
    decreases rs.len(),
{
    if rs.len() == 0 {
        m
    } else {
        apply_records(m, rs.drop_last()).insert(rs.last().key, rs.last())
    }
}

/// The `i`-th record-width chunk of an index segment.
pub open spec fn chunk(b: Seq<u8>, i: int) -> Seq<u8> {
    b.subrange(i * OFFSET_SIZE, i * OFFSET_SIZE + OFFSET_SIZE)
}

/// Number of whole records in an index segment; a shorter tail is not read.
pub open spec fn chunk_count(b: Seq<u8>) -> nat {
    b.len() / (OFFSET_SIZE as nat)
}

/// Every whole record of the segment decodes.
pub open spec fn segment_ok(b: Seq<u8>) -> bool {
    forall|i: int| 0 <= i < chunk_count(b) ==> (#[trigger] decode_record(chunk(b, i))) is Some
}

/// The records of one index segment, in order.
pub open spec fn segment_records(b: Seq<u8>) -> Seq<OffsetView> {
    Seq::new(chunk_count(b), |i: int| decode_record(chunk(b, i)).unwrap())
}

/// Every whole record of every segment decodes.
pub open spec fn segments_ok(segs: Seq<Seq<u8>>) -> bool {
    forall|s: int| 0 <= s < segs.len() ==> segment_ok(#[trigger] segs[s])
}

/// The records of all index segments, segment after segment.
pub open spec fn scanned(segs: Seq<Seq<u8>>) -> Seq<OffsetView>
    decreases segs.len(),
{
    if segs.len() == 0 {
        Seq::empty()
    } else {
        scanned(segs.drop_last()) + segment_records(segs.last())
    }
}

/// `n`, or the largest `usize` where `n` is larger.
pub open spec fn capped(n: nat) -> usize {
    if n > usize::MAX {
        usize::MAX
    } else {
        n as usize
    }
}

/// Recording the records of one list and then of another is recording both
/// lists at once.
pub proof fn lemma_apply_concat(
    m: Map<Seq<u8>, OffsetView>,
    a: Seq<OffsetView>,
    b: Seq<OffsetView>,
)
    ensures
        apply_records(apply_records(m, a), b) == apply_records(m, a + b),
    decreases b.len(),
{
    if b.len() == 0 {
        assert(a + b =~= a);
    } else {
        lemma_apply_concat(m, a, b.drop_last());
        assert((a + b).drop_last() =~= a + b.drop_last());
    }
}

/// A key resolves to its last record in the list.
pub proof fn lemma_last_write_wins(m: Map<Seq<u8>, OffsetView>, rs: Seq<OffsetView>, i: int)
    requires
        0 <= i < rs.len(),
        forall|j: int| i < j < rs.len() ==> #[trigger] rs[j].key != rs[i].key,
    ensures
        apply_records(m, rs).contains_key(rs[i].key),
        apply_records(m, rs)[rs[i].key] == rs[i],
    decreases rs.len(),
{
    if i < rs.len() - 1 {
        let p = rs.drop_last();
        assert(rs[rs.len() - 1].key != rs[i].key);
        assert forall|j: int| i < j < p.len() implies #[trigger] p[j].key != p[i].key by {
            assert(p[j] == rs[j]);
        }
        lemma_last_write_wins(m, p, i);
    }
}

/// The in-memory index: the latest record of each key, and the number of
/// payload bytes that the records read at start-up describe.
pub struct Indices {
    data: Vec<Offset>,
    table: Ghost<Map<Seq<u8>, OffsetView>>,
    total_bytes: usize,
}

impl View for Indices {
    type V = Map<Seq<u8>, OffsetView>;

    closed spec fn view(&self) -> Map<Seq<u8>, OffsetView> {
        self.table@
    }
}

/// Whether two byte strings are equal.
fn same_bytes(a: &[u8], b: &[u8]) -> (r: bool)
    ensures
        r == (a@ == b@),
{
    if a.len() != b.len() {
        return false;
    }
    let mut i: usize = 0;
    while i < a.len()
        invariant
            a@.len() == b@.len(),
            i <= a@.len(),
            a@.subrange(0, i as int) == b@.subrange(0, i as int),
        decreases a@.len() - i,
    {
        if a[i] != b[i] {
            assert(a@[i as int] != b@[i as int]);
            return false;
        }
        assert(a@.subrange(0, i + 1) =~= a@.subrange(0, i as int).push(a@[i as int]));
        assert(b@.subrange(0, i + 1) =~= b@.subrange(0, i as int).push(b@[i as int]));
        i += 1;
    }
    assert(a@ =~= a@.subrange(0, i as int));
    assert(b@ =~= b@.subrange(0, i as int));
    true
}

impl Indices {
    pub closed spec fn wf(&self) -> bool {
        &&& self.table@.dom().finite()
        &&& self.table@.dom().len() == self.data@.len()
        &&& forall|i: int| 0 <= i < self.data@.len() ==> (#[trigger] self.data@[i]).wf()
        &&& forall|i: int|
            0 <= i < self.data@.len() ==> self.table@.contains_key((#[trigger] self.data@[i])@.key)
                && self.table@[self.data@[i]@.key] == self.data@[i]@
        &&& forall|k: Seq<u8>|
            #[trigger] self.table@.contains_key(k) ==> exists|i: int|
                0 <= i < self.data@.len() && (#[trigger] self.data@[i])@.key == k
        &&& forall|i: int, j: int|
            0 <= i < self.data@.len() && 0 <= j < self.data@.len() && i != j ==> (
            #[trigger] self.data@[i])@.key != (#[trigger] self.data@[j])@.key
    }

    /// Payload bytes described by the records read at start-up, capped at
    /// the largest `usize`.
    pub closed spec fn spec_total_bytes(&self) -> usize {
        self.total_bytes
    }

    /// An empty table.
    pub fn new() -> (r: Indices)
        ensures
            r.wf(),
            r@ == Map::<Seq<u8>, OffsetView>::empty(),
            r.spec_total_bytes() == 0,
    {
        Indices { data: Vec::new(), table: Ghost(Map::empty()), total_bytes: 0 }
    }

    /// Where the entry with key `key` is stored, if the table holds it.
    fn position(&self, key: &[u8]) -> (r: Option<usize>)
        requires
            self.wf(),
        ensures
            r is None <==> !self@.contains_key(key@),
            r matches Some(i) ==> i < self.data@.len() && self.data@[i as int]@.key == key@,
    {
        let mut i: usize = 0;
        while i < self.data.len()
            invariant
                self.wf(),
                i <= self.data@.len(),
                forall|j: int| 0 <= j < i ==> (#[trigger] self.data@[j])@.key != key@,
            decreases self.data@.len() - i,
        {
            if same_bytes(self.data[i].key_bytes(), key) {
                return Some(i);
            }
            i += 1;
        }
        None
    }

    /// Records `o` as the latest record of its key.
    pub fn insert(&mut self, o: Offset)
        requires
            old(self).wf(),
            o.wf(),
        ensures
            final(self).wf(),
            final(self)@ == old(self)@.insert(o@.key, o@),
            final(self).spec_total_bytes() == old(self).spec_total_bytes(),
    {
        let ghost k = o@.key;
        match self.position(o.key_bytes()) {
            Some(i) => {
                self.data.set(i, o);
                self.table = Ghost(self.table@.insert(k, o@));
                assert(self.table@.dom() =~= old(self).table@.dom());
                assert forall|k2: Seq<u8>| #[trigger] self.table@.contains_key(k2) implies exists|
                    j: int,
                | 0 <= j < self.data@.len() && (#[trigger] self.data@[j])@.key == k2 by {
                    if k2 != k {
                        let j = choose|j: int|
                            0 <= j < old(self).data@.len() && (#[trigger] old(
                                self,
                            ).data@[j])@.key == k2;
                        assert(self.data@[j] == old(self).data@[j]);
                    } else {
                        assert(self.data@[i as int]@.key == k2);
                    }
                }
            },
            None => {
                self.data.push(o);
                self.table = Ghost(self.table@.insert(k, o@));
                let n = self.data.len() - 1;
                assert(self.data@[n as int] == o);
                assert forall|k2: Seq<u8>| #[trigger] self.table@.contains_key(k2) implies exists|
                    j: int,
                | 0 <= j < self.data@.len() && (#[trigger] self.data@[j])@.key == k2 by {
                    if k2 != k {
                        let j = choose|j: int|
                            0 <= j < old(self).data@.len() && (#[trigger] old(
                                self,
                            ).data@[j])@.key == k2;
                        assert(self.data@[j] == old(self).data@[j]);
                    } else {
                        assert(self.data@[n as int]@.key == k2);
                    }
                }
                assert forall|a: int, b: int|
                    0 <= a < self.data@.len() && 0 <= b < self.data@.len() && a != b implies (
                #[trigger] self.data@[a])@.key != (#[trigger] self.data@[b])@.key by {
                    if a < n && b < n {
                        assert(self.data@[a] == old(self).data@[a]);
                        assert(self.data@[b] == old(self).data@[b]);
                    } else if a < n {
                        assert(old(self).table@.contains_key(old(self).data@[a]@.key));
                        assert(self.data@[a] == old(self).data@[a]);
                    } else {
                        assert(old(self).table@.contains_key(old(self).data@[b]@.key));
                        assert(self.data@[b] == old(self).data@[b]);
                    }
                }
            },
        }
    }

    /// Records each of `offsets` in order.
    pub fn insert_all(&mut self, offsets: &[Offset])
        requires
            old(self).wf(),
            forall|i: int| 0 <= i < offsets@.len() ==> (#[trigger] offsets@[i]).wf(),
        ensures
            final(self).wf(),
            final(self)@ == apply_records(old(self)@, offsets@.map_values(|o: Offset| o@)),
            final(self).spec_total_bytes() == old(self).spec_total_bytes(),
    {
        let ghost rs = offsets@.map_values(|o: Offset| o@);
        let mut i: usize = 0;
        while i < offsets.len()
            invariant
                self.wf(),
                i <= offsets@.len(),
                rs == offsets@.map_values(|o: Offset| o@),
                forall|i: int| 0 <= i < offsets@.len() ==> (#[trigger] offsets@[i]).wf(),
                self@ == apply_records(old(self)@, rs.subrange(0, i as int)),
                self.spec_total_bytes() == old(self).spec_total_bytes(),
            decreases offsets@.len() - i,
        {
            self.insert(offsets[i]);
            assert(rs.subrange(0, i + 1).drop_last() =~= rs.subrange(0, i as int));
            i += 1;
        }
        assert(rs.subrange(0, i as int) =~= rs);
    }

    /// The latest record of `key`, if any.
    pub fn get(&self, key: &[u8]) -> (r: Option<Offset>)
        requires
            self.wf(),
        ensures
            r is Some <==> self@.contains_key(key@),
            r matches Some(o) ==> o.wf() && o@ == self@[key@],
    {
        match self.position(key) {
            Some(i) => Some(self.data[i]),
            None => None,
        }
    }

    /// Number of keys in the table.
    pub fn len(&self) -> (r: usize)
        requires
            self.wf(),
        ensures
            r == self@.len(),
    {
        self.data.len()
    }

    pub fn total_bytes(&self) -> (r: usize)
        ensures
            r == self.spec_total_bytes(),
    {
        self.total_bytes
    }

    fn add_total(&mut self, n: usize)
        requires
            old(self).wf(),
        ensures
            final(self).wf(),
            final(self)@ == old(self)@,
            final(self).spec_total_bytes() == old(self).spec_total_bytes().saturating_add(n),
    {
        self.total_bytes = self.total_bytes.saturating_add(n);
    }

    /// Rebuilds the table from the bytes of every index segment, oldest
    /// first: each whole record-width chunk is one record, later records of
    /// a key replace earlier ones, and every record counts towards the total.
    /// A record whose key is not well formed stops the scan with an error
    /// that gives its segment and byte position.
    pub fn from(segments: &[Vec<u8>]) -> (r: Result<Indices, StorageError>)
        ensures
            r is Ok <==> segments_ok(segments@.map_values(|v: Vec<u8>| v@)),
            r matches Ok(ix) ==> {
                let segs = segments@.map_values(|v: Vec<u8>| v@);
                &&& ix.wf()
                &&& ix@ == apply_records(Map::empty(), scanned(segs))
                &&& ix.spec_total_bytes() == capped(total_size(scanned(segs)))
            },
            r matches Err(e) ==> e matches StorageError::MalformedRecord { segment, position } && {
                let b = segments@[segment as int]@;
                &&& segment < segments@.len()
                &&& position % OFFSET_SIZE == 0
                &&& position + OFFSET_SIZE <= b.len()
                &&& decode_record(b.subrange(position as int, position + OFFSET_SIZE)) is None
                &&& forall|t: int| 0 <= t < segment ==> segment_ok(#[trigger] segments@[t]@)
                &&& forall|j: int|
                    0 <= j < position / OFFSET_SIZE ==> (#[trigger] decode_record(chunk(b, j))) is Some
            },
    {
        let ghost segs = segments@.map_values(|v: Vec<u8>| v@);
        let mut ix = Indices::new();
        let mut s: usize = 0;
        while s < segments.len()
            invariant
                segs == segments@.map_values(|v: Vec<u8>| v@),
                s <= segments@.len(),
                ix.wf(),
                segments_ok(segs.subrange(0, s as int)),
                ix@ == apply_records(Map::empty(), scanned(segs.subrange(0, s as int))),
                ix.spec_total_bytes() == capped(total_size(scanned(segs.subrange(0, s as int)))),
            decreases segments@.len() - s,
        {
            let bytes = segments[s].as_slice();
            let ghost b = bytes@;
            let ghost before = scanned(segs.subrange(0, s as int));
            let blen = bytes.len();
            let n = blen / OFFSET_SIZE;
            let mut i: usize = 0;
            while i < n
                invariant
                    segs == segments@.map_values(|v: Vec<u8>| v@),
                    s < segments@.len(),
                    b == bytes@,
                    b.len() == blen,
                    b == segs[s as int],
                    segments_ok(segs.subrange(0, s as int)),
                    n == chunk_count(b),
                    i <= n,
                    ix.wf(),
                    forall|j: int| 0 <= j < i ==> (#[trigger] decode_record(chunk(b, j))) is Some,
                    ix@ == apply_records(
                        Map::empty(),
                        before + segment_records(b).subrange(0, i as int),
                    ),
                    ix.spec_total_bytes() == capped(
                        total_size(before + segment_records(b).subrange(0, i as int)),
                    ),
                decreases n - i,
            {
                assert(i * OFFSET_SIZE + OFFSET_SIZE <= b.len()) by (nonlinear_arith)
                    requires
                        i < n,
                        n == b.len() / (OFFSET_SIZE as nat),
                ;
                let at = i * OFFSET_SIZE;
                let piece = vstd::slice::slice_subrange(bytes, at, at + OFFSET_SIZE);
                assert(piece@ == chunk(b, i as int));
                match Offset::from_bytes(piece) {
                    None => {
                        assert((at as int) % (OFFSET_SIZE as int) == 0) by (nonlinear_arith)
                            requires
                                at == i * OFFSET_SIZE,
                        ;
                        assert(!segment_ok(segs[s as int]));
                        assert(at / OFFSET_SIZE == i) by (nonlinear_arith)
                            requires
                                at == i * OFFSET_SIZE,
                        ;
                        assert forall|t: int| 0 <= t < s implies segment_ok(
                            #[trigger] segments@[t]@,
                        ) by {
                            let prefix = segs.subrange(0, s as int);
                            assert(segment_ok(prefix[t]));
                            assert(prefix[t] == segs[t]);
                            assert(segs[t] == segments@[t]@);
                        }
                        assert(!segments_ok(segs));
                        return Err(StorageError::MalformedRecord { segment: s, position: at });
                    },
                    Some(o) => {
                        let ghost prev = before + segment_records(b).subrange(0, i as int);
                        let ghost next = before + segment_records(b).subrange(0, i + 1);
                        assert(next.drop_last() =~= prev);
                        assert(next.last() == o@);
                        ix.insert(o);
                        ix.add_total(o.data_size());
                        i += 1;
                    },
                }
            }
            proof {
                let segs2 = segs.subrange(0, s + 1);
                assert(segs2.drop_last() =~= segs.subrange(0, s as int));
                assert(segs2.last() == b);
                assert(segment_records(b).subrange(0, i as int) =~= segment_records(b));
                assert forall|t: int| 0 <= t < segs2.len() implies segment_ok(#[trigger] segs2[t]) by {
                    if t < s {
                        assert(segs2[t] == segs.subrange(0, s as int)[t]);
                    }
                }
            }
            s += 1;
        }
        assert(segs.subrange(0, s as int) =~= segs);
        Ok(ix)
    }
}

} // verus!
