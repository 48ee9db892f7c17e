//! TCP bookkeeping around the relay: reassembly of out-of-order segments,
//! the retransmission queue, and selective-acknowledgment blocks.

use vstd::prelude::*;

verus! {

/// Milliseconds before an unacknowledged segment is resent.
pub const RETRANSMIT_TIMEOUT_MS: u64 = 200;

/// Times a segment is resent before it is abandoned.
pub const MAX_RETRANSMITS: u8 = 3;

/// One sent segment awaiting acknowledgment.
pub struct TcpSegment {
    pub seq: u32,
    pub data: Vec<u8>,
    /// Milliseconds-since-epoch of the last send.
    pub timestamp: u64,
    pub retransmit_count: u8,
}

impl TcpSegment {
    /// A fresh segment stamped with the current instant.
    pub fn new(seq: u32, data: Vec<u8>) -> (s: Self)
        ensures
            s.seq == seq,
            s.data == data,
            s.retransmit_count == 0,
    {
        let timestamp = crate::clock::now_millis();
        TcpSegment { seq, data, timestamp, retransmit_count: 0 }
    }

    /// Whether the segment waited past the timeout at the given instant
    /// and still has retransmissions left.
    pub fn should_retransmit_at(&self, timeout_ms: u64, now: u64) -> (r: bool)
        ensures
            r == (now > self.timestamp + timeout_ms && self.retransmit_count < MAX_RETRANSMITS),
    {
        self.timestamp < now && now - self.timestamp > timeout_ms && self.retransmit_count
            < MAX_RETRANSMITS
    }

    /// Counts one retransmission and restamps the segment.
    pub fn mark_retransmit(&mut self)
        ensures
            final(self).retransmit_count == (if old(self).retransmit_count < u8::MAX {
                old(self).retransmit_count + 1
            } else {
                u8::MAX as int
            }),
            final(self).seq == old(self).seq,
            final(self).data == old(self).data,
    {
        if self.retransmit_count < u8::MAX {
            self.retransmit_count = self.retransmit_count + 1;
        }
        self.timestamp = crate::clock::now_millis();
    }
}

/// Buffer of segments that arrived ahead of their turn, keyed by sequence
/// number and drained in order.
pub struct OutOfOrderBuffer {
    pub segments: Vec<(u32, Vec<u8>)>,
    pub expected_seq: u32,
    pub max_size: usize,
}

/// Index of the first entry with a sequence number, or the length.
pub open spec fn seg_idx(es: Seq<(u32, Vec<u8>)>, seq: u32) -> int
    decreases es.len(),
{
    if es.len() == 0 {
        0
    } else if es[0].0 == seq {
        0
    } else {
        1 + seg_idx(es.drop_first(), seq)
    }
}

pub proof fn lemma_seg_idx_of_prefix(es: Seq<(u32, Vec<u8>)>, seq: u32, i: int)
    requires
        0 <= i <= es.len(),
        forall|j: int| 0 <= j < i ==> (#[trigger] es[j]).0 != seq,
    ensures
        i < es.len() && es[i].0 == seq ==> seg_idx(es, seq) == i,
        i == es.len() ==> seg_idx(es, seq) == es.len(),
    decreases es.len(),
{
    if es.len() > 0 && i > 0 {
        assert(forall|j: int|
            0 <= j < i - 1 ==> es.drop_first()[j] == es[j + 1] && (#[trigger] es.drop_first()[j]).0
                != seq);
        lemma_seg_idx_of_prefix(es.drop_first(), seq, i - 1);
    }
}

/// The payload of the first buffered segment with a sequence number.
pub open spec fn seg_get(es: Seq<(u32, Vec<u8>)>, seq: u32) -> Option<Seq<u8>> {
    if seg_idx(es, seq) < es.len() {
        Some(es[seg_idx(es, seq)].1@)
    } else {
        None
    }
}

/// What draining the buffer from an expected number leaves and hands out:
/// while a non-empty segment starts exactly at the expected number, it
/// leaves the buffer, its bytes extend the run, and the expected number
/// advances, wrapping, by their count.
pub open spec fn spec_drain(es: Seq<(u32, Vec<u8>)>, expected: u32) -> (Seq<(u32, Vec<u8>)>, Seq<
    u8,
>)
    decreases es.len(),
{
    let i = seg_idx(es, expected);
    if 0 <= i < es.len() && es[i].1@.len() > 0 {
        let data = es[i].1@;
        let rest = spec_drain(es.remove(i), wrap_end(expected, data.len() as int) as u32);
        (rest.0, data + rest.1)
    } else {
        (es, Seq::empty())
    }
}

/// Index of the first segment with a sequence number, if one is buffered.
fn find_first_at(segments: &Vec<(u32, Vec<u8>)>, seq: u32) -> (r: Option<usize>)
    ensures
        match r {
            Some(f) => f as int == seg_idx(segments@, seq) && (f as int) < segments@.len(),
            None => seg_idx(segments@, seq) == segments@.len(),
        },
{
    let n = segments.len();
    let mut i: usize = 0;
    while i < n
        invariant
            n == segments@.len(),
            i <= n,
            forall|j: int| 0 <= j < i ==> (#[trigger] segments@[j]).0 != seq,
        decreases n - i,
    {
        if segments[i].0 == seq {
            proof {
                lemma_seg_idx_of_prefix(segments@, seq, i as int);
            }
            return Some(i);
        }
        i = i + 1;
    }
    proof {
        lemma_seg_idx_of_prefix(segments@, seq, n as int);
    }
    None
}

impl OutOfOrderBuffer {
    /// An empty buffer expecting the given sequence number.
    pub fn new(initial_seq: u32, max_size: usize) -> (b: Self)
        ensures
            b.segments@.len() == 0,
            b.expected_seq == initial_seq,
            b.max_size == max_size,
    {
        OutOfOrderBuffer { segments: Vec::new(), expected_seq: initial_seq, max_size }
    }

    /// Accepts a segment at or past the expected sequence number while
    /// room remains: a buffered segment of the same number is replaced in
    /// place, anything else stays put, and a new number lands at the end.
    #[verifier::rlimit(100)]
    #[verifier::spinoff_prover]
    pub fn insert(&mut self, seq: u32, data: Vec<u8>) -> (ok: bool)
        ensures
            ok == (old(self).segments@.len() < old(self).max_size && seq >= old(self).expected_seq),
            ok ==> final(self).segments@ == ({
                let i = seg_idx(old(self).segments@, seq);
                if i < old(self).segments@.len() {
                    old(self).segments@.update(i, (seq, data))
                } else {
                    old(self).segments@.push((seq, data))
                }
            }) && seg_get(final(self).segments@, seq) == Some(data@),
            !ok ==> *final(self) == *old(self),
            final(self).expected_seq == old(self).expected_seq,
            final(self).max_size == old(self).max_size,
    {
        if self.segments.len() >= self.max_size {
            return false;
        }
        if seq < self.expected_seq {
            return false;
        }
        // Replace an entry with the same sequence number.
        let n = self.segments.len();
        let mut i: usize = 0;
        while i < n
            invariant
                n == self.segments@.len(),
                i <= n,
                forall|j: int| 0 <= j < i ==> (#[trigger] self.segments@[j]).0 != seq,
                *self == *old(self),
                n < old(self).max_size,
                seq >= self.expected_seq,
            decreases n - i,
        {
            if self.segments[i].0 == seq {
                let _gone = self.segments.remove(i);
                self.segments.insert(i, (seq, data));
                proof {
                    old(self).segments@.remove_ensures(i as int);
                    old(self).segments@.remove(i as int).insert_ensures(
                        i as int,
                        self.segments@[i as int],
                    );
                    assert(forall|j: int|
                        0 <= j < i ==> (#[trigger] self.segments@[j]) == old(self).segments@[j]);
                    lemma_seg_idx_of_prefix(self.segments@, seq, i as int);
                    lemma_seg_idx_of_prefix(old(self).segments@, seq, i as int);
                    assert(self.segments@ =~= old(self).segments@.update(i as int, (seq, data)));
                }
                return true;
            }
            i = i + 1;
        }
        self.segments.push((seq, data));
        proof {
            assert(forall|j: int|
                0 <= j < old(self).segments@.len() ==> (#[trigger] self.segments@[j]) == old(self).segments@[j]);
            lemma_seg_idx_of_prefix(self.segments@, seq, old(self).segments@.len() as int);
            lemma_seg_idx_of_prefix(old(self).segments@, seq, old(self).segments@.len() as int);
            assert(self.segments@ =~= old(self).segments@.push((seq, data)));
        }
        true
    }

    /// Pops the run of buffered segments that continues the expected
    /// sequence number: exactly what [`spec_drain`] hands out comes back,
    /// exactly what it leaves stays buffered, and the expected number
    /// advances, wrapping, by the number of bytes handed out.
    pub fn get_contiguous_data(&mut self) -> (r: Option<Vec<u8>>)
        ensures
            final(self).max_size == old(self).max_size,
            final(self).segments@.len() <= old(self).segments@.len(),
            final(self).segments@ == spec_drain(old(self).segments@, old(self).expected_seq).0,
            final(self).expected_seq as int == wrap_end(
                old(self).expected_seq,
                spec_drain(old(self).segments@, old(self).expected_seq).1.len() as int,
            ),
            ({
                let drained = spec_drain(old(self).segments@, old(self).expected_seq).1;
                if drained.len() == 0 {
                    r is None && *final(self) == *old(self)
                } else {
                    r matches Some(v) && v@ == drained
                }
            }),
    {
        let mut result: Vec<u8> = Vec::new();
        loop
            invariant_except_break
                self.max_size == old(self).max_size,
                self.segments@.len() <= old(self).segments@.len(),
                spec_drain(old(self).segments@, old(self).expected_seq).0 == spec_drain(
                    self.segments@,
                    self.expected_seq,
                ).0,
                spec_drain(old(self).segments@, old(self).expected_seq).1 == result@ + spec_drain(
                    self.segments@,
                    self.expected_seq,
                ).1,
                self.expected_seq as int == wrap_end(
                    old(self).expected_seq,
                    result@.len() as int,
                ),
                result@.len() == 0 ==> *self == *old(self),
            ensures
                self.max_size == old(self).max_size,
                self.segments@.len() <= old(self).segments@.len(),
                self.segments@ == spec_drain(old(self).segments@, old(self).expected_seq).0,
                result@ == spec_drain(old(self).segments@, old(self).expected_seq).1,
                self.expected_seq as int == wrap_end(
                    old(self).expected_seq,
                    result@.len() as int,
                ),
                result@.len() == 0 ==> *self == *old(self),
            decreases self.segments@.len(),
        {
            let f = match find_first_at(&self.segments, self.expected_seq) {
                Some(f) => f,
                None => {
                    proof {
                        assert(spec_drain(self.segments@, self.expected_seq) == (
                            self.segments@,
                            Seq::<u8>::empty(),
                        ));
                        assert(result@ + Seq::<u8>::empty() =~= result@);
                    }
                    break ;
                },
            };
            // A zero-length segment cannot advance the run; it stays
            // buffered and the drain stops.
            if self.segments[f].1.len() == 0 {
                proof {
                    assert(spec_drain(self.segments@, self.expected_seq) == (
                        self.segments@,
                        Seq::<u8>::empty(),
                    ));
                    assert(result@ + Seq::<u8>::empty() =~= result@);
                }
                break ;
            }
            let ghost pre = self.segments@;
            let ghost e_pre = self.expected_seq;
            let ghost r_pre = result@;
            let (sq, data) = self.segments.remove(f);
            let dl = data.len();
            crate::util::append_byte_slice(&mut result, data.as_slice());
            self.expected_seq = ((self.expected_seq as u128 + dl as u128)
                % 0x100000000u128) as u32;
            proof {
                assert(self.segments@ == pre.remove(f as int));
                assert(self.expected_seq == wrap_end(e_pre, data@.len() as int) as u32);
                assert(spec_drain(pre, e_pre) == (
                    spec_drain(self.segments@, self.expected_seq).0,
                    data@ + spec_drain(self.segments@, self.expected_seq).1,
                ));
                assert(r_pre + (data@ + spec_drain(self.segments@, self.expected_seq).1) =~= (r_pre
                    + data@) + spec_drain(self.segments@, self.expected_seq).1);
            }
        }
        if result.len() == 0 {
            None
        } else {
            Some(result)
        }
    }

    /// Whether segments wait in the buffer.
    pub fn has_data(&self) -> (r: bool)
        ensures
            r == (self.segments@.len() > 0),
    {
        self.segments.len() > 0
    }

    /// Jumps the expected sequence number.
    pub fn update_expected_seq(&mut self, seq: u32)
        ensures
            final(self).expected_seq == seq,
            final(self).segments == old(self).segments,
            final(self).max_size == old(self).max_size,
    {
        self.expected_seq = seq;
    }
}

/// Sent segments awaiting acknowledgment, oldest first.
pub struct RetransmissionQueue {
    pub segments: Vec<TcpSegment>,
    pub timeout_ms: u64,
}

impl RetransmissionQueue {
    /// An empty queue with the default timeout.
    pub fn new() -> (q: Self)
        ensures
            q.segments@.len() == 0,
            q.timeout_ms == RETRANSMIT_TIMEOUT_MS,
    {
        RetransmissionQueue { segments: Vec::new(), timeout_ms: RETRANSMIT_TIMEOUT_MS }
    }

    /// Appends a freshly sent segment; everything already queued stays in
    /// place.
    pub fn add(&mut self, seq: u32, data: Vec<u8>)
        ensures
            final(self).segments@.len() == old(self).segments@.len() + 1,
            final(self).segments@.last().seq == seq,
            final(self).segments@.last().data == data,
            final(self).segments@.last().retransmit_count == 0,
            final(self).segments@.take(old(self).segments@.len() as int) == old(self).segments@,
            final(self).timeout_ms == old(self).timeout_ms,
    {
        let segment = TcpSegment::new(seq, data);
        self.segments.push(segment);
        proof {
            assert(self.segments@.take(old(self).segments@.len() as int) =~= old(self).segments@);
        }
    }

    /// Drops exactly the segments the acknowledgment covers: those whose
    /// wrapped end lies at or before the acknowledged sequence number; the
    /// rest stay in order and untouched.
    pub fn acknowledge(&mut self, ack_seq: u32)
        ensures
            final(self).segments@ == old(self).segments@.filter(
                |s: TcpSegment| ack_seq < wrap_end(s.seq, s.data@.len() as int),
            ),
            final(self).timeout_ms == old(self).timeout_ms,
    {
        let ghost full = self.segments@;
        let ghost pred = |s: TcpSegment| ack_seq < wrap_end(s.seq, s.data@.len() as int);
        let mut kept: Vec<TcpSegment> = Vec::new();
        proof {
            reveal(Seq::filter);
            assert(full.take(0) =~= Seq::<TcpSegment>::empty());
            assert(full.skip(0) =~= full);
            assert(kept@ =~= full.take(0).filter(pred));
        }
        while self.segments.len() > 0
            invariant
                full == old(self).segments@,
                self.segments@.len() <= full.len(),
                self.segments@ == full.skip(full.len() - self.segments@.len()),
                kept@ == full.take(full.len() - self.segments@.len()).filter(pred),
                pred == (|s: TcpSegment| ack_seq < wrap_end(s.seq, s.data@.len() as int)),
                self.timeout_ms == old(self).timeout_ms,
            decreases self.segments@.len(),
        {
            let ghost pre = self.segments@;
            let ghost done = full.len() - pre.len();
            let e = self.segments.remove(0);
            proof {
                reveal(Seq::filter);
                assert(pre[0] == full.skip(done)[0]);
                assert(e == full[done]);
                assert(self.segments@ =~= full.skip(done + 1));
                assert(full.take(done + 1).drop_last() =~= full.take(done));
                assert(full.take(done + 1).last() == full[done]);
            }
            let end: u32 = wrap_end_exec(e.seq, e.data.len());
            if ack_seq < end {
                kept.push(e);
                proof {
                    assert(kept@ == full.take(done + 1).filter(pred));
                }
            } else {
                proof {
                    assert(kept@ == full.take(done + 1).filter(pred));
                }
            }
        }
        proof {
            assert(full.take(full.len() as int) =~= full);
        }
        self.segments = kept;
    }

    /// The segments due for retransmission at the given instant, each
    /// restamped and counted.
    pub fn get_retransmits_at(&mut self, now: u64) -> (r: Vec<(u32, Vec<u8>)>)
        ensures
            final(self).segments@.len() == old(self).segments@.len(),
            final(self).timeout_ms == old(self).timeout_ms,
    {
        let mut out: Vec<(u32, Vec<u8>)> = Vec::new();
        let mut done: Vec<TcpSegment> = Vec::new();
        let ghost n0 = self.segments@.len();
        while self.segments.len() > 0
            invariant
                done@.len() + self.segments@.len() == n0,
                self.timeout_ms == old(self).timeout_ms,
            decreases self.segments@.len(),
        {
            let mut e = self.segments.remove(0);
            if e.should_retransmit_at(self.timeout_ms, now) {
                e.mark_retransmit();
                out.push((e.seq, vstd::slice::slice_to_vec(e.data.as_slice())));
            }
            done.push(e);
        }
        self.segments = done;
        out
    }

    /// Doubles the observed round trip into the next timeout, kept inside
    /// a fixed band.
    pub fn update_timeout(&mut self, rtt_ms: u64)
        ensures
            100 <= final(self).timeout_ms <= 60000,
            final(self).segments == old(self).segments,
    {
        let doubled: u64 = if rtt_ms <= u64::MAX / 2 {
            rtt_ms * 2
        } else {
            u64::MAX
        };
        self.timeout_ms = if doubled < 100 {
            100
        } else if doubled > 60000 {
            60000
        } else {
            doubled
        };
    }

    /// Whether nothing awaits acknowledgment.
    pub fn is_empty(&self) -> (r: bool)
        ensures
            r == (self.segments@.len() == 0),
    {
        self.segments.len() == 0
    }

    /// How many segments await acknowledgment.
    pub fn len(&self) -> (r: usize)
        ensures
            r == self.segments@.len(),
    {
        self.segments.len()
    }
}

/// Where a segment ends, wrapping as sequence numbers do.
pub open spec fn wrap_end(seq: u32, len: int) -> int {
    (seq + len) % 0x100000000
}

/// Where a segment ends, wrapping as sequence numbers do.
fn wrap_end_exec(seq: u32, len: usize) -> (r: u32)
    ensures
        r == wrap_end(seq, len as int),
{
    (((seq as u128 + len as u128) % 0x100000000u128)) as u32
}

/// One selective-acknowledgment block: a half-open received range.
pub struct SackBlock {
    pub left_edge: u32,
    pub right_edge: u32,
}

impl SackBlock {
    /// A block over a half-open range.
    pub fn new(left: u32, right: u32) -> (b: Self)
        ensures
            b.left_edge == left,
            b.right_edge == right,
    {
        SackBlock { left_edge: left, right_edge: right }
    }

    /// Whether a sequence number falls inside the block.
    pub fn contains(&self, seq: u32) -> (r: bool)
        ensures
            r == (self.left_edge <= seq < self.right_edge),
    {
        seq >= self.left_edge && seq < self.right_edge
    }

    /// The block's width, wrapping.
    pub fn len(&self) -> (r: u32)
        ensures
            r == (self.right_edge as int - self.left_edge as int) % 0x100000000,
    {
        if self.right_edge >= self.left_edge {
            self.right_edge - self.left_edge
        } else {
            let r = (((self.right_edge as u64 + 0x100000000u64) - self.left_edge as u64)
                % 0x100000000u64) as u32;
            r
        }
    }
}

/// Whether some block covers a sequence number.
pub open spec fn spec_sacked(blocks: Seq<SackBlock>, q: u32) -> bool {
    exists|j: int|
        0 <= j < blocks.len() && (#[trigger] blocks[j]).left_edge <= q < blocks[j].right_edge
}

/// Blocks in selective-acknowledgment shape: each a non-empty range, and
/// each ending strictly before the next begins.
pub open spec fn blocks_wf(bs: Seq<SackBlock>) -> bool {
    &&& forall|j: int| 0 <= j < bs.len() ==> (#[trigger] bs[j]).left_edge < bs[j].right_edge
    &&& forall|j: int|
        0 <= j < bs.len() - 1 ==> (#[trigger] bs[j]).right_edge < bs[j + 1].left_edge
}

/// Blocks ordered by left edge.
pub open spec fn blocks_sorted(bs: Seq<SackBlock>) -> bool {
    forall|j: int| 0 <= j < bs.len() - 1 ==> (#[trigger] bs[j]).left_edge <= bs[j + 1].left_edge
}

/// Filtering keeps blocks well formed, and cannot raise the last right
/// edge.
pub proof fn lemma_filter_keeps_blocks_wf(bs: Seq<SackBlock>, pred: spec_fn(SackBlock) -> bool)
    requires
        blocks_wf(bs),
    ensures
        blocks_wf(bs.filter(pred)),
        bs.len() > 0 && bs.filter(pred).len() > 0 ==> bs.filter(pred).last().right_edge
            <= bs.last().right_edge,
    decreases bs.len(),
{
    reveal(Seq::filter);
    if bs.len() > 0 {
        let dl = bs.drop_last();
        assert(blocks_wf(dl)) by {
            assert(forall|j: int| 0 <= j < dl.len() ==> #[trigger] dl[j] == bs[j]);
        }
        lemma_filter_keeps_blocks_wf(dl, pred);
        let f = bs.filter(pred);
        let fp = dl.filter(pred);
        if pred(bs.last()) {
            assert(f == fp.push(bs.last()));
            assert(forall|j: int| 0 <= j < fp.len() ==> #[trigger] f[j] == fp[j]);
            assert(f[f.len() - 1] == bs.last());
            if fp.len() > 0 {
                assert(dl.len() > 0);
                assert(fp.last().right_edge <= dl.last().right_edge);
                assert(dl.last() == bs[bs.len() - 2]);
                assert(bs[bs.len() - 2].right_edge < bs[bs.len() - 1].left_edge);
            }
            assert forall|j: int| 0 <= j < f.len() - 1 implies (#[trigger] f[j]).right_edge < f[j
                + 1].left_edge by {
                if j + 1 < fp.len() {
                    assert(f[j] == fp[j] && f[j + 1] == fp[j + 1]);
                } else {
                    assert(j == fp.len() - 1);
                    assert(f[j] == fp.last() && f[j + 1] == bs.last());
                }
            }
            assert forall|j: int| 0 <= j < f.len() implies (#[trigger] f[j]).left_edge < f[
                j
            ].right_edge by {
                if j < fp.len() {
                    assert(f[j] == fp[j]);
                } else {
                    assert(f[j] == bs.last());
                }
            }
        } else {
            assert(f == fp);
            if f.len() > 0 && dl.len() > 0 {
                assert(dl.last() == bs[bs.len() - 2]);
                assert(bs[bs.len() - 2].right_edge < bs.last().left_edge);
                assert(bs.last().left_edge < bs.last().right_edge);
            }
        }
    }
}

/// What the survivors of the swallow filter cover: everything the old
/// blocks covered, short of the swallowing range, and nothing more.
pub proof fn lemma_survivor_coverage(
    full: Seq<SackBlock>,
    survived: Seq<SackBlock>,
    left: u32,
    right: u32,
)
    requires
        forall|j: int|
            0 <= j < survived.len() ==> exists|m: int|
                0 <= m < full.len() && #[trigger] survived[j] == full[m],
        forall|m: int|
            0 <= m < full.len() ==> (left <= (#[trigger] full[m]).left_edge && right
                >= full[m].right_edge) || survived.contains(full[m]),
    ensures
        forall|q: u32|
            #[trigger] spec_sacked(full, q) ==> (spec_sacked(survived, q) || left <= q < right),
        forall|q: u32| #[trigger] spec_sacked(survived, q) ==> spec_sacked(full, q),
{
    assert forall|q: u32| #[trigger] spec_sacked(full, q) implies (spec_sacked(survived, q) || left
        <= q < right) by {
        let m = choose|m: int|
            0 <= m < full.len() && (#[trigger] full[m]).left_edge <= q < full[m].right_edge;
        if !(left <= full[m].left_edge && right >= full[m].right_edge) {
            assert(survived.contains(full[m]));
            let j = choose|j: int| 0 <= j < survived.len() && survived[j] == full[m];
            assert((survived[j]).left_edge <= q < survived[j].right_edge);
        }
    }
    assert forall|q: u32| #[trigger] spec_sacked(survived, q) implies spec_sacked(full, q) by {
        let j = choose|j: int|
            0 <= j < survived.len() && (#[trigger] survived[j]).left_edge <= q
                < survived[j].right_edge;
        let m = choose|m: int| 0 <= m < full.len() && survived[j] == full[m];
        assert(full[m].left_edge <= q < full[m].right_edge);
    }
}

/// Inserting a non-empty range at its sorted slot keeps the blocks sorted
/// and non-empty, and adds exactly the range to the coverage.
pub proof fn lemma_insert_block(
    survived: Seq<SackBlock>,
    inserted: Seq<SackBlock>,
    k: int,
    left: u32,
    right: u32,
)
    requires
        blocks_wf(survived),
        left < right,
        0 <= k <= survived.len(),
        inserted == survived.insert(k, SackBlock { left_edge: left, right_edge: right }),
        forall|j: int| 0 <= j < k ==> (#[trigger] survived[j]).left_edge < left,
        k < survived.len() ==> survived[k].left_edge >= left,
    ensures
        blocks_sorted(inserted),
        forall|j: int|
            0 <= j < inserted.len() ==> (#[trigger] inserted[j]).left_edge < inserted[
                j
            ].right_edge,
        forall|q: u32|
            #[trigger] spec_sacked(inserted, q) == (spec_sacked(survived, q) || left <= q < right),
{
    survived.insert_ensures(k, SackBlock { left_edge: left, right_edge: right });
    assert forall|j: int|
        0 <= j < inserted.len() - 1 implies (#[trigger] inserted[j]).left_edge <= inserted[j
        + 1].left_edge by {
        if j + 1 < k {
            assert(inserted[j] == survived[j] && inserted[j + 1] == survived[j + 1]);
        } else if j + 1 == k {
            assert(inserted[j] == survived[j]);
        } else if j == k {
            assert(inserted[j + 1] == survived[j]);
        } else {
            assert(inserted[j] == survived[j - 1] && inserted[j + 1] == survived[j]);
        }
    }
    assert forall|j: int|
        0 <= j < inserted.len() implies (#[trigger] inserted[j]).left_edge < inserted[
        j
    ].right_edge by {
        if j < k {
            assert(inserted[j] == survived[j]);
        } else if j > k {
            assert(inserted[j] == survived[j - 1]);
        }
    }
    assert forall|q: u32|
        #[trigger] spec_sacked(inserted, q) == (spec_sacked(survived, q) || left <= q
            < right) by {
        if spec_sacked(inserted, q) {
            let j = choose|j: int|
                0 <= j < inserted.len() && (#[trigger] inserted[j]).left_edge <= q
                    < inserted[j].right_edge;
            if j < k {
                assert(inserted[j] == survived[j]);
                assert(spec_sacked(survived, q));
            } else if j > k {
                assert(inserted[j] == survived[j - 1]);
                assert((survived[j - 1]).left_edge <= q < survived[j - 1].right_edge);
                assert(spec_sacked(survived, q));
            }
        }
        if left <= q < right {
            assert(inserted[k].left_edge <= q < inserted[k].right_edge);
            assert(spec_sacked(inserted, q));
        }
        if spec_sacked(survived, q) {
            let j = choose|j: int|
                0 <= j < survived.len() && (#[trigger] survived[j]).left_edge <= q
                    < survived[j].right_edge;
            if j < k {
                assert(inserted[j] == survived[j]);
                assert((inserted[j]).left_edge <= q < inserted[j].right_edge);
            } else {
                assert(inserted[j + 1] == survived[j]);
                assert((inserted[j + 1]).left_edge <= q < inserted[j + 1].right_edge);
            }
            assert(spec_sacked(inserted, q));
        }
    }
}

/// One merge of a touching pair: order, non-emptiness and the separated
/// prefix stay, and coverage is kept exactly.
pub proof fn lemma_merge_step(pre: Seq<SackBlock>, cur: Seq<SackBlock>, i: int)
    requires
        0 <= i,
        i + 1 < pre.len(),
        cur.len() == pre.len() - 1,
        forall|j: int| 0 <= j < i ==> #[trigger] cur[j] == pre[j],
        forall|j: int| i < j < cur.len() ==> #[trigger] cur[j] == pre[j + 1],
        cur[i].left_edge == pre[i].left_edge,
        cur[i].right_edge == (if pre[i + 1].right_edge > pre[i].right_edge {
            pre[i + 1].right_edge
        } else {
            pre[i].right_edge
        }),
        pre[i].right_edge >= pre[i + 1].left_edge,
        blocks_sorted(pre),
        forall|j: int|
            0 <= j < pre.len() ==> (#[trigger] pre[j]).left_edge < pre[j].right_edge,
        forall|j: int|
            0 <= j < i && j + 1 < pre.len() ==> (#[trigger] pre[j]).right_edge < pre[j
                + 1].left_edge,
    ensures
        blocks_sorted(cur),
        forall|j: int| 0 <= j < cur.len() ==> (#[trigger] cur[j]).left_edge < cur[j].right_edge,
        forall|j: int|
            0 <= j < i && j + 1 < cur.len() ==> (#[trigger] cur[j]).right_edge < cur[j
                + 1].left_edge,
        forall|q: u32| #[trigger] spec_sacked(cur, q) == spec_sacked(pre, q),
{
    assert forall|j: int|
        0 <= j < cur.len() - 1 implies (#[trigger] cur[j]).left_edge <= cur[j + 1].left_edge by {
        if j < i - 1 {
            assert(cur[j] == pre[j] && cur[j + 1] == pre[j + 1]);
        } else if j == i - 1 {
            assert(cur[j] == pre[j]);
        } else if j == i {
            assert(cur[j + 1] == pre[j + 2]);
            assert(pre[i].left_edge <= pre[i + 1].left_edge);
            assert(pre[i + 1].left_edge <= pre[i + 2].left_edge);
        } else {
            assert(cur[j] == pre[j + 1] && cur[j + 1] == pre[j + 2]);
        }
    }
    assert forall|j: int|
        0 <= j < cur.len() implies (#[trigger] cur[j]).left_edge < cur[j].right_edge by {
        if j < i {
            assert(cur[j] == pre[j]);
        } else if j > i {
            assert(cur[j] == pre[j + 1]);
        }
    }
    assert forall|j: int|
        0 <= j < i && j + 1 < cur.len() implies (#[trigger] cur[j]).right_edge < cur[j
        + 1].left_edge by {
        if j + 1 < i {
            assert(cur[j] == pre[j] && cur[j + 1] == pre[j + 1]);
        } else {
            assert(j + 1 == i);
            assert(cur[j] == pre[j]);
        }
    }
    assert forall|q: u32| #[trigger] spec_sacked(cur, q) == spec_sacked(pre, q) by {
        if spec_sacked(pre, q) {
            let j = choose|j: int|
                0 <= j < pre.len() && (#[trigger] pre[j]).left_edge <= q < pre[j].right_edge;
            if j == i || j == i + 1 {
                assert(cur[i].left_edge <= q < cur[i].right_edge);
            } else if j < i {
                assert(cur[j] == pre[j]);
                assert((cur[j]).left_edge <= q < cur[j].right_edge);
            } else {
                assert(cur[j - 1] == pre[j]);
                assert((cur[j - 1]).left_edge <= q < cur[j - 1].right_edge);
            }
            assert(spec_sacked(cur, q));
        }
        if spec_sacked(cur, q) {
            let j = choose|j: int|
                0 <= j < cur.len() && (#[trigger] cur[j]).left_edge <= q < cur[j].right_edge;
            if j == i {
                if q < pre[i].right_edge {
                    assert(pre[i].left_edge <= q < pre[i].right_edge);
                } else {
                    assert(q >= pre[i + 1].left_edge);
                    assert(pre[i + 1].left_edge <= q < pre[i + 1].right_edge);
                }
            } else if j < i {
                assert(pre[j] == cur[j]);
                assert((pre[j]).left_edge <= q < pre[j].right_edge);
            } else {
                assert(pre[j + 1] == cur[j]);
                assert((pre[j + 1]).left_edge <= q < pre[j + 1].right_edge);
            }
            assert(spec_sacked(pre, q));
        }
    }
}

/// A bounded set of selective-acknowledgment blocks, kept sorted by left
/// edge with adjacent blocks merged.
pub struct SackManager {
    pub blocks: Vec<SackBlock>,
    pub max_blocks: usize,
}

impl SackManager {
    /// The manager's invariant: well-formed blocks, within the bound.
    pub open spec fn wf(&self) -> bool {
        &&& blocks_wf(self.blocks@)
        &&& self.blocks@.len() <= self.max_blocks
    }
}

impl SackManager {
    /// An empty manager for at most the given number of blocks.
    pub fn new(max_blocks: usize) -> (m: Self)
        ensures
            m.blocks@.len() == 0,
            m.max_blocks == max_blocks,
    {
        SackManager { blocks: Vec::new(), max_blocks }
    }

    /// Adds a received range: blocks it swallows are dropped; while room
    /// remains the range itself is stored, sorted into place and merged
    /// with touching neighbours, so that afterwards exactly the numbers
    /// acknowledged before, or lying in the range, are acknowledged. An
    /// empty range changes nothing.
    #[verifier::rlimit(100)]
    #[verifier::spinoff_prover]
    pub fn add_block(&mut self, left: u32, right: u32)
        requires
            old(self).wf(),
        ensures
            final(self).wf(),
            final(self).max_blocks == old(self).max_blocks,
            ({
                let survived = old(self).blocks@.filter(
                    |b: SackBlock| !(left <= b.left_edge && right >= b.right_edge),
                );
                if left >= right {
                    *final(self) == *old(self)
                } else if survived.len() < old(self).max_blocks {
                    forall|q: u32|
                        #[trigger] spec_sacked(final(self).blocks@, q) == (spec_sacked(
                            old(self).blocks@,
                            q,
                        ) || left <= q < right)
                } else {
                    final(self).blocks@ == survived
                }
            }),
    {
        if left >= right {
            return ;
        }
        // Drop blocks the new range swallows.
        let ghost full = self.blocks@;
        let ghost pred = |b: SackBlock| !(left <= b.left_edge && right >= b.right_edge);
        let mut kept: Vec<SackBlock> = Vec::new();
        proof {
            reveal(Seq::filter);
            assert(full.take(0) =~= Seq::<SackBlock>::empty());
            assert(full.skip(0) =~= full);
            assert(kept@ =~= full.take(0).filter(pred));
        }
        while self.blocks.len() > 0
            invariant
                full == old(self).blocks@,
                blocks_wf(full),
                full.len() <= old(self).max_blocks,
                self.max_blocks == old(self).max_blocks,
                self.blocks@.len() <= full.len(),
                kept@.len() <= full.len() - self.blocks@.len(),
                self.blocks@ == full.skip(full.len() - self.blocks@.len()),
                kept@ == full.take(full.len() - self.blocks@.len()).filter(pred),
                pred == (|b: SackBlock| !(left <= b.left_edge && right >= b.right_edge)),
                forall|j: int|
                    0 <= j < kept@.len() ==> exists|m: int|
                        0 <= m < full.len() && #[trigger] kept@[j] == full[m],
                forall|m: int|
                    0 <= m < full.len() - self.blocks@.len() ==> (left <= (
                    #[trigger] full[m]).left_edge && right >= full[m].right_edge)
                        || kept@.contains(full[m]),
            decreases self.blocks@.len(),
        {
            let ghost pre = self.blocks@;
            let ghost done = full.len() - pre.len();
            let b = self.blocks.remove(0);
            proof {
                reveal(Seq::filter);
                assert(pre[0] == full.skip(done)[0]);
                assert(b == full[done]);
                assert(self.blocks@ =~= full.skip(done + 1));
                assert(full.take(done + 1).drop_last() =~= full.take(done));
                assert(full.take(done + 1).last() == full[done]);
            }
            if !(left <= b.left_edge && right >= b.right_edge) {
                let ghost kb = kept@;
                kept.push(b);
                proof {
                    assert(kept@ == full.take(done + 1).filter(pred));
                    assert(kept@[kb.len() as int] == b);
                    assert(kept@.contains(full[done]));
                    assert(forall|j: int|
                        0 <= j < kb.len() ==> #[trigger] kept@[j] == kb[j]);
                    assert forall|m: int|
                        0 <= m < done && kb.contains(#[trigger] full[m]) implies kept@.contains(
                        full[m],
                    ) by {
                        let j = choose|j: int| 0 <= j < kb.len() && kb[j] == full[m];
                        assert(kept@[j] == full[m]);
                    }
                }
            } else {
                proof {
                    assert(kept@ == full.take(done + 1).filter(pred));
                }
            }
        }
        proof {
            assert(full.take(full.len() as int) =~= full);
            lemma_filter_keeps_blocks_wf(full, pred);
        }
        self.blocks = kept;
        let ghost survived = self.blocks@;
        proof {
            assert(blocks_wf(survived));
            lemma_survivor_coverage(full, survived, left, right);
        }
        if self.blocks.len() < self.max_blocks {
            // Insert sorted by left edge.
            let mut k: usize = 0;
            while k < self.blocks.len() && self.blocks[k].left_edge < left
                invariant
                    k <= self.blocks@.len(),
                    self.max_blocks == old(self).max_blocks,
                    self.blocks@ == survived,
                    forall|j: int| 0 <= j < k ==> (#[trigger] self.blocks@[j]).left_edge < left,
                decreases self.blocks@.len() - k,
            {
                k = k + 1;
            }
            let nb = SackBlock { left_edge: left, right_edge: right };
            self.blocks.insert(k, nb);
            let ghost inserted = self.blocks@;
            proof {
                lemma_insert_block(survived, inserted, k as int, left, right);
            }
            self.merge_adjacent_blocks();
            proof {
                assert forall|q: u32|
                    #[trigger] spec_sacked(self.blocks@, q) == (spec_sacked(full, q) || left <= q
                        < right) by {
                    assert(spec_sacked(self.blocks@, q) == spec_sacked(inserted, q));
                    if spec_sacked(inserted, q) {
                        assert(spec_sacked(survived, q) || left <= q < right);
                    }
                    if spec_sacked(full, q) {
                        assert(spec_sacked(survived, q) || left <= q < right);
                    }
                    if spec_sacked(survived, q) {
                        assert(spec_sacked(inserted, q));
                        assert(spec_sacked(full, q));
                    }
                    if left <= q < right {
                        assert(spec_sacked(inserted, q));
                    }
                }
            }
        }
    }

    /// Merges touching or overlapping neighbours, left to right: coverage
    /// is kept exactly, and the result is in selective-acknowledgment
    /// shape.
    #[verifier::rlimit(100)]
    #[verifier::spinoff_prover]
    fn merge_adjacent_blocks(&mut self)
        requires
            blocks_sorted(old(self).blocks@),
            forall|j: int|
                0 <= j < old(self).blocks@.len() ==> (#[trigger] old(self).blocks@[j]).left_edge
                    < old(self).blocks@[j].right_edge,
        ensures
            final(self).max_blocks == old(self).max_blocks,
            final(self).blocks@.len() <= old(self).blocks@.len(),
            blocks_wf(final(self).blocks@),
            forall|q: u32|
                #[trigger] spec_sacked(final(self).blocks@, q) == spec_sacked(
                    old(self).blocks@,
                    q,
                ),
    {
        let mut i: usize = 0;
        while self.blocks.len() > 0 && i < self.blocks.len() - 1
            invariant
                self.max_blocks == old(self).max_blocks,
                self.blocks@.len() <= old(self).blocks@.len(),
                i <= self.blocks@.len(),
                blocks_sorted(self.blocks@),
                forall|j: int|
                    0 <= j < self.blocks@.len() ==> (#[trigger] self.blocks@[j]).left_edge
                        < self.blocks@[j].right_edge,
                forall|j: int|
                    0 <= j < i && j + 1 < self.blocks@.len() ==> (
                    #[trigger] self.blocks@[j]).right_edge < self.blocks@[j + 1].left_edge,
                forall|q: u32|
                    #[trigger] spec_sacked(self.blocks@, q) == spec_sacked(old(self).blocks@, q),
            decreases self.blocks@.len() - i,
        {
            if self.blocks[i].right_edge >= self.blocks[i + 1].left_edge {
                let ghost pre = self.blocks@;
                let other = SackBlock {
                    left_edge: self.blocks[i + 1].left_edge,
                    right_edge: self.blocks[i + 1].right_edge,
                };
                let mut b = self.blocks.remove(i);
                if other.left_edge < b.left_edge {
                    b.left_edge = other.left_edge;
                }
                if other.right_edge > b.right_edge {
                    b.right_edge = other.right_edge;
                }
                let _gone = self.blocks.remove(i);
                self.blocks.insert(i, b);
                proof {
                    pre.remove_ensures(i as int);
                    pre.remove(i as int).remove_ensures(i as int);
                    pre.remove(i as int).remove(i as int).insert_ensures(i as int, b);
                    assert(self.blocks@.len() == pre.len() - 1);
                    assert(forall|j: int| 0 <= j < i ==> #[trigger] self.blocks@[j] == pre[j]);
                    assert(forall|j: int|
                        i < j < self.blocks@.len() ==> #[trigger] self.blocks@[j] == pre[j + 1]);
                    assert(self.blocks@[i as int] == b);
                    assert(b.left_edge == pre[i as int].left_edge);
                    lemma_merge_step(pre, self.blocks@, i as int);
                }
            } else {
                i = i + 1;
            }
        }
    }

    /// Whether a sequence number lies in some block.
    pub fn is_sacked(&self, seq: u32) -> (r: bool)
        ensures
            r == (exists|j: int|
                0 <= j < self.blocks@.len() && (#[trigger] self.blocks@[j]).left_edge <= seq
                    < self.blocks@[j].right_edge),
    {
        let n = self.blocks.len();
        let mut i: usize = 0;
        while i < n
            invariant
                n == self.blocks@.len(),
                i <= n,
                forall|j: int|
                    0 <= j < i ==> !((#[trigger] self.blocks@[j]).left_edge <= seq
                        < self.blocks@[j].right_edge),
            decreases n - i,
        {
            if self.blocks[i].contains(seq) {
                return true;
            }
            i = i + 1;
        }
        false
    }

    /// The stored blocks, sorted by left edge.
    pub fn get_blocks(&self) -> (r: &Vec<SackBlock>)
        ensures
            r == self.blocks,
    {
        &self.blocks
    }

    /// How many blocks are stored.
    pub fn block_count(&self) -> (r: usize)
        ensures
            r == self.blocks@.len(),
    {
        self.blocks.len()
    }

    /// Forgets every block.
    pub fn clear(&mut self)
        ensures
            final(self).blocks@.len() == 0,
            final(self).max_blocks == old(self).max_blocks,
    {
        self.blocks = Vec::new();
    }
}

} // verus!
