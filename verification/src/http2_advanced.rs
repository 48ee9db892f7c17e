//! HTTP/2 connection internals: the SETTINGS block, the flow-control
//! ledger with one window per stream and one for the connection, the
//! priority tree, and the fingerprint header ordering.

use vstd::prelude::*;

use crate::clock::now_millis;
use crate::util::{be4_of_u32, be_hi, be_lo, split_u16_be, split_u32_be, u16_of_be, u32_of_be4};

verus! {

/// Receive-side window a peer is granted at the start.
pub const INITIAL_WINDOW_SIZE: u32 = 1048576;

/// Receive-side level below which a window is refilled.
pub const WINDOW_UPDATE_THRESHOLD: u32 = 524288;

/// Largest frame payload this side advertises.
pub const MAX_FRAME_SIZE: u32 = 16384;

/// HPACK table size this side advertises.
pub const HEADER_TABLE_SIZE: u32 = 65536;

/// Cap a send window saturates at on WINDOW_UPDATE.
pub const MAX_WINDOW: u32 = 0x7fffffff;

/// Milliseconds between two rounds of WINDOW_UPDATE emission.
pub const UPDATE_INTERVAL_MS: u64 = 100;

// ---------------------------------------------------------------------------
// SETTINGS.
// ---------------------------------------------------------------------------

/// The SETTINGS values one side advertises.
#[derive(Clone, Copy, Debug, PartialEq, Eq, Structural)]
pub struct Http2Settings {
    pub header_table_size: u32,
    pub enable_push: bool,
    pub max_concurrent_streams: u32,
    pub initial_window_size: u32,
    pub max_frame_size: u32,
    pub max_header_list_size: u32,
}

impl Default for Http2Settings {
    /// The defaults this side uses.
    fn default() -> (r: Self)
        ensures
            r == Http2Settings::spec_default(),
    {
        Http2Settings {
            header_table_size: HEADER_TABLE_SIZE,
            enable_push: false,
            max_concurrent_streams: 100,
            initial_window_size: INITIAL_WINDOW_SIZE,
            max_frame_size: MAX_FRAME_SIZE,
            max_header_list_size: 0,
        }
    }
}

/// One identifier/value pair on the wire.
pub open spec fn settings_pair_bytes(id: u16, v: u32) -> Seq<u8> {
    seq![be_hi(id), be_lo(id)] + be4_of_u32(v)
}

/// A list of identifier/value pairs on the wire, in order.
pub open spec fn settings_pairs_bytes(ps: Seq<(u16, u32)>) -> Seq<u8>
    decreases ps.len(),
{
    if ps.len() == 0 {
        Seq::empty()
    } else {
        settings_pair_bytes(ps[0].0, ps[0].1) + settings_pairs_bytes(ps.drop_first())
    }
}

/// Identifier/value pairs read back from a payload, six bytes each; a
/// trailing fragment shorter than six bytes is ignored.
pub open spec fn parse_pairs(b: Seq<u8>) -> Seq<(u16, u32)>
    decreases b.len(),
{
    if b.len() < 6 {
        Seq::empty()
    } else {
        seq![(u16_of_be(b[0], b[1]), u32_of_be4(b[2], b[3], b[4], b[5]))] + parse_pairs(b.skip(6))
    }
}

/// Serializing identifier/value pairs and parsing them back yields the
/// same ordered list.
pub proof fn lemma_settings_pairs_roundtrip(ps: Seq<(u16, u32)>)
    ensures
        parse_pairs(settings_pairs_bytes(ps)) == ps,
    decreases ps.len(),
{
    if ps.len() > 0 {
        let b = settings_pairs_bytes(ps);
        lemma_settings_pairs_len(ps.drop_first());
        assert(b.len() == 6 + settings_pairs_bytes(ps.drop_first()).len());
        crate::util::lemma_be_roundtrip(ps[0].0);
        crate::util::lemma_be4_roundtrip(ps[0].1);
        assert(b[0] == be_hi(ps[0].0));
        assert(b[1] == be_lo(ps[0].0));
        assert(b[2] == be4_of_u32(ps[0].1)[0]);
        assert(b[3] == be4_of_u32(ps[0].1)[1]);
        assert(b[4] == be4_of_u32(ps[0].1)[2]);
        assert(b[5] == be4_of_u32(ps[0].1)[3]);
        assert(b.skip(6) =~= settings_pairs_bytes(ps.drop_first()));
        lemma_settings_pairs_roundtrip(ps.drop_first());
        assert(parse_pairs(b) =~= seq![(ps[0].0, ps[0].1)] + ps.drop_first());
        assert(seq![(ps[0].0, ps[0].1)] + ps.drop_first() =~= ps);
    }
}

pub proof fn lemma_settings_pairs_len(ps: Seq<(u16, u32)>)
    ensures
        settings_pairs_bytes(ps).len() == 6 * ps.len(),
    decreases ps.len(),
{
    if ps.len() > 0 {
        lemma_settings_pairs_len(ps.drop_first());
    }
}

/// The pairs this side sends in its SETTINGS frame.
pub open spec fn spec_settings_pairs(s: Http2Settings) -> Seq<(u16, u32)> {
    seq![(1u16, s.header_table_size), (4u16, s.initial_window_size), (5u16, s.max_frame_size)]
}

/// The full SETTINGS frame this side sends.
pub open spec fn settings_frame_bytes(s: Http2Settings) -> Seq<u8> {
    seq![0u8, 0u8, 18u8, 0x04u8, 0x00u8, 0u8, 0u8, 0u8, 0u8] + settings_pairs_bytes(
        spec_settings_pairs(s),
    )
}

impl Http2Settings {
    pub open spec fn spec_default() -> Http2Settings {
        Http2Settings {
            header_table_size: HEADER_TABLE_SIZE,
            enable_push: false,
            max_concurrent_streams: 100,
            initial_window_size: INITIAL_WINDOW_SIZE,
            max_frame_size: MAX_FRAME_SIZE,
            max_header_list_size: 0,
        }
    }

    /// The values the emulated client stack advertises.
    pub fn ios_safari() -> (r: Self)
        ensures
            r == Http2Settings::spec_default(),
    {
        Http2Settings {
            header_table_size: 65536,
            enable_push: false,
            max_concurrent_streams: 100,
            initial_window_size: 1048576,
            max_frame_size: 16384,
            max_header_list_size: 0,
        }
    }

    /// This side's SETTINGS frame: header table size, initial window size
    /// and max frame size, in that order.
    pub fn to_frame(&self) -> (r: Vec<u8>)
        ensures
            r@ == settings_frame_bytes(*self),
    {
        let mut frame: Vec<u8> = Vec::new();
        frame.push(0);
        frame.push(0);
        frame.push(18);
        frame.push(0x04);
        frame.push(0x00);
        frame.push(0);
        frame.push(0);
        frame.push(0);
        frame.push(0);
        let ghost header = frame@;
        write_settings_pair(&mut frame, 1, self.header_table_size);
        write_settings_pair(&mut frame, 4, self.initial_window_size);
        write_settings_pair(&mut frame, 5, self.max_frame_size);
        proof {
            let ps = spec_settings_pairs(*self);
            let p2 = ps.drop_first();
            let p3 = p2.drop_first();
            let p4 = p3.drop_first();
            assert(ps[0] == (1u16, self.header_table_size));
            assert(p2 =~= seq![(4u16, self.initial_window_size), (5u16, self.max_frame_size)]);
            assert(p2[0] == (4u16, self.initial_window_size));
            assert(p3 =~= seq![(5u16, self.max_frame_size)]);
            assert(p3[0] == (5u16, self.max_frame_size));
            assert(p4 =~= Seq::<(u16, u32)>::empty());
            assert(settings_pairs_bytes(p4) =~= Seq::<u8>::empty());
            assert(settings_pairs_bytes(p3) =~= settings_pair_bytes(5, self.max_frame_size)
                + settings_pairs_bytes(p4));
            assert(settings_pairs_bytes(p2) =~= settings_pair_bytes(4, self.initial_window_size)
                + settings_pairs_bytes(p3));
            assert(settings_pairs_bytes(ps) =~= settings_pair_bytes(1, self.header_table_size)
                + settings_pairs_bytes(p2));
            assert(frame@ =~= settings_frame_bytes(*self));
        }
        frame
    }
}

/// Appends one identifier/value pair in its wire form.
fn write_settings_pair(out: &mut Vec<u8>, id: u16, v: u32)
    ensures
        final(out)@ == old(out)@ + settings_pair_bytes(id, v),
{
    let (ih, il) = split_u16_be(id);
    out.push(ih);
    out.push(il);
    let (b0, b1, b2, b3) = split_u32_be(v);
    out.push(b0);
    out.push(b1);
    out.push(b2);
    out.push(b3);
    proof {
        assert(out@ =~= old(out)@ + settings_pair_bytes(id, v));
    }
}

/// Reads every whole identifier/value pair of a SETTINGS payload.
pub fn parse_settings_pairs(payload: &[u8]) -> (r: Vec<(u16, u32)>)
    ensures
        r@ == parse_pairs(payload@),
{
    let mut out: Vec<(u16, u32)> = Vec::new();
    let mut off: usize = 0;
    proof {
        assert(payload@.skip(0) =~= payload@);
    }
    while off < payload.len() && payload.len() - off >= 6
        invariant
            off <= payload@.len(),
            parse_pairs(payload@) =~= out@ + parse_pairs(payload@.skip(off as int)),
        decreases payload@.len() - off,
    {
        let id = crate::util::read_u16_be(payload[off], payload[off + 1]);
        let v = crate::util::read_u32_be(
            payload[off + 2],
            payload[off + 3],
            payload[off + 4],
            payload[off + 5],
        );
        proof {
            let rem = payload@.skip(off as int);
            assert(rem[0] == payload@[off as int]);
            assert(rem[1] == payload@[off as int + 1]);
            assert(rem[2] == payload@[off as int + 2]);
            assert(rem[3] == payload@[off as int + 3]);
            assert(rem[4] == payload@[off as int + 4]);
            assert(rem[5] == payload@[off as int + 5]);
            assert(rem.skip(6) =~= payload@.skip(off as int + 6));
        }
        out.push((id, v));
        off = off + 6;
    }
    proof {
        assert(parse_pairs(payload@.skip(off as int)) =~= Seq::<(u16, u32)>::empty());
        assert(out@ =~= parse_pairs(payload@));
    }
    out
}

// ---------------------------------------------------------------------------
// Stream priority.
// ---------------------------------------------------------------------------

/// Dependency, weight and exclusivity of one stream. The weight is kept in
/// its effective range, one more than the byte on the wire.
#[derive(Clone, Copy, Debug, PartialEq, Eq, Structural)]
pub struct StreamPriority {
    pub depends_on: u32,
    pub weight: u16,
    pub exclusive: bool,
}

impl Default for StreamPriority {
    /// The protocol default: depend on the root with weight 16.
    fn default() -> (r: Self)
        ensures
            r == (StreamPriority { depends_on: 0u32, weight: 16u16, exclusive: false }),
    {
        StreamPriority { depends_on: 0, weight: 16, exclusive: false }
    }
}

// ---------------------------------------------------------------------------
// Per-stream flow state.
// ---------------------------------------------------------------------------

/// Flow-control state of one stream: a send window spent by our DATA, a
/// receive window refilled by our WINDOW_UPDATEs, and byte counters. The
/// ghost totals carry the exact receive ledger.
pub struct StreamState {
    pub id: u32,
    /// Send-side window: what we may still send on this stream.
    pub window_size: u32,
    /// Receive-side window: what the peer may still send to us.
    pub recv_window: u32,
    pub bytes_sent: u64,
    pub bytes_received: u64,
    /// Milliseconds-since-epoch of the last receive-side activity.
    pub last_update: u64,
    pub priority: StreamPriority,
    /// Every DATA byte counted against the receive window.
    pub recv_total: Ghost<int>,
    /// Every WINDOW_UPDATE increment queued to refill it.
    pub update_sum: Ghost<int>,
}

impl StreamState {
    /// The receive ledger: received bytes equal queued increments plus the
    /// part of the window not yet refilled.
    pub open spec fn ledger_ok(self) -> bool {
        &&& self.recv_window <= INITIAL_WINDOW_SIZE
        &&& self.recv_total@ == self.update_sum@ + (INITIAL_WINDOW_SIZE - self.recv_window)
        &&& self.update_sum@ >= 0
    }

    /// A fresh stream with full windows.
    pub fn new(id: u32, initial_window: u32) -> (s: Self)
        ensures
            s.id == id,
            s.window_size == initial_window,
            s.recv_window == INITIAL_WINDOW_SIZE,
            s.bytes_sent == 0,
            s.bytes_received == 0,
            s.priority == (StreamPriority { depends_on: 0u32, weight: 16u16, exclusive: false }),
            s.recv_total@ == 0,
            s.update_sum@ == 0,
            s.ledger_ok(),
    {
        StreamState {
            id,
            window_size: initial_window,
            recv_window: INITIAL_WINDOW_SIZE,
            bytes_sent: 0,
            bytes_received: 0,
            last_update: now_millis(),
            priority: StreamPriority { depends_on: 0, weight: 16, exclusive: false },
            recv_total: Ghost(0),
            update_sum: Ghost(0),
        }
    }

    /// Spends send window, exactly when it suffices.
    pub fn consume_window(&mut self, bytes: u32) -> (ok: bool)
        ensures
            ok == (old(self).window_size >= bytes),
            ok ==> final(self).window_size == old(self).window_size - bytes && final(self).bytes_sent == (if old(self).bytes_sent + bytes <= u64::MAX {
                old(self).bytes_sent + bytes
            } else {
                u64::MAX as int
            }),
            !ok ==> *final(self) == *old(self),
            final(self).recv_window == old(self).recv_window,
            final(self).recv_total == old(self).recv_total,
            final(self).update_sum == old(self).update_sum,
            final(self).id == old(self).id,
            final(self).priority == old(self).priority,
    {
        if self.window_size >= bytes {
            self.window_size = self.window_size - bytes;
            if self.bytes_sent <= u64::MAX - bytes as u64 {
                self.bytes_sent = self.bytes_sent + bytes as u64;
            } else {
                self.bytes_sent = u64::MAX;
            }
            true
        } else {
            false
        }
    }

    /// Grows the send window, saturating at the protocol cap.
    pub fn add_window(&mut self, bytes: u32)
        ensures
            final(self).window_size == (if old(self).window_size + bytes <= MAX_WINDOW {
                old(self).window_size + bytes
            } else {
                MAX_WINDOW as int
            }),
            final(self).recv_window == old(self).recv_window,
            final(self).recv_total == old(self).recv_total,
            final(self).update_sum == old(self).update_sum,
            final(self).id == old(self).id,
            final(self).priority == old(self).priority,
            final(self).bytes_sent == old(self).bytes_sent,
            final(self).bytes_received == old(self).bytes_received,
            final(self).last_update == old(self).last_update,
    {
        if bytes <= MAX_WINDOW && self.window_size <= MAX_WINDOW - bytes {
            self.window_size = self.window_size + bytes;
        } else {
            self.window_size = MAX_WINDOW;
        }
    }

    /// Whether the receive window has fallen below the refill threshold.
    pub fn should_send_window_update(&self) -> (r: bool)
        ensures
            r == (self.recv_window < WINDOW_UPDATE_THRESHOLD),
    {
        self.recv_window < WINDOW_UPDATE_THRESHOLD
    }

    /// Counts received DATA against the receive window; refuses an amount
    /// beyond the window, which the engine treats as a peer violation.
    pub fn update_received(&mut self, bytes: u32) -> (ok: bool)
        requires
            old(self).ledger_ok(),
        ensures
            ok == (bytes <= old(self).recv_window),
            ok ==> final(self).recv_window == old(self).recv_window - bytes && final(self).recv_total@ == old(self).recv_total@ + bytes && final(self).update_sum == old(self).update_sum && final(self).bytes_received == (if old(self).bytes_received + bytes
                <= u64::MAX {
                old(self).bytes_received + bytes
            } else {
                u64::MAX as int
            }),
            !ok ==> *final(self) == *old(self),
            final(self).ledger_ok(),
            final(self).id == old(self).id,
            final(self).window_size == old(self).window_size,
            final(self).bytes_sent == old(self).bytes_sent,
            final(self).priority == old(self).priority,
    {
        if bytes <= self.recv_window {
            self.recv_window = self.recv_window - bytes;
            proof {
                self.recv_total@ = self.recv_total@ + bytes;
            }
            if self.bytes_received <= u64::MAX - bytes as u64 {
                self.bytes_received = self.bytes_received + bytes as u64;
            } else {
                self.bytes_received = u64::MAX;
            }
            self.last_update = now_millis();
            true
        } else {
            false
        }
    }

    /// Refills the receive window to its initial size and returns the
    /// increment to put on the wire.
    pub fn refill_recv_window(&mut self) -> (inc: u32)
        requires
            old(self).ledger_ok(),
        ensures
            inc == INITIAL_WINDOW_SIZE - old(self).recv_window,
            final(self).recv_window == INITIAL_WINDOW_SIZE,
            final(self).update_sum@ == old(self).update_sum@ + inc,
            final(self).recv_total == old(self).recv_total,
            final(self).ledger_ok(),
            final(self).recv_window == INITIAL_WINDOW_SIZE ==> final(self).update_sum@ == final(self).recv_total@,
            final(self).id == old(self).id,
            final(self).window_size == old(self).window_size,
            final(self).bytes_sent == old(self).bytes_sent,
            final(self).bytes_received == old(self).bytes_received,
            final(self).priority == old(self).priority,
            final(self).last_update == old(self).last_update,
    {
        let inc = INITIAL_WINDOW_SIZE - self.recv_window;
        self.recv_window = INITIAL_WINDOW_SIZE;
        proof {
            self.update_sum@ = self.update_sum@ + inc;
        }
        inc
    }
}

// ---------------------------------------------------------------------------
// Flow-control ledger.
// ---------------------------------------------------------------------------

/// Error kind of the flow controller; never produced, the `Result` shape is
/// kept for callers that unwrap.
#[derive(Clone, Copy, Debug, PartialEq, Eq, Structural)]
pub enum FlowError {
    Violation,
}

/// Index of the first stream with an id, or the length when absent.
pub open spec fn stream_idx(ss: Seq<StreamState>, id: u32) -> int
    decreases ss.len(),
{
    if ss.len() == 0 {
        0
    } else if ss[0].id == id {
        0
    } else {
        1 + stream_idx(ss.drop_first(), id)
    }
}

pub proof fn lemma_stream_idx_bounds(ss: Seq<StreamState>, id: u32)
    ensures
        0 <= stream_idx(ss, id) <= ss.len(),
        stream_idx(ss, id) < ss.len() ==> ss[stream_idx(ss, id)].id == id,
        forall|j: int| 0 <= j < stream_idx(ss, id) ==> ss[j].id != id,
    decreases ss.len(),
{
    if ss.len() > 0 && ss[0].id != id {
        lemma_stream_idx_bounds(ss.drop_first(), id);
        assert(forall|j: int|
            1 <= j < stream_idx(ss, id) ==> ss[j] == ss.drop_first()[j - 1] && ss[j].id != id);
    }
}

pub proof fn lemma_stream_idx_pointwise(a: Seq<StreamState>, b: Seq<StreamState>, id: u32)
    requires
        a.len() == b.len(),
        forall|k: int| 0 <= k < a.len() ==> a[k].id == b[k].id,
    ensures
        stream_idx(a, id) == stream_idx(b, id),
    decreases a.len(),
{
    if a.len() > 0 {
        assert(a[0].id == b[0].id);
        if a[0].id != id {
            assert(forall|k: int|
                0 <= k < a.drop_first().len() ==> a.drop_first()[k] == a[k + 1]
                    && b.drop_first()[k] == b[k + 1] && a.drop_first()[k].id
                    == b.drop_first()[k].id);
            lemma_stream_idx_pointwise(a.drop_first(), b.drop_first(), id);
        }
    }
}

/// The flow-control state of one connection: one send and one receive
/// window for the connection, one stream record per open stream, and the
/// queue of WINDOW_UPDATE increments waiting to be written.
pub struct FlowController {
    /// Send-side connection window.
    pub connection_window: u32,
    /// Receive-side connection window.
    pub connection_recv_window: u32,
    pub streams: Vec<StreamState>,
    pub window_updates: Vec<(u32, u32)>,
    /// Milliseconds-since-epoch of the last emission round.
    pub last_update_time: u64,
    /// Every DATA byte counted against the connection receive window.
    pub conn_recv_total: Ghost<int>,
    /// Every connection-scope WINDOW_UPDATE increment queued.
    pub conn_update_sum: Ghost<int>,
}

impl FlowController {
    /// The stream record for an id.
    pub open spec fn spec_stream(&self, id: u32) -> Option<StreamState> {
        if stream_idx(self.streams@, id) < self.streams@.len() {
            Some(self.streams@[stream_idx(self.streams@, id)])
        } else {
            None
        }
    }

    /// Both connection ledgers and every stream ledger hold.
    pub open spec fn wf(&self) -> bool {
        &&& self.connection_recv_window <= INITIAL_WINDOW_SIZE
        &&& self.conn_recv_total@ == self.conn_update_sum@ + (INITIAL_WINDOW_SIZE
            - self.connection_recv_window)
        &&& self.conn_update_sum@ >= 0
        &&& forall|i: int| 0 <= i < self.streams@.len() ==> (#[trigger] self.streams@[i]).ledger_ok()
    }

    /// A controller with full windows and no streams.
    pub fn new(initial_window: u32) -> (fc: Self)
        ensures
            fc.wf(),
            fc.connection_window == initial_window,
            fc.connection_recv_window == INITIAL_WINDOW_SIZE,
            fc.streams@.len() == 0,
            fc.window_updates@.len() == 0,
            fc.conn_recv_total@ == 0,
            fc.conn_update_sum@ == 0,
    {
        FlowController {
            connection_window: initial_window,
            connection_recv_window: INITIAL_WINDOW_SIZE,
            streams: Vec::new(),
            window_updates: Vec::new(),
            last_update_time: now_millis(),
            conn_recv_total: Ghost(0),
            conn_update_sum: Ghost(0),
        }
    }

    /// Opens (or resets) the record of a stream.
    pub fn create_stream(&mut self, stream_id: u32, initial_window: u32)
        requires
            old(self).wf(),
        ensures
            final(self).wf(),
            final(self).spec_stream(stream_id) matches Some(st) && st.id == stream_id
                && st.window_size == initial_window && st.recv_window == INITIAL_WINDOW_SIZE
                && st.recv_total@ == 0 && st.update_sum@ == 0,
            final(self).connection_window == old(self).connection_window,
            final(self).connection_recv_window == old(self).connection_recv_window,
            final(self).conn_recv_total == old(self).conn_recv_total,
            final(self).conn_update_sum == old(self).conn_update_sum,
            final(self).window_updates == old(self).window_updates,
    {
        let st = StreamState::new(stream_id, initial_window);
        let n = self.streams.len();
        let mut i: usize = 0;
        while i < n
            invariant
                old(self).wf(),
                st.id == stream_id,
                st.ledger_ok(),
                st.window_size == initial_window,
                st.recv_window == INITIAL_WINDOW_SIZE,
                st.recv_total@ == 0,
                st.update_sum@ == 0,
                n == self.streams@.len(),
                i <= n,
                forall|j: int| 0 <= j < i ==> (#[trigger] self.streams@[j]).id != stream_id,
                *self == *old(self),
            decreases n - i,
        {
            if self.streams[i].id == stream_id {
                let _gone = self.streams.remove(i);
                self.streams.insert(i, st);
                proof {
                    old(self).streams@.remove_ensures(i as int);
                    old(self).streams@.remove(i as int).insert_ensures(i as int, st);
                    assert(self.streams@ =~= old(self).streams@.update(i as int, st));
                    assert(forall|j: int|
                        0 <= j < i ==> (#[trigger] self.streams@[j]) == old(self).streams@[j]
                            && self.streams@[j].id != stream_id);
                    assert(self.streams@[i as int] == st);
                    lemma_stream_idx_of_prefix(self.streams@, stream_id, i as int);
                    assert(stream_idx(self.streams@, stream_id) == i);
                    assert(forall|j: int|
                        0 <= j < self.streams@.len() ==> (#[trigger] self.streams@[j]).ledger_ok());
                }
                return ;
            }
            i = i + 1;
        }
        self.streams.push(st);
        proof {
            assert(forall|j: int|
                0 <= j < n ==> (#[trigger] self.streams@[j]) == old(self).streams@[j]);
            lemma_stream_idx_of_prefix(self.streams@, stream_id, n as int);
            assert(self.streams@[n as int] == st);
        }
    }

    /// Drops the record of a stream.
    pub fn remove_stream(&mut self, stream_id: u32)
        requires
            old(self).wf(),
        ensures
            final(self).wf(),
            final(self).streams@ == old(self).streams@.filter(
                |t: StreamState| t.id != stream_id,
            ),
            final(self).spec_stream(stream_id) is None,
            final(self).connection_window == old(self).connection_window,
            final(self).connection_recv_window == old(self).connection_recv_window,
            final(self).conn_recv_total == old(self).conn_recv_total,
            final(self).conn_update_sum == old(self).conn_update_sum,
            final(self).window_updates == old(self).window_updates,
    {
        let ghost full = self.streams@;
        let ghost pred = |t: StreamState| t.id != stream_id;
        let mut kept: Vec<StreamState> = Vec::new();
        proof {
            reveal(Seq::filter);
            assert(full.take(0) =~= Seq::<StreamState>::empty());
            assert(full.skip(0) =~= full);
            assert(kept@ =~= full.take(0).filter(pred));
        }
        while self.streams.len() > 0
            invariant
                old(self).wf(),
                full == old(self).streams@,
                self.connection_window == old(self).connection_window,
                self.connection_recv_window == old(self).connection_recv_window,
                self.conn_recv_total == old(self).conn_recv_total,
                self.conn_update_sum == old(self).conn_update_sum,
                self.window_updates == old(self).window_updates,
                self.streams@.len() <= full.len(),
                self.streams@ == full.skip(full.len() - self.streams@.len()),
                kept@ == full.take(full.len() - self.streams@.len()).filter(pred),
                pred == (|t: StreamState| t.id != stream_id),
                forall|j: int|
                    0 <= j < kept@.len() ==> (#[trigger] kept@[j]).ledger_ok() && kept@[j].id
                        != stream_id,
            decreases self.streams@.len(),
        {
            let ghost pre = self.streams@;
            let ghost done = full.len() - pre.len();
            let e = self.streams.remove(0);
            proof {
                reveal(Seq::filter);
                assert(pre[0] == full.skip(done)[0]);
                assert(e == full[done]);
                assert(self.streams@ =~= full.skip(done + 1));
                assert(full.take(done + 1).drop_last() =~= full.take(done));
                assert(full.take(done + 1).last() == full[done]);
            }
            if !(e.id == stream_id) {
                kept.push(e);
                proof {
                    assert(e.ledger_ok());
                    assert(kept@ == full.take(done + 1).filter(pred));
                }
            } else {
                proof {
                    assert(kept@ == full.take(done + 1).filter(pred));
                }
            }
        }
        proof {
            assert(full.take(full.len() as int) =~= full);
        }
        self.streams = kept;
        proof {
            lemma_stream_idx_bounds(self.streams@, stream_id);
        }
    }

    /// Spends send window on a stream and on the connection: succeeds
    /// exactly when the stream exists and both windows cover the amount.
    pub fn consume_window(&mut self, stream_id: u32, bytes: u32) -> (r: Result<bool, FlowError>)
        requires
            old(self).wf(),
        ensures
            final(self).wf(),
            r is Ok,
            ({
                let granted = old(self).connection_window >= bytes && (old(self).spec_stream(
                    stream_id,
                ) matches Some(st) && st.window_size >= bytes);
                &&& r == Ok::<bool, FlowError>(granted)
                &&& granted ==> final(self).connection_window == old(self).connection_window
                    - bytes && (final(self).spec_stream(stream_id) matches Some(st2)
                    && st2.window_size == old(self).spec_stream(stream_id)->Some_0.window_size
                    - bytes)
                &&& !granted ==> final(self).streams@ == old(self).streams@ && final(self).connection_window == old(self).connection_window
            }),
    {
        if self.connection_window < bytes {
            return Ok(false);
        }
        let n = self.streams.len();
        let mut i: usize = 0;
        while i < n
            invariant
                old(self).wf(),
                self.connection_window >= bytes,
                n == self.streams@.len(),
                i <= n,
                forall|j: int| 0 <= j < i ==> (#[trigger] self.streams@[j]).id != stream_id,
                *self == *old(self),
            decreases n - i,
        {
            if self.streams[i].id == stream_id {
                proof {
                    lemma_stream_idx_of_prefix(self.streams@, stream_id, i as int);
                }
                let mut st = self.streams.remove(i);
                let ok = st.consume_window(bytes);
                self.streams.insert(i, st);
                proof {
                    old(self).streams@.remove_ensures(i as int);
                    old(self).streams@.remove(i as int).insert_ensures(i as int, st);
                    assert(self.streams@ =~= old(self).streams@.update(i as int, st));
                    assert(forall|j: int|
                        0 <= j < i ==> (#[trigger] self.streams@[j]) == old(self).streams@[j]);
                    lemma_stream_idx_of_prefix(self.streams@, stream_id, i as int);
                }
                if ok {
                    self.connection_window = self.connection_window - bytes;
                    return Ok(true);
                } else {
                    proof {
                        assert(self.streams@ =~= old(self).streams@);
                    }
                    return Ok(false);
                }
            }
            i = i + 1;
        }
        proof {
            lemma_stream_idx_of_prefix(self.streams@, stream_id, n as int);
        }
        Ok(false)
    }

    /// Adds a WINDOW_UPDATE increment to the named send window, the
    /// connection's when the id is zero, saturating at the protocol cap.
    pub fn update_window(&mut self, stream_id: u32, increment: u32)
        requires
            old(self).wf(),
        ensures
            final(self).wf(),
            stream_id == 0 ==> final(self).connection_window == (if old(self).connection_window
                + increment <= MAX_WINDOW {
                old(self).connection_window + increment
            } else {
                MAX_WINDOW as int
            }) && final(self).streams == old(self).streams,
            stream_id != 0 ==> final(self).connection_window == old(self).connection_window && (
            match old(self).spec_stream(stream_id) {
                Some(st) => final(self).streams@ == old(self).streams@.update(
                    stream_idx(old(self).streams@, stream_id),
                    widened(st, increment),
                ),
                None => final(self).streams == old(self).streams,
            }),
            final(self).connection_recv_window == old(self).connection_recv_window,
            final(self).window_updates == old(self).window_updates,
            final(self).conn_recv_total == old(self).conn_recv_total,
            final(self).conn_update_sum == old(self).conn_update_sum,
    {
        if stream_id == 0 {
            if increment <= MAX_WINDOW && self.connection_window <= MAX_WINDOW - increment {
                self.connection_window = self.connection_window + increment;
            } else {
                self.connection_window = MAX_WINDOW;
            }
            return ;
        }
        let n = self.streams.len();
        let mut i: usize = 0;
        while i < n
            invariant
                old(self).wf(),
                stream_id != 0,
                n == self.streams@.len(),
                i <= n,
                forall|j: int| 0 <= j < i ==> (#[trigger] self.streams@[j]).id != stream_id,
                *self == *old(self),
            decreases n - i,
        {
            if self.streams[i].id == stream_id {
                proof {
                    lemma_stream_idx_of_prefix(self.streams@, stream_id, i as int);
                }
                let mut st = self.streams.remove(i);
                proof {
                    assert(old(self).streams@[i as int].ledger_ok());
                }
                st.add_window(increment);
                self.streams.insert(i, st);
                proof {
                    old(self).streams@.remove_ensures(i as int);
                    old(self).streams@.remove(i as int).insert_ensures(i as int, st);
                    assert(self.streams@ =~= old(self).streams@.update(i as int, st));
                    assert(st =~= widened(old(self).streams@[i as int], increment));
                    assert(st.ledger_ok());
                    assert(forall|j: int|
                        0 <= j < i ==> (#[trigger] self.streams@[j]) == old(self).streams@[j]);
                    lemma_stream_idx_of_prefix(self.streams@, stream_id, i as int);
                    assert(forall|j: int|
                        0 <= j < self.streams@.len() ==> (#[trigger] self.streams@[j]).ledger_ok());
                }
                return ;
            }
            i = i + 1;
        }
        proof {
            lemma_stream_idx_of_prefix(self.streams@, stream_id, n as int);
        }
    }

    /// Counts received DATA against the stream and connection receive
    /// windows; refuses an amount beyond either, leaving both unchanged.
    #[verifier::rlimit(100)]
    pub fn record_received(&mut self, stream_id: u32, bytes: u32) -> (ok: bool)
        requires
            old(self).wf(),
        ensures
            final(self).wf(),
            ok == (bytes <= old(self).connection_recv_window && (old(self).spec_stream(
                stream_id,
            ) matches Some(st) && bytes <= st.recv_window)),
            ok ==> final(self).connection_recv_window == old(self).connection_recv_window - bytes
                && final(self).conn_recv_total@ == old(self).conn_recv_total@ + bytes && (final(self).spec_stream(stream_id) matches Some(st2) && st2.recv_window == old(self).spec_stream(stream_id)->Some_0.recv_window - bytes && st2.recv_total@ == old(self).spec_stream(stream_id)->Some_0.recv_total@ + bytes),
            !ok ==> final(self).connection_recv_window == old(self).connection_recv_window
                && final(self).conn_recv_total == old(self).conn_recv_total && final(self).streams@
                == old(self).streams@,
            final(self).connection_window == old(self).connection_window,
            final(self).window_updates == old(self).window_updates,
            final(self).conn_update_sum == old(self).conn_update_sum,
    {
        if bytes > self.connection_recv_window {
            return false;
        }
        let n = self.streams.len();
        let mut i: usize = 0;
        while i < n
            invariant
                old(self).wf(),
                bytes <= self.connection_recv_window,
                n == self.streams@.len(),
                i <= n,
                forall|j: int| 0 <= j < i ==> (#[trigger] self.streams@[j]).id != stream_id,
                *self == *old(self),
            decreases n - i,
        {
            if self.streams[i].id == stream_id {
                proof {
                    lemma_stream_idx_of_prefix(self.streams@, stream_id, i as int);
                }
                let mut st = self.streams.remove(i);
                proof {
                    assert(old(self).streams@[i as int].ledger_ok());
                }
                let ok = st.update_received(bytes);
                self.streams.insert(i, st);
                proof {
                    old(self).streams@.remove_ensures(i as int);
                    old(self).streams@.remove(i as int).insert_ensures(i as int, st);
                    assert(self.streams@ =~= old(self).streams@.update(i as int, st));
                    assert(forall|j: int|
                        0 <= j < i ==> (#[trigger] self.streams@[j]) == old(self).streams@[j]);
                    lemma_stream_idx_of_prefix(self.streams@, stream_id, i as int);
                }
                if ok {
                    self.connection_recv_window = self.connection_recv_window - bytes;
                    proof {
                        self.conn_recv_total@ = self.conn_recv_total@ + bytes;
                    }
                    return true;
                } else {
                    proof {
                        assert(st == old(self).streams@[i as int]);
                        assert(self.streams@ =~= old(self).streams@);
                    }
                    return false;
                }
            }
            i = i + 1;
        }
        proof {
            lemma_stream_idx_of_prefix(self.streams@, stream_id, n as int);
        }
        false
    }

    /// Whether a stream record exists for an id.
    pub fn has_stream(&self, stream_id: u32) -> (r: bool)
        ensures
            r == (self.spec_stream(stream_id) is Some),
    {
        let n = self.streams.len();
        let mut i: usize = 0;
        while i < n
            invariant
                n == self.streams@.len(),
                i <= n,
                forall|j: int| 0 <= j < i ==> (#[trigger] self.streams@[j]).id != stream_id,
            decreases n - i,
        {
            if self.streams[i].id == stream_id {
                proof {
                    lemma_stream_idx_of_prefix(self.streams@, stream_id, i as int);
                }
                return true;
            }
            i = i + 1;
        }
        proof {
            lemma_stream_idx_of_prefix(self.streams@, stream_id, n as int);
        }
        false
    }

    /// The front of the queued WINDOW_UPDATE increments.
    pub fn pop_window_update(&mut self) -> (r: Option<(u32, u32)>)
        requires
            old(self).wf(),
        ensures
            final(self).wf(),
            old(self).window_updates@.len() == 0 ==> r is None && *final(self) == *old(self),
            old(self).window_updates@.len() > 0 ==> r == Some(old(self).window_updates@[0])
                && final(self).window_updates@ == old(self).window_updates@.drop_first() && final(self).streams == old(self).streams && final(self).connection_recv_window == old(self).connection_recv_window && final(self).conn_update_sum == old(self).conn_update_sum
                && final(self).conn_recv_total == old(self).conn_recv_total && final(self).connection_window == old(self).connection_window,
    {
        if self.window_updates.len() == 0 {
            None
        } else {
            let p = self.window_updates.remove(0);
            Some(p)
        }
    }

    /// The fixed pause between emission rounds, in milliseconds.
    pub fn natural_update_interval(&self) -> (r: u64)
        ensures
            r == UPDATE_INTERVAL_MS,
    {
        UPDATE_INTERVAL_MS
    }

    /// Whether a full emission interval has passed at the given instant.
    pub fn should_send_updates_at(&self, now: u64) -> (r: bool)
        ensures
            r == (now >= self.last_update_time + UPDATE_INTERVAL_MS),
    {
        now >= self.last_update_time && now - self.last_update_time >= UPDATE_INTERVAL_MS
    }

    /// Whether a full emission interval has passed.
    pub fn should_send_updates(&self) -> (r: bool)
        ensures
            exists|now: u64| r == #[trigger] interval_passed(self.last_update_time, now),
    {
        let now = now_millis();
        let r = self.should_send_updates_at(now);
        proof {
            assert(r == interval_passed(self.last_update_time, now));
        }
        r
    }

    /// Refills the connection window and every stream window that fell
    /// below the threshold, queueing one WINDOW_UPDATE increment for each;
    /// a refilled ledger then has its increments equal its received bytes.
    pub fn check_and_queue_updates(&mut self)
        requires
            old(self).wf(),
        ensures
            final(self).wf(),
            final(self).window_updates@ == old(self).window_updates@ + conn_refill_pairs(
                old(self).connection_recv_window,
            ) + stream_refill_pairs(old(self).streams@),
            final(self).connection_recv_window >= WINDOW_UPDATE_THRESHOLD,
            final(self).connection_recv_window == INITIAL_WINDOW_SIZE ==> final(self).conn_update_sum@ == final(self).conn_recv_total@,
            old(self).connection_recv_window < WINDOW_UPDATE_THRESHOLD ==> final(self).conn_update_sum@ == final(self).conn_recv_total@,
            final(self).streams@.len() == old(self).streams@.len(),
            forall|i: int|
                0 <= i < final(self).streams@.len() ==> (#[trigger] final(self).streams@[i])
                    == (if old(self).streams@[i].recv_window < WINDOW_UPDATE_THRESHOLD {
                    refilled(old(self).streams@[i])
                } else {
                    old(self).streams@[i]
                }),
            forall|i: int|
                0 <= i < final(self).streams@.len() && old(self).streams@[i].recv_window
                    < WINDOW_UPDATE_THRESHOLD ==> (#[trigger] final(self).streams@[i]).update_sum@
                    == final(self).streams@[i].recv_total@,
            final(self).connection_window == old(self).connection_window,
    {
        if self.connection_recv_window < WINDOW_UPDATE_THRESHOLD {
            let inc = INITIAL_WINDOW_SIZE - self.connection_recv_window;
            self.window_updates.push((0, inc));
            self.connection_recv_window = INITIAL_WINDOW_SIZE;
            proof {
                self.conn_update_sum@ = self.conn_update_sum@ + inc;
            }
        }
        proof {
            assert(self.window_updates@ =~= old(self).window_updates@ + conn_refill_pairs(
                old(self).connection_recv_window,
            ));
            assert(old(self).streams@.take(0) =~= Seq::<StreamState>::empty());
        }
        let n = self.streams.len();
        let mut i: usize = 0;
        while i < n
            invariant
                n == self.streams@.len(),
                i <= n,
                self.wf(),
                self.window_updates@ == old(self).window_updates@ + conn_refill_pairs(
                    old(self).connection_recv_window,
                ) + stream_refill_pairs(old(self).streams@.take(i as int)),
                self.streams@.len() == old(self).streams@.len(),
                forall|j: int|
                    0 <= j < i ==> (#[trigger] self.streams@[j]) == (if old(self).streams@[j].recv_window < WINDOW_UPDATE_THRESHOLD {
                        refilled(old(self).streams@[j])
                    } else {
                        old(self).streams@[j]
                    }),
                forall|j: int|
                    i <= j < n ==> (#[trigger] self.streams@[j]) == old(self).streams@[j],
                forall|j: int|
                    0 <= j < i && old(self).streams@[j].recv_window < WINDOW_UPDATE_THRESHOLD
                        ==> (#[trigger] self.streams@[j]).update_sum@
                        == self.streams@[j].recv_total@,
                self.connection_window == old(self).connection_window,
                self.connection_recv_window >= WINDOW_UPDATE_THRESHOLD,
                self.connection_recv_window == INITIAL_WINDOW_SIZE ==> self.conn_update_sum@
                    == self.conn_recv_total@,
                old(self).connection_recv_window < WINDOW_UPDATE_THRESHOLD
                    ==> self.conn_update_sum@ == self.conn_recv_total@,
            decreases n - i,
        {
            if self.streams[i].should_send_window_update() {
                let ghost pre = self.streams@;
                let mut st = self.streams.remove(i);
                proof {
                    assert(pre[i as int].ledger_ok());
                    assert(pre[i as int] == old(self).streams@[i as int]);
                }
                let inc = st.refill_recv_window();
                let id = st.id;
                self.streams.insert(i, st);
                self.window_updates.push((id, inc));
                proof {
                    pre.remove_ensures(i as int);
                    pre.remove(i as int).insert_ensures(i as int, st);
                    assert(self.streams@ =~= pre.update(i as int, st));
                    assert(st =~= refilled(old(self).streams@[i as int]));
                    assert(forall|j: int|
                        0 <= j < n && j != i ==> (#[trigger] self.streams@[j]) == pre[j]);
                    lemma_stream_refill_pairs_push(
                        old(self).streams@.take(i as int),
                        old(self).streams@[i as int],
                    );
                    assert(old(self).streams@.take(i as int + 1) =~= old(self).streams@.take(
                        i as int,
                    ).push(old(self).streams@[i as int]));
                }
            } else {
                proof {
                    lemma_stream_refill_pairs_push(
                        old(self).streams@.take(i as int),
                        old(self).streams@[i as int],
                    );
                    assert(old(self).streams@.take(i as int + 1) =~= old(self).streams@.take(
                        i as int,
                    ).push(old(self).streams@[i as int]));
                    assert(stream_refill_pairs(old(self).streams@.take(i as int + 1))
                        =~= stream_refill_pairs(old(self).streams@.take(i as int)));
                }
            }
            i = i + 1;
        }
        proof {
            assert(old(self).streams@.take(n as int) =~= old(self).streams@);
        }
        self.last_update_time = now_millis();
    }
}

/// Whether a full emission interval separates the two instants.
pub open spec fn interval_passed(last: u64, now: u64) -> bool {
    now >= last + UPDATE_INTERVAL_MS
}

/// The connection-scope refill pair owed at the given receive window.
pub open spec fn conn_refill_pairs(w: u32) -> Seq<(u32, u32)> {
    if w < WINDOW_UPDATE_THRESHOLD {
        seq![(0u32, (INITIAL_WINDOW_SIZE - w) as u32)]
    } else {
        Seq::empty()
    }
}

/// The per-stream refill pairs owed, one per stream below the threshold,
/// in stream order.
pub open spec fn stream_refill_pairs(ss: Seq<StreamState>) -> Seq<(u32, u32)>
    decreases ss.len(),
{
    if ss.len() == 0 {
        Seq::empty()
    } else {
        (if ss[0].recv_window < WINDOW_UPDATE_THRESHOLD {
            seq![(ss[0].id, (INITIAL_WINDOW_SIZE - ss[0].recv_window) as u32)]
        } else {
            Seq::empty()
        }) + stream_refill_pairs(ss.drop_first())
    }
}

pub proof fn lemma_stream_refill_pairs_push(ss: Seq<StreamState>, x: StreamState)
    ensures
        stream_refill_pairs(ss.push(x)) == stream_refill_pairs(ss) + (
        if x.recv_window < WINDOW_UPDATE_THRESHOLD {
            seq![(x.id, (INITIAL_WINDOW_SIZE - x.recv_window) as u32)]
        } else {
            Seq::empty()
        }),
    decreases ss.len(),
{
    let tail = if x.recv_window < WINDOW_UPDATE_THRESHOLD {
        seq![(x.id, (INITIAL_WINDOW_SIZE - x.recv_window) as u32)]
    } else {
        Seq::<(u32, u32)>::empty()
    };
    assert(ss.push(x).len() == ss.len() + 1);
    if ss.len() == 0 {
        assert(ss.push(x)[0] == x);
        assert(ss.push(x).drop_first() =~= Seq::<StreamState>::empty());
        assert(stream_refill_pairs(Seq::<StreamState>::empty()) =~= Seq::<(u32, u32)>::empty());
        assert(stream_refill_pairs(ss.push(x)) =~= tail + Seq::<(u32, u32)>::empty());
        assert(stream_refill_pairs(ss.push(x)) =~= stream_refill_pairs(ss) + tail);
    } else {
        assert(ss.push(x)[0] == ss[0]);
        assert(ss.push(x).drop_first() =~= ss.drop_first().push(x));
        lemma_stream_refill_pairs_push(ss.drop_first(), x);
        assert(stream_refill_pairs(ss.push(x)) =~= stream_refill_pairs(ss) + tail);
    }
}

/// A stream with a WINDOW_UPDATE increment credited to its send window,
/// saturating at the protocol cap; nothing else moves.
pub open spec fn widened(s: StreamState, increment: u32) -> StreamState {
    StreamState {
        id: s.id,
        window_size: if s.window_size + increment <= MAX_WINDOW {
            (s.window_size + increment) as u32
        } else {
            MAX_WINDOW
        },
        recv_window: s.recv_window,
        bytes_sent: s.bytes_sent,
        bytes_received: s.bytes_received,
        last_update: s.last_update,
        priority: s.priority,
        recv_total: s.recv_total,
        update_sum: s.update_sum,
    }
}

/// A stream with its receive window refilled and the increment recorded.
pub open spec fn refilled(s: StreamState) -> StreamState {
    StreamState {
        id: s.id,
        window_size: s.window_size,
        recv_window: INITIAL_WINDOW_SIZE,
        bytes_sent: s.bytes_sent,
        bytes_received: s.bytes_received,
        last_update: s.last_update,
        priority: s.priority,
        recv_total: s.recv_total,
        update_sum: Ghost(s.update_sum@ + (INITIAL_WINDOW_SIZE - s.recv_window)),
    }
}

pub proof fn lemma_stream_idx_of_prefix(ss: Seq<StreamState>, id: u32, i: int)
    requires
        0 <= i <= ss.len(),
        forall|j: int| 0 <= j < i ==> (#[trigger] ss[j]).id != id,
    ensures
        i < ss.len() && ss[i].id == id ==> stream_idx(ss, id) == i,
        i == ss.len() ==> stream_idx(ss, id) == ss.len(),
    decreases ss.len(),
{
    if ss.len() > 0 {
        if i > 0 {
            assert(forall|j: int|
                0 <= j < i - 1 ==> ss.drop_first()[j] == ss[j + 1] && (#[trigger] ss.drop_first()[j]).id
                    != id);
            lemma_stream_idx_of_prefix(ss.drop_first(), id, i - 1);
        }
    }
}

/// The ledger law: once a receive window stands refilled, the increments
/// put on the wire for it account for every received byte.
pub proof fn lemma_window_update_ledger(fc: FlowController, i: int)
    requires
        fc.wf(),
        0 <= i < fc.streams@.len(),
        fc.streams@[i].recv_window == INITIAL_WINDOW_SIZE,
    ensures
        fc.streams@[i].update_sum@ == fc.streams@[i].recv_total@,
{
    assert(fc.streams@[i].ledger_ok());
}

/// The ledger law at connection scope.
pub proof fn lemma_connection_ledger(fc: FlowController)
    requires
        fc.wf(),
        fc.connection_recv_window == INITIAL_WINDOW_SIZE,
    ensures
        fc.conn_update_sum@ == fc.conn_recv_total@,
{
}

/// Windows never go negative: every window of a well-formed controller is
/// a non-negative count.
pub proof fn lemma_windows_nonnegative(fc: FlowController)
    requires
        fc.wf(),
    ensures
        fc.connection_window >= 0,
        fc.connection_recv_window >= 0,
        forall|i: int|
            0 <= i < fc.streams@.len() ==> (#[trigger] fc.streams@[i]).window_size >= 0
                && fc.streams@[i].recv_window >= 0,
{
}

// ---------------------------------------------------------------------------
// Priority tree.
// ---------------------------------------------------------------------------

/// Index of the first entry with an id, or the length when absent.
pub open spec fn prio_idx(es: Seq<(u32, StreamPriority)>, id: u32) -> int
    decreases es.len(),
{
    if es.len() == 0 {
        0
    } else if es[0].0 == id {
        0
    } else {
        1 + prio_idx(es.drop_first(), id)
    }
}

pub proof fn lemma_prio_idx_bounds(es: Seq<(u32, StreamPriority)>, id: u32)
    ensures
        0 <= prio_idx(es, id) <= es.len(),
        prio_idx(es, id) < es.len() ==> es[prio_idx(es, id)].0 == id,
        forall|j: int| 0 <= j < prio_idx(es, id) ==> es[j].0 != id,
    decreases es.len(),
{
    if es.len() > 0 && es[0].0 != id {
        lemma_prio_idx_bounds(es.drop_first(), id);
        assert(forall|j: int|
            1 <= j < prio_idx(es, id) ==> es[j] == es.drop_first()[j - 1] && es[j].0 != id);
    }
}

pub proof fn lemma_prio_idx_of_prefix(es: Seq<(u32, StreamPriority)>, id: u32, i: int)
    requires
        0 <= i <= es.len(),
        forall|j: int| 0 <= j < i ==> (#[trigger] es[j]).0 != id,
    ensures
        i < es.len() && es[i].0 == id ==> prio_idx(es, id) == i,
        i == es.len() ==> prio_idx(es, id) == es.len(),
    decreases es.len(),
{
    if es.len() > 0 && i > 0 {
        assert(forall|j: int|
            0 <= j < i - 1 ==> es.drop_first()[j] == es[j + 1] && (#[trigger] es.drop_first()[j]).0
                != id);
        lemma_prio_idx_of_prefix(es.drop_first(), id, i - 1);
    }
}

/// Dependencies of client streams, keyed by stream id.
pub struct PriorityTree {
    pub streams: Vec<(u32, StreamPriority)>,
}

/// Whether a bounded walk up the dependency chain from `cur` reaches
/// `target` before the root or an unknown stream.
pub open spec fn cycle_walk(
    es: Seq<(u32, StreamPriority)>,
    cur: u32,
    target: u32,
    fuel: nat,
) -> bool
    decreases fuel,
{
    if cur == target {
        true
    } else if cur == 0 {
        false
    } else if fuel == 0 {
        false
    } else if prio_idx(es, cur) < es.len() {
        cycle_walk(es, es[prio_idx(es, cur)].1.depends_on, target, (fuel - 1) as nat)
    } else {
        false
    }
}

/// The weight byte a stored weight becomes on the wire.
pub open spec fn wire_weight(w: u16) -> u8 {
    if w == 0 {
        0u8
    } else if w >= 256 {
        255u8
    } else {
        (w - 1) as u8
    }
}

/// The 5-byte PRIORITY payload plus frame header for one stream.
pub open spec fn priority_frame_bytes(stream_id: u32, p: StreamPriority) -> Seq<u8> {
    seq![0u8, 0u8, 5u8, 0x02u8, 0x00u8] + be4_of_u32(stream_id) + be4_of_u32(
        if p.exclusive {
            (p.depends_on | 0x80000000) as u32
        } else {
            (p.depends_on & 0x7fffffff) as u32
        },
    ) + seq![wire_weight(p.weight)]
}

impl PriorityTree {
    /// The entry for a stream.
    pub open spec fn spec_priority(&self, id: u32) -> Option<StreamPriority> {
        prio_first(self.streams@, id)
    }

    /// An empty tree.
    pub fn new() -> (t: Self)
        ensures
            t.streams@.len() == 0,
    {
        PriorityTree { streams: Vec::new() }
    }

    /// The dependency layout the emulated client stack opens with.
    pub fn ios_safari_defaults() -> (t: Self)
        ensures
            t.spec_priority(3) == Some(
                StreamPriority { depends_on: 0u32, weight: 200u16, exclusive: false },
            ),
            t.spec_priority(5) == Some(
                StreamPriority { depends_on: 0u32, weight: 100u16, exclusive: false },
            ),
            t.spec_priority(7) == Some(
                StreamPriority { depends_on: 0u32, weight: 0u16, exclusive: false },
            ),
    {
        let mut t = PriorityTree::new();
        t.add_stream(3, StreamPriority { depends_on: 0, weight: 200, exclusive: false });
        t.add_stream(5, StreamPriority { depends_on: 0, weight: 100, exclusive: false });
        t.add_stream(7, StreamPriority { depends_on: 0, weight: 0, exclusive: false });
        t
    }

    /// Records the priority of a stream, replacing any earlier entry.
    pub fn add_stream(&mut self, stream_id: u32, priority: StreamPriority)
        ensures
            final(self).spec_priority(stream_id) == Some(priority),
            forall|id2: u32|
                id2 != stream_id ==> #[trigger] final(self).spec_priority(id2) == old(
                    self,
                ).spec_priority(id2),
    {
        let n = self.streams.len();
        let mut i: usize = 0;
        while i < n
            invariant
                n == self.streams@.len(),
                i <= n,
                forall|j: int| 0 <= j < i ==> (#[trigger] self.streams@[j]).0 != stream_id,
                *self == *old(self),
            decreases n - i,
        {
            if self.streams[i].0 == stream_id {
                let _gone = self.streams.remove(i);
                self.streams.insert(i, (stream_id, priority));
                proof {
                    old(self).streams@.remove_ensures(i as int);
                    old(self).streams@.remove(i as int).insert_ensures(
                        i as int,
                        (stream_id, priority),
                    );
                    assert(self.streams@ =~= old(self).streams@.update(
                        i as int,
                        (stream_id, priority),
                    ));
                    assert(forall|j: int|
                        0 <= j < i ==> (#[trigger] self.streams@[j]) == old(self).streams@[j]);
                    lemma_prio_idx_of_prefix(self.streams@, stream_id, i as int);
                    lemma_upsert_others(old(self).streams@, self.streams@, stream_id, i as int);
                }
                return ;
            }
            i = i + 1;
        }
        self.streams.push((stream_id, priority));
        proof {
            assert(forall|j: int|
                0 <= j < n ==> (#[trigger] self.streams@[j]) == old(self).streams@[j]);
            lemma_prio_idx_of_prefix(self.streams@, stream_id, n as int);
            lemma_upsert_others(old(self).streams@, self.streams@, stream_id, n as int);
        }
    }

    /// Applies an incoming PRIORITY: one whose dependency chain would loop
    /// back to the stream is reparented to the root with the stated weight.
    pub fn update_priority(&mut self, stream_id: u32, priority: StreamPriority)
        ensures
            ({
                let cyc = cycle_walk(
                    old(self).streams@,
                    priority.depends_on,
                    stream_id,
                    old(self).streams@.len() as nat,
                );
                let stored = if cyc {
                    StreamPriority {
                        depends_on: 0u32,
                        weight: priority.weight,
                        exclusive: priority.exclusive,
                    }
                } else {
                    priority
                };
                &&& final(self).spec_priority(stream_id) == Some(stored)
                &&& forall|id2: u32|
                    id2 != stream_id ==> #[trigger] final(self).spec_priority(id2) == old(
                        self,
                    ).spec_priority(id2)
            }),
    {
        let mut cur = priority.depends_on;
        let mut fuel = self.streams.len();
        let mut cyc = false;
        let ghost es = self.streams@;
        loop
            invariant_except_break
                cyc == false,
                cycle_walk(es, priority.depends_on, stream_id, es.len() as nat) == cycle_walk(
                    es,
                    cur,
                    stream_id,
                    fuel as nat,
                ),
                fuel <= es.len(),
            invariant
                es == self.streams@,
            ensures
                cycle_walk(es, priority.depends_on, stream_id, es.len() as nat) == cyc,
            decreases fuel + 1,
        {
            if cur == stream_id {
                cyc = true;
                break ;
            }
            if cur == 0 || fuel == 0 {
                break ;
            }
            match self.find_dep(cur) {
                Some(dep) => {
                    proof {
                        lemma_prio_idx_bounds(es, cur);
                    }
                    cur = dep;
                    fuel = fuel - 1;
                },
                None => {
                    break ;
                },
            }
        };
        if cyc {
            self.add_stream(
                stream_id,
                StreamPriority {
                    depends_on: 0,
                    weight: priority.weight,
                    exclusive: priority.exclusive,
                },
            );
        } else {
            self.add_stream(stream_id, priority);
        }
    }

    /// The dependency of a stream, if it is in the tree.
    fn find_dep(&self, id: u32) -> (r: Option<u32>)
        ensures
            match r {
                Some(d) => prio_idx(self.streams@, id) < self.streams@.len() && d
                    == self.streams@[prio_idx(self.streams@, id)].1.depends_on,
                None => prio_idx(self.streams@, id) == self.streams@.len(),
            },
    {
        let n = self.streams.len();
        let mut i: usize = 0;
        while i < n
            invariant
                n == self.streams@.len(),
                i <= n,
                forall|j: int| 0 <= j < i ==> (#[trigger] self.streams@[j]).0 != id,
            decreases n - i,
        {
            if self.streams[i].0 == id {
                proof {
                    lemma_prio_idx_of_prefix(self.streams@, id, i as int);
                }
                return Some(self.streams[i].1.depends_on);
            }
            i = i + 1;
        }
        proof {
            lemma_prio_idx_of_prefix(self.streams@, id, n as int);
        }
        None
    }

    /// The priority recorded for a stream.
    pub fn get_priority(&self, stream_id: u32) -> (r: Option<StreamPriority>)
        ensures
            r == self.spec_priority(stream_id),
    {
        let n = self.streams.len();
        let mut i: usize = 0;
        while i < n
            invariant
                n == self.streams@.len(),
                i <= n,
                forall|j: int| 0 <= j < i ==> (#[trigger] self.streams@[j]).0 != stream_id,
            decreases n - i,
        {
            if self.streams[i].0 == stream_id {
                proof {
                    lemma_prio_idx_of_prefix(self.streams@, stream_id, i as int);
                }
                return Some(self.streams[i].1);
            }
            i = i + 1;
        }
        proof {
            lemma_prio_idx_of_prefix(self.streams@, stream_id, n as int);
        }
        None
    }

    /// The PRIORITY frame for a stream in the tree.
    pub fn to_priority_frame(&self, stream_id: u32) -> (r: Option<Vec<u8>>)
        ensures
            match self.spec_priority(stream_id) {
                Some(p) => r matches Some(b) && b@ == priority_frame_bytes(stream_id, p),
                None => r is None,
            },
    {
        let p = match self.get_priority(stream_id) {
            Some(p) => p,
            None => {
                return None;
            },
        };
        let mut frame: Vec<u8> = Vec::new();
        frame.push(0);
        frame.push(0);
        frame.push(5);
        frame.push(0x02);
        frame.push(0x00);
        let (a0, a1, a2, a3) = split_u32_be(stream_id);
        frame.push(a0);
        frame.push(a1);
        frame.push(a2);
        frame.push(a3);
        let dep: u32 = if p.exclusive {
            p.depends_on | 0x80000000
        } else {
            p.depends_on & 0x7fffffff
        };
        let (d0, d1, d2, d3) = split_u32_be(dep);
        frame.push(d0);
        frame.push(d1);
        frame.push(d2);
        frame.push(d3);
        let w: u8 = if p.weight == 0 {
            0
        } else if p.weight >= 256 {
            255
        } else {
            (p.weight - 1) as u8
        };
        frame.push(w);
        proof {
            assert(frame@ =~= priority_frame_bytes(stream_id, p));
        }
        Some(frame)
    }
}

/// Replacing or appending the entry of one id leaves every other id's
/// first entry unchanged.
pub proof fn lemma_upsert_others(
    a: Seq<(u32, StreamPriority)>,
    b: Seq<(u32, StreamPriority)>,
    id: u32,
    i: int,
)
    requires
        0 <= i <= a.len(),
        b.len() == a.len() || (i == a.len() && b.len() == a.len() + 1),
        forall|j: int| 0 <= j < a.len() && j != i ==> #[trigger] b[j] == a[j],
        i < b.len() ==> b[i].0 == id,
        i < a.len() ==> a[i].0 == id,
    ensures
        forall|id2: u32|
            id2 != id ==> #[trigger] prio_first(b, id2) == prio_first(a, id2),
{
    assert forall|id2: u32| id2 != id implies #[trigger] prio_first(b, id2) == prio_first(
        a,
        id2,
    ) by {
        lemma_prio_first_step(a, b, id, id2, i);
    }
}

/// The first entry's priority for an id.
pub open spec fn prio_first(es: Seq<(u32, StreamPriority)>, id: u32) -> Option<StreamPriority> {
    if prio_idx(es, id) < es.len() {
        Some(es[prio_idx(es, id)].1)
    } else {
        None
    }
}

pub proof fn lemma_prio_first_step(
    a: Seq<(u32, StreamPriority)>,
    b: Seq<(u32, StreamPriority)>,
    id: u32,
    id2: u32,
    i: int,
)
    requires
        0 <= i <= a.len(),
        b.len() == a.len() || (i == a.len() && b.len() == a.len() + 1),
        forall|j: int| 0 <= j < a.len() && j != i ==> #[trigger] b[j] == a[j],
        i < b.len() ==> b[i].0 == id,
        i < a.len() ==> a[i].0 == id,
        id2 != id,
    ensures
        prio_first(b, id2) == prio_first(a, id2),
    decreases a.len(),
{
    lemma_prio_idx_bounds(a, id2);
    lemma_prio_idx_bounds(b, id2);
    let ia = prio_idx(a, id2);
    let ib = prio_idx(b, id2);
    if ia < a.len() {
        // a's first id2 entry survives unchanged in b at the same place.
        assert(ia != i);
        assert(b[ia] == a[ia]);
        assert(forall|j: int|
            0 <= j < ia ==> (#[trigger] b[j]).0 != id2) by {
            assert forall|j: int| 0 <= j < ia implies (#[trigger] b[j]).0 != id2 by {
                if j == i {
                } else {
                    assert(b[j] == a[j]);
                }
            }
        }
        lemma_prio_idx_of_prefix(b, id2, ia);
        assert(prio_idx(b, id2) == ia);
    } else {
        // a has no id2 entry, so b has none either.
        assert(forall|j: int|
            0 <= j < b.len() ==> (#[trigger] b[j]).0 != id2) by {
            assert forall|j: int| 0 <= j < b.len() implies (#[trigger] b[j]).0 != id2 by {
                if j == i {
                } else {
                    assert(b[j] == a[j]);
                }
            }
        }
        lemma_prio_idx_of_prefix(b, id2, b.len() as int);
    }
}

// ---------------------------------------------------------------------------
// Fingerprint header ordering.
// ---------------------------------------------------------------------------

/// The models of a header list.
pub open spec fn headers_view(v: Seq<(String, String)>) -> Seq<(Seq<char>, Seq<char>)> {
    Seq::new(v.len(), |i: int| (v[i].0@, v[i].1@))
}

/// The headers whose name equals the given one, in their original order.
pub open spec fn headers_named(
    hs: Seq<(Seq<char>, Seq<char>)>,
    name: Seq<char>,
) -> Seq<(Seq<char>, Seq<char>)> {
    hs.filter(|h: (Seq<char>, Seq<char>)| h.0 == name)
}

/// The known-order part: for each known name in order, its headers.
pub open spec fn known_part(
    order: Seq<Seq<char>>,
    hs: Seq<(Seq<char>, Seq<char>)>,
) -> Seq<(Seq<char>, Seq<char>)>
    decreases order.len(),
{
    if order.len() == 0 {
        Seq::empty()
    } else {
        headers_named(hs, order[0]) + known_part(order.drop_first(), hs)
    }
}

/// The headers without a fixed slot, in their original order.
pub open spec fn unknown_part(
    order: Seq<Seq<char>>,
    hs: Seq<(Seq<char>, Seq<char>)>,
) -> Seq<(Seq<char>, Seq<char>)> {
    hs.filter(|h: (Seq<char>, Seq<char>)| !order.contains(h.0))
}

/// The full fingerprint order: known names first, in the fixed order, then
/// the rest in their original order.
pub open spec fn reorder_headers(
    order: Seq<Seq<char>>,
    hs: Seq<(Seq<char>, Seq<char>)>,
) -> Seq<(Seq<char>, Seq<char>)> {
    known_part(order, hs) + unknown_part(order, hs)
}

/// The fixed header order of the emulated client stack.
pub struct HeaderOrderPreserver {
    pub order: Vec<String>,
}

impl HeaderOrderPreserver {
    /// The pseudo-headers first, then the common request headers.
    pub fn ios_safari() -> (r: Self)
        ensures
            headers_order_view(r.order@) == spec_ios_header_order(),
    {
        let mut order: Vec<String> = Vec::new();
        order.push(string_lit_method());
        order.push(string_lit_scheme());
        order.push(string_lit_path());
        order.push(string_lit_authority());
        order.push(string_lit_accept());
        order.push(string_lit_accept_encoding());
        order.push(string_lit_accept_language());
        order.push(string_lit_user_agent());
        proof {
            assert(headers_order_view(order@) =~= spec_ios_header_order());
        }
        HeaderOrderPreserver { order }
    }

    /// Reorders a header list into the fingerprint order: for each known
    /// name in order, its headers in original order; then every unknown
    /// header in original order.
    pub fn sort_headers(&self, headers: &mut Vec<(String, String)>)
        ensures
            headers_view(final(headers)@) == reorder_headers(
                headers_order_view(self.order@),
                headers_view(old(headers)@),
            ),
    {
        let ghost orderv = headers_order_view(self.order@);
        let ghost hsv = headers_view(headers@);
        let mut out: Vec<(String, String)> = Vec::new();
        let mut k: usize = 0;
        proof {
            assert(orderv.skip(0) =~= orderv);
        }
        while k < self.order.len()
            invariant
                k <= self.order@.len(),
                orderv == headers_order_view(self.order@),
                hsv == headers_view(headers@),
                known_part(orderv, hsv) =~= headers_view(out@) + known_part(
                    orderv.skip(k as int),
                    hsv,
                ),
            decreases self.order@.len() - k,
        {
            proof {
                assert(orderv.skip(k as int)[0] == orderv[k as int]);
                assert(orderv.skip(k as int).drop_first() =~= orderv.skip(k as int + 1));
            }
            let ghost before = headers_view(out@);
            self.push_named(&mut out, headers, k);
            proof {
                assert(headers_view(out@) =~= before + headers_named(hsv, orderv[k as int]));
                assert(known_part(orderv.skip(k as int), hsv) =~= headers_named(
                    hsv,
                    orderv[k as int],
                ) + known_part(orderv.skip(k as int + 1), hsv));
                assert(headers_view(out@) + known_part(orderv.skip(k as int + 1), hsv) =~= (before
                    + headers_named(hsv, orderv[k as int])) + known_part(
                    orderv.skip(k as int + 1),
                    hsv,
                ));
            }
            k = k + 1;
        }
        proof {
            assert(known_part(orderv.skip(orderv.len() as int), hsv) =~= Seq::<
                (Seq<char>, Seq<char>),
            >::empty());
            assert(headers_view(out@) =~= known_part(orderv, hsv));
        }
        // Unknown headers keep their original order.
        let mut i: usize = 0;
        proof {
            reveal(Seq::filter);
            assert(hsv.take(0) =~= Seq::<(Seq<char>, Seq<char>)>::empty());
            assert(headers_view(out@) =~= known_part(orderv, hsv) + unknown_part(
                orderv,
                hsv.take(0),
            ));
        }
        while i < headers.len()
            invariant
                i <= headers@.len(),
                orderv == headers_order_view(self.order@),
                hsv == headers_view(headers@),
                headers_view(out@) == known_part(orderv, hsv) + unknown_part(
                    orderv,
                    hsv.take(i as int),
                ),
            decreases headers@.len() - i,
        {
            proof {
                reveal(Seq::filter);
                assert(hsv.take(i as int + 1).drop_last() =~= hsv.take(i as int));
                assert(hsv.take(i as int + 1).last() == hsv[i as int]);
            }
            let known = self.contains_name(&headers[i].0);
            proof {
                assert(hsv[i as int].0 == headers@[i as int].0@);
            }
            if !known {
                let ghost before = headers_view(out@);
                out.push((headers[i].0.clone(), headers[i].1.clone()));
                proof {
                    assert(headers_view(out@) =~= before.push(hsv[i as int]));
                    assert(unknown_part(orderv, hsv.take(i as int + 1)) =~= unknown_part(
                        orderv,
                        hsv.take(i as int),
                    ).push(hsv[i as int]));
                }
            } else {
                proof {
                    assert(unknown_part(orderv, hsv.take(i as int + 1)) =~= unknown_part(
                        orderv,
                        hsv.take(i as int),
                    ));
                }
            }
            i = i + 1;
        }
        proof {
            assert(hsv.take(hsv.len() as int) =~= hsv);
        }
        *headers = out;
    }

    /// Appends every header named by the given slot, in original order.
    fn push_named(&self, out: &mut Vec<(String, String)>, headers: &Vec<(String, String)>, k: usize)
        requires
            k < self.order@.len(),
        ensures
            headers_view(final(out)@) == headers_view(old(out)@) + headers_named(
                headers_view(headers@),
                headers_order_view(self.order@)[k as int],
            ),
    {
        let ghost hsv = headers_view(headers@);
        let ghost name = headers_order_view(self.order@)[k as int];
        let mut i: usize = 0;
        proof {
            reveal(Seq::filter);
            assert(hsv.take(0) =~= Seq::<(Seq<char>, Seq<char>)>::empty());
            assert(headers_view(out@) =~= headers_view(old(out)@) + headers_named(
                hsv.take(0),
                name,
            ));
        }
        while i < headers.len()
            invariant
                i <= headers@.len(),
                k < self.order@.len(),
                hsv == headers_view(headers@),
                name == headers_order_view(self.order@)[k as int],
                headers_view(out@) == headers_view(old(out)@) + headers_named(
                    hsv.take(i as int),
                    name,
                ),
            decreases headers@.len() - i,
        {
            proof {
                reveal(Seq::filter);
                assert(hsv.take(i as int + 1).drop_last() =~= hsv.take(i as int));
                assert(hsv.take(i as int + 1).last() == hsv[i as int]);
                assert(hsv[i as int].0 == headers@[i as int].0@);
            }
            if crate::util::str_eq(headers[i].0.as_str(), self.order[k].as_str()) {
                let ghost before = headers_view(out@);
                out.push((headers[i].0.clone(), headers[i].1.clone()));
                proof {
                    assert(headers_view(out@) =~= before.push(hsv[i as int]));
                    assert(headers_named(hsv.take(i as int + 1), name) =~= headers_named(
                        hsv.take(i as int),
                        name,
                    ).push(hsv[i as int]));
                }
            } else {
                proof {
                    assert(headers_named(hsv.take(i as int + 1), name) =~= headers_named(
                        hsv.take(i as int),
                        name,
                    ));
                }
            }
            i = i + 1;
        }
        proof {
            assert(hsv.take(hsv.len() as int) =~= hsv);
        }
    }

    /// Whether a name has a fixed slot.
    fn contains_name(&self, name: &String) -> (r: bool)
        ensures
            r == headers_order_view(self.order@).contains(name@),
    {
        let mut k: usize = 0;
        while k < self.order.len()
            invariant
                k <= self.order@.len(),
                forall|j: int| 0 <= j < k ==> headers_order_view(self.order@)[j] != name@,
            decreases self.order@.len() - k,
        {
            if crate::util::str_eq(self.order[k].as_str(), name.as_str()) {
                proof {
                    assert(headers_order_view(self.order@)[k as int] == name@);
                }
                return true;
            }
            k = k + 1;
        }
        proof {
            if headers_order_view(self.order@).contains(name@) {
                let j = choose|j: int|
                    0 <= j < headers_order_view(self.order@).len() && headers_order_view(
                        self.order@,
                    )[j] == name@;
            }
        }
        false
    }
}

/// The models of an order list.
pub open spec fn headers_order_view(v: Seq<String>) -> Seq<Seq<char>> {
    Seq::new(v.len(), |i: int| v[i]@)
}

/// The fixed order, as character sequences.
pub open spec fn spec_ios_header_order() -> Seq<Seq<char>> {
    seq![
        ":method"@,
        ":scheme"@,
        ":path"@,
        ":authority"@,
        "accept"@,
        "accept-encoding"@,
        "accept-language"@,
        "user-agent"@,
    ]
}

/// The literal ":method".
fn string_lit_method() -> (r: String)
    ensures
        r@ == ":method"@,
{
    String::from_str(":method")
}

/// The literal ":scheme".
fn string_lit_scheme() -> (r: String)
    ensures
        r@ == ":scheme"@,
{
    String::from_str(":scheme")
}

/// The literal ":path".
fn string_lit_path() -> (r: String)
    ensures
        r@ == ":path"@,
{
    String::from_str(":path")
}

/// The literal ":authority".
fn string_lit_authority() -> (r: String)
    ensures
        r@ == ":authority"@,
{
    String::from_str(":authority")
}

/// The literal "accept".
fn string_lit_accept() -> (r: String)
    ensures
        r@ == "accept"@,
{
    String::from_str("accept")
}

/// The literal "accept-encoding".
fn string_lit_accept_encoding() -> (r: String)
    ensures
        r@ == "accept-encoding"@,
{
    String::from_str("accept-encoding")
}

/// The literal "accept-language".
fn string_lit_accept_language() -> (r: String)
    ensures
        r@ == "accept-language"@,
{
    String::from_str("accept-language")
}

/// The literal "user-agent".
fn string_lit_user_agent() -> (r: String)
    ensures
        r@ == "user-agent"@,
{
    String::from_str("user-agent")
}

} // verus!
