//! HTTP/2 frame codec and connection engine: byte-exact frame parsing and
//! serialization, the connection preface, the stream state machine, and the
//! control-frame answers the engine writes back.

use vstd::prelude::*;

use crate::http2_advanced::{
    parse_pairs, parse_settings_pairs, settings_frame_bytes, FlowController, FlowError,
    HeaderOrderPreserver, Http2Settings, PriorityTree, StreamPriority,
};
use crate::util::{
    be3_of_u32, be4_of_u32, read_u16_be, read_u24_be, read_u32_be, split_u24_be, split_u32_be,
    u16_of_be, u24_of_be3, u32_of_be4,
};

verus! {

pub const FRAME_DATA: u8 = 0x00;

pub const FRAME_HEADERS: u8 = 0x01;

pub const FRAME_PRIORITY: u8 = 0x02;

pub const FRAME_RST_STREAM: u8 = 0x03;

pub const FRAME_SETTINGS: u8 = 0x04;

pub const FRAME_PUSH_PROMISE: u8 = 0x05;

pub const FRAME_PING: u8 = 0x06;

pub const FRAME_GOAWAY: u8 = 0x07;

pub const FRAME_WINDOW_UPDATE: u8 = 0x08;

pub const FRAME_CONTINUATION: u8 = 0x09;

pub const FLAG_END_STREAM: u8 = 0x01;

pub const FLAG_END_HEADERS: u8 = 0x04;

pub const FLAG_ACK: u8 = 0x01;

// ---------------------------------------------------------------------------
// Frame codec.
// ---------------------------------------------------------------------------

/// Error of the frame parser.
#[derive(Clone, Copy, Debug, PartialEq, Eq, Structural)]
pub enum FrameError {
    /// The buffer ends before the header or the declared payload.
    TooShort,
}

/// One HTTP/2 frame.
pub struct Http2Frame {
    pub length: u32,
    pub frame_type: u8,
    pub flags: u8,
    pub stream_id: u32,
    pub payload: Vec<u8>,
}

/// Mathematical model of a frame.
#[verifier::ext_equal]
pub struct FrameView {
    pub length: u32,
    pub frame_type: u8,
    pub flags: u8,
    pub stream_id: u32,
    pub payload: Seq<u8>,
}

impl View for Http2Frame {
    type V = FrameView;

    open spec fn view(&self) -> FrameView {
        FrameView {
            length: self.length,
            frame_type: self.frame_type,
            flags: self.flags,
            stream_id: self.stream_id,
            payload: self.payload@,
        }
    }
}

/// The wire form of a frame: 3-byte length, type, flags, 4-byte stream id
/// with the reserved bit cleared, then the payload.
pub open spec fn frame_bytes(f: FrameView) -> Seq<u8> {
    be3_of_u32((f.length % 0x1000000) as u32) + seq![f.frame_type, f.flags] + be4_of_u32(
        (f.stream_id % 0x80000000) as u32,
    ) + f.payload
}

/// What parsing a buffer yields: the header fields and exactly the declared
/// payload, which must lie inside the buffer.
pub open spec fn spec_parse_frame(d: Seq<u8>) -> Result<FrameView, FrameError> {
    if d.len() < 9 {
        Err(FrameError::TooShort)
    } else {
        let len = u24_of_be3(d[0], d[1], d[2]);
        if 9 + len > d.len() {
            Err(FrameError::TooShort)
        } else {
            Ok(
                FrameView {
                    length: len,
                    frame_type: d[3],
                    flags: d[4],
                    stream_id: (u32_of_be4(d[5], d[6], d[7], d[8]) % 0x80000000) as u32,
                    payload: d.subrange(9, 9 + len as int),
                },
            )
        }
    }
}

/// The model of a frame parse result.
pub open spec fn frame_result_view(r: Result<Http2Frame, FrameError>) -> Result<
    FrameView,
    FrameError,
> {
    match r {
        Ok(f) => Ok(f@),
        Err(e) => Err(e),
    }
}

/// A frame that can round-trip: the length field counts the payload, both
/// fit their wire fields.
pub open spec fn frame_wf(f: FrameView) -> bool {
    &&& f.length == f.payload.len()
    &&& f.length < 0x1000000
    &&& f.stream_id < 0x80000000
}

impl Http2Frame {
    /// Parses one frame, exactly as [`spec_parse_frame`] describes.
    pub fn parse(data: &[u8]) -> (r: Result<Http2Frame, FrameError>)
        ensures
            frame_result_view(r) == spec_parse_frame(data@),
    {
        if data.len() < 9 {
            return Err(FrameError::TooShort);
        }
        let length = read_u24_be(data[0], data[1], data[2]);
        if length as u64 + 9 > data.len() as u64 {
            return Err(FrameError::TooShort);
        }
        let frame_type = data[3];
        let flags = data[4];
        let stream_id = read_u32_be(data[5], data[6], data[7], data[8]) % 0x80000000;
        let payload = vstd::slice::slice_to_vec(
            vstd::slice::slice_subrange(data, 9, 9 + length as usize),
        );
        let f = Http2Frame { length, frame_type, flags, stream_id, payload };
        proof {
            assert(f@ =~= spec_parse_frame(data@)->Ok_0);
        }
        Ok(f)
    }

    /// Writes the frame in its wire form.
    pub fn serialize(&self) -> (r: Vec<u8>)
        ensures
            r@ == frame_bytes(self@),
    {
        let mut out: Vec<u8> = Vec::new();
        let (l0, l1, l2) = split_u24_be(self.length % 0x1000000);
        out.push(l0);
        out.push(l1);
        out.push(l2);
        out.push(self.frame_type);
        out.push(self.flags);
        let (s0, s1, s2, s3) = split_u32_be(self.stream_id % 0x80000000);
        out.push(s0);
        out.push(s1);
        out.push(s2);
        out.push(s3);
        crate::util::append_byte_slice(&mut out, self.payload.as_slice());
        proof {
            assert(out@ =~= frame_bytes(self@));
        }
        out
    }

    /// Whether the END_STREAM flag is set.
    pub fn is_end_stream(&self) -> (r: bool)
        ensures
            r == spec_end_stream(self@.flags),
    {
        (self.flags & FLAG_END_STREAM) != 0
    }

    /// Whether the END_HEADERS flag is set.
    pub fn is_end_headers(&self) -> (r: bool)
        ensures
            r == ((self@.flags & FLAG_END_HEADERS) != 0),
    {
        (self.flags & FLAG_END_HEADERS) != 0
    }
}

/// Whether a flag byte carries END_STREAM.
pub open spec fn spec_end_stream(flags: u8) -> bool {
    flags & FLAG_END_STREAM != 0
}

/// Serializing a well-formed frame and parsing it back yields the frame.
pub proof fn lemma_frame_roundtrip(f: FrameView)
    requires
        frame_wf(f),
    ensures
        spec_parse_frame(frame_bytes(f)) == Ok::<FrameView, FrameError>(f),
{
    let d = frame_bytes(f);
    assert(d.len() == 9 + f.payload.len());
    crate::util::lemma_be3_roundtrip(f.length);
    crate::util::lemma_be4_roundtrip(f.stream_id);
    assert(d[0] == be3_of_u32(f.length)[0]);
    assert(d[1] == be3_of_u32(f.length)[1]);
    assert(d[2] == be3_of_u32(f.length)[2]);
    assert(u24_of_be3(d[0], d[1], d[2]) == f.length);
    assert(d[5] == be4_of_u32(f.stream_id)[0]);
    assert(d[6] == be4_of_u32(f.stream_id)[1]);
    assert(d[7] == be4_of_u32(f.stream_id)[2]);
    assert(d[8] == be4_of_u32(f.stream_id)[3]);
    assert(u32_of_be4(d[5], d[6], d[7], d[8]) == f.stream_id);
    assert(d.subrange(9, 9 + f.length as int) =~= f.payload);
    assert(spec_parse_frame(d) matches Ok(p) && p =~= f);
}

// ---------------------------------------------------------------------------
// Stream states.
// ---------------------------------------------------------------------------

/// Lifecycle of one stream as this engine sees it.
#[derive(Clone, Copy, Debug, PartialEq, Eq, Structural)]
pub enum StreamState {
    Idle,
    Open,
    HalfClosedLocal,
    HalfClosedRemote,
    Closed,
}

/// The state a stream enters when DATA arrives with the given END_STREAM
/// flag; a closed stream swallows everything.
pub open spec fn next_state_on_data(st: StreamState, end_stream: bool) -> StreamState {
    if end_stream {
        match st {
            StreamState::Open => StreamState::HalfClosedRemote,
            StreamState::HalfClosedLocal => StreamState::Closed,
            _ => st,
        }
    } else {
        st
    }
}

/// The state a stream enters when HEADERS arrive: an idle stream opens, or
/// half-closes remotely when the peer also ends it.
pub open spec fn next_state_on_headers(st: StreamState, end_stream: bool) -> StreamState {
    if end_stream {
        StreamState::HalfClosedRemote
    } else {
        match st {
            StreamState::Idle => StreamState::Open,
            _ => st,
        }
    }
}

/// Index of the first entry with an id, or the length when absent.
pub open spec fn state_idx(es: Seq<(u32, StreamState)>, id: u32) -> int
    decreases es.len(),
{
    if es.len() == 0 {
        0
    } else if es[0].0 == id {
        0
    } else {
        1 + state_idx(es.drop_first(), id)
    }
}

pub proof fn lemma_state_idx_of_prefix(es: Seq<(u32, StreamState)>, id: u32, i: int)
    requires
        0 <= i <= es.len(),
        forall|j: int| 0 <= j < i ==> (#[trigger] es[j]).0 != id,
    ensures
        i < es.len() && es[i].0 == id ==> state_idx(es, id) == i,
        i == es.len() ==> state_idx(es, id) == es.len(),
    decreases es.len(),
{
    if es.len() > 0 && i > 0 {
        assert(forall|j: int|
            0 <= j < i - 1 ==> es.drop_first()[j] == es[j + 1] && (#[trigger] es.drop_first()[j]).0
                != id);
        lemma_state_idx_of_prefix(es.drop_first(), id, i - 1);
    }
}

pub proof fn lemma_state_idx_bounds(es: Seq<(u32, StreamState)>, id: u32)
    ensures
        0 <= state_idx(es, id) <= es.len(),
        state_idx(es, id) < es.len() ==> es[state_idx(es, id)].0 == id,
        forall|j: int| 0 <= j < state_idx(es, id) ==> es[j].0 != id,
    decreases es.len(),
{
    if es.len() > 0 && es[0].0 != id {
        lemma_state_idx_bounds(es.drop_first(), id);
        assert(forall|j: int|
            1 <= j < state_idx(es, id) ==> es[j] == es.drop_first()[j - 1] && es[j].0 != id);
    }
}

/// Replacing or appending the entry of one id leaves every other id's
/// first entry unchanged.
pub proof fn lemma_state_upsert_others(
    a: Seq<(u32, StreamState)>,
    b: Seq<(u32, StreamState)>,
    id: u32,
    i: int,
)
    requires
        0 <= i <= a.len(),
        b.len() == a.len() || (i == a.len() && b.len() == a.len() + 1),
        forall|j: int| 0 <= j < a.len() && j != i ==> #[trigger] b[j] == a[j],
        i < b.len() ==> b[i].0 == id,
        i < a.len() ==> a[i].0 == id,
    ensures
        forall|id2: u32| id2 != id ==> #[trigger] state_first(b, id2) == state_first(a, id2),
{
    assert forall|id2: u32| id2 != id implies #[trigger] state_first(b, id2) == state_first(
        a,
        id2,
    ) by {
        lemma_state_idx_bounds(a, id2);
        lemma_state_idx_bounds(b, id2);
        let ia = state_idx(a, id2);
        if ia < a.len() {
            assert(ia != i);
            assert(b[ia] == a[ia]);
            assert(forall|j: int| 0 <= j < ia ==> (#[trigger] b[j]).0 != id2) by {
                assert forall|j: int| 0 <= j < ia implies (#[trigger] b[j]).0 != id2 by {
                    if j != i {
                        assert(b[j] == a[j]);
                    }
                }
            }
            lemma_state_idx_of_prefix(b, id2, ia);
        } else {
            assert(forall|j: int| 0 <= j < b.len() ==> (#[trigger] b[j]).0 != id2) by {
                assert forall|j: int| 0 <= j < b.len() implies (#[trigger] b[j]).0 != id2 by {
                    if j != i {
                        assert(b[j] == a[j]);
                    }
                }
            }
            lemma_state_idx_of_prefix(b, id2, b.len() as int);
        }
    }
}

/// The first state entry for an id.
pub open spec fn state_first(es: Seq<(u32, StreamState)>, id: u32) -> Option<StreamState> {
    if state_idx(es, id) < es.len() {
        Some(es[state_idx(es, id)].1)
    } else {
        None
    }
}

// ---------------------------------------------------------------------------
// Engine.
// ---------------------------------------------------------------------------

/// The 24-byte client connection preface.
pub open spec fn preface_lit() -> Seq<u8> {
    seq![
        0x50u8, 0x52u8, 0x49u8, 0x20u8, 0x2au8, 0x20u8, 0x48u8, 0x54u8, 0x54u8, 0x50u8, 0x2fu8,
        0x32u8, 0x2eu8, 0x30u8, 0x0du8, 0x0au8, 0x0du8, 0x0au8, 0x53u8, 0x4du8, 0x0du8, 0x0au8,
        0x0du8, 0x0au8,
    ]
}

/// The zero-length SETTINGS ACK frame.
pub open spec fn settings_ack_bytes() -> Seq<u8> {
    seq![0u8, 0u8, 0u8, FRAME_SETTINGS, FLAG_ACK, 0u8, 0u8, 0u8, 0u8]
}

/// A PING answer: same payload, ACK flag set.
pub open spec fn ping_ack_bytes(data: Seq<u8>) -> Seq<u8> {
    seq![0u8, 0u8, 8u8, FRAME_PING, FLAG_ACK, 0u8, 0u8, 0u8, 0u8] + data
}

/// A PING probe: 8-byte payload, no flags.
pub open spec fn ping_frame_bytes(data: Seq<u8>) -> Seq<u8> {
    seq![0u8, 0u8, 8u8, FRAME_PING, 0u8, 0u8, 0u8, 0u8, 0u8] + data
}

/// A GOAWAY frame naming the last stream and an error code.
pub open spec fn goaway_bytes(last_stream_id: u32, error_code: u32) -> Seq<u8> {
    seq![0u8, 0u8, 8u8, FRAME_GOAWAY, 0u8, 0u8, 0u8, 0u8, 0u8] + be4_of_u32(last_stream_id)
        + be4_of_u32(error_code)
}

/// The models of a list of frames.
pub open spec fn vecs_view(s: Seq<Vec<u8>>) -> Seq<Seq<u8>> {
    Seq::new(s.len(), |i: int| s[i]@)
}

/// One WINDOW_UPDATE frame per queued increment, in order.
pub open spec fn frames_of_pairs(ps: Seq<(u32, u32)>) -> Seq<Seq<u8>> {
    Seq::new(ps.len(), |i: int| window_update_bytes(ps[i].0, ps[i].1))
}

/// An RST_STREAM frame naming a stream and an error code.
pub open spec fn rst_stream_bytes(stream_id: u32, error_code: u32) -> Seq<u8> {
    seq![0u8, 0u8, 4u8, FRAME_RST_STREAM, 0u8] + be4_of_u32((stream_id % 0x80000000) as u32)
        + be4_of_u32(error_code)
}

/// The priority a 5-byte PRIORITY payload carries: masked dependency,
/// exclusivity bit, and the wire weight plus one.
pub open spec fn parsed_priority(p: Seq<u8>) -> StreamPriority {
    StreamPriority {
        depends_on: u32_of_be4((p[0] & 0x7f) as u8, p[1], p[2], p[3]),
        weight: (p[4] + 1) as u16,
        exclusive: p[0] & 0x80 != 0,
    }
}

/// Whether the receive windows admit DATA of the given size on a tracked
/// stream.
pub open spec fn data_admitted(fc: FlowController, stream_id: u32, n: u32) -> bool {
    n <= fc.connection_recv_window && (fc.spec_stream(stream_id) matches Some(st) && n
        <= st.recv_window)
}

/// What handling a WINDOW_UPDATE leaves behind: a short payload is
/// dropped; a zero increment is a protocol error answered with RST_STREAM
/// on a stream and GOAWAY at connection scope; otherwise the increment is
/// credited to the named send window and nothing is answered.
pub open spec fn window_update_outcome(
    pre: Http2Handler,
    post: Http2Handler,
    f: FrameView,
    r: Seq<u8>,
) -> bool {
    if f.payload.len() < 4 {
        r.len() == 0 && post == pre
    } else {
        let inc = (u32_of_be4(f.payload[0], f.payload[1], f.payload[2], f.payload[3])
            % 0x80000000) as u32;
        if inc == 0 {
            post == pre && (if f.stream_id == 0 {
                r == goaway_bytes(0, 0x01)
            } else {
                r == rst_stream_bytes(f.stream_id, 0x01)
            })
        } else {
            &&& r.len() == 0
            &&& post.stream_states == pre.stream_states
            &&& post.remote_settings == pre.remote_settings
            &&& (f.stream_id == 0 ==> post.flow_controller.connection_window == (
            if pre.flow_controller.connection_window + inc
                <= crate::http2_advanced::MAX_WINDOW {
                pre.flow_controller.connection_window + inc
            } else {
                crate::http2_advanced::MAX_WINDOW as int
            }) && post.flow_controller.streams == pre.flow_controller.streams)
            &&& (f.stream_id != 0 ==> post.flow_controller.connection_window
                == pre.flow_controller.connection_window && (
            match pre.flow_controller.spec_stream(f.stream_id) {
                Some(st) => post.flow_controller.streams@ == pre.flow_controller.streams@.update(
                    crate::http2_advanced::stream_idx(pre.flow_controller.streams@, f.stream_id),
                    crate::http2_advanced::widened(st, inc),
                ),
                None => post.flow_controller.streams == pre.flow_controller.streams,
            }))
        }
    }
}

/// What handling a PRIORITY leaves behind: a short payload is dropped;
/// otherwise the parsed priority lands in the tree, reparented to the root
/// when its dependency chain loops back, and every other stream's entry
/// stays.
pub open spec fn priority_outcome(
    pre: Http2Handler,
    post: Http2Handler,
    f: FrameView,
    r: Seq<u8>,
) -> bool {
    if f.payload.len() < 5 {
        r.len() == 0 && post == pre
    } else {
        let p = parsed_priority(f.payload);
        let cyc = crate::http2_advanced::cycle_walk(
            pre.priority_tree.streams@,
            p.depends_on,
            f.stream_id,
            pre.priority_tree.streams@.len() as nat,
        );
        let stored = if cyc {
            StreamPriority { depends_on: 0u32, weight: p.weight, exclusive: p.exclusive }
        } else {
            p
        };
        &&& r.len() == 0
        &&& post.priority_tree.spec_priority(f.stream_id) == Some(stored)
        &&& (forall|id2: u32|
            id2 != f.stream_id ==> #[trigger] post.priority_tree.spec_priority(id2)
                == pre.priority_tree.spec_priority(id2))
        &&& post.flow_controller == pre.flow_controller
        &&& post.stream_states == pre.stream_states
        &&& post.remote_settings == pre.remote_settings
    }
}

/// A WINDOW_UPDATE frame carrying one increment.
pub open spec fn window_update_bytes(stream_id: u32, increment: u32) -> Seq<u8> {
    seq![0u8, 0u8, 4u8, FRAME_WINDOW_UPDATE, 0u8] + be4_of_u32((stream_id % 0x80000000) as u32)
        + be4_of_u32(increment)
}

/// The SETTINGS values folded out of a pair list, unknown ids ignored,
/// later pairs overriding earlier ones.
pub open spec fn fold_settings(base: Http2Settings, ps: Seq<(u16, u32)>) -> Http2Settings
    decreases ps.len(),
{
    if ps.len() == 0 {
        base
    } else {
        let stepped = apply_setting(base, ps[0].0, ps[0].1);
        fold_settings(stepped, ps.drop_first())
    }
}

/// The last value a pair list gives an identifier, or a default when the
/// list never names it.
pub open spec fn last_setting(ps: Seq<(u16, u32)>, id: u16, dflt: u32) -> u32
    decreases ps.len(),
{
    if ps.len() == 0 {
        dflt
    } else {
        last_setting(
            ps.drop_first(),
            id,
            if ps[0].0 == id {
                ps[0].1
            } else {
                dflt
            },
        )
    }
}

/// Folding a SETTINGS pair list stores, for each known identifier, the
/// last value the list gives it, and nothing for an unknown identifier:
/// what the stored peer settings then report is the last value per id.
pub proof fn lemma_fold_settings_last_wins(base: Http2Settings, ps: Seq<(u16, u32)>, push0: u32)
    requires
        base.enable_push == (push0 != 0),
    ensures
        fold_settings(base, ps).header_table_size == last_setting(ps, 1, base.header_table_size),
        fold_settings(base, ps).enable_push == (last_setting(ps, 2, push0) != 0),
        fold_settings(base, ps).max_concurrent_streams == last_setting(
            ps,
            3,
            base.max_concurrent_streams,
        ),
        fold_settings(base, ps).initial_window_size == last_setting(
            ps,
            4,
            base.initial_window_size,
        ),
        fold_settings(base, ps).max_frame_size == last_setting(ps, 5, base.max_frame_size),
        fold_settings(base, ps).max_header_list_size == last_setting(
            ps,
            6,
            base.max_header_list_size,
        ),
    decreases ps.len(),
{
    if ps.len() > 0 {
        let stepped = apply_setting(base, ps[0].0, ps[0].1);
        lemma_fold_settings_last_wins(
            stepped,
            ps.drop_first(),
            if ps[0].0 == 2 {
                ps[0].1
            } else {
                push0
            },
        );
    }
}

/// One SETTINGS pair applied to a settings block.
pub open spec fn apply_setting(s: Http2Settings, id: u16, value: u32) -> Http2Settings {
    if id == 1 {
        Http2Settings { header_table_size: value, ..s }
    } else if id == 2 {
        Http2Settings { enable_push: value != 0, ..s }
    } else if id == 3 {
        Http2Settings { max_concurrent_streams: value, ..s }
    } else if id == 4 {
        Http2Settings { initial_window_size: value, ..s }
    } else if id == 5 {
        Http2Settings { max_frame_size: value, ..s }
    } else if id == 6 {
        Http2Settings { max_header_list_size: value, ..s }
    } else {
        s
    }
}

/// One HPACK literal with incremental indexing and a new name: the 0x40
/// byte, then the length-prefixed name and value. Lengths are written
/// modulo 256, as the single length byte holds them.
pub open spec fn hpack_entry(name: Seq<char>, value: Seq<char>) -> Seq<u8> {
    seq![0x40u8, (vstd::utf8::encode_utf8(name).len() % 0x100) as u8]
        + vstd::utf8::encode_utf8(name) + seq![(vstd::utf8::encode_utf8(value).len() % 0x100) as u8]
        + vstd::utf8::encode_utf8(value)
}

/// A header block: one literal per header, in order.
pub open spec fn hpack_block(hs: Seq<(Seq<char>, Seq<char>)>) -> Seq<u8>
    decreases hs.len(),
{
    if hs.len() == 0 {
        Seq::empty()
    } else {
        hpack_entry(hs[0].0, hs[0].1) + hpack_block(hs.drop_first())
    }
}

pub proof fn lemma_hpack_block_push(hs: Seq<(Seq<char>, Seq<char>)>, h: (Seq<char>, Seq<char>))
    ensures
        hpack_block(hs.push(h)) == hpack_block(hs) + hpack_entry(h.0, h.1),
    decreases hs.len(),
{
    assert(hs.push(h).len() == hs.len() + 1);
    if hs.len() == 0 {
        assert(hs.push(h)[0] == h);
        assert(hs.push(h).drop_first() =~= Seq::<(Seq<char>, Seq<char>)>::empty());
        assert(hpack_block(hs.push(h)) =~= hpack_entry(h.0, h.1) + hpack_block(
            Seq::<(Seq<char>, Seq<char>)>::empty(),
        ));
        assert(hpack_block(hs.push(h)) =~= hpack_block(hs) + hpack_entry(h.0, h.1));
    } else {
        assert(hs.push(h)[0] == hs[0]);
        assert(hs.push(h).drop_first() =~= hs.drop_first().push(h));
        lemma_hpack_block_push(hs.drop_first(), h);
        assert(hpack_block(hs.push(h)) =~= hpack_entry(hs[0].0, hs[0].1) + hpack_block(
            hs.drop_first().push(h),
        ));
        assert(hpack_block(hs.push(h)) =~= hpack_block(hs) + hpack_entry(h.0, h.1));
    }
}

/// The per-connection HTTP/2 engine: this side's settings, the peer's, the
/// flow ledger, the priority tree, the header order, and one lifecycle
/// state per stream.
pub struct Http2Handler {
    pub settings: Http2Settings,
    pub flow_controller: FlowController,
    pub priority_tree: PriorityTree,
    pub header_preserver: HeaderOrderPreserver,
    pub remote_settings: Option<Http2Settings>,
    pub next_stream_id: u32,
    pub stream_states: Vec<(u32, StreamState)>,
    pub preface_sent: bool,
    pub preface_received: bool,
}

impl Http2Handler {
    /// The engine is sound while its flow ledger is.
    pub open spec fn wf(&self) -> bool {
        self.flow_controller.wf()
    }

    /// The lifecycle state recorded for a stream.
    pub open spec fn spec_state(&self, id: u32) -> Option<StreamState> {
        state_first(self.stream_states@, id)
    }

    /// An engine with the emulated client stack's settings.
    pub fn new_ios_safari() -> (h: Self)
        ensures
            h.wf(),
            h.settings == Http2Settings::spec_default(),
            h.next_stream_id == 1,
            h.remote_settings is None,
            !h.preface_sent,
            !h.preface_received,
            h.stream_states@.len() == 0,
    {
        let settings = Http2Settings::ios_safari();
        let flow_controller = FlowController::new(settings.initial_window_size);
        let priority_tree = PriorityTree::ios_safari_defaults();
        let header_preserver = HeaderOrderPreserver::ios_safari();
        Http2Handler {
            settings,
            flow_controller,
            priority_tree,
            header_preserver,
            remote_settings: None,
            next_stream_id: 1,
            stream_states: Vec::new(),
            preface_sent: false,
            preface_received: false,
        }
    }

    /// An engine with caller-chosen settings.
    pub fn new_custom(settings: Http2Settings) -> (h: Self)
        ensures
            h.wf(),
            h.settings == settings,
            h.next_stream_id == 1,
            h.remote_settings is None,
            !h.preface_sent,
            !h.preface_received,
            h.stream_states@.len() == 0,
    {
        let flow_controller = FlowController::new(settings.initial_window_size);
        let priority_tree = PriorityTree::new();
        let header_preserver = HeaderOrderPreserver::ios_safari();
        Http2Handler {
            settings,
            flow_controller,
            priority_tree,
            header_preserver,
            remote_settings: None,
            next_stream_id: 1,
            stream_states: Vec::new(),
            preface_sent: false,
            preface_received: false,
        }
    }

    /// The 24-byte preface followed by this side's SETTINGS frame.
    pub fn build_connection_preface(&mut self) -> (r: Vec<u8>)
        requires
            old(self).wf(),
        ensures
            final(self).wf(),
            r@ == preface_lit() + settings_frame_bytes(old(self).settings),
            final(self).preface_sent,
            final(self).settings == old(self).settings,
    {
        let mut out: Vec<u8> = Vec::new();
        out.push(0x50);
        out.push(0x52);
        out.push(0x49);
        out.push(0x20);
        out.push(0x2a);
        out.push(0x20);
        out.push(0x48);
        out.push(0x54);
        out.push(0x54);
        out.push(0x50);
        out.push(0x2f);
        out.push(0x32);
        out.push(0x2e);
        out.push(0x30);
        out.push(0x0d);
        out.push(0x0a);
        out.push(0x0d);
        out.push(0x0a);
        out.push(0x53);
        out.push(0x4d);
        out.push(0x0d);
        out.push(0x0a);
        out.push(0x0d);
        out.push(0x0a);
        let settings_frame = self.settings.to_frame();
        crate::util::append_byte_slice(&mut out, settings_frame.as_slice());
        self.preface_sent = true;
        proof {
            assert(out@ =~= preface_lit() + settings_frame_bytes(self.settings));
        }
        out
    }

    /// Opens a stream: a fresh flow record and the Open lifecycle state.
    pub fn create_stream(&mut self, stream_id: u32) -> (r: Result<(), FlowError>)
        requires
            old(self).wf(),
        ensures
            final(self).wf(),
            r is Ok,
            final(self).spec_state(stream_id) == Some(StreamState::Open),
            final(self).flow_controller.spec_stream(stream_id) is Some,
    {
        self.flow_controller.create_stream(stream_id, self.settings.initial_window_size);
        self.set_state(stream_id, StreamState::Open);
        Ok(())
    }

    /// Records a lifecycle state, replacing any earlier entry.
    fn set_state(&mut self, stream_id: u32, st: StreamState)
        ensures
            final(self).spec_state(stream_id) == Some(st),
            forall|id2: u32|
                id2 != stream_id ==> #[trigger] final(self).spec_state(id2) == old(self).spec_state(id2),
            final(self).flow_controller == old(self).flow_controller,
            final(self).settings == old(self).settings,
            final(self).remote_settings == old(self).remote_settings,
            final(self).next_stream_id == old(self).next_stream_id,
            final(self).preface_sent == old(self).preface_sent,
            final(self).preface_received == old(self).preface_received,
    {
        let n = self.stream_states.len();
        let mut i: usize = 0;
        while i < n
            invariant
                n == self.stream_states@.len(),
                i <= n,
                forall|j: int| 0 <= j < i ==> (#[trigger] self.stream_states@[j]).0 != stream_id,
                *self == *old(self),
            decreases n - i,
        {
            if self.stream_states[i].0 == stream_id {
                let _gone = self.stream_states.remove(i);
                self.stream_states.insert(i, (stream_id, st));
                proof {
                    old(self).stream_states@.remove_ensures(i as int);
                    old(self).stream_states@.remove(i as int).insert_ensures(
                        i as int,
                        (stream_id, st),
                    );
                    assert(self.stream_states@ =~= old(self).stream_states@.update(
                        i as int,
                        (stream_id, st),
                    ));
                    assert(forall|j: int|
                        0 <= j < i ==> (#[trigger] self.stream_states@[j]) == old(self).stream_states@[j]);
                    lemma_state_idx_of_prefix(self.stream_states@, stream_id, i as int);
                    lemma_state_upsert_others(
                        old(self).stream_states@,
                        self.stream_states@,
                        stream_id,
                        i as int,
                    );
                }
                return ;
            }
            i = i + 1;
        }
        self.stream_states.push((stream_id, st));
        proof {
            assert(forall|j: int|
                0 <= j < n ==> (#[trigger] self.stream_states@[j]) == old(self).stream_states@[j]);
            lemma_state_idx_of_prefix(self.stream_states@, stream_id, n as int);
            lemma_state_upsert_others(
                old(self).stream_states@,
                self.stream_states@,
                stream_id,
                n as int,
            );
        }
    }

    /// The lifecycle state recorded for a stream.
    fn get_state(&self, stream_id: u32) -> (r: Option<StreamState>)
        ensures
            r == self.spec_state(stream_id),
    {
        let n = self.stream_states.len();
        let mut i: usize = 0;
        while i < n
            invariant
                n == self.stream_states@.len(),
                i <= n,
                forall|j: int| 0 <= j < i ==> (#[trigger] self.stream_states@[j]).0 != stream_id,
            decreases n - i,
        {
            if self.stream_states[i].0 == stream_id {
                proof {
                    lemma_state_idx_of_prefix(self.stream_states@, stream_id, i as int);
                }
                return Some(self.stream_states[i].1);
            }
            i = i + 1;
        }
        proof {
            lemma_state_idx_of_prefix(self.stream_states@, stream_id, n as int);
        }
        None
    }

    /// The next client-initiated stream id; they are odd and grow by two.
    pub fn get_next_stream_id(&mut self) -> (id: u32)
        requires
            old(self).next_stream_id <= 0x7ffffffd,
        ensures
            id == old(self).next_stream_id,
            final(self).next_stream_id == old(self).next_stream_id + 2,
            final(self).flow_controller == old(self).flow_controller,
            final(self).stream_states == old(self).stream_states,
    {
        let id = self.next_stream_id;
        self.next_stream_id = self.next_stream_id + 2;
        id
    }

    /// Whether DATA of the given size may be sent on a stream; spends the
    /// windows when it may.
    pub fn can_send_data(&mut self, stream_id: u32, bytes: u32) -> (r: Result<bool, FlowError>)
        requires
            old(self).wf(),
        ensures
            final(self).wf(),
            r is Ok,
            r == Ok::<bool, FlowError>(
                old(self).flow_controller.connection_window >= bytes && (old(self).flow_controller.spec_stream(stream_id) matches Some(st) && st.window_size
                    >= bytes),
            ),
    {
        self.flow_controller.consume_window(stream_id, bytes)
    }

    /// Credits a WINDOW_UPDATE increment to the named send window, the
    /// connection's when the id is zero, saturating at the protocol cap;
    /// nothing else moves.
    pub fn update_window(&mut self, stream_id: u32, increment: u32)
        requires
            old(self).wf(),
        ensures
            final(self).wf(),
            stream_id == 0 ==> final(self).flow_controller.connection_window == (
            if old(self).flow_controller.connection_window + increment
                <= crate::http2_advanced::MAX_WINDOW {
                old(self).flow_controller.connection_window + increment
            } else {
                crate::http2_advanced::MAX_WINDOW as int
            }) && final(self).flow_controller.streams == old(self).flow_controller.streams,
            stream_id != 0 ==> final(self).flow_controller.connection_window == old(self).flow_controller.connection_window && (
            match old(self).flow_controller.spec_stream(stream_id) {
                Some(st) => final(self).flow_controller.streams@ == old(self).flow_controller.streams@.update(
                    crate::http2_advanced::stream_idx(
                        old(self).flow_controller.streams@,
                        stream_id,
                    ),
                    crate::http2_advanced::widened(st, increment),
                ),
                None => final(self).flow_controller.streams == old(self).flow_controller.streams,
            }),
            final(self).flow_controller.connection_recv_window == old(self).flow_controller.connection_recv_window,
            final(self).flow_controller.window_updates == old(self).flow_controller.window_updates,
            final(self).flow_controller.conn_recv_total == old(self).flow_controller.conn_recv_total,
            final(self).flow_controller.conn_update_sum == old(self).flow_controller.conn_update_sum,
            final(self).stream_states == old(self).stream_states,
            final(self).priority_tree == old(self).priority_tree,
            final(self).settings == old(self).settings,
            final(self).remote_settings == old(self).remote_settings,
            final(self).next_stream_id == old(self).next_stream_id,
            final(self).preface_sent == old(self).preface_sent,
            final(self).preface_received == old(self).preface_received,
            final(self).header_preserver == old(self).header_preserver,
    {
        self.flow_controller.update_window(stream_id, increment);
    }

    /// Refills receive windows that fell below the threshold and returns
    /// the queued WINDOW_UPDATE frames, drained in order. Whether a round
    /// runs depends on the clock debounce; when one runs, the returned
    /// frames are exactly the queue left from earlier rounds plus the
    /// refill increments of this one, and every refilled ledger has its
    /// increments equal its received bytes.
    pub fn check_and_send_window_updates(&mut self) -> (r: Vec<Vec<u8>>)
        requires
            old(self).wf(),
        ensures
            final(self).wf(),
            (r@.len() == 0 && *final(self) == *old(self)) || ({
                let pairs = old(self).flow_controller.window_updates@
                    + crate::http2_advanced::conn_refill_pairs(
                    old(self).flow_controller.connection_recv_window,
                ) + crate::http2_advanced::stream_refill_pairs(old(self).flow_controller.streams@);
                &&& vecs_view(r@) == frames_of_pairs(pairs)
                &&& final(self).flow_controller.window_updates@.len() == 0
                &&& final(self).flow_controller.streams@.len() == old(self).flow_controller.streams@.len()
                &&& (forall|i: int|
                    0 <= i < final(self).flow_controller.streams@.len() ==> (
                    #[trigger] final(self).flow_controller.streams@[i]) == (
                    if old(self).flow_controller.streams@[i].recv_window
                        < crate::http2_advanced::WINDOW_UPDATE_THRESHOLD {
                        crate::http2_advanced::refilled(old(self).flow_controller.streams@[i])
                    } else {
                        old(self).flow_controller.streams@[i]
                    }))
                &&& (forall|i: int|
                    0 <= i < final(self).flow_controller.streams@.len() && old(self).flow_controller.streams@[i].recv_window
                        < crate::http2_advanced::WINDOW_UPDATE_THRESHOLD ==> (
                    #[trigger] final(self).flow_controller.streams@[i]).update_sum@ == final(self).flow_controller.streams@[i].recv_total@)
                &&& final(self).stream_states == old(self).stream_states
                &&& final(self).remote_settings == old(self).remote_settings
            }),
    {
        let mut frames: Vec<Vec<u8>> = Vec::new();
        if self.flow_controller.should_send_updates() {
            self.flow_controller.check_and_queue_updates();
            let ghost q0 = self.flow_controller.window_updates@;
            let ghost mid = *self;
            proof {
                assert(vecs_view(frames@) =~= Seq::<Seq<u8>>::empty());
                assert(vecs_view(frames@) + frames_of_pairs(q0) =~= frames_of_pairs(q0));
            }
            loop
                invariant
                    self.flow_controller.wf(),
                    vecs_view(frames@) + frames_of_pairs(self.flow_controller.window_updates@)
                        == frames_of_pairs(q0),
                    self.flow_controller.streams == mid.flow_controller.streams,
                    self.flow_controller.connection_window
                        == mid.flow_controller.connection_window,
                    self.flow_controller.connection_recv_window
                        == mid.flow_controller.connection_recv_window,
                    self.flow_controller.conn_recv_total == mid.flow_controller.conn_recv_total,
                    self.flow_controller.conn_update_sum == mid.flow_controller.conn_update_sum,
                    self.stream_states == mid.stream_states,
                    self.remote_settings == mid.remote_settings,
                ensures
                    self.flow_controller.wf(),
                    vecs_view(frames@) == frames_of_pairs(q0),
                    self.flow_controller.window_updates@.len() == 0,
                    self.flow_controller.streams == mid.flow_controller.streams,
                    self.flow_controller.connection_recv_window
                        == mid.flow_controller.connection_recv_window,
                    self.stream_states == mid.stream_states,
                    self.remote_settings == mid.remote_settings,
                decreases self.flow_controller.window_updates@.len(),
            {
                let ghost qbefore = self.flow_controller.window_updates@;
                match self.flow_controller.pop_window_update() {
                    Some(p) => {
                        let frame = self.build_window_update_frame(p.0, p.1);
                        proof {
                            assert(frame@ == window_update_bytes(p.0, p.1));
                            assert(p == qbefore[0]);
                            assert(frames_of_pairs(qbefore) =~= seq![
                                window_update_bytes(p.0, p.1),
                            ] + frames_of_pairs(self.flow_controller.window_updates@));
                        }
                        let ghost before_frames = frames@;
                        frames.push(frame);
                        proof {
                            assert(vecs_view(frames@) =~= vecs_view(before_frames).push(frame@));
                            assert(vecs_view(frames@) + frames_of_pairs(
                                self.flow_controller.window_updates@,
                            ) =~= frames_of_pairs(q0));
                        }
                    },
                    None => {
                        proof {
                            assert(frames_of_pairs(self.flow_controller.window_updates@)
                                =~= Seq::<Seq<u8>>::empty());
                            assert(vecs_view(frames@) =~= frames_of_pairs(q0));
                        }
                        break ;
                    },
                }
            }
        }
        frames
    }

    /// One WINDOW_UPDATE frame for the named window.
    pub fn build_window_update_frame(&self, stream_id: u32, increment: u32) -> (r: Vec<u8>)
        ensures
            r@ == window_update_bytes(stream_id, increment),
    {
        let mut out: Vec<u8> = Vec::new();
        out.push(0);
        out.push(0);
        out.push(4);
        out.push(FRAME_WINDOW_UPDATE);
        out.push(0);
        let (s0, s1, s2, s3) = split_u32_be(stream_id % 0x80000000);
        out.push(s0);
        out.push(s1);
        out.push(s2);
        out.push(s3);
        let (i0, i1, i2, i3) = split_u32_be(increment);
        out.push(i0);
        out.push(i1);
        out.push(i2);
        out.push(i3);
        proof {
            assert(out@ =~= window_update_bytes(stream_id, increment));
        }
        out
    }

    /// A HEADERS frame whose block lists every header as an HPACK literal,
    /// in the fingerprint order.
    pub fn build_headers_frame(
        &mut self,
        stream_id: u32,
        headers: Vec<(String, String)>,
        end_stream: bool,
    ) -> (r: Vec<u8>)
        ensures
            ({
                let ordered = crate::http2_advanced::reorder_headers(
                    crate::http2_advanced::headers_order_view(old(self).header_preserver.order@),
                    crate::http2_advanced::headers_view(headers@),
                );
                r@ == frame_bytes(
                    FrameView {
                        length: (hpack_block(ordered).len() % 0x1000000) as u32,
                        frame_type: FRAME_HEADERS,
                        flags: if end_stream {
                            FLAG_END_STREAM | FLAG_END_HEADERS
                        } else {
                            FLAG_END_HEADERS
                        },
                        stream_id: stream_id,
                        payload: hpack_block(ordered),
                    },
                )
            }),
    {
        let mut headers = headers;
        self.header_preserver.sort_headers(&mut headers);
        let ghost ordered = crate::http2_advanced::headers_view(headers@);
        let mut block: Vec<u8> = Vec::new();
        let mut i: usize = 0;
        proof {
            assert(ordered.take(0) =~= Seq::<(Seq<char>, Seq<char>)>::empty());
        }
        while i < headers.len()
            invariant
                i <= headers@.len(),
                ordered == crate::http2_advanced::headers_view(headers@),
                block@ == hpack_block(ordered.take(i as int)),
            decreases headers@.len() - i,
        {
            let ghost before = block@;
            Self::encode_header_into(&mut block, &headers[i].0, &headers[i].1);
            proof {
                assert(ordered[i as int] == (headers@[i as int].0@, headers@[i as int].1@));
                lemma_hpack_block_push(ordered.take(i as int), ordered[i as int]);
                assert(ordered.take(i as int + 1) =~= ordered.take(i as int).push(
                    ordered[i as int],
                ));
            }
            i = i + 1;
        }
        proof {
            assert(ordered.take(ordered.len() as int) =~= ordered);
        }
        let flags = if end_stream {
            FLAG_END_STREAM | FLAG_END_HEADERS
        } else {
            FLAG_END_HEADERS
        };
        let length: u32 = (block.len() % 0x1000000) as u32;
        let frame = Http2Frame {
            length,
            frame_type: FRAME_HEADERS,
            flags,
            stream_id,
            payload: block,
        };
        frame.serialize()
    }

    /// Appends one HPACK literal with incremental indexing and a new name.
    fn encode_header_into(out: &mut Vec<u8>, name: &String, value: &String)
        ensures
            final(out)@ == old(out)@ + hpack_entry(name@, value@),
    {
        out.push(0x40);
        let nb = name.as_str().as_bytes();
        out.push((nb.len() % 0x100) as u8);
        crate::util::append_byte_slice(out, nb);
        let vb = value.as_str().as_bytes();
        out.push((vb.len() % 0x100) as u8);
        crate::util::append_byte_slice(out, vb);
        proof {
            assert(out@ =~= old(out)@ + hpack_entry(name@, value@));
        }
    }

    /// An HPACK literal for one header.
    pub fn encode_header(&self, name: &String, value: &String) -> (r: Vec<u8>)
        ensures
            r@ == hpack_entry(name@, value@),
    {
        let mut out: Vec<u8> = Vec::new();
        Self::encode_header_into(&mut out, name, value);
        proof {
            assert(out@ =~= hpack_entry(name@, value@));
        }
        out
    }

    /// A DATA frame around a payload.
    pub fn build_data_frame(&self, stream_id: u32, data: &[u8], end_stream: bool) -> (r: Vec<u8>)
        ensures
            r@ == frame_bytes(
                FrameView {
                    length: (data@.len() % 0x1000000) as u32,
                    frame_type: FRAME_DATA,
                    flags: if end_stream {
                        FLAG_END_STREAM
                    } else {
                        0u8
                    },
                    stream_id: stream_id,
                    payload: data@,
                },
            ),
    {
        let flags = if end_stream {
            FLAG_END_STREAM
        } else {
            0
        };
        let frame = Http2Frame {
            length: (data.len() % 0x1000000) as u32,
            frame_type: FRAME_DATA,
            flags,
            stream_id,
            payload: vstd::slice::slice_to_vec(data),
        };
        let r = frame.serialize();
        proof {
            assert(frame@.payload =~= data@);
        }
        r
    }

    /// The PRIORITY frame for a stream in the tree.
    pub fn build_priority_frame(&self, stream_id: u32) -> (r: Option<Vec<u8>>)
        ensures
            match self.priority_tree.spec_priority(stream_id) {
                Some(p) => r matches Some(b) && b@
                    == crate::http2_advanced::priority_frame_bytes(stream_id, p),
                None => r is None,
            },
    {
        self.priority_tree.to_priority_frame(stream_id)
    }

    /// Records a stream's priority, collapsing a dependency cycle to the
    /// root; every other stream's entry and the rest of the engine stay.
    pub fn set_stream_priority(&mut self, stream_id: u32, priority: StreamPriority)
        requires
            old(self).wf(),
        ensures
            final(self).wf(),
            ({
                let cyc = crate::http2_advanced::cycle_walk(
                    old(self).priority_tree.streams@,
                    priority.depends_on,
                    stream_id,
                    old(self).priority_tree.streams@.len() as nat,
                );
                let stored = if cyc {
                    StreamPriority {
                        depends_on: 0u32,
                        weight: priority.weight,
                        exclusive: priority.exclusive,
                    }
                } else {
                    priority
                };
                final(self).priority_tree.spec_priority(stream_id) == Some(stored)
            }),
            forall|id2: u32|
                id2 != stream_id ==> #[trigger] final(self).priority_tree.spec_priority(id2)
                    == old(self).priority_tree.spec_priority(id2),
            final(self).flow_controller == old(self).flow_controller,
            final(self).stream_states == old(self).stream_states,
            final(self).remote_settings == old(self).remote_settings,
            final(self).settings == old(self).settings,
            final(self).next_stream_id == old(self).next_stream_id,
            final(self).preface_sent == old(self).preface_sent,
            final(self).preface_received == old(self).preface_received,
            final(self).header_preserver == old(self).header_preserver,
    {
        self.priority_tree.update_priority(stream_id, priority);
    }

    /// The zero-length SETTINGS ACK.
    pub fn build_settings_ack(&self) -> (r: Vec<u8>)
        ensures
            r@ == settings_ack_bytes(),
    {
        let mut out: Vec<u8> = Vec::new();
        out.push(0);
        out.push(0);
        out.push(0);
        out.push(FRAME_SETTINGS);
        out.push(FLAG_ACK);
        out.push(0);
        out.push(0);
        out.push(0);
        out.push(0);
        proof {
            assert(out@ =~= settings_ack_bytes());
        }
        out
    }

    /// A GOAWAY frame naming the last stream and an error code.
    pub fn build_goaway_frame(&self, last_stream_id: u32, error_code: u32) -> (r: Vec<u8>)
        ensures
            r@ == goaway_bytes(last_stream_id, error_code),
    {
        let mut out: Vec<u8> = Vec::new();
        out.push(0);
        out.push(0);
        out.push(8);
        out.push(FRAME_GOAWAY);
        out.push(0);
        out.push(0);
        out.push(0);
        out.push(0);
        out.push(0);
        let (a0, a1, a2, a3) = split_u32_be(last_stream_id);
        out.push(a0);
        out.push(a1);
        out.push(a2);
        out.push(a3);
        let (e0, e1, e2, e3) = split_u32_be(error_code);
        out.push(e0);
        out.push(e1);
        out.push(e2);
        out.push(e3);
        proof {
            assert(out@ =~= goaway_bytes(last_stream_id, error_code));
        }
        out
    }

    /// A PING probe with the given 8-byte payload.
    pub fn build_ping_frame(&self, data: &[u8]) -> (r: Vec<u8>)
        requires
            data@.len() == 8,
        ensures
            r@ == ping_frame_bytes(data@),
    {
        let mut out: Vec<u8> = Vec::new();
        out.push(0);
        out.push(0);
        out.push(8);
        out.push(FRAME_PING);
        out.push(0);
        out.push(0);
        out.push(0);
        out.push(0);
        out.push(0);
        crate::util::append_byte_slice(&mut out, data);
        proof {
            assert(out@ =~= ping_frame_bytes(data@));
        }
        out
    }

    /// A PING answer with the given 8-byte payload.
    pub fn build_ping_ack(&self, data: &[u8]) -> (r: Vec<u8>)
        requires
            data@.len() == 8,
        ensures
            r@ == ping_ack_bytes(data@),
    {
        let mut out: Vec<u8> = Vec::new();
        out.push(0);
        out.push(0);
        out.push(8);
        out.push(FRAME_PING);
        out.push(FLAG_ACK);
        out.push(0);
        out.push(0);
        out.push(0);
        out.push(0);
        crate::util::append_byte_slice(&mut out, data);
        proof {
            assert(out@ =~= ping_ack_bytes(data@));
        }
        out
    }

    /// Consumes an incoming chunk: the connection preface when it leads,
    /// else one frame, answered per its type. A buffer that holds no whole
    /// frame is refused.
    pub fn handle_incoming_frame(&mut self, data: &[u8]) -> (r: Result<Vec<u8>, FrameError>)
        requires
            old(self).wf(),
        ensures
            final(self).wf(),
            (!old(self).preface_received && data@.len() >= 24 && data@.take(24) == preface_lit()
                && data@.len() == 24) ==> (r matches Ok(v) && v@.len() == 0 && final(self).preface_received),
            (old(self).preface_received || data@.len() < 24 || data@.take(24) != preface_lit())
                ==> (match spec_parse_frame(data@) {
                Ok(f) => (f.frame_type == FRAME_PING && f.flags & FLAG_ACK == 0 && f.payload.len()
                    >= 8 ==> (r matches Ok(v) && v@ == ping_ack_bytes(f.payload.take(8)))) && (
                f.frame_type == FRAME_SETTINGS && f.flags & FLAG_ACK == 0 ==> (r matches Ok(v)
                    && v@ == settings_ack_bytes() && final(self).remote_settings == Some(
                    fold_settings(Http2Settings::spec_default(), parse_pairs(f.payload)),
                ))),
                Err(e) => r == Err::<Vec<u8>, FrameError>(e),
            }),
        decreases data@.len(),
    {
        if !self.preface_received && data.len() >= 24 && Self::is_preface(data) {
            self.preface_received = true;
            if data.len() > 24 {
                let rest = vstd::slice::slice_subrange(data, 24, data.len());
                let r = self.handle_incoming_frame(rest);
                proof {
                    assert(data@.take(24) == preface_lit());
                }
                return r;
            }
            return Ok(Vec::new());
        }
        let frame = match Http2Frame::parse(data) {
            Ok(f) => f,
            Err(e) => {
                return Err(e);
            },
        };
        let resp = self.process_frame(&frame);
        Ok(resp)
    }

    /// Whether a 24-byte-or-longer buffer starts with the preface.
    fn is_preface(data: &[u8]) -> (r: bool)
        requires
            data@.len() >= 24,
        ensures
            r == (data@.take(24) == preface_lit()),
    {
        let mut lit: Vec<u8> = Vec::new();
        lit.push(0x50);
        lit.push(0x52);
        lit.push(0x49);
        lit.push(0x20);
        lit.push(0x2a);
        lit.push(0x20);
        lit.push(0x48);
        lit.push(0x54);
        lit.push(0x54);
        lit.push(0x50);
        lit.push(0x2f);
        lit.push(0x32);
        lit.push(0x2e);
        lit.push(0x30);
        lit.push(0x0d);
        lit.push(0x0a);
        lit.push(0x0d);
        lit.push(0x0a);
        lit.push(0x53);
        lit.push(0x4d);
        lit.push(0x0d);
        lit.push(0x0a);
        lit.push(0x0d);
        lit.push(0x0a);
        proof {
            assert(lit@ =~= preface_lit());
        }
        let head = vstd::slice::slice_subrange(data, 0, 24);
        let r = crate::util::bytes_eq(head, lit.as_slice());
        proof {
            assert(head@ =~= data@.take(24));
        }
        r
    }

    /// Dispatches one parsed frame per its type and returns the bytes to
    /// write back, empty when nothing is owed.
    pub fn process_frame(&mut self, frame: &Http2Frame) -> (r: Vec<u8>)
        requires
            old(self).wf(),
        ensures
            final(self).wf(),
            frame@.frame_type == FRAME_PING && frame@.flags & FLAG_ACK == 0
                && frame@.payload.len() >= 8 ==> r@ == ping_ack_bytes(frame@.payload.take(8)),
            frame@.frame_type == FRAME_PING && (frame@.flags & FLAG_ACK != 0
                || frame@.payload.len() < 8) ==> r@.len() == 0,
            frame@.frame_type == FRAME_SETTINGS && frame@.flags & FLAG_ACK == 0 ==> r@
                == settings_ack_bytes() && final(self).remote_settings == Some(
                fold_settings(Http2Settings::spec_default(), parse_pairs(frame@.payload)),
            ),
            frame@.frame_type == FRAME_SETTINGS && frame@.flags & FLAG_ACK != 0 ==> r@.len() == 0
                && final(self).remote_settings == old(self).remote_settings,
            frame@.frame_type == FRAME_RST_STREAM ==> r@.len() == 0 && final(self).spec_state(
                frame@.stream_id,
            ) == Some(StreamState::Closed) && final(self).flow_controller.spec_stream(
                frame@.stream_id,
            ) is None && final(self).flow_controller.streams@
                == old(self).flow_controller.streams@.filter(
                (|t: crate::http2_advanced::StreamState| t.id != frame@.stream_id),
            ) && (forall|id2: u32|
                id2 != frame@.stream_id ==> #[trigger] final(self).spec_state(id2) == old(self).spec_state(id2)),
            frame@.frame_type == FRAME_DATA && old(self).flow_controller.spec_stream(
                frame@.stream_id,
            ) is None ==> r@.len() == 0 && final(self).stream_states == old(self).stream_states
                && final(self).flow_controller == old(self).flow_controller,
            frame@.frame_type == FRAME_DATA && old(self).flow_controller.spec_stream(
                frame@.stream_id,
            ) is Some && !data_admitted(
                old(self).flow_controller,
                frame@.stream_id,
                frame@.length,
            ) ==> r@ == goaway_bytes(frame@.stream_id, 0x03) && final(self).stream_states == old(self).stream_states,
            frame@.frame_type == FRAME_DATA && data_admitted(
                old(self).flow_controller,
                frame@.stream_id,
                frame@.length,
            ) ==> r@.len() == 0 && final(self).flow_controller.connection_recv_window == old(self).flow_controller.connection_recv_window - frame@.length && final(self).flow_controller.conn_recv_total@ == old(self).flow_controller.conn_recv_total@
                + frame@.length && (final(self).flow_controller.spec_stream(
                frame@.stream_id,
            ) matches Some(st2) && st2.recv_window == old(self).flow_controller.spec_stream(
                frame@.stream_id,
            )->Some_0.recv_window - frame@.length) && final(self).spec_state(frame@.stream_id)
                == (match old(self).spec_state(frame@.stream_id) {
                Some(st) => Some(next_state_on_data(st, spec_end_stream(frame@.flags))),
                None => None,
            }) && (forall|id2: u32|
                id2 != frame@.stream_id ==> #[trigger] final(self).spec_state(id2) == old(self).spec_state(id2)),
            frame@.frame_type == FRAME_WINDOW_UPDATE ==> window_update_outcome(
                *old(self),
                *final(self),
                frame@,
                r@,
            ),
            frame@.frame_type == FRAME_PRIORITY ==> priority_outcome(
                *old(self),
                *final(self),
                frame@,
                r@,
            ),
    {
        if frame.frame_type == FRAME_DATA {
            self.handle_data_frame(frame)
        } else if frame.frame_type == FRAME_HEADERS {
            self.handle_headers_frame(frame)
        } else if frame.frame_type == FRAME_PRIORITY {
            self.handle_priority_frame(frame)
        } else if frame.frame_type == FRAME_RST_STREAM {
            self.handle_rst_stream_frame(frame)
        } else if frame.frame_type == FRAME_SETTINGS {
            self.handle_settings_frame(frame)
        } else if frame.frame_type == FRAME_PING {
            self.handle_ping_frame(frame)
        } else if frame.frame_type == FRAME_WINDOW_UPDATE {
            self.handle_window_update_frame(frame)
        } else {
            // PUSH_PROMISE, GOAWAY, CONTINUATION and unknown types need no
            // answer from this engine.
            Vec::new()
        }
    }

    /// DATA: counts the bytes against the receive windows and advances the
    /// stream state per its table. A frame on an untracked stream is
    /// dropped silently; an amount beyond a window on a tracked stream is
    /// a peer violation, answered with GOAWAY and otherwise ignored.
    fn handle_data_frame(&mut self, frame: &Http2Frame) -> (r: Vec<u8>)
        requires
            old(self).wf(),
        ensures
            final(self).wf(),
            old(self).flow_controller.spec_stream(frame@.stream_id) is None ==> r@.len() == 0
                && final(self).stream_states == old(self).stream_states && final(self).flow_controller == old(self).flow_controller,
            old(self).flow_controller.spec_stream(frame@.stream_id) is Some && !data_admitted(
                old(self).flow_controller,
                frame@.stream_id,
                frame@.length,
            ) ==> r@ == goaway_bytes(frame@.stream_id, 0x03) && final(self).stream_states == old(self).stream_states,
            data_admitted(old(self).flow_controller, frame@.stream_id, frame@.length) ==> r@.len()
                == 0 && final(self).flow_controller.connection_recv_window == old(self).flow_controller.connection_recv_window - frame@.length && final(self).flow_controller.conn_recv_total@ == old(self).flow_controller.conn_recv_total@
                + frame@.length && (final(self).flow_controller.spec_stream(
                frame@.stream_id,
            ) matches Some(st2) && st2.recv_window == old(self).flow_controller.spec_stream(
                frame@.stream_id,
            )->Some_0.recv_window - frame@.length) && final(self).spec_state(frame@.stream_id)
                == (match old(self).spec_state(frame@.stream_id) {
                Some(st) => Some(next_state_on_data(st, spec_end_stream(frame@.flags))),
                None => None,
            }) && (forall|id2: u32|
                id2 != frame@.stream_id ==> #[trigger] final(self).spec_state(id2) == old(self).spec_state(id2)),
    {
        if !self.flow_controller.has_stream(frame.stream_id) {
            // An untracked (closed or never-opened) stream: drop silently.
            return Vec::new();
        }
        let ok = self.flow_controller.record_received(frame.stream_id, frame.length);
        if !ok {
            // Flow-control violation by the peer.
            return self.build_goaway_frame(frame.stream_id, 0x03);
        }
        if frame.is_end_stream() {
            match self.get_state(frame.stream_id) {
                Some(st) => {
                    let next = match st {
                        StreamState::Open => StreamState::HalfClosedRemote,
                        StreamState::HalfClosedLocal => StreamState::Closed,
                        _ => st,
                    };
                    self.set_state(frame.stream_id, next);
                },
                None => {},
            }
        }
        Vec::new()
    }

    /// HEADERS: opens the stream when it was unknown, and half-closes it
    /// remotely when the peer also ends it.
    fn handle_headers_frame(&mut self, frame: &Http2Frame) -> (r: Vec<u8>)
        requires
            old(self).wf(),
        ensures
            final(self).wf(),
            r@.len() == 0,
    {
        match self.get_state(frame.stream_id) {
            None => {
                let _ = self.create_stream(frame.stream_id);
            },
            Some(_) => {},
        }
        if frame.is_end_stream() {
            self.set_state(frame.stream_id, StreamState::HalfClosedRemote);
        }
        Vec::new()
    }

    /// PRIORITY: a 5-byte payload updates the tree, the weight kept one
    /// above its wire byte and a looping dependency reparented to the
    /// root; anything shorter is dropped.
    fn handle_priority_frame(&mut self, frame: &Http2Frame) -> (r: Vec<u8>)
        requires
            old(self).wf(),
        ensures
            final(self).wf(),
            priority_outcome(*old(self), *final(self), frame@, r@),
    {
        if frame.payload.len() >= 5 {
            let b0 = frame.payload[0];
            let depends_on = read_u32_be(b0 & 0x7f, frame.payload[1], frame.payload[2], frame.payload[3]);
            let exclusive = (b0 & 0x80) != 0;
            let weight: u16 = frame.payload[4] as u16 + 1;
            let priority = StreamPriority { depends_on, weight, exclusive };
            proof {
                assert(priority == parsed_priority(frame@.payload));
            }
            self.set_stream_priority(frame.stream_id, priority);
        }
        Vec::new()
    }

    /// RST_STREAM: the stream closes and its flow record is dropped;
    /// every other stream's state and flow record stay.
    fn handle_rst_stream_frame(&mut self, frame: &Http2Frame) -> (r: Vec<u8>)
        requires
            old(self).wf(),
        ensures
            final(self).wf(),
            r@.len() == 0,
            final(self).spec_state(frame@.stream_id) == Some(StreamState::Closed),
            final(self).flow_controller.spec_stream(frame@.stream_id) is None,
            final(self).flow_controller.streams@ == old(self).flow_controller.streams@.filter(
                (|t: crate::http2_advanced::StreamState| t.id != frame@.stream_id),
            ),
            forall|id2: u32|
                id2 != frame@.stream_id ==> #[trigger] final(self).spec_state(id2) == old(self).spec_state(id2),
    {
        self.flow_controller.remove_stream(frame.stream_id);
        self.set_state(frame.stream_id, StreamState::Closed);
        Vec::new()
    }

    /// SETTINGS: a non-ACK frame replaces the stored peer settings, each
    /// pair overriding a default, and is answered with an ACK; an ACK is
    /// swallowed.
    fn handle_settings_frame(&mut self, frame: &Http2Frame) -> (r: Vec<u8>)
        requires
            old(self).wf(),
        ensures
            final(self).wf(),
            frame@.flags & FLAG_ACK != 0 ==> r@.len() == 0 && final(self).remote_settings == old(self).remote_settings,
            frame@.flags & FLAG_ACK == 0 ==> r@ == settings_ack_bytes() && final(self).remote_settings == Some(
                fold_settings(Http2Settings::spec_default(), parse_pairs(frame@.payload)),
            ),
    {
        if (frame.flags & FLAG_ACK) != 0 {
            return Vec::new();
        }
        let pairs = parse_settings_pairs(frame.payload.as_slice());
        let mut settings = Http2Settings::default();
        let mut i: usize = 0;
        proof {
            assert(pairs@.skip(0) =~= pairs@);
        }
        while i < pairs.len()
            invariant
                i <= pairs@.len(),
                fold_settings(Http2Settings::spec_default(), pairs@) == fold_settings(
                    settings,
                    pairs@.skip(i as int),
                ),
            decreases pairs@.len() - i,
        {
            let (id, value) = pairs[i];
            let ghost pre = settings;
            proof {
                assert(pairs@.skip(i as int)[0] == pairs@[i as int]);
                assert(pairs@.skip(i as int).drop_first() =~= pairs@.skip(i as int + 1));
            }
            if id == 1 {
                settings.header_table_size = value;
            } else if id == 2 {
                settings.enable_push = value != 0;
            } else if id == 3 {
                settings.max_concurrent_streams = value;
            } else if id == 4 {
                settings.initial_window_size = value;
            } else if id == 5 {
                settings.max_frame_size = value;
            } else if id == 6 {
                settings.max_header_list_size = value;
            }
            proof {
                assert(settings == apply_setting(pre, id, value));
                assert(fold_settings(pre, pairs@.skip(i as int)) == fold_settings(
                    settings,
                    pairs@.skip(i as int + 1),
                ));
            }
            i = i + 1;
        }
        proof {
            assert(pairs@.skip(pairs@.len() as int).len() == 0);
        }
        self.remote_settings = Some(settings);
        self.build_settings_ack()
    }

    /// PING: a non-ACK probe with a whole payload is echoed with the ACK
    /// flag; everything else is swallowed.
    fn handle_ping_frame(&mut self, frame: &Http2Frame) -> (r: Vec<u8>)
        ensures
            frame@.flags & FLAG_ACK == 0 && frame@.payload.len() >= 8 ==> r@ == ping_ack_bytes(
                frame@.payload.take(8),
            ),
            frame@.flags & FLAG_ACK != 0 || frame@.payload.len() < 8 ==> r@.len() == 0,
            *final(self) == *old(self),
    {
        if (frame.flags & FLAG_ACK) != 0 {
            return Vec::new();
        }
        if frame.payload.len() >= 8 {
            let data = vstd::slice::slice_subrange(frame.payload.as_slice(), 0, 8);
            let r = self.build_ping_ack(data);
            proof {
                assert(data@ =~= frame@.payload.take(8));
            }
            r
        } else {
            Vec::new()
        }
    }

    /// WINDOW_UPDATE: a 4-byte increment, high bit masked, credited to
    /// the named send window. A zero increment is a protocol error:
    /// RST_STREAM on a stream, GOAWAY at connection scope. Anything
    /// shorter is dropped.
    fn handle_window_update_frame(&mut self, frame: &Http2Frame) -> (r: Vec<u8>)
        requires
            old(self).wf(),
        ensures
            final(self).wf(),
            window_update_outcome(*old(self), *final(self), frame@, r@),
    {
        if frame.payload.len() >= 4 {
            let increment = read_u32_be(
                frame.payload[0],
                frame.payload[1],
                frame.payload[2],
                frame.payload[3],
            ) % 0x80000000;
            if increment == 0 {
                if frame.stream_id == 0 {
                    return self.build_goaway_frame(0, 0x01);
                } else {
                    return self.build_rst_stream_frame(frame.stream_id, 0x01);
                }
            }
            self.update_window(frame.stream_id, increment);
        }
        Vec::new()
    }

    /// An RST_STREAM frame naming a stream and an error code.
    pub fn build_rst_stream_frame(&self, stream_id: u32, error_code: u32) -> (r: Vec<u8>)
        ensures
            r@ == rst_stream_bytes(stream_id, error_code),
    {
        let mut out: Vec<u8> = Vec::new();
        out.push(0);
        out.push(0);
        out.push(4);
        out.push(FRAME_RST_STREAM);
        out.push(0);
        let (s0, s1, s2, s3) = split_u32_be(stream_id % 0x80000000);
        out.push(s0);
        out.push(s1);
        out.push(s2);
        out.push(s3);
        let (e0, e1, e2, e3) = split_u32_be(error_code);
        out.push(e0);
        out.push(e1);
        out.push(e2);
        out.push(e3);
        proof {
            assert(out@ =~= rst_stream_bytes(stream_id, error_code));
        }
        out
    }

    /// This side's settings.
    pub fn get_settings(&self) -> (r: &Http2Settings)
        ensures
            r == self.settings,
    {
        &self.settings
    }

    /// The peer's settings, once a SETTINGS frame arrived.
    pub fn get_remote_settings(&self) -> (r: Option<&Http2Settings>)
        ensures
            match r {
                Some(s) => self.remote_settings == Some(*s),
                None => self.remote_settings is None,
            },
    {
        self.remote_settings.as_ref()
    }
}

} // verus!
