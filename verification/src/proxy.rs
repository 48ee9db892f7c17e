//! First-bytes dispatch and HTTP/1 handling: classify an accepted
//! connection, pull the CONNECT target and Host header out, rewrite an
//! absolute-form request line to origin form, and read a response's status
//! line. The sockets and relay loops around these stay outside.

use vstd::prelude::*;

use crate::config::{ascii_lower_byte, ascii_lower_bytes};
use vstd::string::StringSliceAdditionalSpecFns;

verus! {

/// Where a connection's first bytes send it.
#[derive(Clone, Copy, Debug, PartialEq, Eq, Structural)]
pub enum PathKind {
    /// A CONNECT request: answer and tunnel.
    Connect,
    /// A TLS record: rewrite the hello and relay.
    Tls,
    /// A plain HTTP request line.
    Http1,
    /// Anything else: relay untouched.
    Opaque,
}

/// Whether the bytes open with a CONNECT method, ASCII case ignored.
pub open spec fn spec_is_connect(d: Seq<u8>) -> bool {
    d.len() >= 7 && ascii_lower_bytes(d.take(7)) == "connect".spec_bytes()
}

/// Whether the bytes open like a TLS handshake record.
pub open spec fn spec_is_tls(d: Seq<u8>) -> bool {
    d.len() >= 3 && d[0] == 0x16 && d[1] == 0x03
}

/// Whether the bytes open with a known HTTP method and a space.
pub open spec fn spec_is_http(d: Seq<u8>) -> bool {
    ||| starts_with_bytes(d, "GET ".spec_bytes())
    ||| starts_with_bytes(d, "POST ".spec_bytes())
    ||| starts_with_bytes(d, "PUT ".spec_bytes())
    ||| starts_with_bytes(d, "HEAD ".spec_bytes())
    ||| starts_with_bytes(d, "DELETE ".spec_bytes())
}

/// Whether one byte string begins with another.
pub open spec fn starts_with_bytes(d: Seq<u8>, p: Seq<u8>) -> bool {
    d.len() >= p.len() && d.take(p.len() as int) == p
}

/// Whether the bytes open with a CONNECT method, ASCII case ignored.
pub fn is_connect_method(data: &[u8]) -> (r: bool)
    ensures
        r == spec_is_connect(data@),
{
    if data.len() < 7 {
        return false;
    }
    let head = vstd::slice::slice_subrange(data, 0, 7);
    let mut lowered: Vec<u8> = Vec::new();
    let mut i: usize = 0;
    while i < 7
        invariant
            i <= 7,
            head@.len() == 7,
            lowered@.len() == i,
            forall|j: int| 0 <= j < i ==> #[trigger] lowered@[j] == ascii_lower_byte(head@[j]),
        decreases 7 - i,
    {
        let c = head[i];
        if c >= 65 && c <= 90 {
            lowered.push(c + 32);
        } else {
            lowered.push(c);
        }
        i = i + 1;
    }
    proof {
        assert(head@ =~= data@.take(7));
        assert(lowered@ =~= ascii_lower_bytes(data@.take(7)));
    }
    crate::util::bytes_eq(lowered.as_slice(), "connect".as_bytes())
}

/// Whether the bytes open like a TLS handshake record.
pub fn is_tls_handshake(data: &[u8]) -> (r: bool)
    ensures
        r == spec_is_tls(data@),
{
    data.len() >= 3 && data[0] == 0x16 && data[1] == 0x03
}

/// Whether the bytes open with a known HTTP method and a space.
pub fn is_http_request(data: &[u8]) -> (r: bool)
    ensures
        r == spec_is_http(data@),
{
    starts_with(data, "GET ".as_bytes()) || starts_with(data, "POST ".as_bytes()) || starts_with(
        data,
        "PUT ".as_bytes(),
    ) || starts_with(data, "HEAD ".as_bytes()) || starts_with(data, "DELETE ".as_bytes())
}

/// Whether one byte region begins with another.
pub fn starts_with(data: &[u8], prefix: &[u8]) -> (r: bool)
    ensures
        r == starts_with_bytes(data@, prefix@),
{
    if data.len() < prefix.len() {
        return false;
    }
    let head = vstd::slice::slice_subrange(data, 0, prefix.len());
    let r = crate::util::bytes_eq(head, prefix);
    proof {
        assert(head@ =~= data@.take(prefix@.len() as int));
    }
    r
}

/// Sends a connection's first bytes down one of the four paths, in the
/// order the dispatcher tests them.
pub fn classify(data: &[u8]) -> (r: PathKind)
    ensures
        spec_is_connect(data@) ==> r == PathKind::Connect,
        !spec_is_connect(data@) && spec_is_tls(data@) ==> r == PathKind::Tls,
        !spec_is_connect(data@) && !spec_is_tls(data@) && spec_is_http(data@) ==> r
            == PathKind::Http1,
        !spec_is_connect(data@) && !spec_is_tls(data@) && !spec_is_http(data@) ==> r
            == PathKind::Opaque,
{
    if is_connect_method(data) {
        PathKind::Connect
    } else if is_tls_handshake(data) {
        PathKind::Tls
    } else if is_http_request(data) {
        PathKind::Http1
    } else {
        PathKind::Opaque
    }
}

/// Index of the first space, CR or LF at or after `i`, or the length.
pub open spec fn token_end(b: Seq<u8>, i: int) -> int
    decreases b.len() - i,
{
    if i >= b.len() {
        b.len() as int
    } else if b[i] == 32 || b[i] == 13 || b[i] == 10 {
        i
    } else {
        token_end(b, i + 1)
    }
}

/// The target of a CONNECT request: the non-empty token after the method
/// and its space, up to the next space or line end.
pub open spec fn spec_connect_target(b: Seq<u8>) -> Option<Seq<u8>> {
    if !spec_is_connect(b) {
        None
    } else if b.len() < 8 || b[7] != 32 {
        None
    } else {
        let end = token_end(b, 8);
        if end == 8 {
            None
        } else {
            Some(b.subrange(8, end))
        }
    }
}

/// The target of a CONNECT request line: the token after the method, up
/// to the next space or line end; a target that is not UTF-8 is refused.
pub fn extract_connect_target(request: &str) -> (r: Option<String>)
    ensures
        match r {
            Some(t) => t@.len() > 0 && spec_connect_target(request.spec_bytes()) == Some(
                vstd::utf8::encode_utf8(t@),
            ),
            None => spec_connect_target(request.spec_bytes()) is None || !vstd::utf8::valid_utf8(
                spec_connect_target(request.spec_bytes())->Some_0,
            ),
        },
{
    let b = request.as_bytes();
    if !is_connect_method(b) {
        return None;
    }
    if b.len() < 8 || b[7] != 32 {
        return None;
    }
    let mut end: usize = 8;
    while end < b.len() && b[end] != 32 && b[end] != 13 && b[end] != 10
        invariant
            b@ == request.spec_bytes(),
            8 <= end <= b@.len(),
            token_end(b@, 8) == token_end(b@, end as int),
        decreases b@.len() - end,
    {
        end = end + 1;
    }
    proof {
        assert(token_end(b@, end as int) == end);
    }
    if end == 8 {
        return None;
    }
    let piece = vstd::slice::slice_subrange(b, 8, end);
    proof {
        assert(piece@ =~= b@.subrange(8, end as int));
    }
    match crate::util::bytes_to_string(piece) {
        Some(s) => {
            proof {
                assert(s@.len() > 0) by {
                    if s@.len() == 0 {
                        assert(vstd::utf8::encode_utf8(s@).len() == 0);
                    }
                }
            }
            Some(s)
        },
        None => None,
    }
}

/// Index of the first byte that is not a space or tab at or after `i`,
/// or the length.
pub open spec fn skip_ws(b: Seq<u8>, i: int) -> int
    decreases b.len() - i,
{
    if i >= b.len() {
        b.len() as int
    } else if b[i] == 32 || b[i] == 9 {
        skip_ws(b, i + 1)
    } else {
        i
    }
}

/// Index of the first CR, LF or space at or after `i`, or the length.
pub open spec fn hval_end(b: Seq<u8>, i: int) -> int
    decreases b.len() - i,
{
    if i >= b.len() {
        b.len() as int
    } else if b[i] == 13 || b[i] == 10 || b[i] == 32 {
        i
    } else {
        hval_end(b, i + 1)
    }
}

/// Index of the first LF at or after `i`, or the length.
pub open spec fn nl_idx(b: Seq<u8>, i: int) -> int
    decreases b.len() - i,
{
    if i >= b.len() {
        b.len() as int
    } else if b[i] == 10 {
        i
    } else {
        nl_idx(b, i + 1)
    }
}

/// The value of the first Host header: at each line start, a line that
/// opens "host:" (ASCII case ignored) yields its first token after
/// optional blanks, when non-empty; the walk advances byte by byte, a
/// position counting as a line start right after a line feed.
pub open spec fn host_scan(b: Seq<u8>, i: int, at_start: bool) -> Option<Seq<u8>>
    decreases b.len() - i,
{
    if i >= b.len() || i < 0 {
        None
    } else if at_start && b.len() - i >= 5 && ascii_lower_byte(b[i]) == 104 && ascii_lower_byte(
        b[i + 1],
    ) == 111 && ascii_lower_byte(b[i + 2]) == 115 && ascii_lower_byte(b[i + 3]) == 116 && b[i + 4]
        == 58 {
        let s0 = skip_ws(b, i + 5);
        let e = hval_end(b, s0);
        Some(b.subrange(s0, e))
    } else {
        host_scan(b, i + 1, b[i] == 10)
    }
}

/// The authority of an absolute-form http URL in the request line: the
/// bytes between the scheme and the first slash of the second token.
pub open spec fn spec_absolute_host(b: Seq<u8>) -> Option<Seq<u8>> {
    let sp1 = sp_idx(b, 0);
    if sp1 >= b.len() {
        None
    } else {
        let tok = b.subrange(sp1 + 1, token_end(b, sp1 + 1));
        if spec_absolute(tok) {
            let sl = slash_idx(tok, 7);
            if 7 < sl < tok.len() {
                Some(tok.subrange(7, sl))
            } else {
                None
            }
        } else {
            None
        }
    }
}

/// Whether a byte string holds a colon.
pub open spec fn has_colon(h: Seq<u8>) -> bool {
    exists|k: int| 0 <= k < h.len() && h[k] == 58
}

/// A host with its default port appended when it names none: 443 behind a
/// CONNECT, 80 otherwise.
pub open spec fn with_default_port(h: Seq<u8>, is_connect: bool) -> Seq<u8> {
    if has_colon(h) {
        h
    } else if is_connect {
        h + seq![58u8, 52u8, 52u8, 51u8]
    } else {
        h + seq![58u8, 56u8, 48u8]
    }
}

/// The target host of a request: the first Host header's value, or the
/// authority of an absolute-form URL, with the path's default port when
/// it names none.
pub open spec fn spec_http_host(b: Seq<u8>) -> Option<Seq<u8>> {
    match host_scan(b, 0, true) {
        Some(h) => if h.len() == 0 {
            // A Host header with an empty value ends the search.
            None
        } else {
            Some(with_default_port(h, spec_is_connect(b)))
        },
        None => match spec_absolute_host(b) {
            Some(a) => Some(with_default_port(a, spec_is_connect(b))),
            None => None,
        },
    }
}

/// The target host of a request, per [`spec_http_host`]: the Host header
/// when present, else the absolute-URI authority, the default port
/// appended when none is named; a host that is not UTF-8 is refused.
pub fn extract_http_host(request: &str) -> (r: Option<String>)
    ensures
        match r {
            Some(s) => spec_http_host(request.spec_bytes()) == Some(
                vstd::utf8::encode_utf8(s@),
            ),
            None => spec_http_host(request.spec_bytes()) is None || !vstd::utf8::valid_utf8(
                spec_http_host(request.spec_bytes())->Some_0,
            ),
        },
{
    let b = request.as_bytes();
    let is_conn = is_connect_method(b);
    // Walk the bytes looking for a host header at a line start.
    let mut i: usize = 0;
    let mut at_start = true;
    while i < b.len()
        invariant
            b@ == request.spec_bytes(),
            i <= b@.len(),
            is_conn == spec_is_connect(b@),
            host_scan(b@, 0, true) == host_scan(b@, i as int, at_start),
        decreases b@.len() - i,
    {
        let named = at_start && b.len() - i >= 5 && {
            let h0 = ascii_lower(b[i]);
            let h1 = ascii_lower(b[i + 1]);
            let h2 = ascii_lower(b[i + 2]);
            let h3 = ascii_lower(b[i + 3]);
            h0 == 104 && h1 == 111 && h2 == 115 && h3 == 116 && b[i + 4] == 58
        };
        if named {
            let mut s0: usize = i + 5;
            while s0 < b.len() && (b[s0] == 32 || b[s0] == 9)
                invariant
                    b@ == request.spec_bytes(),
                    i + 5 <= s0 <= b@.len(),
                    skip_ws(b@, i as int + 5) == skip_ws(b@, s0 as int),
                decreases b@.len() - s0,
            {
                s0 = s0 + 1;
            }
            proof {
                assert(skip_ws(b@, s0 as int) == s0);
            }
            let mut e: usize = s0;
            while e < b.len() && b[e] != 13 && b[e] != 10 && b[e] != 32
                invariant
                    b@ == request.spec_bytes(),
                    s0 <= e <= b@.len(),
                    hval_end(b@, s0 as int) == hval_end(b@, e as int),
                decreases b@.len() - e,
            {
                e = e + 1;
            }
            proof {
                assert(hval_end(b@, e as int) == e);
            }
            if e > s0 {
                let piece = vstd::slice::slice_subrange(b, s0, e);
                proof {
                    assert(piece@ =~= b@.subrange(s0 as int, e as int));
                }
                return finish_host(piece, is_conn);
            }
            return None;
        }
        at_start = b[i] == 10;
        i = i + 1;
    }
    proof {
        assert(host_scan(b@, 0, true) is None);
    }
    // Fall back to the authority of an absolute-form request line.
    let mut sp1: usize = 0;
    while sp1 < b.len() && b[sp1] != 32
        invariant
            b@ == request.spec_bytes(),
            sp1 <= b@.len(),
            sp_idx(b@, 0) == sp_idx(b@, sp1 as int),
        decreases b@.len() - sp1,
    {
        sp1 = sp1 + 1;
    }
    proof {
        assert(sp_idx(b@, sp1 as int) == sp1);
    }
    if sp1 >= b.len() {
        return None;
    }
    let mut te: usize = sp1 + 1;
    while te < b.len() && b[te] != 32 && b[te] != 13 && b[te] != 10
        invariant
            b@ == request.spec_bytes(),
            sp1 + 1 <= te <= b@.len(),
            token_end(b@, sp1 as int + 1) == token_end(b@, te as int),
        decreases b@.len() - te,
    {
        te = te + 1;
    }
    proof {
        assert(token_end(b@, te as int) == te);
    }
    let tok = vstd::slice::slice_subrange(b, sp1 + 1, te);
    proof {
        assert(tok@ =~= b@.subrange(sp1 as int + 1, te as int));
    }
    let absolute = tok.len() >= 7 && tok[0] == 104 && tok[1] == 116 && tok[2] == 116 && tok[3]
        == 112 && tok[4] == 58 && tok[5] == 47 && tok[6] == 47;
    if !absolute {
        return None;
    }
    let mut sl: usize = 7;
    while sl < tok.len() && tok[sl] != 47
        invariant
            7 <= sl <= tok@.len(),
            slash_idx(tok@, 7) == slash_idx(tok@, sl as int),
        decreases tok@.len() - sl,
    {
        sl = sl + 1;
    }
    proof {
        assert(slash_idx(tok@, sl as int) == sl);
    }
    if !(7 < sl && sl < tok.len()) {
        return None;
    }
    let authority = vstd::slice::slice_subrange(tok, 7, sl);
    proof {
        assert(authority@ =~= tok@.subrange(7, sl as int));
    }
    finish_host(authority, is_conn)
}

/// Appends the default port when the host names none and turns the bytes
/// into a string.
fn finish_host(h: &[u8], is_conn: bool) -> (r: Option<String>)
    ensures
        match r {
            Some(s) => vstd::utf8::encode_utf8(s@) == with_default_port(h@, is_conn),
            None => !vstd::utf8::valid_utf8(with_default_port(h@, is_conn)),
        },
{
    let mut colon = false;
    let mut k: usize = 0;
    while k < h.len()
        invariant
            k <= h@.len(),
            colon == exists|m: int| 0 <= m < k && h@[m] == 58,
        decreases h@.len() - k,
    {
        if h[k] == 58 {
            colon = true;
        }
        k = k + 1;
    }
    proof {
        assert(colon == has_colon(h@));
    }
    let mut out: Vec<u8> = Vec::new();
    crate::util::append_byte_slice(&mut out, h);
    if !colon {
        out.push(58);
        if is_conn {
            out.push(52);
            out.push(52);
            out.push(51);
        } else {
            out.push(56);
            out.push(48);
        }
    }
    proof {
        assert(out@ =~= with_default_port(h@, is_conn));
    }
    crate::util::bytes_to_string(out.as_slice())
}

/// Lowercases one ASCII letter byte./// Lowercases one ASCII letter byte.
fn ascii_lower(c: u8) -> (r: u8)
    ensures
        r == ascii_lower_byte(c),
{
    if c >= 65 && c <= 90 {
        c + 32
    } else {
        c
    }
}

// ---------------------------------------------------------------------------
// HTTP/1 request rewriting, as specification functions.
// ---------------------------------------------------------------------------

/// Index of the first blank line (CRLFCRLF) at or after `i`, or the
/// buffer length when none follows.
pub open spec fn crlf4_idx(b: Seq<u8>, i: int) -> int
    decreases b.len() - i,
{
    if i < 0 || i + 4 > b.len() {
        b.len() as int
    } else if b[i] == 13 && b[i + 1] == 10 && b[i + 2] == 13 && b[i + 3] == 10 {
        i
    } else {
        crlf4_idx(b, i + 1)
    }
}

/// Index of the first CR or LF in `[i, end)`, or `end`.
pub open spec fn eol_idx(b: Seq<u8>, i: int, end: int) -> int
    decreases end - i,
{
    if i >= end {
        end
    } else if b[i] == 13 || b[i] == 10 {
        i
    } else {
        eol_idx(b, i + 1, end)
    }
}

/// Index of the first space at or after `i`, or the length.
pub open spec fn sp_idx(b: Seq<u8>, i: int) -> int
    decreases b.len() - i,
{
    if i >= b.len() {
        b.len() as int
    } else if b[i] == 32 {
        i
    } else {
        sp_idx(b, i + 1)
    }
}

/// Index of the first slash at or after `i`, or the length.
pub open spec fn slash_idx(b: Seq<u8>, i: int) -> int
    decreases b.len() - i,
{
    if i >= b.len() {
        b.len() as int
    } else if b[i] == 47 {
        i
    } else {
        slash_idx(b, i + 1)
    }
}

/// The bytes of "proxy-connection:".
pub open spec fn pc_probe() -> Seq<u8> {
    seq![
        112u8, 114u8, 111u8, 120u8, 121u8, 45u8, 99u8, 111u8, 110u8, 110u8, 101u8, 99u8, 116u8,
        105u8, 111u8, 110u8, 58u8,
    ]
}

/// Whether a header line names Proxy-Connection, ASCII case ignored.
pub open spec fn spec_names_pc(line: Seq<u8>) -> bool {
    line.len() >= 17 && (forall|k: int|
        0 <= k < 17 ==> ascii_lower_byte(#[trigger] line[k]) == pc_probe()[k])
}

/// Whether a URL is absolute-form http: it opens with its scheme.
pub open spec fn spec_absolute(url: Seq<u8>) -> bool {
    url.len() >= 7 && url[0] == 104 && url[1] == 116 && url[2] == 116 && url[3] == 112 && url[4]
        == 58 && url[5] == 47 && url[6] == 47
}

/// The rewritten request line, terminated: an absolute-form http URL
/// between the first two spaces shrinks to its path, a line without a
/// version gets the default one, everything else stays.
pub open spec fn spec_request_line(line: Seq<u8>) -> Seq<u8> {
    let sp1 = sp_idx(line, 0);
    if sp1 >= line.len() {
        line + seq![13u8, 10u8]
    } else {
        let sp2 = sp_idx(line, sp1 + 1);
        let url = line.subrange(sp1 + 1, sp2);
        let method = line.subrange(0, sp1);
        let url_out = if spec_absolute(url) {
            let pth = slash_idx(url, 7);
            if pth < url.len() {
                url.skip(pth)
            } else {
                seq![47u8]
            }
        } else {
            url
        };
        method + seq![32u8] + url_out + (if sp2 < line.len() {
            line.skip(sp2)
        } else {
            seq![32u8] + "HTTP/1.1".spec_bytes()
        }) + seq![13u8, 10u8]
    }
}

/// The rewritten head: the request line first, then every non-empty header
/// line that does not name Proxy-Connection, terminated, in order.
pub open spec fn spec_rewrite_lines(b: Seq<u8>, i: int, head_end: int, first: bool) -> Seq<u8>
    decreases head_end - i,
{
    if i >= head_end || i < 0 || head_end > b.len() {
        Seq::empty()
    } else {
        let e = eol_idx(b, i, head_end);
        let line = b.subrange(i, e);
        let piece = if first {
            spec_request_line(line)
        } else if !spec_names_pc(line) && line.len() > 0 {
            line + seq![13u8, 10u8]
        } else {
            Seq::<u8>::empty()
        };
        let n1 = if e < head_end && b[e] == 13 {
            e + 1
        } else {
            e
        };
        let n2 = if n1 < head_end && b[n1] == 10 {
            n1 + 1
        } else {
            n1
        };
        if n2 <= i || n2 > head_end {
            piece
        } else {
            piece + spec_rewrite_lines(b, n2, head_end, false)
        }
    }
}

/// The whole rewritten request: the rewritten head, the blank line, and
/// the body byte for byte.
pub open spec fn spec_rewrite_request(b: Seq<u8>) -> Seq<u8> {
    let he = crlf4_idx(b, 0);
    spec_rewrite_lines(b, 0, he, true) + seq![13u8, 10u8] + (if b.len() >= 4 && he <= b.len()
        - 4 {
        b.skip(he + 4)
    } else {
        Seq::<u8>::empty()
    })
}

/// Rewrites a direct-mode request, exactly as [`spec_rewrite_request`]
/// describes: an absolute-form http URL in the request line becomes
/// origin-form, any Proxy-Connection header is dropped, and the remaining
/// headers and the body pass through byte for byte in order.
pub fn rewrite_http_request(request: &str) -> (r: Vec<u8>)
    ensures
        r@ == spec_rewrite_request(request.spec_bytes()),
{
    let b = request.as_bytes();
    let mut out: Vec<u8> = Vec::new();
    // Split head and body at the first blank line.
    let mut head_end: usize = b.len();
    let mut i: usize = 0;
    let mut found_blank = false;
    while b.len() >= 4 && i < b.len() - 3 && !found_blank
        invariant
            i <= b@.len(),
            head_end <= b@.len(),
            !found_blank ==> crlf4_idx(b@, 0) == crlf4_idx(b@, i as int) && head_end == b@.len(),
            found_blank ==> head_end == crlf4_idx(b@, 0),
        decreases b@.len() - i + (if found_blank {
            0int
        } else {
            1int
        }),
    {
        if b[i] == 13 && b[i + 1] == 10 && b[i + 2] == 13 && b[i + 3] == 10 {
            head_end = i;
            found_blank = true;
        } else {
            i = i + 1;
        }
    }
    proof {
        if !found_blank {
            assert(crlf4_idx(b@, i as int) == b@.len());
        }
        assert(head_end as int == crlf4_idx(b@, 0));
    }
    // Walk the head line by line.
    let mut line_start: usize = 0;
    let mut first_line = true;
    proof {
        assert(spec_rewrite_lines(b@, 0, head_end as int, true) =~= out@ + spec_rewrite_lines(
            b@,
            0,
            head_end as int,
            true,
        ));
    }
    while line_start < head_end
        invariant
            line_start <= head_end <= b@.len(),
            spec_rewrite_lines(b@, 0, head_end as int, true) == out@ + spec_rewrite_lines(
                b@,
                line_start as int,
                head_end as int,
                first_line,
            ),
        decreases head_end - line_start,
    {
        let mut line_end: usize = line_start;
        while line_end < head_end && b[line_end] != 13 && b[line_end] != 10
            invariant
                line_start <= line_end <= head_end,
                head_end <= b@.len(),
                eol_idx(b@, line_start as int, head_end as int) == eol_idx(
                    b@,
                    line_end as int,
                    head_end as int,
                ),
            decreases head_end - line_end,
        {
            line_end = line_end + 1;
        }
        proof {
            assert(eol_idx(b@, line_end as int, head_end as int) == line_end);
        }
        let line = vstd::slice::slice_subrange(b, line_start, line_end);
        proof {
            assert(line@ =~= b@.subrange(line_start as int, line_end as int));
        }
        let ghost before = out@;
        if first_line {
            write_rewritten_request_line(&mut out, line);
            first_line = false;
            proof {
                assert(out@ =~= before + spec_request_line(line@));
            }
        } else {
            if !line_names_proxy_connection(line) && line.len() > 0 {
                crate::util::append_byte_slice(&mut out, line);
                out.push(13);
                out.push(10);
                proof {
                    assert(out@ =~= before + (line@ + seq![13u8, 10u8]));
                }
            }
        }
        // Advance past the line terminator.
        let mut next: usize = line_end;
        if next < head_end && b[next] == 13 {
            next = next + 1;
        }
        if next < head_end && b[next] == 10 {
            next = next + 1;
        }
        proof {
            // The scan always advances: a line either ends at a
            // terminator, which the skip consumes, or at the head's end.
            if next == line_start {
                assert(line_end == line_start);
                assert(line_end < head_end);
                assert(b@[line_end as int] == 13 || b@[line_end as int] == 10);
                assert(false);
            }
        }
        line_start = next;
    }
    proof {
        assert(line_start >= head_end);
        assert(spec_rewrite_lines(b@, line_start as int, head_end as int, first_line)
            == Seq::<u8>::empty());
        assert(out@ =~= spec_rewrite_lines(b@, 0, head_end as int, true));
    }
    let ghost head_out = out@;
    out.push(13);
    out.push(10);
    // The body, if any, passes through.
    if b.len() >= 4 && head_end <= b.len() - 4 {
        let body = vstd::slice::slice_subrange(b, head_end + 4, b.len());
        crate::util::append_byte_slice(&mut out, body);
        proof {
            assert(body@ =~= b@.skip(head_end as int + 4));
            assert(out@ =~= spec_rewrite_request(request.spec_bytes()));
        }
    } else {
        proof {
            assert(out@ =~= spec_rewrite_request(request.spec_bytes()));
        }
    }
    out
}

/// Writes a request line per [`spec_request_line`], ending it with the
/// line terminator.
#[verifier::rlimit(100)]
#[verifier::spinoff_prover]
fn write_rewritten_request_line(out: &mut Vec<u8>, line: &[u8])
    ensures
        final(out)@ == old(out)@ + spec_request_line(line@),
{
    // Find the two spaces around the URL.
    let mut sp1: usize = 0;
    while sp1 < line.len() && line[sp1] != 32
        invariant
            sp1 <= line@.len(),
            sp_idx(line@, 0) == sp_idx(line@, sp1 as int),
        decreases line@.len() - sp1,
    {
        sp1 = sp1 + 1;
    }
    proof {
        assert(sp_idx(line@, sp1 as int) == sp1);
    }
    if sp1 >= line.len() {
        crate::util::append_byte_slice(out, line);
        out.push(13);
        out.push(10);
        proof {
            assert(out@ =~= old(out)@ + spec_request_line(line@));
        }
        return ;
    }
    let mut sp2: usize = sp1 + 1;
    while sp2 < line.len() && line[sp2] != 32
        invariant
            sp1 < sp2 <= line@.len(),
            sp_idx(line@, sp1 as int + 1) == sp_idx(line@, sp2 as int),
        decreases line@.len() - sp2,
    {
        sp2 = sp2 + 1;
    }
    proof {
        assert(sp_idx(line@, sp2 as int) == sp2);
    }
    let url = vstd::slice::slice_subrange(line, sp1 + 1, sp2);
    let method = vstd::slice::slice_subrange(line, 0, sp1);
    proof {
        assert(url@ =~= line@.subrange(sp1 as int + 1, sp2 as int));
        assert(method@ =~= line@.subrange(0, sp1 as int));
    }
    crate::util::append_byte_slice(out, method);
    out.push(32);
    let absolute = url.len() >= 7 && url[0] == 104 && url[1] == 116 && url[2] == 116 && url[3]
        == 112 && url[4] == 58 && url[5] == 47 && url[6] == 47;
    if absolute {
        // Drop scheme and authority; keep the path from the first slash.
        let mut p: usize = 7;
        while p < url.len() && url[p] != 47
            invariant
                7 <= p <= url@.len(),
                slash_idx(url@, 7) == slash_idx(url@, p as int),
            decreases url@.len() - p,
        {
            p = p + 1;
        }
        proof {
            assert(slash_idx(url@, p as int) == p);
        }
        if p < url.len() {
            let path = vstd::slice::slice_subrange(url, p, url.len());
            proof {
                assert(path@ =~= url@.skip(p as int));
            }
            crate::util::append_byte_slice(out, path);
        } else {
            out.push(47);
        }
    } else {
        crate::util::append_byte_slice(out, url);
    }
    if sp2 < line.len() {
        let rest = vstd::slice::slice_subrange(line, sp2, line.len());
        proof {
            assert(rest@ =~= line@.skip(sp2 as int));
        }
        crate::util::append_byte_slice(out, rest);
    } else {
        out.push(32);
        crate::util::append_byte_slice(out, "HTTP/1.1".as_bytes());
    }
    out.push(13);
    out.push(10);
    proof {
        assert(out@ =~= old(out)@ + spec_request_line(line@));
    }
}

/// Whether a header line names Proxy-Connection, ASCII case ignored.
fn line_names_proxy_connection(line: &[u8]) -> (r: bool)
    ensures
        r == spec_names_pc(line@),
{
    let mut probe: Vec<u8> = Vec::new();
    probe.push(112);
    probe.push(114);
    probe.push(111);
    probe.push(120);
    probe.push(121);
    probe.push(45);
    probe.push(99);
    probe.push(111);
    probe.push(110);
    probe.push(110);
    probe.push(101);
    probe.push(99);
    probe.push(116);
    probe.push(105);
    probe.push(111);
    probe.push(110);
    probe.push(58);
    proof {
        assert(probe@ =~= pc_probe());
    }
    if line.len() < probe.len() {
        return false;
    }
    let mut i: usize = 0;
    while i < probe.len()
        invariant
            probe@ == pc_probe(),
            i <= probe@.len(),
            probe@.len() == 17,
            probe@.len() <= line@.len(),
            forall|k: int|
                0 <= k < i ==> ascii_lower_byte(#[trigger] line@[k]) == pc_probe()[k],
        decreases probe@.len() - i,
    {
        if ascii_lower(line[i]) != probe[i] {
            proof {
                assert(ascii_lower_byte(line@[i as int]) != pc_probe()[i as int]);
            }
            return false;
        }
        i = i + 1;
    }
    true
}

/// Index of the first space at or after `i`, stopping at a line end:
/// the length when a CR, LF or the end comes first.
pub open spec fn status_sp_idx(b: Seq<u8>, i: int) -> int
    decreases b.len() - i,
{
    if i >= b.len() {
        b.len() as int
    } else if b[i] == 13 || b[i] == 10 {
        b.len() as int
    } else if b[i] == 32 {
        i
    } else {
        status_sp_idx(b, i + 1)
    }
}

/// The decimal number read from `j`, accumulated onto `code` over
/// `digits` digits so far: refused without a digit, beyond five digits,
/// or past the 16-bit range.
pub open spec fn status_digits(b: Seq<u8>, j: int, code: int, digits: int) -> Option<u16>
    decreases b.len() - j,
{
    if j >= b.len() || !(48 <= b[j] <= 57) {
        if digits == 0 {
            None
        } else {
            Some(code as u16)
        }
    } else if digits >= 5 {
        None
    } else if code * 10 + (b[j] - 48) > 0xffff {
        None
    } else {
        status_digits(b, j + 1, code * 10 + (b[j] - 48), digits + 1)
    }
}

/// The status code of a response: the decimal second token of its first
/// line.
pub open spec fn spec_status_code(b: Seq<u8>) -> Option<u16> {
    let i = status_sp_idx(b, 0);
    if i >= b.len() {
        None
    } else {
        status_digits(b, i + 1, 0, 0)
    }
}

/// The status code of a response: the second token of its first line,
/// read as a decimal number.
pub fn parse_status_code(response: &str) -> (r: Option<u16>)
    ensures
        r == spec_status_code(response.spec_bytes()),
{
    let b = response.as_bytes();
    let mut i: usize = 0;
    while i < b.len() && b[i] != 32
        invariant
            b@ == response.spec_bytes(),
            i <= b@.len(),
            status_sp_idx(b@, 0) == status_sp_idx(b@, i as int),
        decreases b@.len() - i,
    {
        if b[i] == 13 || b[i] == 10 {
            return None;
        }
        i = i + 1;
    }
    if i >= b.len() {
        return None;
    }
    let mut j: usize = i + 1;
    let mut code: u32 = 0;
    let mut digits: u32 = 0;
    while j < b.len() && b[j] >= 48 && b[j] <= 57
        invariant
            b@ == response.spec_bytes(),
            status_sp_idx(b@, 0) == i as int,
            i < b@.len(),
            i < j <= b@.len(),
            code <= 0xffff,
            digits <= 5,
            spec_status_code(b@) == status_digits(b@, j as int, code as int, digits as int),
        decreases b@.len() - j,
    {
        if digits >= 5 {
            return None;
        }
        let next = code * 10 + (b[j] - 48) as u32;
        if next > 0xffff {
            return None;
        }
        code = next;
        digits = digits + 1;
        j = j + 1;
    }
    if digits == 0 {
        None
    } else {
        Some(code as u16)
    }
}

/// The server name a ClientHello asks for: the record parses, its first
/// server_name extension's payload reads list length (2), name type (1)
/// and name length (2), and the named bytes fit the payload.
pub open spec fn spec_sni(d: Seq<u8>) -> Option<Seq<u8>> {
    match crate::tls::spec_parse(d) {
        Ok(h) => match crate::tls::find_ext(h.extensions, 0) {
            Some(e) => {
                let ext = e.data;
                if ext.len() < 5 {
                    None
                } else {
                    let name_len = crate::util::u16_of_be(ext[3], ext[4]) as int;
                    if ext.len() - 5 < name_len {
                        None
                    } else {
                        Some(ext.subrange(5, 5 + name_len))
                    }
                }
            },
            None => None,
        },
        Err(_) => None,
    }
}

/// The server name a TLS hello asks for: exactly the bytes [`spec_sni`]
/// names, as a string when they are UTF-8, and nothing otherwise.
pub fn extract_sni(data: &[u8]) -> (r: Option<String>)
    ensures
        match spec_sni(data@) {
            Some(nb) => (if vstd::utf8::valid_utf8(nb) {
                r matches Some(s) && vstd::utf8::encode_utf8(s@) == nb
            } else {
                r is None
            }),
            None => r is None,
        },
{
    let hello = match crate::tls::TlsClientHello::parse(data) {
        Ok(h) => h,
        Err(_) => {
            return None;
        },
    };
    let ext = match hello.find_extension_data(0) {
        Some(d) => d,
        None => {
            return None;
        },
    };
    // Server-name list: list length (2), name type (1), name length (2).
    if ext.len() < 5 {
        return None;
    }
    let name_len = crate::util::read_u16_be(ext[3], ext[4]) as usize;
    if ext.len() - 5 < name_len {
        return None;
    }
    let name = vstd::slice::slice_subrange(ext.as_slice(), 5, 5 + name_len);
    crate::util::bytes_to_string(name)
}

} // verus!
