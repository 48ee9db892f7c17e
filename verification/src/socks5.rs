//! Upstream proxy client handshakes: the SOCKS5 byte exchanges of RFC 1928
//! and 1929, and the HTTP CONNECT request. The byte formats live here; the
//! sockets that carry them stay outside.

use vstd::prelude::*;

use crate::util::{be_hi, be_lo, split_u16_be};
use vstd::string::StringSliceAdditionalSpecFns;

verus! {

pub const SOCKS5_VERSION: u8 = 0x05;

pub const SOCKS5_AUTH_NONE: u8 = 0x00;

pub const SOCKS5_AUTH_PASSWORD: u8 = 0x02;

pub const SOCKS5_CMD_CONNECT: u8 = 0x01;

pub const SOCKS5_ATYP_IPV4: u8 = 0x01;

pub const SOCKS5_ATYP_DOMAIN: u8 = 0x03;

pub const SOCKS5_ATYP_IPV6: u8 = 0x04;

pub const SOCKS5_REP_SUCCESS: u8 = 0x00;

/// Cap on the headers an upstream proxy may answer with.
pub const MAX_PROXY_RESPONSE: usize = 8192;

/// A connect target as the SOCKS5 request encodes it.
pub enum TargetAddr {
    /// Four dotted-quad octets.
    V4(u8, u8, u8, u8),
    /// Sixteen address bytes.
    V6(Vec<u8>),
    /// A hostname, sent length-prefixed.
    Domain(String),
}

/// The SOCKS5 connector's endpoint and optional credentials.
pub struct Socks5Connector {
    pub proxy_host: String,
    pub proxy_port: u16,
    pub username: Option<String>,
    pub password: Option<String>,
}

/// The greeting bytes: version, method count, then NONE and, with
/// credentials, USERNAME/PASSWORD.
pub open spec fn greeting_bytes(with_auth: bool) -> Seq<u8> {
    if with_auth {
        seq![SOCKS5_VERSION, 2u8, SOCKS5_AUTH_NONE, SOCKS5_AUTH_PASSWORD]
    } else {
        seq![SOCKS5_VERSION, 1u8, SOCKS5_AUTH_NONE]
    }
}

/// The RFC 1929 sub-negotiation bytes for a username and password.
pub open spec fn auth_request_bytes(user: Seq<u8>, pass: Seq<u8>) -> Seq<u8> {
    seq![0x01u8, (user.len() % 0x100) as u8] + user + seq![(pass.len() % 0x100) as u8] + pass
}

/// The CONNECT request bytes for a target and port.
pub open spec fn connect_request_bytes(addr: TargetAddr, port: u16) -> Seq<u8> {
    seq![SOCKS5_VERSION, SOCKS5_CMD_CONNECT, 0x00u8] + (match addr {
        TargetAddr::V4(a, b, c, d) => seq![SOCKS5_ATYP_IPV4, a, b, c, d],
        TargetAddr::V6(o) => seq![SOCKS5_ATYP_IPV6] + o@,
        TargetAddr::Domain(h) => seq![
            SOCKS5_ATYP_DOMAIN,
            (vstd::utf8::encode_utf8(h@).len() % 0x100) as u8,
        ] + vstd::utf8::encode_utf8(h@),
    }) + seq![be_hi(port), be_lo(port)]
}

/// How many bytes of bound address follow a successful reply, by address
/// type; a domain reply first carries one length byte.
pub enum ReplyTail {
    /// Skip this many bytes.
    Fixed(usize),
    /// Read one length byte, then that many bytes plus the port.
    DomainLen,
}

impl Socks5Connector {
    /// A connector for an upstream endpoint.
    pub fn new(
        proxy_host: String,
        proxy_port: u16,
        username: Option<String>,
        password: Option<String>,
    ) -> (c: Self)
        ensures
            c.proxy_host == proxy_host,
            c.proxy_port == proxy_port,
            c.username == username,
            c.password == password,
    {
        Socks5Connector { proxy_host, proxy_port, username, password }
    }

    /// Whether both credentials are present.
    pub fn has_auth(&self) -> (r: bool)
        ensures
            r == (self.username is Some && self.password is Some),
    {
        self.username.is_some() && self.password.is_some()
    }

    /// The greeting this connector opens with.
    pub fn build_greeting(&self) -> (r: Vec<u8>)
        ensures
            r@ == greeting_bytes(self.username is Some && self.password is Some),
    {
        let mut out: Vec<u8> = Vec::new();
        out.push(SOCKS5_VERSION);
        if self.username.is_some() && self.password.is_some() {
            out.push(2);
            out.push(SOCKS5_AUTH_NONE);
            out.push(SOCKS5_AUTH_PASSWORD);
            proof {
                assert(out@ =~= greeting_bytes(true));
            }
        } else {
            out.push(1);
            out.push(SOCKS5_AUTH_NONE);
            proof {
                assert(out@ =~= greeting_bytes(false));
            }
        }
        out
    }

    /// Whether a 2-byte greeting reply accepts some method.
    pub fn greeting_reply_ok(&self, b0: u8, b1: u8) -> (r: bool)
        ensures
            r == (b0 == SOCKS5_VERSION && b1 != 0xff),
    {
        b0 == SOCKS5_VERSION && b1 != 0xff
    }

    /// The RFC 1929 sub-negotiation for the stored credentials.
    pub fn build_auth_request(&self, username: &str, password: &str) -> (r: Vec<u8>)
        ensures
            r@ == auth_request_bytes(username.spec_bytes(), password.spec_bytes()),
    {
        let mut out: Vec<u8> = Vec::new();
        out.push(0x01);
        let ub = username.as_bytes();
        out.push((ub.len() % 0x100) as u8);
        crate::util::append_byte_slice(&mut out, ub);
        let pb = password.as_bytes();
        out.push((pb.len() % 0x100) as u8);
        crate::util::append_byte_slice(&mut out, pb);
        proof {
            assert(out@ =~= auth_request_bytes(username.spec_bytes(), password.spec_bytes()));
        }
        out
    }

    /// Whether a 2-byte sub-negotiation reply reports success.
    pub fn auth_reply_ok(&self, b0: u8, b1: u8) -> (r: bool)
        ensures
            r == (b1 == 0x00),
    {
        let _ = b0;
        b1 == 0x00
    }

    /// The CONNECT request for a target and port.
    pub fn build_connect_request(&self, addr: &TargetAddr, port: u16) -> (r: Vec<u8>)
        ensures
            r@ == connect_request_bytes(*addr, port),
    {
        let mut out: Vec<u8> = Vec::new();
        out.push(SOCKS5_VERSION);
        out.push(SOCKS5_CMD_CONNECT);
        out.push(0x00);
        match addr {
            TargetAddr::V4(a, b, c, d) => {
                out.push(SOCKS5_ATYP_IPV4);
                out.push(*a);
                out.push(*b);
                out.push(*c);
                out.push(*d);
            },
            TargetAddr::V6(o) => {
                out.push(SOCKS5_ATYP_IPV6);
                crate::util::append_byte_slice(&mut out, o.as_slice());
            },
            TargetAddr::Domain(h) => {
                out.push(SOCKS5_ATYP_DOMAIN);
                let hb = h.as_str().as_bytes();
                out.push((hb.len() % 0x100) as u8);
                crate::util::append_byte_slice(&mut out, hb);
            },
        }
        let (ph, pl) = split_u16_be(port);
        out.push(ph);
        out.push(pl);
        proof {
            assert(out@ =~= connect_request_bytes(*addr, port));
        }
        out
    }

    /// What follows a 4-byte CONNECT reply: refused unless it reports
    /// success, else the bound-address tail to consume by address type.
    pub fn parse_connect_reply(&self, reply: &[u8]) -> (r: Option<ReplyTail>)
        requires
            reply@.len() >= 4,
        ensures
            ({
                let ok = reply@[0] == SOCKS5_VERSION && reply@[1] == SOCKS5_REP_SUCCESS;
                match r {
                    Some(t) => ok && match t {
                        ReplyTail::Fixed(n) => (reply@[3] == SOCKS5_ATYP_IPV4 && n == 6) || (
                        reply@[3] == SOCKS5_ATYP_IPV6 && n == 18),
                        ReplyTail::DomainLen => reply@[3] == SOCKS5_ATYP_DOMAIN,
                    },
                    None => !ok || (reply@[3] != SOCKS5_ATYP_IPV4 && reply@[3]
                        != SOCKS5_ATYP_IPV6 && reply@[3] != SOCKS5_ATYP_DOMAIN),
                }
            }),
    {
        if reply[0] != SOCKS5_VERSION {
            return None;
        }
        if reply[1] != SOCKS5_REP_SUCCESS {
            return None;
        }
        let atyp = reply[3];
        if atyp == SOCKS5_ATYP_IPV4 {
            Some(ReplyTail::Fixed(6))
        } else if atyp == SOCKS5_ATYP_IPV6 {
            Some(ReplyTail::Fixed(18))
        } else if atyp == SOCKS5_ATYP_DOMAIN {
            Some(ReplyTail::DomainLen)
        } else {
            None
        }
    }
}

/// The dotted-quad reading of a byte string: four decimal octets, each of
/// one to three digits and at most 255, separated by single dots. The scan
/// mirrors the executable walk: accumulated octet, digit count, and the
/// octets finished so far.
pub open spec fn scan_ipv4(
    b: Seq<u8>,
    i: int,
    cur: int,
    digits: int,
    parts: Seq<u8>,
) -> Option<(u8, u8, u8, u8)>
    decreases b.len() - i,
{
    if i >= b.len() {
        if digits == 0 || parts.len() != 3 {
            None
        } else {
            Some((parts[0], parts[1], parts[2], cur as u8))
        }
    } else if 48 <= b[i] <= 57 {
        if digits >= 3 {
            None
        } else if cur * 10 + (b[i] - 48) > 255 {
            None
        } else {
            scan_ipv4(b, i + 1, cur * 10 + (b[i] - 48), digits + 1, parts)
        }
    } else if b[i] == 46 {
        if digits == 0 || parts.len() >= 3 {
            None
        } else {
            scan_ipv4(b, i + 1, 0, 0, parts.push(cur as u8))
        }
    } else {
        None
    }
}

/// The IPv4 address a hostname's UTF-8 bytes spell, if they are a dotted
/// quad.
pub open spec fn spec_ipv4(b: Seq<u8>) -> Option<(u8, u8, u8, u8)> {
    scan_ipv4(b, 0, 0, 0, Seq::empty())
}

/// The IPv4 address a dotted-quad hostname denotes, if it is one.
pub fn parse_ipv4(host: &str) -> (r: Option<(u8, u8, u8, u8)>)
    ensures
        r == spec_ipv4(host.spec_bytes()),
{
    let b = host.as_bytes();
    let mut parts: Vec<u8> = Vec::new();
    let mut cur: u32 = 0;
    let mut digits: u32 = 0;
    let mut i: usize = 0;
    while i < b.len()
        invariant
            b@ == host.spec_bytes(),
            i <= b@.len(),
            cur <= 255,
            digits <= 3,
            parts@.len() <= 3,
            spec_ipv4(b@) == scan_ipv4(b@, i as int, cur as int, digits as int, parts@),
        decreases b@.len() - i,
    {
        let c = b[i];
        if c >= 48 && c <= 57 {
            if digits >= 3 {
                return None;
            }
            let next = cur * 10 + (c - 48) as u32;
            if next > 255 {
                return None;
            }
            cur = next;
            digits = digits + 1;
        } else if c == 46 {
            if digits == 0 || parts.len() >= 3 {
                return None;
            }
            parts.push(cur as u8);
            cur = 0;
            digits = 0;
        } else {
            return None;
        }
        i = i + 1;
    }
    if digits == 0 || parts.len() != 3 {
        return None;
    }
    let a = parts[0];
    let bb = parts[1];
    let c = parts[2];
    Some((a, bb, c, cur as u8))
}

/// Classifies a hostname: a dotted quad becomes a V4 target, anything
/// else is sent as a length-prefixed domain.
pub fn classify_host(host: &str) -> (r: TargetAddr)
    ensures
        match spec_ipv4(host.spec_bytes()) {
            Some((a, b, c, d)) => r == TargetAddr::V4(a, b, c, d),
            None => r matches TargetAddr::Domain(h) && h@ == host@,
        },
{
    match parse_ipv4(host) {
        Some((a, b, c, d)) => TargetAddr::V4(a, b, c, d),
        None => TargetAddr::Domain(String::from_str(host)),
    }
}

// ---------------------------------------------------------------------------
// HTTP CONNECT.
// ---------------------------------------------------------------------------

/// The HTTPS proxy connector's endpoint and optional credentials.
pub struct HttpsProxyConnector {
    pub proxy_host: String,
    pub proxy_port: u16,
    pub username: Option<String>,
    pub password: Option<String>,
}

/// The base64 form of a byte string, as the base64 crate's standard
/// alphabet writes it with padding.
pub uninterp spec fn base64_of(b: Seq<u8>) -> Seq<char>;

/// Relies on base64's STANDARD engine encode: four output characters for
/// every three input bytes, padded, a function of the bytes alone.
#[verifier::external_body]
fn base64_encode(data: &[u8]) -> (r: String)
    requires
        data@.len() <= 0x10000000,
    ensures
        r@ == base64_of(data@),
        r@.len() == 4 * ((data@.len() + 2) / 3),
{
    <base64::engine::general_purpose::GeneralPurpose as base64::Engine>::encode(
        &base64::engine::general_purpose::STANDARD,
        data,
    )
}

impl HttpsProxyConnector {
    /// A connector for an upstream endpoint.
    pub fn new(
        proxy_host: String,
        proxy_port: u16,
        username: Option<String>,
        password: Option<String>,
    ) -> (c: Self)
        ensures
            c.proxy_host == proxy_host,
            c.proxy_port == proxy_port,
            c.username == username,
            c.password == password,
    {
        HttpsProxyConnector { proxy_host, proxy_port, username, password }
    }

    /// The CONNECT request for a target, with Basic credentials when both
    /// are stored.
    pub fn build_connect_request(&self, target_host: &str, target_port: u16) -> (r: String)
        ensures
            ({
                let head = "CONNECT "@ + target_host@ + ":"@ + spec_u16_string(target_port)
                    + " HTTP/1.1\r\nHost: "@ + target_host@ + ":"@ + spec_u16_string(target_port)
                    + "\r\n"@;
                match (self.username, self.password) {
                    (Some(u), Some(p)) => if vstd::utf8::encode_utf8(u@ + ":"@ + p@).len()
                        <= 0x10000000 {
                        r@ == head + "Proxy-Authorization: Basic "@ + base64_of(
                            vstd::utf8::encode_utf8(u@ + ":"@ + p@),
                        ) + "\r\n"@ + "\r\n"@
                    } else {
                        r@ == head + "\r\n"@
                    },
                    _ => r@ == head + "\r\n"@,
                }
            }),
    {
        let port_s = u16_string(target_port);
        let mut out = String::from_str("CONNECT ");
        out.append(target_host);
        out.append(":");
        out.append(port_s.as_str());
        out.append(" HTTP/1.1\r\nHost: ");
        out.append(target_host);
        out.append(":");
        out.append(port_s.as_str());
        out.append("\r\n");
        match (&self.username, &self.password) {
            (Some(u), Some(p)) => {
                let mut cred = u.clone();
                cred.append(":");
                cred.append(p.as_str());
                let cred_bytes = cred.as_str().as_bytes();
                if cred_bytes.len() <= 0x10000000 {
                    let encoded = base64_encode(cred_bytes);
                    out.append("Proxy-Authorization: Basic ");
                    out.append(encoded.as_str());
                    out.append("\r\n");
                }
            },
            _ => {},
        }
        out.append("\r\n");
        out
    }

    /// Whether a proxy answer accepts the tunnel: it must name 200 or the
    /// established phrase.
    pub fn is_success_response(&self, response: &[u8]) -> (r: bool)
        ensures
            r == (crate::util::has_sub(response@, "200".spec_bytes()) || crate::util::has_sub(
                response@,
                "Connection established".spec_bytes(),
            )),
    {
        if crate::util::contains_sub(response, "200".as_bytes()) {
            return true;
        }
        crate::util::contains_sub(response, "Connection established".as_bytes())
    }
}

/// The decimal digits of a 16-bit value.
pub open spec fn spec_u16_string(v: u16) -> Seq<char>
    decreases v,
{
    if v < 10 {
        spec_digit(v as int)
    } else {
        spec_u16_string(v / 10) + spec_digit((v % 10) as int)
    }
}

/// One decimal digit as characters.
pub open spec fn spec_digit(d: int) -> Seq<char> {
    if d == 0 {
        "0"@
    } else if d == 1 {
        "1"@
    } else if d == 2 {
        "2"@
    } else if d == 3 {
        "3"@
    } else if d == 4 {
        "4"@
    } else if d == 5 {
        "5"@
    } else if d == 6 {
        "6"@
    } else if d == 7 {
        "7"@
    } else if d == 8 {
        "8"@
    } else {
        "9"@
    }
}

/// Writes a 16-bit value in decimal.
pub fn u16_string(v: u16) -> (r: String)
    ensures
        r@ == spec_u16_string(v),
    decreases v,
{
    if v < 10 {
        let mut s = String::new();
        s.append(digit_str((v % 10) as u8));
        s
    } else {
        let mut s = u16_string(v / 10);
        s.append(digit_str((v % 10) as u8));
        s
    }
}

/// One decimal digit as a string slice.
fn digit_str(d: u8) -> (r: &'static str)
    requires
        d <= 9,
    ensures
        r@ == spec_digit(d as int),
{
    if d == 0 {
        "0"
    } else if d == 1 {
        "1"
    } else if d == 2 {
        "2"
    } else if d == 3 {
        "3"
    } else if d == 4 {
        "4"
    } else if d == 5 {
        "5"
    } else if d == 6 {
        "6"
    } else if d == 7 {
        "7"
    } else if d == 8 {
        "8"
    } else {
        "9"
    }
}

} // verus!
