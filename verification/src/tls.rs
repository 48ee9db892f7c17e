//! TLS ClientHello codec: parse the on-wire handshake and synthesize a
//! rewritten one that carries a target cipher-suite and extension ordering
//! while preserving the random and the session id byte for byte.

use vstd::prelude::*;

use crate::clock::now_secs;
use crate::util::{be_hi, be_lo, read_u16_be, u16_of_be};
use vstd::string::StringSliceAdditionalSpecFns;

verus! {

/// Errors of the ClientHello codec.
#[derive(Clone, Copy, Debug, PartialEq, Eq, Structural)]
pub enum TlsError {
    /// The input ends before a complete field.
    ParseTooShort,
    /// The record header is not a TLS handshake record.
    ParseBadRecord,
    /// The handshake message is not a ClientHello, or a field inside it is
    /// malformed.
    ParseBadHandshake,
    /// A rebuilt hostname or extension block does not fit its 16-bit length
    /// field.
    SynthesizeOverflow,
}

/// One extension: a 16-bit type code and its opaque payload.
#[derive(Debug)]
pub struct TlsExtension {
    pub extension_type: u16,
    pub data: Vec<u8>,
}

/// The logical structure of a ClientHello.
#[derive(Debug)]
pub struct TlsClientHello {
    /// Legacy protocol version, two bytes.
    pub version: Vec<u8>,
    /// The 32-byte client random.
    pub random: Vec<u8>,
    /// Legacy session id, up to 32 bytes on honest clients.
    pub session_id: Vec<u8>,
    /// Cipher-suite codes in their on-wire order.
    pub cipher_suites: Vec<u16>,
    /// Compression method codes in their on-wire order.
    pub compression_methods: Vec<u8>,
    /// Extensions in their on-wire order.
    pub extensions: Vec<TlsExtension>,
}

/// Mathematical model of one extension.
#[verifier::ext_equal]
pub struct ExtView {
    pub extension_type: u16,
    pub data: Seq<u8>,
}

/// Mathematical model of a ClientHello.
#[verifier::ext_equal]
pub struct HelloView {
    pub version: Seq<u8>,
    pub random: Seq<u8>,
    pub session_id: Seq<u8>,
    pub cipher_suites: Seq<u16>,
    pub compression_methods: Seq<u8>,
    pub extensions: Seq<ExtView>,
}

/// The models of a sequence of extensions.
pub open spec fn exts_view(v: Seq<TlsExtension>) -> Seq<ExtView> {
    Seq::new(v.len(), |i: int| v[i]@)
}

impl View for TlsExtension {
    type V = ExtView;

    open spec fn view(&self) -> ExtView {
        ExtView { extension_type: self.extension_type, data: self.data@ }
    }
}

impl View for TlsClientHello {
    type V = HelloView;

    open spec fn view(&self) -> HelloView {
        HelloView {
            version: self.version@,
            random: self.random@,
            session_id: self.session_id@,
            cipher_suites: self.cipher_suites@,
            compression_methods: self.compression_methods@,
            extensions: exts_view(self.extensions@),
        }
    }
}

/// A hello whose fixed-size fields have their wire sizes.
pub open spec fn wf_hello(h: HelloView) -> bool {
    &&& h.version.len() == 2
    &&& h.random.len() == 32
}

// ---------------------------------------------------------------------------
// Wire format, as specification functions.
// ---------------------------------------------------------------------------

/// Cipher-suite list as big-endian byte pairs.
pub open spec fn suites_bytes(cs: Seq<u16>) -> Seq<u8>
    decreases cs.len(),
{
    if cs.len() == 0 {
        Seq::empty()
    } else {
        seq![be_hi(cs[0]), be_lo(cs[0])] + suites_bytes(cs.drop_first())
    }
}

/// A length written into a 16-bit field.
pub open spec fn len16(n: int) -> u16 {
    (n % 0x10000) as u16
}

/// A length written into an 8-bit field.
pub open spec fn len8(n: int) -> u8 {
    (n % 0x100) as u8
}

/// One extension on the wire: type, payload length, payload.
pub open spec fn ext_bytes(e: ExtView) -> Seq<u8> {
    seq![
        be_hi(e.extension_type),
        be_lo(e.extension_type),
        be_hi(len16(e.data.len() as int)),
        be_lo(len16(e.data.len() as int)),
    ] + e.data
}

/// An extension block on the wire.
pub open spec fn exts_bytes(es: Seq<ExtView>) -> Seq<u8>
    decreases es.len(),
{
    if es.len() == 0 {
        Seq::empty()
    } else {
        ext_bytes(es[0]) + exts_bytes(es.drop_first())
    }
}

/// The ClientHello body: the part after the 4-byte handshake header.
pub open spec fn body_bytes(h: HelloView) -> Seq<u8> {
    h.version + h.random + seq![len8(h.session_id.len() as int)] + h.session_id + seq![
        be_hi(len16(2 * h.cipher_suites.len() as int)),
        be_lo(len16(2 * h.cipher_suites.len() as int)),
    ] + suites_bytes(h.cipher_suites) + seq![len8(h.compression_methods.len() as int)]
        + h.compression_methods + seq![
        be_hi(len16(exts_bytes(h.extensions).len() as int)),
        be_lo(len16(exts_bytes(h.extensions).len() as int)),
    ] + exts_bytes(h.extensions)
}

/// The full record: record header, handshake header, body.
pub open spec fn hello_bytes(h: HelloView) -> Seq<u8> {
    let body = body_bytes(h);
    let record_len = len16(body.len() + 4 as int);
    seq![0x16u8, 0x03u8, 0x03u8, be_hi(record_len), be_lo(record_len)] + seq![
        0x01u8,
        0x00u8,
        be_hi(len16(body.len() as int)),
        be_lo(len16(body.len() as int)),
    ] + body
}

/// Every variable-length field fits the length field that prefixes it, so
/// that the hello can be written out.
pub open spec fn fits(h: HelloView) -> bool {
    &&& h.session_id.len() <= 255
    &&& h.compression_methods.len() <= 255
    &&& 2 * h.cipher_suites.len() <= 0xffff
    &&& forall|i: int| 0 <= i < h.extensions.len() ==> (#[trigger] h.extensions[i]).data.len()
        <= 0xffff
    &&& exts_bytes(h.extensions).len() <= 0xffff
    &&& body_bytes(h).len() + 4 <= 0xffff
}

// ---------------------------------------------------------------------------
// Parsing, as a specification function.
// ---------------------------------------------------------------------------

/// Suites read from a byte region, two bytes each; a trailing lone byte is
/// never read because the parser rejects odd list lengths.
pub open spec fn parse_suites(b: Seq<u8>) -> Seq<u16>
    decreases b.len(),
{
    if b.len() < 2 {
        Seq::empty()
    } else {
        seq![u16_of_be(b[0], b[1])] + parse_suites(b.skip(2))
    }
}

/// Extensions read leniently from a region: one whose declared length would
/// overrun the region is dropped, together with everything after it.
pub open spec fn parse_exts(b: Seq<u8>) -> Seq<ExtView>
    decreases b.len(),
{
    if b.len() < 4 {
        Seq::empty()
    } else {
        let t = u16_of_be(b[0], b[1]);
        let l = u16_of_be(b[2], b[3]) as int;
        if 4 + l > b.len() {
            Seq::empty()
        } else {
            seq![ExtView { extension_type: t, data: b.subrange(4, 4 + l) }] + parse_exts(
                b.skip(4 + l),
            )
        }
    }
}

/// The hello built from a handshake region and its already-parsed
/// variable-length fields.
pub open spec fn tail_hello(
    hs: Seq<u8>,
    sid: Seq<u8>,
    cs: Seq<u16>,
    comps: Seq<u8>,
    exts: Seq<ExtView>,
) -> HelloView {
    HelloView {
        version: hs.subrange(4, 6),
        random: hs.subrange(6, 38),
        session_id: sid,
        cipher_suites: cs,
        compression_methods: comps,
        extensions: exts,
    }
}

/// What parsing a buffer yields, field by field. The handshake region is
/// everything after the record header. Each length field is checked against
/// the buffer before its field is read; a buffer that ends cleanly at a
/// field boundary leaves the remaining fields empty, one that ends inside a
/// declared length fails.
pub open spec fn spec_parse(d: Seq<u8>) -> Result<HelloView, TlsError> {
    if d.len() < 43 {
        Err(TlsError::ParseTooShort)
    } else if d[0] != 0x16 {
        Err(TlsError::ParseBadRecord)
    } else if d.len() < 5 + u16_of_be(d[3], d[4]) {
        Err(TlsError::ParseTooShort)
    } else {
        let hs = d.skip(5);
        if hs[0] != 0x01 {
            Err(TlsError::ParseBadHandshake)
        } else if hs.len() == 38 {
            Ok(tail_hello(hs, Seq::empty(), Seq::empty(), Seq::empty(), Seq::empty()))
        } else {
            let sid_len = hs[38] as int;
            if 39 + sid_len > hs.len() {
                Err(TlsError::ParseTooShort)
            } else {
                let sid = hs.subrange(39, 39 + sid_len);
                let cs_off = 39 + sid_len;
                if cs_off == hs.len() {
                    Ok(tail_hello(hs, sid, Seq::empty(), Seq::empty(), Seq::empty()))
                } else if cs_off + 2 > hs.len() {
                    Err(TlsError::ParseTooShort)
                } else {
                    let cs_len = u16_of_be(hs[cs_off], hs[cs_off + 1]) as int;
                    if cs_len % 2 != 0 {
                        Err(TlsError::ParseBadHandshake)
                    } else if cs_off + 2 + cs_len > hs.len() {
                        Err(TlsError::ParseTooShort)
                    } else {
                        let cs = parse_suites(hs.subrange(cs_off + 2, cs_off + 2 + cs_len));
                        let comp_off = cs_off + 2 + cs_len;
                        if comp_off == hs.len() {
                            Ok(tail_hello(hs, sid, cs, Seq::empty(), Seq::empty()))
                        } else {
                            let comp_len = hs[comp_off] as int;
                            if comp_off + 1 + comp_len > hs.len() {
                                Err(TlsError::ParseTooShort)
                            } else {
                                let comps = hs.subrange(comp_off + 1, comp_off + 1 + comp_len);
                                let ext_off = comp_off + 1 + comp_len;
                                let exts = if ext_off + 2 > hs.len() {
                                    Seq::<ExtView>::empty()
                                } else {
                                    let ext_len = u16_of_be(hs[ext_off], hs[ext_off + 1]) as int;
                                    let end = if ext_off + 2 + ext_len > hs.len() {
                                        hs.len() as int
                                    } else {
                                        ext_off + 2 + ext_len
                                    };
                                    parse_exts(hs.subrange(ext_off + 2, end))
                                };
                                Ok(tail_hello(hs, sid, cs, comps, exts))
                            }
                        }
                    }
                }
            }
        }
    }
}

/// The model of a parse result.
pub open spec fn parse_result_view(r: Result<TlsClientHello, TlsError>) -> Result<
    HelloView,
    TlsError,
> {
    match r {
        Ok(h) => Ok(h@),
        Err(e) => Err(e),
    }
}

impl TlsClientHello {
    /// Parses a ClientHello record, returning exactly what [`spec_parse`]
    /// describes for the input bytes.
    pub fn parse(data: &[u8]) -> (r: Result<TlsClientHello, TlsError>)
        ensures
            parse_result_view(r) == spec_parse(data@),
            r matches Ok(h) ==> wf_hello(h@),
    {
        if data.len() < 43 {
            return Err(TlsError::ParseTooShort);
        }
        if data[0] != 0x16 {
            return Err(TlsError::ParseBadRecord);
        }
        let record_len = read_u16_be(data[3], data[4]) as usize;
        if data.len() < 5 + record_len {
            return Err(TlsError::ParseTooShort);
        }
        let hs: &[u8] = vstd::slice::slice_subrange(data, 5, data.len());
        assert(hs@ =~= data@.skip(5));
        if hs[0] != 0x01 {
            return Err(TlsError::ParseBadHandshake);
        }
        let version = vstd::slice::slice_to_vec(vstd::slice::slice_subrange(hs, 4, 6));
        let random = vstd::slice::slice_to_vec(vstd::slice::slice_subrange(hs, 6, 38));
        assert(version@ =~= hs@.subrange(4, 6));
        assert(random@ =~= hs@.subrange(6, 38));
        if hs.len() == 38 {
            let result = TlsClientHello {
                version,
                random,
                session_id: Vec::new(),
                cipher_suites: Vec::new(),
                compression_methods: Vec::new(),
                extensions: Vec::new(),
            };
            proof {
                assert(exts_view(result.extensions@) =~= Seq::<ExtView>::empty());
                assert(result@ =~= tail_hello(
                    hs@,
                    Seq::empty(),
                    Seq::empty(),
                    Seq::empty(),
                    Seq::empty(),
                ));
            }
            return Ok(result);
        }
        let sid_len = hs[38] as usize;
        if 39 + sid_len > hs.len() {
            return Err(TlsError::ParseTooShort);
        }
        let session_id = vstd::slice::slice_to_vec(
            vstd::slice::slice_subrange(hs, 39, 39 + sid_len),
        );
        assert(session_id@ =~= hs@.subrange(39, 39 + sid_len as int));
        let cs_off = 39 + sid_len;
        if cs_off == hs.len() {
            let result = TlsClientHello {
                version,
                random,
                session_id,
                cipher_suites: Vec::new(),
                compression_methods: Vec::new(),
                extensions: Vec::new(),
            };
            proof {
                assert(exts_view(result.extensions@) =~= Seq::<ExtView>::empty());
                assert(result@ =~= tail_hello(
                    hs@,
                    hs@.subrange(39, 39 + sid_len as int),
                    Seq::empty(),
                    Seq::empty(),
                    Seq::empty(),
                ));
            }
            return Ok(result);
        }
        if cs_off + 2 > hs.len() {
            return Err(TlsError::ParseTooShort);
        }
        let cs_len = read_u16_be(hs[cs_off], hs[cs_off + 1]) as usize;
        if cs_len % 2 != 0 {
            return Err(TlsError::ParseBadHandshake);
        }
        if cs_off + 2 + cs_len > hs.len() {
            return Err(TlsError::ParseTooShort);
        }

        let cs_region: &[u8] = vstd::slice::slice_subrange(hs, cs_off + 2, cs_off + 2 + cs_len);
        let mut cipher_suites: Vec<u16> = Vec::new();
        let mut i: usize = 0;
        proof {
            assert(cs_region@.skip(0) =~= cs_region@);
        }
        while i + 2 <= cs_len
            invariant
                cs_len == cs_region@.len(),
                cs_len <= 0xffff,
                i % 2 == 0,
                i <= cs_len,
                cs_len % 2 == 0,
                parse_suites(cs_region@) =~= cipher_suites@ + parse_suites(
                    cs_region@.skip(i as int),
                ),
            decreases cs_len - i,
        {
            let s = read_u16_be(cs_region[i], cs_region[i + 1]);
            proof {
                assert(cs_region@.skip(i as int).len() >= 2);
                assert(cs_region@.skip(i as int)[0] == cs_region@[i as int]);
                assert(cs_region@.skip(i as int)[1] == cs_region@[i as int + 1]);
                assert(cs_region@.skip(i as int).skip(2) =~= cs_region@.skip(i as int + 2));
            }
            cipher_suites.push(s);
            i = i + 2;
        }
        proof {
            assert(cs_region@.skip(cs_len as int).len() == 0);
            assert(parse_suites(cs_region@.skip(cs_len as int)) =~= Seq::<u16>::empty());
            assert(cipher_suites@ =~= parse_suites(cs_region@));
        }

        let comp_off = cs_off + 2 + cs_len;
        if comp_off == hs.len() {
            let result = TlsClientHello {
                version,
                random,
                session_id,
                cipher_suites,
                compression_methods: Vec::new(),
                extensions: Vec::new(),
            };
            proof {
                assert(exts_view(result.extensions@) =~= Seq::<ExtView>::empty());
                assert(result@ =~= tail_hello(
                    hs@,
                    hs@.subrange(39, 39 + sid_len as int),
                    parse_suites(
                        hs@.subrange(cs_off as int + 2, cs_off as int + 2 + cs_len as int),
                    ),
                    Seq::empty(),
                    Seq::empty(),
                ));
            }
            return Ok(result);
        }
        let comp_len = hs[comp_off] as usize;
        if comp_off + 1 + comp_len > hs.len() {
            return Err(TlsError::ParseTooShort);
        }
        let compression_methods = vstd::slice::slice_to_vec(
            vstd::slice::slice_subrange(hs, comp_off + 1, comp_off + 1 + comp_len),
        );
        let ext_off = comp_off + 1 + comp_len;

        let mut extensions: Vec<TlsExtension> = Vec::new();
        if ext_off + 2 <= hs.len() {
            let ext_len = read_u16_be(hs[ext_off], hs[ext_off + 1]) as usize;
            let end = if ext_off + 2 + ext_len > hs.len() {
                hs.len()
            } else {
                ext_off + 2 + ext_len
            };
            let region: &[u8] = vstd::slice::slice_subrange(hs, ext_off + 2, end);
            let mut off: usize = 0;
            proof {
                assert(region@.skip(0) =~= region@);
            }
            loop
                invariant
                    off <= region@.len(),
                    region@.len() <= usize::MAX,
                    parse_exts(region@) =~= exts_view(extensions@) + parse_exts(
                        region@.skip(off as int),
                    ),
                ensures
                    parse_exts(region@) =~= exts_view(extensions@),
                decreases region@.len() - off,
            {
                if region.len() - off < 4 {
                    proof {
                        assert(region@.skip(off as int).len() < 4);
                        assert(parse_exts(region@.skip(off as int)) =~= Seq::<ExtView>::empty());
                        assert(exts_view(extensions@) + Seq::<ExtView>::empty() =~= exts_view(
                            extensions@,
                        ));
                    }
                    break ;
                }
                let t = read_u16_be(region[off], region[off + 1]);
                let l = read_u16_be(region[off + 2], region[off + 3]) as usize;
                if region.len() - off - 4 < l {
                    proof {
                        let rem = region@.skip(off as int);
                        assert(rem[0] == region@[off as int]);
                        assert(rem[1] == region@[off as int + 1]);
                        assert(rem[2] == region@[off as int + 2]);
                        assert(rem[3] == region@[off as int + 3]);
                        assert(4 + u16_of_be(rem[2], rem[3]) as int > rem.len());
                        assert(parse_exts(rem) =~= Seq::<ExtView>::empty());
                        assert(exts_view(extensions@) + Seq::<ExtView>::empty() =~= exts_view(
                            extensions@,
                        ));
                    }
                    break ;
                }
                let payload = vstd::slice::slice_to_vec(
                    vstd::slice::slice_subrange(region, off + 4, off + 4 + l),
                );
                let ghost old_exts = extensions@;
                extensions.push(TlsExtension { extension_type: t, data: payload });
                proof {
                    let rem = region@.skip(off as int);
                    assert(rem[0] == region@[off as int]);
                    assert(rem[1] == region@[off as int + 1]);
                    assert(rem[2] == region@[off as int + 2]);
                    assert(rem[3] == region@[off as int + 3]);
                    assert(rem.subrange(4, 4 + l as int) =~= region@.subrange(
                        off as int + 4,
                        off as int + 4 + l as int,
                    ));
                    assert(rem.skip(4 + l as int) =~= region@.skip(off as int + 4 + l as int));
                    assert(parse_exts(rem) =~= seq![
                        ExtView {
                            extension_type: t,
                            data: region@.subrange(off as int + 4, off as int + 4 + l as int),
                        },
                    ] + parse_exts(region@.skip(off as int + 4 + l as int)));
                    assert(exts_view(extensions@) =~= exts_view(old_exts).push(
                        ExtView {
                            extension_type: t,
                            data: region@.subrange(off as int + 4, off as int + 4 + l as int),
                        },
                    ));
                }
                off = off + 4 + l;
            }
        } else {
            proof {
                assert(exts_view(extensions@) =~= Seq::<ExtView>::empty());
            }
        }

        let result = TlsClientHello {
            version,
            random,
            session_id,
            cipher_suites,
            compression_methods,
            extensions,
        };
        proof {
            let hss = data@.skip(5);
            assert(result@.session_id =~= hss.subrange(39, 39 + sid_len as int));
            assert(cs_region@ =~= hss.subrange(
                cs_off as int + 2,
                cs_off as int + 2 + cs_len as int,
            ));
            assert(result@.compression_methods =~= hss.subrange(
                comp_off as int + 1,
                comp_off as int + 1 + comp_len as int,
            ));
            assert(spec_parse(data@) matches Ok(v) && v =~= result@);
        }
        Ok(result)
    }
}

// ---------------------------------------------------------------------------
// The fingerprint rewrite, as specification functions.
// ---------------------------------------------------------------------------

/// The TLS 1.3 cipher-suite trio that leads every rewritten hello.
pub open spec fn tls13_trio() -> Seq<u16> {
    seq![0x1301u16, 0x1302u16, 0x1303u16]
}

/// Keeps the first occurrence of every element.
pub open spec fn dedup_first(s: Seq<u16>) -> Seq<u16>
    decreases s.len(),
{
    if s.len() == 0 {
        s
    } else {
        let rest = dedup_first(s.drop_last());
        if rest.contains(s.last()) {
            rest
        } else {
            rest.push(s.last())
        }
    }
}

/// The rewritten cipher-suite list: the trio first, then the original list
/// in order, duplicates dropped after their first occurrence.
pub open spec fn norm_cs(cs: Seq<u16>) -> Seq<u16> {
    dedup_first(tls13_trio() + cs)
}

/// The server_name extension payload around a hostname: server-name-list
/// length, name type 0, name length, name bytes.
pub open spec fn sni_ext_data(name: Seq<u8>) -> Seq<u8> {
    seq![
        be_hi(len16(name.len() + 3 as int)),
        be_lo(len16(name.len() + 3 as int)),
        0u8,
        be_hi(len16(name.len() as int)),
        be_lo(len16(name.len() as int)),
    ] + name
}

/// Extension types with a fixed slot in the rewritten ordering.
pub open spec fn ios_ordered_type(t: u16) -> bool {
    t == 0 || t == 23 || t == 65281 || t == 10 || t == 11 || t == 16 || t == 13 || t == 43 || t
        == 51 || t == 45
}

/// The first extension of a type, if any.
pub open spec fn find_ext(es: Seq<ExtView>, t: u16) -> Option<ExtView>
    decreases es.len(),
{
    if es.len() == 0 {
        None
    } else if es[0].extension_type == t {
        Some(es[0])
    } else {
        find_ext(es.drop_first(), t)
    }
}

/// The payload of the first session_ticket extension with a non-empty
/// payload, if any.
pub open spec fn find_session_ticket(es: Seq<ExtView>) -> Option<Seq<u8>>
    decreases es.len(),
{
    if es.len() == 0 {
        None
    } else if es[0].extension_type == 35 && es[0].data.len() > 0 {
        Some(es[0].data)
    } else {
        find_session_ticket(es.drop_first())
    }
}

/// The first extension of a type as a zero- or one-element sequence.
pub open spec fn opt_ext(es: Seq<ExtView>, t: u16) -> Seq<ExtView> {
    match find_ext(es, t) {
        Some(e) => seq![e],
        None => Seq::empty(),
    }
}

/// Extensions without a fixed slot, in their original order.
pub open spec fn unlisted_exts(es: Seq<ExtView>) -> Seq<ExtView> {
    es.filter(|e: ExtView| !ios_ordered_type(e.extension_type))
}

pub proof fn lemma_unlisted_push(s: Seq<ExtView>, e: ExtView)
    ensures
        !ios_ordered_type(e.extension_type) ==> unlisted_exts(s.push(e)) == unlisted_exts(
            s,
        ).push(e),
        ios_ordered_type(e.extension_type) ==> unlisted_exts(s.push(e)) == unlisted_exts(s),
{
    reveal(Seq::filter);
    let pred = |x: ExtView| !ios_ordered_type(x.extension_type);
    assert(s.push(e).drop_last() =~= s);
    assert(s.push(e).last() == e);
    assert(s.push(e).filter(pred) == if pred(e) {
        s.filter(pred).push(e)
    } else {
        s.filter(pred)
    });
}

/// The rewritten extension list: a rebuilt server_name first, then the
/// ordered slots filled from the original, then everything else in original
/// order. A duplicate of a slotted type keeps only its first occurrence.
pub open spec fn reordered_exts(es: Seq<ExtView>, name: Seq<u8>) -> Seq<ExtView> {
    seq![ExtView { extension_type: 0u16, data: sni_ext_data(name) }] + slotted_from(
        es,
        slot_types(),
    ) + unlisted_exts(es)
}

/// Index of the first extension of a type, or the length when absent.
pub open spec fn find_idx(es: Seq<ExtView>, t: u16) -> int
    decreases es.len(),
{
    if es.len() == 0 {
        0
    } else if es[0].extension_type == t {
        0
    } else {
        1 + find_idx(es.drop_first(), t)
    }
}

/// A supplied session ticket lands in the first session_ticket extension,
/// or in a new one at the end when the hello had none.
pub open spec fn with_ticket(es: Seq<ExtView>, ticket: Option<Seq<u8>>) -> Seq<ExtView> {
    match ticket {
        None => es,
        Some(t) => {
            let i = find_idx(es, 35);
            if i == es.len() {
                es.push(ExtView { extension_type: 35u16, data: t })
            } else {
                es.update(i, ExtView { extension_type: 35u16, data: t })
            }
        },
    }
}

/// The rewritten extension list, ticket included.
pub open spec fn norm_exts(es: Seq<ExtView>, name: Seq<u8>, ticket: Option<Seq<u8>>) -> Seq<
    ExtView,
> {
    with_ticket(reordered_exts(es, name), ticket)
}

/// The rewritten hello: version pinned, random and session id preserved
/// byte for byte, cipher suites and extensions reordered.
pub open spec fn norm(h: HelloView, name: Seq<u8>, ticket: Option<Seq<u8>>) -> HelloView {
    HelloView {
        version: seq![0x03u8, 0x03u8],
        random: h.random,
        session_id: h.session_id,
        cipher_suites: norm_cs(h.cipher_suites),
        compression_methods: h.compression_methods,
        extensions: norm_exts(h.extensions, name, ticket),
    }
}

/// The model of an optional ticket argument.
pub open spec fn ticket_view(t: Option<&[u8]>) -> Option<Seq<u8>> {
    match t {
        Some(b) => Some(b@),
        None => None,
    }
}

// ---------------------------------------------------------------------------
// Serialization lemmas.
// ---------------------------------------------------------------------------

pub proof fn lemma_suites_bytes_push(cs: Seq<u16>, x: u16)
    ensures
        suites_bytes(cs.push(x)) == suites_bytes(cs) + seq![be_hi(x), be_lo(x)],
    decreases cs.len(),
{
    assert(cs.push(x).len() == cs.len() + 1);
    if cs.len() == 0 {
        assert(cs.push(x)[0] == x);
        assert(cs.push(x).drop_first() =~= Seq::<u16>::empty());
        assert(suites_bytes(cs.push(x)) =~= seq![be_hi(x), be_lo(x)] + suites_bytes(
            Seq::<u16>::empty(),
        ));
        assert(suites_bytes(cs.push(x)) =~= suites_bytes(cs) + seq![be_hi(x), be_lo(x)]);
    } else {
        assert(cs.push(x)[0] == cs[0]);
        assert(cs.push(x).drop_first() =~= cs.drop_first().push(x));
        lemma_suites_bytes_push(cs.drop_first(), x);
        assert(suites_bytes(cs.push(x)) =~= seq![be_hi(cs[0]), be_lo(cs[0])] + suites_bytes(
            cs.drop_first().push(x),
        ));
        assert(suites_bytes(cs.push(x)) =~= suites_bytes(cs) + seq![be_hi(x), be_lo(x)]);
    }
}

pub proof fn lemma_suites_bytes_len(cs: Seq<u16>)
    ensures
        suites_bytes(cs).len() == 2 * cs.len(),
    decreases cs.len(),
{
    if cs.len() > 0 {
        lemma_suites_bytes_len(cs.drop_first());
    }
}

pub proof fn lemma_exts_bytes_push(es: Seq<ExtView>, e: ExtView)
    ensures
        exts_bytes(es.push(e)) == exts_bytes(es) + ext_bytes(e),
    decreases es.len(),
{
    assert(es.push(e).len() == es.len() + 1);
    if es.len() == 0 {
        assert(es.push(e)[0] == e);
        assert(es.push(e).drop_first() =~= Seq::<ExtView>::empty());
        assert(exts_bytes(es.push(e)) =~= ext_bytes(e) + exts_bytes(Seq::<ExtView>::empty()));
        assert(exts_bytes(es.push(e)) =~= exts_bytes(es) + ext_bytes(e));
    } else {
        assert(es.push(e)[0] == es[0]);
        assert(es.push(e).drop_first() =~= es.drop_first().push(e));
        lemma_exts_bytes_push(es.drop_first(), e);
        assert(exts_bytes(es.push(e)) =~= ext_bytes(es[0]) + exts_bytes(es.drop_first().push(e)));
        assert(exts_bytes(es.push(e)) =~= exts_bytes(es) + ext_bytes(e));
    }
}

// ---------------------------------------------------------------------------
// Fixed fingerprint tables.
// ---------------------------------------------------------------------------

/// The cipher-suite order of the emulated client stack.
pub fn get_ios_safari_cipher_suites() -> (r: Vec<u16>)
    ensures
        r@ == seq![
            0x1301u16, 0x1302u16, 0x1303u16, 0xc02cu16, 0xc02bu16, 0xcca9u16, 0xcca8u16,
            0xc030u16, 0xc02fu16, 0xc024u16, 0xc023u16, 0xc028u16, 0xc027u16, 0xc00au16,
            0xc009u16, 0xc014u16, 0xc013u16,
        ],
{
    let r: Vec<u16> = vec![
        0x1301, 0x1302, 0x1303, 0xc02c, 0xc02b, 0xcca9, 0xcca8, 0xc030, 0xc02f, 0xc024, 0xc023,
        0xc028, 0xc027, 0xc00a, 0xc009, 0xc014, 0xc013,
    ];
    assert(r@ =~= seq![
        0x1301u16, 0x1302u16, 0x1303u16, 0xc02cu16, 0xc02bu16, 0xcca9u16, 0xcca8u16, 0xc030u16,
        0xc02fu16, 0xc024u16, 0xc023u16, 0xc028u16, 0xc027u16, 0xc00au16, 0xc009u16, 0xc014u16,
        0xc013u16,
    ]);
    r
}

/// The GREASE code points of the TLS registry.
pub fn get_grease_values() -> (r: Vec<u16>)
    ensures
        r@ == seq![
            0x0a0au16, 0x1a1au16, 0x2a2au16, 0x3a3au16, 0x4a4au16, 0x5a5au16, 0x6a6au16,
            0x7a7au16, 0x8a8au16, 0x9a9au16, 0xaaaau16, 0xbabau16, 0xcacau16, 0xdadau16,
            0xeaeau16, 0xfafau16,
        ],
{
    let r: Vec<u16> = vec![
        0x0a0a, 0x1a1a, 0x2a2a, 0x3a3a, 0x4a4a, 0x5a5a, 0x6a6a, 0x7a7a, 0x8a8a, 0x9a9a, 0xaaaa,
        0xbaba, 0xcaca, 0xdada, 0xeaea, 0xfafa,
    ];
    assert(r@ =~= seq![
        0x0a0au16, 0x1a1au16, 0x2a2au16, 0x3a3au16, 0x4a4au16, 0x5a5au16, 0x6a6au16, 0x7a7au16,
        0x8a8au16, 0x9a9au16, 0xaaaau16, 0xbabau16, 0xcacau16, 0xdadau16, 0xeaeau16, 0xfafau16,
    ]);
    r
}

// ---------------------------------------------------------------------------
// Small executable helpers.
// ---------------------------------------------------------------------------

/// Whether a 16-bit list holds a value.
fn contains_u16(v: &Vec<u16>, x: u16) -> (r: bool)
    ensures
        r == v@.contains(x),
{
    let mut i: usize = 0;
    while i < v.len()
        invariant
            i <= v@.len(),
            forall|j: int| 0 <= j < i ==> v@[j] != x,
        decreases v@.len() - i,
    {
        if v[i] == x {
            return true;
        }
        i = i + 1;
    }
    false
}

/// Appends a byte region to a buffer.
fn append_bytes(out: &mut Vec<u8>, src: &[u8])
    ensures
        final(out)@ == old(out)@ + src@,
{
    let mut i: usize = 0;
    while i < src.len()
        invariant
            i <= src@.len(),
            out@ =~= old(out)@ + src@.take(i as int),
        decreases src@.len() - i,
    {
        out.push(src[i]);
        proof {
            assert(old(out)@ + src@.take(i as int + 1) =~= (old(out)@ + src@.take(i as int)).push(
                src@[i as int],
            ));
        }
        i = i + 1;
    }
    proof {
        assert(src@.take(src@.len() as int) =~= src@);
    }
}

pub proof fn lemma_find_idx_bounds(es: Seq<ExtView>, t: u16)
    ensures
        0 <= find_idx(es, t) <= es.len(),
        find_idx(es, t) < es.len() ==> es[find_idx(es, t)].extension_type == t,
        forall|j: int| 0 <= j < find_idx(es, t) ==> es[j].extension_type != t,
    decreases es.len(),
{
    if es.len() > 0 && es[0].extension_type != t {
        lemma_find_idx_bounds(es.drop_first(), t);
        assert(forall|j: int|
            1 <= j < find_idx(es, t) ==> es[j] == es.drop_first()[j - 1]
                && es[j].extension_type != t);
    }
}

pub proof fn lemma_find_idx_of_prefix(es: Seq<ExtView>, t: u16, i: int)
    requires
        0 <= i <= es.len(),
        forall|j: int| 0 <= j < i ==> (#[trigger] es[j]).extension_type != t,
    ensures
        i < es.len() && es[i].extension_type == t ==> find_idx(es, t) == i,
        i == es.len() ==> find_idx(es, t) == es.len(),
    decreases es.len(),
{
    if es.len() > 0 {
        if i > 0 {
            assert(forall|j: int|
                0 <= j < i - 1 ==> es.drop_first()[j] == es[j + 1]
                    && (#[trigger] es.drop_first()[j]).extension_type != t);
            lemma_find_idx_of_prefix(es.drop_first(), t, i - 1);
        }
    }
}

impl TlsClientHello {
    /// Payload of the first extension of the given type, if any.
    pub fn find_extension_data(&self, ext_type: u16) -> (r: Option<Vec<u8>>)
        ensures
            match r {
                Some(d) => find_ext(self@.extensions, ext_type) matches Some(e) && e.data == d@,
                None => find_ext(self@.extensions, ext_type) is None,
            },
    {
        let ghost full = exts_view(self.extensions@);
        let mut i: usize = 0;
        proof {
            assert(full.skip(0) =~= full);
        }
        while i < self.extensions.len()
            invariant
                i <= self.extensions@.len(),
                full == exts_view(self.extensions@),
                find_ext(full, ext_type) == find_ext(full.skip(i as int), ext_type),
            decreases self.extensions@.len() - i,
        {
            proof {
                assert(full.skip(i as int)[0] == full[i as int]);
                assert(full.skip(i as int).drop_first() =~= full.skip(i as int + 1));
            }
            if self.extensions[i].extension_type == ext_type {
                let d = vstd::slice::slice_to_vec(self.extensions[i].data.as_slice());
                return Some(d);
            }
            i = i + 1;
        }
        proof {
            assert(full.skip(i as int).len() == 0);
        }
        None
    }

    /// The payload of the first non-empty session_ticket extension, if
    /// any: exactly what [`find_session_ticket`] names.
    pub fn extract_session_ticket(&self) -> (r: Option<Vec<u8>>)
        ensures
            match r {
                Some(d) => find_session_ticket(self@.extensions) == Some(d@),
                None => find_session_ticket(self@.extensions) is None,
            },
    {
        let ghost full = exts_view(self.extensions@);
        let mut i: usize = 0;
        proof {
            assert(full.skip(0) =~= full);
        }
        while i < self.extensions.len()
            invariant
                i <= self.extensions@.len(),
                full == exts_view(self.extensions@),
                find_session_ticket(full) == find_session_ticket(full.skip(i as int)),
            decreases self.extensions@.len() - i,
        {
            proof {
                assert(full.skip(i as int)[0] == full[i as int]);
                assert(full.skip(i as int).drop_first() =~= full.skip(i as int + 1));
            }
            if self.extensions[i].extension_type == 35 && self.extensions[i].data.len() > 0 {
                let d = vstd::slice::slice_to_vec(self.extensions[i].data.as_slice());
                return Some(d);
            }
            i = i + 1;
        }
        proof {
            assert(full.skip(i as int).len() == 0);
        }
        None
    }

    /// Writes an extension list in its wire form.
    pub fn serialize_extensions(extensions: &[TlsExtension]) -> (r: Vec<u8>)
        ensures
            r@ == exts_bytes(exts_view(extensions@)),
    {
        let ghost full = exts_view(extensions@);
        let mut out: Vec<u8> = Vec::new();
        let mut i: usize = 0;
        proof {
            assert(full.take(0) =~= Seq::<ExtView>::empty());
        }
        while i < extensions.len()
            invariant
                i <= extensions@.len(),
                full == exts_view(extensions@),
                out@ == exts_bytes(full.take(i as int)),
            decreases extensions@.len() - i,
        {
            let e = &extensions[i];
            let ghost before = out@;
            let (thi, tlo) = crate::util::split_u16_be(e.extension_type);
            out.push(thi);
            out.push(tlo);
            let dl16 = (e.data.len() % 0x10000) as u16;
            let (dhi, dlo) = crate::util::split_u16_be(dl16);
            out.push(dhi);
            out.push(dlo);
            append_bytes(&mut out, e.data.as_slice());
            proof {
                assert(out@ =~= before + ext_bytes(full[i as int]));
                lemma_exts_bytes_push(full.take(i as int), full[i as int]);
                assert(full.take(i as int + 1) =~= full.take(i as int).push(full[i as int]));
            }
            i = i + 1;
        }
        proof {
            assert(full.take(full.len() as int) =~= full);
        }
        out
    }

    /// The rewritten cipher-suite list of this hello.
    fn rewritten_ciphers(&self) -> (cs: Vec<u16>)
        ensures
            cs@ == norm_cs(self@.cipher_suites),
    {
        let mut base: Vec<u16> = Vec::new();
        base.push(0x1301);
        base.push(0x1302);
        base.push(0x1303);
        append_u16s(&mut base, self.cipher_suites.as_slice());
        assert(base@ =~= tls13_trio() + self@.cipher_suites);
        let mut cs: Vec<u16> = Vec::new();
        let mut i: usize = 0;
        proof {
            assert(base@.take(0) =~= Seq::<u16>::empty());
        }
        while i < base.len()
            invariant
                i <= base@.len(),
                cs@ == dedup_first(base@.take(i as int)),
            decreases base@.len() - i,
        {
            let x = base[i];
            proof {
                assert(base@.take(i as int + 1).drop_last() =~= base@.take(i as int));
                assert(base@.take(i as int + 1).last() == base@[i as int]);
            }
            if !contains_u16(&cs, x) {
                cs.push(x);
            }
            i = i + 1;
        }
        proof {
            assert(base@.take(base@.len() as int) =~= base@);
        }
        cs
    }

    /// The reordered extension list around a rebuilt server_name payload.
    #[verifier::rlimit(100)]
    #[verifier::spinoff_prover]
    fn reordered_extensions(&self, name: &[u8]) -> (r: Vec<TlsExtension>)
        requires
            name@.len() <= 0xfffa,
        ensures
            exts_view(r@) == reordered_exts(self@.extensions, name@),
    {
        let mut sni_data: Vec<u8> = Vec::new();
        let (lh, ll) = crate::util::split_u16_be((name.len() + 3) as u16);
        sni_data.push(lh);
        sni_data.push(ll);
        sni_data.push(0u8);
        let (nh, nl) = crate::util::split_u16_be(name.len() as u16);
        sni_data.push(nh);
        sni_data.push(nl);
        append_bytes(&mut sni_data, name);
        assert(sni_data@ =~= sni_ext_data(name@));

        let mut exts: Vec<TlsExtension> = Vec::new();
        exts.push(TlsExtension { extension_type: 0, data: sni_data });
        let ghost sni_part = exts_view(exts@);
        let types: Vec<u16> = vec![23, 65281, 10, 11, 16, 13, 43, 51, 45];
        assert(types@ =~= slot_types());
        let ghost evs = self@.extensions;
        let mut i: usize = 0;
        proof {
            assert(types@.skip(0) =~= types@);
        }
        while i < types.len()
            invariant
                i <= types@.len(),
                evs == self@.extensions,
                sni_part + slotted_from(evs, types@) =~= exts_view(exts@) + slotted_from(
                    evs,
                    types@.skip(i as int),
                ),
            decreases types@.len() - i,
        {
            let t = types[i];
            proof {
                assert(types@.skip(i as int)[0] == types@[i as int]);
                assert(types@.skip(i as int).drop_first() =~= types@.skip(i as int + 1));
            }
            let ghost before = exts_view(exts@);
            self.push_slot(&mut exts, t);
            proof {
                assert(exts_view(exts@) =~= before + opt_ext(evs, t));
                assert(slotted_from(evs, types@.skip(i as int)) =~= opt_ext(evs, t)
                    + slotted_from(evs, types@.skip(i as int + 1)));
                assert(exts_view(exts@) + slotted_from(evs, types@.skip(i as int + 1)) =~= (before
                    + opt_ext(evs, t)) + slotted_from(evs, types@.skip(i as int + 1)));
                assert((before + opt_ext(evs, t)) + slotted_from(evs, types@.skip(i as int + 1))
                    =~= before + (opt_ext(evs, t) + slotted_from(evs, types@.skip(i as int + 1))));
            }
            i = i + 1;
        }
        proof {
            assert(types@.skip(types@.len() as int).len() == 0);
            assert(slotted_from(evs, types@.skip(types@.len() as int)) =~= Seq::<ExtView>::empty());
            assert(exts_view(exts@) =~= sni_part + slotted_from(evs, slot_types()));
        }

        self.push_unlisted(&mut exts);
        proof {
            assert(sni_part =~= seq![
                ExtView { extension_type: 0u16, data: sni_ext_data(name@) },
            ]);
            assert(exts_view(exts@) =~= reordered_exts(self@.extensions, name@));
        }
        exts
    }

    /// Pushes every extension without a fixed slot, in original order.
    fn push_unlisted(&self, exts: &mut Vec<TlsExtension>)
        ensures
            exts_view(final(exts)@) == exts_view(old(exts)@) + unlisted_exts(self@.extensions),
    {
        let ghost start = exts_view(exts@);
        let mut i: usize = 0;
        proof {
            assert(self@.extensions.take(0) =~= Seq::<ExtView>::empty());
            assert(unlisted_exts(self@.extensions.take(0)) =~= Seq::<ExtView>::empty());
            assert(exts_view(exts@) =~= start + unlisted_exts(self@.extensions.take(0)));
        }
        while i < self.extensions.len()
            invariant
                i <= self.extensions@.len(),
                exts_view(exts@) == start + unlisted_exts(self@.extensions.take(i as int)),
            decreases self.extensions@.len() - i,
        {
            let ghost evs = self@.extensions;
            proof {
                assert(evs.take(i as int + 1) =~= evs.take(i as int).push(evs[i as int]));
                lemma_unlisted_push(evs.take(i as int), evs[i as int]);
            }
            let t = self.extensions[i].extension_type;
            assert(t == evs[i as int].extension_type);
            if !(t == 0 || t == 23 || t == 65281 || t == 10 || t == 11 || t == 16 || t == 13 || t
                == 43 || t == 51 || t == 45) {
                let ghost before = exts_view(exts@);
                exts.push(
                    TlsExtension {
                        extension_type: t,
                        data: vstd::slice::slice_to_vec(self.extensions[i].data.as_slice()),
                    },
                );
                proof {
                    assert(exts_view(exts@) =~= before.push(evs[i as int]));
                    assert(exts_view(exts@) =~= start + unlisted_exts(evs.take(i as int + 1)));
                }
            } else {
                proof {
                    assert(exts_view(exts@) =~= start + unlisted_exts(evs.take(i as int + 1)));
                }
            }
            i = i + 1;
        }
        proof {
            assert(self@.extensions.take(self@.extensions.len() as int) =~= self@.extensions);
        }
    }

    /// Puts a session ticket into the first session_ticket extension, or
    /// appends one.
    fn place_ticket(exts: &mut Vec<TlsExtension>, tk: &[u8])
        ensures
            exts_view(final(exts)@) == with_ticket(exts_view(old(exts)@), Some(tk@)),
    {
        let ghost base = exts_view(exts@);
        let mut j: usize = 0;
        let mut found = false;
        while j < exts.len() && !found
            invariant
                j <= exts@.len(),
                exts_view(exts@) == base,
                !found ==> forall|k: int|
                    0 <= k < j ==> (#[trigger] base[k]).extension_type != 35,
                found ==> j < exts@.len() && base[j as int].extension_type == 35 && forall|k: int|
                    0 <= k < j ==> (#[trigger] base[k]).extension_type != 35,
            decreases exts@.len() - j + (if found {
                0int
            } else {
                1int
            }),
        {
            if exts[j].extension_type == 35 {
                found = true;
            } else {
                j = j + 1;
            }
        }
        proof {
            lemma_find_idx_of_prefix(base, 35, j as int);
        }
        if found {
            let _old = exts.remove(j);
            exts.insert(j, TlsExtension { extension_type: 35, data: vstd::slice::slice_to_vec(tk) });
            proof {
                assert(exts_view(exts@) =~= base.update(
                    j as int,
                    ExtView { extension_type: 35u16, data: tk@ },
                ));
            }
        } else {
            exts.push(TlsExtension { extension_type: 35, data: vstd::slice::slice_to_vec(tk) });
            proof {
                assert(exts_view(exts@) =~= base.push(
                    ExtView { extension_type: 35u16, data: tk@ },
                ));
            }
        }
    }

    /// Rewrites the hello for the emulated fingerprint around a target
    /// hostname, carrying the given session ticket if one is supplied.
    /// Succeeds exactly when the rewritten hello fits its length fields, and
    /// then returns its exact wire form.
    pub fn to_ios_safari_with_ticket(&self, ticket: Option<&[u8]>, domain: &str) -> (r: Result<
        Vec<u8>,
        TlsError,
    >)
        ensures
            ({
                let n = norm(self@, domain.spec_bytes(), ticket_view(ticket));
                match r {
                    Ok(b) => fits(n) && b@ == hello_bytes(n),
                    Err(e) => e == TlsError::SynthesizeOverflow && !fits(n),
                }
            }),
    {
        let ghost nview = norm(self@, domain.spec_bytes(), ticket_view(ticket));
        proof {
            assert(nview.cipher_suites == norm_cs(self@.cipher_suites));
            assert(nview.session_id == self@.session_id);
            assert(nview.compression_methods == self@.compression_methods);
            assert(nview.random == self@.random);
            assert(nview.version == seq![0x03u8, 0x03u8]);
            assert(nview.extensions == norm_exts(
                self@.extensions,
                domain.spec_bytes(),
                ticket_view(ticket),
            ));
        }
        let name: &[u8] = domain.as_bytes();

        if name.len() > 0xfffa {
            proof {
                lemma_norm_keeps_sni(self@.extensions, domain.spec_bytes(), ticket_view(ticket));
            }
            return Err(TlsError::SynthesizeOverflow);
        }
        let cs = self.rewritten_ciphers();
        let mut exts = self.reordered_extensions(name);
        match ticket {
            None => {},
            Some(tk) => {
                Self::place_ticket(&mut exts, tk);
            },
        }
        proof {
            assert(exts_view(exts@) == nview.extensions);
        }

        // Overflow checks, exactly the negation of `fits`.
        if self.session_id.len() > 255 {
            return Err(TlsError::SynthesizeOverflow);
        }
        if self.compression_methods.len() > 255 {
            return Err(TlsError::SynthesizeOverflow);
        }
        if cs.len() > 0x7fff {
            return Err(TlsError::SynthesizeOverflow);
        }
        let mut k: usize = 0;
        while k < exts.len()
            invariant
                k <= exts@.len(),
                nview == norm(self@, domain.spec_bytes(), ticket_view(ticket)),
                exts_view(exts@) == nview.extensions,
                forall|j: int|
                    0 <= j < k ==> (#[trigger] exts_view(exts@)[j]).data.len() <= 0xffff,
            decreases exts@.len() - k,
        {
            if exts[k].data.len() > 0xffff {
                proof {
                    assert(exts_view(exts@)[k as int].data == exts@[k as int].data@);
                    assert(nview.extensions[k as int].data.len() > 0xffff);
                    assert(!fits(nview));
                }
                return Err(TlsError::SynthesizeOverflow);
            }
            k = k + 1;
        }
        let ext_block = Self::serialize_extensions(exts.as_slice());
        if ext_block.len() > 0xffff {
            return Err(TlsError::SynthesizeOverflow);
        }
        proof {
            lemma_suites_bytes_len(nview.cipher_suites);
        }
        if self.random.len() > 0xffff {
            proof {
                assert(body_bytes(nview).len() >= nview.random.len());
            }
            return Err(TlsError::SynthesizeOverflow);
        }
        let body_len: usize = 2 + self.random.len() + 1 + self.session_id.len() + 2 + 2 * cs.len()
            + 1 + self.compression_methods.len() + 2 + ext_block.len();
        proof {
            assert(body_bytes(nview).len() == body_len);
        }
        if body_len + 4 > 0xffff {
            return Err(TlsError::SynthesizeOverflow);
        }
        let out = Self::write_hello(
            &cs,
            &self.random,
            &self.session_id,
            &self.compression_methods,
            &ext_block,
            Ghost(nview),
        );
        Ok(out)
    }

    /// Writes the record around already-rewritten fields.
    fn write_hello(
        cs: &Vec<u16>,
        random: &Vec<u8>,
        session_id: &Vec<u8>,
        compression_methods: &Vec<u8>,
        ext_block: &Vec<u8>,
        nview: Ghost<HelloView>,
    ) -> (out: Vec<u8>)
        requires
            cs@ == nview@.cipher_suites,
            random@ == nview@.random,
            session_id@ == nview@.session_id,
            compression_methods@ == nview@.compression_methods,
            ext_block@ == exts_bytes(nview@.extensions),
            nview@.version == seq![0x03u8, 0x03u8],
            session_id@.len() <= 255,
            compression_methods@.len() <= 255,
            2 * cs@.len() <= 0xffff,
            ext_block@.len() <= 0xffff,
            body_bytes(nview@).len() + 4 <= 0xffff,
        ensures
            out@ == hello_bytes(nview@),
    {
        let body = Self::write_body(
            cs,
            random,
            session_id,
            compression_methods,
            ext_block,
            nview,
        );
        Self::write_record(body, nview)
    }

    /// Wraps a finished body in the record and handshake headers.
    #[verifier::rlimit(100)]
    #[verifier::spinoff_prover]
    fn write_record(body: Vec<u8>, nview: Ghost<HelloView>) -> (out: Vec<u8>)
        requires
            body@ == body_bytes(nview@),
            body@.len() + 4 <= 0xffff,
        ensures
            out@ == hello_bytes(nview@),
    {
        let mut out: Vec<u8> = Vec::new();
        out.push(0x16);
        out.push(0x03);
        out.push(0x03);
        let (rh, rl) = crate::util::split_u16_be((body.len() + 4) as u16);
        out.push(rh);
        out.push(rl);
        out.push(0x01);
        out.push(0x00);
        let (bh, bl) = crate::util::split_u16_be(body.len() as u16);
        out.push(bh);
        out.push(bl);
        append_bytes(&mut out, body.as_slice());
        proof {
            assert(out@ =~= hello_bytes(nview@));
        }
        out
    }

    /// Writes the ClientHello body around already-rewritten fields.
    #[verifier::rlimit(100)]
    #[verifier::spinoff_prover]
    fn write_body(
        cs: &Vec<u16>,
        random: &Vec<u8>,
        session_id: &Vec<u8>,
        compression_methods: &Vec<u8>,
        ext_block: &Vec<u8>,
        nview: Ghost<HelloView>,
    ) -> (body: Vec<u8>)
        requires
            cs@ == nview@.cipher_suites,
            random@ == nview@.random,
            session_id@ == nview@.session_id,
            compression_methods@ == nview@.compression_methods,
            ext_block@ == exts_bytes(nview@.extensions),
            nview@.version == seq![0x03u8, 0x03u8],
            session_id@.len() <= 255,
            compression_methods@.len() <= 255,
            2 * cs@.len() <= 0xffff,
            ext_block@.len() <= 0xffff,
        ensures
            body@ == body_bytes(nview@),
    {
        let mut body: Vec<u8> = Vec::new();
        body.push(0x03);
        body.push(0x03);
        append_bytes(&mut body, random.as_slice());
        body.push(session_id.len() as u8);
        append_bytes(&mut body, session_id.as_slice());
        let (csh, csl) = crate::util::split_u16_be((2 * cs.len()) as u16);
        body.push(csh);
        body.push(csl);
        write_suites(&mut body, cs);
        body.push(compression_methods.len() as u8);
        append_bytes(&mut body, compression_methods.as_slice());
        let (eh, el) = crate::util::split_u16_be(ext_block.len() as u16);
        body.push(eh);
        body.push(el);
        append_bytes(&mut body, ext_block.as_slice());
        proof {
            assert(body@ =~= body_bytes(nview@));
        }
        body
    }

    /// Pushes the first extension of the given slotted type, if the hello
    /// has one.
    fn push_slot(&self, exts: &mut Vec<TlsExtension>, t: u16)
        ensures
            exts_view(final(exts)@) == exts_view(old(exts)@) + opt_ext(self@.extensions, t),
    {
        match self.find_extension_data(t) {
            Some(d) => {
                let ghost before = exts_view(exts@);
                exts.push(TlsExtension { extension_type: t, data: d });
                proof {
                    let e = find_ext(self@.extensions, t)->Some_0;
                    assert(exts_view(exts@) =~= before.push(
                        ExtView { extension_type: t, data: e.data },
                    ));
                    assert(find_ext(self@.extensions, t) matches Some(fe) && fe.extension_type
                        == t) by {
                        lemma_find_ext_type(self@.extensions, t);
                    }
                    assert(exts_view(exts@) =~= before + opt_ext(self@.extensions, t));
                }
            },
            None => {
                proof {
                    assert(exts_view(exts@) =~= exts_view(exts@) + opt_ext(self@.extensions, t));
                }
            },
        }
    }
}

/// The extension types with a fixed slot after server_name, in order.
pub open spec fn slot_types() -> Seq<u16> {
    seq![23u16, 65281u16, 10u16, 11u16, 16u16, 13u16, 43u16, 51u16, 45u16]
}

/// The slotted extensions drawn from a hello, one optional entry per type.
pub open spec fn slotted_from(es: Seq<ExtView>, ts: Seq<u16>) -> Seq<ExtView>
    decreases ts.len(),
{
    if ts.len() == 0 {
        Seq::empty()
    } else {
        opt_ext(es, ts[0]) + slotted_from(es, ts.drop_first())
    }
}

/// The rewritten extension list keeps the rebuilt server_name at its head,
/// whatever ticket is placed.
pub proof fn lemma_norm_keeps_sni(es: Seq<ExtView>, name: Seq<u8>, ticket: Option<Seq<u8>>)
    ensures
        norm_exts(es, name, ticket).len() >= 1,
        norm_exts(es, name, ticket)[0] == (ExtView {
            extension_type: 0u16,
            data: sni_ext_data(name),
        }),
{
    let re = reordered_exts(es, name);
    let sni = ExtView { extension_type: 0u16, data: sni_ext_data(name) };
    assert(re[0] == sni);
    match ticket {
        None => {},
        Some(t) => {
            let i = find_idx(re, 35);
            lemma_find_idx_bounds(re, 35);
            if i < re.len() {
                assert(re[i].extension_type == 35);
                assert(i != 0);
                assert(with_ticket(re, ticket)[0] == sni);
            } else {
                assert(with_ticket(re, ticket)[0] == sni);
            }
        },
    }
}

pub proof fn lemma_find_ext_type(es: Seq<ExtView>, t: u16)
    ensures
        find_ext(es, t) matches Some(e) ==> e.extension_type == t,
    decreases es.len(),
{
    if es.len() > 0 && es[0].extension_type != t {
        lemma_find_ext_type(es.drop_first(), t);
    }
}

/// Writes a cipher-suite list as big-endian byte pairs.
fn write_suites(body: &mut Vec<u8>, cs: &Vec<u16>)
    ensures
        final(body)@ == old(body)@ + suites_bytes(cs@),
{
    let ghost pre = body@;
    let mut k: usize = 0;
    proof {
        assert(cs@.take(0) =~= Seq::<u16>::empty());
        assert(body@ =~= pre + suites_bytes(cs@.take(0)));
    }
    while k < cs.len()
        invariant
            k <= cs@.len(),
            body@ == pre + suites_bytes(cs@.take(k as int)),
        decreases cs@.len() - k,
    {
        let (sh, sl) = crate::util::split_u16_be(cs[k]);
        let ghost before = body@;
        body.push(sh);
        body.push(sl);
        proof {
            lemma_suites_bytes_push(cs@.take(k as int), cs@[k as int]);
            assert(cs@.take(k as int + 1) =~= cs@.take(k as int).push(cs@[k as int]));
            assert(body@ =~= before + seq![be_hi(cs@[k as int]), be_lo(cs@[k as int])]);
        }
        k = k + 1;
    }
    proof {
        assert(cs@.take(cs@.len() as int) =~= cs@);
    }
}

/// Appends a 16-bit region to a buffer.
fn append_u16s(out: &mut Vec<u16>, src: &[u16])
    ensures
        final(out)@ == old(out)@ + src@,
{
    let mut i: usize = 0;
    while i < src.len()
        invariant
            i <= src@.len(),
            out@ =~= old(out)@ + src@.take(i as int),
        decreases src@.len() - i,
    {
        out.push(src[i]);
        proof {
            assert(old(out)@ + src@.take(i as int + 1) =~= (old(out)@ + src@.take(i as int)).push(
                src@[i as int],
            ));
        }
        i = i + 1;
    }
    proof {
        assert(src@.take(src@.len() as int) =~= src@);
    }
}

// ---------------------------------------------------------------------------
// Session-ticket cache.
// ---------------------------------------------------------------------------

/// A session ticket observed for a domain, stamped with the second it was
/// stored.
#[verifier::ext_equal]
pub struct SessionTicket {
    pub ticket: Vec<u8>,
    pub timestamp: u64,
    pub domain: String,
}

/// Seconds a stored ticket stays usable.
pub const SESSION_TICKET_LIFETIME: u64 = 7200;

impl SessionTicket {
    /// Whether the ticket is older than its lifetime at the given second.
    /// A clock that reads earlier than the store time leaves it fresh.
    pub open spec fn expired_at(&self, now: u64) -> bool {
        now > self.timestamp + SESSION_TICKET_LIFETIME
    }

    /// A ticket stamped with the current second.
    pub fn new(ticket: Vec<u8>, domain: String) -> (s: Self)
        ensures
            s.ticket == ticket,
            s.domain == domain,
    {
        let timestamp = now_secs();
        SessionTicket { ticket, timestamp, domain }
    }

    /// Whether the ticket is older than its lifetime at the given second.
    pub fn is_expired_at(&self, now: u64) -> (r: bool)
        ensures
            r == self.expired_at(now),
    {
        self.timestamp < now && now - self.timestamp > SESSION_TICKET_LIFETIME
    }

    /// Whether the ticket is expired against the current clock.
    pub fn is_expired(&self) -> (r: bool)
        ensures
            exists|now: u64| r == self.expired_at(now),
    {
        let now = now_secs();
        self.is_expired_at(now)
    }
}

/// Domain-keyed cache of session tickets; the newest store for a domain
/// wins, expired entries are dropped lazily.
pub struct SessionTicketCache {
    tickets: Vec<SessionTicket>,
}

/// The first cached entry for a domain.
pub open spec fn entries_get(s: Seq<SessionTicket>, domain: Seq<char>) -> Option<SessionTicket>
    decreases s.len(),
{
    if s.len() == 0 {
        None
    } else if s[0].domain@ == domain {
        Some(s[0])
    } else {
        entries_get(s.drop_first(), domain)
    }
}

impl SessionTicketCache {
    /// The cached entries, newest first.
    pub closed spec fn spec_entries(&self) -> Seq<SessionTicket> {
        self.tickets@
    }

    /// The cached entry for a domain.
    pub open spec fn spec_get(&self, domain: Seq<char>) -> Option<SessionTicket> {
        entries_get(self.spec_entries(), domain)
    }

    /// An empty cache.
    pub fn new() -> (c: Self)
        ensures
            c.spec_entries().len() == 0,
    {
        SessionTicketCache { tickets: Vec::new() }
    }

    /// Stores a ticket for a domain, replacing any earlier entry.
    pub fn store(&mut self, domain: String, ticket: Vec<u8>)
        ensures
            exists|st: SessionTicket| #[trigger] final(self).spec_entries().index(0) == st
                && st.ticket == ticket && st.domain == domain && final(self).spec_entries()
                == seq![st] + old(self).spec_entries().filter(
                |t: SessionTicket| t.domain@ != domain@,
            ),
    {
        let ghost full = self.tickets@;
        let ghost pred = |t: SessionTicket| t.domain@ != domain@;
        let mut kept: Vec<SessionTicket> = Vec::new();
        proof {
            reveal(Seq::filter);
            assert(full.take(0) =~= Seq::<SessionTicket>::empty());
            assert(full.skip(0) =~= full);
            assert(kept@ =~= full.take(0).filter(pred));
        }
        while self.tickets.len() > 0
            invariant
                self.tickets@.len() <= full.len(),
                self.tickets@ == full.skip(full.len() - self.tickets@.len()),
                kept@ == full.take(full.len() - self.tickets@.len()).filter(pred),
                pred == (|t: SessionTicket| t.domain@ != domain@),
            decreases self.tickets@.len(),
        {
            let ghost pre = self.tickets@;
            let ghost done = full.len() - pre.len();
            let e = self.tickets.remove(0);
            proof {
                reveal(Seq::filter);
                assert(pre[0] == full.skip(done)[0]);
                assert(e == full[done]);
                assert(self.tickets@ =~= full.skip(done + 1));
                assert(full.take(done + 1).drop_last() =~= full.take(done));
                assert(full.take(done + 1).last() == full[done]);
            }
            if !(e.domain == domain) {
                kept.push(e);
                proof {
                    assert(kept@ == full.take(done + 1).filter(pred));
                }
            } else {
                proof {
                    assert(kept@ == full.take(done + 1).filter(pred));
                }
            }
        }
        proof {
            assert(full.take(full.len() as int) =~= full);
        }
        let entry = SessionTicket::new(ticket, domain);
        let mut fresh: Vec<SessionTicket> = Vec::new();
        fresh.push(entry);
        append_tickets(&mut fresh, kept);
        let ghost old_entries = self.tickets@;
        self.tickets = fresh;
        proof {
            assert(self.tickets@[0].ticket == ticket);
        }
    }

    /// The stored ticket for a domain, judged against the given second:
    /// returned exactly when an entry exists and is not expired.
    pub fn get_at(&self, domain: &str, now: u64) -> (r: Option<Vec<u8>>)
        ensures
            match self.spec_get(domain@) {
                Some(st) => if st.expired_at(now) {
                    r is None
                } else {
                    r matches Some(t) && t@ == st.ticket@
                },
                None => r is None,
            },
    {
        let ghost entries = self.spec_entries();
        let mut i: usize = 0;
        proof {
            assert(entries.skip(0) =~= entries);
        }
        while i < self.tickets.len()
            invariant
                i <= self.tickets@.len(),
                entries == self.spec_entries(),
                entries_get(entries, domain@) == entries_get(entries.skip(i as int), domain@),
            decreases self.tickets@.len() - i,
        {
            proof {
                assert(entries.skip(i as int)[0] == entries[i as int]);
                assert(entries.skip(i as int).drop_first() =~= entries.skip(i as int + 1));
            }
            if crate::util::str_eq(self.tickets[i].domain.as_str(), domain) {
                proof {
                    assert(entries_get(entries.skip(i as int), domain@) == Some(
                        entries[i as int],
                    ));
                }
                if self.tickets[i].is_expired_at(now) {
                    return None;
                }
                return Some(vstd::slice::slice_to_vec(self.tickets[i].ticket.as_slice()));
            }
            i = i + 1;
        }
        None
    }

    /// The stored ticket for a domain, judged against the current clock.
    pub fn get(&self, domain: &str) -> (r: Option<Vec<u8>>)
        ensures
            r matches Some(t) ==> self.spec_get(domain@) matches Some(st) && t@ == st.ticket@,
            self.spec_get(domain@) is None ==> r is None,
    {
        let now = now_secs();
        self.get_at(domain, now)
    }

    /// Drops every entry that is expired at the given second.
    pub fn cleanup_expired_at(&mut self, now: u64)
        ensures
            final(self).spec_entries() == fresh_entries(old(self).spec_entries(), now),
    {
        let ghost full = self.tickets@;
        let ghost pred = |t: SessionTicket| !t.expired_at(now);
        let mut kept: Vec<SessionTicket> = Vec::new();
        proof {
            reveal(Seq::filter);
            assert(full.take(0) =~= Seq::<SessionTicket>::empty());
            assert(full.skip(0) =~= full);
            assert(kept@ =~= full.take(0).filter(pred));
        }
        while self.tickets.len() > 0
            invariant
                self.tickets@.len() <= full.len(),
                self.tickets@ == full.skip(full.len() - self.tickets@.len()),
                kept@ == full.take(full.len() - self.tickets@.len()).filter(pred),
                pred == (|t: SessionTicket| !t.expired_at(now)),
            decreases self.tickets@.len(),
        {
            let ghost pre = self.tickets@;
            let ghost done = full.len() - pre.len();
            let e = self.tickets.remove(0);
            proof {
                reveal(Seq::filter);
                assert(pre[0] == full.skip(done)[0]);
                assert(e == full[done]);
                assert(self.tickets@ =~= full.skip(done + 1));
                assert(full.take(done + 1).drop_last() =~= full.take(done));
                assert(full.take(done + 1).last() == full[done]);
            }
            if !e.is_expired_at(now) {
                kept.push(e);
                proof {
                    assert(kept@ == full.take(done + 1).filter(pred));
                }
            } else {
                proof {
                    assert(kept@ == full.take(done + 1).filter(pred));
                }
            }
        }
        proof {
            assert(full.take(full.len() as int) =~= full);
        }
        self.tickets = kept;
    }

    /// Drops expired entries against the current clock.
    pub fn cleanup_expired(&mut self)
        ensures
            exists|now: u64| final(self).spec_entries() == #[trigger] fresh_entries(
                old(self).spec_entries(),
                now,
            ),
    {
        let now = now_secs();
        self.cleanup_expired_at(now);
    }

    /// Drops everything.
    pub fn clear(&mut self)
        ensures
            final(self).spec_entries().len() == 0,
    {
        self.tickets = Vec::new();
    }
}

/// The entries not yet expired at the given second.
pub open spec fn fresh_entries(s: Seq<SessionTicket>, now: u64) -> Seq<SessionTicket> {
    s.filter(|t: SessionTicket| !t.expired_at(now))
}

/// Moves every ticket of a list to the end of another.
fn append_tickets(out: &mut Vec<SessionTicket>, src: Vec<SessionTicket>)
    ensures
        final(out)@ == old(out)@ + src@,
{
    let mut src = src;
    let ghost full = src@;
    while src.len() > 0
        invariant
            src@.len() <= full.len(),
            out@ == old(out)@ + full.take(full.len() - src@.len()),
            src@ == full.skip(full.len() - src@.len()),
        decreases src@.len(),
    {
        let ghost pre = src@;
        let ghost done = full.len() - pre.len();
        let e = src.remove(0);
        proof {
            assert(pre[0] == full.skip(done)[0]);
            assert(src@ =~= full.skip(done + 1));
            assert(old(out)@ + full.take(done + 1) =~= (old(out)@ + full.take(done)).push(
                full[done],
            ));
        }
        out.push(e);
        proof {
            assert(out@ == old(out)@ + full.take(full.len() - src@.len()));
        }
    }
    proof {
        assert(full.take(full.len() as int) =~= full);
        assert(out@ =~= old(out)@ + full);
    }
}

/// A ticket choice that the cache argument allows: nothing without a cache,
/// and otherwise either nothing or the entry stored for the domain.
pub open spec fn ticket_choice_ok(
    cache: Option<&SessionTicketCache>,
    domain: Seq<char>,
    t: Option<Seq<u8>>,
) -> bool {
    match cache {
        None => t is None,
        Some(c) => match t {
            None => true,
            Some(tb) => c.spec_get(domain) matches Some(st) && st.ticket@ == tb,
        },
    }
}

impl TlsClientHello {
    /// Rewrites the hello for the emulated fingerprint, drawing a session
    /// ticket for the domain from the cache when one is fresh.
    pub fn to_ios_safari(&self, ticket_cache: Option<&SessionTicketCache>, domain: &str) -> (r:
        Result<Vec<u8>, TlsError>)
        ensures
            exists|t: Option<Seq<u8>>| #[trigger] ticket_choice_ok(ticket_cache, domain@, t)
                && match r {
                Ok(b) => fits(norm(self@, domain.spec_bytes(), t)) && b@ == hello_bytes(
                    norm(self@, domain.spec_bytes(), t),
                ),
                Err(e) => e == TlsError::SynthesizeOverflow && !fits(
                    norm(self@, domain.spec_bytes(), t),
                ),
            },
    {
        let tk: Option<Vec<u8>> = match ticket_cache {
            Some(c) => c.get(domain),
            None => None,
        };
        let r = match &tk {
            Some(v) => self.to_ios_safari_with_ticket(Some(v.as_slice()), domain),
            None => self.to_ios_safari_with_ticket(None, domain),
        };
        proof {
            let t = match tk {
                Some(v) => Some(v@),
                None => None,
            };
            assert(ticket_choice_ok(ticket_cache, domain@, t));
        }
        r
    }
}

// ---------------------------------------------------------------------------
// Round trip: parsing a written hello recovers it exactly.
// ---------------------------------------------------------------------------

pub proof fn lemma_parse_suites_of_bytes(cs: Seq<u16>)
    ensures
        parse_suites(suites_bytes(cs)) == cs,
    decreases cs.len(),
{
    if cs.len() > 0 {
        let b = suites_bytes(cs);
        lemma_suites_bytes_len(cs.drop_first());
        assert(b.len() == 2 + suites_bytes(cs.drop_first()).len());
        assert(b[0] == be_hi(cs[0]));
        assert(b[1] == be_lo(cs[0]));
        crate::util::lemma_be_roundtrip(cs[0]);
        assert(b.skip(2) =~= suites_bytes(cs.drop_first()));
        lemma_parse_suites_of_bytes(cs.drop_first());
        assert(parse_suites(b) =~= seq![cs[0]] + cs.drop_first());
        assert(seq![cs[0]] + cs.drop_first() =~= cs);
    }
}

pub proof fn lemma_parse_exts_of_bytes(es: Seq<ExtView>)
    requires
        forall|i: int| 0 <= i < es.len() ==> (#[trigger] es[i]).data.len() <= 0xffff,
    ensures
        parse_exts(exts_bytes(es)) == es,
    decreases es.len(),
{
    if es.len() > 0 {
        let b = exts_bytes(es);
        let e = es[0];
        let l = e.data.len() as int;
        assert(b.len() == ext_bytes(e).len() + exts_bytes(es.drop_first()).len());
        assert(ext_bytes(e).len() == 4 + l);
        assert(b[0] == be_hi(e.extension_type));
        assert(b[1] == be_lo(e.extension_type));
        assert(b[2] == be_hi(len16(l)));
        assert(b[3] == be_lo(len16(l)));
        crate::util::lemma_be_roundtrip(e.extension_type);
        crate::util::lemma_be_roundtrip(len16(l));
        assert(len16(l) == l);
        assert(b.subrange(4, 4 + l) =~= e.data);
        assert(b.skip(4 + l) =~= exts_bytes(es.drop_first()));
        assert(forall|i: int|
            0 <= i < es.drop_first().len() ==> (#[trigger] es.drop_first()[i]) == es[i + 1]
                && es.drop_first()[i].data.len() <= 0xffff);
        lemma_parse_exts_of_bytes(es.drop_first());
        assert(parse_exts(b) =~= seq![ExtView { extension_type: e.extension_type, data: e.data }]
            + es.drop_first());
        assert(seq![ExtView { extension_type: e.extension_type, data: e.data }] + es.drop_first()
            =~= es);
    }
}

/// Sizes of a written hello.
pub proof fn lemma_rt_sizes(v: HelloView)
    requires
        wf_hello(v),
    ensures
        body_bytes(v).len() == 40 + v.session_id.len() + 2 * v.cipher_suites.len()
            + v.compression_methods.len() + exts_bytes(v.extensions).len(),
        hello_bytes(v).len() == 9 + body_bytes(v).len(),
{
    lemma_suites_bytes_len(v.cipher_suites);
}

/// The header region of a written hello, and its handshake region.
pub proof fn lemma_rt_header(v: HelloView)
    requires
        wf_hello(v),
        fits(v),
    ensures
        hello_bytes(v)[0] == 0x16,
        hello_bytes(v).len() == 5 + u16_of_be(hello_bytes(v)[3], hello_bytes(v)[4]),
        hello_bytes(v).skip(5) == seq![
            0x01u8,
            0x00u8,
            be_hi(len16(body_bytes(v).len() as int)),
            be_lo(len16(body_bytes(v).len() as int)),
        ] + body_bytes(v),
{
    lemma_rt_sizes(v);
    let body = body_bytes(v);
    crate::util::lemma_be_roundtrip(len16(body.len() + 4 as int));
    assert(len16(body.len() + 4 as int) == body.len() + 4);
    assert(hello_bytes(v)[3] == be_hi(len16(body.len() + 4 as int)));
    assert(hello_bytes(v)[4] == be_lo(len16(body.len() + 4 as int)));
    assert(hello_bytes(v).skip(5) =~= seq![
        0x01u8,
        0x00u8,
        be_hi(len16(body.len() as int)),
        be_lo(len16(body.len() as int)),
    ] + body);
}

/// The leading fields of a written body.
pub proof fn lemma_rt_fields_a(v: HelloView)
    requires
        wf_hello(v),
        fits(v),
    ensures
        body_bytes(v).subrange(0, 2) == v.version,
        body_bytes(v).subrange(2, 34) == v.random,
        body_bytes(v)[34] == len8(v.session_id.len() as int),
        body_bytes(v).subrange(35, 35 + v.session_id.len() as int) == v.session_id,
        body_bytes(v)[35 + v.session_id.len() as int] == be_hi(
            len16(2 * v.cipher_suites.len() as int),
        ),
        body_bytes(v)[36 + v.session_id.len() as int] == be_lo(
            len16(2 * v.cipher_suites.len() as int),
        ),
        body_bytes(v).subrange(
            37 + v.session_id.len() as int,
            37 + v.session_id.len() as int + 2 * v.cipher_suites.len() as int,
        ) == suites_bytes(v.cipher_suites),
{
    lemma_rt_sizes(v);
    assert(body_bytes(v).subrange(0, 2) =~= v.version);
    assert(body_bytes(v).subrange(2, 34) =~= v.random);
    assert(body_bytes(v).subrange(35, 35 + v.session_id.len() as int) =~= v.session_id);
    assert(body_bytes(v).subrange(
        37 + v.session_id.len() as int,
        37 + v.session_id.len() as int + 2 * v.cipher_suites.len() as int,
    ) =~= suites_bytes(v.cipher_suites));
}

/// The trailing fields of a written body.
pub proof fn lemma_rt_fields_b(v: HelloView)
    requires
        wf_hello(v),
        fits(v),
    ensures
        ({
            let sl = v.session_id.len() as int;
            let ncs = v.cipher_suites.len() as int;
            let cl = v.compression_methods.len() as int;
            let eb = exts_bytes(v.extensions).len() as int;
            &&& body_bytes(v)[37 + sl + 2 * ncs] == len8(cl)
            &&& body_bytes(v).subrange(38 + sl + 2 * ncs, 38 + sl + 2 * ncs + cl)
                == v.compression_methods
            &&& body_bytes(v)[38 + sl + 2 * ncs + cl] == be_hi(len16(eb))
            &&& body_bytes(v)[39 + sl + 2 * ncs + cl] == be_lo(len16(eb))
            &&& body_bytes(v).subrange(40 + sl + 2 * ncs + cl, 40 + sl + 2 * ncs + cl + eb)
                == exts_bytes(v.extensions)
        }),
{
    lemma_rt_sizes(v);
    let sl = v.session_id.len() as int;
    let ncs = v.cipher_suites.len() as int;
    let cl = v.compression_methods.len() as int;
    let eb = exts_bytes(v.extensions).len() as int;
    assert(body_bytes(v).subrange(38 + sl + 2 * ncs, 38 + sl + 2 * ncs + cl)
        =~= v.compression_methods);
    assert(body_bytes(v).subrange(40 + sl + 2 * ncs + cl, 40 + sl + 2 * ncs + cl + eb)
        =~= exts_bytes(v.extensions));
}

/// Parsing the wire form of a well-formed hello that fits its length fields
/// yields that hello exactly.
#[verifier::rlimit(100)]
#[verifier::spinoff_prover]
pub proof fn lemma_hello_roundtrip(v: HelloView)
    requires
        wf_hello(v),
        fits(v),
    ensures
        spec_parse(hello_bytes(v)) == Ok::<HelloView, TlsError>(v),
{
    let body = body_bytes(v);
    let d = hello_bytes(v);
    let sl = v.session_id.len() as int;
    let ncs = v.cipher_suites.len() as int;
    let cl = v.compression_methods.len() as int;
    let eb = exts_bytes(v.extensions).len() as int;
    lemma_rt_sizes(v);
    lemma_rt_header(v);
    lemma_rt_fields_a(v);
    lemma_rt_fields_b(v);
    let hs = d.skip(5);
    let hdr4 = seq![
        0x01u8,
        0x00u8,
        be_hi(len16(body.len() as int)),
        be_lo(len16(body.len() as int)),
    ];
    assert(hs == hdr4 + body);
    assert(hs.len() == 4 + body.len());
    assert(hs[0] == 0x01);
    assert(hs.len() > 38);

    // Session id.
    assert(hs[38] == body[34]);
    assert(len8(sl) == sl);
    assert(hs[38] as int == sl);
    assert(39 + sl + 2 <= hs.len());
    assert(hs.subrange(39, 39 + sl) =~= body.subrange(35, 35 + sl));

    // Cipher suites.
    let cs_off = 39 + sl;
    crate::util::lemma_be_roundtrip(len16(2 * ncs));
    assert(len16(2 * ncs) == 2 * ncs);
    assert(hs[cs_off] == body[35 + sl]);
    assert(hs[cs_off + 1] == body[36 + sl]);
    assert(u16_of_be(hs[cs_off], hs[cs_off + 1]) as int == 2 * ncs);
    let cs_len = 2 * ncs;
    assert(cs_len % 2 == 0);
    assert(cs_off + 2 + cs_len + 1 <= hs.len());
    assert(hs.subrange(cs_off + 2, cs_off + 2 + cs_len) =~= body.subrange(
        37 + sl,
        37 + sl + 2 * ncs,
    ));
    lemma_parse_suites_of_bytes(v.cipher_suites);

    // Compression methods.
    let comp_off = cs_off + 2 + cs_len;
    assert(hs[comp_off] == body[37 + sl + 2 * ncs]);
    assert(len8(cl) == cl);
    assert(hs[comp_off] as int == cl);
    assert(comp_off < hs.len());
    assert(comp_off + 1 + cl <= hs.len());
    assert(hs.subrange(comp_off + 1, comp_off + 1 + cl) =~= body.subrange(
        38 + sl + 2 * ncs,
        38 + sl + 2 * ncs + cl,
    ));

    // Extensions.
    let ext_off = comp_off + 1 + cl;
    crate::util::lemma_be_roundtrip(len16(eb));
    assert(len16(eb) == eb);
    assert(hs[ext_off] == body[38 + sl + 2 * ncs + cl]);
    assert(hs[ext_off + 1] == body[39 + sl + 2 * ncs + cl]);
    assert(ext_off + 2 <= hs.len());
    assert(u16_of_be(hs[ext_off], hs[ext_off + 1]) as int == eb);
    assert(ext_off + 2 + eb == hs.len());
    assert(hs.subrange(ext_off + 2, ext_off + 2 + eb) =~= body.subrange(
        40 + sl + 2 * ncs + cl,
        40 + sl + 2 * ncs + cl + eb,
    ));
    lemma_parse_exts_of_bytes(v.extensions);

    // The parsed fields assemble the original hello.
    assert(hs.subrange(4, 6) =~= body.subrange(0, 2));
    assert(hs.subrange(6, 38) =~= body.subrange(2, 34));
    assert(spec_parse(d) matches Ok(p) && p =~= v);
}

// ---------------------------------------------------------------------------
// Idempotence: rewriting a rewritten hello changes nothing.
// ---------------------------------------------------------------------------

pub proof fn lemma_dedup_no_dups(s: Seq<u16>)
    ensures
        forall|i: int, j: int|
            0 <= i < j < dedup_first(s).len() ==> dedup_first(s)[i] != dedup_first(s)[j],
        forall|x: u16| #[trigger] dedup_first(s).contains(x) <==> s.contains(x),
    decreases s.len(),
{
    if s.len() > 0 {
        lemma_dedup_no_dups(s.drop_last());
        let rest = dedup_first(s.drop_last());
        assert forall|x: u16| #[trigger] dedup_first(s).contains(x) implies s.contains(x) by {
            if rest.contains(x) {
                assert(s.drop_last().contains(x));
                let k = choose|k: int|
                    0 <= k < s.drop_last().len() && s.drop_last()[k] == x;
                assert(s[k] == x);
            } else {
                assert(x == s.last());
                assert(s[s.len() - 1] == x);
            }
        }
        assert forall|x: u16| s.contains(x) implies #[trigger] dedup_first(s).contains(x) by {
            let k = choose|k: int| 0 <= k < s.len() && s[k] == x;
            if k < s.len() - 1 {
                assert(s.drop_last()[k] == x);
                assert(s.drop_last().contains(x));
                assert(rest.contains(x));
                if !rest.contains(s.last()) {
                    let m = choose|m: int| 0 <= m < rest.len() && rest[m] == x;
                    assert(dedup_first(s)[m] == x);
                }
            } else {
                if rest.contains(s.last()) {
                    assert(rest.contains(x));
                } else {
                    assert(dedup_first(s).last() == x);
                }
            }
        }
    }
}

pub proof fn lemma_dedup_idempotent(s: Seq<u16>)
    requires
        forall|i: int, j: int| 0 <= i < j < s.len() ==> s[i] != s[j],
    ensures
        dedup_first(s) == s,
    decreases s.len(),
{
    if s.len() > 0 {
        assert(forall|i: int, j: int|
            0 <= i < j < s.drop_last().len() ==> s.drop_last()[i] != s.drop_last()[j]);
        lemma_dedup_idempotent(s.drop_last());
        if dedup_first(s.drop_last()).contains(s.last()) {
            let k = choose|k: int|
                0 <= k < s.drop_last().len() && s.drop_last()[k] == s.last();
            assert(s[k] == s[s.len() - 1]);
            assert(false);
        }
        assert(dedup_first(s) =~= s.drop_last().push(s.last()));
        assert(s.drop_last().push(s.last()) =~= s);
    }
}

/// Every element of the suffix already occurs in the prefix: the suffix
/// adds nothing to the dedup.
pub proof fn lemma_dedup_absorb_suffix(a: Seq<u16>, b: Seq<u16>)
    requires
        forall|x: u16| b.contains(x) ==> a.contains(x),
    ensures
        dedup_first(a + b) == dedup_first(a),
    decreases b.len(),
{
    if b.len() == 0 {
        assert(a + b =~= a);
    } else {
        let b1 = b.drop_last();
        let w = b.last();
        assert(forall|x: u16| b1.contains(x) ==> b.contains(x)) by {
            assert forall|x: u16| b1.contains(x) implies b.contains(x) by {
                let k = choose|k: int| 0 <= k < b1.len() && b1[k] == x;
                assert(b[k] == x);
            }
        }
        lemma_dedup_absorb_suffix(a, b1);
        assert((a + b).drop_last() =~= a + b1);
        assert((a + b).last() == w);
        assert(b.contains(w)) by {
            assert(b[b.len() - 1] == w);
        }
        assert(a.contains(w));
        assert((a + b1).contains(w)) by {
            let k = choose|k: int| 0 <= k < a.len() && a[k] == w;
            assert((a + b1)[k] == w);
        }
        lemma_dedup_no_dups(a + b1);
        assert(dedup_first(a + b1).contains(w));
        assert(dedup_first(a + b) =~= dedup_first(a + b1));
    }
}

/// A prefix written twice dedups as if written once.
pub proof fn lemma_dedup_double_prefix(p: Seq<u16>, t: Seq<u16>)
    ensures
        dedup_first((p + p) + t) == dedup_first(p + t),
    decreases t.len(),
{
    if t.len() == 0 {
        assert((p + p) + t =~= p + p);
        assert(p + t =~= p);
        assert(forall|x: u16| p.contains(x) ==> p.contains(x));
        lemma_dedup_absorb_suffix(p, p);
    } else {
        let t1 = t.drop_last();
        let w = t.last();
        lemma_dedup_double_prefix(p, t1);
        assert(((p + p) + t).drop_last() =~= (p + p) + t1);
        assert(((p + p) + t).last() == w);
        assert((p + t).drop_last() =~= p + t1);
        assert((p + t).last() == w);
        lemma_dedup_no_dups((p + p) + t1);
        lemma_dedup_no_dups(p + t1);
        assert(((p + p) + t1).contains(w) <==> (p + t1).contains(w)) by {
            if ((p + p) + t1).contains(w) {
                let k = choose|k: int|
                    0 <= k < ((p + p) + t1).len() && ((p + p) + t1)[k] == w;
                if k < p.len() {
                    assert(p[k] == w);
                    assert((p + t1)[k] == w);
                } else if k < 2 * p.len() {
                    assert(p[k - p.len()] == w);
                    assert((p + t1)[k - p.len()] == w);
                } else {
                    assert(t1[k - 2 * p.len()] == w);
                    assert((p + t1)[p.len() + (k - 2 * p.len())] == w);
                }
            }
            if (p + t1).contains(w) {
                let k = choose|k: int| 0 <= k < (p + t1).len() && (p + t1)[k] == w;
                if k < p.len() {
                    assert(((p + p) + t1)[k] == w);
                } else {
                    assert(((p + p) + t1)[p.len() + k] == w);
                }
            }
        }
        assert(dedup_first((p + p) + t1).contains(w) <==> dedup_first(p + t1).contains(w));
        assert(dedup_first((p + p) + t) =~= dedup_first(p + t));
    }
}

/// Prepending to a deduped list dedups as prepending to the original.
pub proof fn lemma_dedup_of_dedup(a: Seq<u16>, c: Seq<u16>)
    ensures
        dedup_first(a + dedup_first(c)) == dedup_first(a + c),
    decreases c.len(),
{
    if c.len() == 0 {
        assert(dedup_first(c) =~= c);
    } else {
        let c1 = c.drop_last();
        let w = c.last();
        lemma_dedup_of_dedup(a, c1);
        lemma_dedup_no_dups(c1);
        lemma_dedup_no_dups(a + c1);
        lemma_dedup_no_dups(a + dedup_first(c1));
        assert((a + c).drop_last() =~= a + c1);
        assert((a + c).last() == w);
        if dedup_first(c1).contains(w) {
            assert(dedup_first(c) =~= dedup_first(c1));
            assert(c1.contains(w));
            assert((a + c1).contains(w)) by {
                let k = choose|k: int| 0 <= k < c1.len() && c1[k] == w;
                assert((a + c1)[a.len() + k] == w);
            }
            lemma_dedup_no_dups(a + c1);
            assert(dedup_first(a + c1).contains(w));
            assert(dedup_first(a + c) =~= dedup_first(a + c1));
        } else {
            assert(dedup_first(c) =~= dedup_first(c1).push(w));
            assert(a + dedup_first(c) =~= (a + dedup_first(c1)).push(w));
            assert((a + dedup_first(c1)).push(w).drop_last() =~= a + dedup_first(c1));
            assert((a + dedup_first(c1)).push(w).last() == w);
            assert(!c1.contains(w));
            assert((a + dedup_first(c1)).contains(w) <==> (a + c1).contains(w)) by {
                if (a + dedup_first(c1)).contains(w) {
                    let k = choose|k: int|
                        0 <= k < (a + dedup_first(c1)).len() && (a + dedup_first(c1))[k] == w;
                    if k < a.len() {
                        assert((a + c1)[k] == w);
                    } else {
                        assert(dedup_first(c1)[k - a.len()] == w);
                        assert(dedup_first(c1).contains(w));
                    }
                }
                if (a + c1).contains(w) {
                    let k = choose|k: int| 0 <= k < (a + c1).len() && (a + c1)[k] == w;
                    if k < a.len() {
                        assert((a + dedup_first(c1))[k] == w);
                    } else {
                        assert(c1[k - a.len()] == w);
                    }
                }
            }
            assert(dedup_first(a + dedup_first(c1)).contains(w) <==> dedup_first(
                a + c1,
            ).contains(w));
            assert(dedup_first(a + dedup_first(c)) =~= dedup_first(a + c));
        }
    }
}

/// Rewriting an already rewritten cipher list changes nothing.
pub proof fn lemma_norm_cs_idempotent(cs: Seq<u16>)
    ensures
        norm_cs(norm_cs(cs)) == norm_cs(cs),
{
    lemma_dedup_of_dedup(tls13_trio(), tls13_trio() + cs);
    assert(tls13_trio() + (tls13_trio() + cs) =~= (tls13_trio() + tls13_trio()) + cs);
    lemma_dedup_double_prefix(tls13_trio(), cs);
}

pub proof fn lemma_find_ext_concat(a: Seq<ExtView>, b: Seq<ExtView>, t: u16)
    ensures
        find_ext(a + b, t) == (match find_ext(a, t) {
            Some(e) => Some(e),
            None => find_ext(b, t),
        }),
    decreases a.len(),
{
    if a.len() == 0 {
        assert(a + b =~= b);
    } else {
        assert((a + b)[0] == a[0]);
        assert((a + b).drop_first() =~= a.drop_first() + b);
        lemma_find_ext_concat(a.drop_first(), b, t);
    }
}

pub proof fn lemma_find_ext_none(a: Seq<ExtView>, t: u16)
    requires
        forall|i: int| 0 <= i < a.len() ==> (#[trigger] a[i]).extension_type != t,
    ensures
        find_ext(a, t) is None,
    decreases a.len(),
{
    if a.len() > 0 {
        assert(forall|i: int|
            0 <= i < a.drop_first().len() ==> (#[trigger] a.drop_first()[i]) == a[i + 1]
                && a.drop_first()[i].extension_type != t);
        lemma_find_ext_none(a.drop_first(), t);
    }
}

pub proof fn lemma_find_idx_concat(a: Seq<ExtView>, b: Seq<ExtView>, t: u16)
    ensures
        find_idx(a, t) < a.len() ==> find_idx(a + b, t) == find_idx(a, t),
        find_idx(a, t) == a.len() ==> find_idx(a + b, t) == a.len() + find_idx(b, t),
    decreases a.len(),
{
    lemma_find_idx_bounds(a, t);
    if a.len() == 0 {
        assert(a + b =~= b);
    } else {
        assert((a + b)[0] == a[0]);
        assert((a + b).drop_first() =~= a.drop_first() + b);
        lemma_find_idx_concat(a.drop_first(), b, t);
        lemma_find_idx_bounds(a.drop_first(), t);
    }
}

pub proof fn lemma_find_in_slots(es: Seq<ExtView>, ts: Seq<u16>, t: u16)
    ensures
        ts.contains(t) ==> find_ext(slotted_from(es, ts), t) == find_ext(es, t),
        !ts.contains(t) ==> find_ext(slotted_from(es, ts), t) is None,
    decreases ts.len(),
{
    if ts.len() == 0 {
        assert(!ts.contains(t));
    } else {
        let t0 = ts[0];
        let head = opt_ext(es, t0);
        let rest = slotted_from(es, ts.drop_first());
        lemma_find_in_slots(es, ts.drop_first(), t);
        lemma_find_ext_concat(head, rest, t);
        lemma_find_ext_type(es, t0);
        assert(ts.contains(t) <==> t0 == t || ts.drop_first().contains(t)) by {
            if ts.contains(t) {
                let k = choose|k: int| 0 <= k < ts.len() && ts[k] == t;
                if k > 0 {
                    assert(ts.drop_first()[k - 1] == t);
                }
            }
            if ts.drop_first().contains(t) {
                let k = choose|k: int|
                    0 <= k < ts.drop_first().len() && ts.drop_first()[k] == t;
                assert(ts[k + 1] == t);
            }
            if t0 == t {
                assert(ts[0] == t);
            }
        }
        match find_ext(es, t0) {
            Some(e) => {
                assert(head =~= seq![e]);
                assert(head[0] == e);
                if t0 == t {
                    assert(find_ext(head, t) == Some(e));
                } else {
                    assert(e.extension_type == t0);
                    assert(head.drop_first() =~= Seq::<ExtView>::empty());
                    assert(find_ext(Seq::<ExtView>::empty(), t) is None);
                    assert(find_ext(head.drop_first(), t) is None);
                    assert(find_ext(head, t) is None);
                }
            },
            None => {
                assert(head =~= Seq::<ExtView>::empty());
                assert(find_ext(head, t) is None);
                if t0 == t {
                    assert(find_ext(slotted_from(es, ts), t) == find_ext(es, t));
                }
            },
        }
    }
}

pub proof fn lemma_slotted_congruence(r: Seq<ExtView>, es: Seq<ExtView>, ts: Seq<u16>)
    requires
        forall|k: int| 0 <= k < ts.len() ==> find_ext(r, #[trigger] ts[k]) == find_ext(
            es,
            ts[k],
        ),
    ensures
        slotted_from(r, ts) == slotted_from(es, ts),
    decreases ts.len(),
{
    if ts.len() > 0 {
        assert(find_ext(r, ts[0]) == find_ext(es, ts[0]));
        assert(forall|k: int|
            0 <= k < ts.drop_first().len() ==> ts.drop_first()[k] == ts[k + 1] && find_ext(
                r,
                #[trigger] ts.drop_first()[k],
            ) == find_ext(es, ts.drop_first()[k]));
        lemma_slotted_congruence(r, es, ts.drop_first());
    }
}

/// Every element of the slot section has its slot's type.
pub proof fn lemma_slotted_types(es: Seq<ExtView>, ts: Seq<u16>)
    ensures
        forall|i: int|
            0 <= i < slotted_from(es, ts).len() ==> ts.contains(
                (#[trigger] slotted_from(es, ts)[i]).extension_type,
            ),
    decreases ts.len(),
{
    if ts.len() > 0 {
        let head = opt_ext(es, ts[0]);
        let rest = slotted_from(es, ts.drop_first());
        lemma_slotted_types(es, ts.drop_first());
        lemma_find_ext_type(es, ts[0]);
        assert forall|i: int|
            0 <= i < slotted_from(es, ts).len() implies ts.contains(
            (#[trigger] slotted_from(es, ts)[i]).extension_type,
        ) by {
            if i < head.len() {
                assert(slotted_from(es, ts)[i] == head[i]);
                assert(head[i].extension_type == ts[0]);
                assert(ts[0] == ts[0] && 0 <= 0 < ts.len());
            } else {
                assert(slotted_from(es, ts)[i] == rest[i - head.len()]);
                assert(ts.drop_first().contains(rest[i - head.len()].extension_type));
                let k = choose|k: int|
                    0 <= k < ts.drop_first().len() && ts.drop_first()[k] == rest[i
                        - head.len()].extension_type;
                assert(ts[k + 1] == rest[i - head.len()].extension_type);
            }
        }
    }
}

/// Filtering keeps nothing when no element satisfies the predicate, and
/// everything when all do.
pub proof fn lemma_filter_all<A>(s: Seq<A>, pred: spec_fn(A) -> bool)
    ensures
        (forall|i: int| 0 <= i < s.len() ==> !pred(#[trigger] s[i])) ==> s.filter(pred)
            =~= Seq::<A>::empty(),
        (forall|i: int| 0 <= i < s.len() ==> pred(#[trigger] s[i])) ==> s.filter(pred) =~= s,
    decreases s.len(),
{
    reveal(Seq::filter);
    if s.len() > 0 {
        assert(forall|i: int| 0 <= i < s.drop_last().len() ==> s.drop_last()[i] == s[i]);
        lemma_filter_all(s.drop_last(), pred);
        assert(s[s.len() - 1] == s.last());
        if forall|i: int| 0 <= i < s.len() ==> pred(#[trigger] s[i]) {
            assert(s.drop_last().push(s.last()) =~= s);
        }
    }
}

/// The sections of a rewritten extension list, and that the whole list
/// rewrites to itself.
#[verifier::rlimit(100)]
#[verifier::spinoff_prover]
pub proof fn lemma_norm_exts_idempotent(es: Seq<ExtView>, name: Seq<u8>, ticket: Option<Seq<u8>>)
    ensures
        norm_exts(norm_exts(es, name, ticket), name, ticket) == norm_exts(es, name, ticket),
{
    let nonios = |e: ExtView| !ios_ordered_type(e.extension_type);
    let sni = seq![ExtView { extension_type: 0u16, data: sni_ext_data(name) }];
    let slots = slotted_from(es, slot_types());
    let unl = unlisted_exts(es);
    let re = reordered_exts(es, name);
    let r = norm_exts(es, name, ticket);
    let head = sni + slots;
    assert(re =~= head + unl);

    // The head holds no session_ticket extension and only slotted types.
    lemma_slotted_types(es, slot_types());
    assert(forall|i: int|
        0 <= i < head.len() ==> ios_ordered_type((#[trigger] head[i]).extension_type)
            && head[i].extension_type != 35) by {
        assert forall|i: int|
            0 <= i < head.len() implies ios_ordered_type((#[trigger] head[i]).extension_type)
            && head[i].extension_type != 35 by {
            if i == 0 {
                assert(head[0] == sni[0]);
            } else {
                assert(head[i] == slots[i - 1]);
                assert(slot_types().contains(slots[i - 1].extension_type));
                let k = choose|k: int|
                    0 <= k < slot_types().len() && slot_types()[k] == slots[i
                        - 1].extension_type;
            }
        }
    }

    // Where the first session_ticket extension sits.
    lemma_find_idx_bounds(re, 35);
    lemma_find_idx_concat(head, unl, 35);
    lemma_find_idx_of_prefix(head, 35, head.len() as int);
    lemma_find_idx_bounds(unl, 35);
    assert(find_idx(re, 35) == head.len() + find_idx(unl, 35));

    // The tail after the head holds only unslotted types, with the ticket
    // placed on its first session_ticket entry.
    let u2 = match ticket {
        None => unl,
        Some(tk) => {
            let i = find_idx(re, 35);
            if i == re.len() {
                unl.push(ExtView { extension_type: 35u16, data: tk })
            } else {
                unl.update(i - head.len(), ExtView { extension_type: 35u16, data: tk })
            }
        },
    };
    s1_shape(es, name, ticket, u2);
    assert(r =~= head + u2);

    // Section facts of u2.
    assert(forall|i: int| 0 <= i < unl.len() ==> nonios(#[trigger] unl[i])) by {
        assert forall|i: int| 0 <= i < unl.len() implies nonios(#[trigger] unl[i]) by {
            es.lemma_filter_pred(nonios, i);
        }
    }
    assert(forall|i: int| 0 <= i < u2.len() ==> nonios(#[trigger] u2[i])) by {
        assert forall|i: int| 0 <= i < u2.len() implies nonios(#[trigger] u2[i]) by {
            match ticket {
                None => {},
                Some(tk) => {
                    let fi = find_idx(re, 35);
                    if fi == re.len() {
                        assert(u2 =~= unl.push(ExtView { extension_type: 35u16, data: tk }));
                        if i < unl.len() {
                            assert(u2[i] == unl[i]);
                        } else {
                            assert(u2[i].extension_type == 35);
                        }
                    } else {
                        let j = fi - head.len();
                        assert(0 <= j < unl.len());
                        assert(u2 =~= unl.update(
                            j,
                            ExtView { extension_type: 35u16, data: tk },
                        ));
                        if i == j {
                            assert(u2[i].extension_type == 35);
                        } else {
                            assert(u2[i] == unl[i]);
                        }
                    }
                },
            }
        }
    }

    // Rewriting r reproduces its own sections.
    assert(forall|k: int| 0 <= k < slot_types().len() ==> find_ext(r, #[trigger] slot_types()[k])
        == find_ext(es, slot_types()[k])) by {
        assert forall|k: int|
            0 <= k < slot_types().len() implies find_ext(r, #[trigger] slot_types()[k])
            == find_ext(es, slot_types()[k]) by {
            let t = slot_types()[k];
            assert(ios_ordered_type(t));
            assert(t != 0 && t != 35);
            lemma_find_ext_concat(sni, slots, t);
            lemma_find_ext_concat(head, u2, t);
            assert(sni[0].extension_type == 0);
            assert(sni.drop_first() =~= Seq::<ExtView>::empty());
            assert(find_ext(Seq::<ExtView>::empty(), t) is None);
            assert(find_ext(sni.drop_first(), t) is None);
            assert(find_ext(sni, t) is None);
            lemma_find_in_slots(es, slot_types(), t);
            assert(slot_types()[k] == t);
            assert(slot_types().contains(t));
            assert(forall|i: int|
                0 <= i < u2.len() ==> (#[trigger] u2[i]).extension_type != t) by {
                assert forall|i: int|
                    0 <= i < u2.len() implies (#[trigger] u2[i]).extension_type != t by {
                    assert(nonios(u2[i]));
                }
            }
            lemma_find_ext_none(u2, t);
        }
    }
    lemma_slotted_congruence(r, es, slot_types());
    assert(slotted_from(r, slot_types()) == slots);

    assert(unlisted_exts(r) =~= u2) by {
        broadcast use vstd::seq_lib::group_filter_ensures;

        Seq::filter_distributes_over_add(head, u2, nonios);
        lemma_filter_all(head, nonios);
        lemma_filter_all(u2, nonios);
        assert(unlisted_exts(r) =~= (head + u2).filter(nonios));
    }
    let re2 = reordered_exts(r, name);
    assert(re2 =~= head + u2);
    assert(re2 =~= r);

    // Placing the same ticket again changes nothing.
    match ticket {
        None => {
            assert(norm_exts(r, name, ticket) == re2);
        },
        Some(tk) => {
            let i2 = find_idx(re2, 35);
            lemma_find_idx_bounds(re2, 35);
            assert(forall|i: int|
                0 <= i < head.len() ==> (#[trigger] re2[i]).extension_type != 35) by {
                assert forall|i: int|
                    0 <= i < head.len() implies (#[trigger] re2[i]).extension_type != 35 by {
                    assert(re2[i] == head[i]);
                }
            }
            s2_ticket_already_placed(es, name, tk, u2, head);
            let j = find_idx(u2, 35);
            lemma_find_idx_concat(head, u2, 35);
            lemma_find_idx_bounds(head, 35);
            lemma_find_idx_of_prefix(head, 35, head.len() as int);
            lemma_find_idx_bounds(u2, 35);
            assert(j < u2.len());
            assert(u2[j] == (ExtView { extension_type: 35u16, data: tk }));
            assert(i2 == head.len() + j);
            assert(re2[i2] == u2[j]);
            assert(with_ticket(re2, ticket) =~= re2.update(
                i2,
                ExtView { extension_type: 35u16, data: tk },
            ));
            assert(re2.update(i2, ExtView { extension_type: 35u16, data: tk }) =~= re2);
        },
    }
}

/// The rewritten list is its head plus the stated tail.
#[verifier::rlimit(100)]
proof fn s1_shape(es: Seq<ExtView>, name: Seq<u8>, ticket: Option<Seq<u8>>, u2: Seq<ExtView>)
    requires
        u2 == (match ticket {
            None => unlisted_exts(es),
            Some(tk) => {
                let i = find_idx(reordered_exts(es, name), 35);
                if i == reordered_exts(es, name).len() {
                    unlisted_exts(es).push(ExtView { extension_type: 35u16, data: tk })
                } else {
                    unlisted_exts(es).update(
                        i - (1 + slotted_from(es, slot_types()).len()),
                        ExtView { extension_type: 35u16, data: tk },
                    )
                }
            },
        }),
    ensures
        norm_exts(es, name, ticket) == (seq![
            ExtView { extension_type: 0u16, data: sni_ext_data(name) },
        ] + slotted_from(es, slot_types())) + u2,
{
    let sni = seq![ExtView { extension_type: 0u16, data: sni_ext_data(name) }];
    let slots = slotted_from(es, slot_types());
    let unl = unlisted_exts(es);
    let re = reordered_exts(es, name);
    let head = sni + slots;
    assert(re =~= head + unl);
    match ticket {
        None => {
            assert(norm_exts(es, name, ticket) == re);
        },
        Some(tk) => {
            let i = find_idx(re, 35);
            lemma_find_idx_bounds(re, 35);
            if i == re.len() {
                assert(with_ticket(re, ticket) =~= re.push(
                    ExtView { extension_type: 35u16, data: tk },
                ));
                assert(re.push(ExtView { extension_type: 35u16, data: tk }) =~= head + unl.push(
                    ExtView { extension_type: 35u16, data: tk },
                ));
            } else {
                assert(re[i].extension_type == 35);
                lemma_slotted_types(es, slot_types());
                assert(i >= head.len()) by {
                    if i < head.len() {
                        if i == 0 {
                            assert(re[0] == sni[0]);
                        } else {
                            assert(re[i] == slots[i - 1]);
                            assert(slot_types().contains(slots[i - 1].extension_type));
                            let k = choose|k: int|
                                0 <= k < slot_types().len() && slot_types()[k] == slots[i
                                    - 1].extension_type;
                        }
                    }
                }
                assert(with_ticket(re, ticket) =~= re.update(
                    i,
                    ExtView { extension_type: 35u16, data: tk },
                ));
                assert(re.update(i, ExtView { extension_type: 35u16, data: tk }) =~= head
                    + unl.update(i - head.len(), ExtView { extension_type: 35u16, data: tk }));
            }
        },
    }
}

/// After placing a ticket, the tail's first session_ticket entry carries it.
#[verifier::rlimit(100)]
proof fn s2_ticket_already_placed(
    es: Seq<ExtView>,
    name: Seq<u8>,
    tk: Seq<u8>,
    u2: Seq<ExtView>,
    head: Seq<ExtView>,
)
    requires
        head == seq![ExtView { extension_type: 0u16, data: sni_ext_data(name) }] + slotted_from(
            es,
            slot_types(),
        ),
        u2 == ({
            let i = find_idx(reordered_exts(es, name), 35);
            if i == reordered_exts(es, name).len() {
                unlisted_exts(es).push(ExtView { extension_type: 35u16, data: tk })
            } else {
                unlisted_exts(es).update(
                    i - head.len(),
                    ExtView { extension_type: 35u16, data: tk },
                )
            }
        }),
    ensures
        find_idx(u2, 35) < u2.len(),
        u2[find_idx(u2, 35)] == (ExtView { extension_type: 35u16, data: tk }),
{
    let sni = seq![ExtView { extension_type: 0u16, data: sni_ext_data(name) }];
    let slots = slotted_from(es, slot_types());
    let unl = unlisted_exts(es);
    let re = reordered_exts(es, name);
    assert(re =~= head + unl);
    let i = find_idx(re, 35);
    lemma_find_idx_bounds(re, 35);
    lemma_find_idx_concat(head, unl, 35);
    lemma_find_idx_bounds(head, 35);
    lemma_find_idx_bounds(unl, 35);
    lemma_slotted_types(es, slot_types());
    assert(forall|k: int|
        0 <= k < head.len() ==> (#[trigger] head[k]).extension_type != 35) by {
        assert forall|k: int|
            0 <= k < head.len() implies (#[trigger] head[k]).extension_type != 35 by {
            if k == 0 {
                assert(head[0] == sni[0]);
            } else {
                assert(head[k] == slots[k - 1]);
                assert(slot_types().contains(slots[k - 1].extension_type));
                let m = choose|m: int|
                    0 <= m < slot_types().len() && slot_types()[m] == slots[k
                        - 1].extension_type;
            }
        }
    }
    lemma_find_idx_of_prefix(head, 35, head.len() as int);
    assert(find_idx(head, 35) == head.len());
    assert(i == head.len() + find_idx(unl, 35));
    if i == re.len() {
        // No earlier ticket: it was appended at the end of the tail.
        assert(find_idx(unl, 35) == unl.len());
        assert(u2 =~= unl.push(ExtView { extension_type: 35u16, data: tk }));
        assert(forall|k: int|
            0 <= k < unl.len() ==> (#[trigger] u2[k]).extension_type != 35) by {
            assert forall|k: int|
                0 <= k < unl.len() implies (#[trigger] u2[k]).extension_type != 35 by {
                assert(u2[k] == unl[k]);
                lemma_find_idx_bounds(unl, 35);
            }
        }
        lemma_find_idx_of_prefix(u2, 35, unl.len() as int);
        assert(u2[unl.len() as int].extension_type == 35);
        assert(find_idx(u2, 35) == unl.len());
    } else {
        let j = i - head.len();
        assert(unl[j].extension_type == 35);
        assert(u2 =~= unl.update(j, ExtView { extension_type: 35u16, data: tk }));
        assert(forall|k: int| 0 <= k < j ==> (#[trigger] u2[k]).extension_type != 35) by {
            assert forall|k: int| 0 <= k < j implies (#[trigger] u2[k]).extension_type != 35 by {
                assert(u2[k] == unl[k]);
                lemma_find_idx_bounds(unl, 35);
            }
        }
        assert(u2[j].extension_type == 35);
        lemma_find_idx_of_prefix(u2, 35, j);
        assert(find_idx(u2, 35) == j);
    }
}

/// The rewrite is idempotent at the logical level: parsing a rewritten
/// hello and rewriting it again yields the same structure, and the parse of
/// the rewritten bytes is exactly that structure.
pub proof fn lemma_rewrite_idempotent(h: HelloView, name: Seq<u8>, ticket: Option<Seq<u8>>)
    requires
        wf_hello(h),
        fits(norm(h, name, ticket)),
    ensures
        spec_parse(hello_bytes(norm(h, name, ticket))) == Ok::<HelloView, TlsError>(
            norm(h, name, ticket),
        ),
        norm(norm(h, name, ticket), name, ticket) == norm(h, name, ticket),
{
    let n = norm(h, name, ticket);
    assert(wf_hello(n));
    lemma_hello_roundtrip(n);
    lemma_norm_cs_idempotent(h.cipher_suites);
    lemma_norm_exts_idempotent(h.extensions, name, ticket);
    assert(norm(n, name, ticket) =~= n);
}

/// The rewrite preserves the random and the session id byte for byte.
pub proof fn lemma_rewrite_preserves_random_and_session(
    h: HelloView,
    name: Seq<u8>,
    ticket: Option<Seq<u8>>,
)
    ensures
        norm(h, name, ticket).random == h.random,
        norm(h, name, ticket).session_id == h.session_id,
{
}

// ---------------------------------------------------------------------------
// ServerHello scan for a session ticket.
// ---------------------------------------------------------------------------

/// Scan of a ServerHello extension region for the session_ticket payload,
/// within the declared end and the buffer.
pub open spec fn scan_ticket(hs: Seq<u8>, off: int, end: int) -> Option<Seq<u8>>
    decreases (if end - off >= 0 {
        end - off
    } else {
        0int
    }),
{
    if off + 4 > end || off + 4 > hs.len() {
        None
    } else {
        let t = u16_of_be(hs[off], hs[off + 1]);
        let l = u16_of_be(hs[off + 2], hs[off + 3]) as int;
        if t == 35 && off + 4 + l <= hs.len() {
            Some(hs.subrange(off + 4, off + 4 + l))
        } else {
            scan_ticket(hs, off + 4 + l, end)
        }
    }
}

/// What scanning a ServerHello yields: the session_ticket extension
/// payload, if the message carries one in reach of the buffer.
pub open spec fn spec_server_ticket(d: Seq<u8>) -> Option<Seq<u8>> {
    if d.len() < 5 || d[0] != 0x16 {
        None
    } else {
        let hs = d.skip(5);
        if hs.len() == 0 || hs[0] != 0x02 {
            None
        } else if 38 >= hs.len() {
            None
        } else {
            let off = 39 + hs[38] as int;
            if off + 3 >= hs.len() {
                None
            } else if off + 5 > hs.len() {
                None
            } else {
                let ext_len = u16_of_be(hs[off + 3], hs[off + 4]) as int;
                scan_ticket(hs, off + 5, off + 5 + ext_len)
            }
        }
    }
}

/// Pulls the session_ticket payload out of a ServerHello, if one is there.
pub fn parse_server_hello_for_ticket(data: &[u8]) -> (r: Option<Vec<u8>>)
    ensures
        match r {
            Some(v) => spec_server_ticket(data@) == Some(v@),
            None => spec_server_ticket(data@) is None,
        },
{
    if data.len() < 5 || data[0] != 0x16 {
        return None;
    }
    let hs: &[u8] = vstd::slice::slice_subrange(data, 5, data.len());
    assert(hs@ =~= data@.skip(5));
    if hs.len() == 0 || hs[0] != 0x02 {
        return None;
    }
    if 38 >= hs.len() {
        return None;
    }
    let off = 39 + hs[38] as usize;
    if off + 3 >= hs.len() {
        return None;
    }
    if off + 5 > hs.len() {
        return None;
    }
    let ext_len = read_u16_be(hs[off + 3], hs[off + 4]) as usize;
    let start = off + 5;
    let ghost end: int = start + ext_len;
    let mut pos: usize = start;
    proof {
        assert(spec_server_ticket(data@) == scan_ticket(data@.skip(5), pos as int, end));
    }
    loop
        invariant
            hs@ == data@.skip(5),
            start <= pos <= hs@.len(),
            ext_len <= 0xffff,
            end == start + ext_len,
            spec_server_ticket(data@) == scan_ticket(data@.skip(5), pos as int, end),
        decreases hs@.len() - pos,
    {
        if hs.len() - pos < 4 {
            proof {
                assert(scan_ticket(hs@, pos as int, end) is None);
            }
            return None;
        }
        if ext_len < 4 || pos - start > ext_len - 4 {
            proof {
                assert(pos as int + 4 > end);
                assert(scan_ticket(hs@, pos as int, end) is None);
            }
            return None;
        }
        let t = read_u16_be(hs[pos], hs[pos + 1]);
        let l = read_u16_be(hs[pos + 2], hs[pos + 3]) as usize;
        if t == 35 && hs.len() - pos - 4 >= l {
            let v = vstd::slice::slice_to_vec(
                vstd::slice::slice_subrange(hs, pos + 4, pos + 4 + l),
            );
            proof {
                assert(scan_ticket(hs@, pos as int, end) == Some(
                    hs@.subrange(pos as int + 4, pos as int + 4 + l as int),
                ));
            }
            return Some(v);
        }
        if l > hs.len() - pos - 4 {
            proof {
                assert(scan_ticket(hs@, pos as int, end) == scan_ticket(
                    hs@,
                    pos as int + 4 + l as int,
                    end,
                ));
                assert(scan_ticket(hs@, pos as int + 4 + l as int, end) is None);
            }
            return None;
        }
        proof {
            assert(scan_ticket(hs@, pos as int, end) == scan_ticket(
                hs@,
                pos as int + 4 + l as int,
                end,
            ));
        }
        pos = pos + 4 + l;
    }
}

/// Whether a TCP payload opens like a TLS ClientHello: a handshake
/// record of some TLS 3.x version whose first message byte says hello.
pub fn is_client_hello(data: &[u8]) -> (r: bool)
    ensures
        r == (data@.len() >= 6 && data@[0] == 0x16 && data@[1] == 0x03 && data@[5] == 0x01),
{
    data.len() >= 6 && data[0] == 0x16 && data[1] == 0x03 && data[5] == 0x01
}

} // verus!
