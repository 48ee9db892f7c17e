//! Byte-level helpers shared by the codecs: big-endian integer fields and
//! substring search over byte slices.

use vstd::prelude::*;
use vstd::string::StringSliceAdditionalSpecFns;

verus! {

/// The 16-bit value that two big-endian bytes denote.
pub open spec fn u16_of_be(hi: u8, lo: u8) -> u16 {
    (hi * 256 + lo) as u16
}

/// High byte of a 16-bit value written big-endian.
pub open spec fn be_hi(v: u16) -> u8 {
    (v / 256) as u8
}

/// Low byte of a 16-bit value written big-endian.
pub open spec fn be_lo(v: u16) -> u8 {
    (v % 256) as u8
}

pub proof fn lemma_be_roundtrip(v: u16)
    ensures
        u16_of_be(be_hi(v), be_lo(v)) == v,
{
}

/// Reads the 16-bit big-endian value at two bytes.
pub fn read_u16_be(hi: u8, lo: u8) -> (r: u16)
    ensures
        r == u16_of_be(hi, lo),
{
    (hi as u16) * 256 + (lo as u16)
}

/// Splits a 16-bit value into its big-endian bytes.
pub fn split_u16_be(v: u16) -> (r: (u8, u8))
    ensures
        r.0 == be_hi(v),
        r.1 == be_lo(v),
{
    ((v / 256) as u8, (v % 256) as u8)
}

/// The 32-bit value that four big-endian bytes denote.
pub open spec fn u32_of_be4(b0: u8, b1: u8, b2: u8, b3: u8) -> u32 {
    (((b0 * 0x100 + b1) * 0x100 + b2) * 0x100 + b3) as u32
}

/// The four big-endian bytes of a 32-bit value.
pub open spec fn be4_of_u32(v: u32) -> Seq<u8> {
    seq![
        (v / 0x1000000) as u8,
        ((v / 0x10000) % 0x100) as u8,
        ((v / 0x100) % 0x100) as u8,
        (v % 0x100) as u8,
    ]
}

pub proof fn lemma_be4_roundtrip(v: u32)
    ensures
        u32_of_be4(be4_of_u32(v)[0], be4_of_u32(v)[1], be4_of_u32(v)[2], be4_of_u32(v)[3]) == v,
{
}

/// Reads the 32-bit big-endian value at four bytes.
pub fn read_u32_be(b0: u8, b1: u8, b2: u8, b3: u8) -> (r: u32)
    ensures
        r == u32_of_be4(b0, b1, b2, b3),
{
    ((b0 as u32) * 0x1000000) + ((b1 as u32) * 0x10000) + ((b2 as u32) * 0x100) + (b3 as u32)
}

/// Splits a 32-bit value into its big-endian bytes.
pub fn split_u32_be(v: u32) -> (r: (u8, u8, u8, u8))
    ensures
        seq![r.0, r.1, r.2, r.3] == be4_of_u32(v),
{
    let r = (
        (v / 0x1000000) as u8,
        ((v / 0x10000) % 0x100) as u8,
        ((v / 0x100) % 0x100) as u8,
        (v % 0x100) as u8,
    );
    proof {
        assert(seq![r.0, r.1, r.2, r.3] =~= be4_of_u32(v));
    }
    r
}

/// The three big-endian bytes of a value below 2^24.
pub open spec fn be3_of_u32(v: u32) -> Seq<u8> {
    seq![((v / 0x10000) % 0x100) as u8, ((v / 0x100) % 0x100) as u8, (v % 0x100) as u8]
}

/// The value that three big-endian bytes denote.
pub open spec fn u24_of_be3(b0: u8, b1: u8, b2: u8) -> u32 {
    ((b0 * 0x10000) + (b1 * 0x100) + b2) as u32
}

pub proof fn lemma_be3_roundtrip(v: u32)
    requires
        v < 0x1000000,
    ensures
        u24_of_be3(be3_of_u32(v)[0], be3_of_u32(v)[1], be3_of_u32(v)[2]) == v,
{
}

/// Reads the 24-bit big-endian value at three bytes.
pub fn read_u24_be(b0: u8, b1: u8, b2: u8) -> (r: u32)
    ensures
        r == u24_of_be3(b0, b1, b2),
{
    ((b0 as u32) * 0x10000) + ((b1 as u32) * 0x100) + (b2 as u32)
}

/// Splits a value below 2^24 into its three big-endian bytes.
pub fn split_u24_be(v: u32) -> (r: (u8, u8, u8))
    requires
        v < 0x1000000,
    ensures
        seq![r.0, r.1, r.2] == be3_of_u32(v),
{
    let r = (((v / 0x10000) % 0x100) as u8, ((v / 0x100) % 0x100) as u8, (v % 0x100) as u8);
    proof {
        assert(seq![r.0, r.1, r.2] =~= be3_of_u32(v));
    }
    r
}

/// Appends a byte region to a buffer.
pub fn append_byte_slice(out: &mut Vec<u8>, src: &[u8])
    ensures
        final(out)@ == old(out)@ + src@,
{
    let mut i: usize = 0;
    while i < src.len()
        invariant
            i <= src@.len(),
            out@ =~= old(out)@ + src@.take(i as int),
        decreases src@.len() - i,
    {
        out.push(src[i]);
        proof {
            assert(old(out)@ + src@.take(i as int + 1) =~= (old(out)@ + src@.take(i as int)).push(
                src@[i as int],
            ));
        }
        i = i + 1;
    }
    proof {
        assert(src@.take(src@.len() as int) =~= src@);
    }
}

/// Whether two byte regions hold the same bytes.
pub fn bytes_eq(a: &[u8], b: &[u8]) -> (r: bool)
    ensures
        r == (a@ == b@),
{
    if a.len() != b.len() {
        return false;
    }
    let mut i: usize = 0;
    while i < a.len()
        invariant
            a@.len() == b@.len(),
            i <= a@.len(),
            forall|j: int| 0 <= j < i ==> a@[j] == b@[j],
        decreases a@.len() - i,
    {
        if a[i] != b[i] {
            return false;
        }
        i = i + 1;
    }
    proof {
        assert(a@ =~= b@);
    }
    true
}

/// Whether two strings hold the same characters.
pub fn str_eq(a: &str, b: &str) -> (r: bool)
    ensures
        r == (a@ == b@),
{
    let r = bytes_eq(a.as_bytes(), b.as_bytes());
    proof {
        vstd::utf8::encode_utf8_decode_utf8(a@);
        vstd::utf8::encode_utf8_decode_utf8(b@);
    }
    r
}

/// Whether a byte string occurs inside another.
pub open spec fn has_sub(hay: Seq<u8>, needle: Seq<u8>) -> bool {
    exists|i: int|
        0 <= i <= hay.len() - needle.len() && #[trigger] hay.subrange(i, i + needle.len())
            == needle
}

/// Whether the needle occurs in the haystack.
pub fn contains_sub(hay: &[u8], needle: &[u8]) -> (r: bool)
    ensures
        r == has_sub(hay@, needle@),
{
    if needle.len() > hay.len() {
        proof {
            assert(!has_sub(hay@, needle@));
        }
        return false;
    }
    if needle.len() == 0 {
        proof {
            assert(hay@.subrange(0, 0 + needle@.len() as int) =~= needle@);
        }
        return true;
    }
    let hl = hay.len();
    let nl = needle.len();
    let mut i: usize = 0;
    while i <= hl - nl
        invariant
            hl == hay@.len(),
            nl == needle@.len(),
            1 <= nl <= hl,
            i <= hl - nl + 1,
            forall|k: int|
                0 <= k < i ==> #[trigger] hay@.subrange(k, k + needle@.len()) != needle@,
        decreases hl - nl - i + 1,
    {
        let mut j: usize = 0;
        let mut matched = true;
        while j < nl
            invariant_except_break
                matched,
                hl == hay@.len(),
                nl == needle@.len(),
                i + nl <= hl,
                j <= nl,
                forall|m: int| 0 <= m < j ==> hay@[i + m] == needle@[m],
            ensures
                hl == hay@.len(),
                nl == needle@.len(),
                i + nl <= hl,
                matched ==> j == needle@.len() && forall|m: int|
                    0 <= m < j ==> hay@[i + m] == needle@[m],
                !matched ==> hay@.subrange(i as int, i + needle@.len()) != needle@,
            decreases nl - j,
        {
            if hay[i + j] != needle[j] {
                proof {
                    assert(hay@.subrange(i as int, i + needle@.len())[j as int] != needle@[j as int]);
                }
                matched = false;
                break ;
            }
            j = j + 1;
        }
        if matched {
            proof {
                assert(hay@.subrange(i as int, i + needle@.len()) =~= needle@);
            }
            return true;
        }
        i = i + 1;
    }
    proof {
        assert forall|k: int|
            0 <= k <= hay@.len() - needle@.len() implies #[trigger] hay@.subrange(
            k,
            k + needle@.len(),
        ) != needle@ by {}
    }
    false
}

/// Whether a string holds another as a substring, judged on their UTF-8
/// bytes.
pub fn str_contains(hay: &str, needle: &str) -> (r: bool)
    ensures
        r == has_sub(hay.spec_bytes(), needle.spec_bytes()),
{
    contains_sub(hay.as_bytes(), needle.as_bytes())
}

/// Index of the first entry with a key, or the length when absent.
pub open spec fn skey_idx<V>(es: Seq<(String, V)>, key: Seq<char>) -> int
    decreases es.len(),
{
    if es.len() == 0 {
        0
    } else if es[0].0@ == key {
        0
    } else {
        1 + skey_idx(es.drop_first(), key)
    }
}

/// The first entry's value for a key.
pub open spec fn skey_get<V>(es: Seq<(String, V)>, key: Seq<char>) -> Option<V> {
    if skey_idx(es, key) < es.len() {
        Some(es[skey_idx(es, key)].1)
    } else {
        None
    }
}

pub proof fn lemma_skey_idx_bounds<V>(es: Seq<(String, V)>, key: Seq<char>)
    ensures
        0 <= skey_idx(es, key) <= es.len(),
        skey_idx(es, key) < es.len() ==> es[skey_idx(es, key)].0@ == key,
        forall|j: int| 0 <= j < skey_idx(es, key) ==> es[j].0@ != key,
    decreases es.len(),
{
    if es.len() > 0 && es[0].0@ != key {
        lemma_skey_idx_bounds(es.drop_first(), key);
        assert(forall|j: int|
            1 <= j < skey_idx(es, key) ==> es[j] == es.drop_first()[j - 1] && es[j].0@ != key);
    }
}

pub proof fn lemma_skey_idx_of_prefix<V>(es: Seq<(String, V)>, key: Seq<char>, i: int)
    requires
        0 <= i <= es.len(),
        forall|j: int| 0 <= j < i ==> (#[trigger] es[j]).0@ != key,
    ensures
        i < es.len() && es[i].0@ == key ==> skey_idx(es, key) == i,
        i == es.len() ==> skey_idx(es, key) == es.len(),
    decreases es.len(),
{
    if es.len() > 0 && i > 0 {
        assert(forall|j: int|
            0 <= j < i - 1 ==> es.drop_first()[j] == es[j + 1] && (#[trigger] es.drop_first()[j]).0@
                != key);
        lemma_skey_idx_of_prefix(es.drop_first(), key, i - 1);
    }
}

/// Replacing or appending the entry of one key leaves every other key's
/// first entry unchanged.
pub proof fn lemma_skey_upsert_others<V>(a: Seq<(String, V)>, b: Seq<(String, V)>, key: Seq<char>, i: int)
    requires
        0 <= i <= a.len(),
        b.len() == a.len() || (i == a.len() && b.len() == a.len() + 1),
        forall|j: int| 0 <= j < a.len() && j != i ==> #[trigger] b[j] == a[j],
        i < b.len() ==> b[i].0@ == key,
        i < a.len() ==> a[i].0@ == key,
    ensures
        forall|k2: Seq<char>| k2 != key ==> #[trigger] skey_get(b, k2) == skey_get(a, k2),
{
    assert forall|k2: Seq<char>| k2 != key implies #[trigger] skey_get(b, k2) == skey_get(
        a,
        k2,
    ) by {
        lemma_skey_idx_bounds(a, k2);
        lemma_skey_idx_bounds(b, k2);
        let ia = skey_idx(a, k2);
        if ia < a.len() {
            assert(ia != i);
            assert(b[ia] == a[ia]);
            assert(forall|j: int| 0 <= j < ia ==> (#[trigger] b[j]).0@ != k2) by {
                assert forall|j: int| 0 <= j < ia implies (#[trigger] b[j]).0@ != k2 by {
                    if j != i {
                        assert(b[j] == a[j]);
                    }
                }
            }
            lemma_skey_idx_of_prefix(b, k2, ia);
        } else {
            assert(forall|j: int| 0 <= j < b.len() ==> (#[trigger] b[j]).0@ != k2) by {
                assert forall|j: int| 0 <= j < b.len() implies (#[trigger] b[j]).0@ != k2 by {
                    if j != i {
                        assert(b[j] == a[j]);
                    }
                }
            }
            lemma_skey_idx_of_prefix(b, k2, b.len() as int);
        }
    }
}

/// Relies on String::from_utf8: valid UTF-8 bytes become the string
/// holding exactly them, and invalid bytes are refused.
#[verifier::external_body]
pub fn bytes_to_string(b: &[u8]) -> (r: Option<String>)
    ensures
        r matches Some(s) ==> vstd::utf8::encode_utf8(s@) == b@,
        r is Some <==> vstd::utf8::valid_utf8(b@),
{
    String::from_utf8(b.to_vec()).ok()
}

} // verus!
