//! Checksums for rewritten packets: the IPv4 header checksum and the TCP
//! checksum over its pseudo-header, both one's-complement sums.

use vstd::prelude::*;

verus! {

/// One's-complement accumulation of 16-bit big-endian words over a byte
/// region; an odd trailing byte is taken as a high byte.
pub open spec fn ones_sum(b: Seq<u8>, i: int) -> int
    decreases b.len() - i,
{
    if i >= b.len() {
        0
    } else if i + 1 < b.len() {
        (b[i] * 0x100 + b[i + 1]) + ones_sum(b, i + 2)
    } else {
        b[i] * 0x100
    }
}

/// Folds a 32-bit one's-complement accumulator into 16 bits.
pub open spec fn fold_sum(s: int) -> int
    decreases (if s >= 0x10000 {
        s
    } else {
        0
    }),
{
    if s >= 0x10000 && s >= 0 {
        fold_sum((s % 0x10000) + (s / 0x10000))
    } else {
        s
    }
}

/// The checksum a region sums to: the folded one's-complement sum,
/// inverted.
pub open spec fn spec_checksum(b: Seq<u8>) -> int {
    (0xffff - (fold_sum(ones_sum(b, 0)) % 0x10000)) % 0x10000
}

/// The folded, inverted one's-complement checksum of a region.
pub fn ones_checksum(b: &[u8]) -> (r: u16)
    requires
        b@.len() <= 0xffff,
    ensures
        r == spec_checksum(b@),
{
    let mut sum: u64 = 0;
    let mut i: usize = 0;
    let ghost total = ones_sum(b@, 0);
    proof {
        lemma_ones_sum_bound(b@, 0);
    }
    while i + 1 < b.len()
        invariant
            b@.len() <= 0xffff,
            i <= b@.len(),
            i % 2 == 0,
            sum + ones_sum(b@, i as int) == ones_sum(b@, 0),
            sum <= 0xffff * (i as int / 2),
        decreases b@.len() - i,
    {
        let w: u64 = (b[i] as u64) * 0x100 + (b[i + 1] as u64);
        sum = sum + w;
        i = i + 2;
    }
    if i < b.len() {
        sum = sum + (b[i] as u64) * 0x100;
        proof {
            assert(ones_sum(b@, i as int) == b@[i as int] * 0x100);
        }
    } else {
        proof {
            assert(ones_sum(b@, i as int) == 0);
        }
    }
    proof {
        assert(sum == ones_sum(b@, 0));
    }
    let ghost presum = sum;
    while sum >= 0x10000
        invariant
            fold_sum(sum as int) == fold_sum(presum as int),
        decreases sum,
    {
        sum = (sum % 0x10000) + (sum / 0x10000);
    }
    proof {
        assert(fold_sum(sum as int) == sum as int);
        assert(sum < 0x10000);
        assert((0xffffu64 - sum) as int == spec_checksum(b@)) by {
            assert(fold_sum(presum as int) % 0x10000 == sum as int);
        }
    }
    (0xffff - sum as u16) as u16
}

/// The accumulated sum of a bounded region stays well under the
/// accumulator's range.
pub proof fn lemma_ones_sum_bound(b: Seq<u8>, i: int)
    requires
        0 <= i <= b.len(),
    ensures
        0 <= ones_sum(b, i) <= 0xffff * (b.len() - i),
    decreases b.len() - i,
{
    if i < b.len() {
        if i + 1 < b.len() {
            lemma_ones_sum_bound(b, i + 2);
        }
    }
}

/// Writes the IPv4 header checksum into bytes 10 and 11, computed over
/// the header with that field zeroed.
pub fn recalculate_ip_checksum(packet: &mut Vec<u8>, header_len: usize)
    requires
        12 <= header_len <= old(packet)@.len(),
        header_len <= 0xffff,
    ensures
        ({
            let zeroed = old(packet)@.update(10, 0u8).update(11, 0u8);
            let ck = spec_checksum(zeroed.subrange(0, header_len as int)) as u16;
            final(packet)@ == zeroed.update(10, crate::util::be_hi(ck)).update(
                11,
                crate::util::be_lo(ck),
            )
        }),
        final(packet)@.len() == old(packet)@.len(),
{
    packet.set(10, 0);
    packet.set(11, 0);
    let ghost zeroed = packet@;
    let header = vstd::slice::slice_subrange(packet.as_slice(), 0, header_len);
    proof {
        assert(header@ =~= zeroed.subrange(0, header_len as int));
    }
    let checksum = ones_checksum(header);
    let (hi, lo) = crate::util::split_u16_be(checksum);
    packet.set(10, hi);
    packet.set(11, lo);
    proof {
        assert(packet@ =~= zeroed.update(10, crate::util::be_hi(checksum)).update(
            11,
            crate::util::be_lo(checksum),
        ));
    }
}

/// Writes the TCP checksum into the segment at its offset, computed over
/// the pseudo-header of addresses, protocol and length plus the segment
/// with the field zeroed.
pub fn recalculate_tcp_checksum(packet: &mut Vec<u8>, ip_header_len: usize)
    requires
        20 <= ip_header_len,
        ip_header_len + 18 <= old(packet)@.len(),
        old(packet)@.len() <= 0xffe0,
    ensures
        ({
            let zeroed = old(packet)@.update(ip_header_len + 16, 0u8).update(
                ip_header_len + 17,
                0u8,
            );
            let ck = spec_checksum(tcp_pseudo_bytes(zeroed, ip_header_len as int)) as u16;
            final(packet)@ == zeroed.update(ip_header_len + 16, crate::util::be_hi(ck)).update(
                ip_header_len + 17,
                crate::util::be_lo(ck),
            )
        }),
        final(packet)@.len() == old(packet)@.len(),
{
    let tcp_start = ip_header_len;
    packet.set(tcp_start + 16, 0);
    packet.set(tcp_start + 17, 0);
    let ghost zeroed = packet@;
    let tcp_len = packet.len() - ip_header_len;

    let mut pseudo: Vec<u8> = Vec::new();
    let mut k: usize = 12;
    while k < 20
        invariant
            12 <= k <= 20,
            zeroed == packet@,
            ip_header_len >= 20,
            ip_header_len + 18 <= packet@.len(),
            pseudo@.len() == k - 12,
            pseudo@ == zeroed.subrange(12, k as int),
        decreases 20 - k,
    {
        pseudo.push(packet[k]);
        proof {
            assert(pseudo@ =~= zeroed.subrange(12, k as int + 1));
        }
        k = k + 1;
    }
    pseudo.push(0);
    pseudo.push(6);
    let (lh, ll) = crate::util::split_u16_be(tcp_len as u16);
    pseudo.push(lh);
    pseudo.push(ll);
    let ghost head = pseudo@;
    let mut t: usize = tcp_start;
    while t < packet.len()
        invariant
            tcp_start <= t <= packet@.len(),
            zeroed == packet@,
            ip_header_len + 18 <= packet@.len(),
            packet@.len() <= 0xffe0,
            tcp_start == ip_header_len,
            tcp_start >= 20,
            pseudo@.len() == 12 + (t - tcp_start),
            pseudo@ == head + zeroed.subrange(tcp_start as int, t as int),
        decreases packet@.len() - t,
    {
        pseudo.push(packet[t]);
        proof {
            assert(pseudo@ =~= head + zeroed.subrange(tcp_start as int, t as int + 1));
        }
        t = t + 1;
    }
    proof {
        assert(pseudo@ =~= tcp_pseudo_bytes(zeroed, ip_header_len as int));
    }
    let checksum = ones_checksum(pseudo.as_slice());
    let (hi, lo) = crate::util::split_u16_be(checksum);
    packet.set(tcp_start + 16, hi);
    packet.set(tcp_start + 17, lo);
    proof {
        assert(packet@ =~= zeroed.update(ip_header_len + 16, crate::util::be_hi(checksum)).update(
            ip_header_len + 17,
            crate::util::be_lo(checksum),
        ));
    }
}

/// The pseudo-header plus segment the TCP checksum covers: source and
/// destination addresses, a zero byte, the protocol, the segment length,
/// then the segment itself.
pub open spec fn tcp_pseudo_bytes(packet: Seq<u8>, ip_header_len: int) -> Seq<u8> {
    packet.subrange(12, 20) + seq![0u8, 6u8] + seq![
        crate::util::be_hi(((packet.len() - ip_header_len) % 0x10000) as u16),
        crate::util::be_lo(((packet.len() - ip_header_len) % 0x10000) as u16),
    ] + packet.subrange(ip_header_len, packet.len() as int)
}

} // verus!
