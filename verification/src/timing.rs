//! Natural-timing engine: a rolling history of inter-packet intervals whose
//! median sets the base delay before the next forward write. The jitter
//! drawn around the base and the sleep itself stay outside.

use vstd::prelude::*;

use crate::clock::now_millis;
use vstd::multiset::Multiset;

verus! {

/// Base delay when no interval was observed yet, in microseconds.
pub const DEFAULT_DELAY_US: u64 = 10000;

/// Shortest delay worth sleeping for, in microseconds.
pub const MIN_DELAY_US: u64 = 1000;

/// Longest delay ever slept, in microseconds.
pub const MAX_DELAY_US: u64 = 5000000;

/// Rolling history of observed inter-packet intervals, in microseconds.
pub struct TimingEngine {
    pub inter_packet_delays: Vec<u64>,
    pub max_history: usize,
    /// Milliseconds-since-epoch of the last observed packet.
    pub last_packet: Option<u64>,
}

/// Summary of the observed intervals, in microseconds.
pub struct TimingStats {
    pub min: u64,
    pub max: u64,
    pub avg: u64,
    pub median: u64,
    pub count: usize,
}

impl TimingEngine {
    /// An engine with an empty history of the given capacity.
    pub fn new(max_history: usize) -> (e: Self)
        ensures
            e.inter_packet_delays@.len() == 0,
            e.max_history == max_history,
            e.last_packet is None,
    {
        TimingEngine { inter_packet_delays: Vec::new(), max_history, last_packet: None }
    }

    /// Records the interval since the last packet, dropping the oldest
    /// entry when the history is full.
    pub fn record_packet(&mut self)
        ensures
            final(self).max_history == old(self).max_history,
            final(self).last_packet is Some,
            final(self).inter_packet_delays@.len() <= old(self).inter_packet_delays@.len() + 1,
    {
        let now = now_millis();
        match self.last_packet {
            Some(last) => {
                let delta_ms: u64 = if now >= last {
                    now - last
                } else {
                    0
                };
                let delta_us: u64 = if delta_ms <= u64::MAX / 1000 {
                    delta_ms * 1000
                } else {
                    u64::MAX
                };
                self.inter_packet_delays.push(delta_us);
                if self.inter_packet_delays.len() > self.max_history {
                    let _gone = self.inter_packet_delays.remove(0);
                }
            },
            None => {},
        }
        self.last_packet = Some(now);
    }

    /// The median of the observed intervals, or the default with an empty
    /// history: the middle entry of the intervals in ascending order.
    pub fn get_natural_delay(&self) -> (r: u64)
        ensures
            self.inter_packet_delays@.len() == 0 ==> r == DEFAULT_DELAY_US,
            self.inter_packet_delays@.len() > 0 ==> r == sorted_delays(
                self.inter_packet_delays@,
            )[self.inter_packet_delays@.len() as int / 2] && self.inter_packet_delays@.contains(
                r,
            ),
    {
        if self.inter_packet_delays.len() == 0 {
            return DEFAULT_DELAY_US;
        }
        let sorted = sort_u64(&self.inter_packet_delays);
        let mid = sorted.len() / 2;
        let r = sorted[mid];
        proof {
            assert(sorted@[mid as int] == r);
            assert(sorted@.contains(r));
            sorted@.to_multiset_ensures();
            assert(sorted@.to_multiset().contains(r));
            self.inter_packet_delays@.to_multiset_ensures();
            assert(self.inter_packet_delays@.to_multiset().contains(r));
            assert(self.inter_packet_delays@.contains(r));
        }
        r
    }

    /// Clamps a delay into the sleepable band.
    pub fn clamp_delay(&self, delay_us: u64) -> (r: u64)
        ensures
            r == (if delay_us < MIN_DELAY_US {
                MIN_DELAY_US
            } else if delay_us > MAX_DELAY_US {
                MAX_DELAY_US
            } else {
                delay_us
            }),
            MIN_DELAY_US <= r <= MAX_DELAY_US,
    {
        if delay_us < MIN_DELAY_US {
            MIN_DELAY_US
        } else if delay_us > MAX_DELAY_US {
            MAX_DELAY_US
        } else {
            delay_us
        }
    }

    /// Summarizes the observed intervals: least, greatest and middle entry
    /// of the ascending order, and the saturating mean.
    pub fn get_stats(&self) -> (r: TimingStats)
        ensures
            r.count == self.inter_packet_delays@.len(),
            self.inter_packet_delays@.len() == 0 ==> r.min == 0 && r.max == 0 && r.avg == 0
                && r.median == 0,
            self.inter_packet_delays@.len() > 0 ==> ({
                let sorted = sorted_delays(self.inter_packet_delays@);
                r.min == sorted[0] && r.max == sorted[sorted.len() - 1] && r.median
                    == sorted[sorted.len() as int / 2]
            }),
    {
        if self.inter_packet_delays.len() == 0 {
            return TimingStats { min: 0, max: 0, avg: 0, median: 0, count: 0 };
        }
        let sorted = sort_u64(&self.inter_packet_delays);
        let min = sorted[0];
        let max = sorted[sorted.len() - 1];
        let median = sorted[sorted.len() / 2];
        let mut sum: u64 = 0;
        let mut i: usize = 0;
        while i < sorted.len()
            invariant
                i <= sorted@.len(),
            decreases sorted@.len() - i,
        {
            if sum <= u64::MAX - sorted[i] {
                sum = sum + sorted[i];
            } else {
                sum = u64::MAX;
            }
            i = i + 1;
        }
        let avg = sum / (sorted.len() as u64);
        TimingStats { min, max, avg, median, count: self.inter_packet_delays.len() }
    }
}

/// The observed intervals in ascending order.
pub open spec fn sorted_delays(s: Seq<u64>) -> Seq<u64> {
    s.sort_by(|a: u64, b: u64| a <= b)
}

/// The values of a list in ascending order: the canonical sorted
/// permutation.
pub fn sort_u64(v: &Vec<u64>) -> (r: Vec<u64>)
    ensures
        r@ == sorted_delays(v@),
        r@.len() == v@.len(),
        r@.to_multiset() == v@.to_multiset(),
        forall|a: int, b: int| 0 <= a < b < r@.len() ==> r@[a] <= r@[b],
{
    let mut out: Vec<u64> = Vec::new();
    let mut i: usize = 0;
    proof {
        assert(v@.take(0) =~= Seq::<u64>::empty());
        v@.take(0).to_multiset_ensures();
        out@.to_multiset_ensures();
        assert(out@.to_multiset() =~= v@.take(0).to_multiset());
    }
    while i < v.len()
        invariant
            i <= v@.len(),
            out@.len() == i,
            out@.to_multiset() == v@.take(i as int).to_multiset(),
            forall|a: int, b: int| 0 <= a < b < out@.len() ==> out@[a] <= out@[b],
        decreases v@.len() - i,
    {
        let x = v[i];
        // Find the insertion point that keeps the order.
        let mut k: usize = 0;
        while k < out.len() && out[k] <= x
            invariant
                k <= out@.len(),
                forall|a: int| 0 <= a < k ==> out@[a] <= x,
            decreases out@.len() - k,
        {
            k = k + 1;
        }
        let ghost before = out@;
        out.insert(k, x);
        proof {
            before.insert_ensures(k as int, x);
            assert(out@ =~= before.take(k as int) + seq![x] + before.skip(k as int));
            lemma_insert_multiset(before, out@, x, k as int);
            assert(v@.take(i as int + 1) =~= v@.take(i as int).push(v@[i as int]));
            v@.take(i as int).to_multiset_ensures();
            assert(v@.take(i as int + 1).to_multiset() =~= v@.take(
                i as int,
            ).to_multiset().insert(v@[i as int]));
            assert(forall|a: int, b: int|
                0 <= a < b < out@.len() ==> out@[a] <= out@[b]) by {
                assert forall|a: int, b: int|
                    0 <= a < b < out@.len() implies out@[a] <= out@[b] by {
                    if b < k {
                    } else if a < k && b == k {
                        assert(out@[b] == x);
                    } else if a < k && b > k {
                        assert(out@[b] == before[b - 1]);
                    } else if a == k {
                        assert(out@[a] == x);
                        assert(out@[b] == before[b - 1]);
                        assert(k < before.len() ==> before[k as int] > x);
                        assert(before[b - 1] >= x);
                    } else {
                        assert(out@[a] == before[a - 1]);
                        assert(out@[b] == before[b - 1]);
                    }
                }
            }
        }
        i = i + 1;
    }
    proof {
        assert(v@.take(v@.len() as int) =~= v@);
        let leq = |a: u64, b: u64| a <= b;
        v@.lemma_sort_by_ensures(leq);
        assert(vstd::relations::sorted_by(out@, leq));
        assert(vstd::relations::total_ordering(leq)) by {
            assert(vstd::relations::reflexive(leq));
            assert(vstd::relations::antisymmetric(leq));
            assert(vstd::relations::transitive(leq));
            assert(vstd::relations::strongly_connected(leq));
        }
        vstd::seq_lib::lemma_sorted_unique(out@, v@.sort_by(leq), leq);
    }
    out
}

/// Inserting an element adds exactly it to the multiset.
proof fn lemma_insert_multiset(before: Seq<u64>, after: Seq<u64>, x: u64, k: int)
    requires
        0 <= k <= before.len(),
        after == before.insert(k, x),
    ensures
        after.to_multiset() == before.to_multiset().insert(x),
{
    assert(after =~= before.take(k) + seq![x] + before.skip(k));
    vstd::seq_lib::lemma_multiset_commutative(before.take(k) + seq![x], before.skip(k));
    assert(before.take(k) + seq![x] =~= before.take(k).push(x));
    before.take(k).to_multiset_ensures();
    assert((before.take(k).push(x)).to_multiset() =~= before.take(k).to_multiset().insert(x));
    vstd::seq_lib::lemma_multiset_commutative(before.take(k), before.skip(k));
    assert(before.take(k) + before.skip(k) =~= before);
    assert(after.to_multiset() =~= before.to_multiset().insert(x));
}

/// Keeps measured intervals near a target: one that strays too far is
/// replaced by the target itself.
pub struct TimingNormalizer {
    pub target_interval_us: u64,
    pub max_deviation_percent: u64,
}

impl TimingNormalizer {
    /// A normalizer around a target interval with a tolerance.
    pub fn new(target_interval_us: u64, max_deviation_percent: u64) -> (r: Self)
        ensures
            r.target_interval_us == target_interval_us,
            r.max_deviation_percent == max_deviation_percent,
    {
        TimingNormalizer { target_interval_us, max_deviation_percent }
    }

    /// The measured interval, or the target when the deviation exceeds
    /// the tolerance: deviation per cent is judged against the target.
    pub fn normalize(&self, measured_us: u64) -> (r: u64)
        requires
            self.target_interval_us > 0,
            self.max_deviation_percent <= 0x10000,
        ensures
            ({
                let diff: int = if measured_us >= self.target_interval_us {
                    measured_us - self.target_interval_us
                } else {
                    self.target_interval_us - measured_us
                };
                if diff * 100 > self.max_deviation_percent * self.target_interval_us {
                    r == self.target_interval_us
                } else {
                    r == measured_us
                }
            }),
    {
        let diff: u64 = if measured_us >= self.target_interval_us {
            measured_us - self.target_interval_us
        } else {
            self.target_interval_us - measured_us
        };
        let scaled: u128 = (diff as u128) * 100;
        proof {
            assert((self.max_deviation_percent as u128) * (self.target_interval_us as u128)
                <= 0x10000u128 * 0xffffffffffffffffu128) by (nonlinear_arith)
                requires
                    self.max_deviation_percent <= 0x10000,
                    self.target_interval_us <= 0xffffffffffffffffu64,
            ;
        }
        let bound: u128 = (self.max_deviation_percent as u128) * (self.target_interval_us as u128);
        if scaled > bound {
            self.target_interval_us
        } else {
            measured_us
        }
    }
}

} // verus!
