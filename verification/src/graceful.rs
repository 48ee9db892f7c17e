//! Connection registry with graceful shutdown, and the bounded
//! retry-with-backoff schedule. The registry is the synchronous state; the
//! loops that sleep and poll around it stay outside.

use vstd::prelude::*;

use crate::clock::now_millis;

verus! {

/// Connect attempts before giving up.
pub const MAX_RETRIES: u32 = 3;

/// Milliseconds before the second attempt; later pauses double.
pub const RETRY_BACKOFF_MS: u64 = 100;

/// Seconds the drain waits before dropping what remains.
pub const SHUTDOWN_TIMEOUT_SEC: u64 = 30;

/// Per-connection record of the registry.
pub struct ConnectionState {
    pub id: u64,
    /// Milliseconds-since-epoch of establishment.
    pub established_at: u64,
    /// Milliseconds-since-epoch of the last forward.
    pub last_activity: u64,
    pub retry_count: u32,
    pub is_closing: bool,
}

impl ConnectionState {
    /// A fresh record stamped with the current instant.
    pub fn new(id: u64) -> (s: Self)
        ensures
            s.id == id,
            s.retry_count == 0,
            !s.is_closing,
            s.established_at == s.last_activity,
    {
        let now = now_millis();
        ConnectionState {
            id,
            established_at: now,
            last_activity: now,
            retry_count: 0,
            is_closing: false,
        }
    }

    /// Stamps the record with the current instant.
    pub fn mark_activity(&mut self)
        ensures
            final(self).id == old(self).id,
            final(self).retry_count == old(self).retry_count,
            final(self).is_closing == old(self).is_closing,
            final(self).established_at == old(self).established_at,
    {
        self.last_activity = now_millis();
    }

    /// Whether the record sat idle for longer than the timeout at the
    /// given instant, both in milliseconds.
    pub fn is_idle_at(&self, timeout_ms: u64, now: u64) -> (r: bool)
        ensures
            r == (now > self.last_activity + timeout_ms),
    {
        self.last_activity < now && now - self.last_activity > timeout_ms
    }

    /// Whether the record sat idle for longer than the timeout, in
    /// milliseconds, against the clock.
    pub fn is_idle(&self, timeout_ms: u64) -> (r: bool)
        ensures
            exists|now: u64| r == #[trigger] spec_idle_at(self.last_activity, timeout_ms, now),
    {
        let now = now_millis();
        let r = self.is_idle_at(timeout_ms, now);
        proof {
            assert(r == spec_idle_at(self.last_activity, timeout_ms, now));
        }
        r
    }

    /// Whether another attempt is allowed: under the cap and not closing.
    pub fn should_retry(&self) -> (r: bool)
        ensures
            r == (self.retry_count < MAX_RETRIES && !self.is_closing),
    {
        self.retry_count < MAX_RETRIES && !self.is_closing
    }

    /// Counts one attempt.
    pub fn increment_retry(&mut self)
        ensures
            final(self).retry_count == (if old(self).retry_count < u32::MAX {
                old(self).retry_count + 1
            } else {
                u32::MAX as int
            }),
            final(self).id == old(self).id,
            final(self).is_closing == old(self).is_closing,
            final(self).last_activity == old(self).last_activity,
            final(self).established_at == old(self).established_at,
    {
        if self.retry_count < u32::MAX {
            self.retry_count = self.retry_count + 1;
        }
    }
}

/// One record restamped to the given instant.
pub open spec fn stamped(c: ConnectionState, now: u64) -> ConnectionState {
    ConnectionState {
        id: c.id,
        established_at: c.established_at,
        last_activity: now,
        retry_count: c.retry_count,
        is_closing: c.is_closing,
    }
}

/// The registry records after stamping the first record of an id with the
/// given instant; without such a record nothing changes.
pub open spec fn spec_marked(es: Seq<ConnectionState>, id: u64, now: u64) -> Seq<ConnectionState> {
    if conn_idx(es, id) < es.len() {
        es.update(conn_idx(es, id), stamped(es[conn_idx(es, id)], now))
    } else {
        es
    }
}

/// Whether an activity stamp sits idle past a timeout at an instant.
pub open spec fn spec_idle_at(last: u64, timeout_ms: u64, now: u64) -> bool {
    now > last + timeout_ms
}

/// Index of the first record with an id, or the length when absent.
pub open spec fn conn_idx(es: Seq<ConnectionState>, id: u64) -> int
    decreases es.len(),
{
    if es.len() == 0 {
        0
    } else if es[0].id == id {
        0
    } else {
        1 + conn_idx(es.drop_first(), id)
    }
}

pub proof fn lemma_conn_idx_of_prefix(es: Seq<ConnectionState>, id: u64, i: int)
    requires
        0 <= i <= es.len(),
        forall|j: int| 0 <= j < i ==> (#[trigger] es[j]).id != id,
    ensures
        i < es.len() && es[i].id == id ==> conn_idx(es, id) == i,
        i == es.len() ==> conn_idx(es, id) == es.len(),
    decreases es.len(),
{
    if es.len() > 0 && i > 0 {
        assert(forall|j: int|
            0 <= j < i - 1 ==> es.drop_first()[j] == es[j + 1] && (#[trigger] es.drop_first()[j]).id
                != id);
        lemma_conn_idx_of_prefix(es.drop_first(), id, i - 1);
    }
}

/// The registry of live connections and the shutdown flag every relay
/// loop watches.
pub struct GracefulShutdown {
    pub connections: Vec<ConnectionState>,
    pub shutting_down: bool,
}

impl GracefulShutdown {
    /// The record for an id.
    pub open spec fn spec_conn(&self, id: u64) -> Option<ConnectionState> {
        if conn_idx(self.connections@, id) < self.connections@.len() {
            Some(self.connections@[conn_idx(self.connections@, id)])
        } else {
            None
        }
    }

    /// An empty registry, not shutting down.
    pub fn new() -> (g: Self)
        ensures
            g.connections@.len() == 0,
            !g.shutting_down,
    {
        GracefulShutdown { connections: Vec::new(), shutting_down: false }
    }

    /// Adds a record for a new connection.
    pub fn register_connection(&mut self, id: u64)
        ensures
            final(self).connections@.len() == old(self).connections@.len() + 1,
            final(self).connections@.last().id == id,
            final(self).connections@.take(old(self).connections@.len() as int) == old(self).connections@,
            final(self).shutting_down == old(self).shutting_down,
    {
        let st = ConnectionState::new(id);
        self.connections.push(st);
        proof {
            assert(self.connections@.take(old(self).connections@.len() as int) =~= old(self).connections@);
        }
    }

    /// Drops exactly the records with the id, keeping the rest in order.
    pub fn unregister_connection(&mut self, id: u64)
        ensures
            final(self).connections@ == old(self).connections@.filter(
                |c: ConnectionState| c.id != id,
            ),
            final(self).spec_conn(id) is None,
            final(self).shutting_down == old(self).shutting_down,
    {
        let ghost full = self.connections@;
        let ghost pred = |c: ConnectionState| c.id != id;
        let mut kept: Vec<ConnectionState> = Vec::new();
        proof {
            reveal(Seq::filter);
            assert(full.take(0) =~= Seq::<ConnectionState>::empty());
            assert(full.skip(0) =~= full);
            assert(kept@ =~= full.take(0).filter(pred));
        }
        while self.connections.len() > 0
            invariant
                full == old(self).connections@,
                self.connections@.len() <= full.len(),
                self.connections@ == full.skip(full.len() - self.connections@.len()),
                kept@ == full.take(full.len() - self.connections@.len()).filter(pred),
                pred == (|c: ConnectionState| c.id != id),
                forall|j: int| 0 <= j < kept@.len() ==> (#[trigger] kept@[j]).id != id,
                self.shutting_down == old(self).shutting_down,
            decreases self.connections@.len(),
        {
            let ghost pre = self.connections@;
            let ghost done = full.len() - pre.len();
            let e = self.connections.remove(0);
            proof {
                reveal(Seq::filter);
                assert(pre[0] == full.skip(done)[0]);
                assert(e == full[done]);
                assert(self.connections@ =~= full.skip(done + 1));
                assert(full.take(done + 1).drop_last() =~= full.take(done));
                assert(full.take(done + 1).last() == full[done]);
            }
            if !(e.id == id) {
                kept.push(e);
                proof {
                    assert(kept@ == full.take(done + 1).filter(pred));
                }
            } else {
                proof {
                    assert(kept@ == full.take(done + 1).filter(pred));
                }
            }
        }
        proof {
            assert(full.take(full.len() as int) =~= full);
        }
        self.connections = kept;
        proof {
            lemma_conn_idx_of_prefix(self.connections@, id, self.connections@.len() as int);
        }
    }

    /// Stamps the first record of an id with the given instant; other
    /// records and fields stay as they were.
    pub fn mark_activity_at(&mut self, id: u64, now: u64)
        ensures
            final(self).connections@ == spec_marked(old(self).connections@, id, now),
            final(self).shutting_down == old(self).shutting_down,
    {
        let n = self.connections.len();
        let mut i: usize = 0;
        while i < n
            invariant
                n == self.connections@.len(),
                i <= n,
                forall|j: int| 0 <= j < i ==> (#[trigger] self.connections@[j]).id != id,
                *self == *old(self),
            decreases n - i,
        {
            if self.connections[i].id == id {
                proof {
                    lemma_conn_idx_of_prefix(self.connections@, id, i as int);
                }
                let mut st = self.connections.remove(i);
                st.last_activity = now;
                self.connections.insert(i, st);
                proof {
                    old(self).connections@.remove_ensures(i as int);
                    old(self).connections@.remove(i as int).insert_ensures(i as int, st);
                    assert(st == stamped(old(self).connections@[i as int], now));
                    assert(self.connections@ =~= spec_marked(old(self).connections@, id, now));
                }
                return ;
            }
            i = i + 1;
        }
        proof {
            lemma_conn_idx_of_prefix(self.connections@, id, n as int);
        }
    }

    /// Stamps the first record of an id with the current instant.
    pub fn mark_activity(&mut self, id: u64)
        ensures
            exists|now: u64| final(self).connections@ == #[trigger] spec_marked(
                old(self).connections@,
                id,
                now,
            ),
            final(self).shutting_down == old(self).shutting_down,
    {
        let now = now_millis();
        self.mark_activity_at(id, now);
    }

    /// Raises the shutdown flag; relay loops exit at their next turn.
    pub fn initiate_shutdown(&mut self)
        ensures
            final(self).shutting_down,
            final(self).connections == old(self).connections,
    {
        self.shutting_down = true;
    }

    /// Whether shutdown was initiated.
    pub fn is_shutting_down(&self) -> (r: bool)
        ensures
            r == self.shutting_down,
    {
        self.shutting_down
    }

    /// Marks every record as closing: the first step of the drain.
    pub fn begin_drain(&mut self)
        ensures
            final(self).connections@.len() == old(self).connections@.len(),
            forall|j: int|
                0 <= j < final(self).connections@.len() ==> (#[trigger] final(self).connections@[j]).is_closing,
            final(self).shutting_down == old(self).shutting_down,
    {
        let ghost full = self.connections@;
        let mut done: Vec<ConnectionState> = Vec::new();
        while self.connections.len() > 0
            invariant
                done@.len() + self.connections@.len() == full.len(),
                forall|j: int| 0 <= j < done@.len() ==> (#[trigger] done@[j]).is_closing,
                self.shutting_down == old(self).shutting_down,
            decreases self.connections@.len(),
        {
            let mut e = self.connections.remove(0);
            e.is_closing = true;
            done.push(e);
        }
        self.connections = done;
    }

    /// Ends the drain by force: whatever remains is dropped, and the
    /// registry is empty afterwards.
    pub fn finish_drain(&mut self)
        ensures
            final(self).connections@.len() == 0,
            final(self).shutting_down == old(self).shutting_down,
    {
        self.connections = Vec::new();
    }

    /// Drops records idle past the timeout at the given instant, keeping
    /// those mid-close; what stays was active or closing.
    pub fn cleanup_idle_connections_at(&mut self, idle_timeout_ms: u64, now: u64)
        ensures
            forall|j: int|
                0 <= j < final(self).connections@.len() ==> !(now > (#[trigger] final(self).connections@[j]).last_activity + idle_timeout_ms) || final(self).connections@[j].is_closing,
            final(self).shutting_down == old(self).shutting_down,
    {
        let mut kept: Vec<ConnectionState> = Vec::new();
        while self.connections.len() > 0
            invariant
                forall|j: int|
                    0 <= j < kept@.len() ==> !(now > (#[trigger] kept@[j]).last_activity
                        + idle_timeout_ms) || kept@[j].is_closing,
                self.shutting_down == old(self).shutting_down,
            decreases self.connections@.len(),
        {
            let e = self.connections.remove(0);
            let idle = e.is_idle_at(idle_timeout_ms, now);
            if !idle || e.is_closing {
                kept.push(e);
            }
        }
        self.connections = kept;
    }

    /// Drops records idle past the timeout, against the clock.
    pub fn cleanup_idle_connections(&mut self, idle_timeout_ms: u64)
        ensures
            final(self).shutting_down == old(self).shutting_down,
    {
        let now = now_millis();
        self.cleanup_idle_connections_at(idle_timeout_ms, now);
    }

    /// How many connections are registered.
    pub fn get_active_connections(&self) -> (r: usize)
        ensures
            r == self.connections@.len(),
    {
        self.connections.len()
    }
}

/// After the drain finishes, nothing is registered.
pub proof fn lemma_drain_empties(g: GracefulShutdown)
    requires
        g.connections@.len() == 0,
    ensures
        forall|id: u64| #[trigger] g.spec_conn(id) is None,
{
    assert forall|id: u64| #[trigger] g.spec_conn(id) is None by {
        assert(conn_idx(g.connections@, id) == 0);
    }
}

// ---------------------------------------------------------------------------
// Retry with backoff.
// ---------------------------------------------------------------------------

/// The bounded-retry policy: up to the attempt cap, doubling pauses
/// between attempts.
pub struct ConnectionRecovery {
    pub max_retries: u32,
    pub backoff_ms: u64,
}

/// What the retry driver does next after a failed attempt.
#[derive(Clone, Copy, Debug, PartialEq, Eq, Structural)]
pub enum RetryStep {
    /// Sleep this many milliseconds, then attempt again.
    SleepThenRetry(u64),
    /// Hand the last error out.
    GiveUp,
}

impl ConnectionRecovery {
    /// The default policy: three attempts, pauses of one then two base
    /// intervals.
    pub fn new() -> (r: Self)
        ensures
            r.max_retries == MAX_RETRIES,
            r.backoff_ms == RETRY_BACKOFF_MS,
    {
        ConnectionRecovery { max_retries: MAX_RETRIES, backoff_ms: RETRY_BACKOFF_MS }
    }

    /// The pause before the attempt after the given zero-based failed
    /// one: the base doubled that many times, saturating.
    pub fn backoff_delay_ms(&self, attempt: u32) -> (r: u64)
        ensures
            r == spec_backoff(self.backoff_ms, attempt as nat),
    {
        let mut r: u64 = self.backoff_ms;
        let mut k: u32 = 0;
        while k < attempt
            invariant
                k <= attempt,
                r == spec_backoff(self.backoff_ms, k as nat),
            decreases attempt - k,
        {
            if r <= u64::MAX / 2 {
                r = r * 2;
            } else {
                r = u64::MAX;
            }
            k = k + 1;
        }
        r
    }

    /// What the driver does after the given zero-based attempt failed:
    /// sleep and retry while attempts remain, else give up. An operation
    /// that always fails thus runs exactly the attempt cap of times, with
    /// the doubling pauses between them.
    pub fn next_step(&self, failed_attempt: u32) -> (r: RetryStep)
        ensures
            failed_attempt + 1 < self.max_retries ==> r == RetryStep::SleepThenRetry(
                spec_backoff(self.backoff_ms, failed_attempt as nat),
            ),
            failed_attempt + 1 >= self.max_retries ==> r == RetryStep::GiveUp,
    {
        if failed_attempt < u32::MAX && failed_attempt + 1 < self.max_retries {
            RetryStep::SleepThenRetry(self.backoff_delay_ms(failed_attempt))
        } else {
            RetryStep::GiveUp
        }
    }
}

/// The base interval doubled the given number of times, saturating.
pub open spec fn spec_backoff(base: u64, attempt: nat) -> u64
    decreases attempt,
{
    if attempt == 0 {
        base
    } else {
        let p = spec_backoff(base, (attempt - 1) as nat);
        if p <= u64::MAX / 2 {
            (p * 2) as u64
        } else {
            u64::MAX
        }
    }
}

} // verus!
