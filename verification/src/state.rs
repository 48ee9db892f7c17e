//! Shared state records: TCP sequence snapshots, cookie-carrying sessions,
//! and the connection bookkeeping the cleaner sweeps.

use vstd::prelude::*;

use crate::clock::now_secs;
use crate::util::{skey_get, str_eq};

verus! {

/// Seconds a session may sit unused.
pub const SESSION_MAX_AGE: u64 = 3600;

/// Seconds a connection may sit inactive.
pub const CONNECTION_IDLE_SEC: u64 = 300;

/// A TCP sequence/ack/window snapshot.
pub struct TcpState {
    pub seq: u32,
    pub ack: u32,
    pub window: u16,
    pub timestamp: u64,
}

impl TcpState {
    /// A snapshot stamped with the current second.
    pub fn new(seq: u32, ack: u32, window: u16) -> (s: Self)
        ensures
            s.seq == seq,
            s.ack == ack,
            s.window == window,
    {
        let timestamp = now_secs();
        TcpState { seq, ack, window, timestamp }
    }

    /// Replaces the snapshot and refreshes the stamp.
    pub fn update(&mut self, seq: u32, ack: u32, window: u16)
        ensures
            final(self).seq == seq,
            final(self).ack == ack,
            final(self).window == window,
    {
        self.seq = seq;
        self.ack = ack;
        self.window = window;
        self.timestamp = now_secs();
    }
}

/// The cookies a session accumulated, keyed by domain.
pub struct SessionState {
    pub session_id: String,
    pub cookies: Vec<(String, Vec<String>)>,
    pub created_at: u64,
    pub last_used: u64,
}

impl SessionState {
    /// A fresh session stamped with the current second.
    pub fn new(session_id: String) -> (s: Self)
        ensures
            s.session_id == session_id,
            s.cookies@.len() == 0,
            s.created_at == s.last_used,
    {
        let now = now_secs();
        SessionState { session_id, cookies: Vec::new(), created_at: now, last_used: now }
    }

    /// Appends a cookie under a domain, creating the domain's list on its
    /// first cookie.
    pub fn add_cookie(&mut self, domain: String, cookie: String)
        ensures
            final(self).session_id == old(self).session_id,
            final(self).created_at == old(self).created_at,
    {
        let n = self.cookies.len();
        let mut i: usize = 0;
        while i < n
            invariant
                n == self.cookies@.len(),
                i <= n,
                *self == *old(self),
            decreases n - i,
        {
            if str_eq(self.cookies[i].0.as_str(), domain.as_str()) {
                let mut pair = self.cookies.remove(i);
                pair.1.push(cookie);
                self.cookies.insert(i, pair);
                self.update_last_used();
                return ;
            }
            i = i + 1;
        }
        let mut list: Vec<String> = Vec::new();
        list.push(cookie);
        self.cookies.push((domain, list));
        self.update_last_used();
    }

    /// The cookies stored under a domain, in insertion order.
    pub fn get_cookies(&self, domain: &str) -> (r: Vec<String>)
        ensures
            match skey_get(self.cookies@, domain@) {
                Some(list) => r@.len() == list@.len() && (forall|j: int|
                    0 <= j < r@.len() ==> (#[trigger] r@[j])@ == list@[j]@),
                None => r@.len() == 0,
            },
    {
        let n = self.cookies.len();
        let mut i: usize = 0;
        while i < n
            invariant
                n == self.cookies@.len(),
                i <= n,
                forall|j: int| 0 <= j < i ==> (#[trigger] self.cookies@[j]).0@ != domain@,
            decreases n - i,
        {
            if str_eq(self.cookies[i].0.as_str(), domain) {
                proof {
                    crate::util::lemma_skey_idx_of_prefix(self.cookies@, domain@, i as int);
                }
                let src = &self.cookies[i].1;
                let mut out: Vec<String> = Vec::new();
                let mut k: usize = 0;
                while k < src.len()
                    invariant
                        k <= src@.len(),
                        out@.len() == k,
                        forall|j: int| 0 <= j < k ==> (#[trigger] out@[j])@ == src@[j]@,
                    decreases src@.len() - k,
                {
                    out.push(src[k].clone());
                    k = k + 1;
                }
                return out;
            }
            i = i + 1;
        }
        proof {
            crate::util::lemma_skey_idx_of_prefix(self.cookies@, domain@, n as int);
        }
        Vec::new()
    }

    /// Refreshes the last-used stamp.
    pub fn update_last_used(&mut self)
        ensures
            final(self).session_id == old(self).session_id,
            final(self).cookies == old(self).cookies,
            final(self).created_at == old(self).created_at,
    {
        self.last_used = now_secs();
    }

    /// Whether the session sat unused past the age at the given second.
    pub fn is_expired_at(&self, max_age: u64, now: u64) -> (r: bool)
        ensures
            r == (now > self.last_used + max_age),
    {
        self.last_used < now && now - self.last_used > max_age
    }

    /// Whether the session sat unused past the age, against the clock.
    pub fn is_expired(&self, max_age: u64) -> (r: bool)
        ensures
            exists|now: u64| r == #[trigger] crate::graceful::spec_idle_at(
                self.last_used,
                max_age,
                now,
            ),
    {
        let now = now_secs();
        let r = self.is_expired_at(max_age, now);
        proof {
            assert(r == crate::graceful::spec_idle_at(self.last_used, max_age, now));
        }
        r
    }
}

/// TCP snapshots, sessions and loose cookies, keyed by strings.
pub struct StateManager {
    pub tcp_states: Vec<(String, TcpState)>,
    pub sessions: Vec<(String, SessionState)>,
    pub cookies: Vec<(String, Vec<String>)>,
}

impl StateManager {
    /// An empty manager.
    pub fn new() -> (m: Self)
        ensures
            m.tcp_states@.len() == 0,
            m.sessions@.len() == 0,
            m.cookies@.len() == 0,
    {
        StateManager { tcp_states: Vec::new(), sessions: Vec::new(), cookies: Vec::new() }
    }

    /// Stores a snapshot under a connection key, replacing any earlier one.
    pub fn store_tcp_state(&mut self, conn_id: String, state: TcpState)
        ensures
            skey_get(final(self).tcp_states@, conn_id@) matches Some(st) && st.seq == state.seq
                && st.ack == state.ack && st.window == state.window,
    {
        let n = self.tcp_states.len();
        let mut i: usize = 0;
        while i < n
            invariant
                n == self.tcp_states@.len(),
                i <= n,
                forall|j: int| 0 <= j < i ==> (#[trigger] self.tcp_states@[j]).0@ != conn_id@,
                *self == *old(self),
            decreases n - i,
        {
            if str_eq(self.tcp_states[i].0.as_str(), conn_id.as_str()) {
                let _gone = self.tcp_states.remove(i);
                self.tcp_states.insert(i, (conn_id, state));
                proof {
                    old(self).tcp_states@.remove_ensures(i as int);
                    old(self).tcp_states@.remove(i as int).insert_ensures(
                        i as int,
                        self.tcp_states@[i as int],
                    );
                    assert(forall|j: int|
                        0 <= j < i ==> (#[trigger] self.tcp_states@[j]) == old(self).tcp_states@[j]);
                    crate::util::lemma_skey_idx_of_prefix(self.tcp_states@, conn_id@, i as int);
                }
                return ;
            }
            i = i + 1;
        }
        self.tcp_states.push((conn_id, state));
        proof {
            assert(forall|j: int|
                0 <= j < n ==> (#[trigger] self.tcp_states@[j]) == old(self).tcp_states@[j]);
            crate::util::lemma_skey_idx_of_prefix(
                self.tcp_states@,
                self.tcp_states@[n as int].0@,
                n as int,
            );
        }
    }

    /// The snapshot stored under a connection key.
    pub fn get_tcp_state(&self, conn_id: &str) -> (r: Option<TcpState>)
        ensures
            match skey_get(self.tcp_states@, conn_id@) {
                Some(st) => r matches Some(got) && got.seq == st.seq && got.ack == st.ack
                    && got.window == st.window,
                None => r is None,
            },
    {
        let n = self.tcp_states.len();
        let mut i: usize = 0;
        while i < n
            invariant
                n == self.tcp_states@.len(),
                i <= n,
                forall|j: int| 0 <= j < i ==> (#[trigger] self.tcp_states@[j]).0@ != conn_id@,
            decreases n - i,
        {
            if str_eq(self.tcp_states[i].0.as_str(), conn_id) {
                proof {
                    crate::util::lemma_skey_idx_of_prefix(self.tcp_states@, conn_id@, i as int);
                }
                let st = &self.tcp_states[i].1;
                return Some(
                    TcpState {
                        seq: st.seq,
                        ack: st.ack,
                        window: st.window,
                        timestamp: st.timestamp,
                    },
                );
            }
            i = i + 1;
        }
        proof {
            crate::util::lemma_skey_idx_of_prefix(self.tcp_states@, conn_id@, n as int);
        }
        None
    }

    /// Updates the snapshot stored under a connection key, if one exists.
    pub fn update_tcp_state(&mut self, conn_id: &str, seq: u32, ack: u32, window: u16)
        ensures
            final(self).sessions == old(self).sessions,
            final(self).cookies == old(self).cookies,
    {
        let n = self.tcp_states.len();
        let mut i: usize = 0;
        while i < n
            invariant
                n == self.tcp_states@.len(),
                i <= n,
                *self == *old(self),
            decreases n - i,
        {
            if str_eq(self.tcp_states[i].0.as_str(), conn_id) {
                let mut pair = self.tcp_states.remove(i);
                pair.1.update(seq, ack, window);
                self.tcp_states.insert(i, pair);
                return ;
            }
            i = i + 1;
        }
    }

    /// Creates and stores a fresh session.
    pub fn create_session(&mut self, session_id: String) -> (r: SessionState)
        ensures
            r.session_id@ == session_id@,
            r.cookies@.len() == 0,
    {
        let session = SessionState::new(session_id.clone());
        let copy = SessionState {
            session_id: session.session_id.clone(),
            cookies: Vec::new(),
            created_at: session.created_at,
            last_used: session.last_used,
        };
        self.sessions.push((session_id, session));
        copy
    }

    /// The session stored under an id, refreshed on the way out.
    pub fn get_session(&mut self, session_id: &str) -> (r: Option<SessionState>)
        ensures
            final(self).tcp_states == old(self).tcp_states,
            final(self).cookies == old(self).cookies,
            r matches Some(found) ==> found.session_id@ == session_id@,
    {
        let n = self.sessions.len();
        let mut i: usize = 0;
        while i < n
            invariant
                n == self.sessions@.len(),
                i <= n,
                *self == *old(self),
            decreases n - i,
        {
            if str_eq(self.sessions[i].0.as_str(), session_id) {
                let mut pair = self.sessions.remove(i);
                pair.1.update_last_used();
                let sid_matches = str_eq(pair.1.session_id.as_str(), session_id);
                let mut cookie_copy: Vec<(String, Vec<String>)> = Vec::new();
                let mut k: usize = 0;
                while k < pair.1.cookies.len()
                    invariant
                        k <= pair.1.cookies@.len(),
                    decreases pair.1.cookies@.len() - k,
                {
                    let mut list: Vec<String> = Vec::new();
                    let src = &pair.1.cookies[k].1;
                    let mut m: usize = 0;
                    while m < src.len()
                        invariant
                            m <= src@.len(),
                        decreases src@.len() - m,
                    {
                        list.push(src[m].clone());
                        m = m + 1;
                    }
                    cookie_copy.push((pair.1.cookies[k].0.clone(), list));
                    k = k + 1;
                }
                let copy = SessionState {
                    session_id: pair.1.session_id.clone(),
                    cookies: cookie_copy,
                    created_at: pair.1.created_at,
                    last_used: pair.1.last_used,
                };
                self.sessions.insert(i, pair);
                if sid_matches {
                    return Some(copy);
                } else {
                    return None;
                }
            }
            i = i + 1;
        }
        None
    }

    /// Appends a cookie to a stored session under a domain.
    pub fn add_session_cookie(&mut self, session_id: &str, domain: String, cookie: String)
        ensures
            final(self).tcp_states == old(self).tcp_states,
            final(self).cookies == old(self).cookies,
    {
        let n = self.sessions.len();
        let mut i: usize = 0;
        while i < n
            invariant
                n == self.sessions@.len(),
                i <= n,
                *self == *old(self),
            decreases n - i,
        {
            if str_eq(self.sessions[i].0.as_str(), session_id) {
                let mut pair = self.sessions.remove(i);
                pair.1.add_cookie(domain, cookie);
                self.sessions.insert(i, pair);
                return ;
            }
            i = i + 1;
        }
    }

    /// Stores a loose cookie under a domain.
    pub fn store_cookie(&mut self, domain: String, cookie: String)
        ensures
            final(self).tcp_states == old(self).tcp_states,
            final(self).sessions == old(self).sessions,
    {
        let n = self.cookies.len();
        let mut i: usize = 0;
        while i < n
            invariant
                n == self.cookies@.len(),
                i <= n,
                *self == *old(self),
            decreases n - i,
        {
            if str_eq(self.cookies[i].0.as_str(), domain.as_str()) {
                let mut pair = self.cookies.remove(i);
                pair.1.push(cookie);
                self.cookies.insert(i, pair);
                return ;
            }
            i = i + 1;
        }
        let mut list: Vec<String> = Vec::new();
        list.push(cookie);
        self.cookies.push((domain, list));
    }

    /// The loose cookies stored under a domain that parse as cookies with
    /// a non-empty name.
    pub fn get_cookies(&self, domain: &str) -> (r: Vec<String>)
    {
        let n = self.cookies.len();
        let mut i: usize = 0;
        while i < n
            invariant
                n == self.cookies@.len(),
                i <= n,
            decreases n - i,
        {
            if str_eq(self.cookies[i].0.as_str(), domain) {
                let src = &self.cookies[i].1;
                let mut out: Vec<String> = Vec::new();
                let mut k: usize = 0;
                while k < src.len()
                    invariant
                        k <= src@.len(),
                    decreases src@.len() - k,
                {
                    if cookie_has_name(src[k].as_str()) {
                        out.push(src[k].clone());
                    }
                    k = k + 1;
                }
                return out;
            }
            i = i + 1;
        }
        Vec::new()
    }
}

/// Relies on cookie::Cookie::parse: whether a fragment parses as a cookie
/// whose name is non-empty; a function of the fragment alone.
#[verifier::external_body]
fn cookie_has_name(s: &str) -> (r: bool)
    ensures
        r == spec_cookie_has_name(s@),
{
    match cookie::Cookie::parse(s) {
        Ok(c) => !c.name().is_empty(),
        Err(_) => false,
    }
}

/// Whether the cookie crate parses a fragment to a non-empty name.
pub uninterp spec fn spec_cookie_has_name(s: Seq<char>) -> bool;

/// Connection bookkeeping: monotonically assigned 64-bit ids.
pub struct ConnectionInfo {
    pub id: u64,
    pub created_at: u64,
    pub last_activity: u64,
    pub bytes_sent: u64,
    pub bytes_received: u64,
}

impl ConnectionInfo {
    /// A record stamped with the current second.
    pub fn new(id: u64) -> (r: Self)
        ensures
            r.id == id,
            r.bytes_sent == 0,
            r.bytes_received == 0,
            r.created_at == r.last_activity,
    {
        let now = now_secs();
        ConnectionInfo { id, created_at: now, last_activity: now, bytes_sent: 0, bytes_received: 0 }
    }

    /// Refreshes the activity stamp.
    pub fn update_activity(&mut self)
        ensures
            final(self).id == old(self).id,
            final(self).created_at == old(self).created_at,
            final(self).bytes_sent == old(self).bytes_sent,
            final(self).bytes_received == old(self).bytes_received,
    {
        self.last_activity = now_secs();
    }
}

/// Index of the first record with an id, or the length when absent.
pub open spec fn info_idx(es: Seq<ConnectionInfo>, id: u64) -> int
    decreases es.len(),
{
    if es.len() == 0 {
        0
    } else if es[0].id == id {
        0
    } else {
        1 + info_idx(es.drop_first(), id)
    }
}

pub proof fn lemma_info_idx_of_prefix(es: Seq<ConnectionInfo>, id: u64, i: int)
    requires
        0 <= i <= es.len(),
        forall|j: int| 0 <= j < i ==> (#[trigger] es[j]).id != id,
    ensures
        i < es.len() && es[i].id == id ==> info_idx(es, id) == i,
        i == es.len() ==> info_idx(es, id) == es.len(),
    decreases es.len(),
{
    if es.len() > 0 && i > 0 {
        assert(forall|j: int|
            0 <= j < i - 1 ==> es.drop_first()[j] == es[j + 1] && (#[trigger] es.drop_first()[j]).id
                != id);
        lemma_info_idx_of_prefix(es.drop_first(), id, i - 1);
    }
}

/// One record restamped to the given second.
pub open spec fn info_stamped(c: ConnectionInfo, now: u64) -> ConnectionInfo {
    ConnectionInfo {
        id: c.id,
        created_at: c.created_at,
        last_activity: now,
        bytes_sent: c.bytes_sent,
        bytes_received: c.bytes_received,
    }
}

/// The records after stamping the first record of an id with the given
/// second; without such a record nothing changes.
pub open spec fn infos_marked(es: Seq<ConnectionInfo>, id: u64, now: u64) -> Seq<ConnectionInfo> {
    if info_idx(es, id) < es.len() {
        es.update(info_idx(es, id), info_stamped(es[info_idx(es, id)], now))
    } else {
        es
    }
}

/// Hands out ids and keeps one record per live connection.
pub struct ConnectionStateManager {
    pub connections: Vec<ConnectionInfo>,
    pub next_id: u64,
}

impl ConnectionStateManager {
    /// An empty manager; the first id handed out is one.
    pub fn new() -> (m: Self)
        ensures
            m.connections@.len() == 0,
            m.next_id == 1,
    {
        ConnectionStateManager { connections: Vec::new(), next_id: 1 }
    }

    /// Registers a new connection under the next id.
    pub fn create_connection(&mut self) -> (id: u64)
        requires
            old(self).next_id < u64::MAX,
        ensures
            id == old(self).next_id,
            final(self).next_id == old(self).next_id + 1,
            final(self).connections@.len() == old(self).connections@.len() + 1,
            final(self).connections@.last().id == id,
    {
        let id = self.next_id;
        self.next_id = self.next_id + 1;
        let info = ConnectionInfo::new(id);
        self.connections.push(info);
        id
    }

    /// Drops exactly the records with the id, keeping the rest in order.
    pub fn remove_connection(&mut self, id: u64)
        ensures
            final(self).connections@ == old(self).connections@.filter(
                |c: ConnectionInfo| c.id != id,
            ),
            final(self).next_id == old(self).next_id,
    {
        let ghost full = self.connections@;
        let ghost pred = |c: ConnectionInfo| c.id != id;
        let mut kept: Vec<ConnectionInfo> = Vec::new();
        proof {
            reveal(Seq::filter);
            assert(full.take(0) =~= Seq::<ConnectionInfo>::empty());
            assert(full.skip(0) =~= full);
            assert(kept@ =~= full.take(0).filter(pred));
        }
        while self.connections.len() > 0
            invariant
                full == old(self).connections@,
                self.connections@.len() <= full.len(),
                self.connections@ == full.skip(full.len() - self.connections@.len()),
                kept@ == full.take(full.len() - self.connections@.len()).filter(pred),
                pred == (|c: ConnectionInfo| c.id != id),
                self.next_id == old(self).next_id,
            decreases self.connections@.len(),
        {
            let ghost pre = self.connections@;
            let ghost done = full.len() - pre.len();
            let e = self.connections.remove(0);
            proof {
                reveal(Seq::filter);
                assert(pre[0] == full.skip(done)[0]);
                assert(e == full[done]);
                assert(self.connections@ =~= full.skip(done + 1));
                assert(full.take(done + 1).drop_last() =~= full.take(done));
                assert(full.take(done + 1).last() == full[done]);
            }
            if !(e.id == id) {
                kept.push(e);
                proof {
                    assert(kept@ == full.take(done + 1).filter(pred));
                }
            } else {
                proof {
                    assert(kept@ == full.take(done + 1).filter(pred));
                }
            }
        }
        proof {
            assert(full.take(full.len() as int) =~= full);
        }
        self.connections = kept;
    }

    /// Stamps the first record of an id with the given second; other
    /// records and fields stay as they were.
    pub fn update_activity_at(&mut self, id: u64, now: u64)
        ensures
            final(self).connections@ == infos_marked(old(self).connections@, id, now),
            final(self).next_id == old(self).next_id,
    {
        let n = self.connections.len();
        let mut i: usize = 0;
        while i < n
            invariant
                n == self.connections@.len(),
                i <= n,
                forall|j: int| 0 <= j < i ==> (#[trigger] self.connections@[j]).id != id,
                *self == *old(self),
            decreases n - i,
        {
            if self.connections[i].id == id {
                proof {
                    lemma_info_idx_of_prefix(self.connections@, id, i as int);
                }
                let mut info = self.connections.remove(i);
                info.last_activity = now;
                self.connections.insert(i, info);
                proof {
                    old(self).connections@.remove_ensures(i as int);
                    old(self).connections@.remove(i as int).insert_ensures(i as int, info);
                    assert(info == info_stamped(old(self).connections@[i as int], now));
                    assert(self.connections@ =~= infos_marked(old(self).connections@, id, now));
                }
                return ;
            }
            i = i + 1;
        }
        proof {
            lemma_info_idx_of_prefix(self.connections@, id, n as int);
        }
    }

    /// Stamps the first record of an id with the current second.
    pub fn update_activity(&mut self, id: u64)
        ensures
            exists|now: u64| final(self).connections@ == #[trigger] infos_marked(
                old(self).connections@,
                id,
                now,
            ),
            final(self).next_id == old(self).next_id,
    {
        let now = now_secs();
        self.update_activity_at(id, now);
    }

    /// The record of a connection, if it is live.
    pub fn get_connection(&self, id: u64) -> (r: Option<ConnectionInfo>)
        ensures
            r matches Some(info) ==> info.id == id,
    {
        let n = self.connections.len();
        let mut i: usize = 0;
        while i < n
            invariant
                n == self.connections@.len(),
                i <= n,
            decreases n - i,
        {
            if self.connections[i].id == id {
                let c = &self.connections[i];
                return Some(
                    ConnectionInfo {
                        id: c.id,
                        created_at: c.created_at,
                        last_activity: c.last_activity,
                        bytes_sent: c.bytes_sent,
                        bytes_received: c.bytes_received,
                    },
                );
            }
            i = i + 1;
        }
        None
    }

    /// How many connections are live.
    pub fn get_active_count(&self) -> (r: usize)
        ensures
            r == self.connections@.len(),
    {
        self.connections.len()
    }

    /// Drops exactly the records inactive past the idle threshold at the
    /// given second, keeping the rest in order and untouched.
    pub fn cleanup_at(&mut self, now: u64)
        ensures
            final(self).connections@ == old(self).connections@.filter(
                |c: ConnectionInfo| !(now > c.last_activity + CONNECTION_IDLE_SEC),
            ),
            final(self).next_id == old(self).next_id,
    {
        let ghost full = self.connections@;
        let ghost pred = |c: ConnectionInfo| !(now > c.last_activity + CONNECTION_IDLE_SEC);
        let mut kept: Vec<ConnectionInfo> = Vec::new();
        proof {
            reveal(Seq::filter);
            assert(full.take(0) =~= Seq::<ConnectionInfo>::empty());
            assert(full.skip(0) =~= full);
            assert(kept@ =~= full.take(0).filter(pred));
        }
        while self.connections.len() > 0
            invariant
                full == old(self).connections@,
                self.connections@.len() <= full.len(),
                self.connections@ == full.skip(full.len() - self.connections@.len()),
                kept@ == full.take(full.len() - self.connections@.len()).filter(pred),
                pred == (|c: ConnectionInfo| !(now > c.last_activity + CONNECTION_IDLE_SEC)),
                self.next_id == old(self).next_id,
            decreases self.connections@.len(),
        {
            let ghost pre = self.connections@;
            let ghost done = full.len() - pre.len();
            let e = self.connections.remove(0);
            proof {
                reveal(Seq::filter);
                assert(pre[0] == full.skip(done)[0]);
                assert(e == full[done]);
                assert(self.connections@ =~= full.skip(done + 1));
                assert(full.take(done + 1).drop_last() =~= full.take(done));
                assert(full.take(done + 1).last() == full[done]);
            }
            let idle = e.last_activity < now && now - e.last_activity > CONNECTION_IDLE_SEC;
            if !idle {
                kept.push(e);
                proof {
                    assert(kept@ == full.take(done + 1).filter(pred));
                }
            } else {
                proof {
                    assert(kept@ == full.take(done + 1).filter(pred));
                }
            }
        }
        proof {
            assert(full.take(full.len() as int) =~= full);
        }
        self.connections = kept;
    }

    /// Drops records inactive past the idle threshold, against the clock.
    pub fn cleanup(&mut self)
        ensures
            final(self).next_id == old(self).next_id,
    {
        let now = now_secs();
        self.cleanup_at(now);
    }
}

} // verus!
