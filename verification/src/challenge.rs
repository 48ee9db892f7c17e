//! Anti-bot challenge detection and redirect-chain tracking: challenge
//! markers in responses, bounded redirect chains with loop detection, and
//! the challenge cookies retained per origin.

use vstd::prelude::*;

use crate::clock::now_secs;
use crate::util::{has_sub, skey_get, skey_idx, str_contains, str_eq};
use vstd::string::StringSliceAdditionalSpecFns;

verus! {

/// Longest redirect chain that may still be extended.
pub const MAX_REDIRECTS: u32 = 10;

/// Seconds a pending challenge or chain stays alive.
pub const CHALLENGE_TIMEOUT: u64 = 300;

/// Why a redirect was refused.
#[derive(Clone, Copy, Debug, PartialEq, Eq, Structural)]
pub enum RedirectError {
    /// The chain already holds the full number of redirects.
    TooManyRedirects,
    /// The target was already visited by this chain.
    RedirectLoop,
    /// No chain was started for the URL.
    NoChain,
}

/// One redirect hop.
pub struct RedirectEntry {
    pub from_url: String,
    pub to_url: String,
    pub status_code: u16,
    pub timestamp: u64,
}

/// The redirect history of one origin URL, with the cookies seen along it.
pub struct RedirectChain {
    pub original_url: String,
    pub redirects: Vec<RedirectEntry>,
    pub cookies: Vec<(String, String)>,
    pub timestamp: u64,
}

/// A cookie map after recording a name and value: the first entry of the
/// name is replaced in place, or the pair is appended when the name is new.
pub open spec fn cookies_upserted(
    cs: Seq<(String, String)>,
    name: String,
    value: String,
) -> Seq<(String, String)> {
    let i = skey_idx(cs, name@);
    if i < cs.len() {
        cs.update(i, (name, value))
    } else {
        cs.push((name, value))
    }
}

/// The target URLs of a chain, in order.
pub open spec fn to_projection(rs: Seq<RedirectEntry>) -> Seq<Seq<char>> {
    Seq::new(rs.len(), |i: int| rs[i].to_url@)
}

/// A chain within bounds: at most the redirect cap, and no target visited
/// twice.
pub open spec fn chain_ok(rs: Seq<RedirectEntry>) -> bool {
    &&& rs.len() <= MAX_REDIRECTS
    &&& forall|i: int, j: int|
        0 <= i < j < rs.len() ==> #[trigger] to_projection(rs)[i] != #[trigger] to_projection(
            rs,
        )[j]
}

impl RedirectChain {
    /// Whether the chain is older than the given age at the given second.
    pub open spec fn expired_at(&self, max_age: u64, now: u64) -> bool {
        now > self.timestamp + max_age
    }

    /// A fresh chain for an origin URL, stamped with the current second.
    pub fn new(original_url: String) -> (c: Self)
        ensures
            c.original_url == original_url,
            c.redirects@.len() == 0,
            c.cookies@.len() == 0,
    {
        let timestamp = now_secs();
        RedirectChain { original_url, redirects: Vec::new(), cookies: Vec::new(), timestamp }
    }

    /// Appends one hop, stamped with the current second.
    pub fn add_redirect(&mut self, from_url: String, to_url: String, status_code: u16)
        ensures
            final(self).redirects@.len() == old(self).redirects@.len() + 1,
            ({
                let e = final(self).redirects@.last();
                e.from_url == from_url && e.to_url == to_url && e.status_code == status_code
            }),
            final(self).redirects@.take(old(self).redirects@.len() as int) == old(self).redirects@,
            final(self).cookies == old(self).cookies,
            final(self).original_url == old(self).original_url,
            final(self).timestamp == old(self).timestamp,
    {
        let timestamp = now_secs();
        self.redirects.push(RedirectEntry { from_url, to_url, status_code, timestamp });
        proof {
            assert(self.redirects@.take(old(self).redirects@.len() as int) =~= old(self).redirects@);
        }
    }

    /// Records a cookie, the newest value for a name winning.
    pub fn add_cookie(&mut self, name: String, value: String)
        ensures
            final(self).cookies@ == cookies_upserted(old(self).cookies@, name, value),
            skey_get(final(self).cookies@, name@) == Some(value),
            forall|k2: Seq<char>|
                k2 != name@ ==> #[trigger] skey_get(final(self).cookies@, k2) == skey_get(
                    old(self).cookies@,
                    k2,
                ),
            final(self).redirects == old(self).redirects,
            final(self).original_url == old(self).original_url,
            final(self).timestamp == old(self).timestamp,
    {
        let n = self.cookies.len();
        let mut i: usize = 0;
        while i < n
            invariant
                n == self.cookies@.len(),
                i <= n,
                forall|j: int| 0 <= j < i ==> (#[trigger] self.cookies@[j]).0@ != name@,
                *self == *old(self),
            decreases n - i,
        {
            if str_eq(self.cookies[i].0.as_str(), name.as_str()) {
                let _gone = self.cookies.remove(i);
                self.cookies.insert(i, (name, value));
                proof {
                    old(self).cookies@.remove_ensures(i as int);
                    old(self).cookies@.remove(i as int).insert_ensures(
                        i as int,
                        self.cookies@[i as int],
                    );
                    assert(self.cookies@ =~= old(self).cookies@.update(
                        i as int,
                        self.cookies@[i as int],
                    ));
                    assert(forall|j: int|
                        0 <= j < i ==> (#[trigger] self.cookies@[j]) == old(self).cookies@[j]);
                    crate::util::lemma_skey_idx_of_prefix(self.cookies@, old(self).cookies@[i as int].0@, i as int);
                    crate::util::lemma_skey_upsert_others(
                        old(self).cookies@,
                        self.cookies@,
                        old(self).cookies@[i as int].0@,
                        i as int,
                    );
                    crate::util::lemma_skey_idx_of_prefix(old(self).cookies@, name@, i as int);
                    assert(self.cookies@ =~= cookies_upserted(old(self).cookies@, name, value));
                }
                return ;
            }
            i = i + 1;
        }
        self.cookies.push((name, value));
        proof {
            assert(forall|j: int|
                0 <= j < n ==> (#[trigger] self.cookies@[j]) == old(self).cookies@[j]);
            crate::util::lemma_skey_idx_of_prefix(self.cookies@, self.cookies@[n as int].0@, n as int);
            crate::util::lemma_skey_upsert_others(
                old(self).cookies@,
                self.cookies@,
                self.cookies@[n as int].0@,
                n as int,
            );
            crate::util::lemma_skey_idx_of_prefix(old(self).cookies@, name@, n as int);
            assert(self.cookies@ =~= cookies_upserted(old(self).cookies@, name, value));
        }
    }

    /// Every cookie as a "name=value" string, in stored order.
    pub fn get_all_cookies(&self) -> (r: Vec<String>)
        ensures
            r@.len() == self.cookies@.len(),
            forall|i: int|
                0 <= i < r@.len() ==> (#[trigger] r@[i])@ == self.cookies@[i].0@ + "="@
                    + self.cookies@[i].1@,
    {
        let mut out: Vec<String> = Vec::new();
        let mut i: usize = 0;
        while i < self.cookies.len()
            invariant
                i <= self.cookies@.len(),
                out@.len() == i,
                forall|j: int|
                    0 <= j < i ==> (#[trigger] out@[j])@ == self.cookies@[j].0@ + "="@
                        + self.cookies@[j].1@,
            decreases self.cookies@.len() - i,
        {
            let mut s = self.cookies[i].0.clone();
            s.append("=");
            s.append(self.cookies[i].1.as_str());
            out.push(s);
            i = i + 1;
        }
        out
    }

    /// Whether the chain is older than the given age against the clock.
    pub fn is_expired(&self, max_age: u64) -> (r: bool)
        ensures
            exists|now: u64| r == self.expired_at(max_age, now),
    {
        let now = now_secs();
        self.is_expired_at(max_age, now)
    }

    /// Whether the chain is older than the given age at the given second.
    pub fn is_expired_at(&self, max_age: u64, now: u64) -> (r: bool)
        ensures
            r == self.expired_at(max_age, now),
    {
        self.timestamp < now && now - self.timestamp > max_age
    }

    /// How many hops the chain holds.
    pub fn redirect_count(&self) -> (r: usize)
        ensures
            r == self.redirects@.len(),
    {
        self.redirects.len()
    }

    /// Whether some target URL appears twice.
    pub fn has_loop(&self) -> (r: bool)
        ensures
            r == exists|i: int, j: int|
                0 <= i < j < self.redirects@.len() && #[trigger] to_projection(
                    self.redirects@,
                )[i] == #[trigger] to_projection(self.redirects@)[j],
    {
        let n = self.redirects.len();
        let mut j: usize = 0;
        while j < n
            invariant
                n == self.redirects@.len(),
                j <= n,
                forall|a: int, b: int|
                    0 <= a < b < j ==> #[trigger] to_projection(self.redirects@)[a]
                        != #[trigger] to_projection(self.redirects@)[b],
            decreases n - j,
        {
            let mut i: usize = 0;
            while i < j
                invariant
                    n == self.redirects@.len(),
                    i <= j < n,
                    forall|a: int|
                        0 <= a < i ==> #[trigger] to_projection(self.redirects@)[a]
                            != to_projection(self.redirects@)[j as int],
                decreases j - i,
            {
                if str_eq(self.redirects[i].to_url.as_str(), self.redirects[j].to_url.as_str()) {
                    proof {
                        assert(to_projection(self.redirects@)[i as int] == to_projection(
                            self.redirects@,
                        )[j as int]);
                    }
                    return true;
                }
                proof {
                    assert(to_projection(self.redirects@)[i as int] != to_projection(
                        self.redirects@,
                    )[j as int]);
                }
                i = i + 1;
            }
            j = j + 1;
        }
        false
    }

    /// The last target URL, if the chain moved at all.
    pub fn get_final_url(&self) -> (r: Option<String>)
        ensures
            self.redirects@.len() == 0 ==> r is None,
            self.redirects@.len() > 0 ==> (r matches Some(u) && u@
                == self.redirects@.last().to_url@),
    {
        if self.redirects.len() == 0 {
            None
        } else {
            Some(self.redirects[self.redirects.len() - 1].to_url.clone())
        }
    }
}

// ---------------------------------------------------------------------------
// Response headers, as plain pairs.
// ---------------------------------------------------------------------------

/// Response headers as lowercase name/value pairs, first entry winning.
pub struct HeaderMap {
    pub entries: Vec<(String, String)>,
}

impl HeaderMap {
    /// The first value stored for a name.
    pub open spec fn spec_get(&self, name: Seq<char>) -> Option<String> {
        skey_get(self.entries@, name)
    }

    /// An empty header map.
    pub fn new() -> (h: Self)
        ensures
            h.entries@.len() == 0,
    {
        HeaderMap { entries: Vec::new() }
    }

    /// Appends a header.
    pub fn push(&mut self, name: String, value: String)
        ensures
            final(self).entries@ == old(self).entries@.push((name, value)),
    {
        self.entries.push((name, value));
    }

    /// The first value stored for a name.
    pub fn get(&self, name: &str) -> (r: Option<&String>)
        ensures
            match r {
                Some(v) => self.spec_get(name@) == Some(*v),
                None => self.spec_get(name@) is None,
            },
    {
        let n = self.entries.len();
        let mut i: usize = 0;
        while i < n
            invariant
                n == self.entries@.len(),
                i <= n,
                forall|j: int| 0 <= j < i ==> (#[trigger] self.entries@[j]).0@ != name@,
            decreases n - i,
        {
            if str_eq(self.entries[i].0.as_str(), name) {
                proof {
                    crate::util::lemma_skey_idx_of_prefix(self.entries@, name@, i as int);
                }
                return Some(&self.entries[i].1);
            }
            i = i + 1;
        }
        proof {
            crate::util::lemma_skey_idx_of_prefix(self.entries@, name@, n as int);
        }
        None
    }
}

// ---------------------------------------------------------------------------
// Challenge detection and tracking.
// ---------------------------------------------------------------------------

/// Pending-challenge state for one URL.
pub struct ChallengeState {
    pub url: String,
    pub timestamp: u64,
    pub cookies: Vec<String>,
    pub redirects: u32,
}

/// A pending-challenge state with one more counted redirect, saturating
/// at the integer's top.
pub open spec fn state_bumped(st: ChallengeState) -> ChallengeState {
    ChallengeState {
        redirects: if st.redirects < u32::MAX {
            (st.redirects + 1) as u32
        } else {
            st.redirects
        },
        ..st
    }
}

/// Tracks pending challenges and redirect chains, keyed by URL.
pub struct ChallengeHandler {
    pub pending_challenges: Vec<(String, ChallengeState)>,
    pub redirect_chains: Vec<(String, RedirectChain)>,
}

/// Whether a response body or header set shows a challenge. The body
/// markers, the server/mitigation pair, and the redirect-location markers
/// each suffice.
pub open spec fn spec_detect(body: Seq<char>, headers: HeaderMap) -> bool {
    ||| has_sub(vstd::utf8::encode_utf8(body), "cf-browser-verification".spec_bytes())
    ||| has_sub(vstd::utf8::encode_utf8(body), "__cf_chl_jschl_tk__".spec_bytes())
    ||| has_sub(vstd::utf8::encode_utf8(body), "cf-challenge-form".spec_bytes())
    ||| has_sub(vstd::utf8::encode_utf8(body), "jschl-answer".spec_bytes())
    ||| has_sub(vstd::utf8::encode_utf8(body), "cf-captcha-container".spec_bytes())
    ||| (headers.spec_get("server"@) matches Some(s) && has_sub(
        vstd::utf8::encode_utf8(s@),
        "cloudflare".spec_bytes(),
    ) && headers.spec_get("cf-mitigated"@) is Some)
    ||| (headers.spec_get("location"@) matches Some(l) && (has_sub(
        vstd::utf8::encode_utf8(l@),
        "__cf_chl_jschl_tk__".spec_bytes(),
    ) || has_sub(vstd::utf8::encode_utf8(l@), "cdn-cgi/challenge".spec_bytes())))
}

impl ChallengeHandler {
    /// Every tracked chain within bounds.
    pub open spec fn wf(&self) -> bool {
        forall|i: int|
            0 <= i < self.redirect_chains@.len() ==> chain_ok(
                (#[trigger] self.redirect_chains@[i]).1.redirects@,
            )
    }

    /// The chain tracked for an origin URL.
    pub open spec fn spec_chain(&self, url: Seq<char>) -> Option<RedirectChain> {
        skey_get(self.redirect_chains@, url)
    }

    /// An empty tracker.
    pub fn new() -> (h: Self)
        ensures
            h.wf(),
            h.pending_challenges@.len() == 0,
            h.redirect_chains@.len() == 0,
    {
        ChallengeHandler { pending_challenges: Vec::new(), redirect_chains: Vec::new() }
    }

    /// Whether a response shows a challenge, per [`spec_detect`].
    pub fn detect_challenge(&self, response_body: &str, headers: &HeaderMap) -> (r: bool)
        ensures
            r == spec_detect(response_body@, *headers),
    {
        let body = response_body.as_bytes();
        if crate::util::contains_sub(body, "cf-browser-verification".as_bytes()) {
            return true;
        }
        if crate::util::contains_sub(body, "__cf_chl_jschl_tk__".as_bytes()) {
            return true;
        }
        if crate::util::contains_sub(body, "cf-challenge-form".as_bytes()) {
            return true;
        }
        if crate::util::contains_sub(body, "jschl-answer".as_bytes()) {
            return true;
        }
        if crate::util::contains_sub(body, "cf-captcha-container".as_bytes()) {
            return true;
        }
        match headers.get("server") {
            Some(server) => {
                if crate::util::str_contains(server.as_str(), "cloudflare") {
                    match headers.get("cf-mitigated") {
                        Some(_) => {
                            return true;
                        },
                        None => {},
                    }
                }
            },
            None => {},
        }
        match headers.get("location") {
            Some(location) => {
                if crate::util::str_contains(location.as_str(), "__cf_chl_jschl_tk__") {
                    return true;
                }
                if crate::util::str_contains(location.as_str(), "cdn-cgi/challenge") {
                    return true;
                }
            },
            None => {},
        }
        false
    }

    /// Whether a status code redirects.
    pub fn is_redirect(&self, status_code: u16) -> (r: bool)
        ensures
            r == (status_code == 301 || status_code == 302 || status_code == 303 || status_code
                == 307 || status_code == 308),
    {
        status_code == 301 || status_code == 302 || status_code == 303 || status_code == 307
            || status_code == 308
    }

    /// Starts (or restarts) the chain of an origin URL.
    pub fn start_redirect_chain(&mut self, original_url: String)
        requires
            old(self).wf(),
        ensures
            final(self).wf(),
            final(self).spec_chain(original_url@) matches Some(c) && c.redirects@.len() == 0
                && c.cookies@.len() == 0 && c.original_url@ == original_url@,
            forall|u2: Seq<char>|
                u2 != original_url@ ==> #[trigger] skey_get(final(self).redirect_chains@, u2)
                    == skey_get(old(self).redirect_chains@, u2),
            final(self).pending_challenges == old(self).pending_challenges,
    {
        let chain = RedirectChain::new(original_url.clone());
        let n = self.redirect_chains.len();
        let mut i: usize = 0;
        while i < n
            invariant
                old(self).wf(),
                n == self.redirect_chains@.len(),
                i <= n,
                forall|j: int|
                    0 <= j < i ==> (#[trigger] self.redirect_chains@[j]).0@ != original_url@,
                *self == *old(self),
                chain.redirects@.len() == 0,
                chain.cookies@.len() == 0,
                chain.original_url@ == original_url@,
            decreases n - i,
        {
            if str_eq(self.redirect_chains[i].0.as_str(), original_url.as_str()) {
                let _gone = self.redirect_chains.remove(i);
                self.redirect_chains.insert(i, (original_url, chain));
                proof {
                    old(self).redirect_chains@.remove_ensures(i as int);
                    old(self).redirect_chains@.remove(i as int).insert_ensures(
                        i as int,
                        self.redirect_chains@[i as int],
                    );
                    assert(self.redirect_chains@ =~= old(self).redirect_chains@.update(
                        i as int,
                        self.redirect_chains@[i as int],
                    ));
                    assert(forall|j: int|
                        0 <= j < i ==> (#[trigger] self.redirect_chains@[j]) == old(self).redirect_chains@[j]);
                    crate::util::lemma_skey_idx_of_prefix(
                        self.redirect_chains@,
                        self.redirect_chains@[i as int].0@,
                        i as int,
                    );
                    crate::util::lemma_skey_upsert_others(
                        old(self).redirect_chains@,
                        self.redirect_chains@,
                        self.redirect_chains@[i as int].0@,
                        i as int,
                    );
                }
                return ;
            }
            i = i + 1;
        }
        self.redirect_chains.push((original_url, chain));
        proof {
            assert(forall|j: int|
                0 <= j < n ==> (#[trigger] self.redirect_chains@[j]) == old(self).redirect_chains@[j]);
            crate::util::lemma_skey_idx_of_prefix(
                self.redirect_chains@,
                self.redirect_chains@[n as int].0@,
                n as int,
            );
            crate::util::lemma_skey_upsert_others(
                old(self).redirect_chains@,
                self.redirect_chains@,
                self.redirect_chains@[n as int].0@,
                n as int,
            );
        }
    }

    /// Extends the chain of an origin URL by one hop. Refused without a
    /// chain, when the chain is full, or when the target is the origin or
    /// was already visited; a refused hop leaves the chain unchanged.
    pub fn add_redirect(
        &mut self,
        original_url: &str,
        from_url: String,
        to_url: String,
        status_code: u16,
    ) -> (r: Result<(), RedirectError>)
        requires
            old(self).wf(),
        ensures
            final(self).wf(),
            ({
                match old(self).spec_chain(original_url@) {
                    None => r == Err::<(), RedirectError>(RedirectError::NoChain) && *final(self)
                        == *old(self),
                    Some(c) => if c.redirects@.len() >= MAX_REDIRECTS {
                        r == Err::<(), RedirectError>(RedirectError::TooManyRedirects) && *final(self) == *old(self)
                    } else if to_url@ == c.original_url@ || to_projection(
                        c.redirects@,
                    ).contains(to_url@) {
                        r == Err::<(), RedirectError>(RedirectError::RedirectLoop) && *final(self)
                            == *old(self)
                    } else {
                        r is Ok && (final(self).spec_chain(original_url@) matches Some(c2)
                            && c2.redirects@.len() == c.redirects@.len() + 1
                            && c2.redirects@.take(c.redirects@.len() as int) == c.redirects@
                            && c2.redirects@.last().to_url@ == to_url@
                            && c2.redirects@.last().from_url@ == from_url@
                            && c2.redirects@.last().status_code == status_code
                            && c2.original_url == c.original_url && c2.cookies == c.cookies)
                    },
                }
            }),
            forall|u2: Seq<char>|
                u2 != original_url@ ==> #[trigger] skey_get(final(self).redirect_chains@, u2)
                    == skey_get(old(self).redirect_chains@, u2),
            final(self).pending_challenges == old(self).pending_challenges,
    {
        let n = self.redirect_chains.len();
        let mut i: usize = 0;
        while i < n
            invariant
                old(self).wf(),
                n == self.redirect_chains@.len(),
                i <= n,
                forall|j: int|
                    0 <= j < i ==> (#[trigger] self.redirect_chains@[j]).0@ != original_url@,
                *self == *old(self),
            decreases n - i,
        {
            if str_eq(self.redirect_chains[i].0.as_str(), original_url) {
                proof {
                    crate::util::lemma_skey_idx_of_prefix(
                        self.redirect_chains@,
                        original_url@,
                        i as int,
                    );
                    assert(old(self).spec_chain(original_url@) == Some(
                        self.redirect_chains@[i as int].1,
                    ));
                }
                if self.redirect_chains[i].1.redirect_count() >= MAX_REDIRECTS as usize {
                    return Err(RedirectError::TooManyRedirects);
                }
                if str_eq(to_url.as_str(), self.redirect_chains[i].1.original_url.as_str()) {
                    return Err(RedirectError::RedirectLoop);
                }
                if Self::visited(&self.redirect_chains[i].1, to_url.as_str()) {
                    return Err(RedirectError::RedirectLoop);
                }
                let mut pair = self.redirect_chains.remove(i);
                pair.1.add_redirect(from_url, to_url, status_code);
                self.redirect_chains.insert(i, pair);
                proof {
                    old(self).redirect_chains@.remove_ensures(i as int);
                    old(self).redirect_chains@.remove(i as int).insert_ensures(
                        i as int,
                        self.redirect_chains@[i as int],
                    );
                    assert(self.redirect_chains@ =~= old(self).redirect_chains@.update(
                        i as int,
                        self.redirect_chains@[i as int],
                    ));
                    assert(forall|j: int|
                        0 <= j < i ==> (#[trigger] self.redirect_chains@[j]) == old(self).redirect_chains@[j]);
                    crate::util::lemma_skey_idx_of_prefix(
                        self.redirect_chains@,
                        original_url@,
                        i as int,
                    );
                    crate::util::lemma_skey_upsert_others(
                        old(self).redirect_chains@,
                        self.redirect_chains@,
                        original_url@,
                        i as int,
                    );
                    let oldc = old(self).redirect_chains@[i as int].1;
                    let newc = self.redirect_chains@[i as int].1;
                    assert(chain_ok(newc.redirects@)) by {
                        assert(chain_ok(oldc.redirects@));
                        assert(newc.redirects@.len() == oldc.redirects@.len() + 1);
                        assert(forall|a: int|
                            0 <= a < oldc.redirects@.len() ==> #[trigger] newc.redirects@[a]
                                == oldc.redirects@[a]) by {
                            assert forall|a: int|
                                0 <= a < oldc.redirects@.len() implies #[trigger] newc.redirects@[a]
                                == oldc.redirects@[a] by {
                                assert(newc.redirects@.take(oldc.redirects@.len() as int)[a]
                                    == newc.redirects@[a]);
                            }
                        }
                        assert(!to_projection(oldc.redirects@).contains(
                            newc.redirects@.last().to_url@,
                        ));
                        assert forall|a: int, b: int|
                            0 <= a < b < newc.redirects@.len() implies #[trigger] to_projection(
                            newc.redirects@,
                        )[a] != #[trigger] to_projection(newc.redirects@)[b] by {
                            if b < oldc.redirects@.len() {
                                assert(to_projection(oldc.redirects@)[a] != to_projection(
                                    oldc.redirects@,
                                )[b]);
                            } else {
                                if to_projection(newc.redirects@)[a] == to_projection(
                                    newc.redirects@,
                                )[b] {
                                    assert(to_projection(oldc.redirects@)[a]
                                        == newc.redirects@.last().to_url@);
                                    assert(to_projection(oldc.redirects@).contains(
                                        newc.redirects@.last().to_url@,
                                    ));
                                }
                            }
                        }
                    }
                }
                return Ok(());
            }
            i = i + 1;
        }
        proof {
            crate::util::lemma_skey_idx_of_prefix(self.redirect_chains@, original_url@, n as int);
        }
        Err(RedirectError::NoChain)
    }

    /// Whether a chain already visited a target URL.
    fn visited(chain: &RedirectChain, to_url: &str) -> (r: bool)
        ensures
            r == to_projection(chain.redirects@).contains(to_url@),
    {
        let n = chain.redirects.len();
        let mut i: usize = 0;
        while i < n
            invariant
                n == chain.redirects@.len(),
                i <= n,
                forall|j: int| 0 <= j < i ==> to_projection(chain.redirects@)[j] != to_url@,
            decreases n - i,
        {
            if str_eq(chain.redirects[i].to_url.as_str(), to_url) {
                proof {
                    assert(to_projection(chain.redirects@)[i as int] == to_url@);
                }
                return true;
            }
            proof {
                assert(to_projection(chain.redirects@)[i as int] != to_url@);
            }
            i = i + 1;
        }
        proof {
            if to_projection(chain.redirects@).contains(to_url@) {
                let j = choose|j: int|
                    0 <= j < to_projection(chain.redirects@).len() && to_projection(
                        chain.redirects@,
                    )[j] == to_url@;
            }
        }
        false
    }

    /// Records a cookie on the chain of an origin URL, if one is tracked.
    pub fn add_redirect_cookie(&mut self, original_url: &str, name: String, value: String)
        requires
            old(self).wf(),
        ensures
            final(self).wf(),
            final(self).pending_challenges == old(self).pending_challenges,
            old(self).spec_chain(original_url@) matches Some(c) ==> (final(self).spec_chain(
                original_url@,
            ) matches Some(c2) && c2.cookies@ == cookies_upserted(c.cookies@, name, value)
                && c2.redirects == c.redirects && c2.original_url == c.original_url && c2.timestamp
                == c.timestamp),
            forall|u2: Seq<char>|
                u2 != original_url@ ==> #[trigger] skey_get(final(self).redirect_chains@, u2)
                    == skey_get(old(self).redirect_chains@, u2),
            old(self).spec_chain(original_url@) is None ==> *final(self) == *old(self),
    {
        let n = self.redirect_chains.len();
        let mut i: usize = 0;
        while i < n
            invariant
                old(self).wf(),
                n == self.redirect_chains@.len(),
                i <= n,
                forall|j: int|
                    0 <= j < i ==> (#[trigger] self.redirect_chains@[j]).0@ != original_url@,
                *self == *old(self),
            decreases n - i,
        {
            if str_eq(self.redirect_chains[i].0.as_str(), original_url) {
                proof {
                    crate::util::lemma_skey_idx_of_prefix(
                        self.redirect_chains@,
                        original_url@,
                        i as int,
                    );
                }
                let mut pair = self.redirect_chains.remove(i);
                pair.1.add_cookie(name, value);
                self.redirect_chains.insert(i, pair);
                proof {
                    old(self).redirect_chains@.remove_ensures(i as int);
                    old(self).redirect_chains@.remove(i as int).insert_ensures(
                        i as int,
                        self.redirect_chains@[i as int],
                    );
                    assert(self.redirect_chains@ =~= old(self).redirect_chains@.update(
                        i as int,
                        self.redirect_chains@[i as int],
                    ));
                    assert(forall|j: int|
                        0 <= j < i ==> (#[trigger] self.redirect_chains@[j]) == old(
                            self,
                        ).redirect_chains@[j]);
                    crate::util::lemma_skey_idx_of_prefix(
                        self.redirect_chains@,
                        original_url@,
                        i as int,
                    );
                    crate::util::lemma_skey_upsert_others(
                        old(self).redirect_chains@,
                        self.redirect_chains@,
                        original_url@,
                        i as int,
                    );
                }
                return ;
            }
            i = i + 1;
        }
        proof {
            crate::util::lemma_skey_idx_of_prefix(self.redirect_chains@, original_url@, n as int);
        }
    }

    /// The accumulated cookies of an origin URL's chain.
    pub fn get_redirect_cookies(&self, original_url: &str) -> (r: Vec<String>)
        ensures
            self.spec_chain(original_url@) matches Some(c) ==> r@.len() == c.cookies@.len() && (
            forall|k: int|
                0 <= k < r@.len() ==> (#[trigger] r@[k])@ == c.cookies@[k].0@ + "="@
                    + c.cookies@[k].1@),
            self.spec_chain(original_url@) is None ==> r@.len() == 0,
    {
        let n = self.redirect_chains.len();
        let mut i: usize = 0;
        while i < n
            invariant
                n == self.redirect_chains@.len(),
                i <= n,
                forall|j: int|
                    0 <= j < i ==> (#[trigger] self.redirect_chains@[j]).0@ != original_url@,
            decreases n - i,
        {
            if str_eq(self.redirect_chains[i].0.as_str(), original_url) {
                proof {
                    crate::util::lemma_skey_idx_of_prefix(
                        self.redirect_chains@,
                        original_url@,
                        i as int,
                    );
                }
                return self.redirect_chains[i].1.get_all_cookies();
            }
            i = i + 1;
        }
        proof {
            crate::util::lemma_skey_idx_of_prefix(self.redirect_chains@, original_url@, n as int);
        }
        Vec::new()
    }

    /// Forgets the first chain tracked for an origin URL and reports
    /// where it ended.
    pub fn finish_redirect_chain(&mut self, original_url: &str) -> (r: Option<String>)
        requires
            old(self).wf(),
        ensures
            final(self).wf(),
            final(self).pending_challenges == old(self).pending_challenges,
            ({
                let i = skey_idx(old(self).redirect_chains@, original_url@);
                if i < old(self).redirect_chains@.len() {
                    &&& final(self).redirect_chains@ == old(self).redirect_chains@.remove(i)
                    &&& ({
                        let c = old(self).redirect_chains@[i].1;
                        if c.redirects@.len() == 0 {
                            r is None
                        } else {
                            r matches Some(u) && u@ == c.redirects@.last().to_url@
                        }
                    })
                } else {
                    &&& *final(self) == *old(self)
                    &&& r is None
                }
            }),
    {
        let n = self.redirect_chains.len();
        let mut i: usize = 0;
        while i < n
            invariant
                old(self).wf(),
                n == self.redirect_chains@.len(),
                i <= n,
                forall|j: int|
                    0 <= j < i ==> (#[trigger] self.redirect_chains@[j]).0@ != original_url@,
                *self == *old(self),
            decreases n - i,
        {
            if str_eq(self.redirect_chains[i].0.as_str(), original_url) {
                proof {
                    crate::util::lemma_skey_idx_of_prefix(
                        self.redirect_chains@,
                        original_url@,
                        i as int,
                    );
                }
                let pair = self.redirect_chains.remove(i);
                let r = pair.1.get_final_url();
                proof {
                    old(self).redirect_chains@.remove_ensures(i as int);
                    assert(forall|j: int|
                        0 <= j < self.redirect_chains@.len() ==> (#[trigger] self.redirect_chains@[j])
                            == old(self).redirect_chains@[(if j < i {
                            j
                        } else {
                            j + 1
                        })]);
                    assert(self.redirect_chains@ =~= old(self).redirect_chains@.remove(i as int));
                }
                return r;
            }
            i = i + 1;
        }
        proof {
            crate::util::lemma_skey_idx_of_prefix(self.redirect_chains@, original_url@, n as int);
        }
        None
    }

    /// Whether a pending challenge is registered for a URL.
    pub fn should_passthrough(&self, url: &str) -> (r: bool)
        ensures
            r == (skey_get(self.pending_challenges@, url@) is Some),
    {
        let n = self.pending_challenges.len();
        let mut i: usize = 0;
        while i < n
            invariant
                n == self.pending_challenges@.len(),
                i <= n,
                forall|j: int| 0 <= j < i ==> (#[trigger] self.pending_challenges@[j]).0@ != url@,
            decreases n - i,
        {
            if str_eq(self.pending_challenges[i].0.as_str(), url) {
                proof {
                    crate::util::lemma_skey_idx_of_prefix(
                        self.pending_challenges@,
                        url@,
                        i as int,
                    );
                }
                return true;
            }
            i = i + 1;
        }
        proof {
            crate::util::lemma_skey_idx_of_prefix(self.pending_challenges@, url@, n as int);
        }
        false
    }

    /// Registers a pending challenge for a URL with its cookies.
    pub fn register_challenge(&mut self, url: String, cookies: Vec<String>)
        requires
            old(self).wf(),
        ensures
            final(self).wf(),
            skey_get(final(self).pending_challenges@, url@) matches Some(st) && st.cookies@
                == cookies@ && st.redirects == 0,
            forall|u2: Seq<char>|
                u2 != url@ ==> #[trigger] skey_get(final(self).pending_challenges@, u2)
                    == skey_get(old(self).pending_challenges@, u2),
            final(self).redirect_chains == old(self).redirect_chains,
    {
        let timestamp = now_secs();
        let state = ChallengeState { url: url.clone(), timestamp, cookies, redirects: 0 };
        let n = self.pending_challenges.len();
        let mut i: usize = 0;
        while i < n
            invariant
                old(self).wf(),
                n == self.pending_challenges@.len(),
                i <= n,
                forall|j: int| 0 <= j < i ==> (#[trigger] self.pending_challenges@[j]).0@ != url@,
                *self == *old(self),
                state.cookies@ == cookies@,
                state.redirects == 0,
            decreases n - i,
        {
            if str_eq(self.pending_challenges[i].0.as_str(), url.as_str()) {
                let _gone = self.pending_challenges.remove(i);
                self.pending_challenges.insert(i, (url, state));
                proof {
                    old(self).pending_challenges@.remove_ensures(i as int);
                    old(self).pending_challenges@.remove(i as int).insert_ensures(
                        i as int,
                        self.pending_challenges@[i as int],
                    );
                    assert(self.pending_challenges@ =~= old(self).pending_challenges@.update(
                        i as int,
                        self.pending_challenges@[i as int],
                    ));
                    assert(forall|j: int|
                        0 <= j < i ==> (#[trigger] self.pending_challenges@[j]) == old(
                            self,
                        ).pending_challenges@[j]);
                    crate::util::lemma_skey_idx_of_prefix(
                        self.pending_challenges@,
                        url@,
                        i as int,
                    );
                    crate::util::lemma_skey_upsert_others(
                        old(self).pending_challenges@,
                        self.pending_challenges@,
                        url@,
                        i as int,
                    );
                }
                return ;
            }
            i = i + 1;
        }
        self.pending_challenges.push((url, state));
        proof {
            assert(forall|j: int|
                0 <= j < n ==> (#[trigger] self.pending_challenges@[j]) == old(
                    self,
                ).pending_challenges@[j]);
            crate::util::lemma_skey_idx_of_prefix(self.pending_challenges@, self.pending_challenges@[n as int].0@, n as int);
            crate::util::lemma_skey_upsert_others(
                old(self).pending_challenges@,
                self.pending_challenges@,
                self.pending_challenges@[n as int].0@,
                n as int,
            );
        }
    }

    /// Forgets the pending challenge of a URL.
    pub fn complete_challenge(&mut self, url: &str)
        requires
            old(self).wf(),
        ensures
            final(self).wf(),
            final(self).redirect_chains == old(self).redirect_chains,
    {
        let n = self.pending_challenges.len();
        let mut i: usize = 0;
        while i < n
            invariant
                old(self).wf(),
                n == self.pending_challenges@.len(),
                i <= n,
                *self == *old(self),
            decreases n - i,
        {
            if str_eq(self.pending_challenges[i].0.as_str(), url) {
                let _gone = self.pending_challenges.remove(i);
                return ;
            }
            i = i + 1;
        }
    }

    /// The cookies stored with the pending challenge of a URL.
    pub fn get_challenge_cookies(&self, url: &str) -> (r: Option<Vec<String>>)
        ensures
            match skey_get(self.pending_challenges@, url@) {
                Some(st) => r matches Some(v) && v@.len() == st.cookies@.len() && (forall|k: int|
                    0 <= k < v@.len() ==> (#[trigger] v@[k])@ == st.cookies@[k]@),
                None => r is None,
            },
    {
        let n = self.pending_challenges.len();
        let mut i: usize = 0;
        while i < n
            invariant
                n == self.pending_challenges@.len(),
                i <= n,
                forall|j: int| 0 <= j < i ==> (#[trigger] self.pending_challenges@[j]).0@ != url@,
            decreases n - i,
        {
            if str_eq(self.pending_challenges[i].0.as_str(), url) {
                proof {
                    crate::util::lemma_skey_idx_of_prefix(
                        self.pending_challenges@,
                        url@,
                        i as int,
                    );
                }
                let mut out: Vec<String> = Vec::new();
                let cs = &self.pending_challenges[i].1.cookies;
                let mut k: usize = 0;
                while k < cs.len()
                    invariant
                        k <= cs@.len(),
                        out@.len() == k,
                        forall|m: int| 0 <= m < k ==> (#[trigger] out@[m])@ == cs@[m]@,
                    decreases cs@.len() - k,
                {
                    out.push(cs[k].clone());
                    k = k + 1;
                }
                return Some(out);
            }
            i = i + 1;
        }
        proof {
            crate::util::lemma_skey_idx_of_prefix(self.pending_challenges@, url@, n as int);
        }
        None
    }

    /// Drops pending challenges and chains older than the timeout at the
    /// given second.
    pub fn cleanup_expired_at(&mut self, now: u64)
        requires
            old(self).wf(),
        ensures
            final(self).wf(),
            final(self).pending_challenges@ == old(self).pending_challenges@.filter(
                |p: (String, ChallengeState)| !spec_challenge_expired(p.1, now),
            ),
            final(self).redirect_chains@ == old(self).redirect_chains@.filter(
                |p: (String, RedirectChain)| !p.1.expired_at(CHALLENGE_TIMEOUT, now),
            ),
    {
        let ghost pfull = self.pending_challenges@;
        let ghost ppred = |p: (String, ChallengeState)| !spec_challenge_expired(p.1, now);
        let mut kept: Vec<(String, ChallengeState)> = Vec::new();
        proof {
            reveal(Seq::filter);
            assert(pfull.take(0) =~= Seq::<(String, ChallengeState)>::empty());
            assert(pfull.skip(0) =~= pfull);
            assert(kept@ =~= pfull.take(0).filter(ppred));
        }
        while self.pending_challenges.len() > 0
            invariant
                old(self).wf(),
                self.redirect_chains == old(self).redirect_chains,
                pfull == old(self).pending_challenges@,
                self.pending_challenges@.len() <= pfull.len(),
                self.pending_challenges@ == pfull.skip(
                    pfull.len() - self.pending_challenges@.len(),
                ),
                kept@ == pfull.take(pfull.len() - self.pending_challenges@.len()).filter(ppred),
                ppred == (|p: (String, ChallengeState)| !spec_challenge_expired(p.1, now)),
            decreases self.pending_challenges@.len(),
        {
            let ghost pre = self.pending_challenges@;
            let ghost done = pfull.len() - pre.len();
            let e = self.pending_challenges.remove(0);
            proof {
                reveal(Seq::filter);
                assert(pre[0] == pfull.skip(done)[0]);
                assert(e == pfull[done]);
                assert(self.pending_challenges@ =~= pfull.skip(done + 1));
                assert(pfull.take(done + 1).drop_last() =~= pfull.take(done));
                assert(pfull.take(done + 1).last() == pfull[done]);
            }
            let expired = e.1.timestamp < now && now - e.1.timestamp >= CHALLENGE_TIMEOUT;
            if !expired {
                kept.push(e);
                proof {
                    assert(kept@ == pfull.take(done + 1).filter(ppred));
                }
            } else {
                proof {
                    assert(kept@ == pfull.take(done + 1).filter(ppred));
                }
            }
        }
        proof {
            assert(pfull.take(pfull.len() as int) =~= pfull);
        }
        self.pending_challenges = kept;

        let ghost cfull = self.redirect_chains@;
        let ghost cpred = |p: (String, RedirectChain)| !p.1.expired_at(CHALLENGE_TIMEOUT, now);
        let mut kept2: Vec<(String, RedirectChain)> = Vec::new();
        proof {
            reveal(Seq::filter);
            assert(cfull.take(0) =~= Seq::<(String, RedirectChain)>::empty());
            assert(cfull.skip(0) =~= cfull);
            assert(kept2@ =~= cfull.take(0).filter(cpred));
        }
        while self.redirect_chains.len() > 0
            invariant
                old(self).wf(),
                cfull == old(self).redirect_chains@,
                self.pending_challenges@ == old(self).pending_challenges@.filter(
                    |p: (String, ChallengeState)| !spec_challenge_expired(p.1, now),
                ),
                self.redirect_chains@.len() <= cfull.len(),
                self.redirect_chains@ == cfull.skip(cfull.len() - self.redirect_chains@.len()),
                kept2@ == cfull.take(cfull.len() - self.redirect_chains@.len()).filter(cpred),
                cpred == (|p: (String, RedirectChain)| !p.1.expired_at(CHALLENGE_TIMEOUT, now)),
                forall|j: int|
                    0 <= j < kept2@.len() ==> chain_ok((#[trigger] kept2@[j]).1.redirects@),
            decreases self.redirect_chains@.len(),
        {
            let ghost pre = self.redirect_chains@;
            let ghost done = cfull.len() - pre.len();
            let e = self.redirect_chains.remove(0);
            proof {
                reveal(Seq::filter);
                assert(pre[0] == cfull.skip(done)[0]);
                assert(e == cfull[done]);
                assert(self.redirect_chains@ =~= cfull.skip(done + 1));
                assert(cfull.take(done + 1).drop_last() =~= cfull.take(done));
                assert(cfull.take(done + 1).last() == cfull[done]);
                assert(chain_ok(cfull[done].1.redirects@));
            }
            if !e.1.is_expired_at(CHALLENGE_TIMEOUT, now) {
                kept2.push(e);
                proof {
                    assert(kept2@ == cfull.take(done + 1).filter(cpred));
                }
            } else {
                proof {
                    assert(kept2@ == cfull.take(done + 1).filter(cpred));
                }
            }
        }
        proof {
            assert(cfull.take(cfull.len() as int) =~= cfull);
        }
        self.redirect_chains = kept2;
    }

    /// Drops entries older than the timeout against the clock.
    pub fn cleanup_expired(&mut self)
        requires
            old(self).wf(),
        ensures
            final(self).wf(),
    {
        let now = now_secs();
        self.cleanup_expired_at(now);
    }

    /// Bumps the redirect counter of the first pending challenge of a URL
    /// and reports the new count; without one, nothing changes.
    pub fn increment_redirects(&mut self, url: &str) -> (r: Option<u32>)
        requires
            old(self).wf(),
        ensures
            final(self).wf(),
            final(self).redirect_chains == old(self).redirect_chains,
            ({
                let i = skey_idx(old(self).pending_challenges@, url@);
                if i < old(self).pending_challenges@.len() {
                    let e = old(self).pending_challenges@[i];
                    &&& final(self).pending_challenges@ == old(self).pending_challenges@.update(
                        i,
                        (e.0, state_bumped(e.1)),
                    )
                    &&& r == Some(state_bumped(e.1).redirects)
                } else {
                    &&& *final(self) == *old(self)
                    &&& r is None
                }
            }),
    {
        let n = self.pending_challenges.len();
        let mut i: usize = 0;
        while i < n
            invariant
                old(self).wf(),
                n == self.pending_challenges@.len(),
                i <= n,
                forall|j: int| 0 <= j < i ==> (#[trigger] self.pending_challenges@[j]).0@ != url@,
                *self == *old(self),
            decreases n - i,
        {
            if str_eq(self.pending_challenges[i].0.as_str(), url) {
                proof {
                    crate::util::lemma_skey_idx_of_prefix(
                        self.pending_challenges@,
                        url@,
                        i as int,
                    );
                }
                let mut pair = self.pending_challenges.remove(i);
                let ghost st0 = pair.1;
                if pair.1.redirects < u32::MAX {
                    pair.1.redirects = pair.1.redirects + 1;
                }
                let count = pair.1.redirects;
                self.pending_challenges.insert(i, pair);
                proof {
                    old(self).pending_challenges@.remove_ensures(i as int);
                    old(self).pending_challenges@.remove(i as int).insert_ensures(
                        i as int,
                        self.pending_challenges@[i as int],
                    );
                    assert(self.pending_challenges@[i as int].1 == state_bumped(st0));
                    assert(self.pending_challenges@ =~= old(self).pending_challenges@.update(
                        i as int,
                        (
                            old(self).pending_challenges@[i as int].0,
                            state_bumped(old(self).pending_challenges@[i as int].1),
                        ),
                    ));
                }
                return Some(count);
            }
            i = i + 1;
        }
        proof {
            crate::util::lemma_skey_idx_of_prefix(self.pending_challenges@, url@, n as int);
        }
        None
    }

    /// Whether a pending challenge saw at least the given redirects.
    pub fn has_too_many_redirects(&self, url: &str, max_redirects: u32) -> (r: bool)
        ensures
            match skey_get(self.pending_challenges@, url@) {
                Some(st) => r == (st.redirects >= max_redirects),
                None => r == false,
            },
    {
        let n = self.pending_challenges.len();
        let mut i: usize = 0;
        while i < n
            invariant
                n == self.pending_challenges@.len(),
                i <= n,
                forall|j: int| 0 <= j < i ==> (#[trigger] self.pending_challenges@[j]).0@ != url@,
            decreases n - i,
        {
            if str_eq(self.pending_challenges[i].0.as_str(), url) {
                proof {
                    crate::util::lemma_skey_idx_of_prefix(
                        self.pending_challenges@,
                        url@,
                        i as int,
                    );
                }
                return self.pending_challenges[i].1.redirects >= max_redirects;
            }
            i = i + 1;
        }
        proof {
            crate::util::lemma_skey_idx_of_prefix(self.pending_challenges@, url@, n as int);
        }
        false
    }

    /// How many hops the chain of an origin URL holds.
    pub fn get_redirect_chain_length(&self, original_url: &str) -> (r: usize)
        ensures
            match self.spec_chain(original_url@) {
                Some(c) => r == c.redirects@.len(),
                None => r == 0,
            },
    {
        let n = self.redirect_chains.len();
        let mut i: usize = 0;
        while i < n
            invariant
                n == self.redirect_chains@.len(),
                i <= n,
                forall|j: int|
                    0 <= j < i ==> (#[trigger] self.redirect_chains@[j]).0@ != original_url@,
            decreases n - i,
        {
            if str_eq(self.redirect_chains[i].0.as_str(), original_url) {
                proof {
                    crate::util::lemma_skey_idx_of_prefix(
                        self.redirect_chains@,
                        original_url@,
                        i as int,
                    );
                }
                return self.redirect_chains[i].1.redirect_count();
            }
            i = i + 1;
        }
        proof {
            crate::util::lemma_skey_idx_of_prefix(self.redirect_chains@, original_url@, n as int);
        }
        0
    }

    /// The trimmed `;`-separated Set-Cookie fragments whose parsed names
    /// mark a challenge cookie, in order; exactly [`kept_frags`] of the
    /// header's fragments.
    pub fn extract_challenge_cookies(&self, headers: &HeaderMap) -> (r: Vec<String>)
        ensures
            match headers.spec_get("set-cookie"@) {
                None => r@.len() == 0,
                Some(v) => strings_bytes(r@) == kept_frags(
                    cookie_frags(vstd::utf8::encode_utf8(v@), 0, 0),
                ),
            },
    {
        let mut out: Vec<String> = Vec::new();
        let set_cookie = match headers.get("set-cookie") {
            Some(v) => v,
            None => {
                return out;
            },
        };
        let bytes = set_cookie.as_str().as_bytes();
        let ghost bb = bytes@;
        let mut start: usize = 0;
        let mut i: usize = 0;
        proof {
            assert(strings_bytes(out@) =~= Seq::<Seq<u8>>::empty());
            assert(kept_frags(cookie_frags(bb, 0, 0)) =~= strings_bytes(out@) + kept_frags(
                cookie_frags(bb, 0, 0),
            ));
        }
        while i < bytes.len()
            invariant
                bb == bytes@,
                start <= i,
                i <= bytes@.len(),
                kept_frags(cookie_frags(bb, 0, 0)) == strings_bytes(out@) + kept_frags(
                    cookie_frags(bb, start as int, i as int),
                ),
            decreases bytes@.len() - i,
        {
            if bytes[i] == 59 {
                proof {
                    assert(cookie_frags(bb, start as int, i as int) == (if start < i {
                        seq![bb.subrange(start as int, i as int)]
                    } else {
                        Seq::<Seq<u8>>::empty()
                    }) + cookie_frags(bb, i as int + 1, i as int + 1));
                }
                if start < i {
                    let piece = vstd::slice::slice_subrange(bytes, start, i);
                    proof {
                        assert(piece@ =~= bb.subrange(start as int, i as int));
                        let fs = cookie_frags(bb, start as int, i as int);
                        assert(fs[0] == piece@);
                        assert(fs.drop_first() =~= cookie_frags(bb, i as int + 1, i as int + 1));
                    }
                    let trimmed = trim_ascii_spaces(piece);
                    let ghost before = out@;
                    match cookie_name_of_fragment(trimmed) {
                        Some(nm) => {
                            if is_challenge_cookie_name(nm.as_str()) {
                                match crate::util::bytes_to_string(trimmed) {
                                    Some(sv) => {
                                        out.push(sv);
                                        proof {
                                            assert(keep_frag(piece@));
                                            assert(strings_bytes(out@) =~= strings_bytes(
                                                before,
                                            ).push(spec_trim(piece@)));
                                        }
                                    },
                                    None => {
                                        proof {
                                            assert(!keep_frag(piece@));
                                        }
                                    },
                                }
                            } else {
                                proof {
                                    assert(!keep_frag(piece@));
                                }
                            }
                        },
                        None => {
                            proof {
                                assert(!keep_frag(piece@));
                            }
                        },
                    }
                }
                start = i + 1;
            } else {
                proof {
                    assert(cookie_frags(bb, start as int, i as int) == cookie_frags(
                        bb,
                        start as int,
                        i as int + 1,
                    ));
                }
            }
            i = i + 1;
        }
        proof {
            assert(cookie_frags(bb, start as int, i as int) == (if 0 <= start < bb.len() {
                seq![bb.subrange(start as int, bb.len() as int)]
            } else {
                Seq::<Seq<u8>>::empty()
            }));
        }
        if start < bytes.len() {
            let piece = vstd::slice::slice_subrange(bytes, start, bytes.len());
            proof {
                assert(piece@ =~= bb.subrange(start as int, bb.len() as int));
                let fs = cookie_frags(bb, start as int, bytes@.len() as int);
                assert(fs[0] == piece@);
                assert(fs.drop_first() =~= Seq::<Seq<u8>>::empty());
                assert(kept_frags(Seq::<Seq<u8>>::empty()) =~= Seq::<Seq<u8>>::empty());
            }
            let trimmed = trim_ascii_spaces(piece);
            let ghost before = out@;
            match cookie_name_of_fragment(trimmed) {
                Some(nm) => {
                    if is_challenge_cookie_name(nm.as_str()) {
                        match crate::util::bytes_to_string(trimmed) {
                            Some(sv) => {
                                out.push(sv);
                                proof {
                                    assert(keep_frag(piece@));
                                    assert(strings_bytes(out@) =~= strings_bytes(before).push(
                                        spec_trim(piece@),
                                    ));
                                }
                            },
                            None => {
                                proof {
                                    assert(!keep_frag(piece@));
                                }
                            },
                        }
                    } else {
                        proof {
                            assert(!keep_frag(piece@));
                        }
                    }
                },
                None => {
                    proof {
                        assert(!keep_frag(piece@));
                    }
                },
            }
        }
        proof {
            assert(strings_bytes(out@) =~= kept_frags(cookie_frags(bb, 0, 0)));
        }
        out
    }

    /// Every chain a well-formed tracker holds is short and loop-free.
    pub proof fn lemma_chain_bounds(&self, i: int)
        requires
            self.wf(),
            0 <= i < self.redirect_chains@.len(),
        ensures
            self.redirect_chains@[i].1.redirects@.len() <= MAX_REDIRECTS,
            forall|a: int, b: int|
                0 <= a < b < self.redirect_chains@[i].1.redirects@.len() ==> #[trigger] to_projection(
                    self.redirect_chains@[i].1.redirects@,
                )[a] != #[trigger] to_projection(self.redirect_chains@[i].1.redirects@)[b],
    {
        assert(chain_ok(self.redirect_chains@[i].1.redirects@));
    }
}

/// A byte string without its leading ASCII spaces and tabs.
pub open spec fn trim_front(b: Seq<u8>) -> Seq<u8>
    decreases b.len(),
{
    if b.len() > 0 && (b[0] == 32 || b[0] == 9) {
        trim_front(b.drop_first())
    } else {
        b
    }
}

/// A byte string without its trailing ASCII spaces and tabs.
pub open spec fn trim_back(b: Seq<u8>) -> Seq<u8>
    decreases b.len(),
{
    if b.len() > 0 && (b.last() == 32 || b.last() == 9) {
        trim_back(b.drop_last())
    } else {
        b
    }
}

/// A byte string without its leading and trailing ASCII spaces and tabs.
pub open spec fn spec_trim(b: Seq<u8>) -> Seq<u8> {
    trim_back(trim_front(b))
}

/// Index of the first colon at or past `i`, or the length.
pub open spec fn colon_idx(b: Seq<u8>, i: int) -> int
    decreases b.len() - i,
{
    if i < 0 || i >= b.len() {
        b.len() as int
    } else if b[i] == 58 {
        i
    } else {
        colon_idx(b, i + 1)
    }
}

/// The name/value split of one header line: the part before the first
/// colon, trimmed of ASCII spaces and tabs and with ASCII letters
/// lowercased, and the part after it, trimmed; a line without a colon
/// has none.
pub open spec fn spec_header_line(b: Seq<u8>) -> Option<(Seq<u8>, Seq<u8>)> {
    let p = colon_idx(b, 0);
    if p < b.len() {
        Some(
            (
                crate::config::ascii_lower_bytes(spec_trim(b.take(p))),
                spec_trim(b.skip(p + 1)),
            ),
        )
    } else {
        None
    }
}

/// One header line split into a lowercased name and a value: exactly the
/// pieces [`spec_header_line`] names, as strings when they are UTF-8.
pub fn parse_header_line(line: &str) -> (r: Option<(String, String)>)
    ensures
        match spec_header_line(line.spec_bytes()) {
            Some(kv) => (if vstd::utf8::valid_utf8(kv.0) && vstd::utf8::valid_utf8(kv.1) {
                r matches Some(p) && vstd::utf8::encode_utf8(p.0@) == kv.0
                    && vstd::utf8::encode_utf8(p.1@) == kv.1
            } else {
                r is None
            }),
            None => r is None,
        },
{
    let b = line.as_bytes();
    let n = b.len();
    let mut p: usize = 0;
    while p < n && b[p] != 58
        invariant
            n == b@.len(),
            b@ == line.spec_bytes(),
            p <= n,
            colon_idx(b@, 0) == colon_idx(b@, p as int),
        decreases n - p,
    {
        p = p + 1;
    }
    if p >= n {
        return None;
    }
    let name_raw = vstd::slice::slice_subrange(b, 0, p);
    let value_raw = vstd::slice::slice_subrange(b, p + 1, n);
    proof {
        assert(name_raw@ =~= line.spec_bytes().take(p as int));
        assert(value_raw@ =~= line.spec_bytes().skip(p as int + 1));
    }
    let name_trimmed = trim_ascii_spaces(name_raw);
    let value_trimmed = trim_ascii_spaces(value_raw);
    let mut name_low: Vec<u8> = Vec::new();
    let mut i: usize = 0;
    while i < name_trimmed.len()
        invariant
            i <= name_trimmed@.len(),
            name_low@.len() == i,
            forall|j: int|
                0 <= j < i ==> #[trigger] name_low@[j] == crate::config::ascii_lower_byte(
                    name_trimmed@[j],
                ),
        decreases name_trimmed@.len() - i,
    {
        let c = name_trimmed[i];
        if c >= 65 && c <= 90 {
            name_low.push(c + 32);
        } else {
            name_low.push(c);
        }
        i = i + 1;
    }
    proof {
        assert(name_low@ =~= crate::config::ascii_lower_bytes(name_trimmed@));
    }
    let name = match crate::util::bytes_to_string(name_low.as_slice()) {
        Some(s) => s,
        None => {
            return None;
        },
    };
    let value = match crate::util::bytes_to_string(value_trimmed) {
        Some(s) => s,
        None => {
            return None;
        },
    };
    Some((name, value))
}

/// The `;`-separated fragments of a Set-Cookie value from `start`,
/// scanning at `i`; empty fragments are skipped.
pub open spec fn cookie_frags(b: Seq<u8>, start: int, i: int) -> Seq<Seq<u8>>
    decreases b.len() - i,
{
    if i >= b.len() || i < start || start < 0 {
        if 0 <= start < b.len() {
            seq![b.subrange(start, b.len() as int)]
        } else {
            Seq::empty()
        }
    } else if b[i] == 59 {
        (if start < i {
            seq![b.subrange(start, i)]
        } else {
            Seq::<Seq<u8>>::empty()
        }) + cookie_frags(b, i + 1, i + 1)
    } else {
        cookie_frags(b, start, i + 1)
    }
}

/// Whether a fragment, trimmed, parses as a cookie whose name marks a
/// challenge cookie, and is UTF-8 so it can be handed out.
pub open spec fn keep_frag(f: Seq<u8>) -> bool {
    &&& (cookie_parsed_name(spec_trim(f)) matches Some(n) && spec_challenge_cookie_name(
        vstd::utf8::encode_utf8(n),
    ))
    &&& vstd::utf8::valid_utf8(spec_trim(f))
}

/// The trimmed fragments that are kept, in order.
pub open spec fn kept_frags(fs: Seq<Seq<u8>>) -> Seq<Seq<u8>>
    decreases fs.len(),
{
    if fs.len() == 0 {
        Seq::empty()
    } else {
        (if keep_frag(fs[0]) {
            seq![spec_trim(fs[0])]
        } else {
            Seq::<Seq<u8>>::empty()
        }) + kept_frags(fs.drop_first())
    }
}

/// The models of a string list, as UTF-8 bytes.
pub open spec fn strings_bytes(v: Seq<String>) -> Seq<Seq<u8>> {
    Seq::new(v.len(), |k: int| vstd::utf8::encode_utf8(v[k]@))
}

/// Whether a pending challenge is expired at the given second.
pub open spec fn spec_challenge_expired(st: ChallengeState, now: u64) -> bool {
    now > st.timestamp && now - st.timestamp >= CHALLENGE_TIMEOUT
}

/// A region without its leading and trailing ASCII spaces and tabs.
fn trim_ascii_spaces(b: &[u8]) -> (r: &[u8])
    ensures
        r@ == spec_trim(b@),
        r@.len() <= b@.len(),
{
    let mut lo: usize = 0;
    proof {
        assert(b@.skip(0) =~= b@);
    }
    while lo < b.len() && (b[lo] == 32 || b[lo] == 9)
        invariant
            lo <= b@.len(),
            trim_front(b@) == trim_front(b@.skip(lo as int)),
        decreases b@.len() - lo,
    {
        proof {
            assert(b@.skip(lo as int)[0] == b@[lo as int]);
            assert(b@.skip(lo as int).drop_first() =~= b@.skip(lo as int + 1));
        }
        lo = lo + 1;
    }
    proof {
        assert(trim_front(b@.skip(lo as int)) == b@.skip(lo as int));
    }
    let ghost x = b@.skip(lo as int);
    let mut hi: usize = b.len();
    proof {
        assert(x.take(b@.len() - lo as int) =~= x);
    }
    while hi > lo && (b[hi - 1] == 32 || b[hi - 1] == 9)
        invariant
            lo <= hi <= b@.len(),
            x == b@.skip(lo as int),
            trim_back(x) == trim_back(x.take(hi - lo)),
        decreases hi,
    {
        proof {
            assert(x.take(hi - lo).last() == b@[hi - 1]);
            assert(x.take(hi - lo).drop_last() =~= x.take(hi - 1 - lo));
        }
        hi = hi - 1;
    }
    proof {
        assert(trim_back(x.take(hi - lo)) == x.take(hi - lo));
    }
    let r = vstd::slice::slice_subrange(b, lo, hi);
    proof {
        assert(r@ =~= x.take(hi - lo));
    }
    r
}

/// The name the cookie crate reads out of a cookie fragment, if it parses.
pub uninterp spec fn cookie_parsed_name(s: Seq<u8>) -> Option<Seq<char>>;

/// Relies on cookie::Cookie::parse to read a `name=value` cookie fragment;
/// returns the parsed name, which depends on the fragment alone, or
/// nothing when the fragment does not parse or is not UTF-8.
#[verifier::external_body]
fn cookie_name_of_fragment(b: &[u8]) -> (r: Option<String>)
    ensures
        match r {
            Some(n) => cookie_parsed_name(b@) == Some(n@),
            None => cookie_parsed_name(b@) is None,
        },
{
    let s = std::str::from_utf8(b).ok()?;
    let c = cookie::Cookie::parse(s).ok()?;
    Some(c.name().to_string())
}

/// Whether a cookie name marks a challenge cookie: a `__cf` or `cf_`
/// prefix, or exactly `cf_clearance` or `__cfduid`.
pub open spec fn spec_challenge_cookie_name(n: Seq<u8>) -> bool {
    ||| (n.len() >= 4 && n.subrange(0, 4) == "__cf".spec_bytes())
    ||| (n.len() >= 3 && n.subrange(0, 3) == "cf_".spec_bytes())
    ||| n == "cf_clearance".spec_bytes()
    ||| n == "__cfduid".spec_bytes()
}

/// Whether a cookie name marks a challenge cookie.
pub fn is_challenge_cookie_name(name: &str) -> (r: bool)
    ensures
        r == spec_challenge_cookie_name(name.spec_bytes()),
{
    let nb = name.as_bytes();
    if nb.len() >= 4 {
        let head = vstd::slice::slice_subrange(nb, 0, 4);
        if crate::util::bytes_eq(head, "__cf".as_bytes()) {
            proof {
                assert(head@ =~= name.spec_bytes().subrange(0, 4));
            }
            return true;
        }
    }
    if nb.len() >= 3 {
        let head = vstd::slice::slice_subrange(nb, 0, 3);
        if crate::util::bytes_eq(head, "cf_".as_bytes()) {
            proof {
                assert(head@ =~= name.spec_bytes().subrange(0, 3));
            }
            return true;
        }
    }
    if crate::util::bytes_eq(nb, "cf_clearance".as_bytes()) {
        return true;
    }
    if crate::util::bytes_eq(nb, "__cfduid".as_bytes()) {
        return true;
    }
    proof {
        if name.spec_bytes().len() >= 4 {
            assert(name.spec_bytes().subrange(0, 4) =~= nb@.subrange(0, 4));
        }
        if name.spec_bytes().len() >= 3 {
            assert(name.spec_bytes().subrange(0, 3) =~= nb@.subrange(0, 3));
        }
    }
    false
}

} // verus!
