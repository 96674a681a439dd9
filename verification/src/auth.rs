//! The session-token cache: issues tokens on a correct secret exchange,
//! validates and refreshes tokens on use, and evicts tokens idle past the
//! TTL.

use crate::strutil::str_eq;
use crate::token::{token_charset, ApiToken, TOKEN_LEN};
use vstd::prelude::*;

verus! {

/// Seconds of inactivity after which a token expires.
pub const TOKEN_TTL_SECS: u64 = 3600;

/// The map from token values to their last-seen timestamps that a list of
/// entries represents; a later entry for the same value wins.
pub open spec fn entries_map(s: Seq<(ApiToken, u64)>) -> Map<Seq<char>, u64>
    decreases s.len(),
{
    if s.len() == 0 {
        Map::empty()
    } else {
        entries_map(s.drop_last()).insert(s.last().0@, s.last().1)
    }
}

/// No two entries carry the same token value.
pub open spec fn entries_unique(s: Seq<(ApiToken, u64)>) -> bool {
    forall|i: int, j: int| 0 <= i < j < s.len() ==> s[i].0@ != s[j].0@
}

/// A token is live at `now` when it is known and its last use lies within
/// the TTL.
pub open spec fn token_live(m: Map<Seq<char>, u64>, t: Seq<char>, now: u64) -> bool {
    m.contains_key(t) && now <= m[t] + TOKEN_TTL_SECS
}

/// The cache after a validation attempt of `t` at `now`: refreshed when
/// live, evicted otherwise.
pub open spec fn after_check(m: Map<Seq<char>, u64>, t: Seq<char>, now: u64) -> Map<
    Seq<char>,
    u64,
> {
    if token_live(m, t, now) {
        m.insert(t, now)
    } else {
        m.remove(t)
    }
}

proof fn lemma_entries_map_contains(s: Seq<(ApiToken, u64)>, k: Seq<char>)
    ensures
        entries_map(s).contains_key(k) <==> exists|i: int| 0 <= i < s.len() && s[i].0@ == k,
    decreases s.len(),
{
    if s.len() > 0 {
        lemma_entries_map_contains(s.drop_last(), k);
        if s.last().0@ == k {
            assert(s[s.len() - 1].0@ == k);
        } else if exists|i: int| 0 <= i < s.len() && s[i].0@ == k {
            let i = choose|i: int| 0 <= i < s.len() && s[i].0@ == k;
            assert(s.drop_last()[i] == s[i]);
        }
    }
}

proof fn lemma_entries_map_at(s: Seq<(ApiToken, u64)>, i: int)
    requires
        entries_unique(s),
        0 <= i < s.len(),
    ensures
        entries_map(s).contains_key(s[i].0@),
        entries_map(s)[s[i].0@] == s[i].1,
    decreases s.len(),
{
    if i == s.len() - 1 {
    } else {
        assert(s.drop_last()[i] == s[i]);
        lemma_entries_map_at(s.drop_last(), i);
        assert(s[i].0@ != s.last().0@);
    }
}

proof fn lemma_entries_map_update(s: Seq<(ApiToken, u64)>, i: int, e: (ApiToken, u64))
    requires
        entries_unique(s),
        0 <= i < s.len(),
        e.0@ == s[i].0@,
    ensures
        entries_map(s.update(i, e)) == entries_map(s).insert(e.0@, e.1),
    decreases s.len(),
{
    if i == s.len() - 1 {
        assert(s.update(i, e).drop_last() =~= s.drop_last());
        assert(s.update(i, e).last() == e);
        assert(entries_map(s.drop_last()).insert(s.last().0@, s.last().1).insert(e.0@, e.1)
            =~= entries_map(s.drop_last()).insert(e.0@, e.1));
    } else {
        assert(s.update(i, e).drop_last() =~= s.drop_last().update(i, e));
        assert(s.drop_last()[i] == s[i]);
        lemma_entries_map_update(s.drop_last(), i, e);
        assert(s.update(i, e).last() == s.last());
        // The updated key differs from the last entry's key, so the two
        // inserts commute.
        assert(e.0@ != s.last().0@);
        assert(entries_map(s.drop_last()).insert(e.0@, e.1).insert(s.last().0@, s.last().1)
            =~= entries_map(s.drop_last()).insert(s.last().0@, s.last().1).insert(e.0@, e.1));
    }
}

proof fn lemma_entries_map_remove(s: Seq<(ApiToken, u64)>, i: int)
    requires
        entries_unique(s),
        0 <= i < s.len(),
    ensures
        entries_map(s.remove(i)) == entries_map(s).remove(s[i].0@),
    decreases s.len(),
{
    if i == s.len() - 1 {
        assert(s.remove(i) =~= s.drop_last());
        lemma_entries_map_contains(s.drop_last(), s[i].0@);
        assert(!entries_map(s.drop_last()).contains_key(s[i].0@)) by {
            if entries_map(s.drop_last()).contains_key(s[i].0@) {
                let j = choose|j: int|
                    0 <= j < s.drop_last().len() && s.drop_last()[j].0@ == s[i].0@;
                assert(s[j].0@ == s[i].0@);
            }
        };
        assert(entries_map(s.drop_last()) =~= entries_map(s.drop_last()).insert(
            s.last().0@,
            s.last().1,
        ).remove(s[i].0@));
    } else {
        assert(s.remove(i).drop_last() =~= s.drop_last().remove(i));
        assert(s.drop_last()[i] == s[i]);
        lemma_entries_map_remove(s.drop_last(), i);
        assert(s.remove(i).last() == s.last());
        assert(s[i].0@ != s.last().0@);
        assert(entries_map(s.drop_last()).remove(s[i].0@).insert(s.last().0@, s.last().1)
            =~= entries_map(s.drop_last()).insert(s.last().0@, s.last().1).remove(s[i].0@));
    }
}

/// The shape in which a request may carry its token as a query parameter.
pub struct TokenQuery {
    pub api_token: Option<String>,
}

/// The token value a request presents, taking the cookie first, then the
/// header, then the query parameter.
pub fn select_api_token(
    cookie: Option<String>,
    header: Option<String>,
    query: Option<String>,
) -> (r: Option<String>)
    ensures
        r == if cookie is Some {
            cookie
        } else if header is Some {
            header
        } else {
            query
        },
{
    match cookie {
        Some(c) => Some(c),
        None => match header {
            Some(h) => Some(h),
            None => query,
        },
    }
}

/// The session cache: the configured secret and the known tokens with
/// their last-seen timestamps.
pub struct TokenManager {
    secret: String,
    tokens: Vec<(ApiToken, u64)>,
}

impl TokenManager {
    /// The map from live token values to their last-seen timestamps.
    pub closed spec fn tokens_map(&self) -> Map<Seq<char>, u64> {
        entries_map(self.tokens@)
    }

    /// The configured shared secret.
    pub closed spec fn secret_view(&self) -> Seq<char> {
        self.secret@
    }

    /// Internal consistency: one entry per token value.
    pub closed spec fn wf(&self) -> bool {
        entries_unique(self.tokens@)
    }

    /// An empty cache guarding `secret`.
    pub fn new(secret: &str) -> (r: TokenManager)
        ensures
            r.wf(),
            r.secret_view() == secret@,
            r.tokens_map() == Map::<Seq<char>, u64>::empty(),
    {
        TokenManager { secret: String::from_str(secret), tokens: Vec::new() }
    }

    /// Generate a fresh token and record it as last seen at `now`.
    pub fn new_token(&mut self, now: u64) -> (r: ApiToken)
        requires
            old(self).wf(),
        ensures
            final(self).wf(),
            final(self).secret_view() == old(self).secret_view(),
            r@.len() == TOKEN_LEN,
            forall|i: int| 0 <= i < r@.len() ==> token_charset().contains(r@[i]),
            final(self).tokens_map() == old(self).tokens_map().insert(r@, now),
    {
        let t = ApiToken::new();
        let stored = t.clone();
        let n = self.tokens.len();
        let mut i: usize = 0;
        while i < n
            invariant
                n == self.tokens.len(),
                0 <= i <= n,
                stored@ == t@,
                t@.len() == TOKEN_LEN,
                forall|k: int| 0 <= k < t@.len() ==> token_charset().contains(t@[k]),
                self.tokens@ == old(self).tokens@,
                self.secret@ == old(self).secret@,
                entries_unique(self.tokens@),
                forall|j: int| 0 <= j < i ==> self.tokens@[j].0@ != t@,
            decreases n - i,
        {
            if str_eq(self.tokens[i].0.as_str(), t.as_str()) {
                proof {
                    lemma_entries_map_update(self.tokens@, i as int, (stored, now));
                }
                self.tokens.set(i, (stored, now));
                proof {
                    assert forall|a: int, b: int|
                        0 <= a < b < self.tokens@.len() implies self.tokens@[a].0@
                        != self.tokens@[b].0@ by {
                        assert(old(self).tokens@[a].0@ != old(self).tokens@[b].0@);
                    };
                }
                return t;
            }
            i += 1;
        }
        proof {
            lemma_entries_map_contains(self.tokens@, t@);
        }
        self.tokens.push((stored, now));
        proof {
            assert(self.tokens@.drop_last() =~= old(self).tokens@);
        }
        t
    }

    /// Check a presented token at time `now`: a live token is refreshed
    /// and accepted; a stale or unknown one is evicted and refused.
    pub fn token_valid(&mut self, token: &ApiToken, now: u64) -> (r: bool)
        requires
            old(self).wf(),
        ensures
            final(self).wf(),
            final(self).secret_view() == old(self).secret_view(),
            r == token_live(old(self).tokens_map(), token@, now),
            final(self).tokens_map() == after_check(old(self).tokens_map(), token@, now),
    {
        let n = self.tokens.len();
        let mut i: usize = 0;
        while i < n
            invariant
                n == self.tokens.len(),
                0 <= i <= n,
                self.tokens@ == old(self).tokens@,
                self.secret@ == old(self).secret@,
                entries_unique(self.tokens@),
                forall|j: int| 0 <= j < i ==> self.tokens@[j].0@ != token@,
            decreases n - i,
        {
            if str_eq(self.tokens[i].0.as_str(), token.as_str()) {
                let last = self.tokens[i].1;
                proof {
                    lemma_entries_map_at(self.tokens@, i as int);
                }
                if now <= last || now - last <= TOKEN_TTL_SECS {
                    let refreshed = ApiToken::from_string(token.as_str());
                    proof {
                        lemma_entries_map_update(self.tokens@, i as int, (refreshed, now));
                    }
                    self.tokens.set(i, (refreshed, now));
                    proof {
                        assert forall|a: int, b: int|
                            0 <= a < b < self.tokens@.len() implies self.tokens@[a].0@
                            != self.tokens@[b].0@ by {
                            assert(old(self).tokens@[a].0@ != old(self).tokens@[b].0@);
                        };
                    }
                    return true;
                } else {
                    proof {
                        lemma_entries_map_remove(self.tokens@, i as int);
                    }
                    self.tokens.remove(i);
                    proof {
                        assert forall|a: int, b: int|
                            0 <= a < b < self.tokens@.len() implies self.tokens@[a].0@
                            != self.tokens@[b].0@ by {
                            let sa = if a < i { a } else { a + 1 };
                            let sb = if b < i { b } else { b + 1 };
                            assert(old(self).tokens@[sa].0@ != old(self).tokens@[sb].0@);
                        };
                    }
                    return false;
                }
            }
            i += 1;
        }
        proof {
            lemma_entries_map_contains(self.tokens@, token@);
            assert(self.tokens_map() =~= self.tokens_map().remove(token@));
        }
        false
    }

    /// Exchange the shared secret for a fresh token: issued only when the
    /// provided secret matches the configured one exactly.
    pub fn issue(&mut self, provided: &str, now: u64) -> (r: Option<ApiToken>)
        requires
            old(self).wf(),
        ensures
            final(self).wf(),
            final(self).secret_view() == old(self).secret_view(),
            r is Some <==> provided@ == old(self).secret_view(),
            match r {
                Some(t) => {
                    &&& t@.len() == TOKEN_LEN
                    &&& forall|i: int| 0 <= i < t@.len() ==> token_charset().contains(t@[i])
                    &&& final(self).tokens_map() == old(self).tokens_map().insert(t@, now)
                },
                None => final(self).tokens_map() == old(self).tokens_map(),
            },
    {
        let matches_secret = str_eq(provided, self.secret.as_str());
        if matches_secret {
            Some(self.new_token(now))
        } else {
            None
        }
    }
}

/// The lifecycle of an issued token: it validates at any time within the
/// TTL of its issue; once the TTL has elapsed without use it is refused
/// and evicted, after which it is refused at every later time as well.
pub proof fn lemma_token_lifecycle(
    m: Map<Seq<char>, u64>,
    t: Seq<char>,
    issued: u64,
    now1: u64,
    now2: u64,
)
    requires
        now1 <= issued + TOKEN_TTL_SECS,
        now2 > issued + TOKEN_TTL_SECS,
    ensures
        token_live(m.insert(t, issued), t, now1),
        !token_live(m.insert(t, issued), t, now2),
        forall|now3: u64| !token_live(after_check(m.insert(t, issued), t, now2), t, now3),
{
    assert forall|now3: u64| !token_live(
        after_check(m.insert(t, issued), t, now2),
        t,
        now3,
    ) by {
        assert(!after_check(m.insert(t, issued), t, now2).contains_key(t));
    };
}

} // verus!
