//! The admission cache: credentials that passed external verification,
//! with the origin they came from and the second they were admitted.
//! A credential is admitted again without verification while its record is
//! live, that is at most `VALIDITY_WINDOW_SECS` seconds old.

use crate::keyed::{assoc_view, find_key, insert_key, keys_unique, lemma_view_at};
use vstd::prelude::*;

verus! {

/// How long, in seconds, an admission stays valid.
pub const VALIDITY_WINDOW_SECS: u64 = 120;

/// A record stamped at `issued` is live at `now`: at most
/// `VALIDITY_WINDOW_SECS` seconds old (a stamp later than `now` counts as
/// live).
pub open spec fn is_live(issued: u64, now: u64) -> bool {
    now as int - issued as int <= VALIDITY_WINDOW_SECS as int
}

/// The cache admits `credential` from `origin` at `now` without verification.
pub open spec fn admits(
    m: Map<Seq<char>, (u64, Seq<char>)>,
    credential: Seq<char>,
    origin: Seq<char>,
    now: u64,
) -> bool {
    &&& m.contains_key(credential)
    &&& m[credential].1 == origin
    &&& is_live(m[credential].0, now)
}

/// The records of `m` that are still live at `now`.
pub open spec fn swept(m: Map<Seq<char>, (u64, Seq<char>)>, now: u64) -> Map<
    Seq<char>,
    (u64, Seq<char>),
> {
    Map::new(|k: Seq<char>| m.contains_key(k) && is_live(m[k].0, now), |k: Seq<char>| m[k])
}

/// Relies on std::time::SystemTime::now and its duration since
/// UNIX_EPOCH: the wall-clock time in whole seconds, 0 for a clock set
/// before the epoch. Nothing is promised of the value.
#[verifier::external_body]
fn unix_time_secs() -> (r: u64) {
    match std::time::SystemTime::now().duration_since(std::time::UNIX_EPOCH) {
        Ok(d) => d.as_secs(),
        Err(_) => 0,
    }
}

/// Credential -> (second of admission, origin); at most one record per
/// credential.
pub struct TokenCache {
    tokens: Vec<(String, (u64, String))>,
}

impl View for TokenCache {
    type V = Map<Seq<char>, (u64, Seq<char>)>;

    closed spec fn view(&self) -> Map<Seq<char>, (u64, Seq<char>)> {
        assoc_view(self.tokens@).map_values(|v: (u64, String)| (v.0, v.1@))
    }
}

impl TokenCache {
    #[verifier::type_invariant]
    spec fn inv(self) -> bool {
        keys_unique(self.tokens@)
    }

    /// An empty cache.
    pub fn new() -> (r: Self)
        ensures
            r@ == Map::<Seq<char>, (u64, Seq<char>)>::empty(),
    {
        let r = TokenCache { tokens: Vec::new() };
        assert(r@ =~= Map::<Seq<char>, (u64, Seq<char>)>::empty());
        r
    }

    /// Whether `token` is admitted from `ip` at second `now`.
    pub fn is_valid_at(&self, token: &String, ip: &String, now: u64) -> (r: bool)
        ensures
            r == admits(self@, token@, ip@, now),
    {
        proof {
            use_type_invariant(self);
        }
        match find_key(&self.tokens, token) {
            Some(i) => {
                proof {
                    lemma_view_at(self.tokens@, i as int);
                }
                let (issued, stored_ip) = (self.tokens[i].1.0, &self.tokens[i].1.1);
                (now as i128) - (issued as i128) <= VALIDITY_WINDOW_SECS as i128 && *stored_ip == *ip
            },
            None => false,
        }
    }

    /// Whether `token` is admitted from `ip` now, by the system clock. The
    /// cache is left as it is.
    pub fn is_valid(&mut self, token: &str, ip: &str) -> (r: bool)
        ensures
            final(self)@ == old(self)@,
            exists|now: u64| r == admits(old(self)@, token@, ip@, now),
    {
        let now = unix_time_secs();
        let t = String::from_str(token);
        let i = String::from_str(ip);
        self.is_valid_at(&t, &i, now)
    }

    /// Records that `token` was verified from `ip` at second `now`,
    /// replacing any earlier record of it.
    pub fn add_token_at(&mut self, token: String, ip: String, now: u64)
        ensures
            final(self)@ == old(self)@.insert(token@, (now, ip@)),
    {
        proof {
            use_type_invariant(&*self);
        }
        let ghost k = token@;
        let ghost ipv = ip@;
        let mut tokens = Vec::new();
        std::mem::swap(&mut self.tokens, &mut tokens);
        insert_key(&mut tokens, token, (now, ip));
        self.tokens = tokens;
        proof {
            assert(self@ =~= old(self)@.insert(k, (now, ipv)));
        }
    }

    /// Records that `token` was verified from `ip`, stamped with the system
    /// clock.
    pub fn add_token(&mut self, token: String, ip: String)
        ensures
            exists|now: u64| final(self)@ == old(self)@.insert(token@, (now, ip@)),
    {
        let now = unix_time_secs();
        self.add_token_at(token, ip, now);
    }

    /// Drops every record that is no longer live at second `now`.
    pub fn clean_old_tokens_at(&mut self, now: u64)
        ensures
            final(self)@ == swept(old(self)@, now),
    {
        proof {
            use_type_invariant(&*self);
        }
        let mut tokens = Vec::new();
        std::mem::swap(&mut self.tokens, &mut tokens);
        let ghost o = tokens@;
        let mut kept: Vec<(String, (u64, String))> = Vec::new();
        let ghost mut src: Seq<int> = Seq::empty();
        let n = tokens.len();
        let mut i: usize = 0;
        while i < n
            invariant
                n == o.len(),
                i <= n,
                tokens@ == o,
                keys_unique(o),
                kept@.len() == src.len(),
                forall|j: int| 0 <= j < src.len() ==> 0 <= #[trigger] src[j] < i,
                forall|j: int| 0 <= j < src.len() ==> kept@[j] == o[#[trigger] src[j]],
                forall|j: int| 0 <= j < src.len() ==> is_live(o[#[trigger] src[j]].1.0, now),
                forall|a: int, b: int| 0 <= a < b < src.len() ==> src[a] < src[b],
                forall|p: int|
                    0 <= p < i && is_live(#[trigger] o[p].1.0, now) ==> exists|j: int|
                        0 <= j < src.len() && src[j] == p,
            decreases n - i,
        {
            let issued = tokens[i].1.0;
            let ghost src0 = src;
            if (now as i128) - (issued as i128) <= VALIDITY_WINDOW_SECS as i128 {
                kept.push((tokens[i].0.clone(), (issued, tokens[i].1.1.clone())));
                proof {
                    src = src.push(i as int);
                }
            }
            proof {
                assert forall|p: int|
                    0 <= p < i + 1 && is_live(#[trigger] o[p].1.0, now) implies exists|j: int|
                        0 <= j < src.len() && src[j] == p by {
                    if p < i {
                        let j = choose|j: int| 0 <= j < src0.len() && src0[j] == p;
                        assert(src[j] == p);
                    } else {
                        assert(src[src.len() - 1] == p);
                    }
                }
            }
            i = i + 1;
        }
        proof {
            let m = kept@;
            assert forall|a: int, b: int| 0 <= a < b < m.len() implies m[a].0@ != m[b].0@ by {
                assert(src[a] < src[b]);
                assert(o[src[a]].0@ != o[src[b]].0@);
            }
            let f = |v: (u64, String)| (v.0, v.1@);
            let ov = assoc_view(o).map_values(f);
            let nv = assoc_view(m).map_values(f);
            assert forall|k: Seq<char>| #[trigger] nv.contains_key(k) == swept(ov, now).contains_key(k)
                && (nv.contains_key(k) ==> nv[k] == swept(ov, now)[k]) by {
                if assoc_view(m).contains_key(k) {
                    let j = choose|j: int| 0 <= j < m.len() && m[j].0@ == k;
                    lemma_view_at(m, j);
                    lemma_view_at(o, src[j]);
                }
                if assoc_view(o).contains_key(k) {
                    let p = choose|p: int| 0 <= p < o.len() && o[p].0@ == k;
                    lemma_view_at(o, p);
                    if is_live(o[p].1.0, now) {
                        let j = choose|j: int| 0 <= j < src.len() && src[j] == p;
                        assert(m[j].0@ == k);
                        lemma_view_at(m, j);
                    }
                }
            }
            assert(nv =~= swept(ov, now));
        }
        self.tokens = kept;
    }

    /// Drops every record that is no longer live by the system clock.
    pub fn clean_old_tokens(&mut self)
        ensures
            exists|now: u64| final(self)@ == swept(old(self)@, now),
    {
        let now = unix_time_secs();
        self.clean_old_tokens_at(now);
    }

    /// First step of an admission check at second `now`. On a live record
    /// for `token` from `ip` the request is admitted and stale records are
    /// swept; otherwise nothing changes and the credential has to be verified
    /// outside, then handed to `record_verification`.
    pub fn check_cached(&mut self, token: &String, ip: &String, now: u64) -> (admitted: bool)
        ensures
            admitted == admits(old(self)@, token@, ip@, now),
            admitted ==> final(self)@ == swept(old(self)@, now),
            !admitted ==> final(self)@ == old(self)@,
    {
        if self.is_valid_at(token, ip, now) {
            self.clean_old_tokens_at(now);
            true
        } else {
            false
        }
    }

    /// Second step of an admission check: `verified` is the outcome of the
    /// outside verification of `token`. A verified credential is recorded
    /// from `ip` at `now`; in either case stale records are swept. Returns
    /// whether the request is admitted.
    pub fn record_verification(&mut self, token: String, ip: String, verified: bool, now: u64) -> (admitted: bool)
        ensures
            admitted == verified,
            verified ==> final(self)@ == swept(old(self)@.insert(token@, (now, ip@)), now),
            !verified ==> final(self)@ == swept(old(self)@, now),
    {
        if verified {
            self.add_token_at(token, ip, now);
        }
        self.clean_old_tokens_at(now);
        verified
    }
}

/// A credential admitted from `origin` at second `t` is admitted again from
/// the same origin, with no new verification, at any second up to `t + 119`,
/// whatever sweeps ran in between.
pub proof fn lemma_admission_persists(
    m: Map<Seq<char>, (u64, Seq<char>)>,
    credential: Seq<char>,
    origin: Seq<char>,
    t: u64,
    sweep_at: u64,
    later: u64,
)
    requires
        t <= sweep_at <= later,
        later as int <= t as int + 119,
    ensures
        admits(m.insert(credential, (t, origin)), credential, origin, later),
        admits(swept(m.insert(credential, (t, origin)), sweep_at), credential, origin, later),
{
}

/// A credential admitted at second `t` and not renewed since is no longer
/// admitted from 121 seconds on: the next check has to verify it again.
pub proof fn lemma_admission_expires(
    m: Map<Seq<char>, (u64, Seq<char>)>,
    credential: Seq<char>,
    origin: Seq<char>,
    t: u64,
    later: u64,
)
    requires
        later as int >= t as int + 121,
    ensures
        !admits(m.insert(credential, (t, origin)), credential, origin, later),
{
}

} // verus!
