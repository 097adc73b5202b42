//! Association lists keyed by strings: a `Vec` of `(key, value)` pairs whose
//! keys are pairwise distinct, viewed as a finite map.

use crate::text::chars_of;
use vstd::prelude::*;

verus! {

/// No key occurs twice.
pub open spec fn keys_unique<V>(s: Seq<(String, V)>) -> bool {
    forall|i: int, j: int| 0 <= i < j < s.len() ==> s[i].0@ != s[j].0@
}

/// Some entry carries the key `k`.
pub open spec fn has_key<V>(s: Seq<(String, V)>, k: Seq<char>) -> bool {
    exists|i: int| 0 <= i < s.len() && s[i].0@ == k
}

/// The map that the list stands for.
pub open spec fn assoc_view<V>(s: Seq<(String, V)>) -> Map<Seq<char>, V> {
    Map::new(
        |k: Seq<char>| has_key(s, k),
        |k: Seq<char>| s[choose|i: int| 0 <= i < s.len() && s[i].0@ == k].1,
    )
}

pub proof fn lemma_view_at<V>(s: Seq<(String, V)>, i: int)
    requires
        keys_unique(s),
        0 <= i < s.len(),
    ensures
        assoc_view(s).contains_key(s[i].0@),
        assoc_view(s)[s[i].0@] == s[i].1,
{
    let k = s[i].0@;
    assert(has_key(s, k));
    let j = choose|j: int| 0 <= j < s.len() && s[j].0@ == k;
    if j != i {
        if j < i {
            assert(s[j].0@ != s[i].0@);
        } else {
            assert(s[i].0@ != s[j].0@);
        }
    }
}

/// Position of the entry with key `k`, if any.
pub fn find_key<V>(s: &Vec<(String, V)>, k: &String) -> (r: Option<usize>)
    ensures
        match r {
            Some(i) => i < s@.len() && s@[i as int].0@ == k@,
            None => !has_key(s@, k@),
        },
{
    let mut i: usize = 0;
    while i < s.len()
        invariant
            i <= s@.len(),
            forall|j: int| 0 <= j < i ==> s@[j].0@ != k@,
        decreases s@.len() - i,
    {
        if s[i].0 == *k {
            return Some(i);
        }
        i = i + 1;
    }
    None
}

/// Sets the value of `k` to `v`: the entry with that key is overwritten in
/// place, or a new entry is appended.
pub fn insert_key<V>(s: &mut Vec<(String, V)>, k: String, v: V)
    requires
        keys_unique(old(s)@),
    ensures
        keys_unique(final(s)@),
        assoc_view(final(s)@) == assoc_view(old(s)@).insert(k@, v),
{
    let ghost kv = k@;
    match find_key(s, &k) {
        Some(i) => {
            s[i] = (k, v);
            proof {
                let o = old(s)@;
                let n = s@;
                assert forall|a: int, b: int| 0 <= a < b < n.len() implies n[a].0@ != n[b].0@ by {
                    assert(o[a].0@ != o[b].0@);
                }
                assert forall|key: Seq<char>| #[trigger] has_key(n, key) == has_key(o, key) by {
                    if has_key(n, key) {
                        let j = choose|j: int| 0 <= j < n.len() && n[j].0@ == key;
                        assert(o[j].0@ == key);
                    }
                    if has_key(o, key) {
                        let j = choose|j: int| 0 <= j < o.len() && o[j].0@ == key;
                        assert(n[j].0@ == key);
                    }
                }
                assert forall|key: Seq<char>| #[trigger] assoc_view(n).contains_key(key)
                    implies assoc_view(n)[key] == assoc_view(o).insert(kv, v)[key] by {
                    let j = choose|j: int| 0 <= j < n.len() && n[j].0@ == key;
                    lemma_view_at(n, j);
                    if j != i as int {
                        lemma_view_at(o, j);
                    }
                }
                assert(assoc_view(n) =~= assoc_view(o).insert(kv, v));
            }
        },
        None => {
            s.push((k, v));
            proof {
                let o = old(s)@;
                let n = s@;
                assert(n == o.push((k, v)));
                assert forall|a: int, b: int| 0 <= a < b < n.len() implies n[a].0@ != n[b].0@ by {
                    if b == o.len() {
                        assert(o[a].0@ != kv);
                    } else {
                        assert(o[a].0@ != o[b].0@);
                    }
                }
                assert forall|key: Seq<char>| #[trigger] has_key(n, key) == (has_key(o, key) || key == kv) by {
                    if has_key(n, key) {
                        let j = choose|j: int| 0 <= j < n.len() && n[j].0@ == key;
                        if j < o.len() {
                            assert(o[j].0@ == key);
                        }
                    }
                    if has_key(o, key) {
                        let j = choose|j: int| 0 <= j < o.len() && o[j].0@ == key;
                        assert(n[j].0@ == key);
                    }
                    if key == kv {
                        assert(n[o.len() as int].0@ == key);
                    }
                }
                assert forall|key: Seq<char>| #[trigger] assoc_view(n).contains_key(key)
                    implies assoc_view(n)[key] == assoc_view(o).insert(kv, v)[key] by {
                    let j = choose|j: int| 0 <= j < n.len() && n[j].0@ == key;
                    lemma_view_at(n, j);
                    if j < o.len() {
                        lemma_view_at(o, j);
                    }
                }
                assert(assoc_view(n) =~= assoc_view(o).insert(kv, v));
            }
        },
    }
}

/// Modulus of the string hash.
pub const HASH_MODULUS: u64 = 1_000_000_007;

/// Polynomial hash of a character sequence, base 31, modulo `HASH_MODULUS`.
pub open spec fn str_hash(s: Seq<char>) -> nat
    decreases s.len(),
{
    if s.len() == 0 {
        0
    } else {
        ((str_hash(s.drop_last()) * 31 + s.last() as u32 as nat) % (HASH_MODULUS as nat)) as nat
    }
}

pub fn hash_of(s: &String) -> (h: u64)
    ensures
        h as nat == str_hash(s@),
        h < HASH_MODULUS,
{
    let cs = chars_of(s.as_str());
    let mut h: u64 = 0;
    let mut i: usize = 0;
    while i < cs.len()
        invariant
            i <= cs@.len(),
            cs@ == s@,
            h as nat == str_hash(cs@.take(i as int)),
            h < HASH_MODULUS,
        decreases cs@.len() - i,
    {
        assert(cs@.take(i as int + 1).drop_last() == cs@.take(i as int));
        let c = cs[i] as u32 as u64;
        assert(h * 31 + c < 0x1_0000_0000_0000) by (nonlinear_arith)
            requires h < HASH_MODULUS, c < 0x1_0000_0000;
        h = (h * 31 + c) % HASH_MODULUS;
        i = i + 1;
    }
    assert(cs@.take(cs@.len() as int) == cs@);
    h
}

/// Hash map from strings to `V`: separate chaining over a fixed number of
/// buckets, each an association list.
pub struct StrMap<V> {
    buckets: Vec<Vec<(String, V)>>,
}

/// Bucket of key `k` among `n` buckets.
pub open spec fn bucket_of(k: Seq<char>, n: nat) -> int {
    (str_hash(k) % n) as int
}

impl<V> View for StrMap<V> {
    type V = Map<Seq<char>, V>;

    closed spec fn view(&self) -> Map<Seq<char>, V> {
        let n = self.buckets@.len();
        Map::new(
            |k: Seq<char>| assoc_view(self.buckets@[bucket_of(k, n)]@).contains_key(k),
            |k: Seq<char>| assoc_view(self.buckets@[bucket_of(k, n)]@)[k],
        )
    }
}

impl<V> StrMap<V> {
    #[verifier::type_invariant]
    spec fn inv(self) -> bool {
        &&& self.buckets@.len() > 0
        &&& forall|b: int| 0 <= b < self.buckets@.len() ==> keys_unique(#[trigger] self.buckets@[b]@)
    }

    /// An empty map with `buckets` chains (at least one).
    pub fn with_buckets(buckets: usize) -> (r: Self)
        ensures
            r@ == Map::<Seq<char>, V>::empty(),
    {
        let n: usize = if buckets == 0 { 1 } else { buckets };
        let mut bs: Vec<Vec<(String, V)>> = Vec::new();
        let mut i: usize = 0;
        while i < n
            invariant
                i <= n,
                bs@.len() == i,
                forall|b: int| 0 <= b < i ==> (#[trigger] bs@[b])@.len() == 0,
            decreases n - i,
        {
            bs.push(Vec::new());
            i = i + 1;
        }
        let r = StrMap { buckets: bs };
        assert(r@ =~= Map::<Seq<char>, V>::empty());
        r
    }

    /// The value of `k`, if any.
    pub fn get(&self, k: &String) -> (r: Option<&V>)
        ensures
            match r {
                Some(v) => self@.contains_key(k@) && *v == self@[k@],
                None => !self@.contains_key(k@),
            },
    {
        proof {
            use_type_invariant(self);
        }
        let n = self.buckets.len();
        let b = (hash_of(k) % (n as u64)) as usize;
        assert(b == bucket_of(k@, n as nat));
        let bucket = &self.buckets[b];
        match find_key(bucket, k) {
            Some(i) => {
                proof {
                    lemma_view_at(bucket@, i as int);
                }
                Some(&bucket[i].1)
            },
            None => None,
        }
    }

    /// Sets the value of `k` to `v`.
    pub fn insert(&mut self, k: String, v: V)
        ensures
            final(self)@ == old(self)@.insert(k@, v),
    {
        proof {
            use_type_invariant(&*self);
        }
        let ghost kv = k@;
        let ghost o = self.buckets@;
        let n = self.buckets.len();
        let b = (hash_of(&k) % (n as u64)) as usize;
        assert(b == bucket_of(kv, n as nat));
        let mut bs: Vec<Vec<(String, V)>> = Vec::new();
        bs.push(Vec::new());
        std::mem::swap(&mut self.buckets, &mut bs);
        let mut bucket: Vec<(String, V)> = Vec::new();
        std::mem::swap(&mut bs[b], &mut bucket);
        assert(bucket@ == o[b as int]@);
        insert_key(&mut bucket, k, v);
        bs.set(b, bucket);
        proof {
            assert(bs@ == o.update(b as int, bucket));
            assert forall|c: int| 0 <= c < bs@.len() implies keys_unique(#[trigger] bs@[c]@) by {
                if c != b {
                    assert(bs@[c] == o[c]);
                }
            }
        }
        self.buckets = bs;
        proof {
            assert(self@ =~= old(self)@.insert(kv, v));
        }
    }
}

} // verus!
