//! Exact, integer parts of TF-IDF scoring: the term counts of a query (its
//! term-frequency vector is count / number of terms) and the terms a
//! document shares with it, from which the cosine similarity is computed.

use crate::database::{Keyword, Webpage};
use crate::keyed::{assoc_view, find_key, keys_unique, lemma_view_at};
use vstd::prelude::*;

verus! {

/// Number of occurrences of `t` in `s`.
pub open spec fn count_of(s: Seq<Seq<char>>, t: Seq<char>) -> nat
    decreases s.len(),
{
    if s.len() == 0 {
        0
    } else {
        count_of(s.drop_last(), t) + if s.last() == t {
            1nat
        } else {
            0nat
        }
    }
}

/// The distinct terms of `s`, in order of first occurrence.
pub open spec fn distinct_terms(s: Seq<Seq<char>>) -> Seq<Seq<char>>
    decreases s.len(),
{
    if s.len() == 0 {
        Seq::empty()
    } else {
        let d = distinct_terms(s.drop_last());
        if d.contains(s.last()) {
            d
        } else {
            d.push(s.last())
        }
    }
}

/// Sum of the counts in `s` of the terms of `d`.
pub open spec fn sum_counts(d: Seq<Seq<char>>, s: Seq<Seq<char>>) -> nat
    decreases d.len(),
{
    if d.len() == 0 {
        0
    } else {
        sum_counts(d.drop_last(), s) + count_of(s, d.last())
    }
}

proof fn lemma_distinct_terms(s: Seq<Seq<char>>)
    ensures
        distinct_terms(s).no_duplicates(),
        forall|t: Seq<char>| distinct_terms(s).contains(t) <==> s.contains(t),
        forall|t: Seq<char>| !s.contains(t) ==> count_of(s, t) == 0,
    decreases s.len(),
{
    if s.len() > 0 {
        let p = s.drop_last();
        lemma_distinct_terms(p);
        assert forall|t: Seq<char>| s.contains(t) <==> (p.contains(t) || t == s.last()) by {
            if s.contains(t) {
                let i = choose|i: int| 0 <= i < s.len() && s[i] == t;
                if i < p.len() {
                    assert(p[i] == t);
                }
            }
            if p.contains(t) {
                let i = choose|i: int| 0 <= i < p.len() && p[i] == t;
                assert(s[i] == t);
            }
            if t == s.last() {
                assert(s[s.len() - 1] == t);
            }
        }
        let d = distinct_terms(p);
        if !d.contains(s.last()) {
            assert forall|t: Seq<char>| d.push(s.last()).contains(t) <==> (d.contains(t) || t == s.last()) by {
                if d.push(s.last()).contains(t) {
                    let i = choose|i: int| 0 <= i < d.len() + 1 && d.push(s.last())[i] == t;
                    if i < d.len() {
                        assert(d[i] == t);
                    }
                }
                if d.contains(t) {
                    let i = choose|i: int| 0 <= i < d.len() && d[i] == t;
                    assert(d.push(s.last())[i] == t);
                }
                if t == s.last() {
                    assert(d.push(s.last())[d.len() as int] == t);
                }
            }
        }
    }
}

proof fn lemma_sum_counts_push(d: Seq<Seq<char>>, s: Seq<Seq<char>>, x: Seq<char>)
    requires
        d.no_duplicates(),
    ensures
        sum_counts(d, s.push(x)) == sum_counts(d, s) + if d.contains(x) {
            1nat
        } else {
            0nat
        },
    decreases d.len(),
{
    assert(s.push(x).drop_last() == s);
    if d.len() > 0 {
        let p = d.drop_last();
        assert(p.no_duplicates());
        lemma_sum_counts_push(p, s, x);
        assert(d.contains(x) <==> (p.contains(x) || d.last() == x)) by {
            if d.contains(x) {
                let i = choose|i: int| 0 <= i < d.len() && d[i] == x;
                if i < p.len() {
                    assert(p[i] == x);
                }
            }
            if p.contains(x) {
                let i = choose|i: int| 0 <= i < p.len() && p[i] == x;
                assert(d[i] == x);
            }
        }
        if p.contains(x) {
            let i = choose|i: int| 0 <= i < p.len() && p[i] == x;
            assert(d[i] == d[d.len() - 1] ==> i == d.len() - 1);
        }
    }
}

/// The counts of the distinct terms of a token sequence add up to its
/// length; hence the term frequencies (count / length) of a non-empty
/// sequence add up to one.
pub proof fn lemma_term_counts_sum(s: Seq<Seq<char>>)
    ensures
        sum_counts(distinct_terms(s), s) == s.len(),
    decreases s.len(),
{
    if s.len() > 0 {
        let p = s.drop_last();
        let x = s.last();
        assert(p.push(x) == s);
        lemma_term_counts_sum(p);
        lemma_distinct_terms(p);
        let d = distinct_terms(p);
        lemma_sum_counts_push(d, p, x);
        if !d.contains(x) {
            assert(d.push(x).drop_last() == d);
            assert(count_of(p, x) == 0);
        }
    }
}

/// Each distinct term of `tokens` with its number of occurrences, in order
/// of first occurrence.
pub fn term_counts(tokens: &Vec<String>) -> (r: Vec<(String, usize)>)
    ensures
        r@.map_values(|e: (String, usize)| e.0@) == distinct_terms(tokens@.map_values(|t: String| t@)),
        forall|j: int| 0 <= j < r@.len() ==> #[trigger] r@[j].1 == count_of(tokens@.map_values(|t: String| t@), r@[j].0@),
        keys_unique(r@),
{
    let ghost ts = tokens@.map_values(|t: String| t@);
    let mut out: Vec<(String, usize)> = Vec::new();
    let mut i: usize = 0;
    while i < tokens.len()
        invariant
            i <= tokens@.len(),
            ts == tokens@.map_values(|t: String| t@),
            out@.map_values(|e: (String, usize)| e.0@) == distinct_terms(ts.take(i as int)),
            forall|j: int| 0 <= j < out@.len() ==> #[trigger] out@[j].1 == count_of(ts.take(i as int), out@[j].0@),
            forall|j: int| 0 <= j < out@.len() ==> #[trigger] out@[j].1 <= i,
        decreases tokens@.len() - i,
    {
        let ghost pre = ts.take(i as int);
        let ghost post = ts.take(i as int + 1);
        let ghost keys = out@.map_values(|e: (String, usize)| e.0@);
        proof {
            assert(post.drop_last() == pre);
            assert(post.last() == tokens@[i as int]@);
            lemma_distinct_terms(pre);
        }
        match find_key(&out, &tokens[i]) {
            Some(k) => {
                let c = out[k].1;
                let ghost o = out@;
                out.set(k, (tokens[i].clone(), c + 1));
                proof {
                    assert(keys[k as int] == tokens@[i as int]@);
                    assert(keys.contains(post.last()));
                    assert forall|j: int| 0 <= j < out@.len() implies #[trigger] out@[j].1 == count_of(post, out@[j].0@) by {
                        if j != k {
                            assert(o[j] == out@[j]);
                            assert(keys[j] == o[j].0@);
                            assert(keys[j] != keys[k as int]);
                        }
                    }
                    assert(out@.map_values(|e: (String, usize)| e.0@) =~= distinct_terms(post));
                }
            },
            None => {
                let ghost o = out@;
                out.push((tokens[i].clone(), 1));
                proof {
                    assert(!keys.contains(post.last())) by {
                        if keys.contains(post.last()) {
                            let j = choose|j: int| 0 <= j < keys.len() && keys[j] == post.last();
                            assert(o[j].0@ == tokens@[i as int]@);
                        }
                    }
                    assert(!pre.contains(post.last()));
                    assert(count_of(pre, post.last()) == 0);
                    assert forall|j: int| 0 <= j < out@.len() implies #[trigger] out@[j].1 == count_of(post, out@[j].0@) by {
                        if j < o.len() {
                            assert(o[j] == out@[j]);
                            assert(keys[j] != post.last());
                        }
                    }
                    assert(out@.map_values(|e: (String, usize)| e.0@) =~= distinct_terms(post));
                }
            },
        }
        i = i + 1;
    }
    proof {
        assert(ts.take(tokens@.len() as int) == ts);
        lemma_distinct_terms(ts);
        let keys = out@.map_values(|e: (String, usize)| e.0@);
        assert forall|a: int, b: int| 0 <= a < b < out@.len() implies out@[a].0@ != out@[b].0@ by {
            assert(keys[a] == out@[a].0@);
            assert(keys[b] == out@[b].0@);
        }
    }
    out
}

/// The term counts of a query: each distinct term with its number of
/// occurrences, and the number of terms. The frequency of a term is its count
/// divided by the total.
pub struct QueryVector {
    terms: Vec<(String, usize)>,
    total: usize,
}

impl QueryVector {
    #[verifier::type_invariant]
    spec fn inv(self) -> bool {
        keys_unique(self.terms@)
    }

    /// Term -> count.
    pub closed spec fn counts(&self) -> Map<Seq<char>, usize> {
        assoc_view(self.terms@)
    }

    /// The distinct terms with their counts, in order of first occurrence.
    pub closed spec fn entries(&self) -> Seq<(String, usize)> {
        self.terms@
    }

    pub closed spec fn total_spec(&self) -> usize {
        self.total
    }

    /// The count vector of the lemmatised query `tokens`.
    pub fn from_terms(tokens: &Vec<String>) -> (r: Self)
        ensures
            r.entries().map_values(|e: (String, usize)| e.0@) == distinct_terms(tokens@.map_values(|t: String| t@)),
            forall|j: int| 0 <= j < r.entries().len() ==> #[trigger] r.entries()[j].1 == count_of(tokens@.map_values(|t: String| t@), r.entries()[j].0@),
            r.total_spec() == tokens@.len(),
    {
        let terms = term_counts(tokens);
        QueryVector { terms, total: tokens.len() }
    }

    /// The distinct terms with their counts.
    pub fn terms(&self) -> (r: &Vec<(String, usize)>)
        ensures
            r@ == self.entries(),
    {
        &self.terms
    }

    /// The number of terms of the query, repeats included.
    pub fn total(&self) -> (r: usize)
        ensures
            r == self.total_spec(),
    {
        self.total
    }

    /// The count of `word` in the query, if it occurs.
    pub fn count_of(&self, word: &String) -> (r: Option<usize>)
        ensures
            r == (if self.counts().contains_key(word@) {
                Some(self.counts()[word@])
            } else {
                None::<usize>
            }),
    {
        proof {
            use_type_invariant(self);
        }
        match find_key(&self.terms, word) {
            Some(i) => {
                proof {
                    lemma_view_at(self.terms@, i as int);
                }
                Some(self.terms[i].1)
            },
            None => None,
        }
    }
}

/// A term that a document shares with the query: its occurrences in the
/// document, its document frequency in the corpus, and its count in the
/// query.
#[derive(Clone, Copy, Debug, PartialEq, Eq)]
pub struct SharedTerm {
    pub occurrences: i32,
    pub documents_containing_word: i64,
    pub query_count: usize,
}

/// The terms of `keywords` that the query counts `q` hold, in document
/// order.
pub open spec fn shared(keywords: Seq<(Keyword, i32)>, q: Map<Seq<char>, usize>) -> Seq<SharedTerm>
    decreases keywords.len(),
{
    if keywords.len() == 0 {
        Seq::empty()
    } else {
        let r = shared(keywords.drop_last(), q);
        let (k, occurrences) = keywords.last();
        if q.contains_key(k.word@) {
            r.push(
                SharedTerm {
                    occurrences,
                    documents_containing_word: k.documents_containing_word,
                    query_count: q[k.word@],
                },
            )
        } else {
            r
        }
    }
}

/// The terms that `page` shares with `query`. Only these enter the dot
/// product and the norms of the cosine similarity.
pub fn shared_terms(page: &Webpage, query: &QueryVector) -> (r: Vec<SharedTerm>)
    ensures
        r@ == shared(page.keywords@, query.counts()),
{
    let ghost kws = page.keywords@;
    let mut out: Vec<SharedTerm> = Vec::new();
    let mut i: usize = 0;
    while i < page.keywords.len()
        invariant
            i <= kws.len(),
            kws == page.keywords@,
            out@ == shared(kws.take(i as int), query.counts()),
        decreases kws.len() - i,
    {
        assert(kws.take(i as int + 1).drop_last() == kws.take(i as int));
        let (k, occurrences) = (&page.keywords[i].0, page.keywords[i].1);
        match query.count_of(&k.word) {
            Some(c) => {
                out.push(SharedTerm { occurrences, documents_containing_word: k.documents_containing_word, query_count: c });
            },
            None => {},
        }
        i = i + 1;
    }
    assert(kws.take(kws.len() as int) == kws);
    out
}

/// A document shares no term with the query exactly when none of its terms
/// is counted in the query; its similarity score is then zero.
pub proof fn lemma_no_shared_terms(keywords: Seq<(Keyword, i32)>, q: Map<Seq<char>, usize>)
    ensures
        shared(keywords, q).len() == 0 <==> forall|i: int| 0 <= i < keywords.len() ==> !q.contains_key(#[trigger] keywords[i].0.word@),
    decreases keywords.len(),
{
    if keywords.len() > 0 {
        let p = keywords.drop_last();
        lemma_no_shared_terms(p, q);
        if forall|i: int| 0 <= i < keywords.len() ==> !q.contains_key(#[trigger] keywords[i].0.word@) {
            assert forall|i: int| 0 <= i < p.len() implies !q.contains_key(#[trigger] p[i].0.word@) by {
                assert(p[i] == keywords[i]);
            }
            assert(!q.contains_key(keywords[keywords.len() - 1].0.word@));
        } else {
            let i = choose|i: int| 0 <= i < keywords.len() && q.contains_key(#[trigger] keywords[i].0.word@);
            if i < p.len() {
                assert(p[i] == keywords[i]);
                assert(shared(p, q).len() > 0);
            }
        }
    }
}

} // verus!
