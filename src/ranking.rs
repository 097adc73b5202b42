//! The ranking policy. Documents are ordered by score, highest first; among
//! equal scores the more authoritative site (lower rank) comes first, and
//! among equal scores and ranks the earlier candidate. Only high-relevance
//! documents, those scoring at least `HIGH_RELEVANCE`, are returned, at most
//! as many as the caller asked for: when none reaches the threshold the
//! result is empty, whatever the requested count (precision-only policy).
//!
//! Scores are carried as the bit patterns of non-negative IEEE-754 single
//! precision values, whose unsigned order is the order of the values.

use crate::authority::{sort_rank, url_authority, url_host, valid_ranks, AuthorityTable};
use crate::database::Webpage;
use vstd::prelude::*;

verus! {

/// Bit pattern of the single-precision value 1.0: the high-relevance
/// threshold.
pub const HIGH_RELEVANCE: u32 = 0x3F80_0000;

/// A key is (score bits, site-authority rank).
pub open spec fn is_high(k: (u32, usize)) -> bool {
    k.0 >= HIGH_RELEVANCE
}

/// Candidate `i` is ordered before candidate `j`.
pub open spec fn ranks_before(keys: Seq<(u32, usize)>, i: int, j: int) -> bool {
    ||| keys[i].0 > keys[j].0
    ||| (keys[i].0 == keys[j].0 && keys[i].1 < keys[j].1)
    ||| (keys[i].0 == keys[j].0 && keys[i].1 == keys[j].1 && i < j)
}

/// Number of high-relevance candidates.
pub open spec fn count_high(keys: Seq<(u32, usize)>) -> nat
    decreases keys.len(),
{
    if keys.len() == 0 {
        0
    } else {
        count_high(keys.drop_last()) + if is_high(keys.last()) {
            1nat
        } else {
            0nat
        }
    }
}

/// How many candidates a request returns.
pub open spec fn result_count(keys: Seq<(u32, usize)>, max_results: usize) -> nat {
    if count_high(keys) <= max_results {
        count_high(keys)
    } else {
        max_results as nat
    }
}

/// `sel` lists, in ranking order, the first `result_count` high-relevance
/// candidates: each one high, each before the next, and every high candidate
/// left out after all of them.
pub open spec fn is_ranked_selection(keys: Seq<(u32, usize)>, max_results: usize, sel: Seq<usize>) -> bool {
    &&& sel.len() == result_count(keys, max_results)
    &&& forall|j: int| 0 <= j < sel.len() ==> #[trigger] sel[j] < keys.len() && is_high(keys[sel[j] as int])
    &&& forall|a: int, b: int| 0 <= a < b < sel.len() ==> ranks_before(keys, #[trigger] sel[a] as int, #[trigger] sel[b] as int)
    &&& forall|h: int, j: int|
        #![trigger sel[j], keys[h]]
        0 <= h < keys.len() && is_high(keys[h]) && !sel.contains(h as usize) && 0 <= j < sel.len()
            ==> ranks_before(keys, sel[j] as int, h)
}

fn ranks_before_exec(keys: &Vec<(u32, usize)>, i: usize, j: usize) -> (r: bool)
    requires
        i < keys@.len(),
        j < keys@.len(),
    ensures
        r == ranks_before(keys@, i as int, j as int),
{
    let (si, ri) = keys[i];
    let (sj, rj) = keys[j];
    si > sj || (si == sj && ri < rj) || (si == sj && ri == rj && i < j)
}

/// Positions of the candidates a request returns, best first, given each
/// candidate's (score bits, site-authority rank).
pub fn select_ranked(keys: &Vec<(u32, usize)>, max_results: usize) -> (sel: Vec<usize>)
    ensures
        is_ranked_selection(keys@, max_results, sel@),
{
    let n = keys.len();
    let ghost ks = keys@;
    let mut sorted: Vec<usize> = Vec::new();
    let mut i: usize = 0;
    while i < n
        invariant
            i <= n == ks.len(),
            ks == keys@,
            sorted@.len() == count_high(ks.take(i as int)),
            forall|j: int| 0 <= j < sorted@.len() ==> #[trigger] sorted@[j] < i && is_high(ks[sorted@[j] as int]),
            forall|x: int| 0 <= x < i && is_high(ks[x]) ==> sorted@.contains(x as usize),
            forall|a: int, b: int| 0 <= a < b < sorted@.len() ==> ranks_before(ks, #[trigger] sorted@[a] as int, #[trigger] sorted@[b] as int),
        decreases n - i,
    {
        assert(ks.take(i as int + 1).drop_last() == ks.take(i as int));
        if keys[i].0 >= HIGH_RELEVANCE {
            let mut p: usize = 0;
            while p < sorted.len() && ranks_before_exec(keys, sorted[p], i)
                invariant
                    p <= sorted@.len(),
                    i < n == ks.len(),
                    ks == keys@,
                    forall|j: int| 0 <= j < sorted@.len() ==> #[trigger] sorted@[j] < i,
                    forall|q: int| 0 <= q < p ==> ranks_before(ks, #[trigger] sorted@[q] as int, i as int),
                decreases sorted@.len() - p,
            {
                p = p + 1;
            }
            let ghost old_sorted = sorted@;
            sorted.insert(p, i);
            proof {
                let s = sorted@;
                assert(s == old_sorted.insert(p as int, i));
                if p < old_sorted.len() {
                    assert(ranks_before(ks, i as int, old_sorted[p as int] as int));
                }
                assert forall|a: int, b: int| 0 <= a < b < s.len() implies ranks_before(ks, #[trigger] s[a] as int, #[trigger] s[b] as int) by {
                    if b < p {
                    } else if b == p {
                    } else if a < p {
                    } else if a == p {
                        assert(ranks_before(ks, old_sorted[p as int] as int, old_sorted[b - 1] as int) || b - 1 == p);
                    } else {
                        assert(ranks_before(ks, old_sorted[a - 1] as int, old_sorted[b - 1] as int));
                    }
                }
                assert forall|x: int| 0 <= x < i + 1 && is_high(ks[x]) implies s.contains(x as usize) by {
                    if x == i {
                        assert(s[p as int] == i);
                    } else {
                        assert(old_sorted.contains(x as usize));
                        let q = choose|q: int| 0 <= q < old_sorted.len() && old_sorted[q] == x as usize;
                        if q < p {
                            assert(s[q] == x as usize);
                        } else {
                            assert(s[q + 1] == x as usize);
                        }
                    }
                }
                assert forall|j: int| 0 <= j < s.len() implies #[trigger] s[j] < i + 1 && is_high(ks[s[j] as int]) by {
                    if j < p {
                    } else if j == p {
                    } else {
                        assert(s[j] == old_sorted[j - 1]);
                    }
                }
            }
        } else {
            proof {
                assert forall|x: int| 0 <= x < i + 1 && is_high(ks[x]) implies sorted@.contains(x as usize) by {
                }
            }
        }
        i = i + 1;
    }
    assert(ks.take(n as int) == ks);
    let ghost full = sorted@;
    let k: usize = if sorted.len() <= max_results { sorted.len() } else { max_results };
    sorted.truncate(k);
    proof {
        let s = sorted@;
        assert(s == full.take(k as int));
        assert forall|h: int, j: int|
            #![trigger s[j], ks[h]]
            0 <= h < ks.len() && is_high(ks[h]) && !s.contains(h as usize) && 0 <= j < s.len()
                implies ranks_before(ks, s[j] as int, h) by {
            assert(full.contains(h as usize));
            let q = choose|q: int| 0 <= q < full.len() && full[q] == h as usize;
            if q < k {
                assert(s[q] == h as usize);
            }
            assert(full[j] == s[j]);
            assert(ranks_before(ks, full[j] as int, full[q] as int));
        }
    }
    sorted
}

/// The ranking keys of scored documents: (score bits, ordering rank of the
/// document's host).
pub open spec fn page_keys(scored: Seq<(u32, Webpage)>, authority: Map<Seq<char>, usize>) -> Seq<(u32, usize)> {
    scored.map_values(|p: (u32, Webpage)| (p.0, sort_rank(authority, p.1.url@)))
}

/// Orders scored documents and keeps those a request returns: the
/// high-relevance ones, best first (score, then site authority, then
/// candidate order), at most `max_results` of them.
pub fn rank_webpages(scored: Vec<(u32, Webpage)>, authority: &AuthorityTable, max_results: usize) -> (r: Vec<(u32, Webpage)>)
    ensures
        valid_ranks(authority@),
        exists|sel: Seq<usize>|
            {
                &&& is_ranked_selection(page_keys(scored@, authority@), max_results, sel)
                &&& r@.len() == sel.len()
                &&& forall|j: int| 0 <= j < sel.len() ==> r@[j] == #[trigger] scored@[sel[j] as int]
            },
{
    let ghost orig = scored@;
    let n = scored.len();
    let mut keys: Vec<(u32, usize)> = Vec::new();
    let mut i: usize = 0;
    while i < n
        invariant
            i <= n == orig.len(),
            scored@ == orig,
            keys@ == page_keys(orig, authority@).take(i as int),
        decreases n - i,
    {
        let rank = authority.rank_for_ordering(scored[i].1.url.as_str());
        keys.push((scored[i].0, rank));
        proof {
            assert(page_keys(orig, authority@).take(i as int + 1) == page_keys(orig, authority@).take(i as int).push((orig[i as int].0, rank)));
        }
        i = i + 1;
    }
    assert(keys@ == page_keys(orig, authority@));
    let sel = select_ranked(&keys, max_results);
    proof {
        use_type_invariant(authority);
    }
    // Move the candidates into slots, the last one first, so that each
    // selected one can be taken out once.
    let mut rest = scored;
    let mut slots: Vec<Option<(u32, Webpage)>> = Vec::new();
    while rest.len() > 0
        invariant
            n == orig.len(),
            rest@.len() + slots@.len() == n,
            rest@ == orig.take(rest@.len() as int),
            forall|j: int| 0 <= j < slots@.len() ==> #[trigger] slots@[j] == Some(orig[n - 1 - j]),
        decreases rest@.len(),
    {
        let ghost len0 = rest@.len();
        let x = rest.pop().unwrap();
        proof {
            assert(orig.take(len0 - 1) =~= orig.take(len0 as int).drop_last());
            assert(x == orig[len0 - 1]);
        }
        slots.push(Some(x));
    }
    let mut r: Vec<(u32, Webpage)> = Vec::new();
    let mut j: usize = 0;
    while j < sel.len()
        invariant
            j <= sel@.len(),
            slots@.len() == n == orig.len(),
            is_ranked_selection(keys@, max_results, sel@),
            keys@.len() == n,
            r@.len() == j,
            forall|q: int| 0 <= q < j ==> r@[q] == #[trigger] orig[sel@[q] as int],
            forall|x: int| 0 <= x < n && !sel@.take(j as int).contains(x as usize) ==> #[trigger] slots@[n - 1 - x] == Some(orig[x]),
        decreases sel@.len() - j,
    {
        let x = sel[j];
        assert(!sel@.take(j as int).contains(x)) by {
            if sel@.take(j as int).contains(x) {
                let q = choose|q: int| 0 <= q < j && sel@.take(j as int)[q] == x;
                assert(ranks_before(keys@, sel@[q] as int, sel@[j as int] as int));
            }
        }
        let mut slot: Option<(u32, Webpage)> = None;
        let ghost s0 = slots@;
        std::mem::swap(&mut slots[n - 1 - x], &mut slot);
        assert(slots@ == s0.update(n - 1 - x, None));
        let page = slot.unwrap();
        r.push(page);
        proof {
            assert forall|y: int| 0 <= y < n && !sel@.take(j as int + 1).contains(y as usize) implies #[trigger] slots@[n - 1 - y] == Some(orig[y]) by {
                assert(sel@.take(j as int + 1) == sel@.take(j as int).push(x));
                assert(sel@.take(j as int + 1)[j as int] == x);
                if y != x as int {
                    assert(sel@.take(j as int + 1).contains(y as usize) ==> sel@.take(j as int).contains(y as usize)) by {
                        if sel@.take(j as int + 1).contains(y as usize) {
                            let q = choose|q: int| 0 <= q < j + 1 && #[trigger] sel@.take(j as int + 1)[q] == y as usize;
                            assert(sel@.take(j as int)[q] == y as usize);
                        }
                    }
                    assert(!sel@.take(j as int).contains(y as usize));
                    assert(s0[n - 1 - y] == Some(orig[y]));
                    assert(slots@[n - 1 - y] == s0[n - 1 - y]);
                }
            }
        }
        j = j + 1;
    }
    r
}

/// Of two returned documents with equal scores, the first has the better
/// (lower or equal) site-authority rank; a document whose host is unlisted
/// is never followed by one with equal score whose host is listed.
pub proof fn lemma_tie_break_by_authority(
    scored: Seq<(u32, Webpage)>,
    authority: Map<Seq<char>, usize>,
    max_results: usize,
    sel: Seq<usize>,
    a: int,
    b: int,
)
    requires
        valid_ranks(authority),
        is_ranked_selection(page_keys(scored, authority), max_results, sel),
        0 <= a < b < sel.len(),
        scored[sel[a] as int].0 == scored[sel[b] as int].0,
    ensures
        sort_rank(authority, scored[sel[a] as int].1.url@) <= sort_rank(authority, scored[sel[b] as int].1.url@),
        url_authority(authority, scored[sel[a] as int].1.url@) is None
            ==> url_authority(authority, scored[sel[b] as int].1.url@) is None,
{
    let keys = page_keys(scored, authority);
    assert(ranks_before(keys, sel[a] as int, sel[b] as int));
    let ub = scored[sel[b] as int].1.url@;
    match url_host(ub) {
        Some(h) => {
            if authority.contains_key(h) {
                assert(authority[h] < usize::MAX);
            }
        },
        None => {},
    }
}

} // verus!
