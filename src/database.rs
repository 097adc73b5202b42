//! Documents and terms as the document store hands them over.

use crate::keyed::{assoc_view, find_key, insert_key, keys_unique, lemma_view_at};
use crate::result_formatter::copy_pairs;
use vstd::prelude::*;

verus! {

/// A candidate document.
#[derive(Debug, Clone)]
pub struct Webpage {
    pub id: i32,
    pub title: String,
    pub url: String,
    pub description: String,
    pub word_count: i32,
    /// Each term of the document with its number of occurrences in it.
    pub keywords: Vec<(Keyword, i32)>,
    /// Number of pages this one links to; set only when links were asked for.
    pub links_to_count: Option<usize>,
    /// Source URL -> number of links from it to this page; set only when
    /// links were asked for.
    pub links_from: Option<Vec<(String, i32)>>,
}

/// A term of the corpus.
#[derive(Debug, Clone, PartialEq, Eq, Hash)]
pub struct Keyword {
    pub id: i32,
    pub word: String,
    /// Number of documents of the corpus that contain the term.
    pub documents_containing_word: i64,
}

/// Distinct values of `ids`, in order of first occurrence.
pub open spec fn first_ids(ids: Seq<i32>) -> Seq<i32>
    decreases ids.len(),
{
    if ids.len() == 0 {
        Seq::empty()
    } else {
        let d = first_ids(ids.drop_last());
        if d.contains(ids.last()) {
            d
        } else {
            d.push(ids.last())
        }
    }
}

/// Position of the first occurrence of `id` in `ids`, or -1.
pub open spec fn first_row(ids: Seq<i32>, id: i32) -> int
    decreases ids.len(),
{
    if ids.len() == 0 {
        -1
    } else {
        let p = first_row(ids.drop_last(), id);
        if p >= 0 {
            p
        } else if ids.last() == id {
            ids.len() - 1
        } else {
            -1
        }
    }
}

pub proof fn lemma_first_ids(ids: Seq<i32>)
    ensures
        first_ids(ids).no_duplicates(),
        forall|id: i32| #[trigger] first_ids(ids).contains(id) <==> first_row(ids, id) >= 0,
        forall|id: i32| #[trigger] first_row(ids, id) >= 0 ==> first_row(ids, id) < ids.len() && ids[first_row(ids, id)] == id,
    decreases ids.len(),
{
    if ids.len() > 0 {
        let p = ids.drop_last();
        lemma_first_ids(p);
        let d = first_ids(p);
        let x = ids.last();
        assert forall|id: i32| #[trigger] d.push(x).contains(id) <==> (d.contains(id) || id == x) by {
            if d.push(x).contains(id) {
                let i = choose|i: int| 0 <= i < d.len() + 1 && d.push(x)[i] == id;
                if i < d.len() {
                    assert(d[i] == id);
                }
            }
            if d.contains(id) {
                let i = choose|i: int| 0 <= i < d.len() && d[i] == id;
                assert(d.push(x)[i] == id);
            }
            if id == x {
                assert(d.push(x)[d.len() as int] == id);
            }
        }
        assert forall|id: i32| #[trigger] first_row(ids, id) >= 0 implies first_row(ids, id) < ids.len() && ids[first_row(ids, id)] == id by {
            if first_row(p, id) >= 0 {
                assert(ids[first_row(p, id)] == p[first_row(p, id)]);
            }
        }
    }
}

/// One row of the candidate query: a (document, term) pair.
pub struct KeywordRow {
    pub website_id: i32,
    pub title: String,
    pub url: String,
    pub description: String,
    pub word_count: i32,
    pub word: String,
    pub documents_containing_word: i64,
    pub keyword_id: i32,
    pub keyword_occurrences: i32,
}

pub open spec fn row_ids(rows: Seq<KeywordRow>) -> Seq<i32> {
    rows.map_values(|r: KeywordRow| r.website_id)
}

/// The term and occurrences a row carries.
pub open spec fn row_keyword(r: KeywordRow) -> (Keyword, i32) {
    (Keyword { id: r.keyword_id, word: r.word, documents_containing_word: r.documents_containing_word }, r.keyword_occurrences)
}

/// The terms the rows of document `id` carry, in row order.
pub open spec fn keywords_for(rows: Seq<KeywordRow>, id: i32) -> Seq<(Keyword, i32)>
    decreases rows.len(),
{
    if rows.len() == 0 {
        Seq::empty()
    } else {
        let k = keywords_for(rows.drop_last(), id);
        if rows.last().website_id == id {
            k.push(row_keyword(rows.last()))
        } else {
            k
        }
    }
}

/// `p` is document `id` as the rows describe it: fields from its first row,
/// terms from all its rows, no link data.
pub open spec fn page_from_rows(rows: Seq<KeywordRow>, id: i32, p: Webpage) -> bool {
    let r = rows[first_row(row_ids(rows), id)];
    &&& p.id == id
    &&& p.title == r.title
    &&& p.url == r.url
    &&& p.description == r.description
    &&& p.word_count == r.word_count
    &&& p.keywords@ == keywords_for(rows, id)
    &&& p.links_to_count is None
    &&& p.links_from is None
}

/// Groups candidate rows into documents, in order of first appearance.
pub fn assemble_webpages(rows: &Vec<KeywordRow>) -> (r: Vec<Webpage>)
    ensures
        r@.len() == first_ids(row_ids(rows@)).len(),
        forall|j: int| 0 <= j < r@.len() ==> page_from_rows(rows@, first_ids(row_ids(rows@))[j], #[trigger] r@[j]),
{
    let ghost all = rows@;
    let mut pages: Vec<Webpage> = Vec::new();
    let mut i: usize = 0;
    while i < rows.len()
        invariant
            i <= all.len(),
            all == rows@,
            pages@.len() == first_ids(row_ids(all.take(i as int))).len(),
            forall|j: int| 0 <= j < pages@.len() ==> page_from_rows(all.take(i as int), first_ids(row_ids(all.take(i as int)))[j], #[trigger] pages@[j]),
        decreases all.len() - i,
    {
        let ghost pre = all.take(i as int);
        let ghost post = all.take(i as int + 1);
        let ghost ids0 = first_ids(row_ids(pre));
        proof {
            assert(post.drop_last() == pre);
            assert(row_ids(post).drop_last() == row_ids(pre));
            assert(row_ids(post).last() == all[i as int].website_id);
            lemma_first_ids(row_ids(pre));
            lemma_first_ids(row_ids(post));
        }
        let row = &rows[i];
        let id = row.website_id;
        let found = position_of_id(&pages, id);
        let kw = Keyword { id: row.keyword_id, word: row.word.clone(), documents_containing_word: row.documents_containing_word };
        let ghost o = pages@;
        match found {
            Some(j) => {
                assert(ids0.contains(id)) by { assert(ids0[j as int] == id); }
                let mut page = pages.remove(j);
                page.keywords.push((kw, row.keyword_occurrences));
                pages.insert(j, page);
                proof {
                    assert forall|q: int| 0 <= q < pages@.len() implies page_from_rows(post, first_ids(row_ids(post))[q], #[trigger] pages@[q]) by {
                        assert(first_ids(row_ids(post)) == ids0);
                        assert(page_from_rows(pre, ids0[q], o[q]));
                        assert(ids0.contains(ids0[q]));
                        let f = first_row(row_ids(pre), ids0[q]);
                        assert(post[f] == pre[f]);
                        if q != j {
                            assert(pages@[q] == o[q]);
                            assert(ids0[q] != ids0[j as int]);
                        } else {
                            assert(pages@[q].keywords@ =~= keywords_for(post, id));
                        }
                    }
                }
            },
            None => {
                assert(!ids0.contains(id)) by {
                    if ids0.contains(id) {
                        let q = choose|q: int| 0 <= q < ids0.len() && ids0[q] == id;
                        assert(pages@[q].id == ids0[q]);
                    }
                }
                let page = Webpage {
                    id,
                    title: row.title.clone(),
                    url: row.url.clone(),
                    description: row.description.clone(),
                    word_count: row.word_count,
                    keywords: single_keyword(kw, row.keyword_occurrences),
                    links_to_count: None,
                    links_from: None,
                };
                pages.push(page);
                proof {
                    assert(first_ids(row_ids(post)) == ids0.push(id));
                    assert(first_row(row_ids(pre), id) < 0);
                    assert(keywords_for(pre, id).len() == 0) by {
                        lemma_keywords_for_absent(pre, id);
                    }
                    assert forall|q: int| 0 <= q < pages@.len() implies page_from_rows(post, first_ids(row_ids(post))[q], #[trigger] pages@[q]) by {
                        if q < o.len() {
                            assert(pages@[q] == o[q]);
                            assert(page_from_rows(pre, ids0[q], o[q]));
                            assert(ids0[q] != id);
                            assert(ids0.contains(ids0[q]));
                            let f = first_row(row_ids(pre), ids0[q]);
                            assert(post[f] == pre[f]);
                        } else {
                            assert(first_row(row_ids(post), id) == i as int);
                            assert(pages@[q].keywords@ =~= keywords_for(post, id));
                        }
                    }
                }
            },
        }
        i = i + 1;
    }
    assert(all.take(all.len() as int) == all);
    pages
}

fn position_of_id(pages: &Vec<Webpage>, id: i32) -> (r: Option<usize>)
    ensures
        match r {
            Some(j) => j < pages@.len() && pages@[j as int].id == id,
            None => forall|q: int| 0 <= q < pages@.len() ==> (#[trigger] pages@[q]).id != id,
        },
{
    let mut j: usize = 0;
    while j < pages.len()
        invariant
            j <= pages@.len(),
            forall|q: int| 0 <= q < j ==> (#[trigger] pages@[q]).id != id,
        decreases pages@.len() - j,
    {
        if pages[j].id == id {
            return Some(j);
        }
        j = j + 1;
    }
    None
}

fn single_keyword(k: Keyword, occurrences: i32) -> (r: Vec<(Keyword, i32)>)
    ensures
        r@ == seq![(k, occurrences)],
{
    let mut r: Vec<(Keyword, i32)> = Vec::new();
    r.push((k, occurrences));
    r
}

proof fn lemma_keywords_for_absent(rows: Seq<KeywordRow>, id: i32)
    requires
        first_row(row_ids(rows), id) < 0,
    ensures
        keywords_for(rows, id).len() == 0,
    decreases rows.len(),
{
    if rows.len() > 0 {
        assert(row_ids(rows).drop_last() == row_ids(rows.drop_last()));
        lemma_keywords_for_absent(rows.drop_last(), id);
    }
}

/// One row of the link query: a document, the number of pages it links to,
/// and one page linking to it, if any.
pub struct LinkRow {
    pub website_id: i32,
    pub links_to_count: i64,
    pub source_website: Option<String>,
}

/// The link data of one document.
pub struct PageLinks {
    pub id: i32,
    pub links_to_count: usize,
    /// Source URL -> number of rows naming it; each source once.
    pub links_from: Vec<(String, i32)>,
}

pub open spec fn link_row_ids(rows: Seq<LinkRow>) -> Seq<i32> {
    rows.map_values(|r: LinkRow| r.website_id)
}

/// Source URL -> number of rows of document `id` that name it.
pub open spec fn source_counts(rows: Seq<LinkRow>, id: i32) -> Map<Seq<char>, int>
    decreases rows.len(),
{
    if rows.len() == 0 {
        Map::empty()
    } else {
        let m = source_counts(rows.drop_last(), id);
        let r = rows.last();
        if r.website_id == id && r.source_website is Some {
            let s = r.source_website->0@;
            m.insert(s, if m.contains_key(s) { m[s] + 1 } else { 1 })
        } else {
            m
        }
    }
}

pub open spec fn count_view(v: Seq<(String, i32)>) -> Map<Seq<char>, int> {
    assoc_view(v).map_values(|c: i32| c as int)
}

/// `l` is the link data of document `id` as the rows give it: the count of
/// its first row, and each source with its number of rows.
pub open spec fn links_from_rows(rows: Seq<LinkRow>, id: i32, l: PageLinks) -> bool {
    &&& l.id == id
    &&& l.links_to_count == rows[first_row(link_row_ids(rows), id)].links_to_count as usize
    &&& keys_unique(l.links_from@)
    &&& count_view(l.links_from@) == source_counts(rows, id)
}

proof fn lemma_source_counts_bounded(rows: Seq<LinkRow>, id: i32)
    ensures
        forall|s: Seq<char>| #[trigger] source_counts(rows, id).contains_key(s) ==> 1 <= source_counts(rows, id)[s] <= rows.len(),
    decreases rows.len(),
{
    if rows.len() > 0 {
        let p = rows.drop_last();
        lemma_source_counts_bounded(p, id);
        assert forall|s: Seq<char>| #[trigger] source_counts(rows, id).contains_key(s)
            implies 1 <= source_counts(rows, id)[s] <= rows.len() by {
            if source_counts(p, id).contains_key(s) {
                assert(source_counts(p, id)[s] <= p.len());
            }
        }
    }
}

proof fn lemma_source_counts_absent(rows: Seq<LinkRow>, id: i32)
    requires
        first_row(link_row_ids(rows), id) < 0,
    ensures
        source_counts(rows, id) == Map::<Seq<char>, int>::empty(),
    decreases rows.len(),
{
    if rows.len() > 0 {
        assert(link_row_ids(rows).drop_last() == link_row_ids(rows.drop_last()));
        lemma_source_counts_absent(rows.drop_last(), id);
    }
}

fn position_of_links(pages: &Vec<PageLinks>, id: i32) -> (r: Option<usize>)
    ensures
        match r {
            Some(j) => j < pages@.len() && pages@[j as int].id == id,
            None => forall|q: int| 0 <= q < pages@.len() ==> (#[trigger] pages@[q]).id != id,
        },
{
    let mut j: usize = 0;
    while j < pages.len()
        invariant
            j <= pages@.len(),
            forall|q: int| 0 <= q < j ==> (#[trigger] pages@[q]).id != id,
        decreases pages@.len() - j,
    {
        if pages[j].id == id {
            return Some(j);
        }
        j = j + 1;
    }
    None
}

/// Counts one more row naming `source`.
fn count_source(counts: &mut Vec<(String, i32)>, source: &String, limit: Ghost<int>)
    requires
        keys_unique(old(counts)@),
        limit@ < i32::MAX,
        forall|k: int| 0 <= k < old(counts)@.len() ==> #[trigger] old(counts)@[k].1 <= limit@,
    ensures
        keys_unique(final(counts)@),
        count_view(final(counts)@) == count_view(old(counts)@).insert(
            source@,
            if count_view(old(counts)@).contains_key(source@) {
                count_view(old(counts)@)[source@] + 1
            } else {
                1
            },
        ),
{
    let c: i32 = match find_key(counts, source) {
        Some(k) => {
            proof {
                lemma_view_at(counts@, k as int);
            }
            counts[k].1 + 1
        },
        None => 1,
    };
    insert_key(counts, source.clone(), c);
    assert(count_view(counts@) =~= count_view(old(counts)@).insert(
        source@,
        if count_view(old(counts)@).contains_key(source@) {
            count_view(old(counts)@)[source@] + 1
        } else {
            1
        },
    ));
}

/// Groups link rows by document, in order of first appearance.
pub fn aggregate_links(rows: &Vec<LinkRow>) -> (r: Vec<PageLinks>)
    requires
        rows@.len() < i32::MAX,
    ensures
        r@.len() == first_ids(link_row_ids(rows@)).len(),
        forall|j: int| 0 <= j < r@.len() ==> links_from_rows(rows@, first_ids(link_row_ids(rows@))[j], #[trigger] r@[j]),
{
    let ghost all = rows@;
    let mut pages: Vec<PageLinks> = Vec::new();
    let mut i: usize = 0;
    while i < rows.len()
        invariant
            i <= all.len() < i32::MAX,
            all == rows@,
            pages@.len() == first_ids(link_row_ids(all.take(i as int))).len(),
            forall|j: int| 0 <= j < pages@.len() ==> links_from_rows(all.take(i as int), first_ids(link_row_ids(all.take(i as int)))[j], #[trigger] pages@[j]),
        decreases all.len() - i,
    {
        let ghost pre = all.take(i as int);
        let ghost post = all.take(i as int + 1);
        let ghost ids0 = first_ids(link_row_ids(pre));
        proof {
            assert(post.drop_last() == pre);
            assert(link_row_ids(post).drop_last() == link_row_ids(pre));
            assert(link_row_ids(post).last() == all[i as int].website_id);
            lemma_first_ids(link_row_ids(pre));
            lemma_first_ids(link_row_ids(post));
            assert forall|q: int| 0 <= q < pages@.len() implies (#[trigger] pages@[q]).id == ids0[q] by {
                assert(links_from_rows(pre, ids0[q], pages@[q]));
            }
        }
        let row = &rows[i];
        let id = row.website_id;
        let found = position_of_links(&pages, id);
        let ghost o = pages@;
        match found {
            Some(j) => {
                assert(ids0[j as int] == id) by {
                    assert(links_from_rows(pre, ids0[j as int], o[j as int]));
                }
                let mut page = pages.remove(j);
                match &row.source_website {
                    Some(src) => {
                        proof {
                            lemma_source_counts_bounded(pre, id);
                            assert forall|k: int| 0 <= k < page.links_from@.len() implies #[trigger] page.links_from@[k].1 <= i by {
                                lemma_view_at(page.links_from@, k);
                                assert(count_view(page.links_from@).contains_key(page.links_from@[k].0@));
                            }
                        }
                        count_source(&mut page.links_from, src, Ghost(i as int));
                    },
                    None => {},
                }
                pages.insert(j, page);
                proof {
                    assert forall|q: int| 0 <= q < pages@.len() implies links_from_rows(post, first_ids(link_row_ids(post))[q], #[trigger] pages@[q]) by {
                        assert(ids0.contains(id)) by { assert(ids0[j as int] == id); }
                        assert(first_ids(link_row_ids(post)) == ids0);
                        assert(links_from_rows(pre, ids0[q], o[q]));
                        assert(ids0.contains(ids0[q]));
                        let f = first_row(link_row_ids(pre), ids0[q]);
                        assert(post[f] == pre[f]);
                        if q != j {
                            assert(pages@[q] == o[q]);
                            assert(ids0[q] != ids0[j as int]);
                        }
                    }
                }
            },
            None => {
                assert(!ids0.contains(id)) by {
                    if ids0.contains(id) {
                        let q = choose|q: int| 0 <= q < ids0.len() && ids0[q] == id;
                        assert(o[q].id == ids0[q]);
                    }
                }
                let mut from: Vec<(String, i32)> = Vec::new();
                proof {
                    assert(count_view(from@) =~= Map::<Seq<char>, int>::empty());
                }
                match &row.source_website {
                    Some(src) => {
                        count_source(&mut from, src, Ghost(0));
                    },
                    None => {},
                }
                pages.push(PageLinks { id, links_to_count: row.links_to_count as usize, links_from: from });
                proof {
                    assert(first_ids(link_row_ids(post)) == ids0.push(id));
                    assert(first_row(link_row_ids(pre), id) < 0);
                    lemma_source_counts_absent(pre, id);
                    assert forall|q: int| 0 <= q < pages@.len() implies links_from_rows(post, first_ids(link_row_ids(post))[q], #[trigger] pages@[q]) by {
                        if q < o.len() {
                            assert(pages@[q] == o[q]);
                            assert(links_from_rows(pre, ids0[q], o[q]));
                            assert(ids0[q] != id);
                            assert(ids0.contains(ids0[q]));
                            let f = first_row(link_row_ids(pre), ids0[q]);
                            assert(post[f] == pre[f]);
                        } else {
                            assert(first_row(link_row_ids(post), id) == i as int);
                        }
                    }
                }
            },
        }
        i = i + 1;
    }
    assert(all.take(all.len() as int) == all);
    pages
}

/// `q` is `p` with the link data `l` attached.
pub open spec fn with_links(p: Webpage, l: PageLinks, q: Webpage) -> bool {
    &&& q.id == p.id
    &&& q.title == p.title
    &&& q.url == p.url
    &&& q.description == p.description
    &&& q.word_count == p.word_count
    &&& q.keywords == p.keywords
    &&& q.links_to_count == Some(l.links_to_count)
    &&& q.links_from matches Some(v) && v@ == l.links_from@
}

pub open spec fn page_links_ids(links: Seq<PageLinks>) -> Seq<i32> {
    links.map_values(|l: PageLinks| l.id)
}

/// Attaches to each ranked document the link data of its id, if `links` has
/// some (the first entry for that id); the others stay as they are.
pub fn attach_links(pages: Vec<(u32, Webpage)>, links: &Vec<PageLinks>) -> (r: Vec<(u32, Webpage)>)
    ensures
        r@.len() == pages@.len(),
        forall|j: int| 0 <= j < r@.len() ==> {
            let p = #[trigger] pages@[j];
            let f = first_row(page_links_ids(links@), p.1.id);
            &&& r@[j].0 == p.0
            &&& f >= 0 ==> with_links(p.1, links@[f], r@[j].1)
            &&& f < 0 ==> r@[j].1 == p.1
        },
{
    let ghost orig = pages@;
    let ghost lids = page_links_ids(links@);
    proof {
        lemma_first_ids(lids);
    }
    let mut rest = pages;
    let mut out: Vec<(u32, Webpage)> = Vec::new();
    while rest.len() > 0
        invariant
            out@.len() + rest@.len() == orig.len(),
            rest@ == orig.subrange(out@.len() as int, orig.len() as int),
            lids == page_links_ids(links@),
            forall|id: i32| #[trigger] first_row(lids, id) >= 0 ==> first_row(lids, id) < lids.len() && lids[first_row(lids, id)] == id,
            forall|j: int| 0 <= j < out@.len() ==> {
                let p = #[trigger] orig[j];
                let f = first_row(lids, p.1.id);
                &&& out@[j].0 == p.0
                &&& f >= 0 ==> with_links(p.1, links@[f], out@[j].1)
                &&& f < 0 ==> out@[j].1 == p.1
            },
        decreases rest@.len(),
    {
        let ghost k = out@.len();
        let (score, mut page) = rest.remove(0);
        proof {
            assert(orig[k as int] == (score, page));
        }
        let mut f: usize = 0;
        while f < links.len() && links[f].id != page.id
            invariant
                f <= links@.len(),
                lids == page_links_ids(links@),
                forall|q: int| 0 <= q < f ==> links@[q].id != page.id,
            decreases links@.len() - f,
        {
            f = f + 1;
        }
        proof {
            lemma_first_row_scan(lids, page.id, f as int);
        }
        if f < links.len() {
            page.links_to_count = Some(links[f].links_to_count);
            page.links_from = Some(copy_pairs(&links[f].links_from));
        }
        out.push((score, page));
        proof {
            assert(rest@ =~= orig.subrange(out@.len() as int, orig.len() as int));
        }
    }
    out
}

proof fn lemma_first_row_scan(ids: Seq<i32>, id: i32, f: int)
    requires
        0 <= f <= ids.len(),
        forall|q: int| 0 <= q < f ==> ids[q] != id,
        f < ids.len() ==> ids[f] == id,
    ensures
        f < ids.len() ==> first_row(ids, id) == f,
        f == ids.len() ==> first_row(ids, id) < 0,
    decreases ids.len(),
{
    if ids.len() > 0 {
        let p = ids.drop_last();
        if f < ids.len() - 1 {
            lemma_first_row_scan(p, id, f);
        } else {
            lemma_first_row_scan(p, id, p.len() as int);
        }
    }
}

} // verus!
