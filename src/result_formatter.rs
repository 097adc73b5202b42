//! Result assembly and request parameters.

use crate::authority::{url_authority, AuthorityTable};
use crate::database::{Keyword, Webpage};
use vstd::prelude::*;

verus! {

/// One entry of a response.
pub struct FormattedResult {
    pub title: String,
    pub url: String,
    pub description: String,
    /// Score bits of a single-precision value.
    pub score: u32,
    /// Each term of the document with its occurrences.
    pub keywords: Vec<(String, i32)>,
    /// Site-authority rank of the document's host; `None` when unlisted.
    pub top_website_rank: Option<usize>,
    /// Present only when links were asked for and are known.
    pub links_to_count: Option<usize>,
    /// Present only when links were asked for and are known.
    pub links_from: Option<Vec<(String, i32)>>,
}

pub fn copy_pairs(v: &Vec<(String, i32)>) -> (r: Vec<(String, i32)>)
    ensures
        r@ == v@,
{
    let mut r: Vec<(String, i32)> = Vec::new();
    let mut i: usize = 0;
    while i < v.len()
        invariant
            i <= v@.len(),
            r@ == v@.take(i as int),
        decreases v@.len() - i,
    {
        r.push((v[i].0.clone(), v[i].1));
        assert(v@.take(i as int + 1) == v@.take(i as int).push(v@[i as int]));
        i = i + 1;
    }
    assert(v@.take(v@.len() as int) == v@);
    r
}

/// The terms of a document with their occurrences.
pub open spec fn keyword_pairs(keywords: Seq<(Keyword, i32)>) -> Seq<(String, i32)> {
    keywords.map_values(|e: (Keyword, i32)| (e.0.word, e.1))
}

/// The response entry of `webpage` scored `score`: its fields, its terms,
/// the authority rank of its host, and its link data only when
/// `include_links` is set (absent data stays absent).
pub fn format_result(score: u32, webpage: &Webpage, authority: &AuthorityTable, include_links: bool) -> (r: FormattedResult)
    ensures
        r.title == webpage.title,
        r.url == webpage.url,
        r.description == webpage.description,
        r.score == score,
        r.keywords@ == keyword_pairs(webpage.keywords@),
        r.top_website_rank == url_authority(authority@, webpage.url@),
        r.links_to_count == (if include_links {
            webpage.links_to_count
        } else {
            None::<usize>
        }),
        include_links ==> match webpage.links_from {
            Some(l) => r.links_from matches Some(m) && m@ == l@,
            None => r.links_from is None,
        },
        !include_links ==> r.links_from is None,
{
    let mut keywords: Vec<(String, i32)> = Vec::new();
    let mut i: usize = 0;
    while i < webpage.keywords.len()
        invariant
            i <= webpage.keywords@.len(),
            keywords@ == keyword_pairs(webpage.keywords@).take(i as int),
        decreases webpage.keywords@.len() - i,
    {
        keywords.push((webpage.keywords[i].0.word.clone(), webpage.keywords[i].1));
        assert(keyword_pairs(webpage.keywords@).take(i as int + 1) == keyword_pairs(webpage.keywords@).take(i as int).push(
            (webpage.keywords@[i as int].0.word, webpage.keywords@[i as int].1),
        ));
        i = i + 1;
    }
    assert(keyword_pairs(webpage.keywords@).take(webpage.keywords@.len() as int) == keyword_pairs(webpage.keywords@));
    let (links_to_count, links_from) = if include_links {
        let from = match &webpage.links_from {
            Some(l) => Some(copy_pairs(l)),
            None => None,
        };
        (webpage.links_to_count, from)
    } else {
        (None, None)
    };
    FormattedResult {
        title: webpage.title.clone(),
        url: webpage.url.clone(),
        description: webpage.description.clone(),
        score,
        keywords,
        top_website_rank: authority.top_website_rank(webpage.url.as_str()),
        links_to_count,
        links_from,
    }
}

} // verus!
