//! Site authority: a popularity list of hosts, best first, and the rank of a
//! document's host in it.

use crate::keyed::StrMap;
use vstd::prelude::*;

verus! {

/// The host of `url` when it parses as a URL that has one.
pub uninterp spec fn url_host(url: Seq<char>) -> Option<Seq<char>>;

/// Relies on url::Url::parse and Url::host_str: the host of `url` when it
/// parses and has a host, `None` otherwise; a function of the text alone.
#[verifier::external_body]
pub fn extract_domain_from_string(url: &str) -> (r: Option<String>)
    ensures
        match r {
            Some(h) => url_host(url@) == Some(h@),
            None => url_host(url@) is None,
        },
{
    match url::Url::parse(url) {
        Ok(parsed) => parsed.host_str().map(String::from),
        Err(_) => None,
    }
}

/// Ranks given by a popularity list: the host on line `i` (from 0) gets rank
/// `i + 1`; a host listed twice keeps its last rank.
pub open spec fn ranks_of_lines(lines: Seq<Seq<char>>) -> Map<Seq<char>, usize>
    decreases lines.len(),
{
    if lines.len() == 0 {
        Map::empty()
    } else {
        ranks_of_lines(lines.drop_last()).insert(lines.last(), lines.len() as usize)
    }
}

/// Every listed rank is a real one: at least 1 and below `usize::MAX`.
pub open spec fn valid_ranks(ranks: Map<Seq<char>, usize>) -> bool {
    forall|h: Seq<char>| #[trigger] ranks.contains_key(h) ==> 1 <= ranks[h] < usize::MAX
}

proof fn lemma_ranks_of_lines_bounded(lines: Seq<Seq<char>>)
    requires
        lines.len() < usize::MAX,
    ensures
        forall|h: Seq<char>| #[trigger] ranks_of_lines(lines).contains_key(h) ==> 1 <= ranks_of_lines(lines)[h] <= lines.len(),
    decreases lines.len(),
{
    if lines.len() > 0 {
        let prev = lines.drop_last();
        lemma_ranks_of_lines_bounded(prev);
        assert forall|h: Seq<char>| #[trigger] ranks_of_lines(lines).contains_key(h)
            implies 1 <= ranks_of_lines(lines)[h] <= lines.len() by {
            if h != lines.last() {
                assert(ranks_of_lines(prev).contains_key(h));
            }
        }
    }
}

/// The rank of the host of `url`, if the host is listed.
pub open spec fn url_authority(ranks: Map<Seq<char>, usize>, url: Seq<char>) -> Option<usize> {
    match url_host(url) {
        Some(h) => if ranks.contains_key(h) {
            Some(ranks[h])
        } else {
            None
        },
        None => None,
    }
}

/// The rank used to order documents: unlisted hosts come after every listed
/// one.
pub open spec fn sort_rank(ranks: Map<Seq<char>, usize>, url: Seq<char>) -> usize {
    match url_authority(ranks, url) {
        Some(r) => r,
        None => usize::MAX,
    }
}

/// Host -> rank (1 is the most authoritative).
pub struct AuthorityTable {
    ranks: StrMap<usize>,
}

impl View for AuthorityTable {
    type V = Map<Seq<char>, usize>;

    closed spec fn view(&self) -> Map<Seq<char>, usize> {
        self.ranks@
    }
}

impl AuthorityTable {
    #[verifier::type_invariant]
    pub(crate) open spec fn inv(self) -> bool {
        valid_ranks(self@)
    }

    /// The table of a popularity list, one host per line, best first.
    pub fn from_lines(lines: &Vec<String>) -> (r: Self)
        requires
            lines@.len() < usize::MAX,
        ensures
            r@ == ranks_of_lines(lines@.map_values(|s: String| s@)),
            valid_ranks(r@),
    {
        let ghost ls = lines@.map_values(|s: String| s@);
        let mut ranks: StrMap<usize> = StrMap::with_buckets(lines.len() + 1);
        let mut i: usize = 0;
        while i < lines.len()
            invariant
                i <= lines@.len() < usize::MAX,
                ls == lines@.map_values(|s: String| s@),
                ranks@ == ranks_of_lines(ls.take(i as int)),
            decreases lines@.len() - i,
        {
            assert(ls.take(i as int + 1).drop_last() == ls.take(i as int));
            ranks.insert(lines[i].clone(), i + 1);
            i = i + 1;
        }
        assert(ls.take(lines@.len() as int) == ls);
        proof {
            lemma_ranks_of_lines_bounded(ls);
        }
        AuthorityTable { ranks }
    }

    /// The rank of `host`, if listed.
    pub fn rank_of_host(&self, host: &String) -> (r: Option<usize>)
        ensures
            r == (if self@.contains_key(host@) {
                Some(self@[host@])
            } else {
                None::<usize>
            }),
    {
        match self.ranks.get(host) {
            Some(r) => Some(*r),
            None => None,
        }
    }

    /// The rank of the host of `url`, if listed.
    pub fn top_website_rank(&self, url: &str) -> (r: Option<usize>)
        ensures
            r == url_authority(self@, url@),
    {
        match extract_domain_from_string(url) {
            Some(h) => self.rank_of_host(&h),
            None => None,
        }
    }

    /// The rank of the host of `url` for ordering: `usize::MAX` when unlisted.
    pub fn rank_for_ordering(&self, url: &str) -> (r: usize)
        ensures
            r == sort_rank(self@, url@),
            valid_ranks(self@),
    {
        proof {
            use_type_invariant(self);
        }
        match self.top_website_rank(url) {
            Some(r) => r,
            None => usize::MAX,
        }
    }
}

} // verus!
