use search_rank::authority::{extract_domain_from_string, AuthorityTable};
use search_rank::database::Webpage;
use search_rank::ranking::{rank_webpages, select_ranked, HIGH_RELEVANCE};

fn bits(x: f32) -> u32 {
    x.to_bits()
}

fn page(id: i32, url: &str) -> Webpage {
    Webpage {
        id,
        title: format!("t{}", id),
        url: url.to_string(),
        description: String::new(),
        word_count: 10,
        keywords: Vec::new(),
        links_to_count: None,
        links_from: None,
    }
}

#[test]
fn threshold_is_one() {
    assert_eq!(HIGH_RELEVANCE, 1.0f32.to_bits());
}

#[test]
fn five_of_eight_high_relevance() {
    // Eight at or above 1.0, two below, bound 5.
    let keys: Vec<(u32, usize)> = vec![
        (bits(1.0), 8),
        (bits(0.9), 1),
        (bits(1.0), 3),
        (bits(1.0), 1),
        (bits(1.0), 7),
        (bits(0.5), 1),
        (bits(1.0), 2),
        (bits(1.0), 6),
        (bits(1.0), 5),
        (bits(1.0), 4),
    ];
    let sel = select_ranked(&keys, 5);
    assert_eq!(sel, vec![3, 6, 2, 9, 8]);
}

#[test]
fn fewer_high_than_bound() {
    let keys: Vec<(u32, usize)> = vec![(bits(0.2), 1), (bits(1.0), 9), (bits(0.99), 1)];
    assert_eq!(select_ranked(&keys, 5), vec![1]);
}

#[test]
fn nothing_high_gives_empty() {
    let keys: Vec<(u32, usize)> = vec![(bits(0.2), 1), (bits(0.999), 1)];
    assert!(select_ranked(&keys, 100).is_empty());
    assert!(select_ranked(&Vec::new(), 100).is_empty());
}

#[test]
fn higher_score_beats_rank() {
    let keys: Vec<(u32, usize)> = vec![(bits(1.0), 1), (bits(1.5), usize::MAX)];
    assert_eq!(select_ranked(&keys, 10), vec![1, 0]);
}

#[test]
fn ties_keep_candidate_order() {
    let keys: Vec<(u32, usize)> = vec![(bits(1.0), 4), (bits(1.0), 4), (bits(1.0), 2)];
    assert_eq!(select_ranked(&keys, 10), vec![2, 0, 1]);
}

#[test]
fn zero_bound_gives_empty() {
    let keys: Vec<(u32, usize)> = vec![(bits(1.0), 4)];
    assert!(select_ranked(&keys, 0).is_empty());
}

#[test]
fn unranked_host_sorts_last() {
    let table = AuthorityTable::from_lines(&vec!["a.com".to_string(), "b.com".to_string()]);
    let scored = vec![
        (bits(1.0), page(1, "https://unknown.org/x")),
        (bits(1.0), page(2, "https://b.com/")),
        (bits(1.0), page(3, "https://a.com/y")),
        (bits(0.5), page(4, "https://a.com/z")),
        (bits(1.0), page(5, "not a url")),
    ];
    let ranked = rank_webpages(scored, &table, 10);
    let ids: Vec<i32> = ranked.iter().map(|(_, p)| p.id).collect();
    assert_eq!(ids, vec![3, 2, 1, 5]);
    assert_eq!(ranked[0].0, bits(1.0));
    assert_eq!(ranked[0].1.title, "t3");
}

#[test]
fn domain_extraction() {
    assert_eq!(extract_domain_from_string("https://www.example.com/a?b=c"), Some("www.example.com".to_string()));
    assert_eq!(extract_domain_from_string("http://Example.COM:8080/"), Some("example.com".to_string()));
    assert_eq!(extract_domain_from_string("no url here"), None);
    assert_eq!(extract_domain_from_string("data:text/plain,Stuff"), None);
}

#[test]
fn authority_ranks_from_lines() {
    let lines = vec!["google.com".to_string(), "wikipedia.org".to_string(), "google.com".to_string()];
    let table = AuthorityTable::from_lines(&lines);
    assert_eq!(table.rank_of_host(&"google.com".to_string()), Some(3));
    assert_eq!(table.rank_of_host(&"wikipedia.org".to_string()), Some(2));
    assert_eq!(table.rank_of_host(&"example.com".to_string()), None);
    assert_eq!(table.top_website_rank("https://wikipedia.org/wiki/Rust"), Some(2));
    assert_eq!(table.top_website_rank("https://en.wikipedia.org/wiki/Rust"), None);
    assert_eq!(table.rank_for_ordering("https://en.wikipedia.org/"), usize::MAX);
    assert_eq!(table.rank_for_ordering("https://wikipedia.org/"), 2);
}
