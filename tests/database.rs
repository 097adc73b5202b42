use search_rank::authority::AuthorityTable;
use search_rank::database::{
    aggregate_links, assemble_webpages, attach_links, Keyword, KeywordRow, LinkRow, PageLinks, Webpage,
};
use search_rank::result_formatter::format_result;

fn row(id: i32, title: &str, word: &str, kid: i32, df: i64, occ: i32) -> KeywordRow {
    KeywordRow {
        website_id: id,
        title: title.to_string(),
        url: format!("https://p{}.com/", id),
        description: format!("d{}", id),
        word_count: 50,
        word: word.to_string(),
        documents_containing_word: df,
        keyword_id: kid,
        keyword_occurrences: occ,
    }
}

fn link(id: i32, to: i64, src: Option<&str>) -> LinkRow {
    LinkRow { website_id: id, links_to_count: to, source_website: src.map(|s| s.to_string()) }
}

#[test]
fn groups_rows_by_document() {
    let rows = vec![
        row(7, "seven", "run", 1, 3, 5),
        row(2, "two", "run", 1, 3, 1),
        row(7, "ignored title", "fast", 2, 9, 4),
    ];
    let pages = assemble_webpages(&rows);
    assert_eq!(pages.len(), 2);
    assert_eq!(pages[0].id, 7);
    assert_eq!(pages[0].title, "seven");
    assert_eq!(pages[0].url, "https://p7.com/");
    assert_eq!(pages[0].word_count, 50);
    assert_eq!(
        pages[0].keywords,
        vec![
            (Keyword { id: 1, word: "run".to_string(), documents_containing_word: 3 }, 5),
            (Keyword { id: 2, word: "fast".to_string(), documents_containing_word: 9 }, 4),
        ]
    );
    assert_eq!(pages[1].id, 2);
    assert_eq!(pages[1].keywords.len(), 1);
    assert!(pages[1].links_to_count.is_none() && pages[1].links_from.is_none());
    assert!(assemble_webpages(&Vec::new()).is_empty());
}

#[test]
fn aggregates_link_rows() {
    let rows = vec![
        link(1, 4, Some("https://a.com/")),
        link(2, 0, None),
        link(1, 4, Some("https://b.com/")),
        link(1, 4, Some("https://a.com/")),
    ];
    let links = aggregate_links(&rows);
    assert_eq!(links.len(), 2);
    assert_eq!(links[0].id, 1);
    assert_eq!(links[0].links_to_count, 4);
    assert_eq!(
        links[0].links_from,
        vec![("https://a.com/".to_string(), 2), ("https://b.com/".to_string(), 1)]
    );
    assert_eq!(links[1].id, 2);
    assert_eq!(links[1].links_to_count, 0);
    assert!(links[1].links_from.is_empty());
}

fn page(id: i32) -> Webpage {
    Webpage {
        id,
        title: format!("t{}", id),
        url: format!("https://p{}.com/x", id),
        description: "desc".to_string(),
        word_count: 10,
        keywords: vec![(Keyword { id: 1, word: "run".to_string(), documents_containing_word: 2 }, 3)],
        links_to_count: None,
        links_from: None,
    }
}

#[test]
fn attaches_links_by_id() {
    let links = vec![PageLinks { id: 2, links_to_count: 6, links_from: vec![("https://s.com/".to_string(), 2)] }];
    let out = attach_links(vec![(10, page(1)), (20, page(2))], &links);
    assert_eq!(out.len(), 2);
    assert_eq!(out[0].0, 10);
    assert!(out[0].1.links_to_count.is_none());
    assert!(out[0].1.links_from.is_none());
    assert_eq!(out[1].0, 20);
    assert_eq!(out[1].1.links_to_count, Some(6));
    assert_eq!(out[1].1.links_from, Some(vec![("https://s.com/".to_string(), 2)]));
    assert_eq!(out[1].1.title, "t2");
}

#[test]
fn formats_results() {
    let table = AuthorityTable::from_lines(&vec!["p1.com".to_string()]);
    let mut p = page(1);
    p.links_to_count = Some(0);
    p.links_from = Some(vec![("https://s.com/".to_string(), 1)]);
    let r = format_result(7, &p, &table, true);
    assert_eq!(r.title, "t1");
    assert_eq!(r.url, "https://p1.com/x");
    assert_eq!(r.description, "desc");
    assert_eq!(r.score, 7);
    assert_eq!(r.keywords, vec![("run".to_string(), 3)]);
    assert_eq!(r.top_website_rank, Some(1));
    assert_eq!(r.links_to_count, Some(0));
    assert_eq!(r.links_from, Some(vec![("https://s.com/".to_string(), 1)]));

    let r = format_result(7, &p, &table, false);
    assert_eq!(r.links_to_count, None);
    assert_eq!(r.links_from, None);

    let r = format_result(7, &page(2), &table, true);
    assert_eq!(r.top_website_rank, None);
    assert_eq!(r.links_to_count, None);
    assert_eq!(r.links_from, None);
}
