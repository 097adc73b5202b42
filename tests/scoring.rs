use search_rank::database::{Keyword, Webpage};
use search_rank::lemmatise::{lemmatise_string, LemmaTable};
use search_rank::ranking::{rank_webpages, HIGH_RELEVANCE};
use search_rank::authority::AuthorityTable;
use search_rank::scoring::{shared_terms, term_counts, QueryVector, SharedTerm};

fn words(v: &[&str]) -> Vec<String> {
    v.iter().map(|w| w.to_string()).collect()
}

fn kw(id: i32, word: &str, df: i64) -> Keyword {
    Keyword { id, word: word.to_string(), documents_containing_word: df }
}

fn doc(id: i32, word_count: i32, keywords: Vec<(Keyword, i32)>) -> Webpage {
    Webpage {
        id,
        title: String::new(),
        url: format!("https://site{}.com/", id),
        description: String::new(),
        word_count,
        keywords,
        links_to_count: None,
        links_from: None,
    }
}

#[test]
fn counts_terms_in_first_occurrence_order() {
    let c = term_counts(&words(&["run", "fast", "run", "run"]));
    assert_eq!(c, vec![("run".to_string(), 3), ("fast".to_string(), 1)]);
    let total: usize = c.iter().map(|e| e.1).sum();
    assert_eq!(total, 4);
    let freq_sum: f32 = c.iter().map(|e| e.1 as f32 / 4.0).sum();
    assert!((freq_sum - 1.0).abs() < 1e-6);
}

#[test]
fn empty_query_has_no_terms() {
    let q = QueryVector::from_terms(&Vec::new());
    assert!(q.terms().is_empty());
    assert_eq!(q.total(), 0);
}

#[test]
fn query_vector_lookup() {
    let q = QueryVector::from_terms(&words(&["a", "b", "a"]));
    assert_eq!(q.total(), 3);
    assert_eq!(q.count_of(&"a".to_string()), Some(2));
    assert_eq!(q.count_of(&"b".to_string()), Some(1));
    assert_eq!(q.count_of(&"c".to_string()), None);
}

#[test]
fn shares_only_common_terms() {
    let q = QueryVector::from_terms(&words(&["run", "fast"]));
    let d = doc(1, 100, vec![(kw(1, "walk", 4), 2), (kw(2, "run", 3), 5), (kw(3, "fast", 7), 1)]);
    let s = shared_terms(&d, &q);
    assert_eq!(
        s,
        vec![
            SharedTerm { occurrences: 5, documents_containing_word: 3, query_count: 1 },
            SharedTerm { occurrences: 1, documents_containing_word: 7, query_count: 1 },
        ]
    );
}

#[test]
fn no_common_terms_shares_nothing() {
    let q = QueryVector::from_terms(&words(&["run"]));
    let d = doc(1, 100, vec![(kw(1, "walk", 4), 2)]);
    assert!(shared_terms(&d, &q).is_empty());
}

#[test]
fn running_example_end_to_end() {
    let mut table = LemmaTable::with_capacity(8);
    assert!(table.add_line("run -> running, runs"));
    let terms = lemmatise_string(&table, "running");
    assert_eq!(terms, words(&["run"]));
    let q = QueryVector::from_terms(&terms);
    assert_eq!(q.count_of(&"run".to_string()), Some(1));
    assert_eq!(q.total(), 1);
    let d = doc(1, 100, vec![(kw(1, "run", 3), 5)]);
    let s = shared_terms(&d, &q);
    assert_eq!(s, vec![SharedTerm { occurrences: 5, documents_containing_word: 3, query_count: 1 }]);
    // tf = 5/100, idf = ln(10/3), query tf = 1/1.
    let tf = s[0].occurrences as f32 / d.word_count as f32;
    let idf = (10.0f32 / s[0].documents_containing_word as f32).ln().max(0.0);
    assert!((tf - 0.05).abs() < 1e-6);
    assert!((idf - 1.204).abs() < 1e-3);
    assert!((tf * idf - 0.0602).abs() < 1e-4);
    let qw = s[0].query_count as f32 / q.total() as f32 * idf;
    let score = (qw * tf * idf) / ((qw * qw).sqrt() * ((tf * idf) * (tf * idf)).sqrt());
    assert!((score - 1.0).abs() < 1e-6);
    // A document scoring 1.0 is high relevance and is returned.
    let ranked = rank_webpages(vec![(HIGH_RELEVANCE, d)], &AuthorityTable::from_lines(&Vec::new()), 10);
    assert_eq!(ranked.len(), 1);
}
