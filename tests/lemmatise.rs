use search_rank::lemmatise::{lemmatise_string, parse_lemma_line, LemmaTable};

fn table() -> LemmaTable {
    let mut t = LemmaTable::with_capacity(16);
    assert!(t.add_line("run/V -> running, runs,ran"));
    assert!(t.add_line("be -> is,are, was"));
    t
}

fn words(v: &[&str]) -> Vec<String> {
    v.iter().map(|w| w.to_string()).collect()
}

#[test]
fn lemmatises_query() {
    let t = table();
    assert_eq!(lemmatise_string(&t, "running"), words(&["run"]));
    assert_eq!(lemmatise_string(&t, "Running Fast!"), words(&["run", "fast"]));
}

#[test]
fn punctuation_becomes_space() {
    let t = table();
    assert_eq!(lemmatise_string(&t, "hello,world"), words(&["hello", "world"]));
    assert_eq!(lemmatise_string(&t, "it's"), words(&["it", "s"]));
    assert_eq!(lemmatise_string(&t, "café"), words(&["caf"]));
}

#[test]
fn keeps_duplicates_and_order() {
    let t = table();
    assert_eq!(lemmatise_string(&t, "ran is RUNS"), words(&["run", "be", "run"]));
}

#[test]
fn empty_and_blank_text() {
    let t = table();
    assert!(lemmatise_string(&t, "").is_empty());
    assert!(lemmatise_string(&t, "  \t ,.;  ").is_empty());
}

#[test]
fn unicode_white_space_splits() {
    let t = table();
    assert_eq!(lemmatise_string(&t, "a\u{00A0}b\u{3000}c"), words(&["a", "b", "c"]));
}

#[test]
fn canonical_text_is_unchanged() {
    let t = table();
    let text = "run fast be happy";
    assert_eq!(lemmatise_string(&t, text), words(&["run", "fast", "be", "happy"]));
    let again = lemmatise_string(&t, &lemmatise_string(&t, text).join(" "));
    assert_eq!(again, words(&["run", "fast", "be", "happy"]));
}

#[test]
fn parses_lemma_lines() {
    assert_eq!(
        parse_lemma_line("run/V -> running, runs,ran"),
        Some(("run".to_string(), words(&["running", "runs", "ran"])))
    );
    assert_eq!(parse_lemma_line("  go ->went"), Some(("go".to_string(), words(&["went"]))));
    assert_eq!(parse_lemma_line("a -> b -> c"), Some(("a -> b".to_string(), words(&["c"]))));
    assert_eq!(parse_lemma_line("x -> a,,b,"), Some(("x".to_string(), words(&["a", "", "b", ""]))));
}

#[test]
fn rejects_malformed_lemma_lines() {
    assert_eq!(parse_lemma_line(""), None);
    assert_eq!(parse_lemma_line("no arrow here"), None);
    assert_eq!(parse_lemma_line("/x -> y"), None);
    assert_eq!(parse_lemma_line("x ->"), None);
    assert_eq!(parse_lemma_line("run/V-x -> a"), None);
    let mut t = LemmaTable::with_capacity(4);
    assert!(!t.add_line("nothing"));
    assert_eq!(t.lemma_of(&"nothing".to_string()), "nothing");
}

#[test]
fn later_lines_override() {
    let mut t = LemmaTable::with_capacity(1);
    t.insert("saw".to_string(), "see".to_string());
    assert!(t.add_line("saw -> saw"));
    assert_eq!(t.lemma_of(&"saw".to_string()), "saw");
    t.insert_all(words(&["x", "y"]), &"z".to_string());
    assert_eq!(t.lemma_of(&"y".to_string()), "z");
}
