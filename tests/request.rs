use search_rank::request::{extract_query_params, parse_usize, DEFAULT_RESULTS};

fn some(x: &str) -> Option<String> {
    Some(x.to_string())
}

#[test]
fn missing_query_is_rejected() {
    assert_eq!(extract_query_params(None, some("true"), some("5"), 100), None);
}

#[test]
fn defaults() {
    assert_eq!(extract_query_params(some("rust"), None, None, 100), Some(("rust".to_string(), false, 100)));
    assert_eq!(extract_query_params(some("rust"), None, None, 20), Some(("rust".to_string(), false, 20)));
    assert_eq!(DEFAULT_RESULTS, 100);
}

#[test]
fn links_flag_must_be_exactly_true() {
    assert_eq!(extract_query_params(some("q"), some("true"), None, 100).unwrap().1, true);
    assert_eq!(extract_query_params(some("q"), some("True"), None, 100).unwrap().1, false);
    assert_eq!(extract_query_params(some("q"), some("1"), None, 100).unwrap().1, false);
}

#[test]
fn result_count_is_capped() {
    assert_eq!(extract_query_params(some("q"), None, some("5"), 100).unwrap().2, 5);
    assert_eq!(extract_query_params(some("q"), None, some("500"), 100).unwrap().2, 100);
    assert_eq!(extract_query_params(some("q"), None, some("abc"), 50).unwrap().2, 50);
    assert_eq!(extract_query_params(some("q"), None, some("-3"), 100).unwrap().2, 100);
}

#[test]
fn parses_like_from_str() {
    for s in ["0", "7", "+12", "0042", "", "+", "-1", " 1", "1 ", "1a", "18446744073709551615", "18446744073709551616", "99999999999999999999999"] {
        assert_eq!(parse_usize(s), s.parse::<usize>().ok(), "input {:?}", s);
    }
}
