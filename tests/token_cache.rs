use search_rank::token_cache::{TokenCache, VALIDITY_WINDOW_SECS};

fn s(x: &str) -> String {
    x.to_string()
}

#[test]
fn admitted_within_window() {
    let mut cache = TokenCache::new();
    cache.add_token_at(s("tok"), s("1.2.3.4"), 1000);
    assert!(cache.is_valid_at(&s("tok"), &s("1.2.3.4"), 1000));
    assert!(cache.is_valid_at(&s("tok"), &s("1.2.3.4"), 1119));
    assert!(cache.is_valid_at(&s("tok"), &s("1.2.3.4"), 1120));
}

#[test]
fn expired_after_window() {
    let mut cache = TokenCache::new();
    cache.add_token_at(s("tok"), s("1.2.3.4"), 1000);
    assert!(!cache.is_valid_at(&s("tok"), &s("1.2.3.4"), 1121));
    assert_eq!(VALIDITY_WINDOW_SECS, 120);
}

#[test]
fn other_origin_or_token_not_admitted() {
    let mut cache = TokenCache::new();
    cache.add_token_at(s("tok"), s("1.2.3.4"), 1000);
    assert!(!cache.is_valid_at(&s("tok"), &s("5.6.7.8"), 1001));
    assert!(!cache.is_valid_at(&s("other"), &s("1.2.3.4"), 1001));
}

#[test]
fn latest_record_wins() {
    let mut cache = TokenCache::new();
    cache.add_token_at(s("tok"), s("a"), 1000);
    cache.add_token_at(s("tok"), s("b"), 1100);
    assert!(!cache.is_valid_at(&s("tok"), &s("a"), 1100));
    assert!(cache.is_valid_at(&s("tok"), &s("b"), 1200));
}

#[test]
fn cleaning_drops_only_stale_records() {
    let mut cache = TokenCache::new();
    cache.add_token_at(s("old"), s("a"), 1000);
    cache.add_token_at(s("new"), s("a"), 1100);
    cache.clean_old_tokens_at(1121);
    // "old" is gone even for a check at its own stamp time.
    assert!(!cache.is_valid_at(&s("old"), &s("a"), 1000));
    assert!(cache.is_valid_at(&s("new"), &s("a"), 1121));
}

#[test]
fn admission_check_hit_and_miss() {
    let mut cache = TokenCache::new();
    // Miss: must be verified outside.
    assert!(!cache.check_cached(&s("tok"), &s("ip"), 1000));
    assert!(cache.record_verification(s("tok"), s("ip"), true, 1000));
    // Hit within the window, no verification needed.
    assert!(cache.check_cached(&s("tok"), &s("ip"), 1119));
    // Past the window the check misses again.
    assert!(!cache.check_cached(&s("tok"), &s("ip"), 1121));
}

#[test]
fn failed_verification_is_not_recorded() {
    let mut cache = TokenCache::new();
    assert!(!cache.record_verification(s("tok"), s("ip"), false, 1000));
    assert!(!cache.check_cached(&s("tok"), &s("ip"), 1000));
}

#[test]
fn system_clock_admission() {
    let mut cache = TokenCache::new();
    cache.add_token(s("tok"), s("ip"));
    assert!(cache.is_valid("tok", "ip"));
    assert!(!cache.is_valid("tok", "other"));
    cache.clean_old_tokens();
    assert!(cache.is_valid("tok", "ip"));
}
