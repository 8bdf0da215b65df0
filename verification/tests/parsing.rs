use file_cacher::config::{Config, parse_i32, parse_range};
use file_cacher::numbers::parse_u64;
use file_cacher::paths::{base_name_of, join_path};
use file_cacher::resolve::resolve;

#[test]
fn resolve_returns_free_name_unchanged() {
    let existing: Vec<String> = Vec::new();
    assert_eq!(resolve("a.txt", &existing), "a.txt");
}

#[test]
fn resolve_prefixes_a_counter_on_collision() {
    let existing = vec!["a.txt".to_string()];
    assert_eq!(resolve("a.txt", &existing), "1a.txt");
    let existing2 = vec!["a.txt".to_string(), "1a.txt".to_string()];
    assert_eq!(resolve("a.txt", &existing2), "2a.txt");
}

#[test]
fn resolve_skips_every_taken_counter() {
    let existing = vec![
        "f".to_string(),
        "1f".to_string(),
        "2f".to_string(),
        "3f".to_string(),
    ];
    assert_eq!(resolve("f", &existing), "4f");
}

#[test]
fn parse_u64_reads_decimal_numerals() {
    assert_eq!(parse_u64("0"), Some(0));
    assert_eq!(parse_u64("123"), Some(123));
    assert_eq!(parse_u64("007"), Some(7));
    assert_eq!(parse_u64("18446744073709551615"), Some(u64::MAX));
    assert_eq!(parse_u64("18446744073709551616"), None);
    assert_eq!(parse_u64(""), None);
    assert_eq!(parse_u64("12a"), None);
    assert_eq!(parse_u64("-5"), None);
}

#[test]
fn parse_i32_reads_signed_numerals() {
    assert_eq!(parse_i32("-36000"), Some(-36000));
    assert_eq!(parse_i32("36001"), Some(36001));
    assert_eq!(parse_i32("-2147483648"), Some(i32::MIN));
    assert_eq!(parse_i32("2147483647"), Some(i32::MAX));
    assert_eq!(parse_i32("2147483648"), None);
    assert_eq!(parse_i32("-2147483649"), None);
    assert_eq!(parse_i32(""), None);
    assert_eq!(parse_i32("-"), None);
}

#[test]
fn parse_range_reads_half_open_intervals() {
    let r = parse_range("-36000..36001").expect("well-formed range");
    assert_eq!((r.start, r.end), (-36000, 36001));
    let r2 = parse_range("5..10").expect("well-formed range");
    assert_eq!((r2.start, r2.end), (5, 10));
}

#[test]
fn parse_range_rejects_malformed_text() {
    assert!(parse_range("a..b").is_none());
    assert!(parse_range("5").is_none());
    assert!(parse_range("..5").is_none());
    assert!(parse_range("5..").is_none());
    assert!(parse_range("5..10..15").is_none());
    assert!(parse_range("").is_none());
}

#[test]
fn config_defaults_match_the_stock_settings() {
    let c = Config::default();
    assert_eq!(c.cache_json, "$HOME/.cache/file-cacher/cache.json");
    assert_eq!(c.cache_dir, "$HOME/.cache/file-cacher/cache/");
    assert_eq!((c.default_offset_range.start, c.default_offset_range.end), (-36000, 36001));
    assert_eq!(c.file_lifetime, 1_728_000);
}

#[test]
fn config_from_pairs_adopts_recognized_values() {
    let pairs = vec![
        ("cache-db".to_string(), "/tmp/x.json".to_string()),
        ("cache-dir".to_string(), "/tmp/files".to_string()),
        ("random-offset-range".to_string(), "-5..6".to_string()),
        ("file-default-lifetime".to_string(), "500".to_string()),
        ("unrelated".to_string(), "ignored".to_string()),
    ];
    let c = Config::config_from_hashmap(&pairs);
    assert_eq!(c.cache_json, "/tmp/x.json");
    assert_eq!(c.cache_dir, "/tmp/files");
    assert_eq!((c.default_offset_range.start, c.default_offset_range.end), (-5, 6));
    assert_eq!(c.file_lifetime, 500);
}

#[test]
fn config_from_pairs_keeps_defaults_for_bad_values() {
    let pairs = vec![
        ("random-offset-range".to_string(), "wide open".to_string()),
        ("file-default-lifetime".to_string(), "three weeks".to_string()),
    ];
    let c = Config::config_from_hashmap(&pairs);
    assert_eq!((c.default_offset_range.start, c.default_offset_range.end), (-36000, 36001));
    assert_eq!(c.file_lifetime, 1_728_000);
}

#[test]
fn base_name_takes_the_final_component() {
    assert_eq!(base_name_of("/a/b/c.txt"), "c.txt");
    assert_eq!(base_name_of("plain.bin"), "plain.bin");
    assert_eq!(base_name_of("/ends/with/slash/"), "");
}

#[test]
fn join_path_inserts_exactly_one_slash() {
    assert_eq!(join_path("/cache", "f.bin"), "/cache/f.bin");
    assert_eq!(join_path("/cache/", "f.bin"), "/cache/f.bin");
    assert_eq!(join_path("", "f.bin"), "/f.bin");
}
