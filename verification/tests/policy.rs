use file_cacher::cacher::Cacher;
use file_cacher::config::OffsetRange;
use file_cacher::expiry::{draw_jitter, is_expired};
use file_cacher::record::CachedFile;

fn record(cached_time: u64, random: i32, expire_time: Option<u64>) -> CachedFile {
    CachedFile {
        url: "http://x/f".to_string(),
        path: "/tmp/f".to_string(),
        cached_time,
        random,
        expire_time,
    }
}

#[test]
fn expire_time_adds_positive_offset() {
    let rec = record(1_000, 500, None);
    assert_eq!(Cacher::get_expire_time(&rec, 10_000), 11_500);
}

#[test]
fn expire_time_subtracts_negative_offset() {
    let rec = record(1_000, -500, None);
    assert_eq!(Cacher::get_expire_time(&rec, 10_000), 10_500);
}

#[test]
fn expire_time_at_interval_boundaries() {
    // the two boundary offsets of the stock interval give symmetric results
    let low = record(100_000, -36_000, None);
    let high = record(100_000, 36_000, None);
    assert_eq!(Cacher::get_expire_time(&low, 1_728_000), 100_000 + 1_728_000 - 36_000);
    assert_eq!(Cacher::get_expire_time(&high, 1_728_000), 100_000 + 1_728_000 + 36_000);
}

#[test]
fn explicit_expiry_wins_over_computed() {
    let rec = record(1_000, 500, Some(42));
    assert_eq!(Cacher::get_expire_time(&rec, 10_000), 42);
}

#[test]
fn expiry_boundary_is_strict() {
    let rec = record(1_000, -500, None);
    let expiry = Cacher::get_expire_time(&rec, 10_000);
    assert!(!is_expired(&rec, 10_000, expiry - 1));
    assert!(!is_expired(&rec, 10_000, expiry));
    assert!(is_expired(&rec, 10_000, expiry + 1));
}

#[test]
fn jitter_stays_inside_the_interval() {
    let range = OffsetRange { start: -36_000, end: 36_001 };
    for _ in 0..2_000 {
        let v = draw_jitter(&range);
        assert!((-36_000..36_001).contains(&v));
    }
}

#[test]
fn jitter_from_singleton_interval() {
    let range = OffsetRange { start: 7, end: 8 };
    for _ in 0..10 {
        assert_eq!(draw_jitter(&range), 7);
    }
}
