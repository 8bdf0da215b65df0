use file_cacher::cacher::Cacher;
use file_cacher::config::{Config, OffsetRange};

fn test_config(lifetime: u64) -> Config {
    Config {
        cache_json: "/tmp/file-cacher-test/cache.json".to_string(),
        cache_dir: "/tmp/file-cacher-test/cache".to_string(),
        default_offset_range: OffsetRange { start: 0, end: 1 },
        file_lifetime: lifetime,
    }
}

#[test]
fn fresh_get_records_one_entry() {
    let mut cacher = Cacher::new(Some(test_config(1_728_000)), None);
    assert_eq!(cacher.len(), 0);
    let now: u64 = 1_700_000_000;
    assert!(cacher.cached_path("http://x/file").is_none());
    let path = cacher.insert_new("http://x/file", "file.bin", now, None);
    assert_eq!(path, "/tmp/file-cacher-test/cache/file.bin");
    assert_eq!(cacher.len(), 1);
    let rec = cacher.lookup("http://x/file").expect("record should be there");
    assert_eq!(rec.url, "http://x/file");
    assert_eq!(rec.path, path);
    assert_eq!(rec.cached_time, now);
    assert_eq!(rec.expire_time, None);
    let removed = cacher.clean_expired(now);
    assert_eq!(removed.len(), 0);
    assert_eq!(cacher.len(), 1);
}

#[test]
fn cache_hit_returns_same_path() {
    let mut cacher = Cacher::new(Some(test_config(1_728_000)), None);
    let now: u64 = 1_700_000_000;
    let first = cacher.insert_new("http://x/file", "file.bin", now, None);
    let hit1 = cacher.cached_path("http://x/file").expect("hit expected");
    let hit2 = cacher.cached_path("http://x/file").expect("hit expected");
    assert_eq!(hit1, first);
    assert_eq!(hit2, first);
    assert_eq!(cacher.len(), 1);
}

#[test]
fn clean_expired_removes_old_record_once() {
    let mut cacher = Cacher::new(Some(test_config(10)), None);
    let cached_at: u64 = 1_000;
    let path = cacher.insert_new("http://x/old", "old.bin", cached_at, None);
    // expiry is cached_at + 10 + 0 = 1010, strictly before now
    let removed = cacher.clean_expired(2_000);
    assert_eq!(removed, vec![path]);
    assert_eq!(cacher.len(), 0);
    let removed_again = cacher.clean_expired(2_000);
    assert_eq!(removed_again.len(), 0);
}

#[test]
fn clean_expired_keeps_boundary_record() {
    let mut cacher = Cacher::new(Some(test_config(10)), None);
    cacher.insert_new("http://x/edge", "edge.bin", 1_000, None);
    // expiry is exactly 1010: equal to now is not expired
    assert_eq!(cacher.clean_expired(1_010).len(), 0);
    assert_eq!(cacher.len(), 1);
    assert_eq!(cacher.clean_expired(1_011).len(), 1);
    assert_eq!(cacher.len(), 0);
}

#[test]
fn explicit_expiry_overrides_lifetime() {
    let mut cacher = Cacher::new(Some(test_config(1_728_000)), None);
    let now: u64 = 5_000;
    cacher.insert_new("http://x/short", "short.bin", now, Some(50));
    let rec = cacher.lookup("http://x/short").expect("record should be there");
    assert_eq!(rec.expire_time, Some(5_050));
    // expired right after its explicit expiry, long before the lifetime ends
    assert_eq!(cacher.clean_expired(5_051).len(), 1);
}

#[test]
fn clear_empties_index_and_counts_records() {
    let mut cacher = Cacher::new(Some(test_config(1_728_000)), None);
    let now: u64 = 1_700_000_000;
    cacher.insert_new("http://x/a", "a.bin", now, None);
    cacher.insert_new("http://x/b", "b.bin", now, None);
    cacher.insert_new("http://x/c", "c.bin", now, Some(10));
    let removed = cacher.clear();
    assert_eq!(removed.len(), 3);
    assert_eq!(cacher.len(), 0);
    // the persisted empty index reads back as empty
    let text = cacher.save();
    let reloaded = Cacher::new(Some(test_config(1_728_000)), Some(&text));
    assert_eq!(reloaded.len(), 0);
}

#[test]
fn save_then_new_round_trips_the_index() {
    let mut cacher = Cacher::new(Some(test_config(777)), None);
    let now: u64 = 1_650_000_000;
    cacher.insert_new("http://example.com/één", "naïve file.bin", now, None);
    cacher.insert_new("http://example.com/other", "other.bin", now + 5, Some(120));
    let text = cacher.save();
    let reloaded = Cacher::new(Some(test_config(777)), Some(&text));
    assert_eq!(reloaded.len(), 2);
    for url in ["http://example.com/één", "http://example.com/other"] {
        let a = cacher.lookup(url).expect("record in original");
        let b = reloaded.lookup(url).expect("record in reloaded");
        assert_eq!(a.url, b.url);
        assert_eq!(a.path, b.path);
        assert_eq!(a.cached_time, b.cached_time);
        assert_eq!(a.random, b.random);
        assert_eq!(a.expire_time, b.expire_time);
    }
}

#[test]
fn malformed_index_artifact_degrades_to_empty() {
    let cacher = Cacher::new(Some(test_config(100)), Some("not an index artifact"));
    assert_eq!(cacher.len(), 0);
    let cacher2 = Cacher::new(Some(test_config(100)), Some(""));
    assert_eq!(cacher2.len(), 0);
}

#[test]
fn filename_collisions_get_numbered_names() {
    let mut cacher = Cacher::new(Some(test_config(100)), None);
    let now: u64 = 1_000;
    let p0 = cacher.insert_new("http://x/0", "a.txt", now, None);
    let p1 = cacher.insert_new("http://x/1", "a.txt", now, None);
    let p2 = cacher.insert_new("http://x/2", "a.txt", now, None);
    assert_eq!(p0, "/tmp/file-cacher-test/cache/a.txt");
    assert_eq!(p1, "/tmp/file-cacher-test/cache/1a.txt");
    assert_eq!(p2, "/tmp/file-cacher-test/cache/2a.txt");
}

#[test]
fn refresh_replaces_the_record() {
    let mut cacher = Cacher::new(Some(test_config(100)), None);
    let p_old = cacher.insert_new("http://x/f", "f.bin", 1_000, None);
    let removed = cacher.remove_record("http://x/f");
    assert_eq!(removed, Some(p_old));
    assert_eq!(cacher.len(), 0);
    let p_new = cacher.insert_new("http://x/f", "f.bin", 2_000, None);
    assert_eq!(p_new, "/tmp/file-cacher-test/cache/f.bin");
    let rec = cacher.lookup("http://x/f").expect("record should be there");
    assert_eq!(rec.cached_time, 2_000);
    assert_eq!(cacher.remove_record("http://y/missing"), None);
}

#[test]
fn stats_aggregates_live_files_only() {
    let mut cacher = Cacher::new(Some(test_config(100)), None);
    let now: u64 = 1_000;
    let pa = cacher.insert_new("http://x/a", "a.bin", now, None); // expiry 1100
    let pb = cacher.insert_new("http://x/b", "b.bin", now, Some(50)); // expiry 1050
    let pc = cacher.insert_new("http://x/c", "c.bin", now, Some(500)); // expiry 1500
    let sizes = vec![Some(10u64), Some(5u64), Some(30u64)];
    let stats = cacher.stats(&sizes);
    assert_eq!(stats.number_of_cached_files, 3);
    assert_eq!(stats.total_size, 45);
    assert_eq!(stats.max_file_size, (pc.clone(), 30));
    assert_eq!(stats.min_file_size, (pb.clone(), 5));
    assert_eq!(stats.first_to_expire, (pb, 1_050));
    assert_eq!(stats.last_to_expire, (pc, 1_500));
    let _ = pa;
}

#[test]
fn stats_skips_dead_files_and_handles_none_live() {
    let mut cacher = Cacher::new(Some(test_config(100)), None);
    let now: u64 = 1_000;
    cacher.insert_new("http://x/a", "a.bin", now, None);
    let pb = cacher.insert_new("http://x/b", "b.bin", now, None);
    let sizes = vec![None, Some(7u64)];
    let stats = cacher.stats(&sizes);
    assert_eq!(stats.number_of_cached_files, 1);
    assert_eq!(stats.total_size, 7);
    assert_eq!(stats.max_file_size, (pb.clone(), 7));
    assert_eq!(stats.min_file_size, (pb, 7));

    let empty_sizes = vec![None, None];
    let empty_stats = cacher.stats(&empty_sizes);
    assert_eq!(empty_stats.number_of_cached_files, 0);
    assert_eq!(empty_stats.max_file_size, (String::new(), 0));
    assert_eq!(empty_stats.min_file_size, (String::new(), u64::MAX));
    assert_eq!(empty_stats.first_to_expire, (String::new(), u64::MAX));
    assert_eq!(empty_stats.last_to_expire, (String::new(), 0));
}
