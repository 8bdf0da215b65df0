use file_cacher::codec::{decode_records, encode_records};
use file_cacher::record::CachedFile;

fn rec(url: &str, path: &str, cached_time: u64, random: i32, expire_time: Option<u64>) -> CachedFile {
    CachedFile {
        url: url.to_string(),
        path: path.to_string(),
        cached_time,
        random,
        expire_time,
    }
}

fn encode_to_string(records: &Vec<CachedFile>) -> String {
    encode_records(records).iter().collect()
}

#[test]
fn artifact_round_trips_every_field() {
    let records = vec![
        rec("http://a/x", "/c/x.bin", 1_650_000_000, -36_000, None),
        rec("http://a/ünïcødé", "/c/päth δ.bin", u64::MAX, i32::MIN, Some(u64::MAX)),
        rec("http://b/y", "/c/y.bin", 0, i32::MAX, Some(0)),
    ];
    let text = encode_to_string(&records);
    let back = decode_records(&text).expect("an encoded artifact reads back");
    assert_eq!(back.len(), records.len());
    for (a, b) in records.iter().zip(back.iter()) {
        assert_eq!(a.url, b.url);
        assert_eq!(a.path, b.path);
        assert_eq!(a.cached_time, b.cached_time);
        assert_eq!(a.random, b.random);
        assert_eq!(a.expire_time, b.expire_time);
    }
}

#[test]
fn empty_artifact_round_trips() {
    let records: Vec<CachedFile> = Vec::new();
    let text = encode_to_string(&records);
    let back = decode_records(&text).expect("an encoded artifact reads back");
    assert_eq!(back.len(), 0);
}

#[test]
fn artifact_with_repeated_url_is_rejected() {
    let records = vec![
        rec("http://a/x", "/c/x.bin", 1, 0, None),
        rec("http://a/x", "/c/other.bin", 2, 0, None),
    ];
    let text = encode_to_string(&records);
    assert!(decode_records(&text).is_none());
}

#[test]
fn truncated_or_padded_artifacts_are_rejected() {
    let records = vec![rec("http://a/x", "/c/x.bin", 1, -1, Some(9))];
    let text = encode_to_string(&records);
    let mut truncated = text.clone();
    truncated.pop();
    assert!(decode_records(&truncated).is_none());
    let padded = format!("{} ", text);
    assert!(decode_records(&padded).is_none());
}
