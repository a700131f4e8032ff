use memory_cache::Cache;
use memory_cache::CacheError;

#[test]
fn empty_cache_snapshot_text() {
    let cache = Cache::new();
    assert_eq!(cache.to_json(), "{\"entries\":{}}");
}

#[test]
fn one_entry_snapshot_text() {
    let mut cache = Cache::new();
    cache.insert_at("a", String::from("b"), 5, 0);
    assert_eq!(cache.to_json(), "{\"entries\":{\"a\":{\"value\":\"b\",\"expiry\":5}}}");
}

#[test]
fn escaped_snapshot_text() {
    let mut cache = Cache::new();
    cache.insert_at("q\"k", String::from("b\\s\n"), 5, 0);
    assert_eq!(
        cache.to_json(),
        "{\"entries\":{\"q\\\"k\":{\"value\":\"b\\\\s\\u000a\",\"expiry\":5}}}"
    );
}

#[test]
fn first_run_state_round_trips_empty() {
    let cache = Cache::new();
    let text = cache.to_json();
    let mut reloaded = Cache::from_json(&text).unwrap();
    assert_eq!(reloaded.to_json(), "{\"entries\":{}}");
    assert_eq!(reloaded.get_at("anything", 0), None);
}

#[test]
fn round_trip_preserves_values_and_expiries() {
    let mut cache = Cache::new();
    cache.insert_at("plain", String::from("value"), 30, 1000);
    cache.insert_at("quote\"backslash\\", String::from("tab\tnewline\n"), 60, 1000);
    cache.insert_at("unicode \u{e9}\u{4e16}", String::from("caf\u{e9}"), 90, 1000);
    cache.insert_at("control\u{1}", String::from("\u{1f}"), 120, 1000);
    let text = cache.to_json();
    let mut reloaded = Cache::from_json(&text).unwrap();
    assert_eq!(reloaded.to_json(), text);
    assert_eq!(reloaded.get_at("plain", 1029), Some(String::from("value")));
    assert_eq!(reloaded.get_at("plain", 1030), None);
    assert_eq!(
        reloaded.get_at("quote\"backslash\\", 1000),
        Some(String::from("tab\tnewline\n"))
    );
    assert_eq!(
        reloaded.get_at("unicode \u{e9}\u{4e16}", 1000),
        Some(String::from("caf\u{e9}"))
    );
    assert_eq!(reloaded.get_at("control\u{1}", 1000), Some(String::from("\u{1f}")));
}

#[test]
fn round_trip_keeps_expired_entries() {
    // An expired entry that was never read stays in the snapshot.
    let mut cache = Cache::new();
    cache.insert_at("old", String::from("stale"), 0, 100);
    let text = cache.to_json();
    assert_eq!(text, "{\"entries\":{\"old\":{\"value\":\"stale\",\"expiry\":100}}}");
    let mut reloaded = Cache::from_json(&text).unwrap();
    assert_eq!(reloaded.get_at("old", 99), Some(String::from("stale")));
}

#[test]
fn reader_accepts_short_escapes() {
    let text = "{\"entries\":{\"a\\nb\":{\"value\":\"c\\td\\\"\\\\\\/\",\"expiry\":1}}}";
    let mut cache = Cache::from_json(text).unwrap();
    assert_eq!(cache.get_at("a\nb", 0), Some(String::from("c\td\"\\/")));
}

#[test]
fn reader_takes_last_duplicate_key() {
    let text = "{\"entries\":{\"a\":{\"value\":\"x\",\"expiry\":9},\"a\":{\"value\":\"y\",\"expiry\":8}}}";
    let mut cache = Cache::from_json(text).unwrap();
    assert_eq!(cache.get_at("a", 7), Some(String::from("y")));
    assert_eq!(cache.get_at("a", 8), None);
}

#[test]
fn malformed_snapshots_are_rejected() {
    let bad = [
        "",
        "{}",
        "{\"entries\":{",
        "{\"entries\":{}",
        "{\"entries\":{}}}",
        "not json at all",
        "{\"entries\":{\"a\":{\"value\":\"b\",\"expiry\":}}}",
        "{\"entries\":{\"a\":{\"value\":\"b\",\"expiry\":5}}",
        "{\"entries\":{\"a\":{\"value\":\"b\",\"expiry\":5},}}",
        "{\"entries\":{\"a\":{\"value\":\"b\"}}}",
        "{\"entries\":{\"a\":{\"value\":\"b\\x\",\"expiry\":5}}}",
        "{\"entries\":{\"a\":{\"value\":\"b\",\"expiry\":18446744073709551616}}}",
        "{\"entries\":{\"a\":{\"value\":\"b\",\"expiry\":5} }}",
    ];
    for text in bad.iter() {
        assert!(matches!(Cache::from_json(text), Err(CacheError::Deserialization)));
    }
}

#[test]
fn largest_expiry_round_trips() {
    let mut cache = Cache::new();
    cache.insert_at("k", String::from("v"), u64::MAX, 1);
    let text = cache.to_json();
    assert_eq!(
        text,
        "{\"entries\":{\"k\":{\"value\":\"v\",\"expiry\":18446744073709551615}}}"
    );
    let mut reloaded = Cache::from_json(&text).unwrap();
    assert_eq!(reloaded.get_at("k", u64::MAX - 1), Some(String::from("v")));
}

#[test]
fn error_messages_name_the_fault() {
    assert_eq!(
        CacheError::Deserialization.message(),
        "persisted cache state is malformed"
    );
    assert_eq!(CacheError::Io.message(), "cache file could not be read or written");
}

#[test]
fn snapshot_is_real_json() {
    let mut cache = Cache::new();
    cache.insert_at("key \"one\"", String::from("line\nbreak"), 42, 0);
    cache.insert_at("plain", String::from("text"), 7, 0);
    let text = cache.to_json();
    let value: serde_json::Value = serde_json::from_str(&text).unwrap();
    let entries = value.get("entries").unwrap();
    assert_eq!(
        entries.get("key \"one\"").unwrap().get("value").unwrap().as_str(),
        Some("line\nbreak")
    );
    assert_eq!(
        entries.get("key \"one\"").unwrap().get("expiry").unwrap().as_u64(),
        Some(42)
    );
    assert_eq!(entries.get("plain").unwrap().get("value").unwrap().as_str(), Some("text"));
    assert_eq!(entries.get("plain").unwrap().get("expiry").unwrap().as_u64(), Some(7));
}

#[test]
fn reader_accepts_unicode_escapes() {
    // Control characters spelled as \u00.. sequences, the way a generic
    // JSON writer would emit them.
    let text = "{\"entries\":{\"a\\u001f\":{\"value\":\"b\\u0007c\",\"expiry\":5}}}";
    let mut cache = Cache::from_json(text).unwrap();
    assert_eq!(cache.get_at("a\u{1f}", 4), Some(String::from("b\u{7}c")));
}
