use memory_cache::Cache;

#[test]
fn insert_then_get_returns_value() {
    let mut cache = Cache::new();
    cache.insert("session", String::from("abc123"), 60);
    assert_eq!(cache.get("session"), Some(String::from("abc123")));
}

#[test]
fn get_missing_key_returns_none() {
    let mut cache = Cache::new();
    assert_eq!(cache.get("absent"), None);
}

#[test]
fn zero_ttl_expires_immediately() {
    let mut cache = Cache::new();
    cache.insert("flash", String::from("gone"), 0);
    assert_eq!(cache.get("flash"), None);
}

#[test]
fn zero_ttl_expires_at_fixed_times() {
    let mut cache = Cache::new();
    cache.insert_at("flash", String::from("gone"), 0, 1000);
    assert_eq!(cache.get_at("flash", 1000), None);
}

#[test]
fn invalidate_removes_regardless_of_expiry() {
    let mut cache = Cache::new();
    cache.insert("temp", String::from("data"), 3600);
    cache.invalidate("temp");
    assert_eq!(cache.get("temp"), None);

    let mut cache2 = Cache::new();
    cache2.insert("temp", String::from("data"), 0);
    cache2.invalidate("temp");
    assert_eq!(cache2.get("temp"), None);
}

#[test]
fn invalidate_absent_key_is_no_error() {
    let mut cache = Cache::new();
    cache.invalidate("nothing");
    assert_eq!(cache.get("nothing"), None);
}

#[test]
fn overwrite_keeps_second_value_and_expiry() {
    let mut cache = Cache::new();
    cache.insert_at("k", String::from("v1"), 100, 1000);
    cache.insert_at("k", String::from("v2"), 5, 1000);
    assert_eq!(cache.get_at("k", 1004), Some(String::from("v2")));
    assert_eq!(cache.get_at("k", 1005), None);
}

#[test]
fn expiry_boundary_is_strict() {
    let mut cache = Cache::new();
    cache.insert_at("k", String::from("v"), 10, 1000);
    assert_eq!(cache.get_at("k", 1009), Some(String::from("v")));
    assert_eq!(cache.get_at("k", 1010), None);
}

#[test]
fn expired_get_removes_the_entry() {
    let mut cache = Cache::new();
    cache.insert_at("k", String::from("v"), 10, 1000);
    assert_eq!(cache.get_at("k", 2000), None);
    // The entry is gone, not merely hidden: at a time well before its old
    // expiry it would still be valid if it were present.
    assert_eq!(cache.get_at("k", 500), None);
}

#[test]
fn unexpired_get_keeps_the_entry() {
    let mut cache = Cache::new();
    cache.insert_at("k", String::from("v"), 10, 1000);
    assert_eq!(cache.get_at("k", 1005), Some(String::from("v")));
    assert_eq!(cache.get_at("k", 1006), Some(String::from("v")));
}

#[test]
fn expiry_saturates_at_largest_second() {
    let mut cache = Cache::new();
    cache.insert_at("k", String::from("v"), u64::MAX, 2);
    assert_eq!(cache.get_at("k", u64::MAX - 1), Some(String::from("v")));
    assert_eq!(cache.get_at("k", u64::MAX), None);
}

#[test]
fn entries_are_independent() {
    let mut cache = Cache::new();
    cache.insert_at("a", String::from("1"), 10, 1000);
    cache.insert_at("b", String::from("2"), 20, 1000);
    cache.invalidate("a");
    assert_eq!(cache.get_at("a", 1000), None);
    assert_eq!(cache.get_at("b", 1000), Some(String::from("2")));
}

#[test]
fn cli_scenario_insert_get_invalidate() {
    let mut cache = Cache::new();
    cache.insert("session", String::from("abc123"), 60);
    assert_eq!(cache.get("session"), Some(String::from("abc123")));
    cache.invalidate("session");
    assert_eq!(cache.get("session"), None);
}
