use pastebin::cache::ExpiryCache;
use pastebin::codec::serialize_record;
use pastebin::record::Record;

#[test]
fn marked_keys_are_valid_until_their_deadline() {
    let mut c = ExpiryCache::new();
    c.mark_valid(String::from("abc"), 10, 100);
    assert!(c.is_valid("abc", 100));
    assert!(c.is_valid("abc", 109));
    assert!(!c.is_valid("abc", 110));
    assert!(!c.is_valid("def", 100));
}

#[test]
fn marking_again_refreshes_the_deadline() {
    let mut c = ExpiryCache::new();
    c.mark_valid(String::from("abc"), 10, 100);
    c.mark_valid(String::from("abc"), 10, 200);
    assert!(c.is_valid("abc", 150));
    assert!(c.is_valid("abc", 209));
    assert!(!c.is_valid("abc", 210));
}

#[test]
fn eviction_drops_only_the_expired() {
    let mut c = ExpiryCache::new();
    c.mark_valid(String::from("dead"), 5, 100);
    c.mark_valid(String::from("live"), 50, 100);
    c.evict_expired(120);
    assert!(!c.is_valid("dead", 100));
    assert!(c.is_valid("live", 120));
}

#[test]
fn reconstruction_revives_only_records_with_time_left() {
    let live = Record {
        expiry: 100,
        key: String::from("live"),
        created_time: String::from("Sat, 17 Jul 2021 10:00:00 +0000"),
    };
    let stale = Record {
        expiry: 1,
        key: String::from("stale"),
        created_time: String::from("Sat, 17 Jul 2021 10:00:00 +0000"),
    };
    let t = live.created_epoch().unwrap();
    let lines = vec![
        serialize_record(&live).unwrap(),
        String::from("one bad line must not abort the rest"),
        serialize_record(&stale).unwrap(),
    ];
    let mut c = ExpiryCache::new();
    c.reconstruct(&lines, t + 10);
    assert!(c.is_valid("live", t + 10));
    assert!(c.is_valid("live", t + 99));
    assert!(!c.is_valid("live", t + 100));
    assert!(!c.is_valid("stale", t + 10));
}
