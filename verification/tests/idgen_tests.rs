use pastebin::idgen::UniqueID;

#[test]
fn loaded_keys_are_reported_present() {
    // No false negatives after a (re)build from blob storage.
    let keys = vec![String::from("abcd"), String::from("wxyz")];
    let uid = UniqueID::new(1000, 4, &keys);
    assert!(uid.is_reserved("abcd"));
    assert!(uid.is_reserved("wxyz"));
}

#[test]
fn generated_ids_have_the_requested_shape() {
    let uid = UniqueID::new(1000, 4, &Vec::new());
    let id = uid.generate_id();
    assert_eq!(4, id.chars().count());
    assert!(id.chars().all(|c| c.is_ascii_alphanumeric()));
}

#[test]
fn reserved_ids_are_distinct_within_an_epoch() {
    let mut uid = UniqueID::new(100_000, 6, &Vec::new());
    let mut seen: Vec<String> = Vec::new();
    for _ in 0..50 {
        let id = uid.generate_and_reserve().expect("the filter is far from saturated");
        assert_eq!(6, id.chars().count());
        assert!(uid.is_reserved(&id));
        assert!(!seen.contains(&id));
        seen.push(id);
    }
}

#[test]
fn rebuild_discards_reservations_not_backed_by_blobs() {
    let mut uid = UniqueID::new(1000, 4, &vec![String::from("keep")]);
    let id = uid.generate_and_reserve().unwrap();
    assert!(uid.is_reserved(&id));
    uid.rebuild(&vec![String::from("keep")]);
    assert!(uid.is_reserved("keep"));
}

#[test]
fn a_saturated_filter_reports_exhaustion() {
    // A filter sized for nothing, loaded with hundreds of keys, has
    // every bit set: each candidate is reported present, and the
    // allocator gives up instead of spinning.
    let mut keys = Vec::new();
    for i in 0..500 {
        keys.push(format!("key{}", i));
    }
    let mut uid = pastebin::idgen::UniqueID::new(0, 4, &keys);
    assert_eq!(Err(pastebin::idgen::AllocError::Exhausted), uid.generate_and_reserve());
}

#[test]
fn upload_counter_drives_the_rebuild_schedule() {
    let mut uid = UniqueID::new(10, 4, &Vec::new());
    assert_eq!(1, uid.post_request_counter);
    assert!(!uid.due_for_rebuild());
    for _ in 0..499 {
        uid.note_post_request();
    }
    assert_eq!(500, uid.post_request_counter);
    assert!(uid.due_for_rebuild());
    uid.reset_counter();
    assert_eq!(0, uid.post_request_counter);
    assert!(!uid.due_for_rebuild());
}
