use pastebin::codec::serialize_record;
use pastebin::date::Date;
use pastebin::ledger::{
    add_id_to_file_for_deletion, bucket_path, filter_out_key, get_deletion_file_name_with_path,
    keys_of_bucket, list_current_buckets, list_due_buckets, LedgerError,
};
use pastebin::record::Record;

fn rec(key: &str) -> Record {
    Record {
        expiry: 604_800,
        key: String::from(key),
        created_time: String::from("Sat, 17 Jul 2021 10:00:00 +0000"),
    }
}

fn line(key: &str) -> String {
    serialize_record(&rec(key)).unwrap()
}

#[test]
fn bucket_paths() {
    assert_eq!("deletions/2021-07-17.txt", bucket_path("2021-07-17"));
    let today = Date { year: 2021, month: 7, day: 10 };
    let (path, date) = get_deletion_file_name_with_path(0, today);
    assert_eq!("2021-07-10", date);
    assert_eq!("deletions/2021-07-10.txt", path);
    let (path7, date7) = get_deletion_file_name_with_path(7, today);
    assert_eq!("2021-07-17", date7);
    assert_eq!("deletions/2021-07-17.txt", path7);
}

#[test]
fn scheduling_an_id_lands_one_day_past_its_window() {
    let today = Date { year: 2021, month: 7, day: 10 };
    let (path, l) = add_id_to_file_for_deletion(String::from("xyz"), 7, today);
    assert_eq!("deletions/2021-07-18.txt", path);
    assert_eq!("xyz", l);
}

#[test]
fn removal_keeps_the_others_in_order() {
    let lines = vec![line("a"), line("b"), line("c")];
    let out = filter_out_key(&lines, "b").unwrap();
    assert_eq!(vec![line("a"), line("c")], out);
}

#[test]
fn removal_scenario_two_keys() {
    // Bucket 2021-07-17 holds records for `abc` and `def`; removing
    // `abc` leaves exactly the `def` record.
    let lines = vec![line("abc"), line("def")];
    let out = filter_out_key(&lines, "abc").unwrap();
    assert_eq!(vec![line("def")], out);
}

#[test]
fn removal_of_last_record_leaves_an_empty_bucket() {
    let lines = vec![line("only")];
    let out = filter_out_key(&lines, "only").unwrap();
    assert!(out.is_empty());
}

#[test]
fn empty_lines_are_dropped_and_bad_lines_abort() {
    let lines = vec![String::new(), line("a"), String::new()];
    assert_eq!(vec![line("a")], filter_out_key(&lines, "zz").unwrap());
    let broken = vec![line("a"), String::from("not a record")];
    assert_eq!(Err(LedgerError::Corrupt), filter_out_key(&broken, "a"));
    assert_eq!(Err(LedgerError::Corrupt), keys_of_bucket(&broken));
}

#[test]
fn sweep_deletes_exactly_the_referenced_blobs() {
    let lines = vec![line("abc"), String::new(), line("def")];
    assert_eq!(vec![String::from("abc"), String::from("def")], keys_of_bucket(&lines).unwrap());
}

#[test]
fn bucket_listing_splits_by_date() {
    let names = vec![
        String::from("2021-07-10.txt"),
        String::from("2021-07-20.txt"),
        String::from("notes.txt"),
        String::from("2021-07-15.txt"),
        String::from("junk"),
    ];
    let as_of = Date { year: 2021, month: 7, day: 15 };
    assert_eq!(
        vec![String::from("2021-07-10"), String::from("2021-07-15")],
        list_due_buckets(&names, as_of)
    );
    assert_eq!(
        vec![String::from("2021-07-20"), String::from("2021-07-15")],
        list_current_buckets(&names, as_of)
    );
}
