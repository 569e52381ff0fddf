use pastebin::codec::{parse_record, serialize_record};
use pastebin::date::{date_add_days, date_le, format_date, parse_date, Date};
use pastebin::record::{Record, RecordError, DEFAULT_EXPIRY};

fn base_day() -> Date {
    Date { year: 2021, month: 7, day: 10 }
}

#[test]
fn test_for_deletions_date() {
    assert_eq!(
        "2021-07-11",
        Record::get_deletions_date_for_number_of_days(86400, base_day())
    );
}

#[test]
fn test_for_deletions_date_2() {
    assert_eq!(
        "2021-07-17",
        Record::get_deletions_date_for_number_of_days(604_800, base_day())
    );
}

#[test]
fn test_for_deletions_date_3() {
    assert_eq!(
        "2021-07-13",
        Record::get_deletions_date_for_number_of_days(259_200, base_day())
    );
}

#[test]
fn test_for_deletions_date_4() {
    assert_eq!(
        "2021-07-07",
        Record::get_deletions_date_for_number_of_days(-259_200, base_day())
    );
}

#[test]
fn deletions_date_for_default_expiry_is_one_week_out() {
    assert_eq!(
        "2021-07-17",
        Record::get_deletions_date_for_default_expiry(base_day())
    );
    assert_eq!(DEFAULT_EXPIRY, 604_800);
}

#[test]
fn date_formatting_and_parsing() {
    let d = Date { year: 2021, month: 7, day: 10 };
    assert_eq!("2021-07-10", format_date(d));
    assert_eq!(Some(d), parse_date("2021-07-10"));
    assert_eq!(None, parse_date("2021-7-10"));
    assert_eq!(None, parse_date("2021-13-01"));
    assert_eq!(None, parse_date("garbage!!!"));
    assert_eq!(None, parse_date("2021-02-29"));
    assert_eq!(
        Some(Date { year: 2020, month: 2, day: 29 }),
        parse_date("2020-02-29")
    );
}

#[test]
fn date_day_arithmetic() {
    let d = Date { year: 2020, month: 2, day: 28 };
    assert_eq!(Date { year: 2020, month: 2, day: 29 }, date_add_days(d, 1));
    assert_eq!(Date { year: 2020, month: 3, day: 1 }, date_add_days(d, 2));
    let e = Date { year: 2021, month: 12, day: 31 };
    assert_eq!(Date { year: 2022, month: 1, day: 1 }, date_add_days(e, 1));
    assert_eq!(Date { year: 2021, month: 12, day: 24 }, date_add_days(e, -7));
    assert!(date_le(d, e));
    assert!(!date_le(e, d));
    assert!(date_le(d, d));
}

fn sample_record() -> Record {
    Record {
        expiry: 604_800,
        key: String::from("abc"),
        created_time: String::from("Sat, 17 Jul 2021 10:00:00 +0000"),
    }
}

#[test]
fn record_line_round_trip() {
    let r = sample_record();
    let line = serialize_record(&r).unwrap();
    assert_eq!(
        "{\"expiry\":604800,\"key\":\"abc\",\"created_time\":\"Sat, 17 Jul 2021 10:00:00 +0000\"}",
        line
    );
    let back = parse_record(&line).unwrap();
    assert_eq!(r, back);
}

#[test]
fn record_line_round_trip_with_escapes() {
    let r = Record {
        expiry: 0,
        key: String::from("a\"b\\c"),
        created_time: String::from("t"),
    };
    let line = serialize_record(&r).unwrap();
    assert_eq!("{\"expiry\":0,\"key\":\"a\\\"b\\\\c\",\"created_time\":\"t\"}", line);
    assert_eq!(r, parse_record(&line).unwrap());
}

#[test]
fn record_with_control_character_is_refused() {
    let r = Record {
        expiry: 1,
        key: String::from("a\nb"),
        created_time: String::from("t"),
    };
    assert!(serialize_record(&r).is_none());
    assert_eq!(Err(RecordError::Unserializable), r.log_to_particular_day("2021-07-17"));
}

#[test]
fn malformed_lines_do_not_parse() {
    assert!(parse_record("").is_none());
    assert!(parse_record("not json").is_none());
    assert!(parse_record("{\"expiry\":01,\"key\":\"a\",\"created_time\":\"t\"}").is_none());
    assert!(parse_record("{\"expiry\":1,\"key\":\"a\",\"created_time\":\"t\"} ").is_none());
    assert!(parse_record("{\"key\":\"a\",\"expiry\":1,\"created_time\":\"t\"}").is_none());
    assert!(parse_record("{\"expiry\":99999999999999999999,\"key\":\"a\",\"created_time\":\"t\"}")
        .is_none());
}

#[test]
fn log_computes_path_and_line() {
    let r = sample_record();
    let (path, line) = r.log(base_day()).unwrap();
    assert_eq!("deletions/2021-07-10.txt", path);
    assert_eq!(serialize_record(&r).unwrap(), line);
    let (path2, line2) = r.log_to_particular_day("2021-07-17").unwrap();
    assert_eq!("deletions/2021-07-17.txt", path2);
    assert_eq!(line, line2);
}

#[test]
fn expiry_clock_scenario() {
    // A record with a two-second life: one second in it is alive with
    // one second left; one second after the deadline it is expired and
    // clamped to zero.
    let r = Record {
        expiry: 2,
        key: String::from("abc"),
        created_time: String::from("Sat, 17 Jul 2021 10:00:00 +0000"),
    };
    let t = r.created_epoch().expect("the timestamp is well-formed");
    assert!(!r.is_key_expired_at(t + 1));
    assert_eq!(1, r.remaining_time_to_expiry_at(t + 1));
    assert!(r.is_key_expired_at(t + 3));
    assert_eq!(0, r.remaining_time_to_expiry_at(t + 3));
    assert_eq!(0, r.remaining_time_to_expiry_at(t + 2));
    assert_eq!(2, r.remaining_time_to_expiry_at(t));
}

#[test]
fn the_clock_reads_a_supported_date() {
    let today = pastebin::clock::today().expect("the system clock lies in the supported range");
    assert!(today.year >= 2020);
    assert!((1..=12).contains(&today.month));
    assert!((1..=31).contains(&today.day));
}

#[test]
fn record_new_captures_a_readable_timestamp() {
    let r = Record::new(String::from("k1"), 10_000);
    assert_eq!("k1", r.key);
    assert_eq!(10_000, r.expiry);
    assert!(r.created_epoch().is_some());
    assert!(!r.is_key_expired());
    assert!(r.remaining_time_to_expiry() <= 10_000);
    assert!(r.remaining_time_to_expiry() > 9_000);
}
