use pastebin::date::Date;
use pastebin::param_guards::{TimeParam, ID};
use pastebin::request_guards::UploadRequestGuard;
use pastebin::CustomConfig;
use pastebin::{index, paste_url, upload_file_path};

fn base_day() -> Date {
    Date { year: 2021, month: 7, day: 10 }
}

#[test]
fn id_accepts_alphanumeric_only() {
    assert_eq!("abc123XYZ", ID::from_param("abc123XYZ").unwrap().0);
    assert_eq!(Err("ab!c"), ID::from_param("ab!c").map(|i| i.0));
    assert_eq!(Err("a b"), ID::from_param("a b").map(|i| i.0));
    assert!(ID::from_param("").is_ok());
}

#[test]
fn time_param_reads_all_units() {
    let t = TimeParam::from_param("1d2h3m4s", base_day()).unwrap();
    assert_eq!(86_400 + 7_200 + 180 + 4, t.duration_secs);
    assert!(t.is_more_than_a_day);
    assert_eq!("", t.error);
    assert_eq!("2021-07-12", t.deletion_date);
}

#[test]
fn time_param_reads_a_single_unit() {
    let t = TimeParam::from_param("5m", base_day()).unwrap();
    assert_eq!(300, t.duration_secs);
    assert!(!t.is_more_than_a_day);
    assert_eq!("", t.error);
    assert_eq!("2021-07-11", t.deletion_date);
}

#[test]
fn time_param_rejects_a_numberless_parameter() {
    let e = TimeParam::from_param("xyz", base_day()).unwrap_err();
    assert_eq!("This route call might not be intentional! Input: (xyz)", e);
}

#[test]
fn time_param_flags_out_of_range_units() {
    let t = TimeParam::from_param("90s", base_day()).unwrap();
    assert_eq!(
        "error parsing `second` param (90s). `second` has to be less than 60.",
        t.error
    );
    assert_eq!(0, t.duration_secs);
    let t2 = TimeParam::from_param("31d", base_day()).unwrap();
    assert_eq!(
        "error parsing `day` param (31d). `day` has to be less than 31.",
        t2.error
    );
}

#[test]
fn time_param_exact_day_boundary() {
    let t = TimeParam::from_param("1d", base_day()).unwrap();
    assert_eq!(86_400, t.duration_secs);
    assert!(t.is_more_than_a_day);
    assert_eq!("2021-07-11", t.deletion_date);
}

#[test]
fn upload_guard_needs_an_id_header() {
    let g = UploadRequestGuard::from_header_values(
        &vec![String::from("id42")],
        &vec![String::from("yes please")],
    )
    .unwrap();
    assert_eq!("id42", g.id);
    assert!(g.clear_expired_keys_from_cache);

    let g2 = UploadRequestGuard::from_header_values(
        &vec![String::from("id43")],
        &vec![String::from("not now")],
    )
    .unwrap();
    assert!(!g2.clear_expired_keys_from_cache);

    let e = UploadRequestGuard::from_header_values(&Vec::new(), &Vec::new());
    assert_eq!(Err("Something went wrong while parsing the ID"), e.map(|g| g.id));
}

#[test]
fn config_and_paths() {
    assert_eq!(
        "http://localhost:8000",
        CustomConfig::new(None).exposable_url
    );
    assert_eq!(
        "http://paste.example",
        CustomConfig::new(Some(String::from("http://paste.example"))).exposable_url
    );
    assert_eq!("upload/abc", upload_file_path("abc"));
    assert_eq!("http://paste.example/abc", paste_url("http://paste.example", "abc"));
    assert!(index().contains("USAGE"));
}
