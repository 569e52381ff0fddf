//! The deletion ledger's bucket files: one file per calendar day,
//! holding one serialized record per line. This module computes what
//! each ledger operation reads and writes — the paths, the lines kept
//! on a removal, the keys a sweep must delete — while the caller
//! performs the file accesses themselves.
use crate::codec::lemma_parse_wf;
use crate::codec::serialize_record;
use crate::codec::spec_parse_record;
use crate::codec::spec_serialize_record;
use crate::date::date_add_days;
use crate::date::date_le;
use crate::date::day_index;
use crate::date::format_date;
use crate::date::lemma_format_parse_date;
use crate::date::max_day_index;
use crate::date::parse_date;
use crate::date::spec_format_date;
use crate::date::spec_parse_date;
use crate::date::valid_date;
use crate::date::Date;
use crate::strutil::str_eq;
use vstd::prelude::*;

verus! {

/// A bucket file could not be read back as records.
#[derive(Debug, PartialEq, Eq, Structural)]
pub enum LedgerError {
    /// A line of the bucket parses as no record: a data-integrity
    /// failure, reported rather than silently skipped.
    Corrupt,
}

pub open spec fn lit_deletions() -> Seq<char> {
    seq!['d', 'e', 'l', 'e', 't', 'i', 'o', 'n', 's', '/']
}

pub open spec fn lit_txt() -> Seq<char> {
    seq!['.', 't', 'x', 't']
}

/// Where the bucket for a given date string lives.
pub open spec fn spec_bucket_path(date_str: Seq<char>) -> Seq<char> {
    lit_deletions() + date_str + lit_txt()
}

/// The view of each line.
pub open spec fn views(l: Seq<String>) -> Seq<Seq<char>> {
    l.map_values(|s: String| s@)
}

pub fn bucket_path(date_str: &str) -> (r: String)
    ensures
        r@ == spec_bucket_path(date_str@),
{
    let mut s = String::from_str("deletions/");
    proof {
        reveal_strlit("deletions/");
        assert("deletions/"@ =~= lit_deletions());
    }
    s.append(date_str);
    s.append(".txt");
    proof {
        reveal_strlit(".txt");
        assert(".txt"@ =~= lit_txt());
        assert(s@ =~= spec_bucket_path(date_str@));
    }
    s
}

/// The bucket file `days_to_add` days from `today`: its path and its
/// date string.
pub fn get_deletion_file_name_with_path(days_to_add: i32, today: Date) -> (r: (String, String))
    requires
        valid_date(today),
        0 <= day_index(today) + days_to_add <= max_day_index(),
    ensures
        spec_parse_date(r.1@) is Some,
        day_index(spec_parse_date(r.1@)->0) == day_index(today) + days_to_add,
        r.0@ == spec_bucket_path(r.1@),
{
    let d2 = date_add_days(today, days_to_add as i64);
    let ds = format_date(d2);
    let path = bucket_path(ds.as_str());
    proof {
        lemma_format_parse_date(d2);
    }
    (path, ds)
}

/// The append that schedules the blob `id` for deletion
/// `days_to_delete_after` days out, one bucket later than that count
/// of whole days: the bucket's path and the line to add.
pub fn add_id_to_file_for_deletion(id: String, days_to_delete_after: i32, today: Date) -> (r: (
    String,
    String,
))
    requires
        valid_date(today),
        0 <= day_index(today) + days_to_delete_after + 1 <= max_day_index(),
    ensures
        r.0@ == spec_bucket_path(
            spec_format_date(date_of_index(day_index(today) + days_to_delete_after + 1)),
        ),
        r.1@ == id@,
{
    let d2 = date_add_days(today, days_to_delete_after as i64 + 1);
    let ds = format_date(d2);
    let path = bucket_path(ds.as_str());
    proof {
        let target = day_index(today) + days_to_delete_after + 1;
        assert(valid_date(d2) && day_index(d2) == target);
        assert(exists|d: Date| valid_date(d) && day_index(d) == target);
        let dc = date_of_index(target);
        assert(valid_date(dc) && day_index(dc) == target);
        crate::date::lemma_day_index_injective(dc, d2);
    }
    (path, id)
}

/// The valid date at a given index.
pub open spec fn date_of_index(n: int) -> Date {
    choose|d: Date| valid_date(d) && day_index(d) == n
}

/// What remains of a bucket when the record keyed `key` is removed:
/// every other record, re-serialized in order, empty lines dropped —
/// or nothing, when some line parses as no record.
pub open spec fn spec_filter_bucket(lines: Seq<Seq<char>>, key: Seq<char>) -> Option<
    Seq<Seq<char>>,
>
    decreases lines.len(),
{
    if lines.len() == 0 {
        Some(Seq::empty())
    } else if lines[0].len() == 0 {
        spec_filter_bucket(lines.skip(1), key)
    } else {
        match spec_parse_record(lines[0]) {
            None => None,
            Some(rm) => {
                match spec_filter_bucket(lines.skip(1), key) {
                    None => None,
                    Some(tl) => {
                        if rm.key == key {
                            Some(tl)
                        } else {
                            Some(seq![spec_serialize_record(rm)] + tl)
                        }
                    },
                }
            },
        }
    }
}

/// The keys of every record in a bucket, in order — or nothing, when
/// some line parses as no record.
pub open spec fn spec_bucket_keys(lines: Seq<Seq<char>>) -> Option<Seq<Seq<char>>>
    decreases lines.len(),
{
    if lines.len() == 0 {
        Some(Seq::empty())
    } else if lines[0].len() == 0 {
        spec_bucket_keys(lines.skip(1))
    } else {
        match spec_parse_record(lines[0]) {
            None => None,
            Some(rm) => {
                match spec_bucket_keys(lines.skip(1)) {
                    None => None,
                    Some(tl) => Some(seq![rm.key] + tl),
                }
            },
        }
    }
}

/// The lines to write back when the record keyed `key` leaves the
/// bucket. The bucket file is then rewritten with them, never deleted
/// here: only a sweep removes the file.
pub fn filter_out_key(lines: &Vec<String>, key: &str) -> (r: Result<Vec<String>, LedgerError>)
    ensures
        r matches Ok(out) ==> spec_filter_bucket(views(lines@), key@) == Some(views(out@)),
        r is Err ==> spec_filter_bucket(views(lines@), key@) is None,
{
    let n = lines.len();
    let mut out: Vec<String> = Vec::new();
    let mut i: usize = 0;
    proof {
        assert(views(lines@).skip(0) =~= views(lines@));
    }
    while i < n
        invariant
            0 <= i <= n == lines@.len(),
            spec_filter_bucket(views(lines@).skip(i as int), key@) matches Some(tl)
                ==> spec_filter_bucket(views(lines@), key@) == Some(views(out@) + tl),
            spec_filter_bucket(views(lines@).skip(i as int), key@) is None ==> spec_filter_bucket(
                views(lines@),
                key@,
            ) is None,
        decreases n - i,
    {
        let ghost lv = views(lines@);
        proof {
            assert(lv.skip(i as int)[0] == lv[i as int]);
            assert(lv.skip(i as int).skip(1) =~= lv.skip(i + 1));
        }
        let line = &lines[i];
        if line.as_str().unicode_len() == 0 {
            i = i + 1;
            continue;
        }
        match crate::codec::parse_record(line.as_str()) {
            None => {
                return Err(LedgerError::Corrupt);
            },
            Some(rec) => {
                if !str_eq(rec.key.as_str(), key) {
                    let ghost o0 = views(out@);
                    match serialize_record(&rec) {
                        Some(line2) => {
                            out.push(line2);
                            proof {
                                if let Some(tl) = spec_filter_bucket(lv.skip(i + 1), key@) {
                                    assert(views(out@) =~= o0.push(
                                        spec_serialize_record(rec@),
                                    ));
                                    assert(o0 + (seq![spec_serialize_record(rec@)] + tl) =~= views(
                                        out@,
                                    ) + tl);
                                }
                            }
                        },
                        None => {
                            proof {
                                lemma_parse_wf(lv[i as int]);
                                assert(false);
                            }
                            return Err(LedgerError::Corrupt);
                        },
                    }
                }
            },
        }
        i = i + 1;
    }
    proof {
        assert(views(lines@).skip(n as int) =~= Seq::<Seq<char>>::empty());
        assert(spec_filter_bucket(Seq::<Seq<char>>::empty(), key@) == Some(
            Seq::<Seq<char>>::empty(),
        ));
        assert(views(out@) + Seq::<Seq<char>>::empty() =~= views(out@));
    }
    Ok(out)
}

/// The keys whose blobs a sweep of this bucket must delete: exactly
/// the keys its records reference.
pub fn keys_of_bucket(lines: &Vec<String>) -> (r: Result<Vec<String>, LedgerError>)
    ensures
        r matches Ok(out) ==> spec_bucket_keys(views(lines@)) == Some(views(out@)),
        r is Err ==> spec_bucket_keys(views(lines@)) is None,
{
    let n = lines.len();
    let mut out: Vec<String> = Vec::new();
    let mut i: usize = 0;
    proof {
        assert(views(lines@).skip(0) =~= views(lines@));
    }
    while i < n
        invariant
            0 <= i <= n == lines@.len(),
            spec_bucket_keys(views(lines@).skip(i as int)) matches Some(tl) ==> spec_bucket_keys(
                views(lines@),
            ) == Some(views(out@) + tl),
            spec_bucket_keys(views(lines@).skip(i as int)) is None ==> spec_bucket_keys(
                views(lines@),
            ) is None,
        decreases n - i,
    {
        let ghost lv = views(lines@);
        proof {
            assert(lv.skip(i as int)[0] == lv[i as int]);
            assert(lv.skip(i as int).skip(1) =~= lv.skip(i + 1));
        }
        let line = &lines[i];
        if line.as_str().unicode_len() == 0 {
            i = i + 1;
            continue;
        }
        match crate::codec::parse_record(line.as_str()) {
            None => {
                return Err(LedgerError::Corrupt);
            },
            Some(rec) => {
                let ghost o0 = views(out@);
                out.push(rec.key);
                proof {
                    if let Some(tl) = spec_bucket_keys(lv.skip(i + 1)) {
                        assert(o0 + (seq![lv_key(lv[i as int])] + tl) =~= views(out@) + tl);
                    }
                }
            },
        }
        i = i + 1;
    }
    proof {
        assert(views(lines@).skip(n as int) =~= Seq::<Seq<char>>::empty());
        assert(views(out@) + Seq::<Seq<char>>::empty() =~= views(out@));
    }
    Ok(out)
}

/// The key of the record a line holds.
pub open spec fn lv_key(line: Seq<char>) -> Seq<char> {
    spec_parse_record(line)->0.key
}

/// The lines that survive a removal, stated over the records
/// themselves: those with another key, serialized in order.
pub open spec fn spec_keep_records(
    rms: Seq<crate::record::RecordModel>,
    key: Seq<char>,
) -> Seq<Seq<char>>
    decreases rms.len(),
{
    if rms.len() == 0 {
        Seq::empty()
    } else if rms[0].key == key {
        spec_keep_records(rms.skip(1), key)
    } else {
        seq![spec_serialize_record(rms[0])] + spec_keep_records(rms.skip(1), key)
    }
}

/// The lines a bucket of records is written as.
pub open spec fn spec_record_lines(rms: Seq<crate::record::RecordModel>) -> Seq<Seq<char>> {
    rms.map_values(|rm: crate::record::RecordModel| spec_serialize_record(rm))
}

/// Removing `key` from a bucket of well-formed records keeps exactly
/// the records with another key, their order untouched.
pub proof fn lemma_remove_keeps_the_others(rms: Seq<crate::record::RecordModel>, key: Seq<char>)
    requires
        forall|i: int| 0 <= i < rms.len() ==> crate::codec::wf_model(#[trigger] rms[i]),
    ensures
        spec_filter_bucket(spec_record_lines(rms), key) == Some(spec_keep_records(rms, key)),
    decreases rms.len(),
{
    let lines = spec_record_lines(rms);
    if rms.len() == 0 {
        assert(lines.len() == 0);
    } else {
        assert(lines[0] == spec_serialize_record(rms[0]));
        crate::codec::lemma_parse_serialize(rms[0]);
        assert(lines[0].len() > 0);
        assert(lines.skip(1) =~= spec_record_lines(rms.skip(1)));
        lemma_remove_keeps_the_others(rms.skip(1), key);
    }
}

/// Sweeping a bucket of well-formed records touches exactly the blobs
/// its records reference, in order.
pub proof fn lemma_sweep_touches_the_referenced(rms: Seq<crate::record::RecordModel>)
    requires
        forall|i: int| 0 <= i < rms.len() ==> crate::codec::wf_model(#[trigger] rms[i]),
    ensures
        spec_bucket_keys(spec_record_lines(rms)) == Some(
            rms.map_values(|rm: crate::record::RecordModel| rm.key),
        ),
    decreases rms.len(),
{
    let lines = spec_record_lines(rms);
    let keys = rms.map_values(|rm: crate::record::RecordModel| rm.key);
    if rms.len() == 0 {
        assert(lines.len() == 0);
        assert(keys =~= Seq::<Seq<char>>::empty());
    } else {
        assert(lines[0] == spec_serialize_record(rms[0]));
        crate::codec::lemma_parse_serialize(rms[0]);
        assert(lines[0].len() > 0);
        assert(lines.skip(1) =~= spec_record_lines(rms.skip(1)));
        lemma_sweep_touches_the_referenced(rms.skip(1));
        assert(keys =~= seq![rms[0].key] + rms.skip(1).map_values(
            |rm: crate::record::RecordModel| rm.key,
        ));
    }
}

/// A bucket file's name: a supported date and the `.txt` ending.
pub open spec fn is_bucket_name(n: Seq<char>) -> bool {
    n.len() == 14 && spec_parse_date(n.subrange(0, 10)) is Some && n.subrange(10, 14) == lit_txt()
}

pub open spec fn bucket_name_date(n: Seq<char>) -> Date {
    spec_parse_date(n.subrange(0, 10))->0
}

/// The date strings of the bucket files that are due on or before
/// `as_of` (`due` true), or current from `as_of` on (`due` false);
/// other file names pass through unregarded.
pub open spec fn spec_select_buckets(names: Seq<Seq<char>>, as_of: Date, due: bool) -> Seq<
    Seq<char>,
>
    decreases names.len(),
{
    if names.len() == 0 {
        Seq::empty()
    } else {
        let tl = spec_select_buckets(names.skip(1), as_of, due);
        if is_bucket_name(names[0]) && (if due {
            day_index(bucket_name_date(names[0])) <= day_index(as_of)
        } else {
            day_index(bucket_name_date(names[0])) >= day_index(as_of)
        }) {
            seq![names[0].subrange(0, 10)] + tl
        } else {
            tl
        }
    }
}

fn select_buckets(filenames: &Vec<String>, as_of: Date, due: bool) -> (r: Vec<String>)
    requires
        valid_date(as_of),
    ensures
        views(r@) == spec_select_buckets(views(filenames@), as_of, due),
{
    let n = filenames.len();
    let mut out: Vec<String> = Vec::new();
    let mut i: usize = 0;
    proof {
        assert(views(filenames@).skip(0) =~= views(filenames@));
    }
    while i < n
        invariant
            0 <= i <= n == filenames@.len(),
            valid_date(as_of),
            spec_select_buckets(views(filenames@), as_of, due) == views(out@)
                + spec_select_buckets(views(filenames@).skip(i as int), as_of, due),
        decreases n - i,
    {
        let ghost fv = views(filenames@);
        proof {
            assert(fv.skip(i as int)[0] == fv[i as int]);
            assert(fv.skip(i as int).skip(1) =~= fv.skip(i + 1));
        }
        let name = &filenames[i];
        let mut keep = false;
        let mut date_part = String::new();
        if name.as_str().unicode_len() == 14 {
            let dp = name.as_str().substring_char(0, 10);
            let ext = name.as_str().substring_char(10, 14);
            let ghost nv = fv[i as int];
            proof {
                reveal_strlit(".txt");
                assert(".txt"@ =~= lit_txt());
            }
            if str_eq(ext, ".txt") {
                match parse_date(dp) {
                    Some(d) => {
                        let sel = if due {
                            date_le(d, as_of)
                        } else {
                            date_le(as_of, d)
                        };
                        if sel {
                            keep = true;
                            date_part = dp.to_owned();
                        }
                    },
                    None => {
                    },
                }
            }
        }
        let ghost o0 = views(out@);
        if keep {
            out.push(date_part);
            proof {
                let tl = spec_select_buckets(fv.skip(i + 1), as_of, due);
                assert(o0 + (seq![fv[i as int].subrange(0, 10)] + tl) =~= views(out@) + tl);
            }
        }
        i = i + 1;
    }
    proof {
        assert(views(filenames@).skip(n as int) =~= Seq::<Seq<char>>::empty());
        assert(spec_select_buckets(Seq::<Seq<char>>::empty(), as_of, due) == Seq::<
            Seq<char>,
        >::empty());
        assert(views(out@) + Seq::<Seq<char>>::empty() =~= views(out@));
    }
    out
}

/// The backlog at startup: every bucket date on or before `as_of`,
/// each owed a sweep.
pub fn list_due_buckets(filenames: &Vec<String>, as_of: Date) -> (r: Vec<String>)
    requires
        valid_date(as_of),
    ensures
        views(r@) == spec_select_buckets(views(filenames@), as_of, true),
{
    select_buckets(filenames, as_of, true)
}

/// The buckets the TTL cache is rebuilt from: every bucket date on or
/// after `as_of`.
pub fn list_current_buckets(filenames: &Vec<String>, as_of: Date) -> (r: Vec<String>)
    requires
        valid_date(as_of),
    ensures
        views(r@) == spec_select_buckets(views(filenames@), as_of, false),
{
    select_buckets(filenames, as_of, false)
}

} // verus!
