//! The deletion ledger's records: one per stored blob, scheduled for
//! the calendar day on which the blob's time-to-live ends.
use vstd::prelude::*;

verus! {

/// Seconds in one week, the default time-to-live.
pub const DEFAULT_EXPIRY: u64 = 604800;

/// A pending deletion: the blob's key, its time-to-live in seconds and
/// the creation wall-clock time as an RFC 2822 timestamp string.
#[derive(Debug, PartialEq, Eq)]
pub struct Record {
    pub expiry: u64,
    pub key: String,
    pub created_time: String,
}

/// The mathematical shape of a record: plain values only.
pub ghost struct RecordModel {
    pub expiry: u64,
    pub key: Seq<char>,
    pub created_time: Seq<char>,
}

impl View for Record {
    type V = RecordModel;

    open spec fn view(&self) -> RecordModel {
        RecordModel { expiry: self.expiry, key: self.key@, created_time: self.created_time@ }
    }
}

/// Why a record could not be handed to the ledger.
#[derive(Debug, PartialEq, Eq, Structural)]
pub enum RecordError {
    /// A text field holds a control character and cannot be framed as
    /// one line.
    Unserializable,
}

/// Seconds left until the deadline `created + expiry`, never negative.
pub open spec fn spec_remaining(created: int, expiry: int, now: int) -> int {
    if created + expiry - now >= 0 {
        created + expiry - now
    } else {
        0
    }
}

pub open spec fn clamp_u64(x: int) -> int {
    if x > u64::MAX {
        u64::MAX as int
    } else {
        x
    }
}

/// Seconds the record `rm` still has at time `now`; a record whose
/// timestamp cannot be read counts as expired.
pub open spec fn spec_remaining_of(rm: RecordModel, now: int) -> int {
    match crate::clock::rfc2822_epoch(rm.created_time) {
        Some(c) => clamp_u64(spec_remaining(c as int, rm.expiry as int, now)),
        None => 0,
    }
}

impl Record {
    /// A record created now: `key` names the blob, `expiry` is its
    /// time-to-live in seconds.
    pub fn new(key: String, expiry: u64) -> (r: Record)
        ensures
            r@.key == key@,
            r@.expiry == expiry,
    {
        let created_time = crate::clock::now_rfc2822();
        Record { expiry, key, created_time }
    }

    /// The epoch second this record was created, as its timestamp
    /// string denotes it.
    pub fn created_epoch(&self) -> (r: Option<i64>)
        ensures
            r == crate::clock::rfc2822_epoch(self@.created_time),
    {
        crate::clock::parse_rfc2822_epoch(self.created_time.as_str())
    }

    /// Seconds left at time `now`, clamped to zero once the deadline
    /// has passed.
    pub fn remaining_time_to_expiry_at(&self, now: i64) -> (r: u64)
        ensures
            r == spec_remaining_of(self@, now as int),
    {
        match self.created_epoch() {
            None => 0,
            Some(c) => {
                let rem: i128 = c as i128 + self.expiry as i128 - now as i128;
                if rem <= 0 {
                    0
                } else if rem > u64::MAX as i128 {
                    u64::MAX
                } else {
                    rem as u64
                }
            },
        }
    }

    /// Whether the record's time-to-live has fully elapsed at `now`.
    pub fn is_key_expired_at(&self, now: i64) -> (r: bool)
        ensures
            r == (spec_remaining_of(self@, now as int) == 0),
    {
        self.remaining_time_to_expiry_at(now) == 0
    }

    /// Seconds left as of the system clock.
    pub fn remaining_time_to_expiry(&self) -> (r: u64)
        ensures
            exists|n: int| r == spec_remaining_of(self@, n),
    {
        let now = crate::clock::now_epoch();
        let r = self.remaining_time_to_expiry_at(now);
        proof {
            assert(r == spec_remaining_of(self@, now as int));
        }
        r
    }

    /// Whether the record has expired as of the system clock.
    pub fn is_key_expired(&self) -> (r: bool)
        ensures
            exists|n: int| r == (spec_remaining_of(self@, n) == 0),
    {
        let now = crate::clock::now_epoch();
        let r = self.is_key_expired_at(now);
        proof {
            assert(r == (spec_remaining_of(self@, now as int) == 0));
        }
        r
    }

    /// The bucket date `seconds_to_add` seconds from `today`: rounded
    /// up to whole days, written as `YYYY-MM-DD`.
    pub fn get_deletions_date_for_number_of_days(seconds_to_add: i64, today: crate::date::Date) -> (
        r: String)
        requires
            crate::date::valid_date(today),
            0 <= crate::date::day_index(today) + crate::date::ceil_div_86400(seconds_to_add as int)
                <= crate::date::max_day_index(),
        ensures
            crate::date::spec_parse_date(r@) is Some,
            crate::date::day_index(crate::date::spec_parse_date(r@)->0) == crate::date::day_index(
                today,
            ) + crate::date::ceil_div_86400(seconds_to_add as int),
    {
        let days = crate::date::days_for_seconds(seconds_to_add);
        let d2 = crate::date::date_add_days(today, days);
        let s = crate::date::format_date(d2);
        proof {
            crate::date::lemma_format_parse_date(d2);
        }
        s
    }

    /// The bucket date one default time-to-live from `today`.
    pub fn get_deletions_date_for_default_expiry(today: crate::date::Date) -> (r: String)
        requires
            crate::date::valid_date(today),
            0 <= crate::date::day_index(today) + 7 <= crate::date::max_day_index(),
        ensures
            crate::date::spec_parse_date(r@) is Some,
            crate::date::day_index(crate::date::spec_parse_date(r@)->0) == crate::date::day_index(
                today,
            ) + 7,
    {
        proof {
            assert(crate::date::ceil_div_86400(DEFAULT_EXPIRY as int) == 7);
        }
        Record::get_deletions_date_for_number_of_days(DEFAULT_EXPIRY as i64, today)
    }

    /// The append this record asks of today's bucket: the bucket file's
    /// path and the one line to add to it. The caller performs the
    /// write and treats its failure as a failed upload.
    pub fn log(&self, today: crate::date::Date) -> (r: Result<(String, String), RecordError>)
        requires
            crate::date::valid_date(today),
        ensures
            r matches Ok(p) ==> crate::codec::wf_model(self@) && p.0@
                == crate::ledger::spec_bucket_path(crate::date::spec_format_date(today)) && p.1@
                == crate::codec::spec_serialize_record(self@),
            r is Err ==> !crate::codec::wf_model(self@),
    {
        match crate::codec::serialize_record(self) {
            None => Err(RecordError::Unserializable),
            Some(line) => {
                let ds = crate::date::format_date(today);
                let path = crate::ledger::bucket_path(ds.as_str());
                Ok((path, line))
            },
        }
    }

    /// The append this record asks of the bucket for `date` (written
    /// `YYYY-MM-DD`).
    pub fn log_to_particular_day(&self, date: &str) -> (r: Result<
        (String, String),
        RecordError,
    >)
        ensures
            r matches Ok(p) ==> crate::codec::wf_model(self@) && p.0@
                == crate::ledger::spec_bucket_path(date@) && p.1@
                == crate::codec::spec_serialize_record(self@),
            r is Err ==> !crate::codec::wf_model(self@),
    {
        match crate::codec::serialize_record(self) {
            None => Err(RecordError::Unserializable),
            Some(line) => {
                let path = crate::ledger::bucket_path(date);
                Ok((path, line))
            },
        }
    }
}

/// With the clock moving forward the time left never grows, never goes
/// below zero, and stays at zero once the deadline has passed.
pub proof fn lemma_remaining_monotonic(rm: RecordModel, n1: int, n2: int)
    requires
        n1 <= n2,
    ensures
        spec_remaining_of(rm, n2) <= spec_remaining_of(rm, n1),
        0 <= spec_remaining_of(rm, n2),
        crate::clock::rfc2822_epoch(rm.created_time) matches Some(c) && n2 >= c + rm.expiry
            ==> spec_remaining_of(rm, n2) == 0,
{
}

} // verus!
