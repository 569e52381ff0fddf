//! Validation of the two route parameters: the paste identifier, and
//! the custom retention time written as digit groups tagged with `d`,
//! `h`, `m` and `s` (for instance `1d12h`).
use crate::codec::spec_digits_val;
use crate::date::day_index;
use crate::date::digit_val;
use crate::date::max_day_index;
use crate::date::valid_date;
use crate::date::Date;
use crate::idgen::is_base62_char;
use crate::record::Record;
use vstd::prelude::*;

verus! {

/// A paste identifier from the URL: ASCII letters and digits only.
pub struct ID(pub String);

impl ID {
    /// Accepts the parameter iff every character is alphanumeric; a
    /// rejected parameter is handed back unchanged.
    pub fn from_param(param: &str) -> (r: Result<ID, &str>)
        ensures
            r matches Ok(id) ==> id.0@ == param@ && (forall|i: int|
                0 <= i < param@.len() ==> is_base62_char(#[trigger] param@[i])),
            r matches Err(e) ==> e@ == param@ && !(forall|i: int|
                0 <= i < param@.len() ==> is_base62_char(#[trigger] param@[i])),
    {
        let n = param.unicode_len();
        let mut i: usize = 0;
        while i < n
            invariant
                0 <= i <= n == param@.len(),
                forall|j: int| 0 <= j < i ==> is_base62_char(#[trigger] param@[j]),
            decreases n - i,
        {
            let c = param.get_char(i);
            let ok = ('0' <= c && c <= '9') || ('A' <= c && c <= 'Z') || ('a' <= c && c <= 'z');
            if !ok {
                return Err(param);
            }
            i = i + 1;
        }
        Ok(ID(param.to_owned()))
    }
}

pub open spec fn is_unit_sep(c: char) -> bool {
    c == 'd' || c == 'm' || c == 'h' || c == 's'
}

/// Splitting on the unit letters, separators dropped, empty segments
/// kept (as str::split does).
pub open spec fn spec_split_rec(
    s: Seq<char>,
    i: int,
    cur: Seq<char>,
    acc: Seq<Seq<char>>,
) -> Seq<Seq<char>>
    decreases s.len() - i,
{
    if i < 0 || i >= s.len() {
        acc.push(cur)
    } else if is_unit_sep(s[i]) {
        spec_split_rec(s, i + 1, Seq::empty(), acc.push(cur))
    } else {
        spec_split_rec(s, i + 1, cur.push(s[i]), acc)
    }
}

pub open spec fn spec_split(s: Seq<char>) -> Seq<Seq<char>> {
    spec_split_rec(s, 0, Seq::empty(), Seq::empty())
}

/// The digits of a number segment: everything after an optional `+`.
pub open spec fn spec_num_body(s: Seq<char>) -> Seq<char> {
    if s.len() > 0 && s[0] == '+' {
        s.skip(1)
    } else {
        s
    }
}

/// What str::parse::<u32> accepts: an optional `+`, then digits, the
/// value fitting the type.
pub open spec fn spec_parse_u32(s: Seq<char>) -> Option<u32> {
    let body = spec_num_body(s);
    if body.len() > 0 && crate::codec::all_digits(body) && spec_digits_val(body) <= u32::MAX {
        Some(spec_digits_val(body) as u32)
    } else {
        None
    }
}

/// The numbers among the split segments, unparseable segments dropped.
pub open spec fn spec_nums(segs: Seq<Seq<char>>) -> Seq<u32>
    decreases segs.len(),
{
    if segs.len() == 0 {
        Seq::empty()
    } else {
        match spec_parse_u32(segs[0]) {
            Some(v) => seq![v] + spec_nums(segs.skip(1)),
            None => spec_nums(segs.skip(1)),
        }
    }
}

pub open spec fn spec_nums_of(param: Seq<char>) -> Seq<u32> {
    spec_nums(spec_split(param))
}

/// How many distinct unit letters the parameter names.
pub open spec fn spec_unit_count(param: Seq<char>) -> int {
    (if param.contains('s') {
        1int
    } else {
        0int
    }) + (if param.contains('m') {
        1int
    } else {
        0int
    }) + (if param.contains('h') {
        1int
    } else {
        0int
    }) + (if param.contains('d') {
        1int
    } else {
        0int
    })
}

/// The unit values the parameter assigns, read from the tail of the
/// number list in the order seconds, minutes, hours, days, and the
/// first out-of-range unit (0 none, 1 seconds, 2 minutes, 3 hours,
/// 4 days), after which nothing more is assigned.
pub open spec fn spec_holder(param: Seq<char>, ps: Seq<u32>) -> (int, int, int, int, int) {
    let len = ps.len() as int;
    let has_s = param.contains('s');
    let s_val: int = if has_s {
        ps[len - 1] as int
    } else {
        0
    };
    if has_s && s_val > 59 {
        (0, 0, 0, 0, 1)
    } else {
        let n2: int = if has_s {
            2
        } else {
            1
        };
        let has_m = param.contains('m');
        let m_val: int = if has_m {
            ps[len - n2] as int
        } else {
            0
        };
        if has_m && m_val > 59 {
            (s_val, 0, 0, 0, 2)
        } else {
            let n3: int = if has_m {
                n2 + 1
            } else {
                n2
            };
            let has_h = param.contains('h');
            let h_val: int = if has_h {
                ps[len - n3] as int
            } else {
                0
            };
            if has_h && h_val > 23 {
                (s_val, m_val, 0, 0, 3)
            } else {
                let n4: int = if has_h {
                    n3 + 1
                } else {
                    n3
                };
                let has_d = param.contains('d');
                let d_val: int = if has_d {
                    ps[len - n4] as int
                } else {
                    0
                };
                if has_d && d_val > 30 {
                    (s_val, m_val, h_val, 0, 4)
                } else {
                    (s_val, m_val, h_val, d_val, 0)
                }
            }
        }
    }
}

/// The retention the parameter asks for, in seconds.
pub open spec fn spec_literal(param: Seq<char>, ps: Seq<u32>) -> int {
    let h = spec_holder(param, ps);
    h.3 * 86400 + h.2 * 3600 + h.1 * 60 + h.0
}

/// A parsed retention parameter. `error` is empty unless some unit's
/// value was out of range; the caller treats a non-empty `error` as a
/// bad request.
#[derive(Debug)]
pub struct TimeParam {
    pub duration_secs: u64,
    pub is_more_than_a_day: bool,
    pub error: String,
    pub deletion_date: String,
}

/// The complaint for a parameter naming no number.
pub open spec fn route_error_msg(param: Seq<char>) -> Seq<char> {
    "This route call might not be intentional! Input: ("@ + param + ")"@
}

/// The complaint for the first out-of-range unit.
pub open spec fn unit_error_msg(code: int, param: Seq<char>) -> Seq<char> {
    if code == 1 {
        "error parsing `second` param ("@ + param + "). `second` has to be less than 60."@
    } else if code == 2 {
        "error parsing `minute` param ("@ + param + "). `minute` has to be less than 60."@
    } else if code == 3 {
        "error parsing `hour` param ("@ + param + "). `hour` has to be less than 24."@
    } else {
        "error parsing `day` param ("@ + param + "). `day` has to be less than 31."@
    }
}

fn split_units(param: &str) -> (r: Vec<String>)
    ensures
        crate::ledger::views(r@) == spec_split(param@),
{
    let n = param.unicode_len();
    let mut acc: Vec<String> = Vec::new();
    let mut cur = String::new();
    let mut i: usize = 0;
    proof {
        assert(crate::ledger::views(acc@) =~= Seq::<Seq<char>>::empty());
        assert(cur@ =~= Seq::<char>::empty());
    }
    while i < n
        invariant
            0 <= i <= n == param@.len(),
            spec_split(param@) == spec_split_rec(
                param@,
                i as int,
                cur@,
                crate::ledger::views(acc@),
            ),
        decreases n - i,
    {
        let c = param.get_char(i);
        let ghost a0 = crate::ledger::views(acc@);
        let ghost c0 = cur@;
        if c == 'd' || c == 'm' || c == 'h' || c == 's' {
            acc.push(cur);
            cur = String::new();
            proof {
                assert(crate::ledger::views(acc@) =~= a0.push(c0));
            }
        } else {
            crate::strutil::push_char(&mut cur, c);
        }
        i = i + 1;
    }
    let ghost a1 = crate::ledger::views(acc@);
    let ghost c1 = cur@;
    acc.push(cur);
    proof {
        assert(crate::ledger::views(acc@) =~= a1.push(c1));
    }
    acc
}

fn parse_u32_seg(seg: &str) -> (r: Option<u32>)
    ensures
        r == spec_parse_u32(seg@),
{
    let n = seg.unicode_len();
    let mut start: usize = 0;
    if n > 0 && seg.get_char(0) == '+' {
        start = 1;
    }
    let ghost body = spec_num_body(seg@);
    proof {
        assert(body.len() == n - start);
        assert(forall|x: int| 0 <= x < body.len() ==> body[x] == seg@[x + start]);
    }
    if n == start {
        return None;
    }
    let mut acc: u32 = 0;
    let mut over = false;
    let ghost mut over_at: int = 0;
    let mut j = start;
    while j < n
        invariant
            start <= j <= n == seg@.len(),
            body == spec_num_body(seg@),
            body.len() == n - start,
            forall|x: int| 0 <= x < body.len() ==> body[x] == seg@[x + start],
            forall|x: int| 0 <= x < j - start ==> digit_val(#[trigger] body[x]) >= 0,
            !over ==> spec_digits_val(body.take(j - start)) == acc,
            over ==> 0 < over_at <= j - start && spec_digits_val(body.take(over_at)) > u32::MAX
                && (forall|x: int| 0 <= x < over_at ==> digit_val(#[trigger] body[x]) >= 0),
        decreases n - j,
    {
        let c = seg.get_char(j);
        let d = match crate::date::char_to_digit(c) {
            Some(v) => v,
            None => {
                proof {
                    assert(body[j - start] == seg@[j as int]);
                    assert(digit_val(body[j - start]) == -1);
                    assert(!crate::codec::all_digits(body));
                    assert(spec_parse_u32(seg@) is None);
                }
                return None;
            },
        };
        proof {
            let k = j - start;
            let p1 = body.take(k + 1);
            assert(p1.take(k) =~= body.take(k));
            assert(p1.last() == body[k]);
            assert(spec_digits_val(p1) == spec_digits_val(body.take(k)) * 10 + digit_val(body[k]));
        }
        if !over {
            if acc > (u32::MAX - d) / 10 {
                over = true;
                proof {
                    over_at = j - start + 1;
                }
            } else {
                acc = acc * 10 + d;
            }
        }
        j = j + 1;
    }
    proof {
        assert(body.take(n - start) =~= body);
    }
    if over {
        proof {
            let pre = body.take(over_at);
            let ext = body.skip(over_at);
            assert(pre + ext =~= body);
            assert(crate::codec::all_digits(pre));
            assert(crate::codec::all_digits(ext));
            crate::codec::lemma_digits_val_extend(pre, ext);
        }
        return None;
    }
    Some(acc)
}

fn parse_nums(segs: &Vec<String>) -> (r: Vec<u32>)
    ensures
        r@ == spec_nums(crate::ledger::views(segs@)),
{
    let n = segs.len();
    let mut out: Vec<u32> = Vec::new();
    let mut i: usize = 0;
    proof {
        assert(crate::ledger::views(segs@).skip(0) =~= crate::ledger::views(segs@));
    }
    while i < n
        invariant
            0 <= i <= n == segs@.len(),
            spec_nums(crate::ledger::views(segs@)) == out@ + spec_nums(
                crate::ledger::views(segs@).skip(i as int),
            ),
        decreases n - i,
    {
        let ghost sv = crate::ledger::views(segs@);
        proof {
            assert(sv.skip(i as int)[0] == sv[i as int]);
            assert(sv.skip(i as int).skip(1) =~= sv.skip(i + 1));
        }
        let ghost o0 = out@;
        match parse_u32_seg(segs[i].as_str()) {
            Some(v) => {
                out.push(v);
                proof {
                    assert(o0 + (seq![v] + spec_nums(sv.skip(i + 1))) =~= out@ + spec_nums(
                        sv.skip(i + 1),
                    ));
                }
            },
            None => {
            },
        }
        i = i + 1;
    }
    proof {
        assert(crate::ledger::views(segs@).skip(n as int) =~= Seq::<Seq<char>>::empty());
        assert(out@ + Seq::<u32>::empty() =~= out@);
    }
    out
}

impl TimeParam {
    /// Reads the retention parameter. The numbers are taken from the
    /// tail of the parameter's digit groups, one per unit letter in
    /// the order seconds, minutes, hours, days; a parameter naming no
    /// number, or more unit letters than numbers, is refused whole,
    /// while an out-of-range unit only sets `error`. The deletion date
    /// is the bucket the retention ends in, counted from `today`.
    pub fn from_param(param: &str, today: Date) -> (r: Result<TimeParam, String>)
        requires
            valid_date(today),
            day_index(today) + 31 <= max_day_index(),
        ensures
            (r is Err) == (spec_nums_of(param@).len() == 0 || spec_unit_count(param@)
                > spec_nums_of(param@).len()),
            r matches Err(e) ==> e@ == route_error_msg(param@),
            r matches Ok(t) ==> {
                let ps = spec_nums_of(param@);
                let h = spec_holder(param@, ps);
                &&& t.duration_secs == spec_literal(param@, ps)
                &&& t.is_more_than_a_day == (spec_literal(param@, ps) >= 86400)
                &&& (h.4 == 0 ==> t.error@ == Seq::<char>::empty())
                &&& (h.4 != 0 ==> t.error@ == unit_error_msg(h.4, param@))
                &&& crate::date::spec_parse_date(t.deletion_date@) is Some
                &&& crate::date::day_index(crate::date::spec_parse_date(t.deletion_date@)->0)
                    == day_index(today) + crate::date::ceil_div_86400(
                    spec_literal(param@, ps),
                )
            },
    {
        let segs = split_units(param);
        let nums = parse_nums(&segs);
        let len = nums.len();
        let has_s = crate::strutil::str_has_char(param, 's');
        let has_m = crate::strutil::str_has_char(param, 'm');
        let has_h = crate::strutil::str_has_char(param, 'h');
        let has_d = crate::strutil::str_has_char(param, 'd');
        let unit_count: usize = (if has_s {
            1
        } else {
            0
        }) + (if has_m {
            1
        } else {
            0
        }) + (if has_h {
            1
        } else {
            0
        }) + (if has_d {
            1
        } else {
            0
        });
        if len == 0 || unit_count > len {
            let mut e = String::from_str("This route call might not be intentional! Input: (");
            e.append(param);
            e.append(")");
            proof {
                reveal_strlit("This route call might not be intentional! Input: (");
                reveal_strlit(")");
                assert(e@ =~= route_error_msg(param@));
            }
            return Err(e);
        }
        let mut second: u32 = 0;
        let mut minute: u32 = 0;
        let mut hour: u32 = 0;
        let mut day: u32 = 0;
        let mut err_code: usize = 0;
        let mut error = String::new();
        if has_s {
            let v = nums[len - 1];
            if v > 59 {
                err_code = 1;
                error = String::from_str("error parsing `second` param (");
                error.append(param);
                error.append("). `second` has to be less than 60.");
                proof {
                    reveal_strlit("error parsing `second` param (");
                    reveal_strlit("). `second` has to be less than 60.");
                    assert(error@ =~= unit_error_msg(1, param@));
                }
            } else {
                second = v;
            }
        }
        if err_code == 0 && has_m {
            let n2: usize = if has_s {
                2
            } else {
                1
            };
            let v = nums[len - n2];
            if v > 59 {
                err_code = 2;
                error = String::from_str("error parsing `minute` param (");
                error.append(param);
                error.append("). `minute` has to be less than 60.");
                proof {
                    reveal_strlit("error parsing `minute` param (");
                    reveal_strlit("). `minute` has to be less than 60.");
                    assert(error@ =~= unit_error_msg(2, param@));
                }
            } else {
                minute = v;
            }
        }
        if err_code == 0 && has_h {
            let n3: usize = 1 + (if has_s {
                1
            } else {
                0
            }) + (if has_m {
                1
            } else {
                0
            });
            let v = nums[len - n3];
            if v > 23 {
                err_code = 3;
                error = String::from_str("error parsing `hour` param (");
                error.append(param);
                error.append("). `hour` has to be less than 24.");
                proof {
                    reveal_strlit("error parsing `hour` param (");
                    reveal_strlit("). `hour` has to be less than 24.");
                    assert(error@ =~= unit_error_msg(3, param@));
                }
            } else {
                hour = v;
            }
        }
        if err_code == 0 && has_d {
            let n4: usize = 1 + (if has_s {
                1
            } else {
                0
            }) + (if has_m {
                1
            } else {
                0
            }) + (if has_h {
                1
            } else {
                0
            });
            let v = nums[len - n4];
            if v > 30 {
                err_code = 4;
                error = String::from_str("error parsing `day` param (");
                error.append(param);
                error.append("). `day` has to be less than 31.");
                proof {
                    reveal_strlit("error parsing `day` param (");
                    reveal_strlit("). `day` has to be less than 31.");
                    assert(error@ =~= unit_error_msg(4, param@));
                }
            } else {
                day = v;
            }
        }
        let literal: u32 = day * 86400 + hour * 3600 + minute * 60 + second;
        proof {
            let ps = spec_nums_of(param@);
            let h = spec_holder(param@, ps);
            assert(ps == nums@);
            assert(h == (second as int, minute as int, hour as int, day as int, err_code as int));
            assert(spec_literal(param@, ps) == literal as int);
            assert(crate::date::ceil_div_86400(literal as int) <= 31);
            crate::date::lemma_day_index_nonneg(today);
        }
        let deletion_date = Record::get_deletions_date_for_number_of_days(literal as i64, today);
        Ok(
            TimeParam {
                duration_secs: literal as u64,
                is_more_than_a_day: literal >= 86400,
                error,
                deletion_date,
            },
        )
    }
}

} // verus!
