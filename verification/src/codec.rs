//! The ledger's line format: one record per line, as a JSON object with
//! the fields `expiry`, `key` and `created_time` in that order. The
//! serializer and the parser are exact inverses — every written line
//! reads back unchanged, and nothing else parses — and a record whose
//! text fields hold control characters is refused, so that one record
//! always stays one line of the bucket file.
use crate::date::digit_char;
use crate::date::digit_val;
use crate::record::Record;
use crate::record::RecordModel;
use crate::strutil::push_char;
use vstd::prelude::*;

verus! {

/// Characters below the space break the line framing and are refused.
pub open spec fn ctrl(c: char) -> bool {
    (c as u32) < 32
}

/// Text that may stand in a record field.
pub open spec fn clean_text(s: Seq<char>) -> bool {
    forall|i: int| 0 <= i < s.len() ==> !ctrl(#[trigger] s[i])
}

/// A record whose fields the line format can carry.
pub open spec fn wf_model(rm: RecordModel) -> bool {
    clean_text(rm.key) && clean_text(rm.created_time)
}

/// How one character is written inside a quoted string.
pub open spec fn esc_char(c: char) -> Seq<char> {
    if c == '"' {
        seq!['\\', '"']
    } else if c == '\\' {
        seq!['\\', '\\']
    } else {
        seq![c]
    }
}

pub open spec fn spec_escape(s: Seq<char>) -> Seq<char>
    decreases s.len(),
{
    if s.len() == 0 {
        Seq::empty()
    } else {
        esc_char(s[0]) + spec_escape(s.subrange(1, s.len() as int))
    }
}

/// The decimal digits of `n`, most significant first.
pub open spec fn spec_u64_digits(n: int) -> Seq<char>
    decreases n,
{
    if n < 10 {
        seq![digit_char(n)]
    } else {
        spec_u64_digits(n / 10) + seq![digit_char(n % 10)]
    }
}

pub open spec fn lit_head() -> Seq<char> {
    seq!['{', '"', 'e', 'x', 'p', 'i', 'r', 'y', '"', ':']
}

pub open spec fn lit_key() -> Seq<char> {
    seq![',', '"', 'k', 'e', 'y', '"', ':', '"']
}

pub open spec fn lit_created() -> Seq<char> {
    seq![',', '"', 'c', 'r', 'e', 'a', 't', 'e', 'd', '_', 't', 'i', 'm', 'e', '"', ':', '"']
}

/// The one line that stands for `rm` in a bucket file.
pub open spec fn spec_serialize_record(rm: RecordModel) -> Seq<char> {
    lit_head() + spec_u64_digits(rm.expiry as int) + lit_key() + spec_escape(rm.key) + seq!['"']
        + lit_created() + spec_escape(rm.created_time) + seq!['"', '}']
}

pub proof fn lemma_escape_append(a: Seq<char>, b: Seq<char>)
    ensures
        spec_escape(a + b) == spec_escape(a) + spec_escape(b),
    decreases a.len(),
{
    if a.len() == 0 {
        assert(a + b =~= b);
        assert(spec_escape(a) + spec_escape(b) =~= spec_escape(b));
    } else {
        let t = a + b;
        assert(t[0] == a[0]);
        assert(t.subrange(1, t.len() as int) =~= a.subrange(1, a.len() as int) + b);
        lemma_escape_append(a.subrange(1, a.len() as int), b);
        assert(spec_escape(a + b) =~= spec_escape(a) + spec_escape(b));
    }
}

proof fn lemma_escape_single(c: char)
    ensures
        spec_escape(seq![c]) == esc_char(c),
{
    assert(seq![c].subrange(1, 1) =~= Seq::<char>::empty());
    assert(spec_escape(Seq::<char>::empty()) == Seq::<char>::empty());
    assert(esc_char(c) + Seq::<char>::empty() =~= esc_char(c));
}

/// Whether every character of `t` may stand in a record field.
pub fn is_clean(t: &str) -> (r: bool)
    ensures
        r == clean_text(t@),
{
    let n = t.unicode_len();
    let mut i: usize = 0;
    while i < n
        invariant
            0 <= i <= n == t@.len(),
            forall|j: int| 0 <= j < i ==> !ctrl(#[trigger] t@[j]),
        decreases n - i,
    {
        let c = t.get_char(i);
        if (c as u32) < 32 {
            return false;
        }
        i = i + 1;
    }
    true
}

fn push_escaped(out: &mut String, t: &str)
    requires
        clean_text(t@),
    ensures
        final(out)@ == old(out)@ + spec_escape(t@),
{
    let n = t.unicode_len();
    let mut i: usize = 0;
    proof {
        assert(t@.subrange(0, 0) =~= Seq::<char>::empty());
        assert(out@ + spec_escape(t@.subrange(0, 0)) =~= out@);
    }
    while i < n
        invariant
            0 <= i <= n == t@.len(),
            out@ == old(out)@ + spec_escape(t@.subrange(0, i as int)),
        decreases n - i,
    {
        let c = t.get_char(i);
        if c == '"' {
            push_char(out, '\\');
            push_char(out, '"');
        } else if c == '\\' {
            push_char(out, '\\');
            push_char(out, '\\');
        } else {
            push_char(out, c);
        }
        proof {
            lemma_escape_append(t@.subrange(0, i as int), seq![t@[i as int]]);
            lemma_escape_single(t@[i as int]);
            assert(t@.subrange(0, i + 1) =~= t@.subrange(0, i as int) + seq![t@[i as int]]);
            assert(out@ =~= old(out)@ + spec_escape(t@.subrange(0, i + 1)));
        }
        i = i + 1;
    }
    proof {
        assert(t@.subrange(0, n as int) =~= t@);
    }
}

fn push_digits(out: &mut String, n: u64)
    ensures
        final(out)@ == old(out)@ + spec_u64_digits(n as int),
    decreases n,
{
    if n < 10 {
        push_char(out, crate::date::digit_to_char(n as u32));
    } else {
        push_digits(out, n / 10);
        push_char(out, crate::date::digit_to_char((n % 10) as u32));
        proof {
            assert(out@ =~= old(out)@ + spec_u64_digits(n as int));
        }
    }
}

/// Writes `r` as its ledger line. A record holding a control character
/// cannot be framed as one line and is refused.
pub fn serialize_record(r: &Record) -> (out: Option<String>)
    ensures
        out is Some ==> wf_model(r@) && out->0@ == spec_serialize_record(r@),
        out is None ==> !wf_model(r@),
{
    if !is_clean(self_key(r)) || !is_clean(self_created(r)) {
        return None;
    }
    let mut s = String::new();
    s.append("{\"expiry\":");
    proof {
        reveal_strlit("{\"expiry\":");
        assert("{\"expiry\":"@ =~= lit_head());
    }
    push_digits(&mut s, r.expiry);
    s.append(",\"key\":\"");
    proof {
        reveal_strlit(",\"key\":\"");
        assert(",\"key\":\""@ =~= lit_key());
    }
    push_escaped(&mut s, self_key(r));
    s.append("\"");
    proof {
        reveal_strlit("\"");
        assert("\""@ =~= seq!['"']);
    }
    s.append(",\"created_time\":\"");
    proof {
        reveal_strlit(",\"created_time\":\"");
        assert(",\"created_time\":\""@ =~= lit_created());
    }
    push_escaped(&mut s, self_created(r));
    s.append("\"}");
    proof {
        reveal_strlit("\"}");
        assert("\"}"@ =~= seq!['"', '}']);
        assert(s@ =~= spec_serialize_record(r@));
    }
    Some(s)
}

fn self_key(r: &Record) -> (k: &str)
    ensures
        k@ == r@.key,
{
    r.key.as_str()
}

fn self_created(r: &Record) -> (k: &str)
    ensures
        k@ == r@.created_time,
{
    r.created_time.as_str()
}

/// Reading a quoted string: the decoded text and what follows the
/// closing quote, or nothing when the quoting is broken.
pub open spec fn spec_scan(t: Seq<char>) -> Option<(Seq<char>, Seq<char>)>
    decreases t.len(),
{
    if t.len() == 0 {
        None
    } else if t[0] == '"' {
        Some((Seq::empty(), t.skip(1)))
    } else if t[0] == '\\' {
        if t.len() >= 2 && (t[1] == '"' || t[1] == '\\') {
            match spec_scan(t.skip(2)) {
                Some(p) => Some((seq![t[1]] + p.0, p.1)),
                None => None,
            }
        } else {
            None
        }
    } else if ctrl(t[0]) {
        None
    } else {
        match spec_scan(t.skip(1)) {
            Some(p) => Some((seq![t[0]] + p.0, p.1)),
            None => None,
        }
    }
}

/// The longest digit prefix of `t`, and what follows it.
pub open spec fn spec_digit_run(t: Seq<char>) -> (Seq<char>, Seq<char>)
    decreases t.len(),
{
    if t.len() > 0 && digit_val(t[0]) >= 0 {
        let p = spec_digit_run(t.skip(1));
        (seq![t[0]] + p.0, p.1)
    } else {
        (Seq::empty(), t)
    }
}

/// The number written by a digit sequence, most significant first.
pub open spec fn spec_digits_val(ds: Seq<char>) -> int
    decreases ds.len(),
{
    if ds.len() == 0 {
        0
    } else {
        spec_digits_val(ds.take(ds.len() - 1)) * 10 + digit_val(ds.last())
    }
}

/// Reading an unsigned decimal: digits without a superfluous leading
/// zero, fitting the field's type.
pub open spec fn spec_parse_number(t: Seq<char>) -> Option<(u64, Seq<char>)> {
    let p = spec_digit_run(t);
    if p.0.len() == 0 {
        None
    } else if p.0.len() > 1 && p.0[0] == '0' {
        None
    } else if spec_digits_val(p.0) > u64::MAX {
        None
    } else {
        Some((spec_digits_val(p.0) as u64, p.1))
    }
}

/// What `parse_record` accepts: exactly the lines `spec_serialize_record`
/// writes, field order included.
pub open spec fn spec_parse_record(s: Seq<char>) -> Option<RecordModel> {
    if s.len() >= 10 && s.subrange(0, 10) == lit_head() {
        match spec_parse_number(s.skip(10)) {
            Some(pn) => {
                let t2 = pn.1;
                if t2.len() >= 8 && t2.subrange(0, 8) == lit_key() {
                    match spec_scan(t2.skip(8)) {
                        Some(pk) => {
                            let t4 = pk.1;
                            if t4.len() >= 17 && t4.subrange(0, 17) == lit_created() {
                                match spec_scan(t4.skip(17)) {
                                    Some(pc) => {
                                        if pc.1 == seq!['}'] {
                                            Some(
                                                RecordModel {
                                                    expiry: pn.0,
                                                    key: pk.0,
                                                    created_time: pc.0,
                                                },
                                            )
                                        } else {
                                            None
                                        }
                                    },
                                    None => None,
                                }
                            } else {
                                None
                            }
                        },
                        None => None,
                    }
                } else {
                    None
                }
            },
            None => None,
        }
    } else {
        None
    }
}

/// Whether `i + lit@.len() <= s@.len()` and the characters of `s` from
/// `i` on spell `lit`.
fn match_lit(s: &str, i: usize, lit: &str) -> (r: bool)
    requires
        i <= s@.len(),
    ensures
        r == (i + lit@.len() <= s@.len() && s@.subrange(i as int, i + lit@.len()) =~= lit@),
{
    let n = s.unicode_len();
    let m = lit.unicode_len();
    if n - i < m {
        return false;
    }
    let mut j: usize = 0;
    while j < m
        invariant
            0 <= j <= m == lit@.len(),
            i + m <= n == s@.len(),
            forall|x: int| 0 <= x < j ==> s@[i + x] == lit@[x],
        decreases m - j,
    {
        if s.get_char(i + j) != lit.get_char(j) {
            return false;
        }
        j = j + 1;
    }
    proof {
        assert(s@.subrange(i as int, i + lit@.len()) =~= lit@);
    }
    true
}

/// Reads a quoted string starting at `i`; on success hands back the
/// decoded text and the index just past the closing quote.
fn scan_string(s: &str, i: usize) -> (r: Option<(String, usize)>)
    requires
        i <= s@.len(),
    ensures
        r is Some ==> i <= (r->0).1 <= s@.len() && spec_scan(s@.skip(i as int)) == Some(
            (((r->0).0)@, s@.skip((r->0).1 as int)),
        ),
        r is None ==> spec_scan(s@.skip(i as int)) is None,
{
    let n = s.unicode_len();
    let mut acc = String::new();
    let mut j = i;
    loop
        invariant
            i <= j <= n == s@.len(),
            spec_scan(s@.skip(j as int)) matches Some(p) ==> spec_scan(s@.skip(i as int)) == Some(
                (acc@ + p.0, p.1),
            ),
            spec_scan(s@.skip(j as int)) is None ==> spec_scan(s@.skip(i as int)) is None,
        decreases n - j,
    {
        if j >= n {
            return None;
        }
        let c = s.get_char(j);
        proof {
            assert(s@.skip(j as int)[0] == c);
        }
        if c == '"' {
            proof {
                assert(s@.skip(j as int).skip(1) =~= s@.skip(j + 1));
                assert(acc@ + Seq::<char>::empty() =~= acc@);
            }
            return Some((acc, j + 1));
        } else if c == '\\' {
            if j + 1 >= n {
                return None;
            }
            let c2 = s.get_char(j + 1);
            proof {
                assert(s@.skip(j as int)[1] == c2);
            }
            if c2 == '"' || c2 == '\\' {
                let ghost a0 = acc@;
                push_char(&mut acc, c2);
                proof {
                    assert(s@.skip(j as int).skip(2) =~= s@.skip(j + 2));
                    if let Some(p) = spec_scan(s@.skip(j + 2)) {
                        assert(a0 + (seq![c2] + p.0) =~= acc@ + p.0);
                    }
                }
                j = j + 2;
            } else {
                return None;
            }
        } else if (c as u32) < 32 {
            return None;
        } else {
            let ghost a0 = acc@;
            push_char(&mut acc, c);
            proof {
                assert(s@.skip(j as int).skip(1) =~= s@.skip(j + 1));
                if let Some(p) = spec_scan(s@.skip(j + 1)) {
                    assert(a0 + (seq![c] + p.0) =~= acc@ + p.0);
                }
            }
            j = j + 1;
        }
    }
}

pub open spec fn all_digits(ds: Seq<char>) -> bool {
    forall|i: int| 0 <= i < ds.len() ==> digit_val(#[trigger] ds[i]) >= 0
}

proof fn lemma_digits_val_nonneg(ds: Seq<char>)
    requires
        all_digits(ds),
    ensures
        spec_digits_val(ds) >= 0,
    decreases ds.len(),
{
    if ds.len() > 0 {
        assert(all_digits(ds.take(ds.len() - 1)));
        lemma_digits_val_nonneg(ds.take(ds.len() - 1));
    }
}

/// Appending digits never shrinks the written value.
pub(crate) proof fn lemma_digits_val_extend(ds: Seq<char>, ext: Seq<char>)
    requires
        all_digits(ds),
        all_digits(ext),
    ensures
        spec_digits_val(ds + ext) >= spec_digits_val(ds),
    decreases ext.len(),
{
    if ext.len() == 0 {
        assert(ds + ext =~= ds);
    } else {
        let e1 = ext.take(ext.len() - 1);
        assert(all_digits(e1));
        lemma_digits_val_extend(ds, e1);
        let t = ds + ext;
        assert(t.take(t.len() - 1) =~= ds + e1);
        assert(t.last() == ext.last());
        assert(all_digits(ds + e1)) by {
            assert(forall|i: int|
                0 <= i < ds.len() + e1.len() ==> digit_val(#[trigger] (ds + e1)[i]) >= 0);
        }
        lemma_digits_val_nonneg(ds + e1);
        assert(spec_digits_val(t) == spec_digits_val(ds + e1) * 10 + digit_val(ext.last()));
    }
}

/// Reads the unsigned decimal starting at `i`; on success hands back
/// its value and the index of the first character after the digits.
fn parse_number(s: &str, i: usize) -> (r: Option<(u64, usize)>)
    requires
        i <= s@.len(),
    ensures
        r is Some ==> i <= (r->0).1 <= s@.len() && spec_parse_number(s@.skip(i as int)) == Some(
            (((r->0).0), s@.skip((r->0).1 as int)),
        ),
        r is None ==> spec_parse_number(s@.skip(i as int)) is None,
{
    let n = s.unicode_len();
    let ghost t0 = s@.skip(i as int);
    let mut acc: u64 = 0;
    let mut j = i;
    loop
        invariant
            i <= j <= n == s@.len(),
            t0 == s@.skip(i as int),
            all_digits(s@.subrange(i as int, j as int)),
            spec_digits_val(s@.subrange(i as int, j as int)) == acc,
            spec_digit_run(t0) == (
                s@.subrange(i as int, j as int) + spec_digit_run(s@.skip(j as int)).0,
                spec_digit_run(s@.skip(j as int)).1,
            ),
        decreases n - j,
    {
        let ghost consumed = s@.subrange(i as int, j as int);
        let mut d: u32 = 0;
        let mut is_digit = false;
        if j < n {
            match crate::date::char_to_digit(s.get_char(j)) {
                Some(v) => {
                    d = v;
                    is_digit = true;
                },
                None => {
                },
            }
        }
        proof {
            if j < n {
                assert(s@.skip(j as int)[0] == s@[j as int]);
            }
        }
        if !is_digit {
            // the run ends here
            proof {
                assert(spec_digit_run(s@.skip(j as int)).0 =~= Seq::<char>::empty());
                assert(consumed + Seq::<char>::empty() =~= consumed);
                assert(spec_digit_run(t0).0 == consumed);
                assert(spec_digit_run(t0).1 == s@.skip(j as int));
            }
            if j == i {
                // no digit at all
                return None;
            }
            if j > i + 1 && s.get_char(i) == '0' {
                proof {
                    assert(consumed[0] == s@[i as int]);
                }
                return None;
            }
            proof {
                if consumed.len() > 1 {
                    assert(consumed[0] == s@[i as int]);
                }
            }
            return Some((acc, j));
        }
        // one more digit: accumulate, watching the field's limit
        let ghost run_rest = spec_digit_run(s@.skip(j + 1)).0;
        proof {
            assert(s@.skip(j as int).skip(1) =~= s@.skip(j + 1));
            assert(spec_digit_run(s@.skip(j as int)).0 == seq![s@[j as int]] + spec_digit_run(
                s@.skip(j + 1),
            ).0);
            assert(consumed + (seq![s@[j as int]] + run_rest) =~= (consumed + seq![
                s@[j as int]
            ]) + run_rest);
            assert(consumed + seq![s@[j as int]] =~= s@.subrange(i as int, j + 1));
            let c1 = s@.subrange(i as int, j + 1);
            assert(c1.take(c1.len() - 1) =~= consumed);
            assert(c1.last() == s@[j as int]);
            assert(spec_digits_val(c1) == acc * 10 + d);
        }
        if acc > (u64::MAX - d as u64) / 10 {
            // the digits spell a value beyond the field
            proof {
                let c1 = s@.subrange(i as int, j + 1);
                let full = spec_digit_run(t0).0;
                assert(full =~= c1 + run_rest);
                assert(all_digits(c1));
                assert(all_digits(run_rest)) by {
                    lemma_run_digits(s@.skip(j + 1));
                }
                lemma_digits_val_extend(c1, run_rest);
                assert(spec_digits_val(c1) > u64::MAX);
            }
            return None;
        }
        acc = acc * 10 + d as u64;
        j = j + 1;
    }
}

/// Every character of a digit run is a digit.
proof fn lemma_run_digits(t: Seq<char>)
    ensures
        all_digits(spec_digit_run(t).0),
    decreases t.len(),
{
    if t.len() > 0 && digit_val(t[0]) >= 0 {
        lemma_run_digits(t.skip(1));
        let p = spec_digit_run(t.skip(1));
        assert(forall|i: int|
            0 <= i < 1 + p.0.len() ==> digit_val(#[trigger] (seq![t[0]] + p.0)[i]) >= 0);
    }
}

/// Reads one ledger line back into a record. Accepts exactly the
/// lines `serialize_record` writes.
pub fn parse_record(s: &str) -> (r: Option<Record>)
    ensures
        r is Some ==> spec_parse_record(s@) == Some(r->0@),
        r is None ==> spec_parse_record(s@) is None,
{
    let n = s.unicode_len();
    let m1 = match_lit(s, 0, "{\"expiry\":");
    proof {
        reveal_strlit("{\"expiry\":");
        assert("{\"expiry\":"@ =~= lit_head());
        assert(s@.skip(0) =~= s@);
    }
    if !m1 {
        return None;
    }
    let (v, j1) = match parse_number(s, 10) {
        Some(p) => p,
        None => {
            proof {
                assert(s@.subrange(0, 10) == lit_head());
            }
            return None;
        },
    };
    let ghost t2 = s@.skip(j1 as int);
    let m2 = match_lit(s, j1, ",\"key\":\"");
    proof {
        reveal_strlit(",\"key\":\"");
        assert(",\"key\":\""@ =~= lit_key());
        if j1 + 8 <= n {
            assert(t2.subrange(0, 8) =~= s@.subrange(j1 as int, j1 + 8));
        }
    }
    if !m2 {
        proof {
            if t2.len() >= 8 && t2.subrange(0, 8) == lit_key() {
                assert(s@.subrange(j1 as int, j1 + 8) =~= lit_key());
            }
        }
        return None;
    }
    let (k, j2) = match scan_string(s, j1 + 8) {
        Some(p) => p,
        None => {
            proof {
                assert(t2.skip(8) =~= s@.skip(j1 + 8));
            }
            return None;
        },
    };
    proof {
        assert(t2.skip(8) =~= s@.skip(j1 + 8));
    }
    let ghost t4 = s@.skip(j2 as int);
    let m3 = match_lit(s, j2, ",\"created_time\":\"");
    proof {
        reveal_strlit(",\"created_time\":\"");
        assert(",\"created_time\":\""@ =~= lit_created());
        if j2 + 17 <= n {
            assert(t4.subrange(0, 17) =~= s@.subrange(j2 as int, j2 + 17));
        }
    }
    if !m3 {
        proof {
            if t4.len() >= 17 && t4.subrange(0, 17) == lit_created() {
                assert(s@.subrange(j2 as int, j2 + 17) =~= lit_created());
            }
        }
        return None;
    }
    let (ct, j3) = match scan_string(s, j2 + 17) {
        Some(p) => p,
        None => {
            proof {
                assert(t4.skip(17) =~= s@.skip(j2 + 17));
            }
            return None;
        },
    };
    proof {
        assert(t4.skip(17) =~= s@.skip(j2 + 17));
    }
    if j3 < n && n - j3 == 1 {
        let c = s.get_char(j3);
        if c == '}' {
            proof {
                assert(s@.skip(j3 as int) =~= seq!['}']);
            }
            return Some(Record { expiry: v, key: k, created_time: ct });
        }
        proof {
            assert(s@.skip(j3 as int)[0] == c);
            assert(s@.skip(j3 as int) != seq!['}']);
        }
        return None;
    }
    proof {
        assert(s@.skip(j3 as int).len() != 1);
        assert(s@.skip(j3 as int) != seq!['}']);
    }
    None
}

/// Scanning what `spec_escape` wrote, up to its closing quote, gives
/// the text back and leaves the rest untouched.
proof fn lemma_scan_escape(k: Seq<char>, rest: Seq<char>)
    requires
        clean_text(k),
    ensures
        spec_scan(spec_escape(k) + seq!['"'] + rest) == Some((k, rest)),
    decreases k.len(),
{
    let t = spec_escape(k) + seq!['"'] + rest;
    if k.len() == 0 {
        assert(spec_escape(k) == Seq::<char>::empty());
        assert(t =~= seq!['"'] + rest);
        assert(t[0] == '"');
        assert(t.skip(1) =~= rest);
        assert((spec_scan(t)->0).0 =~= k);
    } else {
        let c = k[0];
        let k1 = k.subrange(1, k.len() as int);
        assert(clean_text(k1));
        assert(!ctrl(c));
        lemma_scan_escape(k1, rest);
        let e1 = spec_escape(k1);
        assert(spec_escape(k) == esc_char(c) + e1);
        if c == '"' {
            assert(t[0] == '\\');
            assert(t[1] == '"');
            assert(t.len() >= 2);
            assert(t.skip(2) =~= e1 + seq!['"'] + rest);
            assert(seq![t[1]] + k1 =~= k);
        } else if c == '\\' {
            assert(t[0] == '\\');
            assert(t[1] == '\\');
            assert(t.len() >= 2);
            assert(t.skip(2) =~= e1 + seq!['"'] + rest);
            assert(seq![t[1]] + k1 =~= k);
        } else {
            assert(t[0] == c);
            assert(t.skip(1) =~= e1 + seq!['"'] + rest);
            assert(seq![t[0]] + k1 =~= k);
        }
    }
}

/// The digits of `n`, their shape: nonempty, digits only, and no
/// superfluous leading zero.
proof fn lemma_digits_shape(n: int)
    requires
        n >= 0,
    ensures
        all_digits(spec_u64_digits(n)),
        spec_u64_digits(n).len() >= 1,
        n >= 1 ==> spec_u64_digits(n)[0] != '0',
        n == 0 ==> spec_u64_digits(n) =~= seq!['0'],
    decreases n,
{
    if n < 10 {
        crate::date::lemma_digit_roundtrip(n);
        assert(all_digits(seq![digit_char(n)])) by {
            assert(seq![digit_char(n)][0] == digit_char(n));
        }
    } else {
        lemma_digits_shape(n / 10);
        let a = spec_u64_digits(n / 10);
        let b = seq![digit_char(n % 10)];
        crate::date::lemma_digit_roundtrip(n % 10);
        assert(all_digits(b)) by {
            assert(b[0] == digit_char(n % 10));
        }
        assert(all_digits(a + b)) by {
            assert(forall|i: int| 0 <= i < a.len() + 1 ==> digit_val(#[trigger] (a + b)[i]) >= 0);
        }
        assert((a + b)[0] == a[0]);
    }
}

/// The value its digits write is `n` itself.
proof fn lemma_digits_val_of(n: int)
    requires
        n >= 0,
    ensures
        spec_digits_val(spec_u64_digits(n)) == n,
    decreases n,
{
    crate::date::lemma_digit_roundtrip(n % 10);
    if n < 10 {
        let ds = spec_u64_digits(n);
        assert(ds.take(0) =~= Seq::<char>::empty());
        assert(spec_digits_val(Seq::<char>::empty()) == 0);
        assert(ds.last() == digit_char(n));
        crate::date::lemma_digit_roundtrip(n);
        assert(spec_digits_val(ds) == spec_digits_val(ds.take(0)) * 10 + digit_val(ds.last()));
    } else {
        lemma_digits_val_of(n / 10);
        let a = spec_u64_digits(n / 10);
        let ds = a + seq![digit_char(n % 10)];
        assert(ds.take(ds.len() - 1) =~= a);
        assert(ds.last() == digit_char(n % 10));
    }
}

/// The round trip: every well-formed record is read back, unchanged,
/// from the line written for it.
#[verifier::rlimit(60)]
pub proof fn lemma_parse_serialize(rm: RecordModel)
    requires
        wf_model(rm),
    ensures
        spec_parse_record(spec_serialize_record(rm)) == Some(rm),
{
    let s = spec_serialize_record(rm);
    let d = spec_u64_digits(rm.expiry as int);
    let ek = spec_escape(rm.key);
    let ec = spec_escape(rm.created_time);
    let r1 = lit_key() + ek + seq!['"'] + lit_created() + ec + seq!['"', '}'];
    lemma_digits_shape(rm.expiry as int);
    lemma_digits_val_of(rm.expiry as int);
    assert(s.len() >= 10);
    assert(s.subrange(0, 10) =~= lit_head());
    assert(s.skip(10) =~= d + r1);
    assert(r1[0] == ',' && digit_val(',') == -1);
    lemma_digit_run_exact(d, r1);
    assert(spec_parse_number(s.skip(10)) == Some((rm.expiry, r1)));
    assert(r1.subrange(0, 8) =~= lit_key());
    let r2 = lit_created() + ec + seq!['"', '}'];
    assert(r1.skip(8) =~= ek + seq!['"'] + r2);
    lemma_scan_escape(rm.key, r2);
    assert(r2.subrange(0, 17) =~= lit_created());
    assert(r2.skip(17) =~= ec + seq!['"'] + seq!['}']);
    lemma_scan_escape(rm.created_time, seq!['}']);
}

/// Whatever a scan decodes is free of control characters.
proof fn lemma_scan_clean(t: Seq<char>)
    ensures
        spec_scan(t) matches Some(p) ==> clean_text(p.0),
    decreases t.len(),
{
    if t.len() == 0 {
    } else if t[0] == '"' {
    } else if t[0] == '\\' {
        if t.len() >= 2 && (t[1] == '"' || t[1] == '\\') {
            lemma_scan_clean(t.skip(2));
            if let Some(p) = spec_scan(t.skip(2)) {
                let d = seq![t[1]] + p.0;
                assert(forall|i: int| 0 <= i < d.len() ==> !ctrl(#[trigger] d[i]));
            }
        }
    } else if ctrl(t[0]) {
    } else {
        lemma_scan_clean(t.skip(1));
        if let Some(p) = spec_scan(t.skip(1)) {
            let d = seq![t[0]] + p.0;
            assert(forall|i: int| 0 <= i < d.len() ==> !ctrl(#[trigger] d[i]));
        }
    }
}

/// Whatever parses as a record is well formed, so it can be written
/// back as a line.
pub proof fn lemma_parse_wf(s: Seq<char>)
    ensures
        spec_parse_record(s) matches Some(rm) ==> wf_model(rm),
{
    if s.len() >= 10 && s.subrange(0, 10) == lit_head() {
        if let Some(pn) = spec_parse_number(s.skip(10)) {
            let t2 = pn.1;
            if t2.len() >= 8 && t2.subrange(0, 8) == lit_key() {
                lemma_scan_clean(t2.skip(8));
                if let Some(pk) = spec_scan(t2.skip(8)) {
                    let t4 = pk.1;
                    if t4.len() >= 17 && t4.subrange(0, 17) == lit_created() {
                        lemma_scan_clean(t4.skip(17));
                    }
                }
            }
        }
    }
}

/// The longest digit prefix of digits-then-other-text is exactly the
/// digit part.
proof fn lemma_digit_run_exact(ds: Seq<char>, rest: Seq<char>)
    requires
        all_digits(ds),
        rest.len() > 0,
        digit_val(rest[0]) == -1,
    ensures
        spec_digit_run(ds + rest) == (ds, rest),
    decreases ds.len(),
{
    let t = ds + rest;
    if ds.len() == 0 {
        assert(t =~= rest);
        assert(spec_digit_run(t).0 =~= ds);
    } else {
        assert(t[0] == ds[0]);
        assert(digit_val(t[0]) >= 0);
        let ds1 = ds.skip(1);
        assert(all_digits(ds1));
        lemma_digit_run_exact(ds1, rest);
        assert(t.skip(1) =~= ds1 + rest);
        assert(seq![t[0]] + ds1 =~= ds);
    }
}

/// A decoded scan came from exactly one written form: the input began
/// with the escaped text and its closing quote.
proof fn lemma_scan_sound(t: Seq<char>)
    ensures
        spec_scan(t) matches Some(p) ==> t == spec_escape(p.0) + seq!['"'] + p.1,
    decreases t.len(),
{
    if t.len() == 0 {
    } else if t[0] == '"' {
        if let Some(p) = spec_scan(t) {
            assert(spec_escape(p.0) == Seq::<char>::empty());
            assert(t =~= spec_escape(p.0) + seq!['"'] + p.1);
        }
    } else if t[0] == '\\' {
        if t.len() >= 2 && (t[1] == '"' || t[1] == '\\') {
            lemma_scan_sound(t.skip(2));
            if let Some(q) = spec_scan(t.skip(2)) {
                let d = seq![t[1]] + q.0;
                lemma_escape_append(seq![t[1]], q.0);
                lemma_escape_single(t[1]);
                assert(spec_escape(d) == esc_char(t[1]) + spec_escape(q.0));
                assert(esc_char(t[1]) =~= seq![t[0], t[1]]);
                assert(t =~= seq![t[0], t[1]] + t.skip(2));
                assert(t =~= spec_escape(d) + seq!['"'] + q.1);
            }
        }
    } else if ctrl(t[0]) {
    } else {
        lemma_scan_sound(t.skip(1));
        if let Some(q) = spec_scan(t.skip(1)) {
            let d = seq![t[0]] + q.0;
            lemma_escape_append(seq![t[0]], q.0);
            lemma_escape_single(t[0]);
            assert(esc_char(t[0]) =~= seq![t[0]]);
            assert(t =~= seq![t[0]] + t.skip(1));
            assert(t =~= spec_escape(d) + seq!['"'] + q.1);
        }
    }
}

/// A digit run splits its input: the digits, then the rest.
proof fn lemma_run_sound(t: Seq<char>)
    ensures
        t == spec_digit_run(t).0 + spec_digit_run(t).1,
    decreases t.len(),
{
    if t.len() > 0 && digit_val(t[0]) >= 0 {
        lemma_run_sound(t.skip(1));
        let p = spec_digit_run(t.skip(1));
        assert(t =~= seq![t[0]] + t.skip(1));
        assert(t =~= (seq![t[0]] + p.0) + p.1);
    } else {
        assert(t =~= Seq::<char>::empty() + t);
    }
}

proof fn lemma_digit_char_inverse(c: char)
    requires
        digit_val(c) >= 0,
    ensures
        digit_char(digit_val(c)) == c,
{
}

/// Digits without a superfluous leading zero write a positive value.
proof fn lemma_val_positive(ds: Seq<char>)
    requires
        all_digits(ds),
        ds.len() >= 1,
        digit_val(ds[0]) >= 1,
    ensures
        spec_digits_val(ds) >= 1,
    decreases ds.len(),
{
    let bl = ds.take(ds.len() - 1);
    if ds.len() == 1 {
        assert(spec_digits_val(bl) == 0) by {
            assert(bl =~= Seq::<char>::empty());
        }
    } else {
        assert(all_digits(bl));
        assert(bl[0] == ds[0]);
        lemma_val_positive(bl);
        lemma_digits_val_nonneg(bl);
        assert(digit_val(ds.last()) >= 0);
    }
}

/// A digit sequence without a superfluous leading zero is exactly how
/// its value is written: the format has one spelling per number.
proof fn lemma_digits_canonical(ds: Seq<char>)
    requires
        all_digits(ds),
        ds.len() >= 1,
        ds.len() > 1 ==> ds[0] != '0',
    ensures
        spec_u64_digits(spec_digits_val(ds)) == ds,
    decreases ds.len(),
{
    let v = spec_digits_val(ds);
    let bl = ds.take(ds.len() - 1);
    if ds.len() == 1 {
        assert(spec_digits_val(bl) == 0) by {
            assert(bl =~= Seq::<char>::empty());
        }
        assert(v == digit_val(ds[0]));
        lemma_digit_char_inverse(ds[0]);
        assert(spec_u64_digits(v) =~= ds);
    } else {
        assert(all_digits(bl));
        assert(bl[0] == ds[0]);
        assert(digit_val(ds[0]) >= 1) by {
            lemma_digit_char_inverse(ds[0]);
        }
        lemma_val_positive(bl);
        lemma_digits_val_nonneg(bl);
        let b = spec_digits_val(bl);
        let dv = digit_val(ds.last());
        assert(v == b * 10 + dv);
        assert(v >= 10);
        vstd::arithmetic::div_mod::lemma_fundamental_div_mod_converse(v, 10, b, dv);
        assert(v / 10 == b && v % 10 == dv);
        lemma_digits_canonical(bl);
        lemma_digit_char_inverse(ds.last());
        assert(spec_u64_digits(v) == spec_u64_digits(b) + seq![digit_char(dv)]);
        assert(spec_u64_digits(v) =~= ds);
    }
}

/// Only one line parses to a given record: whatever parses as `rm` is
/// the very line written for `rm`. With the round trip this makes the
/// bucket format unambiguous.
pub proof fn lemma_parse_record_sound(s: Seq<char>)
    ensures
        spec_parse_record(s) matches Some(rm) ==> s == spec_serialize_record(rm) && wf_model(rm),
{
    lemma_parse_wf(s);
    if s.len() >= 10 && s.subrange(0, 10) == lit_head() {
        if let Some(pn) = spec_parse_number(s.skip(10)) {
            let t1 = s.skip(10);
            let run = spec_digit_run(t1);
            lemma_run_sound(t1);
            lemma_run_digits(t1);
            if run.0.len() >= 1 && !(run.0.len() > 1 && run.0[0] == '0') && spec_digits_val(run.0)
                <= u64::MAX {
                lemma_digits_canonical(run.0);
                assert(t1 == spec_u64_digits(pn.0 as int) + pn.1);
                let t2 = pn.1;
                if t2.len() >= 8 && t2.subrange(0, 8) == lit_key() {
                    lemma_scan_sound(t2.skip(8));
                    if let Some(pk) = spec_scan(t2.skip(8)) {
                        assert(t2 =~= lit_key() + t2.skip(8));
                        let t4 = pk.1;
                        if t4.len() >= 17 && t4.subrange(0, 17) == lit_created() {
                            lemma_scan_sound(t4.skip(17));
                            if let Some(pc) = spec_scan(t4.skip(17)) {
                                assert(t4 =~= lit_created() + t4.skip(17));
                                if pc.1 == seq!['}'] {
                                    let rm = spec_parse_record(s)->0;
                                    assert(s =~= s.subrange(0, 10) + t1);
                                    assert(s =~= lit_head() + (spec_u64_digits(rm.expiry as int) + (
                                    lit_key() + (spec_escape(rm.key) + seq!['"'] + (lit_created()
                                        + (spec_escape(rm.created_time) + seq!['"'] + seq![
                                        '}'
                                    ]))))));
                                    assert(s =~= spec_serialize_record(rm));
                                }
                            }
                        }
                    }
                }
            }
        }
    }
}

} // verus!
