//! Small string-building helpers shared by the formatting and
//! serialization code.
use vstd::prelude::*;

verus! {

/// Relies on String::push: appends exactly the given character
/// to the end of the string.
#[verifier::external_body]
pub fn push_char(s: &mut String, c: char)
    ensures
        final(s)@ == old(s)@.push(c),
{
    s.push(c)
}

/// Whether two string slices hold the same characters.
pub fn str_eq(a: &str, b: &str) -> (r: bool)
    ensures
        r == (a@ == b@),
{
    let n = a.unicode_len();
    if n != b.unicode_len() {
        proof {
            assert(a@ != b@);
        }
        return false;
    }
    let mut i: usize = 0;
    while i < n
        invariant
            0 <= i <= n == a@.len() == b@.len(),
            forall|j: int| 0 <= j < i ==> a@[j] == b@[j],
        decreases n - i,
    {
        if a.get_char(i) != b.get_char(i) {
            return false;
        }
        i = i + 1;
    }
    proof {
        assert(a@ =~= b@);
    }
    true
}

/// Whether the character occurs in the string.
pub fn str_has_char(s: &str, c: char) -> (r: bool)
    ensures
        r == s@.contains(c),
{
    let n = s.unicode_len();
    let mut i: usize = 0;
    while i < n
        invariant
            0 <= i <= n == s@.len(),
            forall|j: int| 0 <= j < i ==> s@[j] != c,
        decreases n - i,
    {
        if s.get_char(i) == c {
            return true;
        }
        i = i + 1;
    }
    proof {
        if s@.contains(c) {
            let j = choose|j: int| 0 <= j < s@.len() && s@[j] == c;
            assert(false);
        }
    }
    false
}

/// Whether `needle` occurs in `haystack` as a contiguous run.
pub open spec fn spec_contains_sub(h: Seq<char>, n: Seq<char>) -> bool {
    exists|i: int| 0 <= i <= h.len() - n.len() && #[trigger] h.subrange(i, i + n.len()) == n
}

pub fn contains_sub(h: &str, n: &str) -> (r: bool)
    ensures
        r == spec_contains_sub(h@, n@),
{
    let hl = h.unicode_len();
    let nl = n.unicode_len();
    if nl > hl {
        proof {
            assert(!spec_contains_sub(h@, n@));
        }
        return false;
    }
    let mut i: usize = 0;
    while i <= hl - nl
        invariant
            0 <= i <= hl - nl + 1,
            nl <= hl == h@.len(),
            nl == n@.len(),
            forall|x: int| 0 <= x < i ==> #[trigger] h@.subrange(x, x + n@.len()) != n@,
        decreases hl - nl + 1 - i,
    {
        let mut j: usize = 0;
        let mut hit = true;
        let ghost mut bad: int = 0;
        while j < nl
            invariant
                0 <= j <= nl,
                i + nl <= hl == h@.len(),
                nl == n@.len(),
                hit ==> forall|y: int| 0 <= y < j ==> h@[i + y] == n@[y],
                !hit ==> 0 <= bad < n@.len() && h@[i + bad] != n@[bad],
            decreases nl - j,
        {
            if h.get_char(i + j) != n.get_char(j) {
                hit = false;
                proof {
                    bad = j as int;
                }
                j = nl;
            } else {
                j = j + 1;
            }
        }
        if hit {
            proof {
                assert(h@.subrange(i as int, i + n@.len()) =~= n@);
            }
            return true;
        }
        proof {
            if h@.subrange(i as int, i + n@.len()) == n@ {
                assert(h@.subrange(i as int, i + n@.len())[bad] == h@[i + bad]);
                assert(false);
            }
        }
        i = i + 1;
    }
    proof {
        assert(!spec_contains_sub(h@, n@));
    }
    false
}

} // verus!
