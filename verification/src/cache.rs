//! The in-memory TTL cache: the fast "is this key currently valid"
//! check. A derived, disposable view of the ledger — losing it costs
//! lookups, never correctness — modelled as a map from keys to their
//! expiry deadlines in epoch seconds.
use crate::record::spec_remaining_of;
use crate::strutil::str_eq;
use vstd::prelude::*;

verus! {

/// Key -> deadline; a key is valid while the clock stands strictly
/// before its deadline.
pub struct ExpiryCache {
    pub keys: Vec<String>,
    pub deadlines: Vec<i64>,
}

pub open spec fn contains_k(s: Seq<String>, k: Seq<char>) -> bool {
    exists|i: int| 0 <= i < s.len() && s[i]@ == k
}

pub open spec fn idx_of(s: Seq<String>, k: Seq<char>) -> int {
    choose|i: int| 0 <= i < s.len() && s[i]@ == k
}

/// The deadline `ttl` seconds after `now`, saturated at the far end of
/// time.
pub open spec fn spec_deadline(now: int, ttl: int) -> i64 {
    if now + ttl > i64::MAX {
        i64::MAX
    } else {
        (now + ttl) as i64
    }
}

impl ExpiryCache {
    /// Each key appears once, and every key has its deadline.
    pub open spec fn wf(&self) -> bool {
        &&& self.keys@.len() == self.deadlines@.len()
        &&& forall|i: int, j: int|
            0 <= i < j < self.keys@.len() ==> self.keys@[i]@ != self.keys@[j]@
    }
}

impl View for ExpiryCache {
    type V = Map<Seq<char>, i64>;

    open spec fn view(&self) -> Map<Seq<char>, i64> {
        Map::new(
            |k: Seq<char>| contains_k(self.keys@, k),
            |k: Seq<char>| self.deadlines@[idx_of(self.keys@, k)],
        )
    }
}

impl ExpiryCache {
    pub fn new() -> (r: ExpiryCache)
        ensures
            r.wf(),
            r@ == Map::<Seq<char>, i64>::empty(),
    {
        let r = ExpiryCache { keys: Vec::new(), deadlines: Vec::new() };
        proof {
            assert(r@ =~= Map::<Seq<char>, i64>::empty());
        }
        r
    }

    fn find(&self, key: &str) -> (r: Option<usize>)
        requires
            self.wf(),
        ensures
            r matches Some(i) ==> i < self.keys@.len() && self.keys@[i as int]@ == key@,
            r is None ==> !contains_k(self.keys@, key@),
    {
        let n = self.keys.len();
        let mut i: usize = 0;
        while i < n
            invariant
                0 <= i <= n == self.keys@.len(),
                forall|j: int| 0 <= j < i ==> self.keys@[j]@ != key@,
            decreases n - i,
        {
            if str_eq(self.keys[i].as_str(), key) {
                return Some(i);
            }
            i = i + 1;
        }
        None
    }

    /// Inserts or refreshes `key`, valid for the next `ttl` seconds.
    pub fn mark_valid(&mut self, key: String, ttl: u64, now: i64)
        requires
            old(self).wf(),
        ensures
            final(self).wf(),
            final(self)@ == old(self)@.insert(key@, spec_deadline(now as int, ttl as int)),
    {
        let dl128: i128 = now as i128 + ttl as i128;
        let deadline: i64 = if dl128 > i64::MAX as i128 {
            i64::MAX
        } else {
            dl128 as i64
        };
        let ghost k0 = self.keys@;
        let ghost d0 = self.deadlines@;
        match self.find(key.as_str()) {
            Some(i) => {
                self.deadlines[i] = deadline;
                proof {
                    assert forall|kk: Seq<char>| #[trigger]
                        contains_k(self.keys@, kk) implies old(self)@.insert(
                        key@,
                        deadline,
                    ).contains_key(kk) by {}
                    assert forall|kk: Seq<char>|
                        contains_k(self.keys@, kk) implies #[trigger] self@[kk] == old(
                        self,
                    )@.insert(key@, deadline)[kk] by {
                        let j = idx_of(self.keys@, kk);
                        assert(0 <= j < self.keys@.len() && self.keys@[j]@ == kk);
                        if kk == key@ {
                            assert(j == i as int);
                        } else {
                            assert(j != i as int);
                            assert(idx_of(k0, kk) == j);
                        }
                    }
                    assert(self@ =~= old(self)@.insert(key@, deadline));
                }
            },
            None => {
                self.keys.push(key);
                self.deadlines.push(deadline);
                proof {
                    let n0 = k0.len() as int;
                    assert(self.keys@ =~= k0.push(key));
                    assert(self.deadlines@ =~= d0.push(deadline));
                    assert forall|i: int, j: int|
                        0 <= i < j < self.keys@.len() implies self.keys@[i]@
                        != self.keys@[j]@ by {
                        if j == n0 {
                            assert(self.keys@[j]@ == key@);
                            assert(!contains_k(k0, key@));
                        }
                    }
                    assert forall|kk: Seq<char>| #[trigger]
                        contains_k(self.keys@, kk) implies old(self)@.insert(
                        key@,
                        deadline,
                    ).contains_key(kk) by {
                        let j = idx_of(self.keys@, kk);
                        if j < n0 {
                            assert(contains_k(k0, kk));
                        }
                    }
                    assert forall|kk: Seq<char>| old(self)@.insert(key@, deadline).contains_key(
                        kk,
                    ) implies #[trigger] contains_k(self.keys@, kk) by {
                        if kk == key@ {
                            assert(self.keys@[n0]@ == kk);
                        } else {
                            let j = idx_of(k0, kk);
                            assert(self.keys@[j]@ == kk);
                        }
                    }
                    assert forall|kk: Seq<char>|
                        contains_k(self.keys@, kk) implies #[trigger] self@[kk] == old(
                        self,
                    )@.insert(key@, deadline)[kk] by {
                        let j = idx_of(self.keys@, kk);
                        assert(0 <= j < self.keys@.len() && self.keys@[j]@ == kk);
                        if kk == key@ {
                            if j < n0 {
                                assert(contains_k(k0, key@));
                            }
                            assert(j == n0);
                        } else {
                            assert(j < n0);
                            assert(idx_of(k0, kk) == j);
                        }
                    }
                    assert(self@ =~= old(self)@.insert(key@, deadline));
                }
            },
        }
    }

    /// True iff the key is present and its deadline has not passed.
    pub fn is_valid(&self, key: &str, now: i64) -> (r: bool)
        requires
            self.wf(),
        ensures
            r == (self@.contains_key(key@) && now < self@[key@]),
    {
        match self.find(key) {
            None => false,
            Some(i) => {
                proof {
                    let j = idx_of(self.keys@, key@);
                    assert(j == i as int);
                }
                now < self.deadlines[i]
            },
        }
    }

    /// Drops every entry whose deadline has passed; entries still
    /// running stay untouched. An optimization only: reads already
    /// enforce the deadline.
    pub fn evict_expired(&mut self, now: i64)
        requires
            old(self).wf(),
        ensures
            final(self).wf(),
            forall|kk: Seq<char>|
                #[trigger] final(self)@.contains_key(kk) <==> (old(self)@.contains_key(kk) && now
                    < old(self)@[kk]),
            forall|kk: Seq<char>| #[trigger]
                final(self)@.contains_key(kk) ==> final(self)@[kk] == old(self)@[kk],
    {
        let n = self.keys.len();
        let ghost k0 = self.keys@;
        let ghost d0 = self.deadlines@;
        let mut new_keys: Vec<String> = Vec::new();
        let mut new_deadlines: Vec<i64> = Vec::new();
        let ghost mut srcs: Seq<int> = Seq::empty();
        let mut i: usize = 0;
        while i < n
            invariant
                0 <= i <= n == k0.len() == d0.len(),
                self.keys@ == k0,
                self.deadlines@ == d0,
                old(self).wf(),
                new_keys@.len() == new_deadlines@.len(),
                srcs.len() == new_keys@.len(),
                forall|x: int|
                    0 <= x < srcs.len() ==> 0 <= #[trigger] srcs[x] < i && k0[srcs[x]]@
                        == new_keys@[x]@ && d0[srcs[x]] == new_deadlines@[x] && now < d0[srcs[x]],
                forall|x: int, y: int|
                    0 <= x < y < srcs.len() ==> #[trigger] srcs[x] < #[trigger] srcs[y],
                forall|j: int| 0 <= j < i && now < d0[j] ==> contains_k(new_keys@, k0[j]@),
            decreases n - i,
        {
            let ghost nk0 = new_keys@;
            if now < self.deadlines[i] {
                let k = self.keys[i].clone();
                new_keys.push(k);
                new_deadlines.push(self.deadlines[i]);
                proof {
                    srcs = srcs.push(i as int);
                    assert forall|j: int|
                        0 <= j < i + 1 && now < d0[j] implies contains_k(
                        new_keys@,
                        k0[j]@,
                    ) by {
                        if j < i {
                            let x = choose|x: int| 0 <= x < nk0.len() && nk0[x]@ == k0[j]@;
                            assert(new_keys@[x]@ == k0[j]@);
                        } else {
                            assert(new_keys@[nk0.len() as int]@ == k0[j]@);
                        }
                    }
                }
            }
            i = i + 1;
        }
        self.keys = new_keys;
        self.deadlines = new_deadlines;
        proof {
            assert forall|x: int, y: int|
                0 <= x < y < self.keys@.len() implies self.keys@[x]@ != self.keys@[y]@ by {
                assert(srcs[x] != srcs[y]);
                assert(k0[srcs[x]]@ == self.keys@[x]@ && k0[srcs[y]]@ == self.keys@[y]@);
            }
            assert forall|kk: Seq<char>| #[trigger] self@.contains_key(kk) implies (old(
                self,
            )@.contains_key(kk) && now < old(self)@[kk]) by {
                let x = idx_of(self.keys@, kk);
                let j = srcs[x];
                assert(k0[j]@ == kk && now < d0[j]);
                assert(contains_k(k0, kk));
                assert(idx_of(k0, kk) == j);
            }
            assert forall|kk: Seq<char>| (old(self)@.contains_key(kk) && now < old(
                self,
            )@[kk]) implies #[trigger] self@.contains_key(kk) by {
                let j = idx_of(k0, kk);
                assert(now < d0[j]);
                assert(contains_k(self.keys@, k0[j]@));
            }
            assert forall|kk: Seq<char>| #[trigger] self@.contains_key(kk) implies self@[kk] == old(
                self,
            )@[kk] by {
                let x = idx_of(self.keys@, kk);
                let j = srcs[x];
                assert(k0[j]@ == kk);
                assert(idx_of(k0, kk) == j);
            }
        }
    }
}

/// One reconstruction step: what one ledger line contributes to the
/// cache at time `now`.
pub open spec fn recon_step(m: Map<Seq<char>, i64>, line: Seq<char>, now: int) -> Map<
    Seq<char>,
    i64,
> {
    match crate::codec::spec_parse_record(line) {
        Some(rm) => {
            if spec_remaining_of(rm, now) > 0 {
                m.insert(rm.key, spec_deadline(now, spec_remaining_of(rm, now)))
            } else {
                m
            }
        },
        None => m,
    }
}

/// The cache after replaying the given ledger lines, in order.
pub open spec fn spec_reconstruct(m: Map<Seq<char>, i64>, lines: Seq<Seq<char>>, now: int) -> Map<
    Seq<char>,
    i64,
>
    decreases lines.len(),
{
    if lines.len() == 0 {
        m
    } else {
        spec_reconstruct(recon_step(m, lines[0], now), lines.skip(1), now)
    }
}

impl ExpiryCache {
    /// Replays a bucket's lines into the cache: every record still
    /// holding time keeps its key valid for exactly that remainder;
    /// stale records are left out, and an unreadable line is skipped
    /// without aborting the rest.
    pub fn reconstruct(&mut self, lines: &Vec<String>, now: i64)
        requires
            old(self).wf(),
        ensures
            final(self).wf(),
            final(self)@ == spec_reconstruct(old(self)@, crate::ledger::views(lines@), now as int),
    {
        let n = lines.len();
        let mut i: usize = 0;
        proof {
            assert(crate::ledger::views(lines@).skip(0) =~= crate::ledger::views(lines@));
        }
        while i < n
            invariant
                0 <= i <= n == lines@.len(),
                self.wf(),
                spec_reconstruct(old(self)@, crate::ledger::views(lines@), now as int)
                    == spec_reconstruct(
                    self@,
                    crate::ledger::views(lines@).skip(i as int),
                    now as int,
                ),
            decreases n - i,
        {
            let ghost lv = crate::ledger::views(lines@);
            proof {
                assert(lv.skip(i as int)[0] == lv[i as int]);
                assert(lv.skip(i as int).skip(1) =~= lv.skip(i + 1));
            }
            match crate::codec::parse_record(lines[i].as_str()) {
                None => {
                },
                Some(rec) => {
                    let rem = rec.remaining_time_to_expiry_at(now);
                    if rem > 0 {
                        self.mark_valid(rec.key, rem, now);
                    }
                },
            }
            i = i + 1;
        }
        proof {
            assert(crate::ledger::views(lines@).skip(n as int) =~= Seq::<Seq<char>>::empty());
        }
    }
}

} // verus!
