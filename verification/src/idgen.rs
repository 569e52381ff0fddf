//! The identifier allocator: draws fixed-length identifiers from the
//! 62-symbol alphabet and reserves each in a probabilistic membership
//! structure (a Bloom filter of the `bloom` crate). The filter may
//! claim an identifier is present when it is not — costing a retry —
//! but never the reverse, so an identifier handed out is never handed
//! out twice within one filter epoch.
use crate::ledger::views;
use crate::strutil::push_char;
use bloom::ASMS;
use rand::Rng;
use vstd::prelude::*;

verus! {

#[verifier::external_type_specification]
#[verifier::external_body]
#[verifier::reject_recursive_types(R)]
#[verifier::reject_recursive_types(S)]
pub struct ExBloomFilter<R, S>(bloom::BloomFilter<R, S>);

/// What the filter holds: the set of items inserted since it was made
/// or last cleared.
pub uninterp spec fn filter_keys(f: &bloom::BloomFilter) -> Set<Seq<char>>;

/// The bit count the filter was made with.
pub uninterp spec fn filter_bits(f: &bloom::BloomFilter) -> nat;

/// Relies on bloom's BloomFilter::with_size: a fresh filter over
/// `num_bits` bits with nothing inserted yet.
#[verifier::external_body]
fn filter_with_size(num_bits: usize, num_hashes: u32) -> (r: bloom::BloomFilter)
    ensures
        filter_keys(&r) == Set::<Seq<char>>::empty(),
        filter_bits(&r) == num_bits,
{
    bloom::BloomFilter::with_size(num_bits, num_hashes)
}

/// Relies on ASMS::insert for BloomFilter: records the item. The item's
/// hashes are reduced modulo the bit count, so the filter must have at
/// least one bit.
#[verifier::external_body]
fn filter_insert(f: &mut bloom::BloomFilter, item: &str)
    requires
        filter_bits(old(f)) > 0,
    ensures
        filter_keys(final(f)) == filter_keys(old(f)).insert(item@),
        filter_bits(final(f)) == filter_bits(old(f)),
{
    let _newly = f.insert(&item);
}

/// Relies on ASMS::contains for BloomFilter: true for every item
/// inserted since the last clear; possibly true for others (a false
/// positive), never false for an inserted item.
#[verifier::external_body]
fn filter_contains(f: &bloom::BloomFilter, item: &str) -> (r: bool)
    requires
        filter_bits(f) > 0,
    ensures
        filter_keys(f).contains(item@) ==> r,
{
    f.contains(&item)
}

/// Relies on ASMS::clear for BloomFilter, which zeroes every bit
/// (BitVec::clear) and keeps the bit count: afterwards nothing is
/// recorded.
#[verifier::external_body]
fn filter_clear(f: &mut bloom::BloomFilter)
    ensures
        filter_keys(final(f)) == Set::<Seq<char>>::empty(),
        filter_bits(final(f)) == filter_bits(old(f)),
{
    f.clear();
}

/// Relies on rand's thread_rng and Rng::gen_range: some value below
/// the bound; the range is nonempty, so the call cannot panic.
#[verifier::external_body]
fn rand_below(n: usize) -> (r: usize)
    requires
        n > 0,
    ensures
        r < n,
{
    rand::thread_rng().gen_range(0..n)
}

/// The identifier alphabet: digits and both letter cases.
pub open spec fn is_base62_char(c: char) -> bool {
    ('0' <= c && c <= '9') || ('A' <= c && c <= 'Z') || ('a' <= c && c <= 'z')
}

fn base62_char(i: u32) -> (c: char)
    requires
        i < 62,
    ensures
        is_base62_char(c),
{
    if i < 10 {
        crate::date::digit_to_char(i)
    } else if i < 36 {
        let b: u8 = 65 + (i - 10) as u8;
        b as char
    } else {
        let b: u8 = 97 + (i - 36) as u8;
        b as char
    }
}

/// The set after inserting every element of `l` into `s`.
pub open spec fn add_all(s: Set<Seq<char>>, l: Seq<Seq<char>>) -> Set<Seq<char>>
    decreases l.len(),
{
    if l.len() == 0 {
        s
    } else {
        add_all(s.insert(l[0]), l.skip(1))
    }
}

/// Membership in `add_all`: an element of the list, or already in the
/// start set.
pub proof fn lemma_add_all_contains(s: Set<Seq<char>>, l: Seq<Seq<char>>, x: Seq<char>)
    ensures
        add_all(s, l).contains(x) <==> (s.contains(x) || exists|i: int|
            0 <= i < l.len() && l[i] == x),
    decreases l.len(),
{
    if l.len() == 0 {
    } else {
        lemma_add_all_contains(s.insert(l[0]), l.skip(1), x);
        assert forall|i: int|
            0 <= i < l.len() && #[trigger] l[i] == x implies s.insert(l[0]).contains(x) || exists|
                j: int,
            |
                0 <= j < l.skip(1).len() && l.skip(1)[j] == x by {
            if i > 0 {
                assert(l.skip(1)[i - 1] == x);
            }
        }
        if exists|j: int| 0 <= j < l.skip(1).len() && l.skip(1)[j] == x {
            let j = choose|j: int| 0 <= j < l.skip(1).len() && l.skip(1)[j] == x;
            assert(l[j + 1] == x);
        }
    }
}

/// How many new identifiers are drawn before the allocator gives up
/// and reports exhaustion instead of spinning.
pub const MAX_GENERATION_ATTEMPTS: usize = 64;

/// After how many uploads the filter is rebuilt from blob storage.
pub const MAX_CACHE_KEYS_TO_RETAIN: usize = 500;

/// Filter geometry for roughly a one-percent false-positive rate:
/// about ten bits per expected item, seven hash functions.
pub const BITS_PER_ITEM: u64 = 10;

pub const FILTER_HASHES: u32 = 7;

/// The allocation failed: every drawn candidate was reported present.
#[derive(Debug, PartialEq, Eq, Structural)]
pub enum AllocError {
    Exhausted,
}

/// The allocator: the membership filter, the identifier length, and
/// the upload counter that triggers periodic rebuilds.
pub struct UniqueID {
    pub filter: bloom::BloomFilter,
    pub id_length: usize,
    pub post_request_counter: usize,
}

impl UniqueID {
    /// The filter can absorb insertions (it has bits to set).
    pub open spec fn wf(&self) -> bool {
        filter_bits(&self.filter) > 0
    }

    /// A fresh allocator sized for `expected_num_items`, with every
    /// already-existing blob key reserved.
    pub fn new(expected_num_items: u32, id_length: usize, upload_keys: &Vec<String>) -> (r:
        UniqueID)
        ensures
            r.wf(),
            filter_keys(&r.filter) == add_all(Set::<Seq<char>>::empty(), views(upload_keys@)),
            r.id_length == id_length,
            r.post_request_counter == 1,
    {
        let bits64: u64 = expected_num_items as u64 * BITS_PER_ITEM + 64;
        let bits: usize = if bits64 > usize::MAX as u64 {
            usize::MAX
        } else {
            bits64 as usize
        };
        let mut r = UniqueID {
            filter: filter_with_size(bits, FILTER_HASHES),
            id_length,
            post_request_counter: 1,
        };
        r.rebuild(upload_keys);
        r
    }

    /// Discards the filter's contents and re-inserts one entry per
    /// currently existing blob key — the only way false positives are
    /// ever shed, since the filter supports no removal.
    pub fn rebuild(&mut self, upload_keys: &Vec<String>)
        requires
            old(self).wf(),
        ensures
            final(self).wf(),
            filter_keys(&final(self).filter) == add_all(
                Set::<Seq<char>>::empty(),
                views(upload_keys@),
            ),
            final(self).id_length == old(self).id_length,
            final(self).post_request_counter == old(self).post_request_counter,
    {
        filter_clear(&mut self.filter);
        let n = upload_keys.len();
        let mut i: usize = 0;
        proof {
            assert(views(upload_keys@).skip(0) =~= views(upload_keys@));
        }
        while i < n
            invariant
                0 <= i <= n == upload_keys@.len(),
                self.wf(),
                self.id_length == old(self).id_length,
                self.post_request_counter == old(self).post_request_counter,
                add_all(Set::<Seq<char>>::empty(), views(upload_keys@)) == add_all(
                    filter_keys(&self.filter),
                    views(upload_keys@).skip(i as int),
                ),
            decreases n - i,
        {
            let ghost kv = views(upload_keys@);
            proof {
                assert(kv.skip(i as int)[0] == kv[i as int]);
                assert(kv.skip(i as int).skip(1) =~= kv.skip(i + 1));
            }
            filter_insert(&mut self.filter, upload_keys[i].as_str());
            i = i + 1;
        }
        proof {
            assert(views(upload_keys@).skip(n as int) =~= Seq::<Seq<char>>::empty());
        }
    }

    /// One candidate identifier: `id_length` symbols drawn from the
    /// alphabet.
    pub fn generate_id(&self) -> (r: String)
        ensures
            r@.len() == self.id_length,
            forall|i: int| 0 <= i < r@.len() ==> is_base62_char(#[trigger] r@[i]),
    {
        let mut s = String::new();
        let mut k: usize = 0;
        while k < self.id_length
            invariant
                0 <= k <= self.id_length,
                s@.len() == k,
                forall|i: int| 0 <= i < s@.len() ==> is_base62_char(#[trigger] s@[i]),
            decreases self.id_length - k,
        {
            let idx = rand_below(62);
            push_char(&mut s, base62_char(idx as u32));
            k = k + 1;
        }
        s
    }

    /// Whether `key` may already be in use. False positives are
    /// possible; a false answer is authoritative.
    pub fn is_reserved(&self, key: &str) -> (r: bool)
        requires
            self.wf(),
        ensures
            filter_keys(&self.filter).contains(key@) ==> r,
    {
        filter_contains(&self.filter, key)
    }

    /// Draws identifiers until the filter reports one absent, then
    /// reserves and returns it: the returned identifier was not in the
    /// filter and is in it afterwards, all in one exclusive section.
    /// Rather than spin forever on a saturated filter, gives up after
    /// a bounded number of attempts with an exhaustion error.
    pub fn generate_and_reserve(&mut self) -> (r: Result<String, AllocError>)
        requires
            old(self).wf(),
        ensures
            final(self).wf(),
            final(self).id_length == old(self).id_length,
            final(self).post_request_counter == old(self).post_request_counter,
            r matches Ok(id) ==> {
                &&& id@.len() == old(self).id_length
                &&& forall|i: int| 0 <= i < id@.len() ==> is_base62_char(#[trigger] id@[i])
                &&& !filter_keys(&old(self).filter).contains(id@)
                &&& filter_keys(&final(self).filter) == filter_keys(&old(self).filter).insert(id@)
            },
            r is Err ==> filter_keys(&final(self).filter) == filter_keys(&old(self).filter),
    {
        let mut attempts: usize = 0;
        while attempts < MAX_GENERATION_ATTEMPTS
            invariant
                self == old(self),
                old(self).wf(),
            decreases MAX_GENERATION_ATTEMPTS - attempts,
        {
            let id = self.generate_id();
            if !self.is_reserved(id.as_str()) {
                filter_insert(&mut self.filter, id.as_str());
                return Ok(id);
            }
            attempts = attempts + 1;
        }
        Err(AllocError::Exhausted)
    }

    /// Whether the write that is about to be served must first rebuild
    /// the filter (and clear the expired cache entries).
    pub fn due_for_rebuild(&self) -> (r: bool)
        ensures
            r == (self.post_request_counter == MAX_CACHE_KEYS_TO_RETAIN),
    {
        self.post_request_counter == MAX_CACHE_KEYS_TO_RETAIN
    }

    /// Counts one served upload; saturates rather than wraps.
    pub fn note_post_request(&mut self)
        requires
            old(self).wf(),
        ensures
            final(self).wf(),
            final(self).filter == old(self).filter,
            final(self).id_length == old(self).id_length,
            final(self).post_request_counter == if old(self).post_request_counter < usize::MAX {
                old(self).post_request_counter + 1
            } else {
                old(self).post_request_counter as int
            },
    {
        if self.post_request_counter < usize::MAX {
            self.post_request_counter = self.post_request_counter + 1;
        }
    }

    /// Starts a new counting epoch after a rebuild.
    pub fn reset_counter(&mut self)
        requires
            old(self).wf(),
        ensures
            final(self).wf(),
            final(self).filter == old(self).filter,
            final(self).id_length == old(self).id_length,
            final(self).post_request_counter == 0,
    {
        self.post_request_counter = 0;
    }
}

/// Identifiers reserved one after another in one filter epoch are
/// pairwise distinct: each was absent from the filter state it was
/// drawn against, and each reservation only grows that state.
pub proof fn lemma_reserved_ids_distinct(ids: Seq<Seq<char>>, states: Seq<Set<Seq<char>>>)
    requires
        states.len() == ids.len() + 1,
        forall|i: int|
            0 <= i < ids.len() ==> !states[i].contains(#[trigger] ids[i]) && states[i + 1]
                == states[i].insert(ids[i]),
    ensures
        forall|i: int, j: int| 0 <= i < j < ids.len() ==> ids[i] != ids[j],
{
    assert forall|i: int, j: int| 0 <= i < j < ids.len() implies ids[i] != ids[j] by {
        lemma_states_monotone(ids, states, i + 1, j);
        assert(states[i + 1].contains(ids[i]));
        assert(!states[j].contains(ids[j]));
    }
}

proof fn lemma_states_monotone(ids: Seq<Seq<char>>, states: Seq<Set<Seq<char>>>, k: int, l: int)
    requires
        states.len() == ids.len() + 1,
        0 <= k <= l < states.len(),
        forall|i: int|
            0 <= i < ids.len() ==> !states[i].contains(#[trigger] ids[i]) && states[i + 1]
                == states[i].insert(ids[i]),
    ensures
        states[k].subset_of(states[l]),
    decreases l - k,
{
    if k < l {
        lemma_states_monotone(ids, states, k, l - 1);
        assert(states[l] == states[l - 1].insert(ids[l - 1]));
    }
}

/// After a rebuild from the blob keys, no key of blob storage is
/// reported absent: every listed key is in the rebuilt filter's
/// contents, so the membership check answers true for it.
pub proof fn lemma_rebuild_no_false_negatives(upload_keys: Seq<String>, i: int)
    requires
        0 <= i < upload_keys.len(),
    ensures
        add_all(Set::<Seq<char>>::empty(), views(upload_keys)).contains(upload_keys[i]@),
{
    lemma_add_all_contains(Set::<Seq<char>>::empty(), views(upload_keys), upload_keys[i]@);
    assert(views(upload_keys)[i] == upload_keys[i]@);
}

} // verus!
