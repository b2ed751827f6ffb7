//! Fast sorting and grouping of signatures and values.
//!
//! A [`SigStore`] accepts `(signature, value)` entries in any order and
//! scatters them over `2^b` buckets by the high `b` bits of `h0`, counting
//! entries per prospective chunk as it goes.  [`SigStore::into_store`]
//! regroups the buckets into a [`ChunkStore`], an iterator of
//! [`ChunkIterator`]s; each of those sorts one group of buckets and yields
//! one `(chunk_index, entries)` pair per chunk, the entries strictly
//! increasing in signature — or the sentinel index `usize::MAX` when a
//! duplicate signature is found in the chunk.
//!
//! The buckets live in memory.  A store that spills them to scratch files,
//! and so handles keysets far beyond memory with sequential I/O, would keep
//! exactly this grouping logic and move only the byte traffic outside the
//! verified crate.

use vstd::prelude::*;

verus! {

use vstd::arithmetic::power2::pow2;
use vstd::multiset::Multiset;
use vstd::pervasive::VecAdditionalExecFns;
use crate::error::BuildError;
use crate::hash::{
    group_of, has_sig_dup, mask64, sig_eq, sig_le, sig_lt, sorted, strictly_sorted, SigVal,
};

/// Sum of the lengths of the bucket vectors with index in `[lo, hi)`.
pub open spec fn sum_lens(bs: Seq<Vec<SigVal>>, lo: int, hi: int) -> int
    decreases hi - lo,
{
    if hi <= lo {
        0
    } else {
        sum_lens(bs, lo, hi - 1) + bs[hi - 1]@.len()
    }
}

/// Sum of the counters with index in `[lo, hi)`.
pub open spec fn sum_range(s: Seq<usize>, lo: int, hi: int) -> int
    decreases hi - lo,
{
    if hi <= lo {
        0
    } else {
        sum_range(s, lo, hi - 1) + s[hi - 1]
    }
}

proof fn lemma_sum_range_nonneg(s: Seq<usize>, lo: int, hi: int)
    ensures
        sum_range(s, lo, hi) >= 0,
    decreases hi - lo,
{
    if hi > lo {
        lemma_sum_range_nonneg(s, lo, hi - 1);
    }
}

/// Adjacent ranges of counters sum to the whole.
proof fn lemma_sum_range_concat(s: Seq<usize>, lo: int, mid: int, hi: int)
    requires
        lo <= mid <= hi,
    ensures
        sum_range(s, lo, hi) == sum_range(s, lo, mid) + sum_range(s, mid, hi),
    decreases hi - mid,
{
    if hi > mid {
        lemma_sum_range_concat(s, lo, mid, hi - 1);
    }
}

/// A wider range of counters sums to no less.
proof fn lemma_sum_range_mono(s: Seq<usize>, lo: int, h1: int, h2: int)
    requires
        lo <= h1 <= h2,
    ensures
        sum_range(s, lo, h1) <= sum_range(s, lo, h2),
{
    lemma_sum_range_concat(s, lo, h1, h2);
    lemma_sum_range_nonneg(s, h1, h2);
}

/// Bumping one counter bumps the sum of every range containing it.
proof fn lemma_sum_range_update(s: Seq<usize>, lo: int, hi: int, i: int, v: usize)
    requires
        0 <= i < s.len(),
        0 <= lo,
        hi <= s.len(),
    ensures
        sum_range(s.update(i, v), lo, hi) == sum_range(s, lo, hi) + (if lo <= i < hi {
            v - s[i]
        } else {
            0int
        }),
    decreases hi - lo,
{
    if hi > lo {
        lemma_sum_range_update(s, lo, hi - 1, i, v);
        let upd = s.update(i, v);
        if i == hi - 1 {
            assert(upd[hi - 1] == v);
        } else {
            assert(upd[hi - 1] == s[hi - 1]);
        }
        assert(sum_range(upd, lo, hi) == sum_range(upd, lo, hi - 1) + upd[hi - 1]);
        assert(sum_range(s, lo, hi) == sum_range(s, lo, hi - 1) + s[hi - 1]);
    }
}

/// A counter never exceeds the sum of a range containing it.
proof fn lemma_sum_range_elem(s: Seq<usize>, lo: int, hi: int, i: int)
    requires
        lo <= i < hi,
    ensures
        s[i] <= sum_range(s, lo, hi),
{
    lemma_sum_range_concat(s, lo, i, i + 1);
    lemma_sum_range_concat(s, lo, i + 1, hi);
    lemma_sum_range_nonneg(s, lo, i);
    lemma_sum_range_nonneg(s, i + 1, hi);
}

proof fn lemma_sum_lens_nonneg(bs: Seq<Vec<SigVal>>, lo: int, hi: int)
    ensures
        sum_lens(bs, lo, hi) >= 0,
    decreases hi - lo,
{
    if hi > lo {
        lemma_sum_lens_nonneg(bs, lo, hi - 1);
    }
}

proof fn lemma_sum_lens_concat(bs: Seq<Vec<SigVal>>, lo: int, mid: int, hi: int)
    requires
        lo <= mid <= hi,
    ensures
        sum_lens(bs, lo, hi) == sum_lens(bs, lo, mid) + sum_lens(bs, mid, hi),
    decreases hi - mid,
{
    if hi > mid {
        lemma_sum_lens_concat(bs, lo, mid, hi - 1);
    }
}

/// Growing one bucket by one entry grows by one the length-sum of every
/// range containing it.
#[verifier::spinoff_prover]
proof fn lemma_sum_lens_update(bs: Seq<Vec<SigVal>>, lo: int, hi: int, i: int, nb: Vec<SigVal>)
    requires
        0 <= i < bs.len(),
        0 <= lo,
        hi <= bs.len(),
    ensures
        sum_lens(bs.update(i, nb), lo, hi) == sum_lens(bs, lo, hi) + (if lo <= i < hi {
            nb@.len() - bs[i]@.len()
        } else {
            0int
        }),
    decreases hi - lo,
{
    if hi > lo {
        lemma_sum_lens_update(bs, lo, hi - 1, i, nb);
        let upd = bs.update(i, nb);
        if i == hi - 1 {
            assert(upd[hi - 1] == nb);
        } else {
            assert(upd[hi - 1] == bs[hi - 1]);
        }
        assert(sum_lens(upd, lo, hi) == sum_lens(upd, lo, hi - 1) + upd[hi - 1]@.len());
        assert(sum_lens(bs, lo, hi) == sum_lens(bs, lo, hi - 1) + bs[hi - 1]@.len());
    }
}

/// Membership test for one chunk under `cbits` chunk-defining bits.
pub open spec fn in_chunk(cbits: u64, k: int) -> spec_fn(SigVal) -> bool {
    |sv: SigVal| crate::hash::spec_group(sv.h0, cbits) as int == k
}

/// Membership test for a contiguous run of chunks.
pub open spec fn in_chunk_range(cbits: u64, lo: int, hi: int) -> spec_fn(SigVal) -> bool {
    |sv: SigVal|
        lo <= (crate::hash::spec_group(sv.h0, cbits) as int) && (crate::hash::spec_group(
            sv.h0,
            cbits,
        ) as int) < hi
}

/// Multiset of the entries held in the buckets with index in `[lo, hi)`.
pub open spec fn ms_of_buckets(bs: Seq<Vec<SigVal>>, lo: int, hi: int) -> Multiset<SigVal>
    decreases hi - lo,
{
    if hi <= lo {
        Multiset::empty()
    } else {
        ms_of_buckets(bs, lo, hi - 1).add(bs[hi - 1]@.to_multiset())
    }
}

/// Adjacent runs of buckets hold, together, the union of their entries.
proof fn lemma_ms_buckets_concat(bs: Seq<Vec<SigVal>>, lo: int, mid: int, hi: int)
    requires
        lo <= mid <= hi,
    ensures
        ms_of_buckets(bs, lo, hi) == ms_of_buckets(bs, lo, mid).add(ms_of_buckets(bs, mid, hi)),
    decreases hi - mid,
{
    broadcast use vstd::multiset::group_multiset_axioms;

    if hi > mid {
        lemma_ms_buckets_concat(bs, lo, mid, hi - 1);
        assert(ms_of_buckets(bs, lo, mid).add(ms_of_buckets(bs, mid, hi - 1)).add(
            bs[hi - 1]@.to_multiset(),
        ) =~= ms_of_buckets(bs, lo, mid).add(
            ms_of_buckets(bs, mid, hi - 1).add(bs[hi - 1]@.to_multiset()),
        ));
    } else {
        assert(ms_of_buckets(bs, lo, mid).add(Multiset::empty()) =~= ms_of_buckets(bs, lo, mid));
    }
}

/// Appending one entry to one bucket inserts it into the union of every
/// range containing that bucket.
proof fn lemma_ms_buckets_update(
    bs: Seq<Vec<SigVal>>,
    lo: int,
    hi: int,
    i: int,
    nb: Vec<SigVal>,
    x: SigVal,
)
    requires
        0 <= lo,
        hi <= bs.len(),
        0 <= i < bs.len(),
        nb@.to_multiset() == bs[i]@.to_multiset().insert(x),
    ensures
        ms_of_buckets(bs.update(i, nb), lo, hi) == (if lo <= i < hi {
            ms_of_buckets(bs, lo, hi).insert(x)
        } else {
            ms_of_buckets(bs, lo, hi)
        }),
    decreases hi - lo,
{
    broadcast use vstd::multiset::group_multiset_axioms;

    if hi > lo {
        lemma_ms_buckets_update(bs, lo, hi - 1, i, nb, x);
        let upd = bs.update(i, nb);
        if i == hi - 1 {
            assert(upd[hi - 1] == nb);
            assert(ms_of_buckets(bs, lo, hi - 1).add(bs[i]@.to_multiset().insert(x))
                =~= ms_of_buckets(bs, lo, hi - 1).add(bs[i]@.to_multiset()).insert(x));
        } else {
            assert(upd[hi - 1] == bs[hi - 1]);
            if lo <= i {
                assert(ms_of_buckets(bs, lo, hi - 1).insert(x).add(bs[hi - 1]@.to_multiset())
                    =~= ms_of_buckets(bs, lo, hi - 1).add(bs[hi - 1]@.to_multiset()).insert(x));
            }
        }
    }
}

/// Inserting an entry grows exactly the filters whose test it passes.
proof fn lemma_ms_insert_filter(ms: Multiset<SigVal>, x: SigVal, f: spec_fn(SigVal) -> bool)
    ensures
        ms.insert(x).filter(f) == (if f(x) {
            ms.filter(f).insert(x)
        } else {
            ms.filter(f)
        }),
{
    broadcast use vstd::multiset::group_multiset_axioms;

    if f(x) {
        assert(ms.insert(x).filter(f) =~= ms.filter(f).insert(x));
    } else {
        assert(ms.insert(x).filter(f) =~= ms.filter(f));
    }
}

/// Inserting one entry grows the size by one.
proof fn lemma_ms_len_insert(ms: Multiset<SigVal>, x: SigVal)
    ensures
        ms.insert(x).len() == ms.len() + 1,
{
    broadcast use vstd::multiset::group_multiset_axioms;
}

/// A filter by a disjunction of disjoint tests splits into two filters.
proof fn lemma_ms_filter_split(
    ms: Multiset<SigVal>,
    fa: spec_fn(SigVal) -> bool,
    fb: spec_fn(SigVal) -> bool,
    fab: spec_fn(SigVal) -> bool,
)
    requires
        forall|y: SigVal| #[trigger] fab(y) == (fa(y) || fb(y)),
        forall|y: SigVal| !(#[trigger] fa(y) && fb(y)),
    ensures
        ms.filter(fab) == ms.filter(fa).add(ms.filter(fb)),
{
    broadcast use vstd::multiset::group_multiset_axioms;

    assert(ms.filter(fab) =~= ms.filter(fa).add(ms.filter(fb)));
}

/// Filters by pointwise-equal tests agree.
proof fn lemma_ms_filter_equiv(
    ms: Multiset<SigVal>,
    fa: spec_fn(SigVal) -> bool,
    fb: spec_fn(SigVal) -> bool,
)
    requires
        forall|y: SigVal| #[trigger] fa(y) == fb(y),
    ensures
        ms.filter(fa) == ms.filter(fb),
{
    broadcast use vstd::multiset::group_multiset_axioms;

    assert(ms.filter(fa) =~= ms.filter(fb));
}

/// A filter by an unsatisfiable test is empty.
proof fn lemma_ms_filter_none(ms: Multiset<SigVal>, f: spec_fn(SigVal) -> bool)
    requires
        forall|y: SigVal| !(#[trigger] f(y)),
    ensures
        ms.filter(f) == Multiset::<SigVal>::empty(),
        ms.filter(f).len() == 0,
{
    broadcast use vstd::multiset::group_multiset_axioms;

    assert(ms.filter(f) =~= Multiset::<SigVal>::empty());
}

/// Filtering the empty multiset yields the empty multiset.
proof fn lemma_ms_empty_filter(f: spec_fn(SigVal) -> bool)
    ensures
        Multiset::<SigVal>::empty().filter(f) == Multiset::<SigVal>::empty(),
        Multiset::<SigVal>::empty().filter(f).len() == 0,
{
    broadcast use vstd::multiset::group_multiset_axioms;

    assert(Multiset::<SigVal>::empty().filter(f) =~= Multiset::<SigVal>::empty());
}

/// A property of every entry of a sequence carries to any reordering.
proof fn lemma_ms_all(a: Seq<SigVal>, b: Seq<SigVal>, f: spec_fn(SigVal) -> bool)
    requires
        a.to_multiset() == b.to_multiset(),
        forall|p: int| 0 <= p < a.len() ==> f(#[trigger] a[p]),
    ensures
        forall|p: int| 0 <= p < b.len() ==> f(#[trigger] b[p]),
{
    broadcast use vstd::seq_lib::group_to_multiset_ensures;

    assert forall|p: int| 0 <= p < b.len() implies f(b[p]) by {
        assert(b.contains(b[p]));
        assert(b.to_multiset().count(b[p]) > 0);
        assert(a.contains(b[p]));
        let q = choose|q: int| 0 <= q < a.len() && a[q] == b[p];
        assert(f(a[q]));
    }
}

/// Pushing a bucket extends the union by that bucket's entries.
proof fn lemma_ms_buckets_prefix_push(old_b: Seq<Vec<SigVal>>, new_b: Seq<Vec<SigVal>>, n: int)
    requires
        0 <= n == old_b.len(),
        new_b == old_b.push(new_b[n]),
    ensures
        ms_of_buckets(new_b, 0, n + 1) == ms_of_buckets(old_b, 0, n).add(new_b[n]@.to_multiset()),
{
    lemma_ms_buckets_prefix_eq(old_b, new_b, n);
}

proof fn lemma_ms_buckets_prefix_eq(a: Seq<Vec<SigVal>>, b: Seq<Vec<SigVal>>, k: int)
    requires
        b == a.push(b[a.len() as int]),
        k <= a.len(),
    ensures
        ms_of_buckets(b, 0, k) == ms_of_buckets(a, 0, k),
    decreases k,
{
    if k > 0 {
        lemma_ms_buckets_prefix_eq(a, b, k - 1);
        assert(b[k - 1] == a[k - 1]);
    }
}

/// Relies on rayon's `par_sort_unstable_by_key`: reorders the elements of
/// the slice into ascending order of the extracted key; the key here is the
/// signature pair `(h0, h1)`, whose derived `Ord` is documented as
/// lexicographic.  Sorting permutes the slice, so the multiset of entries
/// is unchanged.
#[verifier::external_body]
pub(crate) fn sort_by_sig(v: &mut Vec<SigVal>)
    ensures
        final(v)@.len() == old(v)@.len(),
        final(v)@.to_multiset() == old(v)@.to_multiset(),
        sorted(final(v)@),
{
    rayon::slice::ParallelSliceMut::par_sort_unstable_by_key(v.as_mut_slice(), |sv| (sv.h0, sv.h1))
}

/// Reported when two entries of one chunk carry the same signature.
#[derive(Debug, PartialEq, Eq, Structural)]
pub struct DuplicateSigError {}

impl DuplicateSigError {
    /// A human-readable description of the error.
    pub fn message(&self) -> (r: &'static str)
        ensures
            r@ == "Duplicate signature detected"@,
    {
        proof {
            reveal_strlit("Duplicate signature detected");
        }
        "Duplicate signature detected"
    }
}

/// Sorts key signatures and their values into `2^b` in-memory buckets by
/// the high `b` bits of `h0`, counting entries per prospective chunk.
pub struct SigStore {
    /// Number of entries added so far.
    num_keys: usize,
    /// The number of high bits used for bucket sorting.
    buckets_high_bits: u32,
    /// The most chunk-defining high bits a later [`SigStore::into_store`]
    /// may ask for.
    max_chunk_high_bits: u32,
    /// A mask with the lowest `buckets_high_bits` bits set.
    buckets_mask: u64,
    /// A mask with the lowest `max_chunk_high_bits` bits set.
    max_chunk_mask: u64,
    /// The buckets.
    buckets: Vec<Vec<SigVal>>,
    /// The number of entries in each prospective chunk.
    counts: Vec<usize>,
}

impl SigStore {
    /// The store counts its entries consistently across buckets and chunk
    /// counters.
    pub closed spec fn wf(self) -> bool {
        &&& self.buckets_high_bits <= 30
        &&& self.max_chunk_high_bits <= 30
        &&& self.buckets_mask == mask64(self.buckets_high_bits as u64)
        &&& self.max_chunk_mask == mask64(self.max_chunk_high_bits as u64)
        &&& self.buckets@.len() == (1usize << self.buckets_high_bits)
        &&& self.counts@.len() == (1usize << self.max_chunk_high_bits)
        &&& sum_lens(self.buckets@, 0, self.buckets@.len() as int) == self.num_keys
        &&& sum_range(self.counts@, 0, self.counts@.len() as int) == self.num_keys
        &&& forall|i: int, p: int|
            #![trigger self.buckets@[i]@[p]]
            0 <= i < self.buckets@.len() && 0 <= p < self.buckets@[i]@.len()
                ==> crate::hash::spec_group(
                self.buckets@[i]@[p].h0,
                self.buckets_high_bits as u64,
            ) as int == i
        &&& forall|k: int|
            0 <= k < self.counts@.len() ==> (#[trigger] self.counts@[k]) as int
                == self.spec_contents().filter(
                in_chunk(self.max_chunk_high_bits as u64, k),
            ).len()
    }

    /// The buckets, as ghost sequences.
    pub closed spec fn spec_buckets(self) -> Seq<Vec<SigVal>> {
        self.buckets@
    }

    /// The entries of one bucket, in insertion order.
    pub closed spec fn spec_bucket(self, i: int) -> Seq<SigVal> {
        self.buckets@[i]@
    }

    /// Every entry the store holds, as a multiset.
    pub closed spec fn spec_contents(self) -> Multiset<SigVal> {
        ms_of_buckets(self.buckets@, 0, self.buckets@.len() as int)
    }

    /// The push-time counter of one prospective chunk.
    pub closed spec fn spec_chunk_count(self, k: int) -> int {
        self.counts@[k] as int
    }

    /// Number of entries pushed so far.
    pub closed spec fn spec_num_keys(self) -> int {
        self.num_keys as int
    }

    /// The number of high bits used for bucket sorting.
    pub closed spec fn spec_bucket_bits(self) -> u32 {
        self.buckets_high_bits
    }

    /// The most chunk-defining high bits `into_store` may ask for.
    pub closed spec fn spec_max_chunk_bits(self) -> u32 {
        self.max_chunk_high_bits
    }

    /// Create a store with `2^buckets_high_bits` buckets, counting entries
    /// for chunks defined by at most `max_chunk_high_bits` high bits.
    pub fn new(buckets_high_bits: u32, max_chunk_high_bits: u32) -> (r: SigStore)
        requires
            buckets_high_bits <= 30,
            max_chunk_high_bits <= 30,
        ensures
            r.wf(),
            r.spec_num_keys() == 0,
            r.spec_bucket_bits() == buckets_high_bits,
            r.spec_max_chunk_bits() == max_chunk_high_bits,
            r.spec_contents() == Multiset::<SigVal>::empty(),
    {
        let nb: usize = 1usize << buckets_high_bits;
        let nc: usize = 1usize << max_chunk_high_bits;
        let mut buckets: Vec<Vec<SigVal>> = Vec::new();
        let mut i: usize = 0;
        while i < nb
            invariant
                i <= nb,
                buckets@.len() == i,
                sum_lens(buckets@, 0, i as int) == 0,
                ms_of_buckets(buckets@, 0, i as int) == Multiset::<SigVal>::empty(),
                forall|j: int| 0 <= j < i ==> (#[trigger] buckets@[j])@.len() == 0,
            decreases nb - i,
        {
            let ghost old_buckets = buckets@;
            buckets.push(Vec::new());
            proof {
                broadcast use vstd::multiset::group_multiset_axioms;
                broadcast use vstd::seq_lib::group_to_multiset_ensures;

                lemma_sum_lens_push(old_buckets, buckets@, i as int);
                lemma_ms_buckets_prefix_push(old_buckets, buckets@, i as int);
                assert(buckets@[i as int]@.to_multiset().len() == 0);
                vstd::multiset::lemma_multiset_empty_len(buckets@[i as int]@.to_multiset());
                assert(Multiset::<SigVal>::empty().add(Multiset::<SigVal>::empty())
                    =~= Multiset::<SigVal>::empty());
            }
            i = i + 1;
        }
        let mut counts: Vec<usize> = Vec::new();
        let mut k: usize = 0;
        while k < nc
            invariant
                k <= nc,
                counts@.len() == k,
                sum_range(counts@, 0, k as int) == 0,
                forall|j: int| 0 <= j < k ==> counts@[j] == 0usize,
            decreases nc - k,
        {
            let ghost old_counts = counts@;
            counts.push(0usize);
            proof {
                lemma_sum_range_push(old_counts, counts@, k as int);
            }
            k = k + 1;
        }
        proof {
            lemma_mask_fits(buckets_high_bits as u64);
            lemma_mask_fits(max_chunk_high_bits as u64);
            broadcast use vstd::multiset::group_multiset_axioms;

            assert forall|k: int| 0 <= k < nc implies ms_of_buckets(buckets@, 0, nb as int).filter(
                #[trigger] in_chunk(max_chunk_high_bits as u64, k),
            ).len() == 0 by {
                lemma_ms_empty_filter(in_chunk(max_chunk_high_bits as u64, k));
            }
        }
        SigStore {
            num_keys: 0,
            buckets_high_bits,
            max_chunk_high_bits,
            buckets_mask: (1u64 << buckets_high_bits) - 1,
            max_chunk_mask: (1u64 << max_chunk_high_bits) - 1,
            buckets,
            counts,
        }
    }

    /// Add one signature and value to the store: append it to the bucket of
    /// the high bucket bits of `h0` and count it for its prospective chunk.
    pub fn push(&mut self, value: &SigVal)
        requires
            old(self).wf(),
            old(self).spec_num_keys() < usize::MAX,
        ensures
            final(self).wf(),
            final(self).spec_num_keys() == old(self).spec_num_keys() + 1,
            final(self).spec_bucket_bits() == old(self).spec_bucket_bits(),
            final(self).spec_max_chunk_bits() == old(self).spec_max_chunk_bits(),
            final(self).spec_contents() == old(self).spec_contents().insert(*value),
            final(self).spec_bucket(
                crate::hash::spec_group(value.h0, old(self).spec_bucket_bits() as u64) as int,
            ) == old(self).spec_bucket(
                crate::hash::spec_group(value.h0, old(self).spec_bucket_bits() as u64) as int,
            ).push(*value),
            forall|i: int|
                0 <= i < old(self).spec_buckets().len() && i != crate::hash::spec_group(
                    value.h0,
                    old(self).spec_bucket_bits() as u64,
                ) as int ==> final(self).spec_bucket(i) == old(self).spec_bucket(i),
            final(self).spec_chunk_count(
                crate::hash::spec_group(value.h0, old(self).spec_max_chunk_bits() as u64) as int,
            ) == old(self).spec_chunk_count(
                crate::hash::spec_group(value.h0, old(self).spec_max_chunk_bits() as u64) as int,
            ) + 1,
            forall|k: int|
                0 <= k < (1usize << old(self).spec_max_chunk_bits()) && k != crate::hash::spec_group(
                    value.h0,
                    old(self).spec_max_chunk_bits() as u64,
                ) as int ==> final(self).spec_chunk_count(k) == old(self).spec_chunk_count(k),
    {
        proof {
            lemma_group_fits(value.h0, self.buckets_high_bits as u64);
            lemma_group_fits(value.h0, self.max_chunk_high_bits as u64);
        }
        let bucket = group_of(value.h0, self.buckets_high_bits as u64) as usize;
        let chunk = group_of(value.h0, self.max_chunk_high_bits as u64) as usize;
        let ghost old_buckets = self.buckets@;
        let ghost old_counts = self.counts@;
        let ghost old_contents = self.spec_contents();
        self.buckets[bucket].push(*value);
        proof {
            broadcast use vstd::seq_lib::group_to_multiset_ensures;
            broadcast use vstd::multiset::group_multiset_axioms;

            lemma_sum_lens_update(
                old_buckets,
                0,
                old_buckets.len() as int,
                bucket as int,
                self.buckets@[bucket as int],
            );
            lemma_ms_buckets_update(
                old_buckets,
                0,
                old_buckets.len() as int,
                bucket as int,
                self.buckets@[bucket as int],
                *value,
            );
            assert forall|i: int, p: int|
                #![trigger self.buckets@[i]@[p]]
                0 <= i < self.buckets@.len() && 0 <= p < self.buckets@[i]@.len()
                    implies crate::hash::spec_group(
                self.buckets@[i]@[p].h0,
                self.buckets_high_bits as u64,
            ) as int == i by {
                if i == bucket as int && p == self.buckets@[i]@.len() - 1 {
                } else {
                    assert(self.buckets@[i]@[p] == old_buckets[i]@[p]);
                }
            }
        }
        proof {
            lemma_sum_range_elem(old_counts, 0, old_counts.len() as int, chunk as int);
        }
        let c0 = self.counts[chunk];
        self.counts.set(chunk, c0 + 1);
        proof {
            lemma_sum_range_update(
                old_counts,
                0,
                old_counts.len() as int,
                chunk as int,
                (c0 + 1) as usize,
            );
        }
        self.num_keys = self.num_keys + 1;
        proof {
            assert(self.spec_contents() == old_contents.insert(*value));
            assert forall|k: int| 0 <= k < self.counts@.len() implies (
            #[trigger] self.counts@[k]) as int == self.spec_contents().filter(
                in_chunk(self.max_chunk_high_bits as u64, k),
            ).len() by {
                lemma_ms_insert_filter(
                    old_contents,
                    *value,
                    in_chunk(self.max_chunk_high_bits as u64, k),
                );
                if k == chunk as int {
                    lemma_ms_len_insert(
                        old_contents.filter(in_chunk(self.max_chunk_high_bits as u64, k)),
                        *value,
                    );
                }
            }
        }
    }

    /// Add several entries to the store.
    pub fn extend(&mut self, values: &Vec<SigVal>)
        requires
            old(self).wf(),
            old(self).spec_num_keys() + values@.len() <= usize::MAX,
        ensures
            final(self).wf(),
            final(self).spec_num_keys() == old(self).spec_num_keys() + values@.len(),
            final(self).spec_bucket_bits() == old(self).spec_bucket_bits(),
            final(self).spec_max_chunk_bits() == old(self).spec_max_chunk_bits(),
    {
        let mut i: usize = 0;
        while i < values.len()
            invariant
                i <= values@.len(),
                self.wf(),
                self.spec_num_keys() == old(self).spec_num_keys() + i,
                old(self).spec_num_keys() + values@.len() <= usize::MAX,
                self.spec_bucket_bits() == old(self).spec_bucket_bits(),
                self.spec_max_chunk_bits() == old(self).spec_max_chunk_bits(),
            decreases values@.len() - i,
        {
            self.push(&values[i]);
            i = i + 1;
        }
    }

    /// The number of entries added to the store so far.
    pub fn num_keys(&self) -> (r: usize)
        ensures
            r == self.spec_num_keys(),
    {
        self.num_keys
    }

    /// Flush the store into a [`ChunkStore`] whose chunks are defined by the
    /// `chunk_high_bits` high bits of the signatures, together with the
    /// sizes of all the chunks.  Asking for more chunk bits than the store
    /// was created with is an invalid configuration.
    #[verifier::spinoff_prover]
    #[verifier::rlimit(100)]
    pub fn into_store(self, chunk_high_bits: u32) -> (r: Result<
        (ChunkStore, Vec<usize>),
        BuildError,
    >)
        requires
            self.wf(),
        ensures
            chunk_high_bits > self.spec_max_chunk_bits() <==> r is Err,
            r matches Err(e) ==> e == BuildError::InvalidConfig,
            r matches Ok(p) ==> {
                &&& p.0.wf()
                &&& p.0.spec_chunk_bits() == chunk_high_bits
                &&& p.0.spec_bucket_bits() == self.spec_bucket_bits()
                &&& p.0.spec_chunks_left() == (1usize << chunk_high_bits)
                &&& p.0.spec_entries_left() == self.spec_num_keys()
                &&& p.0.spec_contents() == self.spec_contents()
                &&& p.0.spec_chunk_sizes() == p.1@
                &&& p.1@.len() == (1usize << chunk_high_bits)
                &&& sum_range(p.1@, 0, p.1@.len() as int) == self.spec_num_keys()
                &&& forall|i: int|
                    0 <= i < p.1@.len() ==> (#[trigger] p.1@[i]) as int
                        == self.spec_contents().filter(
                        in_chunk(chunk_high_bits as u64, i),
                    ).len()
            },
    {
        if chunk_high_bits > self.max_chunk_high_bits {
            return Err(BuildError::InvalidConfig);
        }
        let d: u32 = self.max_chunk_high_bits - chunk_high_bits;
        let nc: usize = 1usize << chunk_high_bits;
        let block: usize = 1usize << d;
        proof {
            lemma_shift_product(chunk_high_bits, d);
        }
        let mut sizes: Vec<usize> = Vec::new();
        let mut k: usize = 0;
        while k < nc
            invariant
                k <= nc,
                self.wf(),
                sizes@.len() == k,
                block == (1usize << d),
                nc == (1usize << chunk_high_bits),
                chunk_high_bits + d == self.spec_max_chunk_bits(),
                chunk_high_bits <= 30,
                d <= 30,
                (k as int) * (block as int) <= self.spec_counts_len(),
                (nc as int) * (block as int) == self.spec_counts_len(),
                sum_range(sizes@, 0, k as int) == self.spec_counts_prefix((k as int) * (
                block as int)),
                forall|i: int|
                    0 <= i < k ==> (#[trigger] sizes@[i]) as int == self.spec_contents().filter(
                        in_chunk(chunk_high_bits as u64, i),
                    ).len(),
            decreases nc - k,
        {
            let mut acc: usize = 0;
            let mut j: usize = 0;
            proof {
                assert((k as int + 1) * (block as int) == (k as int) * (block as int)
                    + block as int) by (nonlinear_arith);
                assert((k as int + 1) <= nc as int ==> (k as int + 1) * (block as int) <= (
                nc as int) * (block as int)) by (nonlinear_arith)
                    requires
                        block as int >= 0,
                ;
            }
            let base = k * block;
            proof {
                lemma_ms_empty_filter(in_chunk_range(self.max_chunk_high_bits as u64, base as int, base as int));
                assert forall|y: SigVal|
                    !(#[trigger] in_chunk_range(
                        self.max_chunk_high_bits as u64,
                        base as int,
                        base as int,
                    )(y)) by {}
                lemma_ms_filter_none(
                    self.spec_contents(),
                    in_chunk_range(self.max_chunk_high_bits as u64, base as int, base as int),
                );
            }
            while j < block
                invariant
                    j <= block,
                    self.wf(),
                    base == k * block,
                    base + block <= self.spec_counts_len(),
                    acc == self.spec_counts_range(base as int, base as int + j as int),
                    acc as int == self.spec_contents().filter(
                        in_chunk_range(
                            self.spec_max_chunk_bits() as u64,
                            base as int,
                            base as int + j as int,
                        ),
                    ).len(),
                decreases block - j,
            {
                proof {
                    self.lemma_counts_step(base as int, j as int);
                    lemma_sum_range_mono(
                        self.spec_counts(),
                        base as int,
                        base as int + j as int + 1,
                        self.spec_counts_len(),
                    );
                    lemma_sum_range_concat(self.spec_counts(), 0, base as int, self.spec_counts_len());
                    lemma_sum_range_nonneg(self.spec_counts(), 0, base as int);
                    let cb64 = self.spec_max_chunk_bits() as u64;
                    assert forall|y: SigVal|
                        #[trigger] in_chunk_range(cb64, base as int, base as int + j as int + 1)(y)
                            == (in_chunk_range(cb64, base as int, base as int + j as int)(y)
                            || in_chunk(cb64, base as int + j as int)(y)) by {}
                    assert forall|y: SigVal|
                        !(#[trigger] in_chunk_range(cb64, base as int, base as int + j as int)(y)
                            && in_chunk(cb64, base as int + j as int)(y)) by {}
                    lemma_ms_filter_split(
                        self.spec_contents(),
                        in_chunk_range(cb64, base as int, base as int + j as int),
                        in_chunk(cb64, base as int + j as int),
                        in_chunk_range(cb64, base as int, base as int + j as int + 1),
                    );
                    broadcast use vstd::multiset::group_multiset_axioms;
                }
                acc = acc + self.count_at(base + j);
                j = j + 1;
            }
            proof {
                let cb64 = self.spec_max_chunk_bits() as u64;
                let c64 = chunk_high_bits as u64;
                lemma_shl_pow2(d);
                assert forall|y: SigVal|
                    #[trigger] in_chunk_range(cb64, base as int, base as int + block as int)(y)
                        == in_chunk(c64, k as int)(y) by {
                    crate::hash::lemma_group_block(
                        y.h0,
                        self.spec_max_chunk_bits() as u64,
                        c64,
                        k as u64,
                    );
                    assert((k as int) * (block as int) == base as int);
                    assert((k as int + 1) * (block as int) == base as int + block as int)
                        by (nonlinear_arith)
                        requires
                            base as int == (k as int) * (block as int),
                    ;
                }
                lemma_ms_filter_equiv(
                    self.spec_contents(),
                    in_chunk_range(cb64, base as int, base as int + block as int),
                    in_chunk(c64, k as int),
                );
            }
            let ghost old_sizes = sizes@;
            sizes.push(acc);
            proof {
                lemma_sum_range_push(old_sizes, sizes@, k as int);
                self.lemma_counts_concat((k as int) * (block as int), block as int);
            }
            k = k + 1;
        }
        proof {
            self.lemma_counts_total();
            lemma_pow_pos(self.spec_bucket_bits());
            lemma_pow_pos(chunk_high_bits);
        }
        let store = ChunkStore {
            bucket_high_bits: self.buckets_high_bits,
            chunk_high_bits,
            buckets: self.buckets,
            chunk_sizes: clone_sizes(&sizes),
            next_chunk: 0,
            next_bucket: 0,
        };
        proof {
            assert forall|i: int, p: int|
                #![trigger store.buckets@[i]@[p]]
                0 <= i < store.buckets@.len() && 0 <= p < store.buckets@[i]@.len()
                    implies crate::hash::spec_group(
                store.buckets@[i]@[p].h0,
                store.bucket_high_bits as u64,
            ) as int == i by {
                assert(store.buckets@[i]@[p] == self.buckets@[i]@[p]);
            }
            assert(store.bucket_high_bits <= 30);
            assert(store.chunk_high_bits <= 30);
            assert(store.buckets@.len() == (1usize << store.bucket_high_bits));
            assert(store.chunk_sizes@.len() == (1usize << store.chunk_high_bits));
            assert(store.next_chunk <= store.chunk_sizes@.len());
            assert(store.next_bucket <= store.buckets@.len());
            assert((store.next_chunk as int) * ((1usize << store.bucket_high_bits) as int) == (
            store.next_bucket as int) * ((1usize << store.chunk_high_bits) as int));
            assert(store.next_chunk == store.chunk_sizes@.len() <==> store.next_bucket
                == store.buckets@.len());
            assert(if store.bucket_high_bits >= store.chunk_high_bits {
                store.next_bucket as int == (store.next_chunk as int) * ((1usize << ((
                store.bucket_high_bits - store.chunk_high_bits) as u32)) as int)
            } else {
                store.next_chunk as int == (store.next_bucket as int) * ((1usize << ((
                store.chunk_high_bits - store.bucket_high_bits) as u32)) as int)
            });
            assert(store.wf());
            assert(store.spec_chunk_sizes() == sizes@);
            assert(store.spec_contents() == self.spec_contents());
            assert(store.spec_chunks_left() == (1usize << chunk_high_bits));
            assert(store.spec_entries_left() == self.spec_num_keys());
            assert(forall|i: int|
                0 <= i < sizes@.len() ==> (#[trigger] sizes@[i]) as int
                    == self.spec_contents().filter(in_chunk(chunk_high_bits as u64, i)).len());
        }
        Ok((store, sizes))
    }

    /// Read one chunk counter.
    fn count_at(&self, i: usize) -> (r: usize)
        requires
            self.wf(),
            i < self.spec_counts_len(),
        ensures
            r == self.spec_count_at(i as int),
            r <= self.spec_num_keys(),
    {
        proof {
            lemma_sum_range_elem(self.counts@, 0, self.counts@.len() as int, i as int);
        }
        self.counts[i]
    }

    /// The chunk counters.
    pub closed spec fn spec_counts(self) -> Seq<usize> {
        self.counts@
    }

    /// Number of chunk counters.
    pub closed spec fn spec_counts_len(self) -> int {
        self.counts@.len() as int
    }

    /// One chunk counter.
    pub closed spec fn spec_count_at(self, i: int) -> usize {
        self.counts@[i]
    }

    /// Sum of the chunk counters below `n`.
    pub closed spec fn spec_counts_prefix(self, n: int) -> int {
        sum_range(self.counts@, 0, n)
    }

    /// Sum of the chunk counters in `[lo, lo + len)`.
    pub closed spec fn spec_counts_range(self, lo: int, hi: int) -> int {
        sum_range(self.counts@, lo, hi)
    }

    proof fn lemma_counts_step(self, base: int, j: int)
        requires
            0 <= base,
            0 <= j,
            base + j < self.spec_counts_len(),
        ensures
            self.spec_counts_range(base, base + j + 1) == self.spec_counts_range(base, base + j)
                + self.spec_count_at(base + j),
            self.spec_counts_range(base, base + j) >= 0,
    {
        lemma_sum_range_nonneg(self.counts@, base, base + j);
    }

    proof fn lemma_counts_concat(self, base: int, len: int)
        requires
            0 <= base,
            0 <= len,
        ensures
            self.spec_counts_prefix(base + len) == self.spec_counts_prefix(base)
                + self.spec_counts_range(base, base + len),
    {
        lemma_sum_range_concat(self.counts@, 0, base, base + len);
    }

    proof fn lemma_counts_total(self)
        requires
            self.wf(),
        ensures
            self.spec_counts_prefix(self.spec_counts_len()) == self.spec_num_keys(),
    {
    }
}

/// Copy a vector of sizes.
fn clone_sizes(v: &Vec<usize>) -> (r: Vec<usize>)
    ensures
        r@ == v@,
{
    let mut r: Vec<usize> = Vec::new();
    let mut i: usize = 0;
    while i < v.len()
        invariant
            i <= v@.len(),
            r@ == v@.take(i as int),
        decreases v@.len() - i,
    {
        r.push(v[i]);
        proof {
            assert(v@.take(i as int + 1) =~= v@.take(i as int).push(v@[i as int]));
        }
        i = i + 1;
    }
    proof {
        assert(v@.take(v@.len() as int) =~= v@);
    }
    r
}

/// Pushing one element extends a prefix sum by that element.
proof fn lemma_sum_range_push(old_s: Seq<usize>, new_s: Seq<usize>, n: int)
    requires
        0 <= n == old_s.len(),
        new_s == old_s.push(new_s[n]),
    ensures
        sum_range(new_s, 0, n + 1) == sum_range(old_s, 0, n) + new_s[n],
{
    lemma_sum_range_push_prefix(old_s, new_s, n);
}

proof fn lemma_sum_range_push_prefix(old_s: Seq<usize>, new_s: Seq<usize>, k: int)
    requires
        new_s == old_s.push(new_s[old_s.len() as int]),
        k <= old_s.len(),
    ensures
        sum_range(new_s, 0, k) == sum_range(old_s, 0, k),
    decreases k,
{
    if k > 0 {
        lemma_sum_range_push_prefix(old_s, new_s, k - 1);
        assert(new_s[k - 1] == old_s[k - 1]);
    }
}

proof fn lemma_sum_lens_push(old_b: Seq<Vec<SigVal>>, new_b: Seq<Vec<SigVal>>, n: int)
    requires
        0 <= n == old_b.len(),
        new_b == old_b.push(new_b[n]),
    ensures
        sum_lens(new_b, 0, n + 1) == sum_lens(old_b, 0, n) + new_b[n]@.len(),
{
    lemma_sum_lens_push_prefix(old_b, new_b, n);
}

proof fn lemma_sum_lens_push_prefix(a: Seq<Vec<SigVal>>, b: Seq<Vec<SigVal>>, k: int)
    requires
        b == a.push(b[a.len() as int]),
        k <= a.len(),
    ensures
        sum_lens(b, 0, k) == sum_lens(a, 0, k),
    decreases k,
{
    if k > 0 {
        lemma_sum_lens_push_prefix(a, b, k - 1);
        assert(b[k - 1] == a[k - 1]);
    }
}

/// A mask of at most 30 bits stays below `2^31`, so group numbers fit a
/// `usize` of any width.
proof fn lemma_mask_fits(n: u64)
    requires
        n <= 30,
    ensures
        mask64(n) < 0x40000000u64,
        (1u64 << n) >= 1,
        mask64(n) == ((1u64 << n) - 1) as u64,
{
    assert(n <= 30 ==> ((((1u64 << n) as u64) - 1) as u64) < 0x40000000u64 && (1u64 << n) >= 1)
        by (bit_vector);
}

/// The group of a word under at most 30 bits indexes its vector.
proof fn lemma_group_fits(h0: u64, n: u64)
    requires
        n <= 30,
    ensures
        crate::hash::spec_group(h0, n) < (1u64 << n),
        crate::hash::spec_group(h0, n) < 0x40000000u64,
        (1u64 << n) == (1usize << n) as u64,
{
    crate::hash::lemma_group_le_mask(h0, n);
    lemma_mask_fits(n);
    assert(n <= 30 ==> (1u64 << n) <= 0x40000000u64) by (bit_vector);
    assert((1usize << n) as u64 == (1u64 << n)) by (bit_vector)
        requires
            n <= 30,
    ;
}

/// A small shifted one equals the mathematical power of two.
proof fn lemma_shl_pow2(d: u32)
    requires
        d <= 30,
    ensures
        (1usize << d) as int == vstd::arithmetic::power2::pow2(d as nat) as int,
{
    vstd::arithmetic::power2::lemma2_to64();
    vstd::bits::lemma_u64_shl_is_mul(1u64, d as u64);
    assert((1usize << d) as u64 == (1u64 << (d as u64))) by (bit_vector)
        requires
            d <= 30,
    ;
}

/// A small power of two is at least one.
proof fn lemma_pow_pos(x: u32)
    requires
        x <= 30,
    ensures
        (1usize << x) >= 1,
{
    let x64 = x as u64;
    assert((1usize << x) as u64 == (1u64 << x64) && (1u64 << x64) >= 1) by (bit_vector)
        requires
            x64 <= 30 && x64 == x,
    ;
}

/// `2^c * 2^d == 2^(c+d)` on vector indices.
proof fn lemma_shift_product(c: u32, d: u32)
    requires
        c + d <= 30,
    ensures
        ((1usize << c) as int) * ((1usize << d) as int) == (1usize << ((c + d) as u32)) as int,
        (1usize << c) >= 1,
        (1usize << d) >= 1,
{
    let c64 = c as u64;
    let d64 = d as u64;
    assert(c64 + d64 <= 30 ==> ((1u64 << c64) as int) * ((1u64 << d64) as int) == ((1u64 << ((c64
        + d64) as u64)) as int) && (1u64 << c64) >= 1 && (1u64 << d64) >= 1) by (bit_vector);
    assert((1usize << c) as u64 == (1u64 << c64) && (1usize << d) as u64 == (1u64 << d64) && (1usize
        << ((c + d) as u32)) as u64 == (1u64 << ((c64 + d64) as u64))) by (bit_vector)
        requires
            c64 + d64 <= 30 && c64 == c && d64 == d,
    ;
}

/// An iterator over the iterators on chunks of a [`SigStore`]: each call of
/// [`ChunkStore::next`] hands out one [`ChunkIterator`] owning the sorted
/// entries of one group of buckets, covering one or more whole chunks.
pub struct ChunkStore {
    /// The number of high bits used for bucket sorting.
    bucket_high_bits: u32,
    /// The number of high bits defining a chunk.
    chunk_high_bits: u32,
    /// The buckets, in bucket order; consumed from the front.
    buckets: Vec<Vec<SigVal>>,
    /// The number of entries in each chunk.
    chunk_sizes: Vec<usize>,
    /// The next chunk to hand out.
    next_chunk: usize,
    /// The next bucket to consume.
    next_bucket: usize,
}

impl ChunkStore {
    /// Cursors and sizes are consistent: buckets and chunks are consumed in
    /// step.
    pub closed spec fn wf(self) -> bool {
        &&& self.bucket_high_bits <= 30
        &&& self.chunk_high_bits <= 30
        &&& self.buckets@.len() == (1usize << self.bucket_high_bits)
        &&& self.chunk_sizes@.len() == (1usize << self.chunk_high_bits)
        &&& self.next_chunk <= self.chunk_sizes@.len()
        &&& self.next_bucket <= self.buckets@.len()
        &&& (self.next_chunk as int) * ((1usize << self.bucket_high_bits) as int) == (
        self.next_bucket as int) * ((1usize << self.chunk_high_bits) as int)
        &&& (self.next_chunk == self.chunk_sizes@.len() <==> self.next_bucket
            == self.buckets@.len())
        &&& (if self.bucket_high_bits >= self.chunk_high_bits {
            self.next_bucket as int == (self.next_chunk as int) * ((1usize << ((
            self.bucket_high_bits - self.chunk_high_bits) as u32)) as int)
        } else {
            self.next_chunk as int == (self.next_bucket as int) * ((1usize << ((
            self.chunk_high_bits - self.bucket_high_bits) as u32)) as int)
        })
        &&& forall|i: int, p: int|
            #![trigger self.buckets@[i]@[p]]
            0 <= i < self.buckets@.len() && 0 <= p < self.buckets@[i]@.len()
                ==> crate::hash::spec_group(
                self.buckets@[i]@[p].h0,
                self.bucket_high_bits as u64,
            ) as int == i
    }

    /// The number of high bits defining a chunk.
    pub closed spec fn spec_chunk_bits(self) -> u32 {
        self.chunk_high_bits
    }

    /// The number of high bits used for bucket sorting.
    pub closed spec fn spec_bucket_bits(self) -> u32 {
        self.bucket_high_bits
    }

    /// How many chunks have not been handed out yet.
    pub closed spec fn spec_chunks_left(self) -> int {
        self.chunk_sizes@.len() - self.next_chunk
    }

    /// How many entries sit in the buckets not handed out yet.
    pub closed spec fn spec_entries_left(self) -> int {
        sum_lens(self.buckets@, self.next_bucket as int, self.buckets@.len() as int)
    }

    /// Every entry still held, as a multiset: the union of the buckets not
    /// yet handed out.
    pub closed spec fn spec_contents(self) -> Multiset<SigVal> {
        ms_of_buckets(self.buckets@, self.next_bucket as int, self.buckets@.len() as int)
    }

    /// The sizes of all the chunks, as counted at push time.
    pub fn chunk_sizes(&self) -> (r: &Vec<usize>)
        ensures
            r@ == self.spec_chunk_sizes(),
    {
        &self.chunk_sizes
    }

    /// The sizes of all the chunks.
    pub closed spec fn spec_chunk_sizes(self) -> Seq<usize> {
        self.chunk_sizes@
    }

    /// Hand out the iterator of the next group: the smallest run of whole
    /// buckets covering whole chunks.  Returns `None` when every bucket has
    /// been consumed.
    pub fn next(&mut self) -> (r: Option<ChunkIterator>)
        requires
            old(self).wf(),
        ensures
            final(self).wf(),
            final(self).spec_chunk_bits() == old(self).spec_chunk_bits(),
            final(self).spec_bucket_bits() == old(self).spec_bucket_bits(),
            final(self).spec_chunk_sizes() == old(self).spec_chunk_sizes(),
            r is None <==> old(self).spec_chunks_left() == 0,
            r is None ==> *final(self) == *old(self),
            final(self).spec_chunks_left() >= 0,
            r matches Some(it) ==> {
                &&& it.wf()
                &&& it.spec_chunk_bits() == old(self).spec_chunk_bits()
                &&& it.spec_first_chunk() == (1usize << old(self).spec_chunk_bits())
                    - old(self).spec_chunks_left()
                &&& it.spec_chunks_left() == it.spec_num_chunks()
                &&& old(self).spec_chunks_left() - final(self).spec_chunks_left()
                    == it.spec_num_chunks()
                &&& it.spec_num_chunks() >= 1
                &&& (old(self).spec_bucket_bits() >= old(self).spec_chunk_bits()
                    ==> it.spec_num_chunks() == 1)
                &&& (old(self).spec_bucket_bits() < old(self).spec_chunk_bits()
                    ==> it.spec_num_chunks() == (1usize << ((old(self).spec_chunk_bits() - old(self).spec_bucket_bits()) as u32)))
                &&& old(self).spec_entries_left() - final(self).spec_entries_left()
                    == it.spec_entries()
                &&& old(self).spec_contents() == final(self).spec_contents().add(
                    it.spec_contents(),
                )
            },
    {
        if self.next_bucket == self.buckets.len() {
            return None;
        }
        let b = self.bucket_high_bits;
        let c = self.chunk_high_bits;
        let first = self.next_chunk;
        let (g_buckets, g_chunks) = if b >= c {
            (1usize << (b - c), 1usize)
        } else {
            (1usize, 1usize << (c - b))
        };
        proof {
            if b >= c {
                lemma_shift_product(c, (b - c) as u32);
            } else {
                lemma_shift_product(b, (c - b) as u32);
            }
            self.lemma_group_bounds(g_buckets as int, g_chunks as int);
        }
        let mut data: Vec<SigVal> = Vec::new();
        proof {
            broadcast use vstd::seq_lib::group_to_multiset_ensures;

            vstd::multiset::lemma_multiset_empty_len(data@.to_multiset());
        }
        let mut j: usize = 0;
        while j < g_buckets
            invariant
                j <= g_buckets,
                self.wf(),
                b == self.spec_bucket_bits(),
                self.next_bucket + g_buckets <= self.buckets@.len(),
                data@.len() == sum_lens(
                    self.buckets@,
                    self.next_bucket as int,
                    self.next_bucket as int + j as int,
                ),
                data@.to_multiset() == ms_of_buckets(
                    self.buckets@,
                    self.next_bucket as int,
                    self.next_bucket as int + j as int,
                ),
                forall|p: int|
                    0 <= p < data@.len() ==> self.next_bucket <= (crate::hash::spec_group(
                        (#[trigger] data@[p]).h0,
                        b as u64,
                    ) as int) && (crate::hash::spec_group(data@[p].h0, b as u64) as int)
                        < self.next_bucket + j,
            decreases g_buckets - j,
        {
            proof {
                lemma_sum_lens_concat(
                    self.buckets@,
                    self.next_bucket as int,
                    self.next_bucket as int + j as int,
                    self.next_bucket as int + j as int + 1,
                );
                lemma_sum_lens_nonneg(
                    self.buckets@,
                    self.next_bucket as int,
                    self.next_bucket as int + j as int,
                );
            }
            let ghost pre = data@;
            copy_into(&mut data, &self.buckets[self.next_bucket + j]);
            proof {
                vstd::seq_lib::lemma_multiset_commutative(
                    pre,
                    self.buckets@[self.next_bucket as int + j as int]@,
                );
                assert forall|p: int|
                    0 <= p < data@.len() implies self.next_bucket <= (crate::hash::spec_group(
                    (#[trigger] data@[p]).h0,
                    b as u64,
                ) as int) && (crate::hash::spec_group(data@[p].h0, b as u64) as int)
                    < self.next_bucket + j + 1 by {
                    if p < pre.len() {
                        assert(data@[p] == pre[p]);
                    } else {
                        assert(data@[p] == self.buckets@[self.next_bucket as int + j as int]@[p
                            - pre.len()]);
                    }
                }
            }
            j = j + 1;
        }
        let ghost presort = data@;
        sort_by_sig(&mut data);
        proof {
            let c64 = c as u64;
            let b64 = b as u64;
            let nb = self.next_bucket as int;
            assert forall|p: int| 0 <= p < presort.len() implies first <= entry_chunk(
                #[trigger] presort[p],
                c64,
            ) < first + g_chunks by {
                let bk = crate::hash::spec_group(presort[p].h0, b64) as int;
                assert(nb <= bk < nb + g_buckets);
                if b >= c {
                    assert(g_chunks == 1);
                    crate::hash::lemma_group_block(presort[p].h0, b64, c64, first as u64);
                    lemma_shl_pow2((b - c) as u32);
                    assert(g_buckets == (1usize << ((b - c) as u32)));
                    assert(pow2(((b - c) as u32) as nat) as int == g_buckets as int);
                    assert(nb == (first as int) * (g_buckets as int));
                    assert((first as int + 1) * (g_buckets as int) == nb + g_buckets as int)
                        by (nonlinear_arith)
                        requires
                            (first as int) * (g_buckets as int) == nb,
                    ;
                    assert(entry_chunk(presort[p], c64) == first);
                } else {
                    assert(g_buckets == 1);
                    assert(bk == nb);
                    crate::hash::lemma_group_block(presort[p].h0, c64, b64, nb as u64);
                    lemma_shl_pow2((c - b) as u32);
                    assert(g_chunks == (1usize << ((c - b) as u32)));
                    assert(pow2(((c - b) as u32) as nat) as int == g_chunks as int);
                    assert(first as int == (nb as int) * (g_chunks as int));
                    assert((nb + 1) * (g_chunks as int) == first as int + g_chunks as int)
                        by (nonlinear_arith)
                        requires
                            first as int == (nb as int) * (g_chunks as int),
                    ;
                }
            }
            lemma_ms_all(
                presort,
                data@,
                |sv: SigVal| first <= entry_chunk(sv, c64) < first + g_chunks,
            );
            assert forall|p: int| 0 <= p < data@.len() implies first <= entry_chunk(
                #[trigger] data@[p],
                c64,
            ) < first + g_chunks by {
                assert((|sv: SigVal| first <= entry_chunk(sv, c64) < first + g_chunks)(data@[p]));
            }
        }
        let it = ChunkIterator::new(c, first, g_chunks, data);
        proof {
            lemma_ms_buckets_concat(
                self.buckets@,
                self.next_bucket as int,
                self.next_bucket as int + g_buckets as int,
                self.buckets@.len() as int,
            );
            broadcast use vstd::multiset::group_multiset_axioms;

            assert(ms_of_buckets(self.buckets@, self.next_bucket as int, self.buckets@.len() as int)
                =~= ms_of_buckets(
                self.buckets@,
                self.next_bucket as int + g_buckets as int,
                self.buckets@.len() as int,
            ).add(it.spec_contents()));
        }
        proof {
            lemma_sum_lens_concat(
                self.buckets@,
                self.next_bucket as int,
                self.next_bucket as int + g_buckets as int,
                self.buckets@.len() as int,
            );
        }
        self.next_bucket = self.next_bucket + g_buckets;
        self.next_chunk = self.next_chunk + g_chunks;
        proof {
            let tb = self.buckets@.len() as int;
            let tc = self.chunk_sizes@.len() as int;
            if self.bucket_high_bits >= self.chunk_high_bits {
                assert((g_chunks as int) * tb == (g_buckets as int) * tc) by (nonlinear_arith)
                    requires
                        g_chunks == 1 && tc * (g_buckets as int) == tb,
                ;
            } else {
                assert((g_chunks as int) * tb == (g_buckets as int) * tc) by (nonlinear_arith)
                    requires
                        g_buckets == 1 && tb * (g_chunks as int) == tc,
                ;
            }
            self.lemma_cursor_sync(first as int, g_buckets as int, g_chunks as int);
        }
        Some(it)
    }

    /// The group fits inside the remaining buckets and chunks.
    proof fn lemma_group_bounds(self, g_buckets: int, g_chunks: int)
        requires
            self.wf(),
            self.next_bucket < self.buckets@.len(),
            if self.bucket_high_bits >= self.chunk_high_bits {
                g_buckets == (1usize << ((self.bucket_high_bits - self.chunk_high_bits) as u32))
                    && g_chunks == 1 && ((1usize << self.chunk_high_bits) as int) * g_buckets == (
                1usize << self.bucket_high_bits) as int
            } else {
                g_chunks == (1usize << ((self.chunk_high_bits - self.bucket_high_bits) as u32))
                    && g_buckets == 1 && ((1usize << self.bucket_high_bits) as int) * g_chunks == (
                1usize << self.chunk_high_bits) as int
            },
            g_buckets >= 1,
            g_chunks >= 1,
        ensures
            self.next_bucket + g_buckets <= self.buckets@.len(),
            self.next_chunk + g_chunks <= self.chunk_sizes@.len(),
            self.next_chunk < self.chunk_sizes@.len(),
    {
        let nb = self.next_bucket as int;
        let nc = self.next_chunk as int;
        let tb = self.buckets@.len() as int;
        let tc = self.chunk_sizes@.len() as int;
        if self.bucket_high_bits >= self.chunk_high_bits {
            assert(nc * (tc * g_buckets) == nb * tc) by (nonlinear_arith)
                requires
                    nc * tb == nb * tc && tc * g_buckets == tb,
            ;
            assert(nb == nc * g_buckets) by (nonlinear_arith)
                requires
                    nc * (tc * g_buckets) == nb * tc && tc >= 1,
            ;
            assert(nc < tc) by (nonlinear_arith)
                requires
                    nb == nc * g_buckets && nb < tb && tc * g_buckets == tb && g_buckets >= 1 && nc
                        <= tc,
            ;
            assert((nc + 1) * g_buckets <= tc * g_buckets) by (nonlinear_arith)
                requires
                    nc + 1 <= tc && g_buckets >= 0,
            ;
            assert(nb + g_buckets == (nc + 1) * g_buckets) by (nonlinear_arith)
                requires
                    nb == nc * g_buckets,
            ;
        } else {
            assert(nc == nb * g_chunks);
            assert(nb < tb);
            assert((nb + 1) * g_chunks <= tb * g_chunks) by (nonlinear_arith)
                requires
                    nb + 1 <= tb && g_chunks >= 0,
            ;
            assert(tb * g_chunks == tc) by (nonlinear_arith)
                requires
                    tb * g_chunks == tc,
            ;
            assert(nc + g_chunks == (nb + 1) * g_chunks) by (nonlinear_arith)
                requires
                    nc == nb * g_chunks,
            ;
            assert(nc < tc) by (nonlinear_arith)
                requires
                    nc + g_chunks <= tc && g_chunks >= 1,
            ;
        }
    }

    /// Advancing both cursors by one group keeps them in step.
    proof fn lemma_cursor_sync(self, first: int, g_buckets: int, g_chunks: int)
        requires
            self.bucket_high_bits <= 30,
            self.chunk_high_bits <= 30,
            self.buckets@.len() == (1usize << self.bucket_high_bits),
            self.chunk_sizes@.len() == (1usize << self.chunk_high_bits),
            self.next_chunk <= self.chunk_sizes@.len(),
            self.next_bucket <= self.buckets@.len(),
            g_buckets >= 1,
            g_chunks >= 1,
            (self.next_chunk as int - g_chunks) * (self.buckets@.len() as int) == (self.next_bucket
                as int - g_buckets) * (self.chunk_sizes@.len() as int),
            g_chunks * (self.buckets@.len() as int) == g_buckets * (self.chunk_sizes@.len() as int),
            if self.bucket_high_bits >= self.chunk_high_bits {
                self.next_bucket as int - g_buckets == (self.next_chunk as int - g_chunks) * ((
                1usize << ((self.bucket_high_bits - self.chunk_high_bits) as u32)) as int)
                    && g_buckets == (1usize << ((self.bucket_high_bits
                    - self.chunk_high_bits) as u32)) as int && g_chunks == 1
            } else {
                self.next_chunk as int - g_chunks == (self.next_bucket as int - g_buckets) * ((
                1usize << ((self.chunk_high_bits - self.bucket_high_bits) as u32)) as int)
                    && g_chunks == (1usize << ((self.chunk_high_bits
                    - self.bucket_high_bits) as u32)) as int && g_buckets == 1
            },
        ensures
            (self.next_chunk as int) * (self.buckets@.len() as int) == (self.next_bucket as int) * (
            self.chunk_sizes@.len() as int),
            self.next_chunk == self.chunk_sizes@.len() <==> self.next_bucket
                == self.buckets@.len(),
            if self.bucket_high_bits >= self.chunk_high_bits {
                self.next_bucket as int == (self.next_chunk as int) * ((1usize << ((
                self.bucket_high_bits - self.chunk_high_bits) as u32)) as int)
            } else {
                self.next_chunk as int == (self.next_bucket as int) * ((1usize << ((
                self.chunk_high_bits - self.bucket_high_bits) as u32)) as int)
            },
    {
        let nb = self.next_bucket as int;
        let nc = self.next_chunk as int;
        let tb = self.buckets@.len() as int;
        let tc = self.chunk_sizes@.len() as int;
        assert(nc * tb == nb * tc) by (nonlinear_arith)
            requires
                (nc - g_chunks) * tb == (nb - g_buckets) * tc && g_chunks * tb == g_buckets * tc,
        ;
        if self.bucket_high_bits >= self.chunk_high_bits {
            let w = (1usize << ((self.bucket_high_bits - self.chunk_high_bits) as u32)) as int;
            assert(tc * w == tb) by (nonlinear_arith)
                requires
                    g_chunks * tb == g_buckets * tc && g_buckets == w && g_chunks == 1,
            ;
            assert(nb == nc * w) by (nonlinear_arith)
                requires
                    nb - g_buckets == (nc - g_chunks) * w && g_buckets == w && g_chunks == 1,
            ;
            assert(nc == tc ==> nb == tb) by (nonlinear_arith)
                requires
                    nb == nc * w && tc * w == tb,
            ;
            assert(nb == tb ==> nc == tc) by (nonlinear_arith)
                requires
                    nb == nc * w && tc * w == tb && w >= 1 && nc <= tc,
            ;
        } else {
            let w = (1usize << ((self.chunk_high_bits - self.bucket_high_bits) as u32)) as int;
            assert(tb * w == tc) by (nonlinear_arith)
                requires
                    g_chunks * tb == g_buckets * tc && g_chunks == w && g_buckets == 1,
            ;
            assert(nc == nb * w) by (nonlinear_arith)
                requires
                    nc - g_chunks == (nb - g_buckets) * w && g_chunks == w && g_buckets == 1,
            ;
            assert(nb == tb ==> nc == tc) by (nonlinear_arith)
                requires
                    nc == nb * w && tb * w == tc,
            ;
            assert(nc == tc ==> nb == tb) by (nonlinear_arith)
                requires
                    nc == nb * w && tb * w == tc && w >= 1 && nb <= tb,
            ;
        }
    }
}

/// Copy all entries of `src` onto the end of `dst`.
fn copy_into(dst: &mut Vec<SigVal>, src: &Vec<SigVal>)
    ensures
        final(dst)@ == old(dst)@ + src@,
{
    let mut t: usize = 0;
    while t < src.len()
        invariant
            t <= src@.len(),
            dst@ == old(dst)@ + src@.take(t as int),
        decreases src@.len() - t,
    {
        dst.push(src[t]);
        proof {
            assert(src@.take(t as int + 1) =~= src@.take(t as int).push(src@[t as int]));
            assert(old(dst)@ + src@.take(t as int + 1) =~= (old(dst)@ + src@.take(t as int)).push(
                src@[t as int],
            ));
        }
        t = t + 1;
    }
    proof {
        assert(src@.take(src@.len() as int) =~= src@);
    }
}

/// The chunk that one entry belongs to, under `cbits` chunk-defining bits.
pub open spec fn entry_chunk(sv: SigVal, cbits: u64) -> int {
    crate::hash::spec_group(sv.h0, cbits) as int
}

/// An iterator on the chunks of one sorted group of buckets.  Each call of
/// [`ChunkIterator::next`] slices off the entries of the next chunk — the
/// contiguous run of the sorted data whose high chunk bits equal the next
/// chunk index — strictly increasing in signature, or the pair
/// `(usize::MAX, empty)` signals a duplicate signature inside the chunk.
pub struct ChunkIterator {
    /// The number of high bits defining a chunk.
    chunk_high_bits: u32,
    /// The first chunk this iterator covers.
    first_chunk: usize,
    /// How many consecutive chunks this iterator covers.
    num_chunks: usize,
    /// All entries of the group, sorted by signature.
    data: Vec<SigVal>,
    /// The next chunk to yield, relative to `first_chunk`.
    next_idx: usize,
    /// Where the next chunk's entries start in `data`.
    next_off: usize,
}

impl ChunkIterator {
    /// The data is sorted, every entry belongs to one of the covered
    /// chunks, and the cursor splits it into yielded entries (of earlier
    /// chunks) and pending entries (of the next chunk on).
    pub closed spec fn wf(self) -> bool {
        &&& self.chunk_high_bits <= 30
        &&& sorted(self.data@)
        &&& self.next_idx <= self.num_chunks
        &&& self.next_off <= self.data@.len()
        &&& self.first_chunk + self.num_chunks <= (1usize << self.chunk_high_bits)
        &&& forall|p: int|
            0 <= p < self.data@.len() ==> self.first_chunk <= entry_chunk(
                #[trigger] self.data@[p],
                self.chunk_high_bits as u64,
            ) < self.first_chunk + self.num_chunks
        &&& forall|p: int|
            0 <= p < self.next_off ==> entry_chunk(
                #[trigger] self.data@[p],
                self.chunk_high_bits as u64,
            ) < self.first_chunk + self.next_idx
        &&& forall|p: int|
            self.next_off <= p < self.data@.len() ==> entry_chunk(
                #[trigger] self.data@[p],
                self.chunk_high_bits as u64,
            ) >= self.first_chunk + self.next_idx
    }

    /// The number of high bits defining a chunk.
    pub closed spec fn spec_chunk_bits(self) -> u32 {
        self.chunk_high_bits
    }

    /// The first chunk this iterator covers.
    pub closed spec fn spec_first_chunk(self) -> int {
        self.first_chunk as int
    }

    /// How many chunks this iterator covers in all.
    pub closed spec fn spec_num_chunks(self) -> int {
        self.num_chunks as int
    }

    /// How many chunks are still to be yielded.
    pub closed spec fn spec_chunks_left(self) -> int {
        self.num_chunks - self.next_idx
    }

    /// How many entries the iterator owns in all.
    pub closed spec fn spec_entries(self) -> int {
        self.data@.len() as int
    }

    /// The sorted entries of the group.
    pub closed spec fn spec_data(self) -> Seq<SigVal> {
        self.data@
    }

    /// The entries of the group, as a multiset.
    pub open spec fn spec_contents(self) -> Multiset<SigVal> {
        self.spec_data().to_multiset()
    }

    /// Where the next chunk starts in the data.
    pub closed spec fn spec_next_off(self) -> int {
        self.next_off as int
    }

    /// Wrap a sorted group of entries covering `num_chunks` consecutive
    /// chunks from `first_chunk` on.
    fn new(chunk_high_bits: u32, first_chunk: usize, num_chunks: usize, data: Vec<SigVal>) -> (r:
        ChunkIterator)
        requires
            chunk_high_bits <= 30,
            sorted(data@),
            num_chunks >= 1,
            first_chunk + num_chunks <= (1usize << chunk_high_bits),
            forall|p: int|
                0 <= p < data@.len() ==> first_chunk <= entry_chunk(
                    #[trigger] data@[p],
                    chunk_high_bits as u64,
                ) < first_chunk + num_chunks,
        ensures
            r.wf(),
            r.spec_chunk_bits() == chunk_high_bits,
            r.spec_first_chunk() == first_chunk,
            r.spec_num_chunks() == num_chunks,
            r.spec_chunks_left() == num_chunks,
            r.spec_entries() == data@.len(),
            r.spec_contents() == data@.to_multiset(),
    {
        ChunkIterator { chunk_high_bits, first_chunk, num_chunks, data, next_idx: 0, next_off: 0 }
    }

    /// How many chunks are still to be yielded.
    pub fn chunks_left(&self) -> (r: usize)
        requires
            self.wf(),
        ensures
            r == self.spec_chunks_left(),
    {
        self.num_chunks - self.next_idx
    }

    /// The chunk index of the entry at position `p` of the data.
    fn chunk_index_at(&self, p: usize) -> (r: usize)
        requires
            self.wf(),
            p < self.spec_data().len(),
        ensures
            r as int == entry_chunk(self.spec_data()[p as int], self.spec_chunk_bits() as u64),
    {
        proof {
            lemma_group_fits(self.data@[p as int].h0, self.chunk_high_bits as u64);
        }
        group_of(self.data[p].h0, self.chunk_high_bits as u64) as usize
    }

    /// Yield the next chunk: its index and its entries — the contiguous run
    /// of the sorted data belonging to that chunk — strictly increasing in
    /// signature; or `(usize::MAX, [])` when two of the chunk's entries
    /// share a signature, which then also holds of two stored entries.
    /// Returns `None` after the last chunk; the last chunk exhausts the
    /// data, so every stored entry is yielded in exactly one chunk.
    pub fn next(&mut self) -> (r: Option<(usize, Vec<SigVal>)>)
        requires
            old(self).wf(),
        ensures
            final(self).wf(),
            final(self).spec_chunk_bits() == old(self).spec_chunk_bits(),
            final(self).spec_first_chunk() == old(self).spec_first_chunk(),
            final(self).spec_num_chunks() == old(self).spec_num_chunks(),
            final(self).spec_data() == old(self).spec_data(),
            r is None <==> old(self).spec_chunks_left() == 0,
            r is None ==> *final(self) == *old(self),
            final(self).spec_chunks_left() == 0 ==> final(self).spec_next_off() == final(self).spec_data().len(),
            r matches Some(p) ==> {
                let sub = old(self).spec_data().subrange(
                    old(self).spec_next_off(),
                    final(self).spec_next_off(),
                );
                let k = old(self).spec_first_chunk() + old(self).spec_num_chunks() - old(self).spec_chunks_left();
                &&& final(self).spec_chunks_left() == old(self).spec_chunks_left() - 1
                &&& old(self).spec_next_off() <= final(self).spec_next_off() <= old(self).spec_data().len()
                &&& forall|q: int|
                    0 <= q < sub.len() ==> entry_chunk(
                        #[trigger] sub[q],
                        old(self).spec_chunk_bits() as u64,
                    ) == k
                &&& (has_sig_dup(sub) ==> p.0 == usize::MAX && p.1@.len() == 0 && has_sig_dup(
                    old(self).spec_data(),
                ))
                &&& (!has_sig_dup(sub) ==> p.0 == k && (p.0 as int) < (1usize << old(self).spec_chunk_bits()) && p.1@ == sub && strictly_sorted(p.1@))
            },
    {
        if self.next_idx == self.num_chunks {
            proof {
                if self.next_off < self.data@.len() {
                    assert(entry_chunk(
                        self.data@[self.next_off as int],
                        self.chunk_high_bits as u64,
                    ) < self.first_chunk + self.num_chunks);
                }
            }
            return None;
        }
        let k = self.first_chunk + self.next_idx;
        let dlen = self.data.len();
        let off = self.next_off;
        let mut p2: usize = off;
        while p2 < dlen && self.chunk_index_at(p2) == k
            invariant
                self.wf(),
                off == self.spec_next_off(),
                k == self.first_chunk + self.next_idx,
                self.next_idx < self.num_chunks,
                dlen == self.spec_data().len(),
                off <= p2 <= dlen,
                forall|q: int|
                    off <= q < p2 ==> entry_chunk(
                        #[trigger] self.data@[q],
                        self.chunk_high_bits as u64,
                    ) == k,
            decreases dlen - p2,
        {
            p2 = p2 + 1;
        }
        let end = p2;
        let mut block: Vec<SigVal> = Vec::new();
        let mut t: usize = 0;
        while t < end - off
            invariant
                off <= end <= self.data@.len(),
                self.data@.len() <= usize::MAX,
                t <= end - off,
                block@ == self.data@.subrange(off as int, off as int + t as int),
            decreases end - off - t,
        {
            block.push(self.data[off + t]);
            proof {
                assert(self.data@.subrange(off as int, off as int + t as int + 1)
                    =~= self.data@.subrange(off as int, off as int + t as int).push(
                    self.data@[off as int + t as int],
                ));
            }
            t = t + 1;
        }
        // scan for a duplicated signature among the (sorted) entries
        let mut dup = false;
        let mut q: usize = 1;
        while q < block.len()
            invariant
                1 <= q,
                q <= block@.len() || block@.len() <= 1,
                dup <==> exists|a: int|
                    0 <= a && a + 1 < q && a + 1 < block@.len() && sig_eq(
                        #[trigger] block@[a],
                        block@[a + 1],
                    ),
            decreases block@.len() - q,
        {
            if block[q - 1].h0 == block[q].h0 && block[q - 1].h1 == block[q].h1 {
                dup = true;
                proof {
                    assert(sig_eq(block@[q as int - 1], block@[q as int - 1 + 1]));
                }
            }
            q = q + 1;
        }
        let ghost old_self = *self;
        self.next_idx = self.next_idx + 1;
        self.next_off = end;
        proof {
            let cb64 = self.chunk_high_bits as u64;
            // entries at or past the scan's stop belong to later chunks
            assert forall|q2: int| end <= q2 < self.data@.len() implies entry_chunk(
                #[trigger] self.data@[q2],
                cb64,
            ) >= self.first_chunk + self.next_idx by {
                assert(entry_chunk(self.data@[end as int], cb64) != k);
                assert(entry_chunk(self.data@[end as int], cb64) >= k);
                if q2 > end {
                    assert(sig_le(self.data@[end as int], self.data@[q2]));
                    crate::hash::lemma_group_monotone(
                        self.data@[end as int].h0,
                        self.data@[q2].h0,
                        cb64,
                    );
                }
            }
            if self.next_idx == self.num_chunks && self.next_off < self.data@.len() {
                assert(entry_chunk(self.data@[self.next_off as int], cb64) < self.first_chunk
                    + self.num_chunks);
                assert(false);
            }
            let sub = self.data@.subrange(off as int, end as int);
            assert(block@ == sub);
            if dup {
                let a = choose|a: int|
                    0 <= a && a + 1 < block@.len() && sig_eq(#[trigger] block@[a], block@[a + 1]);
                assert(sig_eq(sub[a], sub[a + 1]));
                assert(has_sig_dup(sub));
                assert(sig_eq(self.data@[off + a], self.data@[off + a + 1]));
                assert(has_sig_dup(self.data@));
            } else {
                assert forall|a2: int, b2: int| 0 <= a2 < b2 < sub.len() implies sig_lt(
                    sub[a2],
                    sub[b2],
                ) by {
                    assert(sub[a2] == self.data@[off as int + a2]);
                    assert(sub[a2 + 1] == self.data@[off as int + a2 + 1]);
                    assert(sub[b2] == self.data@[off as int + b2]);
                    assert(sig_le(sub[a2], sub[a2 + 1]));
                    assert(block@[a2] == sub[a2]);
                    assert(block@[a2 + 1] == sub[a2 + 1]);
                    assert(!sig_eq(block@[a2], block@[a2 + 1]));
                    assert(sig_lt(sub[a2], sub[a2 + 1]));
                    assert(sig_le(sub[a2 + 1], sub[b2]));
                }
                assert forall|a2: int, b2: int| 0 <= a2 < b2 < sub.len() implies !sig_eq(
                    sub[a2],
                    sub[b2],
                ) by {
                    assert(sig_lt(sub[a2], sub[b2]));
                }
                assert(!has_sig_dup(sub));
            }
        }
        if dup {
            Some((usize::MAX, Vec::new()))
        } else {
            Some((k, block))
        }
    }
}

} // verus!
