//! The statistics engine: a rating-frequency histogram over the 1..=10 scale
//! plus an "unrated" bucket, and the aggregate statistics derived from it.
//!
//! The mean and the standard deviation are kept in exact form: an `Interval`
//! stores the number of rated items together with the sum and the sum of
//! squares of their ratings, which determine mean `sum / rated` and variance
//! `(rated * sq_sum - sum * sum) / rated^2` exactly.  A histogram with no
//! rated items yields `rated == 0`, the "no signal" case that `is_nan`
//! reports and the ranker filters out.

use vstd::prelude::*;

use crate::data::{valid_rating, Item, Rating, MAX_RATING};

verus! {

/// The bucket an optional rating falls into: 0 for "unrated", else the value.
pub open spec fn bucket_of(r: Option<Rating>) -> int {
    match r {
        Option::Some(v) => v as int,
        Option::None => 0,
    }
}

/// How many items of `items` fall into bucket `b`.
pub open spec fn bucket_count(items: Seq<Item>, b: int) -> int
    decreases items.len(),
{
    if items.len() == 0 {
        0
    } else {
        bucket_count(items.drop_last(), b) + if bucket_of(items.last().rating) == b {
            1int
        } else {
            0int
        }
    }
}

/// Sum of the counts of the rated buckets 1..k.
pub open spec fn rated_upto(counts: Seq<usize>, k: int) -> int
    decreases k,
{
    if k <= 1 {
        0
    } else {
        rated_upto(counts, k - 1) + counts[k - 1] as int
    }
}

/// Sum of rating times count over the rated buckets 1..k.
pub open spec fn wsum_upto(counts: Seq<usize>, k: int) -> int
    decreases k,
{
    if k <= 1 {
        0
    } else {
        wsum_upto(counts, k - 1) + (k - 1) * (counts[k - 1] as int)
    }
}

/// Sum of squared rating times count over the rated buckets 1..k.
pub open spec fn sqsum_upto(counts: Seq<usize>, k: int) -> int
    decreases k,
{
    if k <= 1 {
        0
    } else {
        sqsum_upto(counts, k - 1) + (k - 1) * (k - 1) * (counts[k - 1] as int)
    }
}

/// Sum of all buckets: the unrated bucket plus every rated bucket.
pub open spec fn total_of(counts: Seq<usize>) -> int {
    counts[0] as int + rated_upto(counts, 11)
}

/// The rated bucket with the highest count among buckets 1..k, as a
/// (bucket, count) pair; ties keep the lower bucket, and (0, 0) stands for
/// "no bucket beats zero yet".
pub open spec fn max_rated_upto(counts: Seq<usize>, k: int) -> (int, int)
    decreases k,
{
    if k <= 1 {
        (0, 0)
    } else {
        let p = max_rated_upto(counts, k - 1);
        if counts[k - 1] as int > p.1 {
            (k - 1, counts[k - 1] as int)
        } else {
            p
        }
    }
}

/// An exact mean/standard-deviation aggregate over rated items:
/// mean is `sum / rated` and variance is `(rated * sq_sum - sum * sum) /
/// rated^2`; `rated == 0` is the undefined ("NaN") case.
#[derive(Clone, Copy, PartialEq, Eq, Structural, Debug)]
pub struct Interval {
    /// Number of rated items aggregated.
    pub rated: u64,
    /// Sum of their ratings.
    pub sum: u64,
    /// Sum of the squares of their ratings.
    pub sq_sum: u64,
}

impl Interval {
    /// Whether the interval carries no signal: zero rated items, on which
    /// both the mean and the standard deviation are undefined together.
    pub fn is_nan(&self) -> (r: bool)
        ensures
            r == (self.rated == 0),
    {
        self.rated == 0
    }
}

/// Aggregate statistics of one histogram.
#[derive(Clone, Copy, PartialEq, Eq, Structural, Debug)]
pub struct Stats {
    pub total: usize,
    pub rated: usize,
    pub rating: Interval,
}

/// A frequency table over ratings 1..=10 plus one bucket (index 0) for
/// "unrated".
pub struct Histogram {
    buckets: Vec<usize>,
}

impl Histogram {
    /// The bucket counts; index 0 is the unrated bucket.
    pub closed spec fn counts(&self) -> Seq<usize> {
        self.buckets@
    }

    /// Well-formed: exactly `MAX_RATING + 1` buckets.
    pub open spec fn wf(&self) -> bool {
        self.counts().len() == MAX_RATING as int + 1
    }

    /// An empty histogram.
    pub fn new() -> (h: Histogram)
        ensures
            h.wf(),
            forall|b: int| 0 <= b < 11 ==> h.counts()[b] == 0,
    {
        let buckets: Vec<usize> = vec![0; 11];
        Histogram { buckets }
    }

    /// A histogram with the given bucket counts (unrated bucket first).
    pub fn from_counts(vals: Vec<usize>) -> (h: Histogram)
        requires
            vals@.len() == MAX_RATING as int + 1,
        ensures
            h.wf(),
            h.counts() == vals@,
    {
        Histogram { buckets: vals }
    }

    /// The count of the bucket an optional rating falls into.
    pub fn get(&self, rating: Option<Rating>) -> (r: usize)
        requires
            self.wf(),
            valid_rating(rating),
        ensures
            r == self.counts()[bucket_of(rating)],
    {
        match rating {
            Option::Some(v) => self.buckets[v as usize],
            Option::None => self.buckets[0],
        }
    }

    /// Replaces the count of the bucket an optional rating falls into.
    pub fn set(&mut self, rating: Option<Rating>, value: usize)
        requires
            old(self).wf(),
            valid_rating(rating),
        ensures
            final(self).wf(),
            final(self).counts() == old(self).counts().update(bucket_of(rating), value),
    {
        let b: usize = match rating {
            Option::Some(v) => v as usize,
            Option::None => 0,
        };
        self.buckets.set(b, value);
    }

    /// Folds one more rating into its bucket.
    pub fn add(&mut self, rating: Option<Rating>)
        requires
            old(self).wf(),
            valid_rating(rating),
            old(self).counts()[bucket_of(rating)] < usize::MAX,
        ensures
            final(self).wf(),
            final(self).counts() == old(self).counts().update(
                bucket_of(rating),
                (old(self).counts()[bucket_of(rating)] + 1) as usize,
            ),
    {
        let b: usize = match rating {
            Option::Some(v) => v as usize,
            Option::None => 0,
        };
        let c = self.buckets[b];
        self.buckets.set(b, c + 1);
    }

    /// Builds the histogram of a whole item list; folding is bucket-wise
    /// counting, so the outcome does not depend on the order of the items.
    pub fn from_items(items: &Vec<Item>) -> (h: Histogram)
        requires
            forall|i: int| 0 <= i < items@.len() ==> valid_rating(#[trigger] items@[i].rating),
        ensures
            h.wf(),
            forall|b: int| 0 <= b < 11 ==> #[trigger] h.counts()[b] as int == bucket_count(
                items@,
                b,
            ),
    {
        let mut h = Histogram::new();
        let mut i: usize = 0;
        while i < items.len()
            invariant
                h.wf(),
                i <= items@.len(),
                forall|j: int| 0 <= j < items@.len() ==> valid_rating(#[trigger] items@[j].rating),
                forall|b: int| 0 <= b < 11 ==> #[trigger] h.counts()[b] as int == bucket_count(
                    items@.take(i as int),
                    b,
                ),
            decreases items@.len() - i,
        {
            proof {
                lemma_bucket_count_le_len(items@.take(i as int), bucket_of(items@[i as int].rating));
                assert(items@.take(i + 1 as int).drop_last() =~= items@.take(i as int));
                assert(items@.take(i + 1 as int).last() == items@[i as int]);
            }
            h.add(items[i].rating);
            i = i + 1;
        }
        proof {
            assert(items@.take(items@.len() as int) =~= items@);
        }
        h
    }

    /// The rated bucket (1..=10) with the highest count; on ties the lowest
    /// such bucket wins, and an all-zero histogram yields (0, 0).
    pub fn get_max_rated(&self) -> (r: (Rating, usize))
        requires
            self.wf(),
        ensures
            r.0 as int == max_rated_upto(self.counts(), 11).0,
            r.1 as int == max_rated_upto(self.counts(), 11).1,
            r.1 as int == (if r.0 == 0 {
                0int
            } else {
                self.counts()[r.0 as int] as int
            }),
            forall|j: int| 1 <= j < 11 ==> (#[trigger] self.counts()[j] as int) <= (r.1 as int),
            forall|j: int| 1 <= j < (r.0 as int) ==> (#[trigger] self.counts()[j] as int) < (
            r.1 as int),
    {
        let mut best_r: Rating = 0;
        let mut best_c: usize = 0;
        let mut b: usize = 1;
        while b < 11
            invariant
                self.wf(),
                1 <= b <= 11,
                best_r < b,
                best_r as int == max_rated_upto(self.counts(), b as int).0,
                best_c as int == max_rated_upto(self.counts(), b as int).1,
            decreases 11 - b,
        {
            if self.buckets[b] > best_c {
                best_r = b as u8;
                best_c = self.buckets[b];
            }
            b = b + 1;
        }
        proof {
            lemma_max_rated_props(self.counts(), 11);
        }
        (best_r, best_c)
    }

    /// Derives the aggregate statistics: total and rated counts and the
    /// exact rating interval.  With at least one rated item the mean lies
    /// within [1, 10] and the variance is non-negative, so the standard
    /// deviation is defined and non-negative.
    pub fn get_stats(&self) -> (s: Stats)
        requires
            self.wf(),
            100 * total_of(self.counts()) <= usize::MAX,
        ensures
            s.total as int == total_of(self.counts()),
            s.rated as int == rated_upto(self.counts(), 11),
            s.rating.rated as int == rated_upto(self.counts(), 11),
            s.rating.sum as int == wsum_upto(self.counts(), 11),
            s.rating.sq_sum as int == sqsum_upto(self.counts(), 11),
            s.rated > 0 ==> s.rated as int <= s.rating.sum as int <= 10 * s.rated as int,
            (s.rating.sum as int) * (s.rating.sum as int) <= (s.rating.rated as int) * (
            s.rating.sq_sum as int),
    {
        proof {
            lemma_rated_upto_nonneg(self.counts(), 11);
        }
        let mut rated: usize = 0;
        let mut wsum: usize = 0;
        let mut sqsum: usize = 0;
        let mut b: usize = 1;
        while b < 11
            invariant
                self.wf(),
                1 <= b <= 11,
                100 * total_of(self.counts()) <= usize::MAX,
                rated as int == rated_upto(self.counts(), b as int),
                wsum as int == wsum_upto(self.counts(), b as int),
                sqsum as int == sqsum_upto(self.counts(), b as int),
            decreases 11 - b,
        {
            let c = self.buckets[b];
            proof {
                lemma_rated_upto_mono(self.counts(), b + 1, 11);
                lemma_rated_upto_nonneg(self.counts(), b as int);
                lemma_sum_bounds(self.counts(), (b + 1) as int);
                lemma_sum_bounds(self.counts(), b as int);
                assert(rated_upto(self.counts(), b + 1) <= total_of(self.counts())) by {
                    assert(self.counts()[0] as int >= 0);
                };
                assert((b as int) * (c as int) <= 10 * (c as int)) by (nonlinear_arith)
                    requires
                        1 <= b as int <= 10,
                        c as int >= 0,
                ;
                assert((b as int) * (b as int) * (c as int) <= 100 * (c as int)) by (
                nonlinear_arith)
                    requires
                        1 <= b as int <= 10,
                        c as int >= 0,
                ;
                assert((b as int) * (b as int) <= 100) by (nonlinear_arith)
                    requires
                        1 <= b as int <= 10,
                ;
                assert(c as int <= rated_upto(self.counts(), (b + 1) as int));
                assert(100 * (c as int) <= usize::MAX);
            }
            rated = rated + c;
            wsum = wsum + b * c;
            sqsum = sqsum + b * b * c;
            b = b + 1;
        }
        proof {
            lemma_sum_bounds(self.counts(), 11);
            lemma_cauchy(self.counts(), 11);
        }
        let total = rated + self.buckets[0];
        Stats {
            total,
            rated,
            rating: Interval { rated: rated as u64, sum: wsum as u64, sq_sum: sqsum as u64 },
        }
    }
}

/// A bucket's count never exceeds the number of items folded in.
proof fn lemma_bucket_count_le_len(items: Seq<Item>, b: int)
    ensures
        0 <= bucket_count(items, b) <= items.len(),
    decreases items.len(),
{
    if items.len() > 0 {
        lemma_bucket_count_le_len(items.drop_last(), b);
    }
}

/// Partial sums over fewer buckets never exceed sums over more buckets.
proof fn lemma_rated_upto_mono(counts: Seq<usize>, k1: int, k2: int)
    requires
        k1 <= k2,
    ensures
        rated_upto(counts, k1) <= rated_upto(counts, k2),
    decreases k2 - k1,
{
    if k1 < k2 {
        lemma_rated_upto_mono(counts, k1, k2 - 1);
        if k2 > 1 {
            assert(counts[k2 - 1] as int >= 0);
        }
    }
}

proof fn lemma_rated_upto_nonneg(counts: Seq<usize>, k: int)
    ensures
        rated_upto(counts, k) >= 0,
    decreases k,
{
    if k > 1 {
        lemma_rated_upto_nonneg(counts, k - 1);
    }
}

/// The weighted sums are squeezed by the plain count: each rated bucket
/// weighs between 1 and 10 (and between 1 and 100 squared).
proof fn lemma_sum_bounds(counts: Seq<usize>, k: int)
    requires
        k <= 11,
    ensures
        rated_upto(counts, k) <= wsum_upto(counts, k) <= 10 * rated_upto(counts, k),
        wsum_upto(counts, k) <= sqsum_upto(counts, k) <= 100 * rated_upto(counts, k),
    decreases k,
{
    if k > 1 {
        lemma_sum_bounds(counts, k - 1);
        let c = counts[k - 1] as int;
        assert(c <= (k - 1) * c && (k - 1) * c <= 10 * c) by (nonlinear_arith)
            requires
                1 <= k - 1 <= 10,
                c >= 0,
        ;
        assert((k - 1) * c <= (k - 1) * (k - 1) * c && (k - 1) * (k - 1) * c <= 100 * c) by (
        nonlinear_arith)
            requires
                1 <= k - 1 <= 10,
                c >= 0,
        ;
    }
}

/// For any pivot v, sum over buckets of count * (v - bucket)^2 is
/// non-negative; stated in expanded form.
proof fn lemma_mix_nonneg(counts: Seq<usize>, k: int, v: int)
    requires
        k <= 11,
    ensures
        rated_upto(counts, k) * v * v - 2 * v * wsum_upto(counts, k) + sqsum_upto(counts, k) >= 0,
    decreases k,
{
    if k <= 1 {
        assert(rated_upto(counts, k) * v * v == 0) by (nonlinear_arith)
            requires
                rated_upto(counts, k) == 0,
        ;
    } else {
        lemma_mix_nonneg(counts, k - 1, v);
        let c = counts[k - 1] as int;
        let b = k - 1;
        let r0 = rated_upto(counts, k - 1);
        let w0 = wsum_upto(counts, k - 1);
        let q0 = sqsum_upto(counts, k - 1);
        assert((r0 + c) * v * v - 2 * v * (w0 + b * c) + (q0 + b * b * c) >= 0) by (nonlinear_arith)
            requires
                r0 * v * v - 2 * v * w0 + q0 >= 0,
                c >= 0,
        ;
    }
}

/// Cauchy-Schwarz for the bucket sums: the squared rating sum is at most
/// the rated count times the sum of squared ratings, so the exact variance
/// is non-negative.
#[verifier::rlimit(50)]
proof fn lemma_cauchy(counts: Seq<usize>, k: int)
    requires
        k <= 11,
    ensures
        wsum_upto(counts, k) * wsum_upto(counts, k) <= rated_upto(counts, k) * sqsum_upto(
            counts,
            k,
        ),
    decreases k,
{
    if k <= 1 {
    } else {
        lemma_cauchy(counts, k - 1);
        lemma_mix_nonneg(counts, k - 1, k - 1);
        lemma_rated_upto_nonneg(counts, k - 1);
        let c = counts[k - 1] as int;
        let b = k - 1;
        let r0 = rated_upto(counts, k - 1);
        let w0 = wsum_upto(counts, k - 1);
        let q0 = sqsum_upto(counts, k - 1);
        assert(c * (r0 * b * b + q0) >= c * (2 * b * w0)) by (nonlinear_arith)
            requires
                r0 * b * b - 2 * b * w0 + q0 >= 0,
                c >= 0,
        ;
        assert((w0 + b * c) * (w0 + b * c) == w0 * w0 + c * (2 * b * w0) + (b * c) * (b * c)) by (
        nonlinear_arith);
        assert((r0 + c) * (q0 + b * b * c) == r0 * q0 + c * (r0 * b * b + q0) + (b * c) * (b * c))
            by (nonlinear_arith);
        assert((w0 + b * c) * (w0 + b * c) <= (r0 + c) * (q0 + b * b * c));
    }
}

proof fn lemma_max_rated_props(counts: Seq<usize>, k: int)
    requires
        k <= counts.len() + 1,
    ensures
        ({
            let m = max_rated_upto(counts, k);
            &&& 0 <= m.0 < k || (k <= 1 && m.0 == 0)
            &&& m.1 == if m.0 == 0 {
                0int
            } else {
                counts[m.0] as int
            }
            &&& forall|j: int| 1 <= j < k ==> (#[trigger] counts[j] as int) <= m.1
            &&& forall|j: int| 1 <= j < m.0 ==> (#[trigger] counts[j] as int) < m.1
        }),
    decreases k,
{
    if k > 1 {
        lemma_max_rated_props(counts, k - 1);
    }
}

/// Every item lands in exactly one bucket: the bucket counts over 0..11 sum
/// to the number of items.  This is the histogram's conservation law, and
/// with `get_stats` it gives `total == items.len()`.
pub proof fn lemma_bucket_counts_sum(items: Seq<Item>)
    requires
        forall|i: int| 0 <= i < items.len() ==> valid_rating(#[trigger] items[i].rating),
    ensures
        sum_bucket_counts(items, 11) == items.len(),
    decreases items.len(),
{
    if items.len() == 0 {
        lemma_sum_bucket_counts_zero(items, 11);
    } else {
        let pre = items.drop_last();
        assert(forall|i: int| 0 <= i < pre.len() ==> valid_rating(#[trigger] pre[i].rating));
        lemma_bucket_counts_sum(pre);
        lemma_sum_bucket_counts_step(items, 11);
    }
}

/// Partial sum of bucket counts over buckets 0..k.
pub open spec fn sum_bucket_counts(items: Seq<Item>, k: int) -> int
    decreases k,
{
    if k <= 0 {
        0
    } else {
        sum_bucket_counts(items, k - 1) + bucket_count(items, k - 1)
    }
}

proof fn lemma_sum_bucket_counts_zero(items: Seq<Item>, k: int)
    requires
        items.len() == 0,
    ensures
        sum_bucket_counts(items, k) == 0,
    decreases k,
{
    if k > 0 {
        lemma_sum_bucket_counts_zero(items, k - 1);
    }
}

proof fn lemma_sum_bucket_counts_step(items: Seq<Item>, k: int)
    requires
        items.len() > 0,
    ensures
        sum_bucket_counts(items, k) == sum_bucket_counts(items.drop_last(), k) + if 0 <= bucket_of(
            items.last().rating,
        ) < k {
            1int
        } else {
            0int
        },
    decreases k,
{
    if k > 0 {
        lemma_sum_bucket_counts_step(items, k - 1);
    }
}

/// Conservation through the pipeline: a histogram whose buckets count the
/// items of a list (as `from_items` builds it) reports the list's length as
/// its total in `get_stats`.
pub proof fn lemma_histogram_total(items: Seq<Item>, h: Histogram)
    requires
        h.wf(),
        forall|i: int| 0 <= i < items.len() ==> valid_rating(#[trigger] items[i].rating),
        forall|b: int| 0 <= b < 11 ==> #[trigger] h.counts()[b] as int == bucket_count(items, b),
    ensures
        total_of(h.counts()) == items.len(),
{
    lemma_bucket_counts_sum(items);
    lemma_partial_sums_agree(items, h.counts(), 11);
}

/// The bucket-count sum over 0..k equals the histogram's partial sums.
proof fn lemma_partial_sums_agree(items: Seq<Item>, counts: Seq<usize>, k: int)
    requires
        counts.len() == 11,
        k <= 11,
        forall|b: int| 0 <= b < 11 ==> #[trigger] counts[b] as int == bucket_count(items, b),
    ensures
        1 <= k ==> sum_bucket_counts(items, k) == counts[0] as int + rated_upto(counts, k),
    decreases k,
{
    if k > 1 {
        lemma_partial_sums_agree(items, counts, k - 1);
    } else if k == 1 {
        assert(sum_bucket_counts(items, 0) == 0);
        assert(sum_bucket_counts(items, 1) == bucket_count(items, 0));
    }
}

/// A bar of `width` hash marks for the histogram rendering.
pub fn generate_bar(width: usize) -> (r: String)
    ensures
        r@.len() == width,
        forall|i: int| 0 <= i < width ==> r@[i] == '#',
{
    let mut s = String::new();
    let mut i: usize = 0;
    while i < width
        invariant
            i <= width,
            s@.len() == i,
            forall|k: int| 0 <= k < i ==> s@[k] == '#',
        decreases width - i,
    {
        vstd::string::StringExecFns::append(&mut s, "#");
        proof {
            reveal_strlit("#");
        }
        i = i + 1;
    }
    s
}

} // verus!
