//! The tag ranker: per-tag statistics, ordered by descending average and,
//! on tied averages, ascending standard deviation.
//!
//! Averages and variances are compared exactly by cross-multiplication:
//! `sum_a / rated_a < sum_b / rated_b` exactly when
//! `sum_a * rated_b < sum_b * rated_a`, and on tied averages the variance
//! order reduces to the order of `sq_sum / rated`.  Groups with no rated
//! items carry no signal and are excluded before ranking.

use vstd::prelude::*;

use crate::classifier::{
    classify_by_tags, display_of, keys_dedup, members_of, models_classification, occs_of,
};
use crate::data::{valid_rating, Item};
use crate::stats::{
    bucket_of, rated_upto, sqsum_upto, total_of, wsum_upto, Histogram, Interval, Stats,
};

verus! {

broadcast use vstd::seq_lib::group_to_multiset_ensures;

/// One ranked entry: the display tag and its statistics.
pub struct TagStats {
    pub tag: String,
    pub stats: Stats,
}

/// The mathematical content of one ranked entry.
pub ghost struct TagStatsModel {
    pub tag: Seq<char>,
    pub total: int,
    pub rated: int,
    pub sum: int,
    pub sq: int,
}

/// The model of one exec entry.
pub open spec fn ts_model(t: TagStats) -> TagStatsModel {
    TagStatsModel {
        tag: t.tag@,
        total: t.stats.total as int,
        rated: t.stats.rated as int,
        sum: t.stats.rating.sum as int,
        sq: t.stats.rating.sq_sum as int,
    }
}

/// The models of a whole entry list.
pub open spec fn tsm(s: Seq<TagStats>) -> Seq<TagStatsModel> {
    s.map_values(|t: TagStats| ts_model(t))
}

/// Exact "greater average": `sum_a / rated_a > sum_b / rated_b`.
pub open spec fn gt_avg(sa: int, na: int, sb: int, nb: int) -> bool {
    sb * na < sa * nb
}

/// Exact "equal average".
pub open spec fn eq_avg(sa: int, na: int, sb: int, nb: int) -> bool {
    sa * nb == sb * na
}

/// The numerator of the exact variance `(n*q - s*s) / n^2`.
pub open spec fn var_num(s: int, n: int, q: int) -> int {
    n * q - s * s
}

/// Exact "smaller variance" (and so smaller standard deviation).
pub open spec fn lt_var(sa: int, na: int, qa: int, sb: int, nb: int, qb: int) -> bool {
    var_num(sa, na, qa) * (nb * nb) < var_num(sb, nb, qb) * (na * na)
}

/// The ranking order: strictly before means strictly greater average, or
/// equal average with strictly smaller standard deviation.
pub open spec fn nums_before(sa: int, na: int, qa: int, sb: int, nb: int, qb: int) -> bool {
    gt_avg(sa, na, sb, nb) || (eq_avg(sa, na, sb, nb) && lt_var(sa, na, qa, sb, nb, qb))
}

/// The ranking order on intervals.
pub open spec fn interval_before(a: Interval, b: Interval) -> bool {
    nums_before(
        a.sum as int,
        a.rated as int,
        a.sq_sum as int,
        b.sum as int,
        b.rated as int,
        b.sq_sum as int,
    )
}

/// The ranking order on ranked entries.
pub open spec fn model_before(a: TagStatsModel, b: TagStatsModel) -> bool {
    nums_before(a.sum, a.rated, a.sq, b.sum, b.rated, b.sq)
}

/// Fraction comparison is transitive: `x1/y1 < x2/y2 < x3/y3` implies
/// `x1/y1 < x3/y3`, in cross-multiplied form.
proof fn lemma_frac_lt_lt(x1: int, y1: int, x2: int, y2: int, x3: int, y3: int)
    requires
        y1 > 0,
        y2 > 0,
        y3 > 0,
        x1 * y2 < x2 * y1,
        x2 * y3 < x3 * y2,
    ensures
        x1 * y3 < x3 * y1,
{
    assert((x1 * y3) * y2 < (x3 * y1) * y2) by (nonlinear_arith)
        requires
            y1 > 0,
            y2 > 0,
            y3 > 0,
            x1 * y2 < x2 * y1,
            x2 * y3 < x3 * y2,
    ;
    assert(x1 * y3 < x3 * y1) by (nonlinear_arith)
        requires
            y2 > 0,
            (x1 * y3) * y2 < (x3 * y1) * y2,
    ;
}

/// A tied fraction on the left keeps a strict comparison on the right.
proof fn lemma_frac_eq_lt(x1: int, y1: int, x2: int, y2: int, x3: int, y3: int)
    requires
        y1 > 0,
        y2 > 0,
        y3 > 0,
        x1 * y2 == x2 * y1,
        x2 * y3 < x3 * y2,
    ensures
        x1 * y3 < x3 * y1,
{
    assert((x1 * y3) * y2 < (x3 * y1) * y2) by (nonlinear_arith)
        requires
            y1 > 0,
            y2 > 0,
            y3 > 0,
            x1 * y2 == x2 * y1,
            x2 * y3 < x3 * y2,
    ;
    assert(x1 * y3 < x3 * y1) by (nonlinear_arith)
        requires
            y2 > 0,
            (x1 * y3) * y2 < (x3 * y1) * y2,
    ;
}

/// A strict comparison on the left survives a tied fraction on the right.
proof fn lemma_frac_lt_eq(x1: int, y1: int, x2: int, y2: int, x3: int, y3: int)
    requires
        y1 > 0,
        y2 > 0,
        y3 > 0,
        x1 * y2 < x2 * y1,
        x2 * y3 == x3 * y2,
    ensures
        x1 * y3 < x3 * y1,
{
    assert((x1 * y3) * y2 < (x3 * y1) * y2) by (nonlinear_arith)
        requires
            y1 > 0,
            y2 > 0,
            y3 > 0,
            x1 * y2 < x2 * y1,
            x2 * y3 == x3 * y2,
    ;
    assert(x1 * y3 < x3 * y1) by (nonlinear_arith)
        requires
            y2 > 0,
            (x1 * y3) * y2 < (x3 * y1) * y2,
    ;
}

/// Tied fractions compose.
proof fn lemma_frac_eq_eq(x1: int, y1: int, x2: int, y2: int, x3: int, y3: int)
    requires
        y1 > 0,
        y2 > 0,
        y3 > 0,
        x1 * y2 == x2 * y1,
        x2 * y3 == x3 * y2,
    ensures
        x1 * y3 == x3 * y1,
{
    assert((x1 * y3) * y2 == (x3 * y1) * y2) by (nonlinear_arith)
        requires
            y1 > 0,
            y2 > 0,
            y3 > 0,
            x1 * y2 == x2 * y1,
            x2 * y3 == x3 * y2,
    ;
    assert(x1 * y3 == x3 * y1) by (nonlinear_arith)
        requires
            y2 > 0,
            (x1 * y3) * y2 == (x3 * y1) * y2,
    ;
}

/// The ranking order is a strict transitive relation on entries with at
/// least one rated item.
pub proof fn lemma_model_before_trans(a: TagStatsModel, b: TagStatsModel, c: TagStatsModel)
    requires
        a.rated >= 1,
        b.rated >= 1,
        c.rated >= 1,
        model_before(a, b),
        model_before(b, c),
    ensures
        model_before(a, c),
{
    assert(a.rated * a.rated >= 1) by (nonlinear_arith)
        requires
            a.rated >= 1,
    ;
    assert(b.rated * b.rated >= 1) by (nonlinear_arith)
        requires
            b.rated >= 1,
    ;
    assert(c.rated * c.rated >= 1) by (nonlinear_arith)
        requires
            c.rated >= 1,
    ;
    if gt_avg(a.sum, a.rated, b.sum, b.rated) {
        if gt_avg(b.sum, b.rated, c.sum, c.rated) {
            lemma_frac_lt_lt(c.sum, c.rated, b.sum, b.rated, a.sum, a.rated);
        } else {
            lemma_frac_eq_lt(c.sum, c.rated, b.sum, b.rated, a.sum, a.rated);
        }
    } else {
        if gt_avg(b.sum, b.rated, c.sum, c.rated) {
            lemma_frac_lt_eq(c.sum, c.rated, b.sum, b.rated, a.sum, a.rated);
        } else {
            lemma_frac_eq_eq(c.sum, c.rated, b.sum, b.rated, a.sum, a.rated);
            lemma_frac_lt_lt(
                var_num(a.sum, a.rated, a.sq),
                a.rated * a.rated,
                var_num(b.sum, b.rated, b.sq),
                b.rated * b.rated,
                var_num(c.sum, c.rated, c.sq),
                c.rated * c.rated,
            );
        }
    }
}

/// On tied averages the variance order is the order of the plain
/// cross-products of the squared-rating sums.
proof fn lemma_var_lt_tied(sa: int, na: int, qa: int, sb: int, nb: int, qb: int)
    requires
        na >= 1,
        nb >= 1,
        eq_avg(sa, na, sb, nb),
    ensures
        lt_var(sa, na, qa, sb, nb, qb) <==> qa * nb < qb * na,
{
    assert((sa * sa) * (nb * nb) == (sb * sb) * (na * na)) by (nonlinear_arith)
        requires
            sa * nb == sb * na,
    ;
    assert((na * qa) * (nb * nb) - (sa * sa) * (nb * nb) < (nb * qb) * (na * na) - (sb * sb) * (na
        * na) <==> (na * nb) * (qa * nb) < (na * nb) * (qb * na)) by (nonlinear_arith)
        requires
            (sa * sa) * (nb * nb) == (sb * sb) * (na * na),
            na >= 1,
            nb >= 1,
    ;
    assert((na * nb) * (qa * nb) < (na * nb) * (qb * na) <==> qa * nb < qb * na) by (
    nonlinear_arith)
        requires
            na >= 1,
            nb >= 1,
    ;
    assert(lt_var(sa, na, qa, sb, nb, qb) == ((na * qa - sa * sa) * (nb * nb) < (nb * qb - sb * sb)
        * (na * na)));
    assert((na * qa - sa * sa) * (nb * nb) == (na * qa) * (nb * nb) - (sa * sa) * (nb * nb)) by (
    nonlinear_arith);
    assert((nb * qb - sb * sb) * (na * na) == (nb * qb) * (na * na) - (sb * sb) * (na * na)) by (
    nonlinear_arith);
}

impl Interval {
    /// Whether this interval ranks strictly before `other`: greater average,
    /// or equal average with smaller standard deviation.
    pub fn ranks_before(&self, other: &Interval) -> (r: bool)
        requires
            self.rated >= 1,
            other.rated >= 1,
        ensures
            r == interval_before(*self, *other),
    {
        proof {
            assert((self.sum as int) * (other.rated as int) < 0x10000000000000000 * (
            0x10000000000000000int)) by (nonlinear_arith)
                requires
                    self.sum as int <= 0xffffffffffffffff,
                    other.rated as int <= 0xffffffffffffffff,
                    self.sum as int >= 0,
                    other.rated as int >= 0,
            ;
            assert((other.sum as int) * (self.rated as int) < 0x10000000000000000 * (
            0x10000000000000000int)) by (nonlinear_arith)
                requires
                    other.sum as int <= 0xffffffffffffffff,
                    self.rated as int <= 0xffffffffffffffff,
                    other.sum as int >= 0,
                    self.rated as int >= 0,
            ;
            assert((self.sq_sum as int) * (other.rated as int) < 0x10000000000000000 * (
            0x10000000000000000int)) by (nonlinear_arith)
                requires
                    self.sq_sum as int <= 0xffffffffffffffff,
                    other.rated as int <= 0xffffffffffffffff,
                    self.sq_sum as int >= 0,
                    other.rated as int >= 0,
            ;
            assert((other.sq_sum as int) * (self.rated as int) < 0x10000000000000000 * (
            0x10000000000000000int)) by (nonlinear_arith)
                requires
                    other.sq_sum as int <= 0xffffffffffffffff,
                    self.rated as int <= 0xffffffffffffffff,
                    other.sq_sum as int >= 0,
                    self.rated as int >= 0,
            ;
            assert(0x10000000000000000 * 0x10000000000000000int
                == 0x100000000000000000000000000000000int) by (nonlinear_arith);
        }
        let x: u128 = (self.sum as u128) * (other.rated as u128);
        let y: u128 = (other.sum as u128) * (self.rated as u128);
        if x > y {
            true
        } else if x < y {
            false
        } else {
            let qa: u128 = (self.sq_sum as u128) * (other.rated as u128);
            let qb: u128 = (other.sq_sum as u128) * (self.rated as u128);
            proof {
                lemma_var_lt_tied(
                    self.sum as int,
                    self.rated as int,
                    self.sq_sum as int,
                    other.sum as int,
                    other.rated as int,
                    other.sq_sum as int,
                );
            }
            qa < qb
        }
    }
}

/// The rating sum contributed by one optional rating (0 when unrated).
pub open spec fn rating_val(r: Option<u8>) -> int {
    bucket_of(r)
}

/// How many of the members `ms` are rated.
pub open spec fn rated_m(items: Seq<Item>, ms: Seq<int>) -> int
    decreases ms.len(),
{
    if ms.len() == 0 {
        0
    } else {
        rated_m(items, ms.drop_last()) + if items[ms.last()].rating is Some {
            1int
        } else {
            0int
        }
    }
}

/// The sum of the members' ratings.
pub open spec fn sum_m(items: Seq<Item>, ms: Seq<int>) -> int
    decreases ms.len(),
{
    if ms.len() == 0 {
        0
    } else {
        sum_m(items, ms.drop_last()) + rating_val(items[ms.last()].rating)
    }
}

/// The sum of the squares of the members' ratings.
pub open spec fn sq_m(items: Seq<Item>, ms: Seq<int>) -> int
    decreases ms.len(),
{
    if ms.len() == 0 {
        0
    } else {
        sq_m(items, ms.drop_last()) + rating_val(items[ms.last()].rating) * rating_val(
            items[ms.last()].rating,
        )
    }
}

/// The ranked-entry model of the group keyed by `k`.
pub open spec fn group_model(items: Seq<Item>, k: Seq<char>) -> TagStatsModel {
    let os = occs_of(items);
    let ms = members_of(os, k);
    TagStatsModel {
        tag: display_of(os, k),
        total: ms.len() as int,
        rated: rated_m(items, ms),
        sum: sum_m(items, ms),
        sq: sq_m(items, ms),
    }
}

/// The models of the groups that survive ranking: those of `keys` whose
/// members include at least one rated item, in key order.
pub open spec fn kept_models(items: Seq<Item>, keys: Seq<Seq<char>>) -> Seq<TagStatsModel>
    decreases keys.len(),
{
    if keys.len() == 0 {
        Seq::empty()
    } else {
        let pre = kept_models(items, keys.drop_last());
        let k = keys.last();
        if rated_m(items, members_of(occs_of(items), k)) > 0 {
            pre.push(group_model(items, k))
        } else {
            pre
        }
    }
}

/// Updating one bucket shifts the three bucket sums by the bucket's weight.
proof fn lemma_sums_update(counts: Seq<usize>, b: int, v: usize, k: int)
    requires
        0 <= b < counts.len(),
        k <= counts.len(),
    ensures
        rated_upto(counts.update(b, v), k) == rated_upto(counts, k) + (if 1 <= b < k {
            v - counts[b]
        } else {
            0int
        }),
        wsum_upto(counts.update(b, v), k) == wsum_upto(counts, k) + (if 1 <= b < k {
            b * (v - counts[b])
        } else {
            0int
        }),
        sqsum_upto(counts.update(b, v), k) == sqsum_upto(counts, k) + (if 1 <= b < k {
            b * b * (v - counts[b])
        } else {
            0int
        }),
    decreases k,
{
    if k > 1 {
        lemma_sums_update(counts, b, v, k - 1);
        let u = counts.update(b, v);
        if b == k - 1 {
            assert(u[k - 1] == v);
            assert(counts[k - 1] == counts[b]);
            let cb = counts[b] as int;
            let w = v as int;
            assert((k - 1) * w == (k - 1) * cb + (k - 1) * (w - cb)) by (nonlinear_arith);
            assert((k - 1) * (k - 1) * w == (k - 1) * (k - 1) * cb + (k - 1) * (k - 1) * (w - cb))
                by (nonlinear_arith);
        } else {
            assert(u[k - 1] == counts[k - 1]);
        }
    }
}

/// All-zero buckets have zero sums.
proof fn lemma_zero_sums(counts: Seq<usize>, k: int)
    requires
        forall|b: int| 0 <= b < counts.len() ==> counts[b] == 0,
        k <= counts.len(),
    ensures
        rated_upto(counts, k) == 0,
        wsum_upto(counts, k) == 0,
        sqsum_upto(counts, k) == 0,
    decreases k,
{
    if k > 1 {
        lemma_zero_sums(counts, k - 1);
    }
}

/// A key's member list is no longer than the occurrence list.
proof fn lemma_members_len_le(os: Seq<(int, Seq<char>)>, k: Seq<char>)
    ensures
        members_of(os, k).len() <= os.len(),
    decreases os.len(),
{
    if os.len() > 0 {
        lemma_members_len_le(os.drop_last(), k);
    }
}

/// Mapping to models commutes with removal.
proof fn lemma_tsm_remove(s: Seq<TagStats>, i: int)
    requires
        0 <= i < s.len(),
    ensures
        tsm(s.remove(i)) == tsm(s).remove(i),
{
    assert(tsm(s.remove(i)) =~= tsm(s).remove(i));
}

/// Builds the per-tag statistics and ranks them: groups with at least one
/// rated item, ordered by descending average rating and, on ties, ascending
/// standard deviation.
pub fn generate_tag_stats(items: &Vec<Item>) -> (res: Vec<TagStats>)
    requires
        forall|i: int| 0 <= i < items@.len() ==> valid_rating(#[trigger] items@[i].rating),
        100 * occs_of(items@).len() <= usize::MAX,
    ensures
        tsm(res@).to_multiset() == kept_models(items@, keys_dedup(occs_of(items@))).to_multiset(),
        forall|i: int| 0 <= i < res@.len() ==> (#[trigger] res@[i]).stats.rating.rated >= 1,
        forall|i: int|
            0 <= i < res@.len() ==> (#[trigger] res@[i]).stats.rated as int == (
            res@[i].stats.rating.rated as int),
        forall|i: int, j: int|
            0 <= i < j < res@.len() ==> !model_before(ts_model(res@[j]), ts_model(res@[i])),
{
    let ghost os = occs_of(items@);
    let ghost keys = keys_dedup(os);
    let groups = classify_by_tags(items);
    proof {
        assert(groups@.map_values(|g: crate::classifier::TagGroup| g.normalized@) == keys);
    }
    let mut cands: Vec<TagStats> = Vec::new();
    let mut gi: usize = 0;
    proof {
        assert(keys.take(0) =~= Seq::<Seq<char>>::empty());
        assert(tsm(cands@) =~= kept_models(items@, keys.take(0)));
    }
    while gi < groups.len()
        invariant
            gi <= groups@.len(),
            os == occs_of(items@),
            keys == keys_dedup(os),
            models_classification(items@, groups@),
            groups@.map_values(|g: crate::classifier::TagGroup| g.normalized@) == keys,
            forall|i: int| 0 <= i < items@.len() ==> valid_rating(#[trigger] items@[i].rating),
            100 * os.len() <= usize::MAX,
            tsm(cands@) == kept_models(items@, keys.take(gi as int)),
            forall|i: int| 0 <= i < cands@.len() ==> (#[trigger] cands@[i]).stats.rating.rated >= 1,
            forall|i: int|
                0 <= i < cands@.len() ==> (#[trigger] cands@[i]).stats.rated as int == (
                cands@[i].stats.rating.rated as int),
        decreases groups@.len() - gi,
    {
        let g = &groups[gi];
        let ghost k = g.normalized@;
        let ghost ms = members_of(os, k);
        proof {
            assert(groups@.map_values(|gg: crate::classifier::TagGroup| gg.normalized@)[gi as int]
                == k);
            assert(keys[gi as int] == k);
            assert(g.members@.map_values(|m: usize| m as int) == ms);
            lemma_members_len_le(os, k);
        }
        let mut h = Histogram::new();
        let mut t: usize = 0;
        proof {
            assert(ms.take(0) =~= Seq::<int>::empty());
            lemma_zero_sums(h.counts(), 11);
        }
        while t < g.members.len()
            invariant
                t <= g.members@.len(),
                os == occs_of(items@),
                models_classification(items@, groups@),
                gi < groups@.len(),
                *g == groups@[gi as int],
                k == g.normalized@,
                ms == members_of(os, k),
                g.members@.map_values(|m: usize| m as int) == ms,
                ms.len() <= os.len(),
                100 * os.len() <= usize::MAX,
                forall|i: int| 0 <= i < items@.len() ==> valid_rating(#[trigger] items@[i].rating),
                h.wf(),
                forall|b: int| 0 <= b < 11 ==> #[trigger] h.counts()[b] as int <= t as int,
                h.counts()[0] as int + rated_upto(h.counts(), 11) == t as int,
                rated_upto(h.counts(), 11) == rated_m(items@, ms.take(t as int)),
                wsum_upto(h.counts(), 11) == sum_m(items@, ms.take(t as int)),
                sqsum_upto(h.counts(), 11) == sq_m(items@, ms.take(t as int)),
            decreases g.members@.len() - t,
        {
            let idx = g.members[t];
            proof {
                assert(ms[t as int] == idx as int);
                assert(groups@[gi as int].members@[t as int] < items@.len());
                assert(idx < items@.len());
                assert(valid_rating(items@[idx as int].rating));
                assert(ms.take(t as int + 1).drop_last() =~= ms.take(t as int));
                assert(ms.take(t as int + 1).last() == ms[t as int]);
            }
            let r = items[idx].rating;
            let ghost oldcounts = h.counts();
            h.add(r);
            proof {
                let b = bucket_of(r);
                let v: usize = (oldcounts[b] + 1) as usize;
                lemma_sums_update(oldcounts, b, v, 11);
                assert(v as int == oldcounts[b] as int + 1);
                assert(b * (v - oldcounts[b]) == b) by (nonlinear_arith)
                    requires
                        v as int - oldcounts[b] as int == 1,
                ;
                assert(b * b * (v - oldcounts[b]) == b * b) by (nonlinear_arith)
                    requires
                        v as int - oldcounts[b] as int == 1,
                ;
            }
            t = t + 1;
        }
        proof {
            assert(ms.take(g.members@.len() as int) =~= ms);
            assert(total_of(h.counts()) == ms.len());
            assert(100 * total_of(h.counts()) <= usize::MAX);
        }
        let st = h.get_stats();
        proof {
            assert(st.rating.rated as int == rated_m(items@, ms));
            assert(st.rating.sum as int == sum_m(items@, ms));
            assert(st.rating.sq_sum as int == sq_m(items@, ms));
            assert(st.total as int == ms.len());
            assert(keys.take(gi as int + 1).drop_last() =~= keys.take(gi as int));
            assert(keys.take(gi as int + 1).last() == keys[gi as int]);
        }
        if st.rated > 0 {
            let tag = g.display.clone();
            let entry = TagStats { tag, stats: st };
            proof {
                assert(g.display@ == display_of(os, k));
                assert(ts_model(entry) == group_model(items@, k));
            }
            cands.push(entry);
            proof {
                assert(tsm(cands@) =~= kept_models(items@, keys.take(gi as int + 1)));
            }
        } else {
            proof {
                assert(rated_m(items@, ms) == 0);
                assert(tsm(cands@) =~= kept_models(items@, keys.take(gi as int + 1)));
            }
        }
        gi = gi + 1;
    }
    proof {
        assert(keys.take(keys.len() as int) =~= keys);
        assert(tsm(cands@) == kept_models(items@, keys));
    }
    let ghost kept = kept_models(items@, keys);
    // selection sort by the ranking order
    let mut out: Vec<TagStats> = Vec::new();
    proof {
        assert(tsm(out@) =~= Seq::<TagStatsModel>::empty());
        assert(tsm(out@).to_multiset().add(tsm(cands@).to_multiset()) =~= kept.to_multiset());
    }
    while cands.len() > 0
        invariant
            tsm(out@).to_multiset().add(tsm(cands@).to_multiset()) == kept.to_multiset(),
            forall|i: int| 0 <= i < out@.len() ==> (#[trigger] out@[i]).stats.rating.rated >= 1,
            forall|i: int|
                0 <= i < out@.len() ==> (#[trigger] out@[i]).stats.rated as int == (
                out@[i].stats.rating.rated as int),
            forall|i: int|
                0 <= i < cands@.len() ==> (#[trigger] cands@[i]).stats.rating.rated >= 1,
            forall|i: int|
                0 <= i < cands@.len() ==> (#[trigger] cands@[i]).stats.rated as int == (
                cands@[i].stats.rating.rated as int),
            forall|i: int, j: int|
                0 <= i < j < out@.len() ==> !model_before(ts_model(out@[j]), ts_model(out@[i])),
            forall|i: int, j: int|
                0 <= i < out@.len() && 0 <= j < cands@.len() ==> !model_before(
                    ts_model(cands@[j]),
                    ts_model(out@[i]),
                ),
        decreases cands@.len(),
    {
        let mut mi: usize = 0;
        let mut t: usize = 1;
        while t < cands.len()
            invariant
                mi < t <= cands@.len(),
                forall|i: int|
                    0 <= i < cands@.len() ==> (#[trigger] cands@[i]).stats.rating.rated >= 1,
                forall|i: int|
                    0 <= i < cands@.len() ==> (#[trigger] cands@[i]).stats.rated as int == (
                    cands@[i].stats.rating.rated as int),
                forall|kk: int|
                    0 <= kk < t ==> !model_before(
                        ts_model(#[trigger] cands@[kk]),
                        ts_model(cands@[mi as int]),
                    ),
            decreases cands@.len() - t,
        {
            if cands[t].stats.rating.ranks_before(&cands[mi].stats.rating) {
                proof {
                    assert(model_before(ts_model(cands@[t as int]), ts_model(cands@[mi as int])));
                    assert forall|kk: int| 0 <= kk < t + 1 implies !model_before(
                        ts_model(#[trigger] cands@[kk]),
                        ts_model(cands@[t as int]),
                    ) by {
                        if kk < t && model_before(
                            ts_model(cands@[kk]),
                            ts_model(cands@[t as int]),
                        ) {
                            lemma_model_before_trans(
                                ts_model(cands@[kk]),
                                ts_model(cands@[t as int]),
                                ts_model(cands@[mi as int]),
                            );
                        }
                    }
                }
                mi = t;
            }
            t = t + 1;
        }
        let ghost oldc = cands@;
        let x = cands.remove(mi);
        proof {
            lemma_tsm_remove(oldc, mi as int);
            assert(tsm(oldc).remove(mi as int).to_multiset() == tsm(oldc).to_multiset().remove(
                ts_model(x),
            ));
            assert(tsm(oldc)[mi as int] == ts_model(x));
            assert(tsm(oldc).to_multiset().count(ts_model(x)) > 0) by {
                assert(tsm(oldc).contains(ts_model(x)));
            };
        }
        let ghost oldout = out@;
        out.push(x);
        proof {
            assert(tsm(out@) =~= tsm(oldout).push(ts_model(x)));
            assert(tsm(out@).to_multiset() == tsm(oldout).to_multiset().insert(ts_model(x)));
            assert(tsm(out@).to_multiset().add(tsm(cands@).to_multiset()) =~= tsm(
                oldout,
            ).to_multiset().add(tsm(oldc).to_multiset()));
            // the chosen entry ranks before nothing already placed, and
            // nothing left ranks before it
            assert forall|i: int, j: int| 0 <= i < out@.len() && 0 <= j < cands@.len() implies
                !model_before(ts_model(cands@[j]), ts_model(out@[i])) by {
                assert(tsm(cands@)[j] == tsm(oldc).remove(mi as int)[j]);
                if j < mi as int {
                    assert(cands@[j] == oldc[j]);
                } else {
                    assert(cands@[j] == oldc[j + 1]);
                }
                if i < out@.len() - 1 {
                    assert(out@[i] == oldout[i]);
                } else {
                    assert(out@[i] == x);
                }
            }
        }
    }
    proof {
        assert(tsm(cands@) =~= Seq::<TagStatsModel>::empty());
        assert(tsm(out@).to_multiset().add(tsm(cands@).to_multiset()) =~= tsm(out@).to_multiset());
    }
    out
}

} // verus!
