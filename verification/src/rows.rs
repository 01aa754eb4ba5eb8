//! Sums over rows, where they are exact: what histograms hold, and what splits make of them.

use vstd::arithmetic::power2::pow2;
use vstd::prelude::*;

use crate::arithmetic::lemma_plus_number;
use crate::bundle::{lemma_total_concat, lemma_total_monotone, lemma_total_prefix, packed_bin, total, FeatureBundle};
use crate::dataset::{bundle_len, lemma_layout, lemma_layout_upto, Dataset};
use crate::double::{Double, Single};
use crate::fixed::{
    few, law_units_add_up, law_units_are_ordered, lemma_not_negative_sum, lemma_sum_below, lemma_sum_listed,
    lemma_sum_plus, lemma_sum_same, lemma_sum_single, lemma_sum_size, lemma_sum_swap, lemma_sum_zero, size_of,
    sum_over,
};
use crate::histogram::{
    all_histograms, bundle_histogram, cell, feature_sizes, histograms_of, lemma_all_histograms_len,
    lemma_bundle_histogram_len, lemma_histograms_of_wf, slot_histogram, HistogramBin, HistogramsView,
};
use crate::parameters::BoosterParameters;
use crate::partition::gathered;
use crate::segments::{laid_out, lemma_laid_out_feature};
use crate::sides::{
    admissible, countable, counted_bins, exact_bin, exact_bins, goes_with_order, law_categorical_split_parts_the_bins,
    law_no_cut_is_better, law_no_numeric_rule_is_better, law_numeric_split_parts_the_bins, lemma_bins_minus,
    lemma_few_zero, lemma_part_is_few, rule_score, sent, whole, Units,
};
use crate::split::{
    best_of, best_split, categorical_candidates, category_order, feature_split, law_best_is_first_maximum,
    law_best_split_is_best, law_split_gains_enough, numeric_candidates, Rule, Split,
};

verus! {

/// The gradients of rows, counted in their unit.
pub open spec fn gradient_units(gh: Seq<[Single; 2]>, u: Units) -> Seq<int> {
    Seq::new(gh.len(), |r: int| gh[r]@[0].widen_spec().value() / pow2(u.gradient) as int)
}

/// Their hessians.
pub open spec fn hessian_units(gh: Seq<[Single; 2]>, u: Units) -> Seq<int> {
    Seq::new(gh.len(), |r: int| gh[r]@[1].widen_spec().value() / pow2(u.hessian) as int)
}

/// Gradients and hessians that can be counted: all are multiples of their units, and so few
/// together that no sum of some of them has to be rounded. Hessians are not negative, and a row
/// without hessian has no gradient.
pub open spec fn counted_rows(gh: Seq<[Single; 2]>, u: Units) -> bool {
    &&& u.wf()
    &&& forall|r: int|
        0 <= r < gh.len() ==> {
            let g = (#[trigger] gh[r])@[0].widen_spec();
            let h = gh[r]@[1].widen_spec();
            &&& g.finite() && g.value() == gradient_units(gh, u)[r] * pow2(u.gradient)
            &&& h.finite() && h.value() == hessian_units(gh, u)[r] * pow2(u.hessian)
            &&& hessian_units(gh, u)[r] >= 0
            &&& hessian_units(gh, u)[r] == 0 ==> gradient_units(gh, u)[r] == 0
        }
    &&& countable(gradient_units(gh, u))
    &&& countable(hessian_units(gh, u))
}

/// What the picked rows have together.
pub open spec fn picked(x: Seq<int>, rows: Set<int>) -> int {
    sum_over(x.len(), |r: int| if rows.contains(r) { x[r] } else { 0 })
}

/// The gradient and the hessian of the picked rows together.
pub open spec fn rows_sum(gh: Seq<[Single; 2]>, u: Units, rows: Set<int>) -> HistogramBin {
    exact_bin(picked(gradient_units(gh, u), rows), picked(hessian_units(gh, u), rows), u)
}

/// The rows that fall into a bin of a feature.
pub open spec fn in_bin(d: &Dataset, rows: Set<int>, f: int, b: int) -> Set<int> {
    rows.filter(|r: int| d.bin(r, f) == b)
}

/// What the rows have in each bin of a feature.
pub open spec fn by_bin(d: &Dataset, x: Seq<int>, rows: Set<int>, f: int) -> Seq<int> {
    Seq::new(d.feature_binners@[f]@.num_bins(), |b: int| picked(x, in_bin(d, rows, f, b)))
}

/// The bins of a feature, each with the sums of the rows that fall into it.
pub open spec fn feature_bins(d: &Dataset, gh: Seq<[Single; 2]>, u: Units, rows: Set<int>, f: int) -> Seq<HistogramBin> {
    exact_bins(by_bin(d, gradient_units(gh, u), rows, f), by_bin(d, hessian_units(gh, u), rows, f), u)
}

/// Histograms that hold the sums of the rows, feature by feature and bin by bin.
pub open spec fn sums_up(d: &Dataset, gh: Seq<[Single; 2]>, u: Units, rows: Set<int>, h: HistogramsView) -> bool {
    &&& h.is_categorical.len() == d.feature_binners@.len()
    &&& forall|f: int|
        0 <= f < d.feature_binners@.len() ==> #[trigger] h.feature(f) == feature_bins(d, gh, u, rows, f)
}

/// The rows that a split sends left, or right.
pub open spec fn rows_sent(d: &Dataset, rows: Set<int>, split: Split, left: bool) -> Set<int> {
    rows.filter(
        |r: int|
            split.rule.goes_left(d.bin(r, split.feature as int), d.sentinel(split.feature as int)) == left,
    )
}

pub(crate) proof fn lemma_picked_few(x: Seq<int>, rows: Set<int>)
    requires
        countable(x),
    ensures
        few(picked(x, rows)),
{
    lemma_part_is_few(x, x.len(), |r: int| if rows.contains(r) { x[r] } else { 0 });
}

/// The rows of a list.
pub open spec fn listed(list: Seq<u32>) -> Set<int> {
    Set::new(|r: int| 0 <= r <= u32::MAX && list.contains(r as u32))
}

/// Where the bins of a slot stand in the histogram of its bundle.
proof fn lemma_slot_at(bundle: FeatureBundle, n: nat, s: int, gh: Seq<[Single; 2]>, rows: Seq<u32>)
    requires
        bundle.wf(),
        0 <= s < n <= bundle.count,
    ensures
        total(bundle.num_bins@, s as nat) + bundle.num_bins@[s] <= bundle_histogram(bundle, n, gh, rows).len(),
        bundle_histogram(bundle, n, gh, rows).subrange(
            total(bundle.num_bins@, s as nat) as int,
            (total(bundle.num_bins@, s as nat) + bundle.num_bins@[s]) as int,
        ) == slot_histogram(bundle, s, gh, rows),
    decreases n,
{
    let m = (n - 1) as nat;
    let sizes = bundle.num_bins@;
    let front = bundle_histogram(bundle, m, gh, rows);
    let all = bundle_histogram(bundle, n, gh, rows);
    lemma_bundle_histogram_len(bundle, n, gh, rows);
    lemma_bundle_histogram_len(bundle, m, gh, rows);
    lemma_total_monotone(sizes, (s + 1) as nat, n);
    let lo = total(sizes, s as nat) as int;
    let hi = lo + sizes[s];
    if s < m {
        lemma_slot_at(bundle, m, s, gh, rows);
        assert(all.subrange(lo, hi) =~= front.subrange(lo, hi));
    } else {
        assert(all.subrange(lo, hi) =~= slot_histogram(bundle, s, gh, rows));
    }
}

/// Where they stand in the histograms of all bundles.
proof fn lemma_feature_at(bundles: Seq<FeatureBundle>, b: int, s: int, gh: Seq<[Single; 2]>, rows: Seq<u32>)
    requires
        forall|b: int| 0 <= b < bundles.len() ==> (#[trigger] bundles[b]).wf(),
        0 <= b < bundles.len(),
        0 <= s < bundles[b].count,
    ensures
        ({
            let f = feature_sizes(bundles.take(b)).len() + s;
            let sizes = feature_sizes(bundles);
            let lo = total(sizes, f as nat) as int;
            let all = all_histograms(bundles, gh, rows);
            &&& f < sizes.len()
            &&& sizes[f] == bundles[b].num_bins@[s]
            &&& lo + sizes[f] <= all.len()
            &&& all.subrange(lo, lo + sizes[f]) == slot_histogram(bundles[b], s, gh, rows)
        }),
    decreases bundles.len(),
{
    let n = bundles.len() - 1;
    let front = bundles.drop_last();
    let last = bundles.last();
    assert(last == bundles[n]);
    assert forall|b: int| 0 <= b < front.len() implies (#[trigger] front[b]).wf() by {
        assert(front[b] == bundles[b]);
    }
    lemma_all_histograms_len(bundles, gh, rows);
    lemma_all_histograms_len(front, gh, rows);
    let sizes = feature_sizes(bundles);
    let before = feature_sizes(front);
    let f = feature_sizes(bundles.take(b)).len() + s;
    let all = all_histograms(bundles, gh, rows);
    if b < n {
        lemma_feature_at(front, b, s, gh, rows);
        assert(front.take(b) =~= bundles.take(b));
        assert(sizes[f] == before[f]);
        lemma_total_prefix(sizes, before, f as nat);
        let lo = total(sizes, f as nat) as int;
        assert(all.subrange(lo, lo + sizes[f]) =~= all_histograms(front, gh, rows).subrange(lo, lo + sizes[f]));
    } else {
        assert(bundles.take(b) =~= front);
        assert(sizes[f] == last.num_bins@[s]);
        lemma_total_concat(before, last.num_bins@, s as nat);
        lemma_slot_at(last, last.count as nat, s, gh, rows);
        let own = bundle_histogram(last, last.count as nat, gh, rows);
        let start = all_histograms(front, gh, rows).len() as int;
        let lo = total(sizes, f as nat) as int;
        let inner = total(last.num_bins@, s as nat) as int;
        assert(lo == start + inner);
        assert(all.subrange(lo, lo + sizes[f]) =~= own.subrange(inner, inner + sizes[f]));
    }
}

/// The histogram of a feature of the data.
proof fn lemma_feature_histogram(d: &Dataset, f: int, gh: Seq<[Single; 2]>, rows: Seq<u32>)
    requires
        d.wf(),
        0 <= f < d.feature_binners@.len(),
    ensures
        laid_out(d, histograms_of(d.feature_bundles@, gh, rows)),
        histograms_of(d.feature_bundles@, gh, rows).feature(f) == slot_histogram(
            d.feature_bundles@[f / 8],
            f % 8,
            gh,
            rows,
        ),
{
    let bundles = d.feature_bundles@;
    let h = histograms_of(bundles, gh, rows);
    let b = f / 8;
    lemma_histograms_of_wf(bundles, gh, rows);
    lemma_layout(*d);
    lemma_layout_upto(*d, b as nat);
    assert(bundles[b].count == bundle_len(d.feature_binners@.len(), b));
    lemma_feature_at(bundles, b, f % 8, gh, rows);
    let sizes = feature_sizes(bundles);
    assert(feature_sizes(bundles.take(b)).len() == 8 * b);
    lemma_total_monotone(sizes, f as nat, sizes.len());
    lemma_total_monotone(sizes, (f + 1) as nat, sizes.len());
    assert(h.offsets[f] == total(sizes, f as nat));
    assert(h.offsets[f + 1] == total(sizes, (f + 1) as nat));
}

/// What a bin holds after the first rows of a list.
proof fn lemma_cell_units(
    packed: Seq<u64>,
    slot: int,
    bin: int,
    gh: Seq<[Single; 2]>,
    u: Units,
    list: Seq<u32>,
    n: nat,
)
    requires
        counted_rows(gh, u),
        list.no_duplicates(),
        forall|i: int| 0 <= i < list.len() ==> (#[trigger] list[i]) < gh.len(),
        n <= list.len(),
    ensures
        ({
            let x = gradient_units(gh, u);
            let y = hessian_units(gh, u);
            cell(packed, slot, bin, gathered(gh, list), list, n, HistogramBin::empty()) == exact_bin(
                sum_over(
                    n,
                    |i: int| if packed_bin(packed[list[i] as int], slot) == bin { x[list[i] as int] } else { 0 },
                ),
                sum_over(
                    n,
                    |i: int| if packed_bin(packed[list[i] as int], slot) == bin { y[list[i] as int] } else { 0 },
                ),
                u,
            )
        }),
    decreases n,
{
    let x = gradient_units(gh, u);
    let y = hessian_units(gh, u);
    let fx = |i: int| if packed_bin(packed[list[i] as int], slot) == bin { x[list[i] as int] } else { 0 };
    let fy = |i: int| if packed_bin(packed[list[i] as int], slot) == bin { y[list[i] as int] } else { 0 };
    if n == 0 {
        lemma_few_zero();
        law_units_are_ordered(0, 0, u.gradient);
        law_units_are_ordered(0, 0, u.hessian);
    } else {
        let m = (n - 1) as nat;
        lemma_cell_units(packed, slot, bin, gh, u, list, m);
        let r = list[m as int] as int;
        assert(sum_over(n, fx) == sum_over(m, fx) + fx(m as int));
        assert(sum_over(n, fy) == sum_over(m, fy) + fy(m as int));
        if packed_bin(packed[r], slot) == bin {
            lemma_list_few(x, list, n, fx);
            lemma_list_few(y, list, n, fy);
            lemma_list_few(x, list, m, fx);
            lemma_list_few(y, list, m, fy);
            let own = gh[r];
            assert(gathered(gh, list)[m as int] == own);
            law_units_add_up(sum_over(m, fx), x[r], u.gradient, own@[0].widen_spec());
            law_units_add_up(sum_over(m, fy), y[r], u.hessian, own@[1].widen_spec());
        }
    }
}

/// Sums over part of a list.
proof fn lemma_list_few(x: Seq<int>, list: Seq<u32>, n: nat, f: spec_fn(int) -> int)
    requires
        countable(x),
        list.no_duplicates(),
        n <= list.len(),
        forall|i: int| 0 <= i < list.len() ==> (#[trigger] list[i]) < x.len(),
        forall|i: int| 0 <= i < n ==> #[trigger] f(i) == 0 || f(i) == x[list[i] as int],
    ensures
        few(sum_over(n, f)),
{
    let part = list.take(n as int).map_values(|r: u32| r as int);
    assert forall|i: int, j: int| 0 <= i < part.len() && 0 <= j < part.len() && i != j implies part[i] != part[j] by {
        assert(list[i] != list[j]);
    }
    assert forall|i: int| 0 <= i < part.len() implies 0 <= (#[trigger] part[i]) < x.len() by {
        assert(part[i] == list[i] as int);
    }
    let size = |r: int| size_of(x[r]);
    lemma_sum_listed(x.len(), part, size);
    let a = |i: int| size(part[i]);
    assert forall|i: int| 0 <= i < n implies size_of(#[trigger] f(i)) <= a(i) by {
        assert(part[i] == list[i] as int);
        assert(f(i) == 0 || f(i) == x[list[i] as int]);
    }
    lemma_sum_size(n, f, a);
    let b = |r: int| if part.contains(r) { size(r) } else { 0 };
    assert forall|r: int| 0 <= r < x.len() implies #[trigger] b(r) <= size(r) by {}
    lemma_sum_below(x.len(), b, size);
}

/// Sums over a list are sums over the rows that it holds.
proof fn lemma_list_picked(x: Seq<int>, list: Seq<u32>, keep: spec_fn(int) -> bool)
    requires
        list.no_duplicates(),
        forall|i: int| 0 <= i < list.len() ==> (#[trigger] list[i]) < x.len(),
        x.len() <= u32::MAX,
    ensures
        sum_over(list.len(), |i: int| if keep(list[i] as int) { x[list[i] as int] } else { 0 }) == picked(
            x,
            listed(list).filter(keep),
        ),
{
    let all = list.map_values(|r: u32| r as int);
    let f = |r: int| if keep(r) { x[r] } else { 0 };
    assert forall|i: int, j: int| 0 <= i < all.len() && 0 <= j < all.len() && i != j implies all[i] != all[j] by {
        assert(list[i] != list[j]);
    }
    assert forall|i: int| 0 <= i < all.len() implies 0 <= (#[trigger] all[i]) < x.len() by {
        assert(all[i] == list[i] as int);
    }
    lemma_sum_listed(x.len(), all, f);
    let a = |i: int| f(all[i]);
    let b = |i: int| if keep(list[i] as int) { x[list[i] as int] } else { 0 };
    lemma_sum_same(list.len(), a, b);
    let c = |r: int| if all.contains(r) { f(r) } else { 0 };
    let rows = listed(list).filter(keep);
    let e = |r: int| if rows.contains(r) { x[r] } else { 0 };
    assert forall|r: int| 0 <= r < x.len() implies #[trigger] c(r) == e(r) by {
        if all.contains(r) {
            let i = choose|i: int| 0 <= i < all.len() && all[i] == r;
            assert(list[i] == r as u32);
        } else if list.contains(r as u32) {
            let i = choose|i: int| 0 <= i < list.len() && list[i] == r as u32;
            assert(all[i] == r);
        }
    }
    lemma_sum_same(x.len(), c, e);
}

/// The histograms that are built from rows hold, for each feature and bin, the exact sums of the
/// gradients and hessians of the rows that fall into the bin.
pub proof fn law_histograms_hold_the_sums(d: &Dataset, gh: Seq<[Single; 2]>, u: Units, list: Seq<u32>)
    requires
        d.wf(),
        d.num_rows <= u32::MAX,
        gh.len() == d.num_rows,
        counted_rows(gh, u),
        list.no_duplicates(),
        forall|i: int| 0 <= i < list.len() ==> (#[trigger] list[i]) < d.num_rows,
    ensures
        laid_out(d, histograms_of(d.feature_bundles@, gathered(gh, list), list)),
        sums_up(d, gh, u, listed(list), histograms_of(d.feature_bundles@, gathered(gh, list), list)),
        forall|f: int|
            0 <= f < d.feature_binners@.len() ==> #[trigger] histograms_of(
                d.feature_bundles@,
                gathered(gh, list),
                list,
            ).is_categorical[f] == (d.feature_binners@[f]@ is Categorical),
{
    let h = histograms_of(d.feature_bundles@, gathered(gh, list), list);
    let x = gradient_units(gh, u);
    let y = hessian_units(gh, u);
    lemma_layout(*d);
    lemma_histograms_of_wf(d.feature_bundles@, gathered(gh, list), list);
    assert forall|f: int| 0 <= f < d.feature_binners@.len() implies #[trigger] h.feature(f) == feature_bins(
        d,
        gh,
        u,
        listed(list),
        f,
    ) by {
        lemma_feature_histogram(d, f, gathered(gh, list), list);
        let bundle = d.feature_bundles@[f / 8];
        let packed = bundle.packed_bins@;
        let s = f % 8;
        let want = feature_bins(d, gh, u, listed(list), f);
        assert(bundle.num_bins@[s] == d.feature_binners@[f]@.num_bins());
        assert forall|b: int| 0 <= b < want.len() implies slot_histogram(bundle, s, gathered(gh, list), list)[b]
            == #[trigger] want[b] by {
            lemma_cell_units(packed, s, b, gh, u, list, list.len());
            let keep = |r: int| d.bin(r, f) == b;
            lemma_list_picked(x, list, keep);
            lemma_list_picked(y, list, keep);
            lemma_sum_same(
                list.len(),
                |i: int| if keep(list[i] as int) { x[list[i] as int] } else { 0 },
                |i: int| if packed_bin(packed[list[i] as int], s) == b { x[list[i] as int] } else { 0 },
            );
            lemma_sum_same(
                list.len(),
                |i: int| if keep(list[i] as int) { y[list[i] as int] } else { 0 },
                |i: int| if packed_bin(packed[list[i] as int], s) == b { y[list[i] as int] } else { 0 },
            );
        }
        assert(slot_histogram(bundle, s, gathered(gh, list), list) =~= want);
    }
}

/// The rows of the data.
pub open spec fn rows_of(d: &Dataset) -> Set<int> {
    Set::new(|r: int| 0 <= r < d.num_rows)
}

pub(crate) proof fn lemma_bin_in_range(d: &Dataset, r: int, f: int)
    requires
        d.wf(),
        0 <= r < d.num_rows,
        0 <= f < d.feature_binners@.len(),
    ensures
        d.bin(r, f) < d.feature_binners@[f]@.num_bins(),
        1 <= d.feature_binners@[f]@.num_bins() <= 256,
        d.sentinel(f) == d.feature_binners@[f]@.num_bins() - 1,
{
    let bundle = d.feature_bundles@[f / 8];
    assert(bundle.wf());
    assert(d.feature_binners@[f]@.wf());
    assert(bundle.num_bins@[f % 8] == d.feature_binners@[f]@.num_bins());
    assert(packed_bin(bundle.packed_bins@[r], f % 8) < bundle.num_bins@[f % 8]);
}

/// Sums over the bins of a feature, some of them left out, are sums over rows.
proof fn lemma_bins_to_rows(d: &Dataset, x: Seq<int>, rows: Set<int>, f: int, keep: spec_fn(int) -> bool)
    requires
        d.wf(),
        x.len() == d.num_rows,
        0 <= f < d.feature_binners@.len(),
    ensures
        sum_over(
            d.feature_binners@[f]@.num_bins(),
            |b: int| if keep(b) { by_bin(d, x, rows, f)[b] } else { 0 },
        ) == picked(x, rows.filter(|r: int| keep(d.bin(r, f) as int))),
{
    let n = d.feature_binners@[f]@.num_bins();
    let m = x.len();
    let part = |b: int, r: int| if keep(b) && rows.contains(r) && d.bin(r, f) == b { x[r] } else { 0 };
    lemma_sum_swap(n, m, part);
    let a = |b: int| if keep(b) { by_bin(d, x, rows, f)[b] } else { 0 };
    let a2 = |b: int| sum_over(m, |r: int| part(b, r));
    assert forall|b: int| 0 <= b < n implies #[trigger] a(b) == a2(b) by {
        let inner = |r: int| part(b, r);
        if keep(b) {
            let own = in_bin(d, rows, f, b);
            lemma_sum_same(m, inner, |r: int| if own.contains(r) { x[r] } else { 0 });
        } else {
            lemma_sum_zero(m, inner);
        }
    }
    lemma_sum_same(n, a, a2);
    let kept = rows.filter(|r: int| keep(d.bin(r, f) as int));
    let c = |r: int| if kept.contains(r) { x[r] } else { 0 };
    let c2 = |r: int| sum_over(n, |b: int| part(b, r));
    assert forall|r: int| 0 <= r < m implies #[trigger] c(r) == c2(r) by {
        lemma_bin_in_range(d, r, f);
        let inner = |b: int| part(b, r);
        lemma_sum_single(n, inner, d.bin(r, f) as int);
    }
    lemma_sum_same(m, c, c2);
}

/// The bins of a feature together have what the rows have.
pub(crate) proof fn lemma_whole_rows(d: &Dataset, x: Seq<int>, rows: Set<int>, f: int)
    requires
        d.wf(),
        x.len() == d.num_rows,
        0 <= f < d.feature_binners@.len(),
    ensures
        whole(by_bin(d, x, rows, f)) == picked(x, rows),
{
    let keep = |b: int| true;
    lemma_bins_to_rows(d, x, rows, f, keep);
    let n = d.feature_binners@[f]@.num_bins();
    lemma_sum_same(
        n,
        |b: int| by_bin(d, x, rows, f)[b],
        |b: int| if keep(b) { by_bin(d, x, rows, f)[b] } else { 0 },
    );
    assert(rows.filter(|r: int| keep(d.bin(r, f) as int)) =~= rows);
}

/// What a rule sends to a side is what the rows have that it sends there.
pub(crate) proof fn lemma_sent_rows(d: &Dataset, x: Seq<int>, rows: Set<int>, split: Split, left: bool)
    requires
        d.wf(),
        x.len() == d.num_rows,
        split.feature < d.feature_binners@.len(),
        rows.subset_of(rows_of(d)),
    ensures
        sent(by_bin(d, x, rows, split.feature as int), split.rule, left) == picked(x, rows_sent(d, rows, split, left)),
{
    let f = split.feature as int;
    let n = d.feature_binners@[f]@.num_bins();
    let y = by_bin(d, x, rows, f);
    assert(d.feature_binners@[f]@.wf());
    let keep = |b: int| split.rule.goes_left(b as u8, (n - 1) as u8) == left;
    lemma_bins_to_rows(d, x, rows, f, keep);
    lemma_sum_same(
        n,
        |b: int| if split.rule.goes_left(b as u8, (y.len() - 1) as u8) == left { y[b] } else { 0 },
        |b: int| if keep(b) { y[b] } else { 0 },
    );
    let a = rows.filter(|r: int| keep(d.bin(r, f) as int));
    let b = rows_sent(d, rows, split, left);
    assert forall|r: int| a.contains(r) <==> b.contains(r) by {
        if rows.contains(r) {
            assert(rows_of(d).contains(r));
            lemma_bin_in_range(d, r, f);
        }
    }
    assert(a =~= b);
}

/// The bins of a feature can be counted as the rows can.
pub(crate) proof fn lemma_counted_bins(d: &Dataset, gh: Seq<[Single; 2]>, u: Units, rows: Set<int>, f: int)
    requires
        d.wf(),
        gh.len() == d.num_rows,
        counted_rows(gh, u),
        0 <= f < d.feature_binners@.len(),
    ensures
        counted_bins(by_bin(d, gradient_units(gh, u), rows, f), by_bin(d, hessian_units(gh, u), rows, f), u),
{
    let x = gradient_units(gh, u);
    let y = hessian_units(gh, u);
    let g = by_bin(d, x, rows, f);
    let h = by_bin(d, y, rows, f);
    assert(d.feature_binners@[f]@.wf());
    lemma_by_bin_countable(d, x, rows, f);
    lemma_by_bin_countable(d, y, rows, f);
    assert forall|b: int| 0 <= b < h.len() implies #[trigger] h[b] >= 0 && (h[b] == 0 ==> g[b] == 0) by {
        let own = in_bin(d, rows, f, b);
        let hs = |r: int| if own.contains(r) { y[r] } else { 0 };
        let gs = |r: int| if own.contains(r) { x[r] } else { 0 };
        assert forall|r: int| 0 <= r < y.len() implies #[trigger] hs(r) >= 0 by {
            lemma_counted_row(gh, u, r);
        }
        lemma_not_negative_sum(y.len(), hs);
        if h[b] == 0 {
            assert forall|r: int| 0 <= r < x.len() implies #[trigger] gs(r) == 0 by {
                assert(hs(r) == 0);
                lemma_counted_row(gh, u, r);
            }
            lemma_sum_zero(x.len(), gs);
        }
    }
}

/// What holds of a row that can be counted.
pub(crate) proof fn lemma_counted_row(gh: Seq<[Single; 2]>, u: Units, r: int)
    requires
        counted_rows(gh, u),
        0 <= r < gh.len(),
    ensures
        hessian_units(gh, u)[r] >= 0,
        hessian_units(gh, u)[r] == 0 ==> gradient_units(gh, u)[r] == 0,
{
    assert(gh[r] == gh[r]);
}

proof fn lemma_by_bin_countable(d: &Dataset, x: Seq<int>, rows: Set<int>, f: int)
    requires
        d.wf(),
        x.len() == d.num_rows,
        countable(x),
        0 <= f < d.feature_binners@.len(),
    ensures
        countable(by_bin(d, x, rows, f)),
{
    let sizes = Seq::new(x.len(), |r: int| size_of(x[r]));
    let y = by_bin(d, x, rows, f);
    let z = by_bin(d, sizes, rows, f);
    let a = |b: int| size_of(y[b]);
    let c = |b: int| z[b];
    assert forall|b: int| 0 <= b < y.len() implies #[trigger] a(b) <= c(b) by {
        let own = in_bin(d, rows, f, b);
        lemma_sum_size(
            x.len(),
            |r: int| if own.contains(r) { x[r] } else { 0 },
            |r: int| if own.contains(r) { sizes[r] } else { 0 },
        );
    }
    lemma_sum_below(y.len(), a, c);
    lemma_whole_rows(d, sizes, rows, f);
    let e = |r: int| if rows.contains(r) { sizes[r] } else { 0 };
    let all = |r: int| size_of(x[r]);
    assert forall|r: int| 0 <= r < x.len() implies #[trigger] e(r) <= all(r) by {}
    lemma_sum_below(x.len(), e, all);
}

/// Rows apart from each other have together what each of the two has.
pub(crate) proof fn lemma_picked_apart(x: Seq<int>, a: Set<int>, b: Set<int>, all: Set<int>)
    requires
        forall|r: int| all.contains(r) <==> (a.contains(r) || b.contains(r)),
        forall|r: int| !(a.contains(r) && b.contains(r)),
    ensures
        picked(x, all) == picked(x, a) + picked(x, b),
{
    lemma_sum_plus(
        x.len(),
        |r: int| if a.contains(r) { x[r] } else { 0 },
        |r: int| if b.contains(r) { x[r] } else { 0 },
        |r: int| if all.contains(r) { x[r] } else { 0 },
    );
}

/// Taking the histograms of some rows away leaves those of the others.
pub proof fn law_other_rows_are_left(
    d: &Dataset,
    gh: Seq<[Single; 2]>,
    u: Units,
    all: Set<int>,
    some: Set<int>,
    rest: Set<int>,
    a: HistogramsView,
    b: HistogramsView,
)
    requires
        d.wf(),
        gh.len() == d.num_rows,
        counted_rows(gh, u),
        forall|r: int| all.contains(r) <==> (some.contains(r) || rest.contains(r)),
        forall|r: int| !(some.contains(r) && rest.contains(r)),
        laid_out(d, a),
        laid_out(d, b),
        sums_up(d, gh, u, all, a),
        sums_up(d, gh, u, some, b),
    ensures
        laid_out(d, a.minus_spec(b)),
        sums_up(d, gh, u, rest, a.minus_spec(b)),
{
    let c = a.minus_spec(b);
    let x = gradient_units(gh, u);
    let y = hessian_units(gh, u);
    lemma_layout(*d);
    assert(c.wf());
    assert forall|f: int| 0 <= f < d.feature_binners@.len() implies #[trigger] c.feature(f) == feature_bins(
        d,
        gh,
        u,
        rest,
        f,
    ) by {
        lemma_laid_out_feature(d, a, f);
        lemma_laid_out_feature(d, b, f);
        lemma_laid_out_feature(d, c, f);
        let lo = a.offsets[f] as int;
        assert(a.offsets[f] <= a.bins.len() && a.offsets[f + 1] <= a.bins.len());
        assert(b.offsets[f] <= b.bins.len() && b.offsets[f + 1] <= b.bins.len());
        let want = feature_bins(d, gh, u, rest, f);
        assert(a.feature(f) == feature_bins(d, gh, u, all, f));
        assert(b.feature(f) == feature_bins(d, gh, u, some, f));
        assert forall|k: int| 0 <= k < want.len() implies c.feature(f)[k] == #[trigger] want[k] by {
            assert(c.feature(f)[k] == a.feature(f)[k].minus_spec(b.feature(f)[k]));
            let ra = in_bin(d, all, f, k);
            let rb = in_bin(d, some, f, k);
            let rc = in_bin(d, rest, f, k);
            lemma_picked_apart(x, rb, rc, ra);
            lemma_picked_apart(y, rb, rc, ra);
            lemma_picked_few(x, ra);
            lemma_picked_few(x, rb);
            lemma_picked_few(x, rc);
            lemma_picked_few(y, ra);
            lemma_picked_few(y, rb);
            lemma_picked_few(y, rc);
            lemma_bins_minus(picked(x, ra), picked(y, ra), picked(x, rb), picked(y, rb), u);
        }
        assert(c.feature(f) =~= want);
    }
}

/// The sums that a split names for its sides are those of the rows that it sends there.
pub proof fn law_split_parts_the_rows(
    d: &Dataset,
    gh: Seq<[Single; 2]>,
    u: Units,
    rows: Set<int>,
    h: HistogramsView,
    parent_score: Double,
    p: BoosterParameters,
)
    requires
        d.wf(),
        gh.len() == d.num_rows,
        counted_rows(gh, u),
        rows.subset_of(rows_of(d)),
        laid_out(d, h),
        sums_up(d, gh, u, rows, h),
        parent_score.finite(),
        !p.min_gain_to_split.nan(),
    ensures
        best_split(h, d.feature_binners@.len(), rows_sum(gh, u, rows), parent_score, p) matches Some(s) ==> {
            &&& s.feature < d.feature_binners@.len()
            &&& s.left == rows_sum(gh, u, rows_sent(d, rows, s, true))
            &&& s.right == rows_sum(gh, u, rows_sent(d, rows, s, false))
        },
{
    let n = d.feature_binners@.len();
    let all = rows_sum(gh, u, rows);
    let x = gradient_units(gh, u);
    let y = hessian_units(gh, u);
    law_split_gains_enough(h, n, all, parent_score, p);
    if let Some(s) = best_split(h, n, all, parent_score, p) {
        let f = s.feature as int;
        assert(h.feature(f) == feature_bins(d, gh, u, rows, f));
        lemma_counted_bins(d, gh, u, rows, f);
        lemma_whole_rows(d, x, rows, f);
        lemma_whole_rows(d, y, rows, f);
        law_numeric_split_parts_the_bins(by_bin(d, x, rows, f), by_bin(d, y, rows, f), u, parent_score, p);
        law_categorical_split_parts_the_bins(by_bin(d, x, rows, f), by_bin(d, y, rows, f), u, parent_score, p);
        lemma_sent_rows(d, x, rows, s, true);
        lemma_sent_rows(d, y, rows, s, true);
        lemma_sent_rows(d, x, rows, s, false);
        lemma_sent_rows(d, y, rows, s, false);
    }
}

// ---------------------------------------------------------------------------------------
// The best split of rows
// ---------------------------------------------------------------------------------------

/// The picked rows in their order.
pub open spec fn in_order(d: &Dataset, rows: Set<int>) -> Seq<u32> {
    Seq::new(d.num_rows as nat, |r: int| r as u32).filter(|r: u32| rows.contains(r as int))
}

/// The histograms of the picked rows.
pub open spec fn rows_histograms(d: &Dataset, gh: Seq<[Single; 2]>, rows: Set<int>) -> HistogramsView {
    histograms_of(d.feature_bundles@, gathered(gh, in_order(d, rows)), in_order(d, rows))
}

proof fn lemma_in_order(d: &Dataset, rows: Set<int>)
    requires
        d.num_rows <= u32::MAX,
        rows.subset_of(rows_of(d)),
    ensures
        in_order(d, rows).no_duplicates(),
        forall|i: int| 0 <= i < in_order(d, rows).len() ==> (#[trigger] in_order(d, rows)[i]) < d.num_rows,
        listed(in_order(d, rows)) == rows,
{
    let all = Seq::new(d.num_rows as nat, |r: int| r as u32);
    let keep = |r: u32| rows.contains(r as int);
    let some = in_order(d, rows);
    lemma_filter_no_duplicates(all, keep);
    assert forall|i: int| 0 <= i < some.len() implies (#[trigger] some[i]) < d.num_rows && rows.contains(some[i] as int) by {
        all.lemma_filter_pred(keep, i);
        assert(some.contains(some[i]));
        all.lemma_filter_contains_rev(keep, some[i]);
        let j = choose|j: int| 0 <= j < all.len() && all[j] == some[i];
        assert(all[j] == j as u32);
    }
    assert forall|r: int| listed(some).contains(r) <==> rows.contains(r) by {
        if listed(some).contains(r) {
            let i = choose|i: int| 0 <= i < some.len() && some[i] == r as u32;
            assert(rows.contains(some[i] as int));
        }
        if rows.contains(r) {
            assert(rows_of(d).contains(r));
            assert(all[r] == r as u32);
            all.lemma_filter_contains(keep, r);
        }
    }
    assert(listed(some) =~= rows);
}

pub(crate) proof fn lemma_filter_no_duplicates(s: Seq<u32>, keep: spec_fn(u32) -> bool)
    requires
        s.no_duplicates(),
    ensures
        s.filter(keep).no_duplicates(),
    decreases s.len(),
{
    reveal(Seq::filter);
    if s.len() > 0 {
        let shorter = s.drop_last();
        lemma_filter_no_duplicates(shorter, keep);
        let f = shorter.filter(keep);
        if keep(s.last()) {
            assert(!f.contains(s.last())) by {
                if f.contains(s.last()) {
                    shorter.lemma_filter_contains_rev(keep, s.last());
                    let j = choose|j: int| 0 <= j < shorter.len() && shorter[j] == s.last();
                    assert(s[j] == s[s.len() - 1]);
                }
            }
            assert(s.filter(keep) == f.push(s.last()));
            assert forall|i: int, j: int| 0 <= i < f.len() + 1 && 0 <= j < f.len() + 1 && i != j implies f.push(
                s.last(),
            )[i] != f.push(s.last())[j] by {
                if i < f.len() {
                    assert(f.contains(f[i]));
                }
                if j < f.len() {
                    assert(f.contains(f[j]));
                }
            }
        }
    }
}

/// The best split depends on the histograms of the features alone.
proof fn lemma_same_best_split(
    a: HistogramsView,
    b: HistogramsView,
    n: nat,
    all: HistogramBin,
    parent_score: Double,
    p: BoosterParameters,
)
    requires
        forall|f: int| 0 <= f < n ==> #[trigger] a.feature(f) == b.feature(f),
        forall|f: int| 0 <= f < n ==> #[trigger] a.is_categorical[f] == b.is_categorical[f],
    ensures
        best_split(a, n, all, parent_score, p) == best_split(b, n, all, parent_score, p),
    decreases n,
{
    if n > 0 {
        lemma_same_best_split(a, b, (n - 1) as nat, all, parent_score, p);
        assert(a.feature(n - 1) == b.feature(n - 1));
        assert(a.is_categorical[n - 1] == b.is_categorical[n - 1]);
    }
}

/// The histograms of rows hold their sums.
pub(crate) proof fn lemma_rows_histograms(d: &Dataset, gh: Seq<[Single; 2]>, u: Units, rows: Set<int>)
    requires
        d.wf(),
        d.num_rows <= u32::MAX,
        gh.len() == d.num_rows,
        counted_rows(gh, u),
        rows.subset_of(rows_of(d)),
    ensures
        laid_out(d, rows_histograms(d, gh, rows)),
        sums_up(d, gh, u, rows, rows_histograms(d, gh, rows)),
        rows_histograms(d, gh, rows).is_categorical.len() == d.feature_binners@.len(),
{
    lemma_in_order(d, rows);
    law_histograms_hold_the_sums(d, gh, u, in_order(d, rows));
}

/// Histograms that hold the sums of rows have the rows' best split.
pub(crate) proof fn lemma_best_split_of_rows(
    d: &Dataset,
    gh: Seq<[Single; 2]>,
    u: Units,
    rows: Set<int>,
    h: HistogramsView,
    all: HistogramBin,
    parent_score: Double,
    p: BoosterParameters,
)
    requires
        d.wf(),
        d.num_rows <= u32::MAX,
        gh.len() == d.num_rows,
        counted_rows(gh, u),
        rows.subset_of(rows_of(d)),
        laid_out(d, h),
        sums_up(d, gh, u, rows, h),
    ensures
        best_split(h, h.is_categorical.len(), all, parent_score, p) == best_split(
            rows_histograms(d, gh, rows),
            rows_histograms(d, gh, rows).is_categorical.len(),
            all,
            parent_score,
            p,
        ),
        h.is_categorical.len() == d.feature_binners@.len(),
        laid_out(d, rows_histograms(d, gh, rows)),
        sums_up(d, gh, u, rows, rows_histograms(d, gh, rows)),
{
    lemma_in_order(d, rows);
    law_histograms_hold_the_sums(d, gh, u, in_order(d, rows));
    let k = rows_histograms(d, gh, rows);
    assert forall|f: int| 0 <= f < d.feature_binners@.len() implies #[trigger] h.feature(f) == k.feature(f) by {
        assert(k.feature(f) == feature_bins(d, gh, u, rows, f));
    }
    lemma_same_best_split(h, k, d.feature_binners@.len(), all, parent_score, p);
}

/// No numeric rule of a feature does better than the best split of rows, as long as both its
/// sides hold enough of them; where there is no split, none gains enough.
pub proof fn law_no_rule_is_better(
    d: &Dataset,
    gh: Seq<[Single; 2]>,
    u: Units,
    rows: Set<int>,
    parent_score: Double,
    p: BoosterParameters,
    f: int,
    rule: Rule,
)
    requires
        d.wf(),
        d.num_rows <= u32::MAX,
        gh.len() == d.num_rows,
        counted_rows(gh, u),
        rows.subset_of(rows_of(d)),
        parent_score.finite(),
        !p.min_gain_to_split.nan(),
        0 <= f < d.feature_binners@.len(),
        ({
            let g = by_bin(d, gradient_units(gh, u), rows, f);
            let h = by_bin(d, hessian_units(gh, u), rows, f);
            &&& admissible(h, u, rule, p)
            &&& !rule_score(g, h, u, rule, p).nan()
            &&& match rule {
                Rule::Numeric { bin, .. } => d.feature_binners@[f]@ is Numerical && bin + 1
                    < d.feature_binners@[f]@.num_bins(),
                Rule::Categorical(cats) => d.feature_binners@[f]@ is Categorical && goes_with_order(g, h, u, cats),
            }
        }),
    ensures
        ({
            let g = by_bin(d, gradient_units(gh, u), rows, f);
            let h = by_bin(d, hessian_units(gh, u), rows, f);
            let k = rows_histograms(d, gh, rows);
            let gain = rule_score(g, h, u, rule, p).minus_spec(parent_score);
            match best_split(k, k.is_categorical.len(), rows_sum(gh, u, rows), parent_score, p) {
                Some(s) => !s.gain.lt_spec(gain),
                None => gain.le_spec(p.min_gain_to_split),
            }
        }),
{
    let g = by_bin(d, gradient_units(gh, u), rows, f);
    let h = by_bin(d, hessian_units(gh, u), rows, f);
    let k = rows_histograms(d, gh, rows);
    let all = rows_sum(gh, u, rows);
    let n = d.feature_binners@.len();
    lemma_in_order(d, rows);
    law_histograms_hold_the_sums(d, gh, u, in_order(d, rows));
    lemma_layout(*d);
    lemma_laid_out_feature(d, k, f);
    lemma_counted_bins(d, gh, u, rows, f);
    lemma_whole_rows(d, gradient_units(gh, u), rows, f);
    lemma_whole_rows(d, hessian_units(gh, u), rows, f);
    assert(k.feature(f) == feature_bins(d, gh, u, rows, f));
    match rule {
        Rule::Numeric { .. } => {
            law_no_numeric_rule_is_better(g, h, u, parent_score, p, rule);
        },
        Rule::Categorical(cats) => {
            law_no_cut_is_better(g, h, u, parent_score, p, cats);
        },
    }
    assert forall|i: int| 0 <= i < n implies (#[trigger] feature_split(k, i, all, parent_score, p) matches Some(s)
        ==> !s.gain.nan()) by {
        lemma_gain_number(k, i, all, parent_score, p);
    }
    law_best_split_is_best(k, n, all, parent_score, p);
    let own = feature_split(k, f, all, parent_score, p);
    let gain = rule_score(g, h, u, rule, p).minus_spec(parent_score);
    if own is None {
        law_split_gains_enough(k, n, all, parent_score, p);
        if let Some(s) = best_split(k, n, all, parent_score, p) {
            assert(feature_split(k, s.feature as int, all, parent_score, p) == Some(s));
        }
    }
}

/// A gain is a number where the score of the leaf is finite.
pub(crate) proof fn lemma_gain_number(h: HistogramsView, f: int, all: HistogramBin, parent_score: Double, p: BoosterParameters)
    requires
        parent_score.finite(),
    ensures
        feature_split(h, f, all, parent_score, p) matches Some(s) ==> !s.gain.nan(),
{
    let bins = h.feature(f);
    let a = numeric_candidates(bins, all);
    law_best_is_first_maximum(a, a.len(), p);
    lemma_plus_number(best_of(a, a.len(), p).score, parent_score.neg_spec());
    let c = categorical_candidates(bins, category_order(bins, bins.len()), all);
    law_best_is_first_maximum(c, c.len(), p);
    lemma_plus_number(best_of(c, c.len(), p).score, parent_score.neg_spec());
}

} // verus!
