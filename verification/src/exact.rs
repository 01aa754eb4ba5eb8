//! What holds of histograms, leaf values and splits where sums are exact: where no sum has to
//! be rounded, they are what they would be in exact arithmetic.

use vstd::arithmetic::power2::{lemma2_to64_rest, lemma_pow2_adds, lemma_pow2_pos, lemma_pow2_unfold, pow2};
use vstd::prelude::*;

use crate::arithmetic::{
    law_exact_product, law_exact_quotient, law_exact_sum, lemma_plus_ordinal, lemma_size_positive, lemma_value_order,
};
use crate::bundle::{packed_bin, FeatureBundle};
use crate::double::{signed, Double, Single};
use crate::growth::value_of;
use crate::histogram::{
    all_histograms, bundle_histogram, cell, histograms_of, slot_histogram, HistogramBin,
};
use crate::partition::gathered;
use crate::rounding::{lemma_grid_at, lemma_grid_monotone};
use crate::split::score_of;

verus! {

// ---------------------------------------------------------------------------------------
// Sums of rows
// ---------------------------------------------------------------------------------------

/// What a row adds to the gradient (`which` is 0) or the hessian (1) of a bin, in units of the
/// least positive number.
pub open spec fn share(packed: Seq<u64>, slot: int, bin: int, grad_hess: Seq<[Single; 2]>, row: u32, which: int) -> int {
    if packed_bin(packed[row as int], slot) == bin {
        grad_hess[row as int]@[which].widen_spec().value()
    } else {
        0
    }
}

/// The exact sum of what rows add to a bin.
pub open spec fn exact_sum(
    packed: Seq<u64>,
    slot: int,
    bin: int,
    grad_hess: Seq<[Single; 2]>,
    rows: Seq<u32>,
    which: int,
) -> int
    decreases rows.len(),
{
    if rows.len() == 0 {
        0
    } else {
        exact_sum(packed, slot, bin, grad_hess, rows.drop_last(), which) + share(
            packed,
            slot,
            bin,
            grad_hess,
            rows.last(),
            which,
        )
    }
}

/// A number with its exact value.
pub open spec fn holds(x: Double, value: int) -> bool {
    x.finite() && x.value() == value
}

/// No sum on the way to that of a bin has to be rounded.
pub open spec fn exact_cell(packed: Seq<u64>, slot: int, bin: int, grad_hess: Seq<[Single; 2]>, rows: Seq<u32>) -> bool {
    forall|m: nat|
        m <= rows.len() ==> {
            let c = #[trigger] cell(packed, slot, bin, gathered(grad_hess, rows), rows, m, HistogramBin::empty());
            &&& holds(c.sum_gradients, exact_sum(packed, slot, bin, grad_hess, rows.take(m as int), 0))
            &&& holds(c.sum_hessians, exact_sum(packed, slot, bin, grad_hess, rows.take(m as int), 1))
        }
}

/// No sum of the histograms of the rows has to be rounded.
pub open spec fn exact_histograms(bundles: Seq<FeatureBundle>, grad_hess: Seq<[Single; 2]>, rows: Seq<u32>) -> bool {
    forall|b: int, slot: int, bin: int|
        0 <= b < bundles.len() && 0 <= slot < bundles[b].count && 0 <= bin < bundles[b].num_bins@[slot]
            ==> #[trigger] exact_cell(bundles[b].packed_bins@, slot, bin, grad_hess, rows)
}

proof fn lemma_exact_sum_remove(
    packed: Seq<u64>,
    slot: int,
    bin: int,
    grad_hess: Seq<[Single; 2]>,
    rows: Seq<u32>,
    i: int,
    which: int,
)
    requires
        0 <= i < rows.len(),
    ensures
        exact_sum(packed, slot, bin, grad_hess, rows, which) == exact_sum(
            packed,
            slot,
            bin,
            grad_hess,
            rows.remove(i),
            which,
        ) + share(packed, slot, bin, grad_hess, rows[i], which),
    decreases rows.len(),
{
    if i == rows.len() - 1 {
        assert(rows.remove(i) =~= rows.drop_last());
    } else {
        lemma_exact_sum_remove(packed, slot, bin, grad_hess, rows.drop_last(), i, which);
        assert(rows.remove(i).drop_last() =~= rows.drop_last().remove(i));
        assert(rows.remove(i).last() == rows.last());
    }
}

/// Exact sums do not depend on the order of the rows.
proof fn lemma_exact_sum_by_contents(
    packed: Seq<u64>,
    slot: int,
    bin: int,
    grad_hess: Seq<[Single; 2]>,
    s: Seq<u32>,
    t: Seq<u32>,
    which: int,
)
    requires
        s.to_multiset() == t.to_multiset(),
    ensures
        exact_sum(packed, slot, bin, grad_hess, s, which) == exact_sum(packed, slot, bin, grad_hess, t, which),
    decreases s.len(),
{
    broadcast use vstd::seq_lib::group_to_multiset_ensures;
    assert(s.len() == s.to_multiset().len());
    assert(t.len() == t.to_multiset().len());
    if s.len() > 0 {
        let x = s.last();
        assert(s.contains(x));
        assert(t.to_multiset().count(x) > 0);
        assert(t.contains(x));
        let i = choose|i: int| 0 <= i < t.len() && t[i] == x;
        assert(s.drop_last() =~= s.remove(s.len() - 1));
        lemma_exact_sum_by_contents(packed, slot, bin, grad_hess, s.drop_last(), t.remove(i), which);
        lemma_exact_sum_remove(packed, slot, bin, grad_hess, t, i, which);
    }
}

proof fn lemma_exact_sum_concat(
    packed: Seq<u64>,
    slot: int,
    bin: int,
    grad_hess: Seq<[Single; 2]>,
    s: Seq<u32>,
    t: Seq<u32>,
    which: int,
)
    ensures
        exact_sum(packed, slot, bin, grad_hess, s + t, which) == exact_sum(packed, slot, bin, grad_hess, s, which)
            + exact_sum(packed, slot, bin, grad_hess, t, which),
    decreases t.len(),
{
    if t.len() == 0 {
        assert(s + t =~= s);
    } else {
        lemma_exact_sum_concat(packed, slot, bin, grad_hess, s, t.drop_last(), which);
        assert((s + t).drop_last() =~= s + t.drop_last());
    }
}

/// A finite number that is not the negative zero.
spec fn plain(x: Double) -> bool {
    x.finite() && (x.is_zero() ==> !x.negative())
}

proof fn lemma_value_zero(x: Double)
    requires
        x.finite(),
    ensures
        x.value() == 0 <==> x.is_zero(),
{
    lemma_size_positive(x);
}

/// An exact sum is not the negative zero.
proof fn lemma_plain_sum(a: Double, b: Double)
    requires
        plain(a),
        a.plus_spec(b).finite(),
        b.finite() ==> a.plus_spec(b).value() == a.value() + b.value(),
    ensures
        plain(a.plus_spec(b)),
{
    reveal(Double::plus_spec);
    lemma_value_zero(a);
    if b.finite() {
        lemma_value_zero(b);
        lemma_value_zero(a.plus_spec(b));
    }
}

/// An exact difference.
proof fn lemma_exact_difference(a: Double, b: Double, c: Double)
    requires
        plain(a),
        plain(b),
        plain(c),
        a.value() - b.value() == c.value(),
    ensures
        a.minus_spec(b) == c,
{
    lemma_value_zero(a);
    lemma_value_zero(b);
    lemma_value_zero(c);
    let n = b.neg_spec();
    assert(n.value() == -b.value());
    if c.value() != 0 {
        law_exact_sum(a, n, c);
    } else {
        reveal(Double::plus_spec);
        if a.negative() {
            assert(a.value() < 0);
            assert(b.negative());
        }
        assert(c == signed(false, 0));
    }
}

proof fn lemma_exact_cell_plain(packed: Seq<u64>, slot: int, bin: int, grad_hess: Seq<[Single; 2]>, rows: Seq<u32>, m: nat)
    requires
        exact_cell(packed, slot, bin, grad_hess, rows),
        m <= rows.len(),
    ensures
        ({
            let c = cell(packed, slot, bin, gathered(grad_hess, rows), rows, m, HistogramBin::empty());
            plain(c.sum_gradients) && plain(c.sum_hessians)
        }),
    decreases m,
{
    let gh = gathered(grad_hess, rows);
    let now = cell(packed, slot, bin, gh, rows, m, HistogramBin::empty());
    assert(holds(now.sum_gradients, exact_sum(packed, slot, bin, grad_hess, rows.take(m as int), 0)));
    if m > 0 {
        let k = (m - 1) as nat;
        lemma_exact_cell_plain(packed, slot, bin, grad_hess, rows, k);
        let before = cell(packed, slot, bin, gh, rows, k, HistogramBin::empty());
        assert(holds(before.sum_gradients, exact_sum(packed, slot, bin, grad_hess, rows.take(k as int), 0)));
        assert(rows.take(m as int).drop_last() =~= rows.take(k as int));
        if packed_bin(packed[rows[k as int] as int], slot) == bin {
            lemma_plain_sum(before.sum_gradients, gh[k as int]@[0].widen_spec());
            lemma_plain_sum(before.sum_hessians, gh[k as int]@[1].widen_spec());
        }
    }
}

/// Bins with other bins taken away.
spec fn taken_away(a: Seq<HistogramBin>, b: Seq<HistogramBin>) -> Seq<HistogramBin> {
    Seq::new(a.len(), |i: int| a[i].minus_spec(b[i]))
}

proof fn lemma_cell_rest(
    packed: Seq<u64>,
    slot: int,
    bin: int,
    grad_hess: Seq<[Single; 2]>,
    rows: Seq<u32>,
    some: Seq<u32>,
    rest: Seq<u32>,
)
    requires
        rows.to_multiset() == (some + rest).to_multiset(),
        exact_cell(packed, slot, bin, grad_hess, rows),
        exact_cell(packed, slot, bin, grad_hess, some),
        exact_cell(packed, slot, bin, grad_hess, rest),
    ensures
        cell(packed, slot, bin, gathered(grad_hess, rows), rows, rows.len(), HistogramBin::empty()).minus_spec(
            cell(packed, slot, bin, gathered(grad_hess, some), some, some.len(), HistogramBin::empty()),
        ) == cell(packed, slot, bin, gathered(grad_hess, rest), rest, rest.len(), HistogramBin::empty()),
{
    let none = HistogramBin::empty();
    let a = cell(packed, slot, bin, gathered(grad_hess, rows), rows, rows.len(), none);
    let b = cell(packed, slot, bin, gathered(grad_hess, some), some, some.len(), none);
    let c = cell(packed, slot, bin, gathered(grad_hess, rest), rest, rest.len(), none);
    lemma_exact_cell_plain(packed, slot, bin, grad_hess, rows, rows.len());
    lemma_exact_cell_plain(packed, slot, bin, grad_hess, some, some.len());
    lemma_exact_cell_plain(packed, slot, bin, grad_hess, rest, rest.len());
    assert(rows.take(rows.len() as int) =~= rows);
    assert(some.take(some.len() as int) =~= some);
    assert(rest.take(rest.len() as int) =~= rest);
    lemma_exact_sum_by_contents(packed, slot, bin, grad_hess, rows, some + rest, 0);
    lemma_exact_sum_by_contents(packed, slot, bin, grad_hess, rows, some + rest, 1);
    lemma_exact_sum_concat(packed, slot, bin, grad_hess, some, rest, 0);
    lemma_exact_sum_concat(packed, slot, bin, grad_hess, some, rest, 1);
    lemma_exact_difference(a.sum_gradients, b.sum_gradients, c.sum_gradients);
    lemma_exact_difference(a.sum_hessians, b.sum_hessians, c.sum_hessians);
}

proof fn lemma_bundle_rest(
    bundle: FeatureBundle,
    n: nat,
    grad_hess: Seq<[Single; 2]>,
    rows: Seq<u32>,
    some: Seq<u32>,
    rest: Seq<u32>,
)
    requires
        n <= bundle.count,
        rows.to_multiset() == (some + rest).to_multiset(),
        exact_histograms(seq![bundle], grad_hess, rows),
        exact_histograms(seq![bundle], grad_hess, some),
        exact_histograms(seq![bundle], grad_hess, rest),
    ensures
        bundle_histogram(bundle, n, gathered(grad_hess, rows), rows).len() == bundle_histogram(
            bundle,
            n,
            gathered(grad_hess, some),
            some,
        ).len(),
        taken_away(
            bundle_histogram(bundle, n, gathered(grad_hess, rows), rows),
            bundle_histogram(bundle, n, gathered(grad_hess, some), some),
        ) == bundle_histogram(bundle, n, gathered(grad_hess, rest), rest),
    decreases n,
{
    let gr = gathered(grad_hess, rows);
    let gs = gathered(grad_hess, some);
    let gt = gathered(grad_hess, rest);
    if n > 0 {
        lemma_bundle_rest(bundle, (n - 1) as nat, grad_hess, rows, some, rest);
        let slot = n - 1;
        let a = slot_histogram(bundle, slot, gr, rows);
        let b = slot_histogram(bundle, slot, gs, some);
        let c = slot_histogram(bundle, slot, gt, rest);
        assert forall|bin: int| 0 <= bin < c.len() implies taken_away(a, b)[bin] == c[bin] by {
            assert(seq![bundle][0] == bundle);
            assert(exact_cell(seq![bundle][0].packed_bins@, slot, bin, grad_hess, rows));
            assert(exact_cell(seq![bundle][0].packed_bins@, slot, bin, grad_hess, some));
            assert(exact_cell(seq![bundle][0].packed_bins@, slot, bin, grad_hess, rest));
            lemma_cell_rest(bundle.packed_bins@, slot, bin, grad_hess, rows, some, rest);
        }
        assert(taken_away(a, b) =~= c);
        let a0 = bundle_histogram(bundle, (n - 1) as nat, gr, rows);
        let b0 = bundle_histogram(bundle, (n - 1) as nat, gs, some);
        assert(taken_away(a0 + a, b0 + b) =~= taken_away(a0, b0) + taken_away(a, b));
    } else {
        assert(taken_away(
            bundle_histogram(bundle, n, gr, rows),
            bundle_histogram(bundle, n, gs, some),
        ) =~= bundle_histogram(bundle, n, gt, rest));
    }
}

proof fn lemma_all_rest(
    bundles: Seq<FeatureBundle>,
    grad_hess: Seq<[Single; 2]>,
    rows: Seq<u32>,
    some: Seq<u32>,
    rest: Seq<u32>,
)
    requires
        rows.to_multiset() == (some + rest).to_multiset(),
        exact_histograms(bundles, grad_hess, rows),
        exact_histograms(bundles, grad_hess, some),
        exact_histograms(bundles, grad_hess, rest),
    ensures
        all_histograms(bundles, gathered(grad_hess, rows), rows).len() == all_histograms(
            bundles,
            gathered(grad_hess, some),
            some,
        ).len(),
        taken_away(
            all_histograms(bundles, gathered(grad_hess, rows), rows),
            all_histograms(bundles, gathered(grad_hess, some), some),
        ) == all_histograms(bundles, gathered(grad_hess, rest), rest),
    decreases bundles.len(),
{
    let gr = gathered(grad_hess, rows);
    let gs = gathered(grad_hess, some);
    let gt = gathered(grad_hess, rest);
    if bundles.len() > 0 {
        let front = bundles.drop_last();
        let last = bundles.last();
        lemma_exact_parts(bundles, grad_hess, rows);
        lemma_exact_parts(bundles, grad_hess, some);
        lemma_exact_parts(bundles, grad_hess, rest);
        lemma_all_rest(front, grad_hess, rows, some, rest);
        lemma_bundle_rest(last, last.count as nat, grad_hess, rows, some, rest);
        let a0 = all_histograms(front, gr, rows);
        let b0 = all_histograms(front, gs, some);
        let a = bundle_histogram(last, last.count as nat, gr, rows);
        let b = bundle_histogram(last, last.count as nat, gs, some);
        assert(taken_away(a0 + a, b0 + b) =~= taken_away(a0, b0) + taken_away(a, b));
    } else {
        assert(taken_away(all_histograms(bundles, gr, rows), all_histograms(bundles, gs, some)) =~= all_histograms(
            bundles,
            gt,
            rest,
        ));
    }
}

proof fn lemma_exact_parts(bundles: Seq<FeatureBundle>, grad_hess: Seq<[Single; 2]>, rows: Seq<u32>)
    requires
        bundles.len() > 0,
        exact_histograms(bundles, grad_hess, rows),
    ensures
        exact_histograms(bundles.drop_last(), grad_hess, rows),
        exact_histograms(seq![bundles.last()], grad_hess, rows),
{
    assert forall|b: int, slot: int, bin: int|
        0 <= b < bundles.drop_last().len() && 0 <= slot < bundles.drop_last()[b].count && 0 <= bin
            < bundles.drop_last()[b].num_bins@[slot] implies #[trigger] exact_cell(
        bundles.drop_last()[b].packed_bins@,
        slot,
        bin,
        grad_hess,
        rows,
    ) by {
        assert(exact_cell(bundles[b].packed_bins@, slot, bin, grad_hess, rows));
    }
    let one = seq![bundles.last()];
    assert forall|b: int, slot: int, bin: int|
        0 <= b < one.len() && 0 <= slot < one[b].count && 0 <= bin < one[b].num_bins@[slot] implies #[trigger] exact_cell(
        one[b].packed_bins@,
        slot,
        bin,
        grad_hess,
        rows,
    ) by {
        assert(exact_cell(bundles[bundles.len() - 1].packed_bins@, slot, bin, grad_hess, rows));
    }
}

/// Where no sum has to be rounded, taking the histograms of some rows away from those of all
/// leaves the histograms of the other rows.
pub proof fn law_subtraction_leaves_the_other_rows(
    bundles: Seq<FeatureBundle>,
    grad_hess: Seq<[Single; 2]>,
    rows: Seq<u32>,
    some: Seq<u32>,
    rest: Seq<u32>,
)
    requires
        rows.to_multiset() == (some + rest).to_multiset(),
        exact_histograms(bundles, grad_hess, rows),
        exact_histograms(bundles, grad_hess, some),
        exact_histograms(bundles, grad_hess, rest),
    ensures
        histograms_of(bundles, gathered(grad_hess, rows), rows).minus_spec(
            histograms_of(bundles, gathered(grad_hess, some), some),
        ) == histograms_of(bundles, gathered(grad_hess, rest), rest),
{
    lemma_all_rest(bundles, grad_hess, rows, some, rest);
    let a = histograms_of(bundles, gathered(grad_hess, rows), rows);
    let b = histograms_of(bundles, gathered(grad_hess, some), some);
    assert(a.minus_spec(b).bins =~= taken_away(a.bins, b.bins));
}

// ---------------------------------------------------------------------------------------
// Leaf values and scores
// ---------------------------------------------------------------------------------------

/// What the value `w` of a leaf costs, up to a constant factor: half the hessian, raised by
/// `l2`, times the square of the value, the gradient times the value, and `l1` times its size.
/// All are in units of the least positive number, of which there are `unit` in one.
pub open spec fn cost(g: int, raised: int, l1: int, unit: int, w: int) -> int {
    let size = if w < 0 {
        -w
    } else {
        w
    };
    raised * (w * w) + 2 * unit * (g * w + l1 * size)
}

/// The size of a gradient, less `l1`, is zero where the gradient is not above it.
pub(crate) proof fn lemma_shrunk_to_zero(g: Double, l1: Double)
    requires
        g.abs_spec().le_spec(l1),
    ensures
        g.abs_spec().minus_spec(l1).max_spec(Double::zero_spec()).is_zero(),
{
    let size = g.abs_spec();
    let n = l1.neg_spec();
    let d = size.minus_spec(l1);
    if size.finite() && l1.finite() {
        lemma_value_order(size, l1);
        assert(n.value() == -l1.value());
        lemma_plus_ordinal(size, n);
        assert(d.ordinal() <= 0);
    } else {
        reveal(Double::plus_spec);
    }
}

/// A leaf whose gradient is not above `l1` has the value zero and the score zero.
pub proof fn law_small_gradient_gives_zero(g: Double, h: Double, l1: Double, l2: Double)
    requires
        g.abs_spec().le_spec(l1),
        Double::zero_spec().lt_spec(h.plus_spec(l2)),
    ensures
        value_of(g, h, l1, l2).is_zero(),
        score_of(g, h, l1, l2) == Double::zero_spec(),
{
    reveal(Double::over_spec);
    lemma_shrunk_to_zero(g, l1);
    let d = g.abs_spec().minus_spec(l1).max_spec(Double::zero_spec());
    let one = g.signum_spec().neg_spec();
    let none = signed(one.negative() != d.negative(), 0);
    lemma_size_positive(d);
    lemma_size_positive(none);
    lemma_size_positive(Double::zero_spec());
    assert(one.size() * 0 == 0 && 0 * pow2(1074) == 0) by (nonlinear_arith);
    law_exact_product(d, d, Double::zero_spec());
    law_exact_product(one, d, none);
    if l1.same_spec(Double::zero_spec()) {
        assert(g.is_zero());
    }
}

pub(crate) proof fn lemma_one()
    ensures
        Double::one_spec().size() == pow2(1074),
        Double::one_spec().finite(),
{
    lemma2_to64_rest();
    lemma_pow2_unfold(53);
    lemma_pow2_pos(52);
    lemma_grid_at(53, 1022, pow2(52));
    lemma_pow2_adds(52, 1022);
}

/// The size of a gradient above `l1`, less `l1`, where that is a number of the format.
proof fn lemma_shrunk(g: Double, l1: Double, d: Double)
    requires
        g.finite(),
        l1.finite(),
        0 <= l1.value(),
        d.finite(),
        d.value() == g.size() - l1.value(),
        d.value() > 0,
    ensures
        g.abs_spec().minus_spec(l1).max_spec(Double::zero_spec()) == d,
{
    lemma_size_positive(d);
    assert(l1.neg_spec().value() == -l1.value());
    law_exact_sum(g.abs_spec(), l1.neg_spec(), d);
}

/// The value of a leaf whose gradient is above `l1`, where no step on the way is rounded.
proof fn lemma_exact_value(g: Double, h: Double, l1: Double, l2: Double, raised: Double, d: Double, v: Double)
    requires
        g.finite(),
        h.finite(),
        l1.finite(),
        l2.finite(),
        0 <= l1.value(),
        holds(raised, h.value() + l2.value()),
        raised.value() > 0,
        d.finite(),
        d.value() == g.size() - l1.value(),
        d.value() > 0,
        v.finite(),
        v.negative() != g.negative(),
        d.size() * pow2(1074) == v.size() * raised.size(),
    ensures
        value_of(g, h, l1, l2) == v,
{
    law_exact_sum(h, l2, raised);
    lemma_size_positive(raised);
    lemma_size_positive(l1);
    lemma_size_positive(d);
    if l1.same_spec(Double::zero_spec()) {
        law_exact_quotient(g.neg_spec(), raised, v);
    } else {
        lemma_shrunk(g, l1, d);
        lemma_one();
        let one = g.signum_spec().neg_spec();
        let turned = signed(!g.negative(), d.magnitude());
        assert(one.size() == pow2(1074));
        assert(one.negative() == !g.negative());
        assert(one.size() * d.size() == turned.size() * pow2(1074)) by (nonlinear_arith)
            requires
                one.size() == pow2(1074),
                d.size() == turned.size(),
        ;
        law_exact_product(one, d, turned);
        law_exact_quotient(turned, raised, v);
    }
}

/// The cost of any value, over that of the value at which the cost is least.
pub(crate) proof fn lemma_least_cost(g: int, raised: int, l1: int, unit: int, v: int, w: int)
    requires
        0 < raised,
        0 <= l1,
        0 < unit,
        g > l1 ==> raised * v == unit * (l1 - g),
        -g > l1 ==> raised * v == unit * (-g - l1),
        -l1 <= g <= l1 ==> v == 0,
    ensures
        cost(g, raised, l1, unit, v) <= cost(g, raised, l1, unit, w),
{
    let size = if w < 0 {
        -w
    } else {
        w
    };
    let e = w - v;
    assert(raised * (e * e) >= 0) by (nonlinear_arith)
        requires
            raised > 0,
    ;
    assert(raised * (w * w) == raised * (v * v) + 2 * ((raised * v) * e) + raised * (e * e)) by (nonlinear_arith)
        requires
            w == v + e,
    ;
    if -l1 <= g <= l1 {
        assert(g * w + l1 * size >= 0) by (nonlinear_arith)
            requires
                -l1 <= g <= l1,
                size == w && w >= 0 || size == -w && w < 0,
        ;
        assert(raised * (w * w) >= 0) by (nonlinear_arith)
            requires
                raised > 0,
        ;
        let c = g * w + l1 * size;
        assert(2 * unit * c >= 0) by (nonlinear_arith)
            requires
                unit > 0,
                c >= 0,
        ;
        assert(cost(g, raised, l1, unit, 0) == 0) by {
            assert(raised * (0 * 0) == 0) by (nonlinear_arith);
            assert(2 * unit * (g * 0 + l1 * 0) == 0) by (nonlinear_arith);
        }
    } else if g > l1 {
        let k = g - l1;
        assert(v < 0) by (nonlinear_arith)
            requires
                raised * v == unit * (l1 - g),
                g > l1,
                raised > 0,
                unit > 0,
        ;
        assert((raised * v) * e == -(unit * (k * e))) by (nonlinear_arith)
            requires
                raised * v == unit * (l1 - g),
                k == g - l1,
        ;
        assert(g * v + l1 * (-v) == k * v) by (nonlinear_arith)
            requires
                k == g - l1,
        ;
        assert(g * w + l1 * size >= k * w) by (nonlinear_arith)
            requires
                k == g - l1,
                l1 >= 0,
                size >= -w,
        ;
        assert(k * w == k * v + k * e) by (nonlinear_arith)
            requires
                w == v + e,
        ;
        lemma_scaled(unit, g * w + l1 * size, k * v, k * e);
    } else {
        let k = -g - l1;
        assert(v > 0) by (nonlinear_arith)
            requires
                raised * v == unit * (-g - l1),
                -g > l1,
                raised > 0,
                unit > 0,
        ;
        assert((raised * v) * e == -(unit * (-(k * e)))) by (nonlinear_arith)
            requires
                raised * v == unit * (-g - l1),
                k == -g - l1,
        ;
        assert(g * v + l1 * v == -(k * v)) by (nonlinear_arith)
            requires
                k == -g - l1,
        ;
        assert(g * w + l1 * size >= -(k * w)) by (nonlinear_arith)
            requires
                k == -g - l1,
                l1 >= 0,
                size >= w,
        ;
        assert(k * w == k * v + k * e) by (nonlinear_arith)
            requires
                w == v + e,
        ;
        lemma_scaled(unit, g * w + l1 * size, -(k * v), -(k * e));
    }
}

proof fn lemma_scaled(unit: int, a: int, b: int, c: int)
    requires
        unit > 0,
        a >= b + c,
    ensures
        2 * unit * a >= 2 * unit * b + 2 * (unit * c),
{
    assert(2 * unit * a >= 2 * unit * (b + c)) by (nonlinear_arith)
        requires
            unit > 0,
            a >= b + c,
    ;
    assert(2 * unit * (b + c) == 2 * unit * b + 2 * (unit * c)) by (nonlinear_arith);
}

/// The value of a leaf is zero where its gradient is not above `l1`. Otherwise it is the
/// gradient less `l1`, over the hessian raised by `l2`, with the gradient's sign turned, as
/// long as these are numbers of the format. Of all values it costs least.
pub proof fn law_value_costs_least(g: Double, h: Double, l1: Double, l2: Double, raised: Double, d: Double, v: Double)
    requires
        g.finite(),
        h.finite(),
        l1.finite(),
        l2.finite(),
        0 <= l1.value(),
        holds(raised, h.value() + l2.value()),
        raised.value() > 0,
        g.size() > l1.value() ==> {
            &&& holds(d, g.size() - l1.value())
            &&& v.finite()
            &&& v.negative() != g.negative()
            &&& d.size() * pow2(1074) == v.size() * raised.size()
        },
        g.size() <= l1.value() ==> v == Double::zero_spec(),
    ensures
        value_of(g, h, l1, l2).same_spec(v),
        forall|w: int|
            cost(g.value(), raised.value(), l1.value(), pow2(1074) as int, v.value()) <= #[trigger] cost(
                g.value(),
                raised.value(),
                l1.value(),
                pow2(1074) as int,
                w,
            ),
{
    let unit = pow2(1074) as int;
    lemma_pow2_pos(1074);
    lemma_pow2_pos(52);
    lemma_size_positive(g);
    lemma_size_positive(l1);
    lemma_size_positive(raised);
    lemma_size_positive(Double::zero_spec());
    if g.size() > l1.value() {
        lemma_exact_value(g, h, l1, l2, raised, d, v);
        lemma_size_positive(d);
        if g.negative() {
            assert(raised.value() * v.value() == unit * (-g.value() - l1.value())) by (nonlinear_arith)
                requires
                    d.size() * pow2(1074) == v.size() * raised.size(),
                    unit == pow2(1074),
                    raised.value() == raised.size(),
                    v.value() == v.size(),
                    d.size() == -g.value() - l1.value(),
            ;
        } else {
            assert(raised.value() * v.value() == unit * (l1.value() - g.value())) by (nonlinear_arith)
                requires
                    d.size() * pow2(1074) == v.size() * raised.size(),
                    unit == pow2(1074),
                    raised.value() == raised.size(),
                    v.value() == -v.size(),
                    d.size() == g.value() - l1.value(),
            ;
        }
    } else {
        law_exact_sum(h, l2, raised);
        lemma_in_order(g.abs_spec(), l1);
        law_small_gradient_gives_zero(g, h, l1, l2);
    }
    assert forall|w: int|
        cost(g.value(), raised.value(), l1.value(), unit, v.value()) <= #[trigger] cost(
            g.value(),
            raised.value(),
            l1.value(),
            unit,
            w,
        ) by {
        lemma_least_cost(g.value(), raised.value(), l1.value(), unit, v.value(), w);
    }
}

/// Finite numbers stand in the order of their values.
pub(crate) proof fn lemma_in_order(a: Double, b: Double)
    requires
        a.finite(),
        b.finite(),
        !a.negative(),
        0 <= b.value(),
        a.value() <= b.value(),
    ensures
        a.le_spec(b),
{
    lemma_pow2_pos(52);
    lemma_size_positive(b);
    if b.magnitude() < a.magnitude() {
        lemma_grid_monotone(53, b.magnitude(), a.magnitude());
    }
}

/// The score of a leaf is the hessian, raised by `l2`, times the square of its value, where
/// no step on the way to either is rounded; that is what the value saves over zero.
pub proof fn law_score_is_what_the_value_saves(
    g: Double,
    h: Double,
    l1: Double,
    l2: Double,
    raised: Double,
    d: Double,
    v: Double,
    square: Double,
    s: Double,
)
    requires
        g.finite(),
        h.finite(),
        l1.finite(),
        l2.finite(),
        0 <= l1.value(),
        holds(raised, h.value() + l2.value()),
        raised.value() > 0,
        holds(d, g.size() - l1.value()),
        d.value() > 0,
        v.finite(),
        v.negative() != g.negative(),
        d.size() * pow2(1074) == v.size() * raised.size(),
        square.finite(),
        !square.negative(),
        d.size() * d.size() == square.size() * pow2(1074),
        s.finite(),
        !s.negative(),
        square.size() * pow2(1074) == s.size() * raised.size(),
    ensures
        value_of(g, h, l1, l2) == v,
        score_of(g, h, l1, l2) == s,
        raised.value() * (v.value() * v.value()) == s.value() * (pow2(1074) * pow2(1074)),
        cost(g.value(), raised.value(), l1.value(), pow2(1074) as int, v.value()) == -(raised.value() * (v.value()
            * v.value())),
{
    let unit = pow2(1074) as int;
    lemma_pow2_pos(1074);
    lemma_size_positive(raised);
    lemma_size_positive(d);
    lemma_exact_value(g, h, l1, l2, raised, d, v);
    lemma_shrunk(g, l1, d);
    law_exact_sum(h, l2, raised);
    law_exact_product(d, d, square);
    law_exact_quotient(square, raised, s);
    let x = v.size() as int;
    let y = raised.size() as int;
    let z = d.size() as int;
    let t = s.size() as int;
    assert(v.value() * v.value() == x * x) by (nonlinear_arith)
        requires
            v.value() == x || v.value() == -x,
    ;
    assert((x * y) * (x * y) == (z * z) * (unit * unit)) by (nonlinear_arith)
        requires
            x * y == z * unit,
    ;
    assert((x * y) * (x * y) == (y * (x * x)) * y) by (nonlinear_arith);
    assert((t * y) * (unit * unit) == (t * (unit * unit)) * y) by (nonlinear_arith);
    assert(y * (x * x) == t * (unit * unit)) by (nonlinear_arith)
        requires
            (y * (x * x)) * y == (t * (unit * unit)) * y,
            y > 0,
    ;
    // The linear part of the cost is twice what the square part is, with its sign turned.
    let size = if v.value() < 0 {
        -v.value()
    } else {
        v.value()
    };
    let linear = g.value() * v.value() + l1.value() * size;
    assert(linear == -(z * x)) by (nonlinear_arith)
        requires
            linear == g.value() * v.value() + l1.value() * size,
            size == x,
            (g.value() == z + l1.value() && v.value() == -x) || (g.value() == -(z + l1.value()) && v.value() == x),
    ;
    assert(unit * linear == -((z * unit) * x)) by (nonlinear_arith)
        requires
            linear == -(z * x),
    ;
    assert((x * y) * x == y * (x * x)) by (nonlinear_arith);
    assert(2 * unit * linear == 2 * (unit * linear)) by (nonlinear_arith);
}

} // verus!
