//! Laws of binning: which bounds are found, and what goes into them.

use vstd::arithmetic::power2::{lemma_pow2_pos, pow2};
use vstd::prelude::*;

use crate::arithmetic::{
    law_exact_quotient, law_exact_sum, lemma_from_count_exact, lemma_nearest_double_monotone, lemma_signed,
    lemma_size_positive,
};
use crate::bin::{
    binnable, binner_of, lemma_valid_keys, numbered, numbers_at, present, small, valid_keys, whole_binner, BinnerView,
    FeatureBinner,
};
use crate::bounds::{
    all_cuts, ascending_numbers, between, cuts, greedy_bounds, lemma_runs, lemma_runs_ascending, mean_size, runs, Cuts,
};
use crate::bundle::packed_bin;
use crate::column::{Column, ColumnView};
use crate::dataset::binner_for;
use crate::double::{nearest_double, Double};
use crate::exact::holds;
use crate::parameters::DatasetParameters;
use crate::rounding::lemma_grid_at;
use crate::sampling::{ascending, lemma_sorted_by_contents, sampled, sorted};

verus! {

// ---------------------------------------------------------------------------------------
// Runs
// ---------------------------------------------------------------------------------------

/// How many of the first `n` values equal `x`.
pub open spec fn count_same(values: Seq<Double>, x: Double, n: nat) -> nat
    decreases n,
{
    if n == 0 {
        0
    } else {
        count_same(values, x, (n - 1) as nat) + if values[n - 1].same_spec(x) { 1nat } else { 0nat }
    }
}

proof fn lemma_none_same(values: Seq<Double>, x: Double, n: nat)
    requires
        n <= values.len(),
        forall|i: int| 0 <= i < n ==> (#[trigger] values[i]).ordinal() < x.ordinal(),
    ensures
        count_same(values, x, n) == 0,
    decreases n,
{
    if n > 0 {
        lemma_none_same(values, x, (n - 1) as nat);
        assert(values[n - 1].ordinal() < x.ordinal());
    }
}

proof fn lemma_run_counts(values: Seq<Double>, n: nat)
    requires
        ascending_numbers(values),
        n <= values.len(),
    ensures
        forall|i: int|
            0 <= i < runs(values, n).len() ==> (#[trigger] runs(values, n)[i]).1 == count_same(values, runs(values, n)[i].0, n),
        forall|j: int|
            0 <= j < n ==> exists|i: int|
                0 <= i < runs(values, n).len() && (#[trigger] runs(values, n)[i]).0.same_spec(#[trigger] values[j]),
    decreases n,
{
    if n > 0 {
        let m = (n - 1) as nat;
        let before = runs(values, m);
        let now = runs(values, n);
        let v = values[m as int];
        lemma_run_counts(values, m);
        lemma_runs_ascending(values, m);
        lemma_runs_ascending(values, n);
        lemma_runs(values, n);
        let k = now.len() - 1;
        assert(now[k].0.ordinal() == v.ordinal());
        assert(!v.nan());
        assert forall|i: int| 0 <= i < now.len() implies (#[trigger] now[i]).1 == count_same(values, now[i].0, n) by {
            if i < k {
                assert(now[i].0.ordinal() < now[k].0.ordinal());
                assert(now[i] == before[i]);
            } else if before.len() == now.len() {
                assert(before[i].1 == count_same(values, before[i].0, m));
            } else {
                assert forall|j: int| 0 <= j < m implies (#[trigger] values[j]).ordinal() < v.ordinal() by {
                    assert(values[j].ordinal() <= values[m - 1].ordinal());
                    assert(before.last().0.ordinal() == values[m - 1].ordinal());
                    assert(values[m - 1].ordinal() <= v.ordinal());
                    assert(!before.last().0.nan());
                }
                lemma_none_same(values, v, m);
            }
        }
        assert forall|j: int| 0 <= j < n implies exists|i: int|
            0 <= i < now.len() && (#[trigger] now[i]).0.same_spec(#[trigger] values[j]) by {
            if j < m {
                let i = choose|i: int| 0 <= i < before.len() && (#[trigger] before[i]).0.same_spec(values[j]);
                assert(now[i].0 == before[i].0);
            } else {
                assert(!now[k].0.nan());
                assert(now[k].0.same_spec(values[j]));
            }
        }
    }
}

/// The runs of ascending numbers are the distinct numbers in ascending order, each with how often
/// it occurs.
pub proof fn law_runs_count_the_values(values: Seq<Double>)
    requires
        ascending_numbers(values),
    ensures
        ({
            let r = runs(values, values.len());
            &&& forall|i: int, j: int| 0 <= i < j < r.len() ==> (#[trigger] r[i]).0.lt_spec((#[trigger] r[j]).0)
            &&& forall|i: int| 0 <= i < r.len() ==> (#[trigger] r[i]).1 == count_same(values, r[i].0, values.len())
            &&& forall|j: int|
                0 <= j < values.len() ==> exists|i: int|
                    0 <= i < r.len() && (#[trigger] r[i]).0.same_spec(#[trigger] values[j])
        }),
{
    lemma_run_counts(values, values.len());
    lemma_runs_ascending(values, values.len());
}

// ---------------------------------------------------------------------------------------
// Bounds
// ---------------------------------------------------------------------------------------

/// How many values the runs from `a` up to `b` hold.
pub open spec fn run_count(r: Seq<(Double, nat)>, a: int, b: int) -> nat
    decreases b - a,
{
    if a >= b {
        0
    } else {
        run_count(r, a, b - 1) + r[b - 1].1
    }
}

/// So many values are more than the bin size.
pub open spec fn over(mean: Double, n: nat) -> bool {
    mean.lt_spec(Double::from_count_spec(n))
}

/// So many values fill a bin.
pub open spec fn fill(mean: Double, n: nat) -> bool {
    mean.le_spec(Double::from_count_spec(n))
}

/// A bin of the runs from `a` up to `b`: only a single run may exceed the bin size, and no bin goes
/// on once it is filled.
#[verifier::opaque]
pub open spec fn fair_bin(r: Seq<(Double, nat)>, mean: Double, a: int, b: int) -> bool {
    &&& a < b
    &&& b - a > 1 ==> !over(mean, run_count(r, a, b))
    &&& forall|k: int| a < k < b ==> !fill(mean, #[trigger] run_count(r, a, k))
}

/// A bin is closed only if it is filled, or would be exceeded by the next run.
#[verifier::opaque]
pub open spec fn rightly_closed(r: Seq<(Double, nat)>, mean: Double, a: int, b: int) -> bool {
    fill(mean, run_count(r, a, b)) || over(mean, run_count(r, a, b + 1))
}

/// Where bin `b` starts.
pub open spec fn bin_start(ends: Seq<int>, b: int) -> int {
    if b == 0 { 0 } else { ends[b - 1] }
}

/// Bin `b` ends before run `ends[b]`, and its bound is set there.
pub open spec fn bin_set(r: Seq<(Double, nat)>, mean: Double, ends: Seq<int>, bounds: Seq<Double>, b: int) -> bool {
    &&& 0 < ends[b] < r.len()
    &&& bounds[b] == between(r[ends[b] - 1].0, r[ends[b]].0)
    &&& fair_bin(r, mean, bin_start(ends, b), ends[b])
    &&& rightly_closed(r, mean, bin_start(ends, b), ends[b])
}

/// Bounds that are set between runs.
pub open spec fn set_between(r: Seq<(Double, nat)>, mean: Double, ends: Seq<int>, bounds: Seq<Double>) -> bool {
    &&& ends.len() == bounds.len()
    &&& forall|b: int| 0 <= b < ends.len() ==> #[trigger] bin_set(r, mean, ends, bounds, b)
}

proof fn lemma_push_end(r: Seq<(Double, nat)>, mean: Double, ends: Seq<int>, bounds: Seq<Double>, at: int)
    requires
        set_between(r, mean, ends, bounds),
        0 < at < r.len(),
        fair_bin(r, mean, bin_start(ends, ends.len() as int), at),
        rightly_closed(r, mean, bin_start(ends, ends.len() as int), at),
    ensures
        set_between(r, mean, ends.push(at), bounds.push(between(r[at - 1].0, r[at].0))),
{
    let more = ends.push(at);
    let set = bounds.push(between(r[at - 1].0, r[at].0));
    assert forall|b: int| 0 <= b < more.len() implies #[trigger] bin_set(r, mean, more, set, b) by {
        if b < ends.len() {
            assert(bin_set(r, mean, ends, bounds, b));
            assert(more[b] == ends[b] && set[b] == bounds[b]);
        }
        assert(bin_start(more, b) == bin_start(ends, b));
    }
}

/// The open bin after the first runs.
spec fn open_so_far(r: Seq<(Double, nat)>, mean: Double, c: Cuts, a: int, n: int) -> bool {
    &&& 0 <= a <= n
    &&& c.count == run_count(r, a, n)
    &&& forall|k: int| a < k <= n ==> !fill(mean, #[trigger] run_count(r, a, k))
}

spec fn room(c: Cuts, max_bin: nat) -> bool {
    c.full == (c.bounds.len() > 0 && c.bounds.len() + 1 >= max_bin)
}

proof fn lemma_count_positive(r: Seq<(Double, nat)>, a: int, b: int)
    requires
        0 <= a <= b <= r.len(),
        forall|i: int| 0 <= i < r.len() ==> (#[trigger] r[i]).1 > 0,
    ensures
        run_count(r, a, b) > 0 <==> a < b,
{
    if a < b {
        assert(r[b - 1].1 > 0);
    }
}

/// What the guard does.
proof fn lemma_guarded(
    r: Seq<(Double, nat)>,
    mean: Double,
    max_bin: nat,
    c: Cuts,
    ends: Seq<int>,
    n: int,
) -> (more: Seq<int>)
    requires
        forall|i: int| 0 <= i < r.len() ==> (#[trigger] r[i]).1 > 0,
        0 <= n < r.len(),
        !c.full,
        room(c, max_bin),
        set_between(r, mean, ends, c.bounds),
        open_so_far(r, mean, c, bin_start(ends, ends.len() as int), n),
    ensures
        ({
            let g = c.guarded(r, n, mean, max_bin);
            let a = bin_start(more, more.len() as int);
            &&& room(g, max_bin)
            &&& set_between(r, mean, more, g.bounds)
            &&& g.full ==> a <= n
            &&& !g.full ==> open_so_far(r, mean, g, a, n)
            &&& !g.full && g.count > 0 ==> !over(mean, run_count(r, a, n + 1))
            &&& g.full ==> !(g == c)
        }),
{
    reveal(fair_bin);
    reveal(rightly_closed);
    let a = bin_start(ends, ends.len() as int);
    lemma_count_positive(r, a, n);
    assert(run_count(r, a, n + 1) == run_count(r, a, n) + r[n].1);
    if c.count > 0 && over(mean, c.count + r[n].1) {
        assert(!fill(mean, run_count(r, a, n)));
        assert(fair_bin(r, mean, a, n));
        lemma_push_end(r, mean, ends, c.bounds, n);
        let more = ends.push(n);
        assert(run_count(r, n, n) == 0);
        more
    } else {
        ends
    }
}

proof fn lemma_cuts_filled(r: Seq<(Double, nat)>, mean: Double, max_bin: nat, n: nat) -> (ends: Seq<int>)
    requires
        forall|i: int| 0 <= i < r.len() ==> (#[trigger] r[i]).1 > 0,
        n < r.len(),
    ensures
        ({
            let c = cuts(r, mean, max_bin, n);
            let a = bin_start(ends, ends.len() as int);
            &&& room(c, max_bin)
            &&& set_between(r, mean, ends, c.bounds)
            &&& c.full ==> a <= n
            &&& !c.full ==> open_so_far(r, mean, c, a, n as int)
        }),
    decreases n,
{
    if n == 0 {
        Seq::empty()
    } else {
        let m = (n - 1) as nat;
        let ends = lemma_cuts_filled(r, mean, max_bin, m);
        let before = cuts(r, mean, max_bin, m);
        if before.full {
            ends
        } else {
            let more = lemma_guarded(r, mean, max_bin, before, ends, m as int);
            let g = before.guarded(r, m as int, mean, max_bin);
            if g.full {
                more
            } else {
                reveal(fair_bin);
                reveal(rightly_closed);
                let a = bin_start(more, more.len() as int);
                lemma_count_positive(r, a, m as int);
                assert(run_count(r, a, n as int) == run_count(r, a, m as int) + r[m as int].1);
                if fill(mean, g.count + r[m as int].1) {
                    assert(fair_bin(r, mean, a, n as int));
                    lemma_push_end(r, mean, more, g.bounds, n as int);
                    let most = more.push(n as int);
                    assert(run_count(r, n as int, n as int) == 0);
                    most
                } else {
                    assert forall|k: int| a < k <= n implies !fill(mean, #[trigger] run_count(r, a, k)) by {
                        if k < n {
                            assert(!fill(mean, run_count(r, a, k)));
                        }
                    }
                    more
                }
            }
        }
    }
}

/// The bounds that are found for values in ascending order: the last one is infinite, and each of
/// the others is set between two neighbouring values. A bin holds more values than the bin size
/// only if they are all equal; it is closed as soon as it is filled, or where the next value's
/// occurrences would exceed it. The last bin is as fair, unless no more bounds could be set.
pub proof fn law_bins_are_filled(values: Seq<Double>, max_bin: nat, min_data_in_bin: nat)
    requires
        values.len() > 0,
    ensures
        ({
            let r = runs(values, values.len());
            let mean = mean_size(values.len(), max_bin, min_data_in_bin);
            let all = greedy_bounds(values, max_bin, min_data_in_bin);
            &&& all.len() > 0
            &&& all.last() == Double::infinity_spec()
            &&& exists|ends: Seq<int>|
                {
                    &&& #[trigger] set_between(r, mean, ends, all.drop_last())
                    &&& ends.len() == 0 || ends.len() + 1 < max_bin ==> fair_bin(
                        r,
                        mean,
                        bin_start(ends, ends.len() as int),
                        r.len() as int,
                    )
                }
        }),
{
    let r = runs(values, values.len());
    let mean = mean_size(values.len(), max_bin, min_data_in_bin);
    let all = greedy_bounds(values, max_bin, min_data_in_bin);
    lemma_runs(values, values.len());
    let n = (r.len() - 1) as nat;
    let ends = lemma_cuts_filled(r, mean, max_bin, n);
    let c = cuts(r, mean, max_bin, n);
    let last = all_cuts(r, mean, max_bin);
    assert(all.drop_last() =~= last.bounds);
    if c.full {
        assert(set_between(r, mean, ends, all.drop_last()));
    } else {
        let more = lemma_guarded(r, mean, max_bin, c, ends, n as int);
        let g = c.guarded(r, n as int, mean, max_bin);
        let a = bin_start(more, more.len() as int);
        if !g.full {
            reveal(fair_bin);
            lemma_count_positive(r, a, n as int);
            assert(fair_bin(r, mean, a, r.len() as int));
        }
        assert(set_between(r, mean, more, all.drop_last()));
    }
}

/// The bin size is the larger of the least number asked for and the average.
pub proof fn law_bin_size_is_the_larger(n: nat, max_bin: nat, min_data_in_bin: nat)
    requires
        n > 0,
        n <= pow2(53),
        0 < max_bin <= pow2(53),
        min_data_in_bin <= pow2(53),
    ensures
        ({
            let mean = mean_size(n, max_bin, min_data_in_bin);
            let average = Double::from_count_spec(n).over_spec(Double::from_count_spec(max_bin));
            let least = Double::from_count_spec(min_data_in_bin);
            &&& mean == average || mean == least
            &&& average.le_spec(mean)
            &&& least.le_spec(mean)
        }),
{
    lemma_from_count_exact(n);
    lemma_from_count_exact(max_bin);
    lemma_from_count_exact(min_data_in_bin);
    lemma_pow2_pos(1074);
    let a = Double::from_count_spec(n);
    let b = Double::from_count_spec(max_bin);
    assert(n * pow2(1074) > 0 && max_bin * pow2(1074) > 0) by (nonlinear_arith)
        requires
            n > 0,
            max_bin > 0,
            pow2(1074) > 0,
    ;
    lemma_size_positive(a);
    lemma_size_positive(b);
    assert(!a.over_spec(b).nan()) by {
        reveal(Double::over_spec);
        let num = a.size() * pow2(1074);
        lemma_nearest_double_monotone(num, b.size(), num, b.size());
        lemma_signed(false, nearest_double(num, b.size()));
    }
}

/// The bound between two values is the number next above their mean, where the mean is a number of
/// the format.
pub proof fn law_bound_is_next_above_the_mean(a: Double, b: Double, sum: Double, mean: Double)
    requires
        a.finite() && b.finite(),
        holds(sum, a.value() + b.value()),
        sum.value() != 0,
        mean.finite(),
        mean.negative() == sum.negative(),
        2 * mean.value() == sum.value(),
    ensures
        between(a, b) == mean.next_up_spec(),
        mean.lt_spec(between(a, b)),
{
    let two = Double::two_spec();
    law_exact_sum(a, b, sum);
    lemma_two();
    lemma_pow2_pos(1074);
    lemma_size_positive(two);
    assert(sum.size() * pow2(1074) == mean.size() * two.size()) by (nonlinear_arith)
        requires
            sum.size() == 2 * mean.size(),
            two.size() == 2 * pow2(1074),
    ;
    law_exact_quotient(sum, two, mean);
}

proof fn lemma_two()
    ensures
        Double::two_spec().finite(),
        !Double::two_spec().negative(),
        Double::two_spec().size() == 2 * pow2(1074),
{
    vstd::arithmetic::power2::lemma2_to64_rest();
    vstd::arithmetic::power2::lemma_pow2_unfold(53);
    lemma_pow2_pos(52);
    lemma_grid_at(53, 1023, pow2(52));
    vstd::arithmetic::power2::lemma_pow2_adds(52, 1023);
    vstd::arithmetic::power2::lemma_pow2_unfold(1075);
}

// ---------------------------------------------------------------------------------------
// Binners
// ---------------------------------------------------------------------------------------

/// The bounds of a column of up to 200000 numbers are found from all of them, whatever their order
/// and whatever else the column holds: `sorted_values` are its numbers in ascending order.
pub proof fn law_bounds_are_found_from_all_numbers(
    x: Seq<Option<Double>>,
    sorted_values: Seq<Double>,
    max_bin: nat,
    min_data_in_bin: nat,
)
    requires
        ascending_numbers(sorted_values),
        forall|i: int| 0 <= i < sorted_values.len() ==> ((#[trigger] sorted_values[i]).is_zero() ==> !sorted_values[i].negative()),
        present(x).map_values(|v: Option<Double>| v->0.ordinal() as i64).to_multiset() == sorted_values.map_values(
            |v: Double| v.ordinal() as i64,
        ).to_multiset(),
        present(x).len() <= 200_000,
    ensures
        small(ColumnView::Numbers(x)),
        whole_binner(ColumnView::Numbers(x), max_bin, min_data_in_bin) == BinnerView::Numerical(
            greedy_bounds(sorted_values, max_bin, min_data_in_bin),
        ),
{
    assert(x.take(x.len() as int) =~= x);
    lemma_valid_keys(x, x.len());
    lemma_sorted_numbers(valid_keys(x, x.len()), sorted_values);
}

/// The dataset's binner of a column is found under its own settings: a categorical column's
/// categories are numbered, and a numeric column of up to 200000 numbers has the bounds of them
/// all.
pub proof fn law_binners_follow_the_settings(binner: FeatureBinner, column: Column, params: DatasetParameters)
    requires
        binner_for(binner, column, params),
    ensures
        column@ matches ColumnView::Categories { values, .. } ==> binner@ == BinnerView::Categorical(
            numbered(values, values.len()),
        ),
        column@ matches ColumnView::Numbers(x) ==> present(x).len() <= 200_000 ==> binner@ == whole_binner(
            column@,
            params.max_bin as nat,
            params.min_data_in_bin as nat,
        ),
{
    if let ColumnView::Numbers(x) = column@ {
        assert(x.take(x.len() as int) =~= x);
        lemma_valid_keys(x, x.len());
    }
}

/// A numeric column can be binned into up to 255 bins; a categorical one has fewer categories than
/// bins.
pub proof fn law_columns_can_be_binned(column: ColumnView, max_bin: nat)
    requires
        column.wf(),
    ensures
        binnable(column, max_bin) <==> max_bin <= 255 && (column matches ColumnView::Categories { values, .. } ==> numbered(
            values,
            values.len(),
        ).len() < max_bin),
{
}

/// The category of a row is the dictionary value at its key.
pub proof fn law_category_is_the_value_at_the_key(keys: Seq<Option<usize>>, values: Seq<Option<Seq<char>>>, row: int)
    ensures
        keys[row] is None ==> (ColumnView::Categories { keys, values }).category(row) is None,
        keys[row] matches Some(k) ==> (ColumnView::Categories { keys, values }).category(row) == values[k as int],
{
}

/// A word holds the bin of slot `s` as its digit `s` to the base 256.
pub proof fn law_words_hold_their_bins(word: u64, s: nat)
    requires
        s < 8,
    ensures
        packed_bin(word, s as int) == (word as nat / pow2(8 * s)) % 256,
{
    let shift = (8 * s) as u64;
    vstd::bits::lemma_u64_shr_is_div(word, shift);
    let y = word >> shift;
    assert(y & 0xff == y % 256) by (bit_vector);
}

/// The bounds of any numeric column are found from the numbers that are picked from it for the seed,
/// up to 200000 of them: `sorted_values` are those in ascending order.
pub proof fn law_bounds_are_found_from_the_sample(
    x: Seq<Option<Double>>,
    seed: u64,
    sorted_values: Seq<Double>,
    max_bin: nat,
    min_data_in_bin: nat,
)
    requires
        ascending_numbers(sorted_values),
        forall|i: int| 0 <= i < sorted_values.len() ==> ((#[trigger] sorted_values[i]).is_zero() ==> !sorted_values[i].negative()),
        sampled(present(x).map_values(|v: Option<Double>| v->0.ordinal() as i64), seed, 200_000).to_multiset()
            == sorted_values.map_values(|v: Double| v.ordinal() as i64).to_multiset(),
    ensures
        binner_of(ColumnView::Numbers(x), max_bin, min_data_in_bin, seed) == BinnerView::Numerical(
            greedy_bounds(sorted_values, max_bin, min_data_in_bin),
        ),
{
    assert(x.take(x.len() as int) =~= x);
    lemma_valid_keys(x, x.len());
    lemma_sorted_numbers(sampled(valid_keys(x, x.len()), seed, 200_000), sorted_values);
}

/// Positions in ascending order, as numbers.
proof fn lemma_sorted_numbers(keys: Seq<i64>, sorted_values: Seq<Double>)
    requires
        ascending_numbers(sorted_values),
        forall|i: int| 0 <= i < sorted_values.len() ==> ((#[trigger] sorted_values[i]).is_zero() ==> !sorted_values[i].negative()),
        keys.to_multiset() == sorted_values.map_values(|v: Double| v.ordinal() as i64).to_multiset(),
    ensures
        numbers_at(sorted(keys)) == sorted_values,
{
    let f = |v: Double| v.ordinal() as i64;
    let own = sorted_values.map_values(f);
    lemma_sorted_by_contents(keys, own);
    let leq = ascending();
    assert(vstd::relations::total_ordering(leq));
    own.lemma_sort_by_ensures(leq);
    assert(vstd::relations::sorted_by(own, leq)) by {
        assert forall|i: int, j: int| 0 <= i < j < own.len() implies #[trigger] leq(own[i], own[j]) by {
            assert(sorted_values[i].ordinal() <= sorted_values[j].ordinal());
            assert(!sorted_values[i].nan() && !sorted_values[j].nan());
        }
    }
    vstd::seq_lib::lemma_sorted_unique(own, own.sort_by(leq), leq);
    assert forall|i: int| 0 <= i < own.len() implies numbers_at(own)[i] == #[trigger] sorted_values[i] by {
        let v = sorted_values[i];
        assert(!v.nan());
        assert(own[i] == v.ordinal());
    }
    assert(numbers_at(own) =~= sorted_values);
}

/// Whatever the numbers, a bound is the number next above half the rounded sum of its neighbours,
/// and the bin size is the average unless that is no number or below the least that is asked for.
pub proof fn law_bounds_and_sizes_follow_their_formulas(a: Double, b: Double, n: nat, max_bin: nat, min_data_in_bin: nat)
    ensures
        between(a, b) == a.plus_spec(b).over_spec(Double::two_spec()).next_up_spec(),
        ({
            let average = Double::from_count_spec(n).over_spec(Double::from_count_spec(max_bin));
            let least = Double::from_count_spec(min_data_in_bin);
            mean_size(n, max_bin, min_data_in_bin) == if average.nan() || average.lt_spec(least) { least } else { average }
        }),
        greedy_bounds(Seq::<Double>::empty(), max_bin, min_data_in_bin) == seq![Double::infinity_spec()],
{
}

} // verus!
