//! The bounds of numeric bins.

use vstd::arithmetic::power2::{lemma_pow2_pos, pow2};
use vstd::prelude::*;

use crate::arithmetic::{
    law_exact_quotient, lemma_from_count_exact, lemma_from_count_monotone, lemma_from_count_strict, lemma_half_monotone,
    lemma_next_up, lemma_plus_monotone, lemma_plus_number, lemma_size_positive,
};
use crate::double::Double;

verus! {

/// The most bins that a feature may have besides the one for missing values, so that every
/// bin index fits a byte.
pub const MAX_NUM_BINS: usize = 255;

/// The first `n` values as pairs of a value and how often it occurs in a row.
pub open spec fn runs(values: Seq<Double>, n: nat) -> Seq<(Double, nat)>
    decreases n,
{
    if n == 0 {
        Seq::empty()
    } else {
        let before = runs(values, (n - 1) as nat);
        let x = values[n - 1];
        if before.len() > 0 && before.last().0.same_spec(x) {
            before.update(before.len() - 1, (before.last().0, before.last().1 + 1))
        } else {
            before.push((x, 1))
        }
    }
}

/// The bound that is set between two neighbouring values: the number next above their mean.
pub open spec fn between(a: Double, b: Double) -> Double {
    a.plus_spec(b).over_spec(Double::two_spec()).next_up_spec()
}

/// The average number of values in a bin, or the least number asked for if that is more.
pub open spec fn mean_size(n: nat, max_bin: nat, min_data_in_bin: nat) -> Double {
    Double::from_count_spec(n).over_spec(Double::from_count_spec(max_bin)).max_spec(
        Double::from_count_spec(min_data_in_bin),
    )
}

/// The state of the search for bounds: those set so far, how many values the open bin holds,
/// and whether no further bound may be set.
#[verifier::ext_equal]
pub struct Cuts {
    pub bounds: Seq<Double>,
    pub count: nat,
    pub full: bool,
}

impl Cuts {
    pub open spec fn cut(self, bound: Double, max_bin: nat) -> Cuts {
        Cuts { bounds: self.bounds.push(bound), count: 0, full: self.bounds.len() + 2 >= max_bin }
    }

    /// The open bin is closed before a run with which it would exceed the bin size.
    pub open spec fn guarded(self, runs: Seq<(Double, nat)>, i: int, mean: Double, max_bin: nat) -> Cuts {
        if !self.full && self.count > 0 && mean.lt_spec(Double::from_count_spec(self.count + runs[i].1)) {
            self.cut(between(runs[i - 1].0, runs[i].0), max_bin)
        } else {
            self
        }
    }

    /// A run joins the open bin, which is closed after it if that fills it.
    pub open spec fn joined(self, runs: Seq<(Double, nat)>, i: int, mean: Double, max_bin: nat) -> Cuts {
        let next = Cuts { bounds: self.bounds, count: self.count + runs[i].1, full: self.full };
        if self.full {
            self
        } else if mean.le_spec(Double::from_count_spec(next.count)) {
            next.cut(between(runs[i].0, runs[i + 1].0), max_bin)
        } else {
            next
        }
    }
}

/// The search after the first `n` runs.
pub open spec fn cuts(runs: Seq<(Double, nat)>, mean: Double, max_bin: nat, n: nat) -> Cuts
    decreases n,
{
    if n == 0 {
        Cuts { bounds: Seq::empty(), count: 0, full: false }
    } else {
        let before = cuts(runs, mean, max_bin, (n - 1) as nat);
        if before.full {
            before
        } else {
            before.guarded(runs, n - 1, mean, max_bin).joined(runs, n - 1, mean, max_bin)
        }
    }
}

/// The upper bounds of the bins for values in ascending order; the last one is infinite.
pub open spec fn greedy_bounds(values: Seq<Double>, max_bin: nat, min_data_in_bin: nat) -> Seq<Double> {
    if values.len() == 0 {
        seq![Double::infinity_spec()]
    } else {
        let r = runs(values, values.len());
        let mean = mean_size(values.len(), max_bin, min_data_in_bin);
        all_cuts(r, mean, max_bin).bounds.push(Double::infinity_spec())
    }
}

/// The search after all runs. No bound follows the last one.
pub open spec fn all_cuts(r: Seq<(Double, nat)>, mean: Double, max_bin: nat) -> Cuts {
    cuts(r, mean, max_bin, (r.len() - 1) as nat).guarded(r, r.len() - 1, mean, max_bin)
}

/// Numbers in ascending order.
pub open spec fn ascending_numbers(values: Seq<Double>) -> bool {
    &&& forall|i: int| 0 <= i < values.len() ==> !(#[trigger] values[i]).nan()
    &&& forall|i: int, j: int| 0 <= i <= j < values.len() ==> values[i].ordinal() <= values[j].ordinal()
}

/// Bounds through which values can be searched: whatever bound lies below a value, those
/// before it do too. Not-a-number and infinity lie below nothing.
pub open spec fn partitioned(bounds: Seq<Double>) -> bool {
    forall|i: int, j: int| 0 <= i < j < bounds.len() ==> {
        ||| (#[trigger] bounds[j]).nan()
        ||| bounds[j] == Double::infinity_spec()
        ||| (#[trigger] bounds[i]).le_spec(bounds[j])
    }
}

/// Bounds of one to 255 bins, of which the last is infinite.
pub open spec fn valid_bounds(bounds: Seq<Double>) -> bool {
    &&& 1 <= bounds.len() <= MAX_NUM_BINS
    &&& bounds.last() == Double::infinity_spec()
    &&& partitioned(bounds)
}

pub(crate) proof fn lemma_runs(values: Seq<Double>, n: nat)
    requires
        n <= values.len(),
    ensures
        runs(values, n).len() <= n,
        n > 0 ==> runs(values, n).len() > 0,
        total_count(runs(values, n), runs(values, n).len()) == n,
        forall|i: int| 0 <= i < runs(values, n).len() ==> (#[trigger] runs(values, n)[i]).1 > 0,
    decreases n,
{
    if n > 0 {
        lemma_runs(values, (n - 1) as nat);
        let before = runs(values, (n - 1) as nat);
        let r = runs(values, n);
        let k = before.len();
        if k > 0 && before.last().0.same_spec(values[n - 1]) {
            lemma_total_count_prefix(before, r, (k - 1) as nat);
        } else {
            lemma_total_count_prefix(before, r, k);
        }
    }
}

/// How many values the first `n` runs hold.
pub open spec fn total_count(runs: Seq<(Double, nat)>, n: nat) -> nat
    decreases n,
{
    if n == 0 { 0 } else { total_count(runs, (n - 1) as nat) + runs[n - 1].1 }
}

proof fn lemma_total_count_prefix(a: Seq<(Double, nat)>, b: Seq<(Double, nat)>, n: nat)
    requires
        n <= a.len(),
        n <= b.len(),
        forall|i: int| 0 <= i < n ==> a[i] == b[i],
    ensures
        total_count(a, n) == total_count(b, n),
    decreases n,
{
    if n > 0 {
        lemma_total_count_prefix(a, b, (n - 1) as nat);
    }
}

proof fn lemma_total_count_monotone(a: Seq<(Double, nat)>, m: nat, n: nat)
    requires
        m <= n,
    ensures
        total_count(a, m) <= total_count(a, n),
    decreases n,
{
    if m < n {
        lemma_total_count_monotone(a, m, (n - 1) as nat);
    }
}

/// Runs of ascending numbers are strictly ascending numbers.
pub(crate) proof fn lemma_runs_ascending(values: Seq<Double>, n: nat)
    requires
        n <= values.len(),
        ascending_numbers(values),
    ensures
        forall|i: int| 0 <= i < runs(values, n).len() ==> !(#[trigger] runs(values, n)[i]).0.nan(),
        forall|i: int, j: int|
            0 <= i < j < runs(values, n).len() ==>
                (#[trigger] runs(values, n)[i]).0.ordinal() < (#[trigger] runs(values, n)[j]).0.ordinal(),
        n > 0 ==> runs(values, n).len() > 0 && runs(values, n).last().0.ordinal() == values[n - 1].ordinal(),
    decreases n,
{
    if n > 0 {
        lemma_runs_ascending(values, (n - 1) as nat);
        let before = runs(values, (n - 1) as nat);
        let r = runs(values, n);
        if n > 1 {
            assert(values[n - 2].ordinal() <= values[n - 1].ordinal());
        }
        assert forall|i: int, j: int| 0 <= i < j < r.len() implies (#[trigger] r[i]).0.ordinal() < (
        #[trigger] r[j]).0.ordinal() by {
            if j < before.len() {
                assert(before[i].0.ordinal() < before[j].0.ordinal());
            } else if i < before.len() - 1 {
                assert(before[i].0.ordinal() < before[before.len() - 1].0.ordinal());
            }
        }
    }
}

proof fn lemma_between_monotone(a: Double, b: Double, c: Double, d: Double)
    requires
        a.le_spec(c),
        b.le_spec(d),
        !a.plus_spec(b).nan(),
        !c.plus_spec(d).nan(),
    ensures
        between(a, b).le_spec(between(c, d)),
{
    lemma_plus_monotone(a, b, c, d);
    let two = Double::two_spec();
    lemma_half_monotone(a.plus_spec(b), c.plus_spec(d));
    lemma_next_up(a.plus_spec(b).over_spec(two));
    lemma_next_up(c.plus_spec(d).over_spec(two));
}

spec fn strictly_ascending(r: Seq<(Double, nat)>) -> bool {
    &&& forall|i: int| 0 <= i < r.len() ==> !(#[trigger] r[i]).0.nan()
    &&& forall|i: int, j: int| 0 <= i < j < r.len() ==> (#[trigger] r[i]).0.ordinal() < (#[trigger] r[j]).0.ordinal()
}

/// Neighbouring runs have a mean, unless they are the two infinities, alone.
proof fn lemma_mean_exists(r: Seq<(Double, nat)>, i: int)
    requires
        strictly_ascending(r),
        0 <= i < r.len() - 1,
        r.len() > 2,
    ensures
        !r[i].0.plus_spec(r[i + 1].0).nan(),
{
    lemma_plus_number(r[i].0, r[i + 1].0);
    if i > 0 {
        assert(r[i - 1].0.ordinal() < r[i].0.ordinal());
    } else {
        assert(r[i + 1].0.ordinal() < r[i + 2].0.ordinal());
    }
    assert(r[i].0.ordinal() < r[i + 1].0.ordinal());
}

spec fn below_all(bounds: Seq<Double>, top: Double) -> bool {
    forall|i: int| 0 <= i < bounds.len() ==> (#[trigger] bounds[i]).le_spec(top)
}

spec fn in_order(bounds: Seq<Double>) -> bool {
    forall|i: int, j: int| 0 <= i < j < bounds.len() ==> (#[trigger] bounds[i]).le_spec(#[trigger] bounds[j])
}

/// The bounds that the search sets are in order, and none is above the place where the next
/// one could be set.
proof fn lemma_cuts_in_order(r: Seq<(Double, nat)>, mean: Double, max_bin: nat, n: nat)
    requires
        strictly_ascending(r),
        r.len() > 2 || (r.len() == 2 && !r[0].0.plus_spec(r[1].0).nan()),
        n < r.len(),
    ensures
        in_order(cuts(r, mean, max_bin, n).bounds),
        n > 0 ==> below_all(cuts(r, mean, max_bin, n).bounds, between(r[n - 1].0, r[n as int].0)),
        n == 0 ==> cuts(r, mean, max_bin, n).bounds.len() == 0,
        n == 0 ==> cuts(r, mean, max_bin, n).count == 0,
    decreases n,
{
    if n > 0 {
        let i = n - 1;
        lemma_cuts_in_order(r, mean, max_bin, i as nat);
        let before = cuts(r, mean, max_bin, i as nat);
        let top = between(r[i].0, r[i + 1].0);
        if r.len() > 2 {
            lemma_mean_exists(r, i);
        }
        lemma_between_monotone(r[i].0, r[i + 1].0, r[i].0, r[i + 1].0);
        if i > 0 {
            let low = between(r[i - 1].0, r[i].0);
            lemma_mean_exists(r, i - 1);
            assert(r[i - 1].0.ordinal() < r[i].0.ordinal());
            assert(r[i].0.ordinal() < r[i + 1].0.ordinal());
            lemma_between_monotone(r[i - 1].0, r[i].0, r[i].0, r[i + 1].0);
            assert forall|k: int| 0 <= k < before.bounds.len() implies (#[trigger] before.bounds[k]).le_spec(top) by {
                assert(before.bounds[k].le_spec(low));
            }
            let g = before.guarded(r, i, mean, max_bin);
            assert(in_order(g.bounds));
            assert(below_all(g.bounds, top));
        }
    }
}

/// The number of bins asked for, but one at least.
pub open spec fn most_bins(max_bin: nat) -> nat {
    if max_bin >= 1 { max_bin } else { 1 }
}

/// A search in which no bound is to be set comes to its end without one.
proof fn lemma_no_cuts(values: Seq<Double>, max_bin: nat, min_data_in_bin: nat, m: nat)
    requires
        max_bin <= 1,
        0 < values.len() <= pow2(53),
        m < runs(values, values.len()).len(),
    ensures
        ({
            let r = runs(values, values.len());
            let mean = mean_size(values.len(), max_bin, min_data_in_bin);
            let c = cuts(r, mean, max_bin, m);
            &&& c.bounds.len() == 0
            &&& !c.full
            &&& c.count == total_count(r, m)
            &&& c.guarded(r, m as int, mean, max_bin) == c
        }),
    decreases m,
{
    let n = values.len();
    let r = runs(values, n);
    let mean = mean_size(n, max_bin, min_data_in_bin);
    lemma_runs(values, n);
    lemma_whole_mean(n, max_bin, min_data_in_bin);
    lemma_total_count_monotone(r, m + 1, r.len());
    lemma_from_count_monotone(total_count(r, m + 1), n);
    if m > 0 {
        lemma_no_cuts(values, max_bin, min_data_in_bin, (m - 1) as nat);
        assert(r[m as int].1 > 0);
        lemma_from_count_strict(total_count(r, m), n);
    }
}

/// With one bin asked for, or none, the bin size is that of all values or more.
proof fn lemma_whole_mean(n: nat, max_bin: nat, min_data_in_bin: nat)
    requires
        max_bin <= 1,
        0 < n <= pow2(53),
    ensures
        Double::from_count_spec(n).le_spec(mean_size(n, max_bin, min_data_in_bin)),
{
    let a = Double::from_count_spec(n);
    let b = Double::from_count_spec(max_bin);
    lemma_pow2_pos(1074);
    lemma_pow2_pos(53);
    lemma_from_count_exact(n);
    lemma_from_count_exact(max_bin);
    lemma_size_positive(a);
    lemma_size_positive(b);
    assert(n * pow2(1074) > 0) by (nonlinear_arith)
        requires
            n > 0,
            pow2(1074) > 0,
    ;
    if max_bin == 1 {
        assert(1 * pow2(1074) == pow2(1074));
        law_exact_quotient(a, b, a);
        assert(a.over_spec(b) == a);
    } else {
        assert(0 * pow2(1074) == 0);
        reveal(Double::over_spec);
    }
    assert(a.le_spec(a.over_spec(b)));
    lemma_from_count_monotone(min_data_in_bin, min_data_in_bin);
}

/// The greedy bounds of ascending numbers are valid, and as many as there are to be bins at
/// most. With less than two bins asked for that takes counts that are told apart.
pub(crate) proof fn lemma_greedy_bounds(values: Seq<Double>, max_bin: nat, min_data_in_bin: nat)
    requires
        ascending_numbers(values),
        max_bin <= MAX_NUM_BINS,
    ensures
        valid_bounds(greedy_bounds(values, max_bin, min_data_in_bin)),
        max_bin >= 2 || values.len() <= pow2(53) ==> greedy_bounds(values, max_bin, min_data_in_bin).len() <= most_bins(
            max_bin,
        ),
{
    if values.len() > 0 {
        let r = runs(values, values.len());
        let mean = mean_size(values.len(), max_bin, min_data_in_bin);
        lemma_runs(values, values.len());
        lemma_runs_ascending(values, values.len());
        let n = (r.len() - 1) as nat;
        let c = all_cuts(r, mean, max_bin);
        lemma_cuts_count(r, mean, max_bin, n);
        if max_bin <= 1 && values.len() <= pow2(53) {
            lemma_no_cuts(values, max_bin, min_data_in_bin, n);
        }
        let b = greedy_bounds(values, max_bin, min_data_in_bin);
        if r.len() == 2 && r[0].0.plus_spec(r[1].0).nan() {
            lemma_two_runs(r, mean, max_bin);
        } else if r.len() >= 2 {
            lemma_cuts_in_order(r, mean, max_bin, n);
            assert(in_order(c.bounds));
            assert forall|i: int, j: int| 0 <= i < j < b.len() implies {
                ||| (#[trigger] b[j]).nan()
                ||| b[j] == Double::infinity_spec()
                ||| (#[trigger] b[i]).le_spec(b[j])
            } by {
                if j < c.bounds.len() {
                    assert(c.bounds[i].le_spec(c.bounds[j]));
                }
            }
        }
    }
}

/// With two runs at most one bound is set.
proof fn lemma_two_runs(r: Seq<(Double, nat)>, mean: Double, max_bin: nat)
    requires
        r.len() == 2,
    ensures
        all_cuts(r, mean, max_bin).bounds.len() <= 1,
{
    assert(cuts(r, mean, max_bin, 0).count == 0);
}

/// The search stops short of `max_bin` bounds.
proof fn lemma_cuts_count(r: Seq<(Double, nat)>, mean: Double, max_bin: nat, n: nat)
    ensures
        cuts(r, mean, max_bin, n).bounds.len() < if max_bin >= 2 { max_bin } else { 2 },
        !cuts(r, mean, max_bin, n).full ==> cuts(r, mean, max_bin, n).bounds.len() + 1 < max_bin
            || cuts(r, mean, max_bin, n).bounds.len() == 0,
    decreases n,
{
    if n > 0 {
        lemma_cuts_count(r, mean, max_bin, (n - 1) as nat);
    }
}

/// The value and the number of occurrences of each run of equal values.
fn value_counts(values: &[Double]) -> (counts: Vec<(Double, usize)>)
    ensures
        counts@.len() == runs(values@, values@.len()).len(),
        forall|i: int|
            0 <= i < counts@.len() ==> {
                &&& (#[trigger] counts@[i]).0 == runs(values@, values@.len())[i].0
                &&& counts@[i].1 == runs(values@, values@.len())[i].1
            },
{
    let n = values.len();
    let mut counts: Vec<(Double, usize)> = Vec::new();
    let mut i: usize = 0;
    while i < n
        invariant
            i <= n,
            n == values@.len(),
            counts@.len() == runs(values@, i as nat).len(),
            forall|k: int|
                0 <= k < counts@.len() ==> {
                    &&& (#[trigger] counts@[k]).0 == runs(values@, i as nat)[k].0
                    &&& counts@[k].1 == runs(values@, i as nat)[k].1
                },
        decreases n - i,
    {
        let x = values[i];
        let k = counts.len();
        proof {
            lemma_runs(values@, i as nat);
            lemma_runs(values@, (i + 1) as nat);
        }
        if k > 0 && counts[k - 1].0.same(x) {
            let (value, count) = counts[k - 1];
            counts.set(k - 1, (value, count + 1));
        } else {
            counts.push((x, 1));
        }
        i += 1;
    }
    counts
}

/// The number next above the mean of two numbers.
fn bound_between(a: Double, b: Double) -> (r: Double)
    ensures
        r == between(a, b),
{
    a.plus(b).over(Double::two()).next_up()
}

/// Greedy search for bin bounds over values in ascending order.
///
/// A run of equal values with which the open bin would exceed the bin size is kept out of it:
/// the bin is closed before the run. Frequent values so come to have bins of their own.
pub fn greedy_find_bins(sorted_values: &[Double], max_bin: usize, min_data_in_bin: usize) -> (bounds: Vec<Double>)
    ensures
        bounds@ == greedy_bounds(sorted_values@, max_bin as nat, min_data_in_bin as nat),
        ascending_numbers(sorted_values@) && max_bin <= MAX_NUM_BINS ==> valid_bounds(bounds@),
        ascending_numbers(sorted_values@) && max_bin <= MAX_NUM_BINS && (max_bin >= 2 || sorted_values@.len() <= pow2(53))
            ==> bounds@.len() <= most_bins(max_bin as nat),
{
    proof {
        if ascending_numbers(sorted_values@) && max_bin <= MAX_NUM_BINS {
            lemma_greedy_bounds(sorted_values@, max_bin as nat, min_data_in_bin as nat);
        }
    }
    let mut bounds: Vec<Double> = Vec::new();
    let n = sorted_values.len();
    if n == 0 {
        bounds.push(Double::infinity());
        return bounds;
    }
    let counts = value_counts(sorted_values);
    let ghost r = runs(sorted_values@, n as nat);
    proof {
        lemma_runs(sorted_values@, n as nat);
    }
    let mean = Double::from_count(n).over(Double::from_count(max_bin)).max(Double::from_count(min_data_in_bin));
    let last = counts.len() - 1;
    let mut current_count: usize = 0;
    let mut full = false;
    let mut i: usize = 0;
    assert(total_count(r, r.len()) == total_count(r, last as nat) + r[last as int].1);
    while i < last
        invariant
            i <= last,
            last + 1 == r.len(),
            counts@.len() == r.len(),
            r == runs(sorted_values@, n as nat),
            forall|k: int| 0 <= k < r.len() ==> (#[trigger] counts@[k]).0 == r[k].0 && counts@[k].1 == r[k].1,
            total_count(r, r.len()) == n,
            mean == mean_size(n as nat, max_bin as nat, min_data_in_bin as nat),
            current_count <= total_count(r, i as nat),
            (Cuts { bounds: bounds@, count: current_count as nat, full }) =~= cuts(r, mean, max_bin as nat, i as nat),
            i == 0 ==> current_count == 0,
        decreases last - i,
    {
        let (value, count) = counts[i];
        proof {
            lemma_total_count_monotone(r, (i + 1) as nat, r.len());
        }
        if !full {
            if current_count > 0 && mean.lt(Double::from_count(current_count + count)) {
                bounds.push(bound_between(counts[i - 1].0, value));
                current_count = 0;
                full = max_bin <= 1 || bounds.len() >= max_bin - 1;
            }
            if !full {
                current_count += count;
                if mean.le(Double::from_count(current_count)) {
                    bounds.push(bound_between(value, counts[i + 1].0));
                    current_count = 0;
                    full = max_bin <= 1 || bounds.len() >= max_bin - 1;
                }
            }
        }
        i += 1;
    }
    if !full && current_count > 0 && mean.lt(Double::from_count(current_count + counts[last].1)) {
        bounds.push(bound_between(counts[last - 1].0, counts[last].0));
    }
    bounds.push(Double::infinity());
    bounds
}

proof fn lemma_mean_size_monotone(n: nat, max_bin: nat, few: nat, many: nat)
    requires
        few <= many,
    ensures
        mean_size(n, max_bin, few).le_spec(mean_size(n, max_bin, many)),
{
    lemma_from_count_monotone(few, many);
}

/// A larger bin size never leads to more bounds: the search for them is then never ahead, in
/// the bounds set and in how full the open bin is.
proof fn lemma_fewer_cuts(r: Seq<(Double, nat)>, small: Double, large: Double, max_bin: nat, n: nat)
    requires
        small.le_spec(large),
    ensures
        ({
            let a = cuts(r, small, max_bin, n);
            let b = cuts(r, large, max_bin, n);
            &&& b.bounds.len() <= a.bounds.len()
            &&& !a.full ==> !b.full && (b.bounds.len() < a.bounds.len() || b.count <= a.count)
        }),
    decreases n,
{
    if n > 0 {
        let m = (n - 1) as nat;
        lemma_fewer_cuts(r, small, large, max_bin, m);
        lemma_cuts_count(r, small, max_bin, n);
        lemma_cuts_count(r, large, max_bin, n);
        lemma_cuts_count(r, small, max_bin, m);
        lemma_cuts_count(r, large, max_bin, m);
        lemma_full_cuts(r, small, max_bin, n);
        lemma_full_cuts(r, large, max_bin, n);
        let a = cuts(r, small, max_bin, m);
        let b = cuts(r, large, max_bin, m);
        let x = r[m as int].1;
        lemma_from_count_monotone(x, a.count + x);
        lemma_from_count_monotone(x, b.count + x);
        if b.count <= a.count {
            lemma_from_count_monotone(b.count + x, a.count + x);
        }
    }
}

/// The search stops with as many bounds as there may be.
proof fn lemma_full_cuts(r: Seq<(Double, nat)>, mean: Double, max_bin: nat, n: nat)
    ensures
        cuts(r, mean, max_bin, n).full ==> cuts(r, mean, max_bin, n).bounds.len() == if max_bin >= 2 { max_bin - 1 } else { 1 },
    decreases n,
{
    if n > 0 {
        lemma_full_cuts(r, mean, max_bin, (n - 1) as nat);
        lemma_cuts_count(r, mean, max_bin, (n - 1) as nat);
    }
}

pub(crate) proof fn lemma_fewer_bounds(values: Seq<Double>, max_bin: nat, few: nat, many: nat)
    requires
        few <= many,
    ensures
        greedy_bounds(values, max_bin, many).len() <= greedy_bounds(values, max_bin, few).len(),
{
    if values.len() > 0 {
        let r = runs(values, values.len());
        lemma_mean_size_monotone(values.len(), max_bin, few, many);
        lemma_fewer_cuts(
            r,
            mean_size(values.len(), max_bin, few),
            mean_size(values.len(), max_bin, many),
            max_bin,
            (r.len() - 1) as nat,
        );
        let a = cuts(r, mean_size(values.len(), max_bin, few), max_bin, (r.len() - 1) as nat);
        let b = cuts(r, mean_size(values.len(), max_bin, many), max_bin, (r.len() - 1) as nat);
        let x = r.last().1;
        if b.count <= a.count {
            lemma_from_count_monotone(b.count + x, a.count + x);
        }
        lemma_full_cuts(r, mean_size(values.len(), max_bin, few), max_bin, (r.len() - 1) as nat);
        lemma_cuts_count(r, mean_size(values.len(), max_bin, many), max_bin, (r.len() - 1) as nat);
    }
}

/// A value that fills a bin alone shares it with no other: as long as bounds may be set, the
/// bin before it is closed, and a bound follows it unless it is the last value.
pub proof fn law_frequent_values_stand_alone(r: Seq<(Double, nat)>, mean: Double, max_bin: nat, i: nat)
    requires
        i < r.len(),
        !cuts(r, mean, max_bin, i).full,
        mean.le_spec(Double::from_count_spec(r[i as int].1)),
        cuts(r, mean, max_bin, i).count + r[i as int].1 <= pow2(53),
    ensures
        ({
            let before = cuts(r, mean, max_bin, i).guarded(r, i as int, mean, max_bin);
            let after = cuts(r, mean, max_bin, i + 1);
            &&& before.count == 0
            &&& i + 1 < r.len() && !before.full ==> {
                &&& after.count == 0
                &&& after.bounds == before.bounds.push(between(r[i as int].0, r[(i + 1) as int].0))
            }
            &&& i + 1 == r.len() ==> all_cuts(r, mean, max_bin) == before
        }),
{
    let c = cuts(r, mean, max_bin, i);
    if c.count > 0 {
        lemma_from_count_strict(r[i as int].1, c.count + r[i as int].1);
    }
}

} // verus!
