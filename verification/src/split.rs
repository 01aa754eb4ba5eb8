//! The best split of a leaf.

use vstd::prelude::*;

use crate::double::Double;
use crate::histogram::{HistogramBin, Histograms, HistogramsView};
use crate::parameters::BoosterParameters;
use crate::utils::parallel_map;

verus! {

/// Which bins go left.
///
/// `Numeric { bin, missing_goes_left }`: rows with bin index `<= bin` go left. The bin for
/// missing values is routed by `missing_goes_left`.
/// `Categorical(goes_left)`: one bool per bin. `goes_left[bin]` says which side the row
/// goes; the last slot is that of missing values.
#[derive(Clone, Debug)]
pub enum Threshold {
    Numeric { bin: u8, missing_goes_left: bool },
    Categorical(Vec<bool>),
}

/// The contents of a `Threshold`.
pub enum Rule {
    Numeric { bin: u8, missing_goes_left: bool },
    Categorical(Seq<bool>),
}

impl Rule {
    /// Whether rows of bin `bin` go left, where `sentinel` is the bin of missing values.
    pub open spec fn goes_left(self, bin: u8, sentinel: u8) -> bool {
        match self {
            Rule::Numeric { bin: t, missing_goes_left } => if bin == sentinel {
                missing_goes_left
            } else {
                bin <= t
            },
            Rule::Categorical(cats) => cats[bin as int],
        }
    }

    /// A rule for a feature with `num_bins` bins: a numeric one splits at a bin that is not
    /// the one for missing values, a categorical one gives a side to each bin.
    pub open spec fn suits(self, num_bins: nat, categorical: bool) -> bool {
        match self {
            Rule::Numeric { bin, .. } => !categorical && bin + 1 < num_bins,
            Rule::Categorical(cats) => categorical && cats.len() == num_bins,
        }
    }

    /// A side is given for every bin below `num_bins`.
    pub open spec fn covers(self, num_bins: nat) -> bool {
        match self {
            Rule::Numeric { .. } => true,
            Rule::Categorical(cats) => cats.len() >= num_bins,
        }
    }
}

impl View for Threshold {
    type V = Rule;

    open spec fn view(&self) -> Rule {
        match self {
            Threshold::Numeric { bin, missing_goes_left } => Rule::Numeric {
                bin: *bin,
                missing_goes_left: *missing_goes_left,
            },
            Threshold::Categorical(cats) => Rule::Categorical(cats@),
        }
    }
}

impl Threshold {
    /// The side of a row with bin `bin`.
    pub fn goes_left(&self, bin: u8, sentinel: u8) -> (left: bool)
        requires
            self@.covers(bin as nat + 1),
        ensures
            left == self@.goes_left(bin, sentinel),
    {
        match self {
            Threshold::Numeric { bin: t, missing_goes_left } => {
                if bin == sentinel { *missing_goes_left } else { bin <= *t }
            },
            Threshold::Categorical(cats) => cats[bin as usize],
        }
    }
}

/// A split of a leaf: what it gains, where each bin goes, and the sums on both sides.
pub struct SplitInfo {
    pub gain: Double,
    pub threshold: Threshold,
    pub feature_index: usize,
    pub left_gradient: Double,
    pub left_hessian: Double,
    pub right_gradient: Double,
    pub right_hessian: Double,
}

/// The contents of a `SplitInfo`.
pub struct Split {
    pub gain: Double,
    pub rule: Rule,
    pub feature: nat,
    pub left: HistogramBin,
    pub right: HistogramBin,
}

impl View for SplitInfo {
    type V = Split;

    open spec fn view(&self) -> Split {
        Split {
            gain: self.gain,
            rule: self.threshold@,
            feature: self.feature_index as nat,
            left: HistogramBin {
                sum_gradients: self.left_gradient,
                sum_hessians: self.left_hessian,
            },
            right: HistogramBin {
                sum_gradients: self.right_gradient,
                sum_hessians: self.right_hessian,
            },
        }
    }
}

/// The score of a leaf with gradient `g` and hessian `h`: the squared gradient, shrunk by
/// `l1`, over the hessian plus `l2`.
pub open spec fn score_of(g: Double, h: Double, l1: Double, l2: Double) -> Double {
    let d = g.abs_spec().minus_spec(l1).max_spec(Double::zero_spec());
    d.times_spec(d).over_spec(h.plus_spec(l2))
}

/// Score of a leaf node used for gain calculation.
pub fn calculate_score(g: Double, h: Double, l1: Double, l2: Double) -> (r: Double)
    ensures
        r == score_of(g, h, l1, l2),
{
    let d = g.abs().minus(l1).max(Double::zero());
    d.times(d).over(h.plus(l2))
}

/// A way to split: the sums on both sides, the position in the scan, and the side of what
/// the position does not decide.
#[derive(Clone, Copy)]
pub struct Candidate {
    pub left: HistogramBin,
    pub right: HistogramBin,
    pub flag: bool,
    pub index: usize,
}

impl Candidate {
    /// The scores of both sides together; minus infinity where a side is too light.
    pub open spec fn score(self, p: BoosterParameters) -> Double {
        if p.min_sum_hessian_in_leaf.le_spec(self.left.sum_hessians)
            && p.min_sum_hessian_in_leaf.le_spec(self.right.sum_hessians) {
            score_of(self.left.sum_gradients, self.left.sum_hessians, p.lambda_l1, p.lambda_l2).plus_spec(
                score_of(self.right.sum_gradients, self.right.sum_hessians, p.lambda_l1, p.lambda_l2),
            )
        } else {
            Double::neg_infinity_spec()
        }
    }
}

/// The best candidate so far and its score.
#[derive(Clone, Copy)]
pub struct Best {
    pub score: Double,
    pub candidate: Candidate,
}

impl Best {
    /// Before any candidate.
    pub open spec fn none() -> Best {
        Best {
            score: Double::neg_infinity_spec(),
            candidate: Candidate {
                left: HistogramBin::empty(),
                right: HistogramBin::empty(),
                flag: false,
                index: 0,
            },
        }
    }

    /// A candidate takes over where its score is higher.
    pub open spec fn or(self, c: Candidate, p: BoosterParameters) -> Best {
        if self.score.lt_spec(c.score(p)) {
            Best { score: c.score(p), candidate: c }
        } else {
            self
        }
    }
}

/// The best of the first `n` candidates.
pub open spec fn best_of(candidates: Seq<Candidate>, n: nat, p: BoosterParameters) -> Best
    decreases n,
{
    if n == 0 {
        Best::none()
    } else {
        best_of(candidates, (n - 1) as nat, p).or(candidates[n - 1], p)
    }
}

/// The sums over the first `n` bins, added from the left.
pub open spec fn prefix_sum(bins: Seq<HistogramBin>, n: nat) -> HistogramBin
    decreases n,
{
    if n == 0 {
        HistogramBin::empty()
    } else {
        prefix_sum(bins, (n - 1) as nat).plus_spec(bins[n - 1])
    }
}

/// The split after position `t` of a scan, with what is left of `all` on the right.
pub open spec fn after(bins: Seq<HistogramBin>, all: HistogramBin, t: int) -> (HistogramBin, HistogramBin) {
    let left = prefix_sum(bins, (t + 1) as nat);
    (left, all.minus_spec(left))
}

/// No row of the leaf misses the feature: the last bin, that of missing values, is empty.
pub open spec fn none_missing(bins: Seq<HistogramBin>) -> bool {
    bins.last().sum_hessians.same_spec(Double::zero_spec())
}

/// The splits of a numeric feature in the order in which they are looked at. Without
/// missing values there is one after each bin but the last two, and missing values would
/// follow the heavier side. With them there are two after each bin but the last: missing
/// values right, then left.
pub open spec fn numeric_candidates(bins: Seq<HistogramBin>, all: HistogramBin) -> Seq<Candidate> {
    if none_missing(bins) {
        Seq::new(
            (bins.len() - 2) as nat,
            |t: int|
                {
                    let (left, right) = after(bins, all, t);
                    Candidate {
                        left,
                        right,
                        flag: right.sum_hessians.lt_spec(left.sum_hessians),
                        index: t as usize,
                    }
                },
        )
    } else {
        Seq::new(
            (2 * (bins.len() - 1)) as nat,
            |i: int|
                {
                    let (left, right) = after(bins, all, i / 2);
                    if i % 2 == 0 {
                        Candidate { left, right, flag: false, index: (i / 2) as usize }
                    } else {
                        Candidate {
                            left: left.plus_spec(bins.last()),
                            right: right.minus_spec(bins.last()),
                            flag: true,
                            index: (i / 2) as usize,
                        }
                    }
                },
        )
    }
}

/// The split that the best candidate makes, if it gains enough over the unsplit leaf.
pub open spec fn split_from(best: Best, rule: Rule, parent_score: Double, p: BoosterParameters) -> Option<Split> {
    let gain = best.score.minus_spec(parent_score);
    if gain.le_spec(p.min_gain_to_split) {
        None
    } else {
        Some(Split { gain, rule, feature: 0, left: best.candidate.left, right: best.candidate.right })
    }
}

/// The best split of a numeric feature with bins `bins`.
pub open spec fn numeric_split(
    bins: Seq<HistogramBin>,
    all: HistogramBin,
    parent_score: Double,
    p: BoosterParameters,
) -> Option<Split> {
    if bins.len() < 2 || (none_missing(bins) && bins.len() < 3) {
        None
    } else {
        let candidates = numeric_candidates(bins, all);
        let best = best_of(candidates, candidates.len(), p);
        split_from(
            best,
            Rule::Numeric { bin: best.candidate.index as u8, missing_goes_left: best.candidate.flag },
            parent_score,
            p,
        )
    }
}

/// Lets a candidate compete with the best so far.
fn evaluate_split(candidate: Candidate, parameters: &BoosterParameters, best: &mut Best)
    ensures
        *final(best) == old(best).or(candidate, *parameters),
{
    let left = candidate.left;
    let right = candidate.right;
    let score = calculate_score(
        left.sum_gradients,
        left.sum_hessians,
        parameters.lambda_l1,
        parameters.lambda_l2,
    ).plus(
        calculate_score(
            right.sum_gradients,
            right.sum_hessians,
            parameters.lambda_l1,
            parameters.lambda_l2,
        ),
    );
    let leaf_constraint = parameters.min_sum_hessian_in_leaf.le(left.sum_hessians)
        && parameters.min_sum_hessian_in_leaf.le(right.sum_hessians);
    let score = if leaf_constraint { score } else { Double::neg_infinity() };
    if best.score.lt(score) {
        *best = Best { score, candidate };
    }
}

fn no_best() -> (best: Best)
    ensures
        best == Best::none(),
{
    Best {
        score: Double::neg_infinity(),
        candidate: Candidate {
            left: HistogramBin::default(),
            right: HistogramBin::default(),
            flag: false,
            index: 0,
        },
    }
}

/// Turns the best candidate into a split where it gains enough.
fn finish_split(best: Best, threshold: Threshold, parent_score: Double, parameters: &BoosterParameters) -> (r: Option<SplitInfo>)
    ensures
        r is Some == split_from(best, threshold@, parent_score, *parameters) is Some,
        r matches Some(split) ==> Some(split@) == split_from(best, threshold@, parent_score, *parameters),
{
    let gain = best.score.minus(parent_score);
    if gain.le(parameters.min_gain_to_split) {
        return None;
    }
    Some(SplitInfo {
        gain,
        threshold,
        feature_index: 0,
        left_gradient: best.candidate.left.sum_gradients,
        left_hessian: best.candidate.left.sum_hessians,
        right_gradient: best.candidate.right.sum_gradients,
        right_hessian: best.candidate.right.sum_hessians,
    })
}

impl Histograms {
    /// Find the best numeric split by scanning bins left to right.
    pub fn find_best_numeric_split(
        bins: &[HistogramBin],
        total_gradient: Double,
        total_hessian: Double,
        parent_score: Double,
        parameters: &BoosterParameters,
    ) -> (r: Option<SplitInfo>)
        requires
            1 <= bins@.len() <= 256,
        ensures
            ({
                let all = HistogramBin { sum_gradients: total_gradient, sum_hessians: total_hessian };
                let split = numeric_split(bins@, all, parent_score, *parameters);
                &&& r is Some == split is Some
                &&& r matches Some(s) ==> Some(s@) == split
            }),
    {
        let all = HistogramBin { sum_gradients: total_gradient, sum_hessians: total_hessian };
        let n = bins.len();
        let sentinel = bins[n - 1];
        let mut left = HistogramBin::default();
        let mut best = no_best();
        let ghost candidates = numeric_candidates(bins@, all);
        if sentinel.sum_hessians.same(Double::zero()) {
            if n < 3 {
                return None;
            }
            for t in 0..n - 2
                invariant
                    n == bins@.len(),
                    3 <= n <= 256,
                    none_missing(bins@),
                    candidates == numeric_candidates(bins@, all),
                    left == prefix_sum(bins@, t as nat),
                    best == best_of(candidates, t as nat, *parameters),
            {
                left = left.plus(bins[t]);
                let right = all.minus(left);
                let flag = right.sum_hessians.lt(left.sum_hessians);
                let candidate = Candidate { left, right, flag, index: t };
                assert(candidate == candidates[t as int]);
                evaluate_split(candidate, parameters, &mut best);
            }
        } else {
            if n < 2 {
                return None;
            }
            for t in 0..n - 1
                invariant
                    n == bins@.len(),
                    2 <= n <= 256,
                    sentinel == bins@.last(),
                    !none_missing(bins@),
                    candidates == numeric_candidates(bins@, all),
                    left == prefix_sum(bins@, t as nat),
                    best == best_of(candidates, (2 * t) as nat, *parameters),
            {
                left = left.plus(bins[t]);
                let right = all.minus(left);
                let candidate = Candidate { left, right, flag: false, index: t };
                assert(candidate == candidates[2 * t as int]);
                evaluate_split(candidate, parameters, &mut best);
                assert(best == best_of(candidates, (2 * t + 1) as nat, *parameters));
                let candidate = Candidate {
                    left: left.plus(sentinel),
                    right: right.minus(sentinel),
                    flag: true,
                    index: t,
                };
                assert(candidate == candidates[2 * t as int + 1]);
                evaluate_split(candidate, parameters, &mut best);
            }
        }
        let threshold = Threshold::Numeric {
            bin: best.candidate.index as u8,
            missing_goes_left: best.candidate.flag,
        };
        finish_split(best, threshold, parent_score, parameters)
    }
}

/// What categories are ordered by: gradient over hessian.
pub open spec fn ratio(bin: HistogramBin) -> Double {
    bin.sum_gradients.over_spec(bin.sum_hessians)
}

/// `order` with `k` put behind the last category whose ratio is not above its own.
pub open spec fn insert_by_ratio(bins: Seq<HistogramBin>, order: Seq<usize>, k: usize) -> Seq<usize>
    decreases order.len(),
{
    if order.len() == 0 || ratio(bins[order.last() as int]).ordinal() <= ratio(bins[k as int]).ordinal() {
        order.push(k)
    } else {
        insert_by_ratio(bins, order.drop_last(), k).push(order.last())
    }
}

/// Those of the first `n` categories that hold any rows, by rising ratio; among equals,
/// the one with the lower index first.
pub open spec fn category_order(bins: Seq<HistogramBin>, n: nat) -> Seq<usize>
    decreases n,
{
    if n == 0 {
        Seq::empty()
    } else {
        let order = category_order(bins, (n - 1) as nat);
        if Double::zero_spec().lt_spec(bins[n - 1].sum_hessians) {
            insert_by_ratio(bins, order, (n - 1) as usize)
        } else {
            order
        }
    }
}

/// The bins in the given order.
pub open spec fn arranged(bins: Seq<HistogramBin>, order: Seq<usize>) -> Seq<HistogramBin> {
    Seq::new(order.len(), |i: int| bins[order[i] as int])
}

/// The splits of a categorical feature: one after each category but the last, in the
/// order of the ratios. Categories without rows would follow the heavier side.
pub open spec fn categorical_candidates(bins: Seq<HistogramBin>, order: Seq<usize>, all: HistogramBin) -> Seq<Candidate> {
    Seq::new(
        (order.len() - 1) as nat,
        |t: int|
            {
                let (left, right) = after(arranged(bins, order), all, t);
                Candidate {
                    left,
                    right,
                    flag: right.sum_hessians.lt_spec(left.sum_hessians),
                    index: t as usize,
                }
            },
    )
}

/// Where each of `n` categories goes: left up to position `c.index` of the order.
pub open spec fn categorical_rule(order: Seq<usize>, c: Candidate, n: nat) -> Seq<bool> {
    Seq::new(
        n,
        |k: int|
            if order.contains(k as usize) {
                order.take(c.index + 1).contains(k as usize)
            } else {
                c.flag
            },
    )
}

/// The best split of a categorical feature with bins `bins`.
pub open spec fn categorical_split(
    bins: Seq<HistogramBin>,
    all: HistogramBin,
    parent_score: Double,
    p: BoosterParameters,
) -> Option<Split> {
    let order = category_order(bins, bins.len());
    if order.len() < 2 {
        None
    } else {
        let candidates = categorical_candidates(bins, order, all);
        let best = best_of(candidates, candidates.len(), p);
        split_from(
            best,
            Rule::Categorical(categorical_rule(order, best.candidate, bins.len())),
            parent_score,
            p,
        )
    }
}

/// Category `a` stands before category `b`: its ratio is lower, or the same and its index is.
pub open spec fn stands_before(bins: Seq<HistogramBin>, a: usize, b: usize) -> bool {
    let ra = ratio(bins[a as int]).ordinal();
    let rb = ratio(bins[b as int]).ordinal();
    ra < rb || (ra == rb && a < b)
}

/// Categories in their order.
pub open spec fn in_ratio_order(bins: Seq<HistogramBin>, order: Seq<usize>) -> bool {
    forall|i: int, j: int| 0 <= i < j < order.len() ==> stands_before(bins, #[trigger] order[i], #[trigger] order[j])
}

proof fn lemma_insert_by_ratio(bins: Seq<HistogramBin>, order: Seq<usize>, k: usize)
    ensures
        insert_by_ratio(bins, order, k).len() == order.len() + 1,
        forall|x: usize| #[trigger] insert_by_ratio(bins, order, k).contains(x) <==> (order.contains(x) || x == k),
        order.no_duplicates() && !order.contains(k) ==> insert_by_ratio(bins, order, k).no_duplicates(),
    decreases order.len(),
{
    let r = insert_by_ratio(bins, order, k);
    if order.len() == 0 || ratio(bins[order.last() as int]).ordinal() <= ratio(bins[k as int]).ordinal() {
        assert forall|x: usize| r.contains(x) <==> (order.contains(x) || x == k) by {
            if order.contains(x) {
                let i = choose|i: int| 0 <= i < order.len() && order[i] == x;
                assert(r[i] == x);
            }
            assert(r[order.len() as int] == k);
            if r.contains(x) && x != k {
                let i = choose|i: int| 0 <= i < r.len() && r[i] == x;
                assert(order[i] == x);
            }
        }
    } else {
        let front = order.drop_last();
        let s = insert_by_ratio(bins, front, k);
        lemma_insert_by_ratio(bins, front, k);
        assert forall|x: usize| r.contains(x) <==> (order.contains(x) || x == k) by {
            if order.contains(x) {
                let i = choose|i: int| 0 <= i < order.len() && order[i] == x;
                if i < front.len() {
                    assert(front[i] == x);
                    assert(front.contains(x));
                    assert(s.contains(x));
                    let j = choose|j: int| 0 <= j < s.len() && s[j] == x;
                    assert(r[j] == x);
                } else {
                    assert(r[s.len() as int] == x);
                }
            }
            if x == k {
                assert(s.contains(x));
                let j = choose|j: int| 0 <= j < s.len() && s[j] == x;
                assert(r[j] == x);
            }
            if r.contains(x) {
                let i = choose|i: int| 0 <= i < r.len() && r[i] == x;
                if i < s.len() {
                    assert(s[i] == x);
                    assert(s.contains(x));
                    if x != k {
                        assert(front.contains(x));
                        let j = choose|j: int| 0 <= j < front.len() && front[j] == x;
                        assert(order[j] == x);
                    }
                } else {
                    assert(order[order.len() - 1] == x);
                }
            }
        }
        if order.no_duplicates() && !order.contains(k) {
            assert(order[order.len() - 1] == order.last());
            assert forall|x: usize| front.contains(x) implies order.contains(x) by {
                let j = choose|j: int| 0 <= j < front.len() && front[j] == x;
                assert(order[j] == x);
            }
            assert(!s.contains(order.last())) by {
                if front.contains(order.last()) {
                    let j = choose|j: int| 0 <= j < front.len() && front[j] == order.last();
                    assert(order[j] == order[order.len() - 1]);
                }
            }
            assert(s.no_duplicates());
            assert(r.no_duplicates());
        }
    }
}

proof fn lemma_insert_in_order(bins: Seq<HistogramBin>, order: Seq<usize>, k: usize)
    requires
        in_ratio_order(bins, order),
        forall|i: int| 0 <= i < order.len() ==> (#[trigger] order[i]) < k,
    ensures
        in_ratio_order(bins, insert_by_ratio(bins, order, k)),
    decreases order.len(),
{
    let r = insert_by_ratio(bins, order, k);
    if order.len() == 0 || ratio(bins[order.last() as int]).ordinal() <= ratio(bins[k as int]).ordinal() {
        assert forall|i: int, j: int| 0 <= i < j < r.len() implies stands_before(bins, #[trigger] r[i], #[trigger] r[j]) by {
            if j == order.len() && i < order.len() - 1 {
                assert(stands_before(bins, order[i], order[order.len() - 1]));
            }
        }
    } else {
        let front = order.drop_last();
        let s = insert_by_ratio(bins, front, k);
        lemma_insert_in_order(bins, front, k);
        lemma_insert_by_ratio(bins, front, k);
        assert forall|i: int, j: int| 0 <= i < j < r.len() implies stands_before(bins, #[trigger] r[i], #[trigger] r[j]) by {
            if j == s.len() {
                assert(s.contains(s[i]));
                if s[i] != k {
                    let m = choose|m: int| 0 <= m < front.len() && front[m] == s[i];
                    assert(stands_before(bins, order[m], order[order.len() - 1]));
                }
            }
        }
    }
}

/// The order holds each category with rows once, by rising ratio; among equal ratios, the one
/// with the lower index first.
pub proof fn law_category_order(bins: Seq<HistogramBin>, n: nat)
    requires
        n <= bins.len(),
        n <= usize::MAX,
    ensures
        category_order(bins, n).no_duplicates(),
        category_order(bins, n).len() <= n,
        in_ratio_order(bins, category_order(bins, n)),
        forall|k: usize| #[trigger] category_order(bins, n).contains(k) <==> (k < n && Double::zero_spec().lt_spec(bins[k as int].sum_hessians)),
    decreases n,
{
    if n > 0 {
        let m = (n - 1) as nat;
        law_category_order(bins, m);
        let order = category_order(bins, m);
        assert(!order.contains(m as usize));
        if Double::zero_spec().lt_spec(bins[m as int].sum_hessians) {
            lemma_insert_by_ratio(bins, order, m as usize);
            assert forall|i: int| 0 <= i < order.len() implies (#[trigger] order[i]) < m by {
                assert(order.contains(order[i]));
            }
            lemma_insert_in_order(bins, order, m as usize);
        }
    }
}

impl Histograms {
    /// Find the best categorical split by sorting bins by gradient ratio.
    ///
    /// Instead of checking all subsets, the categories are sorted by their gradient over
    /// hessian, and only splits between neighbours in that order are looked at. Where nothing
    /// is rounded, no subset is missed that would be better: `law_no_subset_is_better`. Missing
    /// values are a category like any other.
    pub fn find_best_categorical_split(
        bins: &[HistogramBin],
        total_gradient: Double,
        total_hessian: Double,
        parent_score: Double,
        parameters: &BoosterParameters,
    ) -> (r: Option<SplitInfo>)
        ensures
            ({
                let all = HistogramBin { sum_gradients: total_gradient, sum_hessians: total_hessian };
                let split = categorical_split(bins@, all, parent_score, *parameters);
                &&& r is Some == split is Some
                &&& r matches Some(s) ==> Some(s@) == split
            }),
    {
        let all = HistogramBin { sum_gradients: total_gradient, sum_hessians: total_hessian };
        let num_bins = bins.len();
        let mut order: Vec<usize> = Vec::new();
        let mut keys: Vec<i64> = Vec::new();
        for k in 0..num_bins
            invariant
                num_bins == bins@.len(),
                order@ == category_order(bins@, k as nat),
                keys@.len() == order@.len(),
                forall|i: int| 0 <= i < order@.len() ==> (#[trigger] order@[i]) < num_bins,
                forall|i: int| 0 <= i < order@.len() ==> #[trigger] keys@[i] == ratio(bins@[order@[i] as int]).ordinal(),
        {
            let bin = bins[k];
            if Double::zero().lt(bin.sum_hessians) {
                let key = bin.sum_gradients.over(bin.sum_hessians).order_key();
                let mut at: usize = order.len();
                proof {
                    assert(order@.take(at as int) =~= order@);
                    assert(order@.skip(at as int) =~= Seq::empty());
                    assert(insert_by_ratio(bins@, order@, k) =~= insert_by_ratio(bins@, order@.take(at as int), k)
                        + order@.skip(at as int));
                }
                while at > 0 && keys[at - 1] > key
                    invariant
                        k < num_bins == bins@.len(),
                        at <= order@.len(),
                        keys@.len() == order@.len(),
                        key == ratio(bins@[k as int]).ordinal(),
                        forall|i: int| 0 <= i < order@.len() ==> #[trigger] keys@[i] == ratio(bins@[order@[i] as int]).ordinal(),
                        insert_by_ratio(bins@, order@, k) == insert_by_ratio(bins@, order@.take(at as int), k)
                            + order@.skip(at as int),
                    decreases at,
                {
                    proof {
                        let now = order@.take(at as int);
                        assert(now.last() == order@[at - 1]);
                        assert(now.drop_last() =~= order@.take(at - 1));
                        assert(order@.skip(at - 1) =~= seq![order@[at - 1]] + order@.skip(at as int));
                        assert(insert_by_ratio(bins@, order@, k) =~= insert_by_ratio(bins@, order@.take(at - 1), k)
                            + order@.skip(at - 1));
                    }
                    at = at - 1;
                }
                proof {
                    let now = order@.take(at as int);
                    if at > 0 {
                        assert(now.last() == order@[at - 1]);
                        assert(keys@[at - 1] <= key);
                    }
                    assert(insert_by_ratio(bins@, now, k) == now.push(k));
                    assert(order@.insert(at as int, k) =~= now.push(k) + order@.skip(at as int));
                }
                let ghost before = order@;
                let ghost keys_before = keys@;
                order.insert(at, k);
                keys.insert(at, key);
                proof {
                    assert forall|i: int| 0 <= i < order@.len() implies (#[trigger] order@[i]) < num_bins
                        && keys@[i] == ratio(bins@[order@[i] as int]).ordinal() by {
                        if i < at {
                            assert(order@[i] == before[i]);
                            assert(keys@[i] == keys_before[i]);
                        } else if i > at {
                            assert(order@[i] == before[i - 1]);
                            assert(keys@[i] == keys_before[i - 1]);
                        }
                    }
                }
            }
        }
        if order.len() < 2 {
            return None;
        }
        let ghost sorted = arranged(bins@, order@);
        let ghost candidates = categorical_candidates(bins@, order@, all);
        let mut left = HistogramBin::default();
        let mut best = no_best();
        for t in 0..order.len() - 1
            invariant
                num_bins == bins@.len(),
                order@.len() >= 2,
                forall|i: int| 0 <= i < order@.len() ==> (#[trigger] order@[i]) < num_bins,
                sorted == arranged(bins@, order@),
                candidates == categorical_candidates(bins@, order@, all),
                left == prefix_sum(sorted, t as nat),
                best == best_of(candidates, t as nat, *parameters),
                best.candidate.index < order@.len() - 1,
        {
            left = left.plus(bins[order[t]]);
            let right = all.minus(left);
            let flag = right.sum_hessians.lt(left.sum_hessians);
            let candidate = Candidate { left, right, flag, index: t };
            assert(candidate == candidates[t as int]);
            evaluate_split(candidate, parameters, &mut best);
        }
        let mut goes_left: Vec<bool> = vec![best.candidate.flag; num_bins];
        proof {
            law_category_order(bins@, num_bins as nat);
        }
        for i in 0..order.len()
            invariant
                num_bins == bins@.len(),
                goes_left@.len() == num_bins,
                order@.no_duplicates(),
                best.candidate.index < order@.len() - 1,
                forall|i: int| 0 <= i < order@.len() ==> (#[trigger] order@[i]) < num_bins,
                forall|j: int| 0 <= j < i ==> goes_left@[(#[trigger] order@[j]) as int] == (j <= best.candidate.index),
                forall|k: int| 0 <= k < num_bins && !order@.take(i as int).contains(k as usize) ==> #[trigger] goes_left@[k] == best.candidate.flag,
        {
            let k = order[i];
            let ghost before = goes_left@;
            goes_left[k] = i <= best.candidate.index;
            proof {
                assert forall|x: int| 0 <= x < num_bins && !order@.take(i as int + 1).contains(x as usize) implies #[trigger] goes_left@[x] == best.candidate.flag by {
                    assert(order@.take(i as int + 1)[i as int] == k);
                    assert(x != k);
                    if order@.take(i as int).contains(x as usize) {
                        let j = choose|j: int| 0 <= j < i && order@.take(i as int)[j] == x as usize;
                        assert(order@.take(i as int + 1)[j] == x as usize);
                    }
                    assert(before[x] == best.candidate.flag);
                }
            }
        }
        proof {
            let rule = categorical_rule(order@, best.candidate, num_bins as nat);
            assert(order@.take(order@.len() as int) =~= order@);
            assert forall|k: int| 0 <= k < num_bins implies goes_left@[k] == rule[k] by {
                if order@.contains(k as usize) {
                    let j = choose|j: int| 0 <= j < order@.len() && order@[j] == k as usize;
                    assert(goes_left@[order@[j] as int] == (j <= best.candidate.index));
                    let kept = order@.take(best.candidate.index + 1);
                    if j <= best.candidate.index {
                        assert(kept[j] == k as usize);
                    } else if kept.contains(k as usize) {
                        let i = choose|i: int| 0 <= i < kept.len() && kept[i] == k as usize;
                        assert(order@[i] == order@[j]);
                    }
                }
            }
            assert(goes_left@ =~= rule);
        }
        finish_split(best, Threshold::Categorical(goes_left), parent_score, parameters)
    }
}

/// The best split of one feature.
pub open spec fn feature_split(
    h: HistogramsView,
    f: int,
    all: HistogramBin,
    parent_score: Double,
    p: BoosterParameters,
) -> Option<Split> {
    let split = if h.is_categorical[f] {
        categorical_split(h.feature(f), all, parent_score, p)
    } else {
        numeric_split(h.feature(f), all, parent_score, p)
    };
    match split {
        Some(s) => Some(Split { feature: f as nat, ..s }),
        None => None,
    }
}

/// The better of two splits: the first unless the second gains more.
pub open spec fn better(a: Option<Split>, b: Option<Split>) -> Option<Split> {
    match (a, b) {
        (None, _) => b,
        (_, None) => a,
        (Some(s), Some(t)) => if t.gain.le_spec(s.gain) { a } else { b },
    }
}

/// The best split of the first `n` features.
pub open spec fn best_split(
    h: HistogramsView,
    n: nat,
    all: HistogramBin,
    parent_score: Double,
    p: BoosterParameters,
) -> Option<Split>
    decreases n,
{
    if n == 0 {
        None
    } else {
        better(
            best_split(h, (n - 1) as nat, all, parent_score, p),
            feature_split(h, n - 1, all, parent_score, p),
        )
    }
}

pub open spec fn same_split(r: Option<SplitInfo>, s: Option<Split>) -> bool {
    &&& r is Some == s is Some
    &&& r matches Some(split) ==> Some(split@) == s
}

impl Histograms {
    /// The best split of feature `f`.
    fn best_split_of(&self, f: usize, total_gradient: Double, total_hessian: Double, parent_score: Double, p: &BoosterParameters) -> (r: Option<SplitInfo>)
        requires
            self@.wf(),
            f < self@.is_categorical.len(),
        ensures
            same_split(r, feature_split(
                self@,
                f as int,
                HistogramBin { sum_gradients: total_gradient, sum_hessians: total_hessian },
                parent_score,
                *p,
            )),
    {
        let ends = self.offsets.len();
        assert(f + 1 < ends);
        assert(self@.offsets[f as int] <= self@.bins.len());
        assert(1 <= self@.offsets[f as int + 1] - self@.offsets[f as int] <= 256);
        assert(self@.offsets[f as int + 1] <= self@.bins.len());
        let bins = vstd::slice::slice_subrange(self.bins.as_slice(), self.offsets[f], self.offsets[f + 1]);
        let split = if self.is_categorical[f] {
            Self::find_best_categorical_split(bins, total_gradient, total_hessian, parent_score, p)
        } else {
            Self::find_best_numeric_split(bins, total_gradient, total_hessian, parent_score, p)
        };
        match split {
            Some(mut s) => {
                s.feature_index = f;
                Some(s)
            },
            None => None,
        }
    }

    /// The best split over all features; of equally good ones that of the first feature.
    /// With a pool, each feature is a task of its own.
    pub fn find_best_split(
        &self,
        total_gradient: Double,
        total_hessian: Double,
        parent_score: Double,
        p: &BoosterParameters,
        pool: Option<&rayon::ThreadPool>,
    ) -> (r: Option<SplitInfo>)
        requires
            self@.wf(),
        ensures
            same_split(r, best_split(
                self@,
                self@.is_categorical.len(),
                HistogramBin { sum_gradients: total_gradient, sum_hessians: total_hessian },
                parent_score,
                *p,
            )),
    {
        let ghost all = HistogramBin { sum_gradients: total_gradient, sum_hessians: total_hessian };
        let num_features = self.is_categorical.len();
        let mut best: Option<SplitInfo> = None;
        match pool {
            Some(pool) => {
                let f = |f: usize| -> (r: Option<SplitInfo>)
                    requires
                        self@.wf(),
                        f < self@.is_categorical.len(),
                    ensures
                        same_split(r, feature_split(self@, f as int, all, parent_score, *p)),
                {
                    self.best_split_of(f, total_gradient, total_hessian, parent_score, p)
                };
                let mut splits = parallel_map(pool, num_features, f);
                for f in 0..num_features
                    invariant
                        splits@.len() == num_features,
                        forall|g: int| f <= g < num_features ==> same_split(
                            #[trigger] splits@[g], feature_split(self@, g, all, parent_score, *p)),
                        same_split(best, best_split(self@, f as nat, all, parent_score, *p)),
                {
                    let split = splits[f].take();
                    best = reduce(best, split);
                }
            },
            None => {
                for f in 0..num_features
                    invariant
                        self@.wf(),
                        num_features == self@.is_categorical.len(),
                        all == (HistogramBin { sum_gradients: total_gradient, sum_hessians: total_hessian }),
                        same_split(best, best_split(self@, f as nat, all, parent_score, *p)),
                {
                    let split = self.best_split_of(f, total_gradient, total_hessian, parent_score, p);
                    best = reduce(best, split);
                }
            },
        }
        best
    }
}

/// Keeps the better of two splits.
fn reduce(a: Option<SplitInfo>, b: Option<SplitInfo>) -> (r: Option<SplitInfo>)
    ensures
        forall|s: Option<Split>, t: Option<Split>|
            same_split(a, s) && same_split(b, t) ==> same_split(r, #[trigger] better(s, t)),
{
    match (a, b) {
        (None, b) => b,
        (a, None) => a,
        (Some(s), Some(t)) => if t.gain.le(s.gain) { Some(s) } else { Some(t) },
    }
}

/// No candidate scores higher than the best one, and the best one is the first of its
/// score; or none of them scores above minus infinity.
pub proof fn law_best_is_first_maximum(candidates: Seq<Candidate>, n: nat, p: BoosterParameters)
    requires
        n <= candidates.len(),
    ensures
        forall|i: int| 0 <= i < n ==> !best_of(candidates, n, p).score.lt_spec((#[trigger] candidates[i]).score(p)),
        best_of(candidates, n, p) == Best::none() || exists|i: int|
            #![trigger candidates[i]]
            0 <= i < n && best_of(candidates, n, p).candidate == candidates[i] && best_of(candidates, n, p).score
                == candidates[i].score(p) && forall|j: int|
                0 <= j < i ==> !candidates[i].score(p).le_spec((#[trigger] candidates[j]).score(p)),
        !best_of(candidates, n, p).score.nan(),
    decreases n,
{
    if n > 0 {
        let m = (n - 1) as nat;
        law_best_is_first_maximum(candidates, m, p);
        let before = best_of(candidates, m, p);
        let now = best_of(candidates, n, p);
        let c = candidates[m as int];
        if before.score.lt_spec(c.score(p)) {
            assert(now.candidate == candidates[m as int]);
            assert forall|j: int| 0 <= j < m implies !c.score(p).le_spec((#[trigger] candidates[j]).score(p)) by {
                assert(!before.score.lt_spec(candidates[j].score(p)));
            }
        }
    }
}

/// Whatever split is best leaves at least the least hessian on both sides, or no
/// candidate scored above minus infinity.
pub proof fn law_best_keeps_leaf_weight(candidates: Seq<Candidate>, n: nat, p: BoosterParameters)
    requires
        n <= candidates.len(),
    ensures
        ({
            let best = best_of(candidates, n, p);
            best != Best::none() ==> {
                &&& p.min_sum_hessian_in_leaf.le_spec(best.candidate.left.sum_hessians)
                &&& p.min_sum_hessian_in_leaf.le_spec(best.candidate.right.sum_hessians)
            }
        }),
    decreases n,
{
    if n > 0 {
        law_best_keeps_leaf_weight(candidates, (n - 1) as nat, p);
        law_best_is_first_maximum(candidates, (n - 1) as nat, p);
        let before = best_of(candidates, (n - 1) as nat, p);
        assert(before.score.nan() || Double::neg_infinity_spec().ordinal() <= before.score.ordinal());
    }
}

/// A split that is found gains more than the least gain, as far as its gain is a number.
pub proof fn law_split_gains_enough(h: HistogramsView, n: nat, all: HistogramBin, parent_score: Double, p: BoosterParameters)
    requires
        n <= h.is_categorical.len(),
    ensures
        best_split(h, n, all, parent_score, p) matches Some(s) ==> {
            &&& !s.gain.le_spec(p.min_gain_to_split)
            &&& s.feature < n
            &&& Some(s) == feature_split(h, s.feature as int, all, parent_score, p)
        },
    decreases n,
{
    if n > 0 {
        law_split_gains_enough(h, (n - 1) as nat, all, parent_score, p);
    }
}

/// Where all gains are numbers, no feature offers a better split than the one chosen, and
/// earlier features offer none as good.
pub proof fn law_best_split_is_best(h: HistogramsView, n: nat, all: HistogramBin, parent_score: Double, p: BoosterParameters)
    requires
        n <= h.is_categorical.len(),
        forall|f: int| 0 <= f < n ==> (#[trigger] feature_split(h, f, all, parent_score, p) matches Some(s) ==> !s.gain.nan()),
    ensures
        forall|f: int| 0 <= f < n ==> (#[trigger] feature_split(h, f, all, parent_score, p) matches Some(s) ==> {
            &&& best_split(h, n, all, parent_score, p) is Some
            &&& s.gain.le_spec(best_split(h, n, all, parent_score, p)->0.gain)
            &&& f < best_split(h, n, all, parent_score, p)->0.feature
                ==> s.gain.lt_spec(best_split(h, n, all, parent_score, p)->0.gain)
        }),
    decreases n,
{
    if n > 0 {
        let m = (n - 1) as nat;
        law_best_split_is_best(h, m, all, parent_score, p);
        law_split_gains_enough(h, m, all, parent_score, p);
        law_split_gains_enough(h, n, all, parent_score, p);
        let before = best_split(h, m, all, parent_score, p);
        let last = feature_split(h, m as int, all, parent_score, p);
        if let Some(b) = before {
            assert(feature_split(h, b.feature as int, all, parent_score, p) == Some(b));
        }
        assert forall|f: int| 0 <= f < n implies (#[trigger] feature_split(h, f, all, parent_score, p) matches Some(s) ==> {
            &&& best_split(h, n, all, parent_score, p) is Some
            &&& s.gain.le_spec(best_split(h, n, all, parent_score, p)->0.gain)
            &&& f < best_split(h, n, all, parent_score, p)->0.feature
                ==> s.gain.lt_spec(best_split(h, n, all, parent_score, p)->0.gain)
        }) by {
            if f < m {
            } else {
                assert(f == m);
            }
        }
    }
}

proof fn lemma_best_is_candidate(candidates: Seq<Candidate>, n: nat, p: BoosterParameters)
    requires
        n <= candidates.len(),
    ensures
        ({
            let best = best_of(candidates, n, p);
            best == Best::none() || exists|i: int| 0 <= i < n && #[trigger] candidates[i] == best.candidate
        }),
    decreases n,
{
    if n > 0 {
        lemma_best_is_candidate(candidates, (n - 1) as nat, p);
        let before = best_of(candidates, (n - 1) as nat, p);
        if before.score.lt_spec(candidates[n - 1].score(p)) {
            assert(candidates[n - 1] == best_of(candidates, n, p).candidate);
        } else if before != Best::none() {
            let i = choose|i: int| 0 <= i < n - 1 && #[trigger] candidates[i] == before.candidate;
            assert(candidates[i] == best_of(candidates, n, p).candidate);
        }
    }
}

proof fn lemma_numeric_split_suits(bins: Seq<HistogramBin>, all: HistogramBin, parent_score: Double, p: BoosterParameters)
    requires
        bins.len() <= 256,
    ensures
        numeric_split(bins, all, parent_score, p) matches Some(s) ==> s.rule.suits(bins.len(), false),
{
    if bins.len() >= 2 && !(none_missing(bins) && bins.len() < 3) {
        let candidates = numeric_candidates(bins, all);
        lemma_best_is_candidate(candidates, candidates.len(), p);
        let best = best_of(candidates, candidates.len(), p);
        if best != Best::none() {
            let i = choose|i: int| 0 <= i < candidates.len() && #[trigger] candidates[i] == best.candidate;
            assert(candidates[i].index + 1 < bins.len());
        }
    }
}

/// A split is of the kind of its feature: a numeric one is made at a bin of numbers, a
/// categorical one gives a side to each bin.
pub proof fn law_split_suits_its_feature(h: HistogramsView, n: nat, all: HistogramBin, parent_score: Double, p: BoosterParameters)
    requires
        h.wf(),
        n <= h.is_categorical.len(),
    ensures
        best_split(h, n, all, parent_score, p) matches Some(s) ==> {
            &&& s.feature < n
            &&& s.rule.suits(h.feature(s.feature as int).len(), h.is_categorical[s.feature as int])
        },
{
    law_split_gains_enough(h, n, all, parent_score, p);
    if let Some(s) = best_split(h, n, all, parent_score, p) {
        let f = s.feature as int;
        assert(1 <= h.offsets[f + 1] - h.offsets[f] <= 256);
        assert(h.offsets[f] <= h.bins.len());
        assert(h.offsets[f + 1] <= h.bins.len());
        lemma_numeric_split_suits(h.feature(f), all, parent_score, p);
    }
}

pub(crate) proof fn lemma_no_candidate_no_split(rule: Rule, parent_score: Double, p: BoosterParameters)
    requires
        !p.min_gain_to_split.nan(),
        !parent_score.nan(),
        parent_score != Double::neg_infinity_spec(),
    ensures
        split_from(Best::none(), rule, parent_score, p) is None,
{
    reveal(Double::plus_spec);
}

/// A split leaves at least the least hessian on both sides, as long as the score of the leaf
/// and the least gain are numbers, and the score is not minus infinity.
pub proof fn law_split_keeps_leaf_weight(h: HistogramsView, n: nat, all: HistogramBin, parent_score: Double, p: BoosterParameters)
    requires
        n <= h.is_categorical.len(),
        !p.min_gain_to_split.nan(),
        !parent_score.nan(),
        parent_score != Double::neg_infinity_spec(),
    ensures
        best_split(h, n, all, parent_score, p) matches Some(s) ==> {
            &&& p.min_sum_hessian_in_leaf.le_spec(s.left.sum_hessians)
            &&& p.min_sum_hessian_in_leaf.le_spec(s.right.sum_hessians)
        },
{
    law_split_gains_enough(h, n, all, parent_score, p);
    if let Some(s) = best_split(h, n, all, parent_score, p) {
        let f = s.feature as int;
        let bins = h.feature(f);
        if h.is_categorical[f] {
            let order = category_order(bins, bins.len());
            let candidates = categorical_candidates(bins, order, all);
            let best = best_of(candidates, candidates.len(), p);
            law_best_keeps_leaf_weight(candidates, candidates.len(), p);
            lemma_no_candidate_no_split(
                Rule::Categorical(categorical_rule(order, best.candidate, bins.len())),
                parent_score,
                p,
            );
        } else {
            let candidates = numeric_candidates(bins, all);
            let best = best_of(candidates, candidates.len(), p);
            law_best_keeps_leaf_weight(candidates, candidates.len(), p);
            lemma_no_candidate_no_split(
                Rule::Numeric { bin: best.candidate.index as u8, missing_goes_left: best.candidate.flag },
                parent_score,
                p,
            );
        }
    }
}

proof fn lemma_best_of_threads(candidates: Seq<Candidate>, n: nat, p: BoosterParameters, q: BoosterParameters)
    requires
        p.same_but_threads(q),
    ensures
        best_of(candidates, n, p) == best_of(candidates, n, q),
    decreases n,
{
    if n > 0 {
        lemma_best_of_threads(candidates, (n - 1) as nat, p, q);
    }
}

/// The best split of a leaf does not depend on the number of threads.
pub proof fn law_threads_change_no_split(
    h: HistogramsView,
    n: nat,
    all: HistogramBin,
    parent_score: Double,
    p: BoosterParameters,
    q: BoosterParameters,
)
    requires
        p.same_but_threads(q),
    ensures
        best_split(h, n, all, parent_score, p) == best_split(h, n, all, parent_score, q),
    decreases n,
{
    if n > 0 {
        law_threads_change_no_split(h, (n - 1) as nat, all, parent_score, p, q);
        let bins = h.feature(n - 1);
        let numeric = numeric_candidates(bins, all);
        lemma_best_of_threads(numeric, numeric.len(), p, q);
        let categorical = categorical_candidates(bins, category_order(bins, bins.len()), all);
        lemma_best_of_threads(categorical, categorical.len(), p, q);
    }
}

/// Whatever the numbers, a score is the square of what the gradient's size exceeds `l1` by, if it
/// does, over the hessian raised by `l2`.
pub proof fn law_scores_follow_the_formula(g: Double, h: Double, l1: Double, l2: Double)
    ensures
        ({
            let rest = g.abs_spec().plus_spec(l1.neg_spec());
            let zero = Double::zero_spec();
            let d = if rest.nan() || rest.lt_spec(zero) { zero } else { rest };
            score_of(g, h, l1, l2) == d.times_spec(d).over_spec(h.plus_spec(l2))
        }),
{
}

/// Categories are ordered by their gradient over their hessian, whatever the regularisation.
pub proof fn law_ratios_are_gradient_over_hessian(bin: HistogramBin)
    ensures
        ratio(bin) == bin.sum_gradients.over_spec(bin.sum_hessians),
{
}

} // verus!
