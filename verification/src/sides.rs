//! What a split does to the bins of a feature, where sums are exact: each side holds the sums of
//! the bins that its rule sends there, and no other rule of its kind does better.

use vstd::arithmetic::power2::pow2;
use vstd::prelude::*;

use crate::arithmetic::{
    law_exact_product, law_exact_sum, law_operands_commute, lemma_plus_monotone, lemma_plus_number, lemma_plus_ordinal,
    lemma_size_positive,
};
use crate::double::Double;
use crate::exact::{law_small_gradient_gives_zero, lemma_shrunk_to_zero};
use crate::fixed::{
    exactly, few, greatest_exponent, law_few_units_are_exact, law_units_add_up, law_units_are_ordered,
    law_units_subtract, lemma_not_negative_sum, lemma_sum_below, lemma_sum_listed, lemma_sum_plus, lemma_sum_same,
    lemma_sum_single, lemma_sum_size, lemma_sum_zero, size_of, sum_over,
};
use crate::histogram::HistogramBin;
use crate::parameters::BoosterParameters;
use crate::split::{
    after, arranged, best_of, categorical_candidates, categorical_rule, categorical_split, category_order,
    law_best_is_first_maximum, law_best_keeps_leaf_weight, law_category_order, lemma_no_candidate_no_split,
    none_missing, numeric_candidates, numeric_split, prefix_sum, score_of, stands_before, Candidate, Rule, Split,
};

verus! {

/// The units in which gradients and hessians are counted, as powers of two.
pub struct Units {
    pub gradient: nat,
    pub hessian: nat,
}

impl Units {
    pub open spec fn wf(self) -> bool {
        self.gradient <= greatest_exponent() && self.hessian <= greatest_exponent()
    }
}

/// A bin that holds so many units of gradient and hessian.
pub open spec fn exact_bin(g: int, h: int, u: Units) -> HistogramBin {
    HistogramBin { sum_gradients: exactly(g, u.gradient), sum_hessians: exactly(h, u.hessian) }
}

/// Bins that hold so many units.
pub open spec fn exact_bins(g: Seq<int>, h: Seq<int>, u: Units) -> Seq<HistogramBin> {
    Seq::new(g.len(), |b: int| exact_bin(g[b], h[b], u))
}

/// No sum of some of the numbers is more than a significand counts.
pub open spec fn countable(x: Seq<int>) -> bool {
    sum_over(x.len(), |b: int| size_of(x[b])) <= pow2(53)
}

/// All numbers together.
pub open spec fn whole(x: Seq<int>) -> int {
    sum_over(x.len(), |b: int| x[b])
}

/// Bins whose units can be counted: hessians are not negative, and a bin without hessian has no
/// gradient. The last bin is that of missing values.
pub open spec fn counted_bins(g: Seq<int>, h: Seq<int>, u: Units) -> bool {
    &&& u.wf()
    &&& 1 <= g.len() <= 256
    &&& g.len() == h.len()
    &&& countable(g)
    &&& countable(h)
    &&& forall|b: int| 0 <= b < h.len() ==> #[trigger] h[b] >= 0
    &&& forall|b: int| 0 <= b < h.len() && #[trigger] h[b] == 0 ==> g[b] == 0
}

/// What the bins hold that a rule sends left, or right.
pub open spec fn sent(x: Seq<int>, rule: Rule, left: bool) -> int {
    sum_over(x.len(), |b: int| if rule.goes_left(b as u8, (x.len() - 1) as u8) == left { x[b] } else { 0 })
}

/// The side of a rule.
pub open spec fn side(g: Seq<int>, h: Seq<int>, u: Units, rule: Rule, left: bool) -> HistogramBin {
    exact_bin(sent(g, rule, left), sent(h, rule, left), u)
}

/// The score of a leaf.
pub open spec fn bin_score(b: HistogramBin, p: BoosterParameters) -> Double {
    score_of(b.sum_gradients, b.sum_hessians, p.lambda_l1, p.lambda_l2)
}

/// The score of both sides of a rule.
pub open spec fn rule_score(g: Seq<int>, h: Seq<int>, u: Units, rule: Rule, p: BoosterParameters) -> Double {
    bin_score(side(g, h, u, rule, true), p).plus_spec(bin_score(side(g, h, u, rule, false), p))
}

/// Both sides of a rule hold rows, and enough of them.
pub open spec fn admissible(h: Seq<int>, u: Units, rule: Rule, p: BoosterParameters) -> bool {
    &&& sent(h, rule, true) > 0
    &&& sent(h, rule, false) > 0
    &&& p.min_sum_hessian_in_leaf.le_spec(exactly(sent(h, rule, true), u.hessian))
    &&& p.min_sum_hessian_in_leaf.le_spec(exactly(sent(h, rule, false), u.hessian))
}

/// A numeric rule sends missing values where it says, and other bins by their order.
pub proof fn law_missing_values_go_where_the_rule_says(t: u8, missing_left: bool, bin: u8, sentinel: u8)
    ensures
        (Rule::Numeric { bin: t, missing_goes_left: missing_left }).goes_left(sentinel, sentinel) <==> missing_left,
        bin != sentinel ==> ((Rule::Numeric { bin: t, missing_goes_left: missing_left }).goes_left(bin, sentinel) <==> bin
            <= t),
{
}

/// A categorical rule sends each bin, that of missing values too, where it says.
pub proof fn law_categories_go_where_the_rule_says(cats: Seq<bool>, bin: u8, sentinel: u8)
    requires
        bin < cats.len(),
    ensures
        Rule::Categorical(cats).goes_left(bin, sentinel) <==> cats[bin as int],
{
}

pub(crate) proof fn lemma_part_is_few(x: Seq<int>, n: nat, f: spec_fn(int) -> int)
    requires
        countable(x),
        n <= x.len(),
        forall|b: int| 0 <= b < n ==> size_of(#[trigger] f(b)) <= size_of(x[b]),
    ensures
        few(sum_over(n, f)),
    decreases x.len() - n,
{
    let sizes = |b: int| size_of(x[b]);
    if n < x.len() {
        let longer = |b: int| if b < n { f(b) } else { 0 };
        assert forall|b: int| 0 <= b < x.len() implies size_of(#[trigger] longer(b)) <= sizes(b) by {
            if b < n {
                assert(size_of(f(b)) <= size_of(x[b]));
            }
        }
        lemma_sum_size(x.len(), longer, sizes);
        lemma_sum_cut(x.len(), n, f);
        assert(sum_over(x.len(), longer) == sum_over(n, f));
    } else {
        assert forall|b: int| 0 <= b < n implies size_of(#[trigger] f(b)) <= sizes(b) by {}
        lemma_sum_size(n, f, sizes);
    }
}

/// What comes behind a place may be left out.
pub(crate) proof fn lemma_sum_cut(m: nat, n: nat, f: spec_fn(int) -> int)
    requires
        n <= m,
    ensures
        sum_over(m, |b: int| if b < n { f(b) } else { 0 }) == sum_over(n, f),
    decreases m,
{
    let g = |b: int| if b < n { f(b) } else { 0 };
    if m > n {
        lemma_sum_cut((m - 1) as nat, n, f);
        assert(g(m - 1) == 0);
    } else {
        lemma_sum_same(n, g, f);
    }
}

proof fn lemma_sent_few(x: Seq<int>, rule: Rule, left: bool)
    requires
        countable(x),
    ensures
        few(sent(x, rule, left)),
{
    lemma_part_is_few(
        x,
        x.len(),
        |b: int| if rule.goes_left(b as u8, (x.len() - 1) as u8) == left { x[b] } else { 0 },
    );
}

proof fn lemma_whole_few(x: Seq<int>)
    requires
        countable(x),
    ensures
        few(whole(x)),
{
    lemma_part_is_few(x, x.len(), |b: int| x[b]);
}

/// Both sides together hold everything.
pub proof fn law_sides_hold_everything(x: Seq<int>, rule: Rule)
    ensures
        sent(x, rule, true) + sent(x, rule, false) == whole(x),
{
    let n = x.len();
    let l = |b: int| if rule.goes_left(b as u8, (n - 1) as u8) == true { x[b] } else { 0 };
    let r = |b: int| if rule.goes_left(b as u8, (n - 1) as u8) == false { x[b] } else { 0 };
    let all = |b: int| x[b];
    assert forall|b: int| 0 <= b < n implies #[trigger] all(b) == l(b) + r(b) by {}
    lemma_sum_plus(n, l, r, all);
}

proof fn lemma_sent_not_negative(h: Seq<int>, rule: Rule, left: bool)
    requires
        forall|b: int| 0 <= b < h.len() ==> #[trigger] h[b] >= 0,
    ensures
        sent(h, rule, left) >= 0,
{
    let n = h.len();
    let f = |b: int| if rule.goes_left(b as u8, (n - 1) as u8) == left { h[b] } else { 0 };
    let z = |b: int| 0int;
    assert forall|b: int| 0 <= b < n implies #[trigger] z(b) <= f(b) by {}
    lemma_sum_below(n, z, f);
    lemma_sum_zero(n, z);
}

/// The sums of a scan.
proof fn lemma_exact_prefix(g: Seq<int>, h: Seq<int>, u: Units, n: nat)
    requires
        u.wf(),
        g.len() == h.len(),
        countable(g),
        countable(h),
        n <= g.len(),
    ensures
        prefix_sum(exact_bins(g, h, u), n) == exact_bin(sum_over(n, |b: int| g[b]), sum_over(n, |b: int| h[b]), u),
    decreases n,
{
    if n == 0 {
        lemma_few_zero();
        law_units_are_ordered(0, 0, u.gradient);
        law_units_are_ordered(0, 0, u.hessian);
    } else {
        let m = (n - 1) as nat;
        lemma_exact_prefix(g, h, u, m);
        lemma_part_is_few(g, n, |b: int| g[b]);
        lemma_part_is_few(h, n, |b: int| h[b]);
        lemma_part_is_few(g, m, |b: int| g[b]);
        lemma_part_is_few(h, m, |b: int| h[b]);
        lemma_one_is_few(g, m as int);
        lemma_one_is_few(h, m as int);
        law_few_units_are_exact(g[m as int], u.gradient);
        law_few_units_are_exact(h[m as int], u.hessian);
        law_units_add_up(sum_over(m, |b: int| g[b]), g[m as int], u.gradient, exactly(g[m as int], u.gradient));
        law_units_add_up(sum_over(m, |b: int| h[b]), h[m as int], u.hessian, exactly(h[m as int], u.hessian));
    }
}

pub(crate) proof fn lemma_few_zero()
    ensures
        few(0),
{
    vstd::arithmetic::power2::lemma_pow2_pos(53);
}

pub(crate) proof fn lemma_one_is_few(x: Seq<int>, k: int)
    requires
        countable(x),
        0 <= k < x.len(),
    ensures
        few(x[k]),
{
    let f = |b: int| if b == k { x[b] } else { 0 };
    lemma_part_is_few(x, x.len(), f);
    lemma_sum_single(x.len(), f, k);
}

pub(crate) proof fn lemma_bins_plus(a: int, b: int, c: int, d: int, u: Units)
    requires
        u.wf(),
        few(a),
        few(b),
        few(c),
        few(d),
        few(a + c),
        few(b + d),
    ensures
        exact_bin(a, b, u).plus_spec(exact_bin(c, d, u)) == exact_bin(a + c, b + d, u),
{
    law_few_units_are_exact(c, u.gradient);
    law_few_units_are_exact(d, u.hessian);
    law_units_add_up(a, c, u.gradient, exactly(c, u.gradient));
    law_units_add_up(b, d, u.hessian, exactly(d, u.hessian));
}

pub(crate) proof fn lemma_bins_minus(a: int, b: int, c: int, d: int, u: Units)
    requires
        u.wf(),
        few(a),
        few(b),
        few(c),
        few(d),
        few(a - c),
        few(b - d),
    ensures
        exact_bin(a, b, u).minus_spec(exact_bin(c, d, u)) == exact_bin(a - c, b - d, u),
{
    law_units_subtract(a, c, u.gradient);
    law_units_subtract(b, d, u.hessian);
}

/// What a numeric rule sends left: the bins up to its own, and missing values if it says so.
proof fn lemma_numeric_sent(x: Seq<int>, t: int, m: bool)
    requires
        0 <= t < x.len() - 1,
        x.len() <= 256,
    ensures
        sent(x, Rule::Numeric { bin: t as u8, missing_goes_left: m }, true) == sum_over((t + 1) as nat, |b: int| x[b]) + if m {
            x[x.len() - 1]
        } else {
            0
        },
{
    let n = x.len();
    let rule = Rule::Numeric { bin: t as u8, missing_goes_left: m };
    let f = |b: int| if rule.goes_left(b as u8, (n - 1) as u8) == true { x[b] } else { 0 };
    let x_at = |b: int| x[b];
    let low = |b: int| if b < t + 1 { x_at(b) } else { 0 };
    let own = |b: int| if b == n - 1 && m { x[b] } else { 0 };
    assert forall|b: int| 0 <= b < n implies #[trigger] f(b) == low(b) + own(b) by {}
    lemma_sum_plus(n, low, own, f);
    lemma_sum_cut(n, (t + 1) as nat, x_at);
    lemma_sum_same(n, low, |b: int| if b < (t + 1) as nat { x_at(b) } else { 0 });
    lemma_sum_single(n, own, n - 1);
}

/// The rule that a candidate stands for.
pub open spec fn numeric_rule(c: Candidate) -> Rule {
    Rule::Numeric { bin: c.index as u8, missing_goes_left: c.flag }
}

/// The sides of a candidate are those of its rule.
proof fn lemma_numeric_candidate(g: Seq<int>, h: Seq<int>, u: Units, i: int)
    requires
        counted_bins(g, h, u),
        ({
            let bins = exact_bins(g, h, u);
            0 <= i < numeric_candidates(bins, exact_bin(whole(g), whole(h), u)).len() && bins.len() >= 2 && (none_missing(
                bins,
            ) ==> bins.len() >= 3)
        }),
    ensures
        ({
            let bins = exact_bins(g, h, u);
            let c = numeric_candidates(bins, exact_bin(whole(g), whole(h), u))[i];
            &&& c.index < bins.len() - 1
            &&& c.left == side(g, h, u, numeric_rule(c), true)
            &&& c.right == side(g, h, u, numeric_rule(c), false)
            &&& h.last() == 0 ==> c.flag == (sent(h, numeric_rule(c), true) > sent(h, numeric_rule(c), false))
            &&& h.last() != 0 ==> c.index == i / 2 && c.flag == (i % 2 == 1)
            &&& h.last() == 0 ==> c.index == i
            &&& none_missing(bins) == (h.last() == 0)
        }),
{
    let bins = exact_bins(g, h, u);
    let all = exact_bin(whole(g), whole(h), u);
    let c = numeric_candidates(bins, all)[i];
    let n = g.len() as int;
    lemma_one_is_few(h, n - 1);
    lemma_one_is_few(g, n - 1);
    lemma_few_zero();
    law_units_are_ordered(h[n - 1], 0, u.hessian);
    assert(bins.last() == exact_bin(g[n - 1], h[n - 1], u));
    assert(none_missing(bins) == (h.last() == 0));
    let t = c.index as int;
    let rule = numeric_rule(c);
    let plain = Rule::Numeric { bin: t as u8, missing_goes_left: false };
    lemma_exact_prefix(g, h, u, (t + 1) as nat);
    lemma_numeric_sent(g, t, c.flag);
    lemma_numeric_sent(h, t, c.flag);
    lemma_numeric_sent(g, t, false);
    lemma_numeric_sent(h, t, false);
    law_sides_hold_everything(g, rule);
    law_sides_hold_everything(h, rule);
    law_sides_hold_everything(g, plain);
    law_sides_hold_everything(h, plain);
    lemma_whole_few(g);
    lemma_whole_few(h);
    lemma_sent_few(g, rule, true);
    lemma_sent_few(h, rule, true);
    lemma_sent_few(g, rule, false);
    lemma_sent_few(h, rule, false);
    lemma_sent_few(g, plain, true);
    lemma_sent_few(h, plain, true);
    lemma_sent_few(g, plain, false);
    lemma_sent_few(h, plain, false);
    lemma_bins_minus(whole(g), whole(h), sent(g, plain, true), sent(h, plain, true), u);
    assert(after(bins, all, t) == (side(g, h, u, plain, true), side(g, h, u, plain, false)));
    if h.last() == 0 {
        law_units_are_ordered(sent(h, plain, false), sent(h, plain, true), u.hessian);
    } else if c.flag {
        lemma_bins_plus(sent(g, plain, true), sent(h, plain, true), g[n - 1], h[n - 1], u);
        lemma_bins_minus(sent(g, plain, false), sent(h, plain, false), g[n - 1], h[n - 1], u);
    }
}

/// What holds of a split that is found: its sides hold the sums of the bins that its rule sends
/// there, both are heavy enough, and its gain, which is more than the least one, is what the
/// scores of the sides are above that of the leaf.
pub open spec fn true_split(
    s: Split,
    g: Seq<int>,
    h: Seq<int>,
    u: Units,
    parent_score: Double,
    p: BoosterParameters,
) -> bool {
    &&& s.left == side(g, h, u, s.rule, true)
    &&& s.right == side(g, h, u, s.rule, false)
    &&& s.gain == rule_score(g, h, u, s.rule, p).minus_spec(parent_score)
    &&& !rule_score(g, h, u, s.rule, p).nan()
    &&& !s.gain.le_spec(p.min_gain_to_split)
    &&& p.min_sum_hessian_in_leaf.le_spec(s.left.sum_hessians)
    &&& p.min_sum_hessian_in_leaf.le_spec(s.right.sum_hessians)
}

/// The split of a numeric feature parts the bins as its rule does. Where no row misses the
/// feature, missing values would go to the heavier side.
pub proof fn law_numeric_split_parts_the_bins(
    g: Seq<int>,
    h: Seq<int>,
    u: Units,
    parent_score: Double,
    p: BoosterParameters,
)
    requires
        counted_bins(g, h, u),
        parent_score.finite(),
        !p.min_gain_to_split.nan(),
    ensures
        numeric_split(exact_bins(g, h, u), exact_bin(whole(g), whole(h), u), parent_score, p) matches Some(s) ==> {
            &&& true_split(s, g, h, u, parent_score, p)
            &&& s.rule matches Rule::Numeric { bin, missing_goes_left } && bin < g.len() - 1 && (h.last() == 0
                ==> missing_goes_left == (sent(h, s.rule, true) > sent(h, s.rule, false)))
        },
{
    let bins = exact_bins(g, h, u);
    let all = exact_bin(whole(g), whole(h), u);
    if numeric_split(bins, all, parent_score, p) is Some {
        let candidates = numeric_candidates(bins, all);
        let n = candidates.len();
        let best = best_of(candidates, n, p);
        law_best_is_first_maximum(candidates, n, p);
        law_best_keeps_leaf_weight(candidates, n, p);
        lemma_no_candidate_no_split(numeric_rule(best.candidate), parent_score, p);
        let i = choose|i: int|
            #![trigger candidates[i]]
            0 <= i < n && best.candidate == candidates[i] && best.score == candidates[i].score(p);
        assert(0 <= i < n);
        lemma_numeric_candidate(g, h, u, i);
    }
}

/// A score that is added to zero, less itself.
proof fn lemma_no_gain(score: Double, swap: bool)
    requires
        score.finite(),
    ensures
        ({
            let sum = if swap {
                score.plus_spec(Double::zero_spec())
            } else {
                Double::zero_spec().plus_spec(score)
            };
            sum.minus_spec(score).le_spec(Double::zero_spec())
        }),
{
    let zero = Double::zero_spec();
    lemma_size_positive(zero);
    law_operands_commute(zero, score);
    let sum = zero.plus_spec(score);
    lemma_size_positive(score);
    if score.value() != 0 {
        law_exact_sum(zero, score, score);
    } else {
        reveal(Double::plus_spec);
    }
    assert(sum.finite() && sum.value() == score.value());
    assert(score.neg_spec().value() == -score.value());
    lemma_plus_ordinal(sum, score.neg_spec());
}

/// Where no loss is asked for, both sides of a split hold rows.
pub proof fn law_both_sides_hold_rows(
    g: Seq<int>,
    h: Seq<int>,
    u: Units,
    p: BoosterParameters,
    s: Split,
)
    requires
        counted_bins(g, h, u),
        p.lambda_l1.finite() && 0 <= p.lambda_l1.value(),
        p.lambda_l2.finite() && 0 <= p.lambda_l2.value(),
        Double::zero_spec().le_spec(p.min_gain_to_split),
        bin_score(exact_bin(whole(g), whole(h), u), p).finite(),
        true_split(s, g, h, u, bin_score(exact_bin(whole(g), whole(h), u), p), p),
    ensures
        sent(h, s.rule, true) > 0,
        sent(h, s.rule, false) > 0,
{
    let parent = bin_score(exact_bin(whole(g), whole(h), u), p);
    law_sides_hold_everything(g, s.rule);
    law_sides_hold_everything(h, s.rule);
    lemma_sent_not_negative(h, s.rule, true);
    lemma_sent_not_negative(h, s.rule, false);
    if sent(h, s.rule, true) == 0 {
        lemma_empty_side(g, h, u, p, s.rule, true);
        lemma_no_gain(parent, false);
    }
    if sent(h, s.rule, false) == 0 {
        lemma_empty_side(g, h, u, p, s.rule, false);
        lemma_no_gain(parent, true);
    }
}

/// A side without rows has no gradient, and its score is zero or no number.
proof fn lemma_empty_side(g: Seq<int>, h: Seq<int>, u: Units, p: BoosterParameters, rule: Rule, left: bool)
    requires
        counted_bins(g, h, u),
        p.lambda_l1.finite() && 0 <= p.lambda_l1.value(),
        p.lambda_l2.finite() && 0 <= p.lambda_l2.value(),
        sent(h, rule, left) == 0,
        !rule_score(g, h, u, rule, p).nan(),
    ensures
        sent(g, rule, left) == 0,
        bin_score(side(g, h, u, rule, left), p) == Double::zero_spec(),
{
    let n = g.len();
    let hs = |b: int| if rule.goes_left(b as u8, (n - 1) as u8) == left { h[b] } else { 0 };
    let gs = |b: int| if rule.goes_left(b as u8, (n - 1) as u8) == left { g[b] } else { 0 };
    assert forall|b: int| 0 <= b < n implies #[trigger] hs(b) >= 0 by {}
    lemma_not_negative_sum(n, hs);
    assert forall|b: int| 0 <= b < n implies #[trigger] gs(b) == 0 by {
        assert(hs(b) == 0);
    }
    lemma_sum_zero(n, gs);
    lemma_few_zero();
    law_units_are_ordered(0, 0, u.gradient);
    law_units_are_ordered(0, 0, u.hessian);
    let zero = Double::zero_spec();
    let l1 = p.lambda_l1;
    let l2 = p.lambda_l2;
    lemma_size_positive(zero);
    lemma_size_positive(l1);
    lemma_size_positive(l2);
    let raised = zero.plus_spec(l2);
    if l2.value() > 0 {
        law_exact_sum(zero, l2, l2);
        law_small_gradient_gives_zero(zero, zero, l1, l2);
    } else {
        // Zero over zero.
        assert(raised.is_zero()) by {
            reveal(Double::plus_spec);
        }
        let d = zero.abs_spec().minus_spec(l1).max_spec(zero);
        lemma_shrunk_to_zero(zero, l1);
        let q = d.times_spec(d);
        assert(q.is_zero()) by {
            lemma_size_positive(d);
            assert(0 * 0 == 0 && 0 * pow2(1074) == 0) by (nonlinear_arith);
            law_exact_product(d, d, zero);
        }
        assert(bin_score(side(g, h, u, rule, left), p).nan()) by {
            reveal(Double::over_spec);
        }
        reveal(Double::plus_spec);
        assert(false);
    }
}

/// Scores keep their order when the score of the leaf is taken away.
proof fn lemma_gain_order(a: Double, b: Double, parent_score: Double)
    requires
        parent_score.finite(),
        !a.nan(),
        !a.lt_spec(b),
    ensures
        !a.minus_spec(parent_score).lt_spec(b.minus_spec(parent_score)),
{
    let x = parent_score.neg_spec();
    if !b.nan() {
        lemma_plus_number(a, x);
        lemma_plus_number(b, x);
        lemma_plus_monotone(b, x, a, x);
    } else {
        reveal(Double::plus_spec);
    }
}

/// The place of a numeric rule in the order in which rules are looked at, where some rows miss
/// the feature.
pub open spec fn place(rule: Rule) -> int {
    2 * rule->bin + if rule->missing_goes_left { 1int } else { 0 }
}

/// Every numeric rule both of whose sides hold enough rows is reckoned with: no such rule gains
/// more than the split that is found, those that are looked at earlier score less, and where no
/// split is found none of them gains enough.
pub proof fn law_no_numeric_rule_is_better(
    g: Seq<int>,
    h: Seq<int>,
    u: Units,
    parent_score: Double,
    p: BoosterParameters,
    rule: Rule,
)
    requires
        counted_bins(g, h, u),
        parent_score.finite(),
        !p.min_gain_to_split.nan(),
        rule matches Rule::Numeric { bin, .. } && bin < g.len() - 1,
        admissible(h, u, rule, p),
        !rule_score(g, h, u, rule, p).nan(),
    ensures
        match numeric_split(exact_bins(g, h, u), exact_bin(whole(g), whole(h), u), parent_score, p) {
            Some(s) => {
                &&& !s.gain.lt_spec(rule_score(g, h, u, rule, p).minus_spec(parent_score))
                &&& rule->bin < s.rule->bin || (h.last() > 0 && place(rule) < place(s.rule)) ==> rule_score(
                    g,
                    h,
                    u,
                    rule,
                    p,
                ).lt_spec(rule_score(g, h, u, s.rule, p))
            },
            None => rule_score(g, h, u, rule, p).minus_spec(parent_score).le_spec(p.min_gain_to_split),
        },
{
    let bins = exact_bins(g, h, u);
    let all = exact_bin(whole(g), whole(h), u);
    let n = g.len() as int;
    let t = rule->bin as int;
    let m = rule->missing_goes_left;
    let candidates = numeric_candidates(bins, all);
    lemma_one_is_few(h, n - 1);
    lemma_few_zero();
    law_units_are_ordered(h[n - 1], 0, u.hessian);
    assert(none_missing(bins) == (h.last() == 0));
    lemma_numeric_sent(h, t, m);
    law_sides_hold_everything(h, rule);
    let k = if h.last() == 0 { t } else { 2 * t + if m { 1int } else { 0 } };
    if h.last() == 0 && t == n - 2 {
        // Nothing would be left for the right side.
        let x_at = |b: int| h[b];
        assert(sum_over(n as nat, x_at) == sum_over((n - 1) as nat, x_at) + h[n - 1]);
        assert(false);
    }
    assert(0 <= k < candidates.len());
    lemma_numeric_candidate(g, h, u, k);
    let c = candidates[k];
    let own = numeric_rule(c);
    if h.last() == 0 {
        lemma_numeric_sent(g, t, m);
        lemma_numeric_sent(g, t, c.flag);
        lemma_numeric_sent(h, t, c.flag);
        law_sides_hold_everything(g, rule);
        law_sides_hold_everything(g, own);
        law_sides_hold_everything(h, own);
    }
    assert(c.left == side(g, h, u, rule, true));
    assert(c.right == side(g, h, u, rule, false));
    let score = rule_score(g, h, u, rule, p);
    assert(c.score(p) == score);
    let best = best_of(candidates, candidates.len(), p);
    law_best_is_first_maximum(candidates, candidates.len(), p);
    assert(!best.score.lt_spec(c.score(p)));
    lemma_gain_order(best.score, score, parent_score);
    lemma_no_candidate_no_split(numeric_rule(best.candidate), parent_score, p);
    let gain = best.score.minus_spec(parent_score);
    lemma_plus_number(best.score, parent_score.neg_spec());
    lemma_plus_number(score, parent_score.neg_spec());
    if numeric_split(bins, all, parent_score, p) is Some {
        let i = choose|i: int|
            #![trigger candidates[i]]
            0 <= i < candidates.len() && best.candidate == candidates[i] && best.score == candidates[i].score(p)
                && forall|j: int|
                0 <= j < i ==> !candidates[i].score(p).le_spec((#[trigger] candidates[j]).score(p));
        assert(0 <= i < candidates.len());
        lemma_numeric_candidate(g, h, u, i);
        law_best_keeps_leaf_weight(candidates, candidates.len(), p);
        if k < i {
            assert(!candidates[i].score(p).le_spec(candidates[k].score(p)));
        }
    }
}

// ---------------------------------------------------------------------------------------
// Categorical splits
// ---------------------------------------------------------------------------------------

/// The categories at the first `n` places of an order.
spec fn first_categories(order: Seq<usize>, n: int) -> Seq<int> {
    order.take(n).map_values(|k: usize| k as int)
}

/// Sums over the first categories of an order.
proof fn lemma_first_categories(x: Seq<int>, order: Seq<usize>, n: int)
    requires
        order.no_duplicates(),
        forall|i: int| 0 <= i < order.len() ==> (#[trigger] order[i]) < x.len(),
        0 <= n <= order.len(),
    ensures
        sum_over(n as nat, |i: int| x[order[i] as int]) == sum_over(
            x.len(),
            |k: int| if order.take(n).contains(k as usize) && k <= usize::MAX { x[k] } else { 0 },
        ),
{
    let list = first_categories(order, n);
    let f = |k: int| x[k];
    assert forall|i: int, j: int| 0 <= i < list.len() && 0 <= j < list.len() && i != j implies list[i] != list[j] by {
        assert(order[i] != order[j]);
    }
    assert forall|i: int| 0 <= i < list.len() implies 0 <= (#[trigger] list[i]) < x.len() by {
        assert(list[i] == order[i] as int);
    }
    lemma_sum_listed(x.len(), list, f);
    let a = |i: int| f(list[i]);
    let b = |i: int| x[order[i] as int];
    assert forall|i: int| 0 <= i < n implies #[trigger] a(i) == b(i) by {
        assert(list[i] == order[i] as int);
    }
    lemma_sum_same(n as nat, a, b);
    let c = |k: int| if list.contains(k) { f(k) } else { 0 };
    let d = |k: int| if order.take(n).contains(k as usize) && k <= usize::MAX { x[k] } else { 0 };
    assert forall|k: int| 0 <= k < x.len() implies #[trigger] c(k) == d(k) by {
        if list.contains(k) {
            let i = choose|i: int| 0 <= i < list.len() && list[i] == k;
            assert(order.take(n)[i] == k as usize);
        } else if order.take(n).contains(k as usize) && k <= usize::MAX {
            let i = choose|i: int| 0 <= i < n && order.take(n)[i] == k as usize;
            assert(list[i] == k);
        }
    }
    lemma_sum_same(x.len(), c, d);
}

/// Counted categories stay so in any order.
proof fn lemma_arranged_countable(x: Seq<int>, order: Seq<usize>)
    requires
        countable(x),
        order.no_duplicates(),
        forall|i: int| 0 <= i < order.len() ==> (#[trigger] order[i]) < x.len(),
    ensures
        countable(Seq::new(order.len(), |i: int| x[order[i] as int])),
{
    let sizes = Seq::new(x.len(), |k: int| size_of(x[k]));
    let y = Seq::new(order.len(), |i: int| x[order[i] as int]);
    let n = order.len() as int;
    lemma_first_categories(sizes, order, n);
    let a = |i: int| sizes[order[i] as int];
    let b = |i: int| size_of(y[i]);
    assert forall|i: int| 0 <= i < n implies #[trigger] a(i) == b(i) by {
        assert(order[i] < x.len());
    }
    lemma_sum_same(n as nat, a, b);
    let c = |k: int| if order.take(n).contains(k as usize) && k <= usize::MAX { sizes[k] } else { 0 };
    let d = |k: int| size_of(x[k]);
    assert forall|k: int| 0 <= k < x.len() implies #[trigger] c(k) <= d(k) by {}
    lemma_sum_below(x.len(), c, d);
}

/// The categories with rows in their order.
proof fn lemma_order(g: Seq<int>, h: Seq<int>, u: Units)
    requires
        counted_bins(g, h, u),
    ensures
        ({
            let bins = exact_bins(g, h, u);
            let order = category_order(bins, bins.len());
            &&& order.no_duplicates()
            &&& order.len() <= g.len()
            &&& forall|i: int| 0 <= i < order.len() ==> (#[trigger] order[i]) < g.len() && h[order[i] as int] > 0
            &&& forall|k: int| 0 <= k < g.len() && h[k] > 0 ==> order.contains(k as usize)
            &&& forall|k: int| 0 <= k < g.len() && #[trigger] h[k] == 0 ==> !order.contains(k as usize)
            &&& forall|i: int, j: int|
                0 <= i < j < order.len() ==> stands_before(bins, #[trigger] order[i], #[trigger] order[j])
        }),
{
    let bins = exact_bins(g, h, u);
    let order = category_order(bins, bins.len());
    law_category_order(bins, bins.len());
    lemma_few_zero();
    law_units_are_ordered(0, 0, u.hessian);
    assert forall|k: int| 0 <= k < g.len() implies (order.contains(k as usize) <==> #[trigger] h[k] > 0) by {
        lemma_one_is_few(h, k);
        law_units_are_ordered(0, h[k], u.hessian);
        assert(bins[k] == exact_bin(g[k], h[k], u));
    }
    assert forall|i: int| 0 <= i < order.len() implies (#[trigger] order[i]) < g.len() && h[order[i] as int] > 0 by {
        assert(order.contains(order[i]));
        assert(h[order[i] as int] > 0);
    }
}

/// What a rule sends left that splits the order behind place `t`.
proof fn lemma_categorical_sent(x: Seq<int>, h: Seq<int>, order: Seq<usize>, t: int, cats: Seq<bool>)
    requires
        x.len() == h.len() == cats.len(),
        1 <= x.len() <= 256,
        forall|b: int| 0 <= b < h.len() && #[trigger] h[b] == 0 ==> x[b] == 0,
        order.no_duplicates(),
        forall|i: int| 0 <= i < order.len() ==> (#[trigger] order[i]) < x.len(),
        forall|k: int| 0 <= k < x.len() && #[trigger] h[k] != 0 ==> order.contains(k as usize),
        0 <= t < order.len(),
        forall|i: int| 0 <= i < order.len() ==> cats[(#[trigger] order[i]) as int] == (i <= t),
    ensures
        sent(x, Rule::Categorical(cats), true) == sum_over((t + 1) as nat, |i: int| x[order[i] as int]),
{
    let n = x.len();
    let rule = Rule::Categorical(cats);
    lemma_first_categories(x, order, t + 1);
    let kept = order.take(t + 1);
    let a = |k: int| if kept.contains(k as usize) && k <= usize::MAX { x[k] } else { 0 };
    let b = |k: int| if rule.goes_left(k as u8, (n - 1) as u8) == true { x[k] } else { 0 };
    assert forall|k: int| 0 <= k < n implies #[trigger] a(k) == b(k) by {
        if h[k] != 0 {
            let i = choose|i: int| 0 <= i < order.len() && order[i] == k as usize;
            assert(cats[order[i] as int] == (i <= t));
            if i <= t {
                assert(kept[i] == k as usize);
            } else if kept.contains(k as usize) {
                let j = choose|j: int| 0 <= j < kept.len() && kept[j] == k as usize;
                assert(order[j] == order[i]);
            }
        }
    }
    lemma_sum_same(n, a, b);
}

/// The sides of the cut behind place `t` of the order.
proof fn lemma_categorical_candidate(g: Seq<int>, h: Seq<int>, u: Units, t: int, cats: Seq<bool>)
    requires
        counted_bins(g, h, u),
        cats.len() == g.len(),
        ({
            let bins = exact_bins(g, h, u);
            let order = category_order(bins, bins.len());
            &&& 0 <= t < order.len() - 1
            &&& forall|i: int| 0 <= i < order.len() ==> cats[(#[trigger] order[i]) as int] == (i <= t)
        }),
    ensures
        ({
            let bins = exact_bins(g, h, u);
            let order = category_order(bins, bins.len());
            let c = categorical_candidates(bins, order, exact_bin(whole(g), whole(h), u))[t];
            let rule = Rule::Categorical(cats);
            &&& c.left == side(g, h, u, rule, true)
            &&& c.right == side(g, h, u, rule, false)
            &&& c.index == t
            &&& c.flag == (sent(h, rule, true) > sent(h, rule, false))
        }),
{
    let bins = exact_bins(g, h, u);
    let order = category_order(bins, bins.len());
    let rule = Rule::Categorical(cats);
    lemma_order(g, h, u);
    let gp = Seq::new(order.len(), |i: int| g[order[i] as int]);
    let hp = Seq::new(order.len(), |i: int| h[order[i] as int]);
    lemma_arranged_countable(g, order);
    lemma_arranged_countable(h, order);
    assert(arranged(bins, order) =~= exact_bins(gp, hp, u));
    let n = (t + 1) as nat;
    lemma_exact_prefix(gp, hp, u, n);
    lemma_categorical_sent(g, h, order, t, cats);
    lemma_categorical_sent(h, h, order, t, cats);
    lemma_sum_same(n, |i: int| gp[i], |i: int| g[order[i] as int]);
    lemma_sum_same(n, |i: int| hp[i], |i: int| h[order[i] as int]);
    law_sides_hold_everything(g, rule);
    law_sides_hold_everything(h, rule);
    lemma_whole_few(g);
    lemma_whole_few(h);
    lemma_sent_few(g, rule, true);
    lemma_sent_few(h, rule, true);
    lemma_sent_few(g, rule, false);
    lemma_sent_few(h, rule, false);
    lemma_bins_minus(whole(g), whole(h), sent(g, rule, true), sent(h, rule, true), u);
    law_units_are_ordered(sent(h, rule, false), sent(h, rule, true), u.hessian);
}

/// The sides that the rule of a cut gives to the categories of the order.
proof fn lemma_cut_rule(order: Seq<usize>, c: Candidate, n: nat)
    requires
        order.no_duplicates(),
        n <= 256,
        forall|i: int| 0 <= i < order.len() ==> (#[trigger] order[i]) < n,
        c.index < order.len(),
    ensures
        forall|i: int|
            0 <= i < order.len() ==> categorical_rule(order, c, n)[(#[trigger] order[i]) as int] == (i <= c.index),
{
    let kept = order.take(c.index + 1);
    assert forall|i: int| 0 <= i < order.len() implies categorical_rule(order, c, n)[(#[trigger] order[i]) as int] == (i
        <= c.index) by {
        assert(order.contains(order[i]));
        if i <= c.index {
            assert(kept[i] == order[i]);
        } else if kept.contains(order[i]) {
            let j = choose|j: int| 0 <= j < kept.len() && kept[j] == order[i];
            assert(order[j] == order[i]);
        }
    }
}

/// The split of a categorical feature parts the bins as its rule does. A category with rows goes
/// left only if all categories with rows and a lower gradient over hessian do; categories without
/// rows go to the heavier side.
pub proof fn law_categorical_split_parts_the_bins(
    g: Seq<int>,
    h: Seq<int>,
    u: Units,
    parent_score: Double,
    p: BoosterParameters,
)
    requires
        counted_bins(g, h, u),
        parent_score.finite(),
        !p.min_gain_to_split.nan(),
    ensures
        categorical_split(exact_bins(g, h, u), exact_bin(whole(g), whole(h), u), parent_score, p) matches Some(s) ==> {
            &&& true_split(s, g, h, u, parent_score, p)
            &&& s.rule matches Rule::Categorical(cats) && {
                &&& cats.len() == g.len()
                &&& forall|k: int|
                    0 <= k < g.len() && h[k] == 0 ==> #[trigger] cats[k] == (sent(h, s.rule, true) > sent(
                        h,
                        s.rule,
                        false,
                    ))
                &&& forall|a: int, b: int|
                    0 <= a < g.len() && 0 <= b < g.len() && h[a] > 0 && h[b] > 0 && (#[trigger] cats[b]) && !(
                    #[trigger] cats[a]) ==> exactly(g[b], u.gradient).over_spec(exactly(h[b], u.hessian)).ordinal()
                        <= exactly(g[a], u.gradient).over_spec(exactly(h[a], u.hessian)).ordinal()
            }
        },
{
    let bins = exact_bins(g, h, u);
    let all = exact_bin(whole(g), whole(h), u);
    let order = category_order(bins, bins.len());
    if categorical_split(bins, all, parent_score, p) is Some {
        let candidates = categorical_candidates(bins, order, all);
        let n = candidates.len();
        let best = best_of(candidates, n, p);
        let cats = categorical_rule(order, best.candidate, bins.len());
        lemma_order(g, h, u);
        law_best_is_first_maximum(candidates, n, p);
        law_best_keeps_leaf_weight(candidates, n, p);
        lemma_no_candidate_no_split(Rule::Categorical(cats), parent_score, p);
        let i = choose|i: int|
            #![trigger candidates[i]]
            0 <= i < n && best.candidate == candidates[i] && best.score == candidates[i].score(p);
        assert(0 <= i < n);
        lemma_cut_rule(order, best.candidate, bins.len());
        lemma_categorical_candidate(g, h, u, i, cats);
        assert forall|a: int, b: int|
            0 <= a < g.len() && 0 <= b < g.len() && h[a] > 0 && h[b] > 0 && (#[trigger] cats[b]) && !(
            #[trigger] cats[a]) implies exactly(g[b], u.gradient).over_spec(exactly(h[b], u.hessian)).ordinal()
            <= exactly(g[a], u.gradient).over_spec(exactly(h[a], u.hessian)).ordinal() by {
            let ia = choose|i: int| 0 <= i < order.len() && order[i] == a as usize;
            let ib = choose|i: int| 0 <= i < order.len() && order[i] == b as usize;
            assert(order.contains(a as usize) && order.contains(b as usize));
            assert(cats[order[ia] as int] == (ia <= best.candidate.index));
            assert(cats[order[ib] as int] == (ib <= best.candidate.index));
            assert(stands_before(bins, order[ib], order[ia]));
        }
    }
}

/// Sides for the categories that go with their order: whatever stands before a category that
/// goes left goes left too.
pub open spec fn goes_with_order(g: Seq<int>, h: Seq<int>, u: Units, cats: Seq<bool>) -> bool {
    &&& cats.len() == g.len()
    &&& forall|a: int, b: int|
        0 <= a < g.len() && 0 <= b < g.len() && h[a] > 0 && h[b] > 0 && (#[trigger] cats[b]) && stands_before(
            exact_bins(g, h, u),
            a as usize,
            b as usize,
        ) ==> #[trigger] cats[a]
}

/// The last of the first `n` places of an order whose category goes left.
proof fn lemma_last_left(order: Seq<usize>, cats: Seq<bool>, n: nat) -> (t: int)
    requires
        n <= order.len(),
        forall|i: int| 0 <= i < order.len() ==> (#[trigger] order[i]) < cats.len(),
    ensures
        -1 <= t < n,
        t >= 0 ==> cats[order[t] as int],
        forall|i: int| t < i < n ==> !cats[(#[trigger] order[i]) as int],
    decreases n,
{
    if n == 0 {
        -1
    } else if cats[order[n - 1] as int] {
        n - 1
    } else {
        lemma_last_left(order, cats, (n - 1) as nat)
    }
}

/// Every way to part the categories that goes with their order is reckoned with, as long as both
/// sides hold enough rows: none gains more than the split that is found, and where no split is
/// found none of them gains enough.
pub proof fn law_no_cut_is_better(
    g: Seq<int>,
    h: Seq<int>,
    u: Units,
    parent_score: Double,
    p: BoosterParameters,
    cats: Seq<bool>,
)
    requires
        counted_bins(g, h, u),
        parent_score.finite(),
        !p.min_gain_to_split.nan(),
        goes_with_order(g, h, u, cats),
        admissible(h, u, Rule::Categorical(cats), p),
        !rule_score(g, h, u, Rule::Categorical(cats), p).nan(),
    ensures
        ({
            let gain = rule_score(g, h, u, Rule::Categorical(cats), p).minus_spec(parent_score);
            match categorical_split(exact_bins(g, h, u), exact_bin(whole(g), whole(h), u), parent_score, p) {
                Some(s) => !s.gain.lt_spec(gain),
                None => gain.le_spec(p.min_gain_to_split),
            }
        }),
{
    let bins = exact_bins(g, h, u);
    let all = exact_bin(whole(g), whole(h), u);
    let order = category_order(bins, bins.len());
    let candidates = categorical_candidates(bins, order, all);
    let rule = Rule::Categorical(cats);
    lemma_order(g, h, u);
    let t = lemma_last_left(order, cats, order.len());
    let n = g.len();
    // Both sides hold rows.
    let l = |b: int| if rule.goes_left(b as u8, (n - 1) as u8) == true { h[b] } else { 0 };
    let r = |b: int| if rule.goes_left(b as u8, (n - 1) as u8) == false { h[b] } else { 0 };
    if t < 0 {
        assert forall|k: int| 0 <= k < n implies #[trigger] l(k) == 0 by {
            if h[k] > 0 {
                let i = choose|i: int| 0 <= i < order.len() && order[i] == k as usize;
                assert(order.contains(k as usize));
                assert(!cats[order[i] as int]);
            }
        }
        lemma_sum_zero(n, l);
        assert(false);
    }
    assert forall|i: int| 0 <= i < order.len() implies cats[(#[trigger] order[i]) as int] == (i <= t) by {
        if i < t {
            assert(stands_before(bins, order[i], order[t]));
            assert(h[order[i] as int] > 0 && h[order[t] as int] > 0);
            assert(cats[order[t] as int]);
        }
    }
    if t == order.len() - 1 {
        assert forall|k: int| 0 <= k < n implies #[trigger] r(k) == 0 by {
            if h[k] > 0 {
                let i = choose|i: int| 0 <= i < order.len() && order[i] == k as usize;
                assert(order.contains(k as usize));
                assert(cats[order[i] as int]);
            }
        }
        lemma_sum_zero(n, r);
        assert(false);
    }
    lemma_categorical_candidate(g, h, u, t, cats);
    let score = rule_score(g, h, u, rule, p);
    assert(candidates[t].score(p) == score);
    let best = best_of(candidates, candidates.len(), p);
    law_best_is_first_maximum(candidates, candidates.len(), p);
    assert(!best.score.lt_spec(candidates[t].score(p)));
    lemma_gain_order(best.score, score, parent_score);
    lemma_plus_number(best.score, parent_score.neg_spec());
    lemma_plus_number(score, parent_score.neg_spec());
}

} // verus!
