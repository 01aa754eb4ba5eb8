//! Laws of boosting: what each tree is grown on, what weights count for, and where scores start.

use vstd::arithmetic::power2::{lemma_pow2_pos, pow2};
use vstd::prelude::*;

use crate::arithmetic::{law_exact_product, law_exact_sum, lemma_from_count_exact, lemma_signed, lemma_size_positive};
use crate::bin::{law_number_in_its_bin, BinnerView};
use crate::booster::{
    boosted, dataset_weights, gradients, lemma_boosted_prefix, lemma_training_score, score_after, tree_views, Booster,
};
use crate::column::{Batch, ColumnView};
use crate::dataset::Dataset;
use crate::double::{signed, Double, SINGLE_INFINITY_BITS, Single};
use crate::exact::{holds, lemma_one};
use crate::fixed::{
    exactly, few, greatest_exponent, law_few_units_are_exact, law_units_add_up, law_units_are_ordered,
    lemma_same_number, sum_over,
};
use crate::growth::grown;
use crate::leaves::{exact_data, law_nodes_are_what_their_rows_make_them, node_rows, rows_value};
use crate::objective::{label_sum, mean_label, weighted_sums, Gaussian, Objective};
use crate::order::{law_narrowing_undoes_widening, law_widening_is_exact};
use crate::parameters::BoosterParameters;
use crate::rounding::grid;
use crate::sides::{countable, lemma_few_zero, lemma_one_is_few, lemma_part_is_few, whole, Units};
use crate::tree::{leaf_of, NodeView};

verus! {

// ---------------------------------------------------------------------------------------
// Trees
// ---------------------------------------------------------------------------------------

/// The gradients at the scores that the first `t` of the trees give, each row with its label and
/// its weight in the data.
pub open spec fn at_scores<O: Objective>(
    objective: &O,
    d: &Dataset,
    trees: Seq<Seq<NodeView>>,
    t: nat,
    gh: Seq<[Single; 2]>,
) -> bool {
    &&& gh.len() == d.num_rows
    &&& forall|row: int|
        0 <= row < d.num_rows ==> {
            let base = match d.weights {
                Some(w) => objective.initial_score_spec(d.labels@, Some(w@)),
                None => objective.initial_score_spec(d.labels@, None),
            };
            let score = score_after(base, trees, d.row_bins(row), d.sentinels(), t);
            &&& d.weights matches Some(w) ==> #[trigger] gh[row] == objective.grad_hess_spec(d.labels@[row], score, w@[row])
            &&& d.weights is None ==> gh[row] == objective.grad_hess_spec(d.labels@[row], score, Double::one_spec())
        }
}

/// There are as many trees as iterations, and each is grown on the gradients at the scores that
/// the trees before it give to the rows, with the rows' own labels and weights.
pub proof fn law_each_tree_is_grown_on_the_scores_so_far<O: Objective>(
    objective: &O,
    d: &Dataset,
    p: BoosterParameters,
    n: nat,
    t: nat,
)
    requires
        t < n,
    ensures
        ({
            let trees = boosted(objective, d, p, n).0;
            &&& trees.len() == n
            &&& exists|gh: Seq<[Single; 2]>| #[trigger] at_scores(objective, d, trees, t, gh) && trees[t as int] == grown(
                d,
                gh,
                p,
            )
        }),
{
    let trees = boosted(objective, d, p, n).0;
    lemma_boosted_prefix(objective, d, p, t + 1, n);
    lemma_boosted_prefix(objective, d, p, t, t);
    let scores = boosted(objective, d, p, t).1;
    let gh = gradients(objective, d, scores);
    assert(boosted(objective, d, p, t + 1).0[t as int] == grown(d, gh, p));
    assert forall|row: int| 0 <= row < d.num_rows implies {
        let base = match d.weights {
            Some(w) => objective.initial_score_spec(d.labels@, Some(w@)),
            None => objective.initial_score_spec(d.labels@, None),
        };
        let score = score_after(base, trees, d.row_bins(row), d.sentinels(), t);
        &&& d.weights matches Some(w) ==> #[trigger] gh[row] == objective.grad_hess_spec(d.labels@[row], score, w@[row])
        &&& d.weights is None ==> gh[row] == objective.grad_hess_spec(d.labels@[row], score, Double::one_spec())
    } by {
        lemma_training_score(objective, d, p, t, n, row);
    }
    assert(at_scores(objective, d, trees, t, gh));
}

/// The score of a row after one more tree is that before, with the value of the leaf added that
/// the row reaches.
pub proof fn law_each_tree_adds_its_leaf(base: Double, trees: Seq<Seq<NodeView>>, bins: Seq<u8>, sentinels: Seq<u8>, n: nat)
    requires
        n < trees.len(),
        leaf_of(trees[n as int], bins, sentinels) is Some,
    ensures
        score_after(base, trees, bins, sentinels, 0) == base,
        score_after(base, trees, bins, sentinels, n + 1) == score_after(base, trees, bins, sentinels, n).plus_spec(
            trees[n as int][leaf_of(trees[n as int], bins, sentinels)->0 as int]->value,
        ),
{
}

/// A row of any batch that falls into the bins of a training row has the score that boosting ended
/// with for that row.
pub proof fn law_rows_of_the_same_bins_have_the_same_score<O: Objective>(
    booster: &Booster<O>,
    d: &Dataset,
    batch: &Batch,
    n: nat,
    row: int,
    like: int,
)
    requires
        booster.base_score == booster.objective.initial_score_spec(d.labels@, dataset_weights(d)),
        tree_views(booster.trees@) == boosted(&booster.objective, d, booster.parameters, n).0,
        booster.feature_binners@.len() == d.feature_binners@.len(),
        forall|f: int|
            0 <= f < d.feature_binners@.len() ==> (#[trigger] booster.feature_binners@[f])@ == d.feature_binners@[f]@,
        batch.columns@.len() == d.feature_binners@.len(),
        0 <= like < d.num_rows,
        forall|f: int|
            0 <= f < batch.columns@.len() ==> d.feature_binners@[f]@.bins((#[trigger] batch.columns@[f])@)[row] == d.bin(
                like,
                f,
            ),
    ensures
        booster.score(batch, row) == boosted(&booster.objective, d, booster.parameters, n).1[like],
{
    let o = &booster.objective;
    let p = booster.parameters;
    assert(booster.sentinels() =~= d.sentinels());
    assert forall|f: int| 0 <= f < d.feature_binners@.len() implies #[trigger] d.row_bins(like)[f] == booster.batch_bins(
        batch,
        row,
    )[f] by {
        assert(booster.feature_binners@[f]@ == d.feature_binners@[f]@);
        assert(d.feature_binners@[f]@.bins(batch.columns@[f]@)[row] == d.bin(like, f));
    }
    assert(booster.batch_bins(batch, row) =~= d.row_bins(like));
    lemma_boosted_prefix(o, d, p, n, n);
    assert(booster.trees@.len() == tree_views(booster.trees@).len());
    lemma_training_score(o, d, p, n, n, like);
}

/// What a row of a batch is told by is its bin of each feature: a number's bin is that whose bounds
/// it lies between, a known category's is its own, and missing values and unknown categories have
/// the last one, which is the one that splits take for missing.
pub proof fn law_new_rows_are_binned_by_their_values<O: Objective>(booster: &Booster<O>, batch: &Batch, row: int, f: int)
    requires
        0 <= f < booster.feature_binners@.len(),
        booster.feature_binners@.len() <= batch.columns@.len(),
        booster.feature_binners@[f]@.wf(),
        booster.feature_binners@[f]@.fits(batch.columns@[f]@),
        0 <= row < batch.columns@[f]@.len(),
    ensures
        ({
            let bin = booster.batch_bins(batch, row)[f];
            let sentinel = booster.sentinels()[f];
            match (booster.feature_binners@[f]@, batch.columns@[f]@) {
                (BinnerView::Numerical(bounds), ColumnView::Numbers(x)) => {
                    &&& sentinel == bounds.len()
                    &&& x[row] is None || x[row]->0.nan() ==> bin == sentinel
                    &&& x[row] is Some && !x[row]->0.nan() ==> {
                        let v = x[row]->0;
                        &&& bin < sentinel
                        &&& !bounds[bin as int].lt_spec(v)
                        &&& forall|b: int| 0 <= b < bin ==> (#[trigger] bounds[b]).lt_spec(v)
                    }
                },
                (BinnerView::Categorical(categories), column) => {
                    &&& sentinel == categories.len()
                    &&& column.category(row) is Some && categories.contains_key(column.category(row)->0) ==> bin
                        == categories[column.category(row)->0] && bin < sentinel
                    &&& !(column.category(row) is Some && categories.contains_key(column.category(row)->0)) ==> bin == sentinel
                },
                _ => true,
            }
        }),
{
    match (booster.feature_binners@[f]@, batch.columns@[f]@) {
        (BinnerView::Numerical(bounds), ColumnView::Numbers(x)) => {
            if let Some(v) = x[row] {
                if !v.nan() {
                    law_number_in_its_bin(bounds, v);
                }
            }
        },
        _ => {},
    }
}

// ---------------------------------------------------------------------------------------
// Weights
// ---------------------------------------------------------------------------------------

/// The squared error of a row: its gradient is the residual times the weight, and its hessian the
/// weight, where these are numbers of the formats. `residual` is the score less the label, and
/// `product` that times the weight.
pub proof fn law_gaussian_gradient_is_the_weighted_residual(
    label: Double,
    score: Double,
    weight: Double,
    residual: Double,
    product: Double,
    g: Single,
    h: Single,
)
    requires
        label.finite() && score.finite() && weight.finite(),
        holds(residual, score.value() - label.value()),
        residual.value() != 0,
        product.finite(),
        product.negative() == (residual.negative() != weight.negative()),
        residual.size() * weight.size() == product.size() * pow2(1074),
        g.magnitude() < SINGLE_INFINITY_BITS,
        h.magnitude() < SINGLE_INFINITY_BITS,
        g.widen_spec() == product,
        h.widen_spec() == weight,
    ensures
        Gaussian.grad_hess_spec(label, score, weight)@[0] == g,
        Gaussian.grad_hess_spec(label, score, weight)@[1] == h,
{
    assert(label.neg_spec().value() == -label.value());
    law_exact_sum(score, label.neg_spec(), residual);
    law_exact_product(residual, weight, product);
    law_narrowing_undoes_widening(product, g);
    law_narrowing_undoes_widening(weight, h);
}

/// A row of weight `k` counts for `k` rows of weight one: its gradient and its hessian are `k`
/// times theirs, where these are numbers of the formats.
pub proof fn law_a_weight_counts_copies(
    label: Double,
    score: Double,
    k: nat,
    residual: Double,
    one_g: Single,
    one_h: Single,
    all_g: Single,
    all_h: Single,
)
    requires
        label.finite() && score.finite(),
        holds(residual, score.value() - label.value()),
        residual.value() != 0,
        0 < k <= pow2(53),
        one_g.magnitude() < SINGLE_INFINITY_BITS,
        one_h.magnitude() < SINGLE_INFINITY_BITS,
        all_g.magnitude() < SINGLE_INFINITY_BITS,
        all_h.magnitude() < SINGLE_INFINITY_BITS,
        one_g.widen_spec() == residual,
        one_h.widen_spec() == Double::one_spec(),
        holds(all_g.widen_spec(), k * residual.value()),
        holds(all_h.widen_spec(), (k * pow2(1074)) as int),
    ensures
        Gaussian.grad_hess_spec(label, score, Double::one_spec())@[0] == one_g,
        Gaussian.grad_hess_spec(label, score, Double::one_spec())@[1] == one_h,
        Gaussian.grad_hess_spec(label, score, Double::from_count_spec(k))@[0] == all_g,
        Gaussian.grad_hess_spec(label, score, Double::from_count_spec(k))@[1] == all_h,
{
    let one = Double::one_spec();
    let weight = Double::from_count_spec(k);
    let product = all_g.widen_spec();
    let u = pow2(1074);
    lemma_one();
    lemma_pow2_pos(1074);
    lemma_from_count_exact(k);
    lemma_size_positive(residual);
    lemma_size_positive(product);
    lemma_size_positive(all_h.widen_spec());
    let r = residual.value();
    assert(k * u > 0 && (r > 0 ==> k * r > 0) && (r < 0 ==> k * r < 0)) by (nonlinear_arith)
        requires
            k > 0,
            u > 0,
    ;
    assert(residual.size() * one.size() == residual.size() * u);
    law_gaussian_gradient_is_the_weighted_residual(label, score, one, residual, residual, one_g, one_h);
    lemma_same_number(all_h.widen_spec(), weight);
    assert(product.size() == k * residual.size()) by (nonlinear_arith)
        requires
            product.value() == k * r,
            r > 0 ==> product.size() == product.value() && residual.size() == r,
            r < 0 ==> product.size() == -product.value() && residual.size() == -r,
            r != 0,
    ;
    assert(residual.size() * weight.size() == product.size() * u) by (nonlinear_arith)
        requires
            weight.size() == k * u,
            product.size() == k * residual.size(),
    ;
    law_gaussian_gradient_is_the_weighted_residual(label, score, weight, residual, product, all_g, all_h);
}

// ---------------------------------------------------------------------------------------
// Means
// ---------------------------------------------------------------------------------------

/// Numbers that can be counted in units of `2^e`.
pub open spec fn counted(x: Seq<Double>, e: nat, n: Seq<int>) -> bool {
    &&& e <= greatest_exponent()
    &&& n.len() == x.len()
    &&& countable(n)
    &&& forall|i: int| 0 <= i < x.len() ==> holds(#[trigger] x[i], n[i] * pow2(e))
}

proof fn lemma_label_sum(labels: Seq<Double>, e: nat, units: Seq<int>, n: nat)
    requires
        counted(labels, e, units),
        1 <= n <= labels.len(),
    ensures
        holds(label_sum(labels, n), sum_over(n, |i: int| units[i]) * pow2(e)),
    decreases n,
{
    let f = |i: int| units[i];
    if n == 1 {
        assert(holds(labels[0], units[0] * pow2(e)));
        assert(sum_over(1, f) == sum_over(0, f) + f(0));
    } else {
        let m = (n - 1) as nat;
        lemma_label_sum(labels, e, units, m);
        lemma_part_is_few(units, n, f);
        let a = label_sum(labels, m);
        let b = labels[m as int];
        assert(holds(b, units[m as int] * pow2(e)));
        law_few_units_are_exact(sum_over(n, f), e);
        let c = exactly(sum_over(n, f), e);
        let s = sum_over(m, f);
        assert(s * pow2(e) + units[m as int] * pow2(e) == (s + units[m as int]) * pow2(e)) by (nonlinear_arith);
        if c.value() != 0 {
            law_exact_sum(a, b, c);
        } else {
            lemma_size_positive(a);
            lemma_size_positive(b);
            lemma_signed(a.negative() && b.negative(), 0);
            lemma_size_positive(signed(a.negative() && b.negative(), 0));
            reveal(Double::plus_spec);
        }
    }
}

/// The mean label is the sum of the labels over their number, where the sum is exact.
pub proof fn law_mean_is_the_sum_over_the_number(labels: Seq<Double>, e: nat, units: Seq<int>, fallback: Double)
    requires
        counted(labels, e, units),
        0 < labels.len() <= pow2(53),
    ensures
        exists|sum: Double, number: Double|
            holds(sum, whole(units) * pow2(e)) && holds(number, (labels.len() * pow2(1074)) as int) && mean_label(labels, None, fallback)
                == #[trigger] sum.over_spec(number),
{
    lemma_label_sum(labels, e, units, labels.len());
    lemma_from_count_exact(labels.len());
    let sum = label_sum(labels, labels.len());
    let number = Double::from_count_spec(labels.len());
    assert(mean_label(labels, None, fallback) == sum.over_spec(number));
}

/// The products of weights and labels, in units of `2^e`.
pub open spec fn counted_products(labels: Seq<Double>, weights: Seq<Double>, e: nat, n: Seq<int>) -> bool {
    &&& e <= greatest_exponent()
    &&& n.len() == labels.len()
    &&& countable(n)
    &&& forall|i: int|
        0 <= i < labels.len() ==> {
            &&& (#[trigger] labels[i]).finite()
            &&& weights[i].finite()
            &&& weights[i].value() * labels[i].value() == (n[i] * pow2(e)) * pow2(1074)
        }
}

proof fn lemma_product(a: Double, b: Double, n: int, e: nat)
    requires
        a.finite(),
        b.finite(),
        few(n),
        e <= greatest_exponent(),
        a.value() * b.value() == (n * pow2(e)) * pow2(1074),
    ensures
        holds(a.times_spec(b), n * pow2(e)),
{
    let negative = a.negative() != b.negative();
    law_few_units_are_exact(n, e);
    let c = signed(negative, exactly(n, e).magnitude());
    lemma_signed(negative, exactly(n, e).magnitude());
    lemma_pow2_pos(1074);
    lemma_pow2_pos(e);
    lemma_size_positive(a);
    lemma_size_positive(b);
    let m = n * pow2(e);
    let u = pow2(1074) as int;
    let x = a.size() as int;
    let y = b.size() as int;
    let z = exactly(n, e).size() as int;
    assert(x * y == a.value() * b.value() || x * y == -(a.value() * b.value())) by (nonlinear_arith)
        requires
            a.value() == x || a.value() == -x,
            b.value() == y || b.value() == -y,
    ;
    assert(x * y >= 0) by (nonlinear_arith)
        requires
            x >= 0,
            y >= 0,
    ;
    assert(z == m || z == -m);
    assert(x * y == z * u) by (nonlinear_arith)
        requires
            x * y == m * u || x * y == -(m * u),
            z == m || z == -m,
            z >= 0,
            x * y >= 0,
            u > 0,
    ;
    law_exact_product(a, b, c);
    // The sign.
    if m != 0 {
        assert(x != 0 && y != 0) by (nonlinear_arith)
            requires
                x * y == z * u,
                z != 0,
                u > 0,
        ;
        assert((m < 0) == negative) by (nonlinear_arith)
            requires
                a.value() * b.value() == m * u,
                u > 0,
                m != 0,
                a.negative() ==> a.value() < 0,
                !a.negative() ==> a.value() > 0,
                b.negative() ==> b.value() < 0,
                !b.negative() ==> b.value() > 0,
                negative == (a.negative() != b.negative()),
        ;
    } else {
        lemma_size_positive(exactly(n, e));
        lemma_size_positive(c);
    }
}

proof fn lemma_weighted_sums(
    labels: Seq<Double>,
    weights: Seq<Double>,
    e: nat,
    products: Seq<int>,
    k: nat,
    units: Seq<int>,
    n: nat,
)
    requires
        weights.len() == labels.len(),
        counted_products(labels, weights, e, products),
        counted(weights, k, units),
        n <= labels.len(),
    ensures
        weighted_sums(labels, weights, n) == (
            exactly(sum_over(n, |i: int| products[i]), e),
            exactly(sum_over(n, |i: int| units[i]), k),
        ),
    decreases n,
{
    let f = |i: int| products[i];
    let g = |i: int| units[i];
    if n == 0 {
        lemma_few_zero();
        law_units_are_ordered(0, 0, e);
        law_units_are_ordered(0, 0, k);
    } else {
        let m = (n - 1) as nat;
        lemma_weighted_sums(labels, weights, e, products, k, units, m);
        lemma_part_is_few(products, n, f);
        lemma_part_is_few(products, m, f);
        lemma_part_is_few(units, n, g);
        lemma_part_is_few(units, m, g);
        lemma_one_is_few(products, m as int);
        assert(labels[m as int].finite());
        lemma_product(weights[m as int], labels[m as int], products[m as int], e);
        assert(holds(weights[m as int], units[m as int] * pow2(k)));
        law_units_add_up(sum_over(m, f), products[m as int], e, weights[m as int].times_spec(labels[m as int]));
        law_units_add_up(sum_over(m, g), units[m as int], k, weights[m as int]);
    }
}

/// The weighted mean label is the sum of the weighted labels over that of the weights, where the
/// sums and products are exact; where the weights sum up to nothing positive it is `fallback`.
pub proof fn law_weighted_mean_is_the_weighted_sum_over_the_weights(
    labels: Seq<Double>,
    weights: Seq<Double>,
    e: nat,
    products: Seq<int>,
    k: nat,
    units: Seq<int>,
    fallback: Double,
)
    requires
        weights.len() == labels.len(),
        counted_products(labels, weights, e, products),
        counted(weights, k, units),
    ensures
        whole(units) > 0 ==> mean_label(labels, Some(weights), fallback) == exactly(whole(products), e).over_spec(
            exactly(whole(units), k),
        ),
        whole(units) <= 0 ==> mean_label(labels, Some(weights), fallback) == fallback,
{
    lemma_weighted_sums(labels, weights, e, products, k, units, labels.len());
    lemma_part_is_few(units, units.len(), |i: int| units[i]);
    lemma_few_zero();
    law_units_are_ordered(0, whole(units), k);
}

/// Gaussian scores start at the mean label, or at zero where there is none.
pub proof fn law_gaussian_scores_start_at_the_mean(labels: Seq<Double>, weights: Option<Seq<Double>>)
    ensures
        labels.len() == 0 ==> Gaussian.initial_score_spec(labels, weights) == Double::zero_spec(),
        labels.len() > 0 ==> Gaussian.initial_score_spec(labels, weights) == mean_label(
            labels,
            weights,
            Double::zero_spec(),
        ),
{
}

/// In a boosted tree every leaf has the value that the gradients of its rows give, at the scores
/// of the trees before, times the learning rate, as far as no sum is rounded.
pub proof fn law_boosted_leaves_have_the_values_of_their_rows<O: Objective>(
    objective: &O,
    d: &Dataset,
    p: BoosterParameters,
    n: nat,
    t: nat,
    gh: Seq<[Single; 2]>,
    u: Units,
    i: int,
)
    requires
        t < n,
        at_scores(objective, d, boosted(objective, d, p, n).0, t, gh),
        exact_data(d, gh, u, p),
        0 <= i < boosted(objective, d, p, n).0[t as int].len(),
        boosted(objective, d, p, n).0[t as int][i] is Leaf,
    ensures
        boosted(objective, d, p, n).0[t as int][i]->value == rows_value(
            gh,
            u,
            node_rows(d, boosted(objective, d, p, n).0[t as int], i),
            p,
        ),
{
    let trees = boosted(objective, d, p, n).0;
    law_each_tree_is_grown_on_the_scores_so_far(objective, d, p, n, t);
    let own = choose|own: Seq<[Single; 2]>|
        #[trigger] at_scores(objective, d, trees, t, own) && trees[t as int] == grown(d, own, p);
    assert forall|row: int| 0 <= row < gh.len() implies gh[row] == own[row] by {}
    assert(gh =~= own);
    law_nodes_are_what_their_rows_make_them(d, gh, u, p);
}

/// Whatever the numbers, the gradient of a row is the rounded residual times the weight, rounded,
/// and its hessian the weight, both as singles.
pub proof fn law_gaussian_rounds_residual_and_product(label: Double, score: Double, weight: Double)
    ensures
        Gaussian.grad_hess_spec(label, score, weight)@[0] == score.plus_spec(label.neg_spec()).times_spec(weight).narrow_spec(),
        Gaussian.grad_hess_spec(label, score, weight)@[1] == weight.narrow_spec(),
{
}

/// A row that is already predicted has no gradient.
pub proof fn law_predicted_rows_have_no_gradient(label: Double, score: Double, weight: Double)
    requires
        label.finite() && score.finite() && weight.finite(),
        score.value() == label.value(),
    ensures
        Gaussian.grad_hess_spec(label, score, weight)@[0].magnitude() == 0,
{
    let d = score.minus_spec(label);
    assert(label.neg_spec().value() == -label.value());
    assert(d.is_zero() && d.finite()) by {
        reveal(Double::plus_spec);
        lemma_signed(score.negative() && label.neg_spec().negative(), 0);
    }
    let none = signed(d.negative() != weight.negative(), 0);
    lemma_signed(d.negative() != weight.negative(), 0);
    lemma_size_positive(d);
    lemma_size_positive(none);
    assert(0 * weight.size() == 0 && 0 * pow2(1074) == 0) by (nonlinear_arith);
    law_exact_product(d, weight, none);
    let s = Single { bits: if none.negative() { 0x8000_0000 } else { 0 } };
    law_widening_is_exact(s);
    lemma_pow2_pos(925);
    lemma_pow2_pos(23);
    assert(grid(24, 0) == 0);
    assert(0 * pow2(925) == 0);
    lemma_size_positive(s.widen_spec());
    assert(s.widen_spec() == none);
    law_narrowing_undoes_widening(none, s);
}

/// Whatever the numbers, labels and weighted labels are added one after the other, and the mean is
/// one sum over the other, over the number of labels, or the fallback.
pub proof fn law_means_follow_their_formulas(labels: Seq<Double>, weights: Seq<Double>, n: nat, fallback: Double)
    requires
        0 < n < labels.len(),
        labels.len() <= weights.len(),
    ensures
        label_sum(labels, 1) == labels[0],
        label_sum(labels, n + 1) == label_sum(labels, n).plus_spec(labels[n as int]),
        weighted_sums(labels, weights, 0) == (Double::zero_spec(), Double::zero_spec()),
        weighted_sums(labels, weights, n).0 == weighted_sums(labels, weights, (n - 1) as nat).0.plus_spec(
            weights[n - 1].times_spec(labels[n - 1]),
        ),
        weighted_sums(labels, weights, n).1 == weighted_sums(labels, weights, (n - 1) as nat).1.plus_spec(weights[n - 1]),
        mean_label(labels, None, fallback) == label_sum(labels, labels.len()).over_spec(
            Double::from_count_spec(labels.len()),
        ),
        ({
            let sums = weighted_sums(labels, weights, labels.len());
            mean_label(labels, Some(weights), fallback) == if Double::zero_spec().lt_spec(sums.1) {
                sums.0.over_spec(sums.1)
            } else {
                fallback
            }
        }),
{
}

} // verus!
