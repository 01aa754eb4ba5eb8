//! What a grown tree is: the values of its leaves, and the splits of its nodes.

use vstd::prelude::*;

use crate::dataset::Dataset;
use crate::double::{Double, Single};
use crate::fixed::{law_units_add_up, law_units_are_ordered, lemma_sum_same, sum_over};
use crate::growth::{
    all_rows, both_terminal, chosen, grow, grown, law_chosen_leaf_comes_first, leaf_rows, leaf_split, next_leaf,
    rearranged, root, side_histograms, split_leaf, sums, value_of, Growth, OpenLeaf,
};
use crate::histogram::{histograms_of, HistogramBin, HistogramsView};
use crate::parameters::BoosterParameters;
use crate::partition::{gathered, lefts, rights, sent_left};
use crate::rows::{
    by_bin, counted_rows, feature_bins, gradient_units, hessian_units, law_histograms_hold_the_sums,
    law_other_rows_are_left, law_split_parts_the_rows, lemma_best_split_of_rows, lemma_counted_bins,
    lemma_filter_no_duplicates, lemma_rows_histograms, lemma_sent_rows, lemma_whole_rows, listed, picked,
    rows_histograms, rows_of, rows_sent, rows_sum, sums_up,
};
use crate::segments::{
    laid_out, lemma_chosen, lemma_root, lemma_row_bins_fit, lemma_sound_facts, lemma_sound_segments, lemma_split_leaf,
    sound,
};
use crate::sides::{
    bin_score, exact_bin, law_both_sides_hold_rows, law_categorical_split_parts_the_bins,
    law_numeric_split_parts_the_bins, lemma_few_zero, lemma_part_is_few, Units,
};
use crate::split::{
    best_of, best_split, categorical_candidates, category_order, law_split_gains_enough, numeric_candidates, score_of,
    Candidate, Split,
};
use crate::tree::{
    at_depth, bins_fit, is_child, law_every_node_has_one_depth, leaf_from, leaf_of, lemma_leaf_from_reached, tree_wf,
    NodeView,
};

verus! {

// ---------------------------------------------------------------------------------------
// The learning rate
// ---------------------------------------------------------------------------------------

impl BoosterParameters {
    /// The same settings but for the learning rate.
    pub open spec fn same_but_rate(self, other: BoosterParameters) -> bool {
        other == (BoosterParameters { learning_rate: other.learning_rate, ..self })
    }
}

/// Trees of the same splits, each of whose leaves has the same step in both, times the learning
/// rate of its tree.
pub open spec fn alike(a: Seq<NodeView>, b: Seq<NodeView>, rate_a: Double, rate_b: Double) -> bool {
    &&& a.len() == b.len()
    &&& forall|i: int|
        0 <= i < a.len() ==> {
            ||| (#[trigger] a[i]) is Internal && a[i] == b[i]
            ||| a[i] is Leaf && b[i] is Leaf && same_step(a[i]->value, b[i]->value, rate_a, rate_b)
        }
}

/// Two values are one step, times one rate and times the other.
pub open spec fn same_step(a: Double, b: Double, rate_a: Double, rate_b: Double) -> bool {
    exists|step: Double| a == #[trigger] step.times_spec(rate_a) && b == step.times_spec(rate_b)
}

proof fn lemma_split_rate(
    h: HistogramsView,
    n: nat,
    all: HistogramBin,
    parent_score: Double,
    p: BoosterParameters,
    q: BoosterParameters,
)
    requires
        p.same_but_rate(q),
    ensures
        best_split(h, n, all, parent_score, p) == best_split(h, n, all, parent_score, q),
    decreases n,
{
    if n > 0 {
        lemma_split_rate(h, (n - 1) as nat, all, parent_score, p, q);
        let bins = h.feature(n - 1);
        let numeric = numeric_candidates(bins, all);
        lemma_best_rate(numeric, numeric.len(), p, q);
        let categorical = categorical_candidates(bins, category_order(bins, bins.len()), all);
        lemma_best_rate(categorical, categorical.len(), p, q);
    }
}

proof fn lemma_best_rate(candidates: Seq<Candidate>, n: nat, p: BoosterParameters, q: BoosterParameters)
    requires
        p.same_but_rate(q),
    ensures
        best_of(candidates, n, p) == best_of(candidates, n, q),
    decreases n,
{
    if n > 0 {
        lemma_best_rate(candidates, (n - 1) as nat, p, q);
    }
}

/// Growths that differ in the learning rate alone.
spec fn growth_alike(a: Growth, b: Growth, rate_a: Double, rate_b: Double) -> bool {
    &&& alike(a.nodes, b.nodes, rate_a, rate_b)
    &&& a.active == b.active
    &&& a.finished == b.finished
    &&& forall|i: int| 0 <= i < a.active.len() ==> (#[trigger] a.active[i]).node < a.nodes.len()
}

proof fn lemma_leaf_rate(
    a: Growth,
    b: Growth,
    histograms: Option<HistogramsView>,
    all: HistogramBin,
    start: nat,
    len: nat,
    depth: nat,
    p: BoosterParameters,
    q: BoosterParameters,
)
    requires
        p.same_but_rate(q),
        growth_alike(a, b, p.learning_rate, q.learning_rate),
    ensures
        growth_alike(
            a.with_leaf(histograms, all, start, len, depth, p),
            b.with_leaf(histograms, all, start, len, depth, q),
            p.learning_rate,
            q.learning_rate,
        ),
{
    if let Some(h) = histograms {
        let score = score_of(all.sum_gradients, all.sum_hessians, p.lambda_l1, p.lambda_l2);
        lemma_split_rate(h, h.is_categorical.len(), all, score, p, q);
    }
    let x = a.with_leaf(histograms, all, start, len, depth, p);
    let y = b.with_leaf(histograms, all, start, len, depth, q);
    let step = value_of(all.sum_gradients, all.sum_hessians, p.lambda_l1, p.lambda_l2);
    let n = a.nodes.len() as int;
    assert(x.nodes[n]->value == step.times_spec(p.learning_rate));
    assert(y.nodes[n]->value == step.times_spec(q.learning_rate));
    assert forall|i: int| 0 <= i < x.nodes.len() implies {
        ||| (#[trigger] x.nodes[i]) is Internal && x.nodes[i] == y.nodes[i]
        ||| x.nodes[i] is Leaf && y.nodes[i] is Leaf && same_step(
            x.nodes[i]->value,
            y.nodes[i]->value,
            p.learning_rate,
            q.learning_rate,
        )
    } by {
        if i < n {
            assert(x.nodes[i] == a.nodes[i]);
            assert(y.nodes[i] == b.nodes[i]);
        }
    }
}

proof fn lemma_grow_rate(
    d: &Dataset,
    gh: Seq<[Single; 2]>,
    p: BoosterParameters,
    q: BoosterParameters,
    a: Growth,
    b: Growth,
    rows: Seq<u32>,
    leaves: nat,
)
    requires
        p.same_but_rate(q),
        growth_alike(a, b, p.learning_rate, q.learning_rate),
    ensures
        growth_alike(
            grow(d, gh, p, a, rows, leaves),
            grow(d, gh, q, b, rows, leaves),
            p.learning_rate,
            q.learning_rate,
        ),
    decreases p.max_leaves - leaves,
{
    if leaves < p.max_leaves && a.active.len() > 0 {
        let k = chosen(a.active, p.leaf_wise, a.active.len());
        lemma_chosen(a.active, p.leaf_wise, a.active.len());
        let leaf = next_leaf(a, p);
        assert(leaf.node < a.nodes.len());
        let left = lefts(d, leaf.split, leaf_rows(leaf, rows));
        let right = rights(d, leaf.split, leaf_rows(leaf, rows));
        let (hl, hr) = side_histograms(d.feature_bundles@, gh, leaf, left, right, leaves, p);
        let a0 = Growth { active: a.active.update(k, a.active.last()).drop_last(), ..a };
        let b0 = Growth { active: b.active.update(k, b.active.last()).drop_last(), ..b };
        assert forall|i: int| 0 <= i < a0.active.len() implies (#[trigger] a0.active[i]).node < a0.nodes.len() by {
            let j = if i == k { a.active.len() - 1 } else { i };
            assert(a0.active[i] == a.active[j]);
        }
        lemma_leaf_rate(a0, b0, hl, leaf.split.left, leaf.start, left.len(), leaf.depth + 1, p, q);
        let a1 = a0.with_leaf(hl, leaf.split.left, leaf.start, left.len(), leaf.depth + 1, p);
        let b1 = b0.with_leaf(hl, leaf.split.left, leaf.start, left.len(), leaf.depth + 1, q);
        let right_start = leaf.start + left.len();
        lemma_leaf_rate(a1, b1, hr, leaf.split.right, right_start, right.len(), leaf.depth + 1, p, q);
        let a2 = a1.with_leaf(hr, leaf.split.right, right_start, right.len(), leaf.depth + 1, p);
        let b2 = b1.with_leaf(hr, leaf.split.right, right_start, right.len(), leaf.depth + 1, q);
        let x = split_leaf(d, gh, p, a, rows, leaves);
        let y = split_leaf(d, gh, q, b, rows, leaves);
        assert(x.active == a2.active && y.active == b2.active);
        assert forall|i: int| 0 <= i < x.nodes.len() implies {
            ||| (#[trigger] x.nodes[i]) is Internal && x.nodes[i] == y.nodes[i]
            ||| x.nodes[i] is Leaf && y.nodes[i] is Leaf && same_step(
                x.nodes[i]->value,
                y.nodes[i]->value,
                p.learning_rate,
                q.learning_rate,
            )
        } by {
            if i != leaf.node {
                assert(x.nodes[i] == a2.nodes[i]);
                assert(y.nodes[i] == b2.nodes[i]);
            }
        }
        lemma_grow_rate(d, gh, p, q, x, y, rearranged(d, leaf, rows), leaves + 1);
    }
}

/// The learning rate does not change the splits of a tree, and scales every leaf: under two rates
/// each leaf has the same step, times the one rate and times the other.
pub proof fn law_learning_rate_scales_every_leaf(
    d: &Dataset,
    gh: Seq<[Single; 2]>,
    p: BoosterParameters,
    q: BoosterParameters,
)
    requires
        p.same_but_rate(q),
    ensures
        alike(grown(d, gh, p), grown(d, gh, q), p.learning_rate, q.learning_rate),
{
    let rows = all_rows(d.num_rows as nat);
    let nothing = Growth { nodes: Seq::empty(), active: Seq::empty(), finished: Seq::empty() };
    let h = histograms_of(d.feature_bundles@, gh, rows);
    lemma_leaf_rate(nothing, nothing, Some(h), sums(gh, gh.len()), 0, d.num_rows as nat, 0, p, q);
    lemma_grow_rate(d, gh, p, q, root(d, gh, p), root(d, gh, q), rows, 1);
}

// ---------------------------------------------------------------------------------------
// The ways of rows
// ---------------------------------------------------------------------------------------

/// A row that is at node `q` goes on to node `c`.
pub open spec fn leads(nodes: Seq<NodeView>, bins: Seq<u8>, sentinels: Seq<u8>, q: int, c: int) -> bool {
    0 <= q < nodes.len() && match nodes[q] {
        NodeView::Leaf { .. } => false,
        NodeView::Internal { left, right, feature, rule } => c == if rule.goes_left(
            bins[feature as int],
            sentinels[feature as int],
        ) {
            left
        } else {
            right
        },
    }
}

/// A row comes by node `c` on its way from the root.
pub open spec fn passes(nodes: Seq<NodeView>, bins: Seq<u8>, sentinels: Seq<u8>, c: int) -> bool
    decreases c,
{
    c == 0 || exists|q: int|
        0 <= q < c && #[trigger] leads(nodes, bins, sentinels, q, c) && passes(nodes, bins, sentinels, q)
}

/// The rows of the data that come by a node.
pub open spec fn node_rows(d: &Dataset, nodes: Seq<NodeView>, c: int) -> Set<int> {
    Set::new(|r: int| 0 <= r < d.num_rows && passes(nodes, d.row_bins(r), d.sentinels(), c))
}

proof fn lemma_walk(nodes: Seq<NodeView>, bins: Seq<u8>, sentinels: Seq<u8>, at: nat, steps: nat)
    requires
        forall|i: int|
            0 <= i < nodes.len() ==> (#[trigger] nodes[i] matches NodeView::Internal { left, right, .. } ==> i < left && i
                < right),
        passes(nodes, bins, sentinels, at as int),
    ensures
        leaf_from(nodes, bins, sentinels, at, steps) matches Some(c) ==> passes(nodes, bins, sentinels, c as int),
    decreases steps,
{
    if at < nodes.len() && steps > 0 {
        if let NodeView::Internal { left, right, feature, rule } = nodes[at as int] {
            let next = if rule.goes_left(bins[feature as int], sentinels[feature as int]) { left } else { right };
            assert(leads(nodes, bins, sentinels, at as int, next as int));
            lemma_walk(nodes, bins, sentinels, next, (steps - 1) as nat);
        }
    }
}

/// More steps lead no further than a leaf.
proof fn lemma_more_steps(nodes: Seq<NodeView>, bins: Seq<u8>, sentinels: Seq<u8>, at: nat, steps: nat, more: nat)
    requires
        leaf_from(nodes, bins, sentinels, at, steps) is Some,
        more >= steps,
    ensures
        leaf_from(nodes, bins, sentinels, at, more) == leaf_from(nodes, bins, sentinels, at, steps),
    decreases steps,
{
    if let NodeView::Internal { left, right, feature, rule } = nodes[at as int] {
        let next = if rule.goes_left(bins[feature as int], sentinels[feature as int]) { left } else { right };
        lemma_more_steps(nodes, bins, sentinels, next, (steps - 1) as nat, (more - 1) as nat);
    }
}

/// From every node that a row comes by, it goes on to the leaf that it reaches.
proof fn lemma_passes_leaf(
    nodes: Seq<NodeView>,
    num_bins: Seq<nat>,
    categorical: Seq<bool>,
    bins: Seq<u8>,
    sentinels: Seq<u8>,
    c: int,
)
    requires
        tree_wf(nodes, num_bins, categorical),
        bins_fit(bins, num_bins),
        sentinels.len() >= bins.len(),
        0 <= c < nodes.len(),
        passes(nodes, bins, sentinels, c),
    ensures
        leaf_from(nodes, bins, sentinels, c as nat, (nodes.len() - c) as nat) == leaf_of(nodes, bins, sentinels),
    decreases c,
{
    let n = nodes.len();
    if c > 0 {
        let q = choose|q: int|
            0 <= q < c && #[trigger] leads(nodes, bins, sentinels, q, c) && passes(nodes, bins, sentinels, q);
        lemma_passes_leaf(nodes, num_bins, categorical, bins, sentinels, q);
        lemma_leaf_from_reached(nodes, num_bins, categorical, bins, sentinels, q as nat, (n - q) as nat);
        lemma_leaf_from_reached(nodes, num_bins, categorical, bins, sentinels, c as nat, (n - c) as nat);
        lemma_more_steps(nodes, bins, sentinels, c as nat, (n - c) as nat, (n - q - 1) as nat);
    }
}

/// The rows that come by a leaf are those that reach it.
pub proof fn law_rows_of_a_leaf_reach_it(
    nodes: Seq<NodeView>,
    num_bins: Seq<nat>,
    categorical: Seq<bool>,
    bins: Seq<u8>,
    sentinels: Seq<u8>,
    c: int,
)
    requires
        tree_wf(nodes, num_bins, categorical),
        bins_fit(bins, num_bins),
        sentinels.len() >= bins.len(),
        0 <= c < nodes.len(),
        nodes[c] is Leaf,
    ensures
        passes(nodes, bins, sentinels, c) <==> leaf_of(nodes, bins, sentinels) == Some(c as nat),
{
    if passes(nodes, bins, sentinels, c) {
        lemma_passes_leaf(nodes, num_bins, categorical, bins, sentinels, c);
    }
    lemma_walk(nodes, bins, sentinels, 0, nodes.len());
}

/// What a split of a leaf does to the nodes.
spec fn parted(before: Seq<NodeView>, after: Seq<NodeView>, leaf: int, split: Split) -> bool {
    &&& 0 <= leaf < before.len()
    &&& before[leaf] is Leaf
    &&& after.len() == before.len() + 2
    &&& forall|i: int| 0 <= i < before.len() && i != leaf ==> #[trigger] after[i] == before[i]
    &&& after[before.len() as int] is Leaf
    &&& after[(before.len() + 1) as int] is Leaf
    &&& after[leaf] == (NodeView::Internal {
        left: before.len(),
        right: before.len() + 1,
        feature: split.feature,
        rule: split.rule,
    })
}

proof fn lemma_passes_old(
    before: Seq<NodeView>,
    after: Seq<NodeView>,
    leaf: int,
    split: Split,
    bins: Seq<u8>,
    sentinels: Seq<u8>,
    c: int,
)
    requires
        parted(before, after, leaf, split),
        0 <= c < before.len(),
    ensures
        passes(after, bins, sentinels, c) == passes(before, bins, sentinels, c),
    decreases c,
{
    assert forall|q: int| 0 <= q < c implies leads(after, bins, sentinels, q, c) == leads(before, bins, sentinels, q, c)
        && passes(after, bins, sentinels, q) == passes(before, bins, sentinels, q) by {
        lemma_passes_old(before, after, leaf, split, bins, sentinels, q);
        if q != leaf {
            assert(after[q] == before[q]);
        }
    }
    if passes(before, bins, sentinels, c) && c > 0 {
        let q = choose|q: int|
            0 <= q < c && #[trigger] leads(before, bins, sentinels, q, c) && passes(before, bins, sentinels, q);
        assert(leads(after, bins, sentinels, q, c));
    }
    if passes(after, bins, sentinels, c) && c > 0 {
        let q = choose|q: int|
            0 <= q < c && #[trigger] leads(after, bins, sentinels, q, c) && passes(after, bins, sentinels, q);
        assert(leads(before, bins, sentinels, q, c));
    }
}

proof fn lemma_passes_new(
    before: Seq<NodeView>,
    after: Seq<NodeView>,
    num_bins: Seq<nat>,
    categorical: Seq<bool>,
    leaf: int,
    split: Split,
    bins: Seq<u8>,
    sentinels: Seq<u8>,
    left: bool,
)
    requires
        tree_wf(before, num_bins, categorical),
        parted(before, after, leaf, split),
    ensures
        passes(after, bins, sentinels, before.len() + if left { 0int } else { 1 }) <==> passes(
            before,
            bins,
            sentinels,
            leaf,
        ) && split.rule.goes_left(bins[split.feature as int], sentinels[split.feature as int]) == left,
{
    let n = before.len() as int;
    let c = n + if left { 0int } else { 1 };
    lemma_passes_old(before, after, leaf, split, bins, sentinels, leaf);
    if passes(after, bins, sentinels, c) {
        let q = choose|q: int|
            0 <= q < c && #[trigger] leads(after, bins, sentinels, q, c) && passes(after, bins, sentinels, q);
        if q < n && q != leaf {
            assert(after[q] == before[q]);
        }
        assert(q == leaf);
    }
    if passes(before, bins, sentinels, leaf) && split.rule.goes_left(
        bins[split.feature as int],
        sentinels[split.feature as int],
    ) == left {
        assert(leads(after, bins, sentinels, leaf, c));
    }
}

/// The rows of the nodes after a split.
proof fn lemma_rows_parted(d: &Dataset, before: Seq<NodeView>, after: Seq<NodeView>, leaf: int, split: Split)
    requires
        tree_wf(before, d.bin_counts(), d.kinds()),
        parted(before, after, leaf, split),
        split.feature < d.feature_binners@.len(),
    ensures
        forall|c: int| 0 <= c < before.len() ==> #[trigger] node_rows(d, after, c) == node_rows(d, before, c),
        node_rows(d, after, before.len() as int) == rows_sent(d, node_rows(d, before, leaf), split, true),
        node_rows(d, after, (before.len() + 1) as int) == rows_sent(d, node_rows(d, before, leaf), split, false),
{
    let n = before.len() as int;
    assert forall|c: int| 0 <= c < n implies #[trigger] node_rows(d, after, c) == node_rows(d, before, c) by {
        assert forall|r: int| node_rows(d, after, c).contains(r) <==> node_rows(d, before, c).contains(r) by {
            lemma_passes_old(before, after, leaf, split, d.row_bins(r), d.sentinels(), c);
        }
        assert(node_rows(d, after, c) =~= node_rows(d, before, c));
    }
    let own = node_rows(d, before, leaf);
    assert forall|r: int| node_rows(d, after, n).contains(r) <==> rows_sent(d, own, split, true).contains(r) by {
        lemma_passes_new(before, after, d.bin_counts(), d.kinds(), leaf, split, d.row_bins(r), d.sentinels(), true);
    }
    assert(node_rows(d, after, n) =~= rows_sent(d, own, split, true));
    assert forall|r: int| node_rows(d, after, n + 1).contains(r) <==> rows_sent(d, own, split, false).contains(r) by {
        lemma_passes_new(before, after, d.bin_counts(), d.kinds(), leaf, split, d.row_bins(r), d.sentinels(), false);
    }
    assert(node_rows(d, after, n + 1) =~= rows_sent(d, own, split, false));
}

proof fn lemma_depths_kept(before: Seq<NodeView>, after: Seq<NodeView>, leaf: int, split: Split, c: int, k: nat)
    requires
        parted(before, after, leaf, split),
        at_depth(before, c, k),
    ensures
        at_depth(after, c, k),
    decreases k,
{
    if k > 0 {
        let q = choose|q: int| #[trigger] is_child(before, q, c) && at_depth(before, q, (k - 1) as nat);
        lemma_depths_kept(before, after, leaf, split, q, (k - 1) as nat);
        assert(after[q] == before[q]);
        assert(is_child(after, q, c));
    }
}

// ---------------------------------------------------------------------------------------
// True growth
// ---------------------------------------------------------------------------------------

/// Settings under which a split parts the rows of a leaf in two: the regularisation is not
/// negative, and no loss is asked for.
pub open spec fn sane(p: BoosterParameters) -> bool {
    &&& p.lambda_l1.finite() && 0 <= p.lambda_l1.value()
    &&& p.lambda_l2.finite() && 0 <= p.lambda_l2.value()
    &&& !p.min_gain_to_split.nan() && Double::zero_spec().le_spec(p.min_gain_to_split)
}

/// The score of rows.
pub open spec fn rows_score(gh: Seq<[Single; 2]>, u: Units, rows: Set<int>, p: BoosterParameters) -> Double {
    bin_score(rows_sum(gh, u, rows), p)
}

/// No score of rows that have some hessian is out of bounds.
pub open spec fn scores_are_finite(gh: Seq<[Single; 2]>, u: Units, p: BoosterParameters) -> bool {
    forall|rows: Set<int>|
        #![trigger rows_score(gh, u, rows, p)]
        picked(hessian_units(gh, u), rows) > 0 ==> rows_score(gh, u, rows, p).finite()
}

/// What holds of data, gradients and settings where growing a tree rounds no sum.
pub open spec fn exact_data(d: &Dataset, gh: Seq<[Single; 2]>, u: Units, p: BoosterParameters) -> bool {
    &&& d.wf()
    &&& d.num_rows <= u32::MAX
    &&& gh.len() == d.num_rows
    &&& counted_rows(gh, u)
    &&& picked(hessian_units(gh, u), rows_of(d)) > 0
    &&& sane(p)
    &&& scores_are_finite(gh, u, p)
}

/// The split of rows in a leaf of the given depth, if they are to be split at all.
pub open spec fn rows_split(
    d: &Dataset,
    gh: Seq<[Single; 2]>,
    u: Units,
    rows: Set<int>,
    depth: nat,
    p: BoosterParameters,
) -> Option<Split> {
    let k = rows_histograms(d, gh, rows);
    let all = rows_sum(gh, u, rows);
    if depth < p.max_depth && p.min_sum_hessian_in_leaf.times_spec(Double::two_spec()).le_spec(all.sum_hessians) {
        best_split(k, k.is_categorical.len(), all, bin_score(all, p), p)
    } else {
        None
    }
}

/// The value of a leaf with the given rows.
pub open spec fn rows_value(gh: Seq<[Single; 2]>, u: Units, rows: Set<int>, p: BoosterParameters) -> Double {
    let all = rows_sum(gh, u, rows);
    value_of(all.sum_gradients, all.sum_hessians, p.lambda_l1, p.lambda_l2).times_spec(p.learning_rate)
}

/// A node has the split of its rows.
pub open spec fn carries(
    d: &Dataset,
    gh: Seq<[Single; 2]>,
    u: Units,
    nodes: Seq<NodeView>,
    i: int,
    p: BoosterParameters,
) -> bool {
    exists|depth: nat|
        #[trigger] at_depth(nodes, i, depth) && (rows_split(d, gh, u, node_rows(d, nodes, i), depth, p) matches Some(s)
            && s.feature == nodes[i]->feature && s.rule == nodes[i]->rule)
}

/// There is no split for the rows of a node.
pub open spec fn done(
    d: &Dataset,
    gh: Seq<[Single; 2]>,
    u: Units,
    nodes: Seq<NodeView>,
    i: int,
    p: BoosterParameters,
) -> bool {
    exists|depth: nat|
        #[trigger] at_depth(nodes, i, depth) && rows_split(d, gh, u, node_rows(d, nodes, i), depth, p) is None
}

/// An open leaf holds the sums of its rows, and their split.
spec fn true_leaf(d: &Dataset, gh: Seq<[Single; 2]>, u: Units, nodes: Seq<NodeView>, a: OpenLeaf, p: BoosterParameters) -> bool {
    let rows = node_rows(d, nodes, a.node as int);
    &&& at_depth(nodes, a.node as int, a.depth)
    &&& laid_out(d, a.histograms)
    &&& sums_up(d, gh, u, rows, a.histograms)
    &&& rows_split(d, gh, u, rows, a.depth, p) == Some(a.split)
}

/// A node is that of an open leaf.
spec fn is_open(g: Growth, i: int) -> bool {
    exists|k: int| 0 <= k < g.active.len() && (#[trigger] g.active[k]).node == i
}

/// A node is what its rows make it.
spec fn true_node(d: &Dataset, gh: Seq<[Single; 2]>, u: Units, g: Growth, i: int, leaves: nat, p: BoosterParameters) -> bool {
    let rows = node_rows(d, g.nodes, i);
    &&& picked(hessian_units(gh, u), rows) > 0
    &&& match g.nodes[i] {
        NodeView::Leaf { value } => value == rows_value(gh, u, rows, p) && (is_open(g, i) || leaves >= p.max_leaves
            || done(d, gh, u, g.nodes, i, p)),
        NodeView::Internal { .. } => carries(d, gh, u, g.nodes, i, p),
    }
}

spec fn true_growth(d: &Dataset, gh: Seq<[Single; 2]>, u: Units, g: Growth, leaves: nat, p: BoosterParameters) -> bool {
    &&& forall|i: int| 0 <= i < g.nodes.len() ==> #[trigger] true_node(d, gh, u, g, i, leaves, p)
    &&& forall|k: int| 0 <= k < g.active.len() ==> true_leaf(d, gh, u, g.nodes, #[trigger] g.active[k], p)
}

proof fn lemma_node_rows_subset(d: &Dataset, nodes: Seq<NodeView>, c: int)
    ensures
        node_rows(d, nodes, c).subset_of(rows_of(d)),
{
}

/// The sides of the split of rows.
proof fn lemma_rows_split_sides(
    d: &Dataset,
    gh: Seq<[Single; 2]>,
    u: Units,
    rows: Set<int>,
    depth: nat,
    p: BoosterParameters,
)
    requires
        exact_data(d, gh, u, p),
        rows.subset_of(rows_of(d)),
        picked(hessian_units(gh, u), rows) > 0,
    ensures
        rows_split(d, gh, u, rows, depth, p) matches Some(s) ==> {
            &&& s.feature < d.feature_binners@.len()
            &&& s.left == rows_sum(gh, u, rows_sent(d, rows, s, true))
            &&& s.right == rows_sum(gh, u, rows_sent(d, rows, s, false))
            &&& picked(hessian_units(gh, u), rows_sent(d, rows, s, true)) > 0
            &&& picked(hessian_units(gh, u), rows_sent(d, rows, s, false)) > 0
        },
{
    if let Some(s) = rows_split(d, gh, u, rows, depth, p) {
        let all = rows_sum(gh, u, rows);
        let k = rows_histograms(d, gh, rows);
        let x = gradient_units(gh, u);
        let y = hessian_units(gh, u);
        lemma_rows_histograms(d, gh, u, rows);
        assert(rows_score(gh, u, rows, p).finite());
        let parent = bin_score(all, p);
        law_split_parts_the_rows(d, gh, u, rows, k, parent, p);
        law_split_gains_enough(k, d.feature_binners@.len(), all, parent, p);
        let f = s.feature as int;
        lemma_counted_bins(d, gh, u, rows, f);
        lemma_whole_rows(d, x, rows, f);
        lemma_whole_rows(d, y, rows, f);
        assert(k.feature(f) == feature_bins(d, gh, u, rows, f));
        let g = by_bin(d, x, rows, f);
        let h = by_bin(d, y, rows, f);
        law_numeric_split_parts_the_bins(g, h, u, parent, p);
        law_categorical_split_parts_the_bins(g, h, u, parent, p);
        law_both_sides_hold_rows(g, h, u, p, s);
        lemma_sent_rows(d, y, rows, s, true);
        lemma_sent_rows(d, y, rows, s, false);
    }
}

/// The split of a leaf with the given histograms is that of its rows.
proof fn lemma_leaf_split_of_rows(
    d: &Dataset,
    gh: Seq<[Single; 2]>,
    u: Units,
    rows: Set<int>,
    h: HistogramsView,
    depth: nat,
    p: BoosterParameters,
)
    requires
        exact_data(d, gh, u, p),
        rows.subset_of(rows_of(d)),
        laid_out(d, h),
        sums_up(d, gh, u, rows, h),
    ensures
        leaf_split(Some(h), rows_sum(gh, u, rows), depth, p) == rows_split(d, gh, u, rows, depth, p),
{
    let all = rows_sum(gh, u, rows);
    lemma_best_split_of_rows(d, gh, u, rows, h, all, bin_score(all, p), p);
}

/// The rows of a leaf's segment are those that come by its node.
proof fn lemma_segment_rows(
    d: &Dataset,
    p: BoosterParameters,
    g: Growth,
    rows: Seq<u32>,
    owner: Seq<nat>,
    leaves: nat,
    k: int,
)
    requires
        sound(d, p, g, rows, owner, leaves),
        d.wf(),
        d.num_rows <= u32::MAX,
        0 <= k < g.active.len(),
    ensures
        listed(leaf_rows(g.active[k], rows)) == node_rows(d, g.nodes, g.active[k].node as int),
        leaf_rows(g.active[k], rows).no_duplicates(),
        forall|i: int|
            0 <= i < leaf_rows(g.active[k], rows).len() ==> (#[trigger] leaf_rows(g.active[k], rows)[i]) < d.num_rows,
{
    lemma_sound_facts(d, p, g, rows, owner, leaves);
    lemma_sound_segments(d, p, g, rows, owner, leaves);
    let a = g.active[k];
    let list = leaf_rows(a, rows);
    let own = node_rows(d, g.nodes, a.node as int);
    assert forall|i: int, j: int| 0 <= i < list.len() && 0 <= j < list.len() && i != j implies list[i] != list[j] by {
        assert(rows[a.start + i] != rows[a.start + j]);
    }
    assert forall|r: int| listed(list).contains(r) <==> own.contains(r) by {
        if listed(list).contains(r) {
            let i = choose|i: int| 0 <= i < list.len() && list[i] == r as u32;
            let j = a.start + i;
            assert(rows[j] == r as u32);
            assert(owner[j] == a.node);
            assert(d.leaf_of_row(g.nodes, rows[j] as int) == Some(owner[j]));
            lemma_row_bins_fit(d, r);
            law_rows_of_a_leaf_reach_it(
                g.nodes,
                d.bin_counts(),
                d.kinds(),
                d.row_bins(r),
                d.sentinels(),
                a.node as int,
            );
        }
        if own.contains(r) {
            lemma_row_bins_fit(d, r);
            law_rows_of_a_leaf_reach_it(
                g.nodes,
                d.bin_counts(),
                d.kinds(),
                d.row_bins(r),
                d.sentinels(),
                a.node as int,
            );
            assert(rows.contains(r as u32));
            let j = choose|j: int| 0 <= j < rows.len() && rows[j] == r as u32;
            assert(d.leaf_of_row(g.nodes, rows[j] as int) == Some(owner[j]));
            assert(a.start <= j < a.start + a.len);
            assert(list[j - a.start] == r as u32);
        }
    }
    assert(listed(list) =~= own);
}

/// The rows of a list that a split sends left, or right.
proof fn lemma_listed_sides(d: &Dataset, split: Split, list: Seq<u32>)
    requires
        list.no_duplicates(),
    ensures
        listed(lefts(d, split, list)) == rows_sent(d, listed(list), split, true),
        listed(rights(d, split, list)) == rows_sent(d, listed(list), split, false),
        lefts(d, split, list).no_duplicates(),
        rights(d, split, list).no_duplicates(),
        forall|i: int| 0 <= i < lefts(d, split, list).len() ==> list.contains(#[trigger] lefts(d, split, list)[i]),
        forall|i: int| 0 <= i < rights(d, split, list).len() ==> list.contains(#[trigger] rights(d, split, list)[i]),
{
    lemma_listed_filter(list, |row: u32| sent_left(d, split, row));
    lemma_listed_filter(list, |row: u32| !sent_left(d, split, row));
    assert(listed(lefts(d, split, list)) =~= rows_sent(d, listed(list), split, true));
    assert(listed(rights(d, split, list)) =~= rows_sent(d, listed(list), split, false));
}

proof fn lemma_listed_filter(list: Seq<u32>, keep: spec_fn(u32) -> bool)
    requires
        list.no_duplicates(),
    ensures
        list.filter(keep).no_duplicates(),
        forall|r: int|
            #[trigger] listed(list.filter(keep)).contains(r) <==> listed(list).contains(r) && keep(r as u32),
        forall|i: int| 0 <= i < list.filter(keep).len() ==> list.contains(#[trigger] list.filter(keep)[i]),
{
    let some = list.filter(keep);
    lemma_filter_no_duplicates(list, keep);
    assert forall|r: int| #[trigger] listed(some).contains(r) <==> listed(list).contains(r) && keep(r as u32) by {
        if listed(some).contains(r) {
            list.lemma_filter_contains_rev(keep, r as u32);
            let i = choose|i: int| 0 <= i < some.len() && some[i] == r as u32;
            list.lemma_filter_pred(keep, i);
        }
        if listed(list).contains(r) && keep(r as u32) {
            let i = choose|i: int| 0 <= i < list.len() && list[i] == r as u32;
            list.lemma_filter_contains(keep, i);
        }
    }
    assert forall|i: int| 0 <= i < some.len() implies list.contains(#[trigger] some[i]) by {
        assert(some.contains(some[i]));
        list.lemma_filter_contains_rev(keep, some[i]);
    }
}

/// The histograms of the sides of an open leaf hold the sums of the rows sent there.
proof fn lemma_true_sides(
    d: &Dataset,
    gh: Seq<[Single; 2]>,
    u: Units,
    p: BoosterParameters,
    leaf: OpenLeaf,
    list: Seq<u32>,
    rows: Set<int>,
    leaves: nat,
)
    requires
        exact_data(d, gh, u, p),
        list.no_duplicates(),
        forall|i: int| 0 <= i < list.len() ==> (#[trigger] list[i]) < d.num_rows,
        listed(list) == rows,
        laid_out(d, leaf.histograms),
        sums_up(d, gh, u, rows, leaf.histograms),
    ensures
        ({
            let left = lefts(d, leaf.split, list);
            let right = rights(d, leaf.split, list);
            let (hl, hr) = side_histograms(d.feature_bundles@, gh, leaf, left, right, leaves, p);
            if both_terminal(leaf, leaves, p) {
                hl is None && hr is None
            } else {
                &&& hl matches Some(h) && laid_out(d, h) && sums_up(d, gh, u, rows_sent(d, rows, leaf.split, true), h)
                &&& hr matches Some(h) && laid_out(d, h) && sums_up(d, gh, u, rows_sent(d, rows, leaf.split, false), h)
            }
        }),
{
    let left = lefts(d, leaf.split, list);
    let right = rights(d, leaf.split, list);
    let rl = rows_sent(d, rows, leaf.split, true);
    let rr = rows_sent(d, rows, leaf.split, false);
    lemma_listed_sides(d, leaf.split, list);
    assert forall|i: int| 0 <= i < left.len() implies (#[trigger] left[i]) < d.num_rows by {
        assert(list.contains(left[i]));
    }
    assert forall|i: int| 0 <= i < right.len() implies (#[trigger] right[i]) < d.num_rows by {
        assert(list.contains(right[i]));
    }
    law_histograms_hold_the_sums(d, gh, u, left);
    law_histograms_hold_the_sums(d, gh, u, right);
    let kl = histograms_of(d.feature_bundles@, gathered(gh, left), left);
    let kr = histograms_of(d.feature_bundles@, gathered(gh, right), right);
    law_other_rows_are_left(d, gh, u, rows, rl, rr, leaf.histograms, kl);
    law_other_rows_are_left(d, gh, u, rows, rr, rl, leaf.histograms, kr);
}

/// What a step of the growth does to nodes and open leaves.
spec fn stepped(
    g: Growth,
    g2: Growth,
    k: int,
    hl: Option<HistogramsView>,
    hr: Option<HistogramsView>,
    p: BoosterParameters,
) -> bool {
    let leaf = g.active[k];
    let n = g.nodes.len() as int;
    &&& parted(g.nodes, g2.nodes, leaf.node as int, leaf.split)
    &&& g2.nodes[n]->value == leaf_value(leaf.split.left, p)
    &&& g2.nodes[n + 1]->value == leaf_value(leaf.split.right, p)
    &&& forall|i: int|
        0 <= i < g2.active.len() ==> {
            ||| was_open(g, k, #[trigger] g2.active[i])
            ||| new_open(g2.active[i], n, leaf, hl, leaf.split.left, p)
            ||| new_open(g2.active[i], n + 1, leaf, hr, leaf.split.right, p)
        }
    &&& forall|j: int| 0 <= j < g.active.len() && j != k ==> is_open(g2, (#[trigger] g.active[j]).node as int)
    &&& leaf_split(hl, leaf.split.left, leaf.depth + 1, p) is Some ==> is_open(g2, n)
    &&& leaf_split(hr, leaf.split.right, leaf.depth + 1, p) is Some ==> is_open(g2, n + 1)
}

spec fn leaf_value(all: HistogramBin, p: BoosterParameters) -> Double {
    value_of(all.sum_gradients, all.sum_hessians, p.lambda_l1, p.lambda_l2).times_spec(p.learning_rate)
}

/// An open leaf that was there before, and is not the one that was split.
spec fn was_open(g: Growth, k: int, a: OpenLeaf) -> bool {
    exists|j: int| 0 <= j < g.active.len() && j != k && a == #[trigger] g.active[j]
}

/// A leaf that has been opened.
spec fn new_open(
    a: OpenLeaf,
    node: int,
    leaf: OpenLeaf,
    histograms: Option<HistogramsView>,
    all: HistogramBin,
    p: BoosterParameters,
) -> bool {
    &&& a.node == node
    &&& a.depth == leaf.depth + 1
    &&& histograms == Some(a.histograms)
    &&& leaf_split(histograms, all, leaf.depth + 1, p) == Some(a.split)
}

proof fn lemma_stepped(d: &Dataset, gh: Seq<[Single; 2]>, p: BoosterParameters, g: Growth, rows: Seq<u32>, leaves: nat)
    requires
        g.active.len() > 0,
        ({
            let leaf = next_leaf(g, p);
            leaf.node < g.nodes.len() && g.nodes[leaf.node as int] is Leaf
        }),
    ensures
        ({
            let leaf = next_leaf(g, p);
            let left = lefts(d, leaf.split, leaf_rows(leaf, rows));
            let right = rights(d, leaf.split, leaf_rows(leaf, rows));
            let (hl, hr) = side_histograms(d.feature_bundles@, gh, leaf, left, right, leaves, p);
            let k = chosen(g.active, p.leaf_wise, g.active.len());
            0 <= k < g.active.len() && stepped(g, split_leaf(d, gh, p, g, rows, leaves), k, hl, hr, p)
        }),
{
    let k = chosen(g.active, p.leaf_wise, g.active.len());
    lemma_chosen(g.active, p.leaf_wise, g.active.len());
    let leaf = g.active[k];
    let n = g.nodes.len() as int;
    let list = leaf_rows(leaf, rows);
    let left = lefts(d, leaf.split, list);
    let right = rights(d, leaf.split, list);
    let (hl, hr) = side_histograms(d.feature_bundles@, gh, leaf, left, right, leaves, p);
    let depth = leaf.depth + 1;
    let rest = Growth { active: g.active.update(k, g.active.last()).drop_last(), ..g };
    let one = rest.with_leaf(hl, leaf.split.left, leaf.start, left.len(), depth, p);
    let both = one.with_leaf(hr, leaf.split.right, leaf.start + left.len(), right.len(), depth, p);
    let g2 = split_leaf(d, gh, p, g, rows, leaves);
    assert(g2.active == both.active);
    assert(g2.nodes[n] == one.nodes[n]);
    assert forall|i: int| 0 <= i < g2.active.len() implies {
        ||| was_open(g, k, #[trigger] g2.active[i])
        ||| new_open(g2.active[i], n, leaf, hl, leaf.split.left, p)
        ||| new_open(g2.active[i], n + 1, leaf, hr, leaf.split.right, p)
    } by {
        let a = g2.active[i];
        if i >= one.active.len() {
            assert(new_open(a, n + 1, leaf, hr, leaf.split.right, p));
        } else if i >= rest.active.len() {
            assert(a == one.active[i]);
            assert(new_open(a, n, leaf, hl, leaf.split.left, p));
        } else {
            assert(a == rest.active[i]);
            let j = if i == k { g.active.len() - 1 } else { i };
            assert(a == g.active[j]);
            assert(was_open(g, k, a));
        }
    }
    assert forall|j: int| 0 <= j < g.active.len() && j != k implies is_open(g2, (#[trigger] g.active[j]).node as int) by {
        let m = if j == g.active.len() - 1 { k } else { j };
        assert(rest.active[m] == g.active[j]);
        assert(one.active[m] == rest.active[m]);
        assert(g2.active[m].node == g.active[j].node);
    }
    if leaf_split(hl, leaf.split.left, depth, p) is Some {
        let m = rest.active.len() as int;
        assert(one.active[m].node == n);
        assert(g2.active[m].node == n);
    }
    if leaf_split(hr, leaf.split.right, depth, p) is Some {
        let m = one.active.len() as int;
        assert(g2.active[m].node == n + 1);
    }
}

/// One leaf is split: the nodes are what their rows make them, before and after.
proof fn lemma_true_split(
    d: &Dataset,
    gh: Seq<[Single; 2]>,
    u: Units,
    p: BoosterParameters,
    g: Growth,
    rows: Seq<u32>,
    owner: Seq<nat>,
    leaves: nat,
)
    requires
        exact_data(d, gh, u, p),
        sound(d, p, g, rows, owner, leaves),
        true_growth(d, gh, u, g, leaves, p),
        leaves < p.max_leaves,
        g.active.len() > 0,
    ensures
        true_growth(d, gh, u, split_leaf(d, gh, p, g, rows, leaves), leaves + 1, p),
{
    let k = chosen(g.active, p.leaf_wise, g.active.len());
    lemma_chosen(g.active, p.leaf_wise, g.active.len());
    lemma_sound_facts(d, p, g, rows, owner, leaves);
    lemma_sound_segments(d, p, g, rows, owner, leaves);
    lemma_segment_rows(d, p, g, rows, owner, leaves, k);
    let leaf = g.active[k];
    let list = leaf_rows(leaf, rows);
    assert(true_leaf(d, gh, u, g.nodes, leaf, p));
    lemma_true_sides(d, gh, u, p, leaf, list, node_rows(d, g.nodes, leaf.node as int), leaves);
    let left = lefts(d, leaf.split, list);
    let right = rights(d, leaf.split, list);
    let (hl, hr) = side_histograms(d.feature_bundles@, gh, leaf, left, right, leaves, p);
    lemma_stepped(d, gh, p, g, rows, leaves);
    lemma_true_step(d, gh, u, p, g, split_leaf(d, gh, p, g, rows, leaves), leaves, k, hl, hr);
}

proof fn lemma_true_step(
    d: &Dataset,
    gh: Seq<[Single; 2]>,
    u: Units,
    p: BoosterParameters,
    g: Growth,
    g2: Growth,
    leaves: nat,
    k: int,
    hl: Option<HistogramsView>,
    hr: Option<HistogramsView>,
)
    requires
        exact_data(d, gh, u, p),
        tree_wf(g.nodes, d.bin_counts(), d.kinds()),
        true_growth(d, gh, u, g, leaves, p),
        leaves < p.max_leaves,
        0 <= k < g.active.len(),
        forall|i: int| 0 <= i < g.active.len() ==> (#[trigger] g.active[i]).node < g.nodes.len(),
        forall|i: int, j: int|
            0 <= i < j < g.active.len() ==> (#[trigger] g.active[i]).node != (#[trigger] g.active[j]).node,
        stepped(g, g2, k, hl, hr, p),
        ({
            let leaf = g.active[k];
            let own = node_rows(d, g.nodes, leaf.node as int);
            if both_terminal(leaf, leaves, p) {
                hl is None && hr is None
            } else {
                &&& hl matches Some(h) && laid_out(d, h) && sums_up(d, gh, u, rows_sent(d, own, leaf.split, true), h)
                &&& hr matches Some(h) && laid_out(d, h) && sums_up(d, gh, u, rows_sent(d, own, leaf.split, false), h)
            }
        }),
    ensures
        true_growth(d, gh, u, g2, leaves + 1, p),
{
    let leaf = g.active[k];
    let c = leaf.node as int;
    let n = g.nodes.len() as int;
    let own = node_rows(d, g.nodes, c);
    let nodes2 = g2.nodes;
    lemma_node_rows_subset(d, g.nodes, c);
    assert(true_leaf(d, gh, u, g.nodes, leaf, p));
    assert(true_node(d, gh, u, g, c, leaves, p));
    lemma_rows_split_sides(d, gh, u, own, leaf.depth, p);
    let rl = rows_sent(d, own, leaf.split, true);
    let rr = rows_sent(d, own, leaf.split, false);
    let depth = leaf.depth + 1;
    lemma_rows_parted(d, g.nodes, nodes2, c, leaf.split);
    lemma_new_leaf(d, gh, u, p, leaf, rl, hl, leaves, leaf.split.left);
    lemma_new_leaf(d, gh, u, p, leaf, rr, hr, leaves, leaf.split.right);
    lemma_depths_kept(g.nodes, nodes2, c, leaf.split, c, leaf.depth);
    assert(is_child(nodes2, c, n));
    assert(is_child(nodes2, c, n + 1));
    assert(at_depth(nodes2, n, depth));
    assert(at_depth(nodes2, n + 1, depth));
    assert forall|i: int| 0 <= i < g2.active.len() implies true_leaf(d, gh, u, nodes2, #[trigger] g2.active[i], p) by {
        let a = g2.active[i];
        if was_open(g, k, a) {
            let j = choose|j: int| 0 <= j < g.active.len() && j != k && a == #[trigger] g.active[j];
            assert(true_leaf(d, gh, u, g.nodes, g.active[j], p));
            lemma_depths_kept(g.nodes, nodes2, c, leaf.split, a.node as int, a.depth);
            assert(node_rows(d, nodes2, a.node as int) == node_rows(d, g.nodes, a.node as int));
        }
    }
    assert forall|i: int| 0 <= i < nodes2.len() implies #[trigger] true_node(d, gh, u, g2, i, leaves + 1, p) by {
        if i == c {
            assert(node_rows(d, nodes2, c) == own);
            assert(carries(d, gh, u, nodes2, c, p));
        } else if i < n {
            lemma_true_node_kept(d, gh, u, p, g, g2, leaves, k, hl, hr, i);
        } else if i == n {
            assert(leaf_split(hl, leaf.split.left, depth, p) is Some || leaves + 1 >= p.max_leaves || done(
                d,
                gh,
                u,
                nodes2,
                n,
                p,
            ));
        } else {
            assert(i == n + 1);
            assert(leaf_split(hr, leaf.split.right, depth, p) is Some || leaves + 1 >= p.max_leaves || done(
                d,
                gh,
                u,
                nodes2,
                n + 1,
                p,
            ));
        }
    }
}

/// A node that a split does not touch stays what it is.
proof fn lemma_true_node_kept(
    d: &Dataset,
    gh: Seq<[Single; 2]>,
    u: Units,
    p: BoosterParameters,
    g: Growth,
    g2: Growth,
    leaves: nat,
    k: int,
    hl: Option<HistogramsView>,
    hr: Option<HistogramsView>,
    i: int,
)
    requires
        tree_wf(g.nodes, d.bin_counts(), d.kinds()),
        0 <= k < g.active.len(),
        stepped(g, g2, k, hl, hr, p),
        0 <= i < g.nodes.len(),
        i != g.active[k].node,
        node_rows(d, g2.nodes, i) == node_rows(d, g.nodes, i),
        true_node(d, gh, u, g, i, leaves, p),
    ensures
        true_node(d, gh, u, g2, i, leaves + 1, p),
{
    let c = g.active[k].node as int;
    let split = g.active[k].split;
    let nodes2 = g2.nodes;
    assert(nodes2[i] == g.nodes[i]);
    if g.nodes[i] is Internal {
        let m = choose|m: nat|
            #[trigger] at_depth(g.nodes, i, m) && (rows_split(d, gh, u, node_rows(d, g.nodes, i), m, p) matches Some(s)
                && s.feature == g.nodes[i]->feature && s.rule == g.nodes[i]->rule);
        lemma_depths_kept(g.nodes, nodes2, c, split, i, m);
        assert(at_depth(nodes2, i, m));
    } else if is_open(g, i) {
        let j = choose|j: int| 0 <= j < g.active.len() && (#[trigger] g.active[j]).node == i;
        assert(is_open(g2, g.active[j].node as int));
    } else if done(d, gh, u, g.nodes, i, p) {
        let m = choose|m: nat|
            #[trigger] at_depth(g.nodes, i, m) && rows_split(d, gh, u, node_rows(d, g.nodes, i), m, p) is None;
        lemma_depths_kept(g.nodes, nodes2, c, split, i, m);
        assert(at_depth(nodes2, i, m));
    }
}

/// A new leaf is open exactly if there is a split for its rows, unless the tree is full.
proof fn lemma_new_leaf(
    d: &Dataset,
    gh: Seq<[Single; 2]>,
    u: Units,
    p: BoosterParameters,
    leaf: OpenLeaf,
    rows: Set<int>,
    histograms: Option<HistogramsView>,
    leaves: nat,
    all: HistogramBin,
)
    requires
        exact_data(d, gh, u, p),
        rows.subset_of(rows_of(d)),
        all == rows_sum(gh, u, rows),
        all == leaf.split.left || all == leaf.split.right,
        if both_terminal(leaf, leaves, p) {
            histograms is None
        } else {
            histograms matches Some(h) && laid_out(d, h) && sums_up(d, gh, u, rows, h)
        },
    ensures
        ({
            let split = leaf_split(histograms, all, leaf.depth + 1, p);
            let wanted = rows_split(d, gh, u, rows, leaf.depth + 1, p);
            &&& split is Some ==> split == wanted && histograms is Some
            &&& split is None ==> wanted is None || leaves + 1 >= p.max_leaves
        }),
{
    if let Some(h) = histograms {
        lemma_leaf_split_of_rows(d, gh, u, rows, h, leaf.depth + 1, p);
    }
}

/// The root alone is what its rows make it.
proof fn lemma_true_root(d: &Dataset, gh: Seq<[Single; 2]>, u: Units, p: BoosterParameters)
    requires
        exact_data(d, gh, u, p),
    ensures
        true_growth(d, gh, u, root(d, gh, p), 1, p),
{
    let g = root(d, gh, p);
    let list = all_rows(d.num_rows as nat);
    let own = node_rows(d, g.nodes, 0);
    assert forall|i: int, j: int| 0 <= i < list.len() && 0 <= j < list.len() && i != j implies list[i] != list[j] by {}
    assert forall|r: int| own.contains(r) <==> listed(list).contains(r) by {
        if own.contains(r) {
            assert(list[r] == r as u32);
        }
        if listed(list).contains(r) {
            let i = choose|i: int| 0 <= i < list.len() && list[i] == r as u32;
        }
    }
    assert(own =~= listed(list));
    assert(own =~= rows_of(d));
    assert(gathered(gh, list) =~= gh);
    law_histograms_hold_the_sums(d, gh, u, list);
    lemma_all_sums(gh, u, gh.len());
    let x = gradient_units(gh, u);
    let y = hessian_units(gh, u);
    lemma_sum_same(x.len(), |r: int| if own.contains(r) { x[r] } else { 0 }, |r: int| x[r]);
    lemma_sum_same(y.len(), |r: int| if own.contains(r) { y[r] } else { 0 }, |r: int| y[r]);
    assert(sums(gh, gh.len()) == rows_sum(gh, u, own));
    let h = histograms_of(d.feature_bundles@, gh, list);
    lemma_leaf_split_of_rows(d, gh, u, own, h, 0, p);
    assert(at_depth(g.nodes, 0, 0));
    assert forall|i: int| 0 <= i < g.nodes.len() implies #[trigger] true_node(d, gh, u, g, i, 1, p) by {
        assert(i == 0);
        if g.active.len() > 0 {
            assert(g.active[0].node == 0);
            assert(is_open(g, 0));
        } else {
            assert(done(d, gh, u, g.nodes, 0, p));
        }
    }
}

/// The sums over all rows, one after the other.
proof fn lemma_all_sums(gh: Seq<[Single; 2]>, u: Units, n: nat)
    requires
        counted_rows(gh, u),
        n <= gh.len(),
    ensures
        sums(gh, n) == exact_bin(
            sum_over(n, |r: int| gradient_units(gh, u)[r]),
            sum_over(n, |r: int| hessian_units(gh, u)[r]),
            u,
        ),
    decreases n,
{
    let x = gradient_units(gh, u);
    let y = hessian_units(gh, u);
    if n == 0 {
        lemma_few_zero();
        law_units_are_ordered(0, 0, u.gradient);
        law_units_are_ordered(0, 0, u.hessian);
    } else {
        let m = (n - 1) as nat;
        lemma_all_sums(gh, u, m);
        lemma_part_is_few(x, n, |r: int| x[r]);
        lemma_part_is_few(y, n, |r: int| y[r]);
        lemma_part_is_few(x, m, |r: int| x[r]);
        lemma_part_is_few(y, m, |r: int| y[r]);
        let own = gh[m as int];
        law_units_add_up(sum_over(m, |r: int| x[r]), x[m as int], u.gradient, own@[0].widen_spec());
        law_units_add_up(sum_over(m, |r: int| y[r]), y[m as int], u.hessian, own@[1].widen_spec());
    }
}

proof fn lemma_true_growth(
    d: &Dataset,
    gh: Seq<[Single; 2]>,
    u: Units,
    p: BoosterParameters,
    g: Growth,
    rows: Seq<u32>,
    owner: Seq<nat>,
    leaves: nat,
) -> (r: (Seq<u32>, Seq<nat>, nat))
    requires
        exact_data(d, gh, u, p),
        sound(d, p, g, rows, owner, leaves),
        true_growth(d, gh, u, g, leaves, p),
    ensures
        ({
            let end = grow(d, gh, p, g, rows, leaves);
            &&& sound(d, p, end, r.0, r.1, r.2)
            &&& true_growth(d, gh, u, end, r.2, p)
            &&& r.2 >= p.max_leaves || end.active.len() == 0
            &&& leaves < p.max_leaves ==> r.2 <= p.max_leaves
            &&& leaves >= p.max_leaves ==> r.2 == leaves
        }),
    decreases p.max_leaves - leaves,
{
    if leaves < p.max_leaves && g.active.len() > 0 {
        lemma_true_split(d, gh, u, p, g, rows, owner, leaves);
        let after = lemma_split_leaf(d, gh, p, g, rows, owner, leaves);
        let g2 = split_leaf(d, gh, p, g, rows, leaves);
        lemma_true_growth(d, gh, u, p, g2, rearranged(d, next_leaf(g, p), rows), after, leaves + 1)
    } else {
        (rows, owner, leaves)
    }
}

/// What holds of a grown tree, as far as no sum is rounded on the way. Every leaf has the value of
/// the rows that reach it, times the learning rate. Every other node has the best split of the
/// rows that come by it. A leaf is left as it is only if there is no split for its rows, or the
/// tree has as many leaves as it may.
pub proof fn law_nodes_are_what_their_rows_make_them(d: &Dataset, gh: Seq<[Single; 2]>, u: Units, p: BoosterParameters)
    requires
        exact_data(d, gh, u, p),
    ensures
        ({
            let nodes = grown(d, gh, p);
            &&& forall|i: int|
                0 <= i < nodes.len() && #[trigger] nodes[i] is Leaf ==> nodes[i]->value == rows_value(
                    gh,
                    u,
                    node_rows(d, nodes, i),
                    p,
                )
            &&& forall|i: int, r: int|
                0 <= i < nodes.len() && nodes[i] is Leaf ==> (#[trigger] node_rows(d, nodes, i).contains(r) <==> 0 <= r
                    < d.num_rows && d.leaf_of_row(nodes, r) == Some(i as nat))
            &&& forall|i: int| 0 <= i < nodes.len() && #[trigger] nodes[i] is Internal ==> carries(d, gh, u, nodes, i, p)
            &&& forall|i: int|
                0 <= i < nodes.len() && #[trigger] nodes[i] is Leaf ==> nodes.len() + 1 >= 2 * p.max_leaves || done(
                    d,
                    gh,
                    u,
                    nodes,
                    i,
                    p,
                )
        }),
{
    let nodes = grown(d, gh, p);
    let owner = lemma_root(d, gh, p);
    lemma_true_root(d, gh, u, p);
    let start = root(d, gh, p);
    let rows = all_rows(d.num_rows as nat);
    let (r, o, leaves) = lemma_true_growth(d, gh, u, p, start, rows, owner, 1);
    let end = grow(d, gh, p, start, rows, 1);
    lemma_sound_facts(d, p, end, r, o, leaves);
    assert forall|i: int| 0 <= i < nodes.len() implies #[trigger] true_node(d, gh, u, end, i, leaves, p) by {}
    assert forall|i: int| 0 <= i < nodes.len() && #[trigger] nodes[i] is Leaf implies nodes[i]->value == rows_value(
        gh,
        u,
        node_rows(d, nodes, i),
        p,
    ) && (nodes.len() + 1 >= 2 * p.max_leaves || done(d, gh, u, nodes, i, p)) by {
        assert(true_node(d, gh, u, end, i, leaves, p));
    }
    assert forall|i: int| 0 <= i < nodes.len() && #[trigger] nodes[i] is Internal implies carries(d, gh, u, nodes, i, p) by {
        assert(true_node(d, gh, u, end, i, leaves, p));
    }
    assert forall|i: int, r: int| 0 <= i < nodes.len() && nodes[i] is Leaf implies (#[trigger] node_rows(
        d,
        nodes,
        i,
    ).contains(r) <==> 0 <= r < d.num_rows && d.leaf_of_row(nodes, r) == Some(i as nat)) by {
        if 0 <= r < d.num_rows {
            lemma_row_bins_fit(d, r);
            law_rows_of_a_leaf_reach_it(nodes, d.bin_counts(), d.kinds(), d.row_bins(r), d.sentinels(), i);
        }
    }
}

// ---------------------------------------------------------------------------------------
// The order of splits
// ---------------------------------------------------------------------------------------

/// The growth stopped at `limit` leaves: the state, the order of the rows and the number of leaves.
spec fn grow_to(
    d: &Dataset,
    gh: Seq<[Single; 2]>,
    p: BoosterParameters,
    g: Growth,
    rows: Seq<u32>,
    leaves: nat,
    limit: nat,
) -> (Growth, Seq<u32>, nat)
    decreases limit - leaves,
{
    if leaves < limit && g.active.len() > 0 {
        let after = split_leaf(d, gh, p, g, rows, leaves);
        grow_to(d, gh, p, after, rearranged(d, next_leaf(g, p), rows), leaves + 1, limit)
    } else {
        (g, rows, leaves)
    }
}

impl BoosterParameters {
    /// The same settings, with one leaf more.
    pub open spec fn one_more_leaf(self, other: BoosterParameters) -> bool {
        other == (BoosterParameters { max_leaves: other.max_leaves, ..self }) && other.max_leaves == self.max_leaves + 1
    }
}

proof fn lemma_same_but_leaves(
    h: HistogramsView,
    n: nat,
    all: HistogramBin,
    parent_score: Double,
    p: BoosterParameters,
    q: BoosterParameters,
)
    requires
        p.one_more_leaf(q),
    ensures
        best_split(h, n, all, parent_score, p) == best_split(h, n, all, parent_score, q),
    decreases n,
{
    if n > 0 {
        lemma_same_but_leaves(h, (n - 1) as nat, all, parent_score, p, q);
        let bins = h.feature(n - 1);
        let numeric = numeric_candidates(bins, all);
        lemma_best_but_leaves(numeric, numeric.len(), p, q);
        let categorical = categorical_candidates(bins, category_order(bins, bins.len()), all);
        lemma_best_but_leaves(categorical, categorical.len(), p, q);
    }
}

proof fn lemma_best_but_leaves(candidates: Seq<Candidate>, n: nat, p: BoosterParameters, q: BoosterParameters)
    requires
        p.one_more_leaf(q),
    ensures
        best_of(candidates, n, p) == best_of(candidates, n, q),
    decreases n,
{
    if n > 0 {
        lemma_best_but_leaves(candidates, (n - 1) as nat, p, q);
    }
}

proof fn lemma_leaf_but_leaves(
    g: Growth,
    histograms: Option<HistogramsView>,
    all: HistogramBin,
    start: nat,
    len: nat,
    depth: nat,
    p: BoosterParameters,
    q: BoosterParameters,
)
    requires
        p.one_more_leaf(q),
    ensures
        g.with_leaf(histograms, all, start, len, depth, p) == g.with_leaf(histograms, all, start, len, depth, q),
{
    if let Some(h) = histograms {
        let score = score_of(all.sum_gradients, all.sum_hessians, p.lambda_l1, p.lambda_l2);
        lemma_same_but_leaves(h, h.is_categorical.len(), all, score, p, q);
    }
}

/// With room for one leaf more, a step does the same, but that the last one may open leaves.
proof fn lemma_step_but_leaves(
    d: &Dataset,
    gh: Seq<[Single; 2]>,
    p: BoosterParameters,
    q: BoosterParameters,
    g: Growth,
    rows: Seq<u32>,
    leaves: nat,
)
    requires
        p.one_more_leaf(q),
        leaves < p.max_leaves,
    ensures
        split_leaf(d, gh, p, g, rows, leaves).nodes == split_leaf(d, gh, q, g, rows, leaves).nodes,
        leaves + 1 < p.max_leaves ==> split_leaf(d, gh, p, g, rows, leaves) == split_leaf(d, gh, q, g, rows, leaves),
{
    let k = chosen(g.active, p.leaf_wise, g.active.len());
    let leaf = next_leaf(g, p);
    let left = lefts(d, leaf.split, leaf_rows(leaf, rows));
    let right = rights(d, leaf.split, leaf_rows(leaf, rows));
    let (hl, hr) = side_histograms(d.feature_bundles@, gh, leaf, left, right, leaves, p);
    let rest = Growth { active: g.active.update(k, g.active.last()).drop_last(), ..g };
    lemma_leaf_but_leaves(rest, hl, leaf.split.left, leaf.start, left.len(), leaf.depth + 1, p, q);
    let one = rest.with_leaf(hl, leaf.split.left, leaf.start, left.len(), leaf.depth + 1, p);
    lemma_leaf_but_leaves(one, hr, leaf.split.right, leaf.start + left.len(), right.len(), leaf.depth + 1, p, q);
}

proof fn lemma_grow_but_leaves(
    d: &Dataset,
    gh: Seq<[Single; 2]>,
    p: BoosterParameters,
    q: BoosterParameters,
    g: Growth,
    rows: Seq<u32>,
    leaves: nat,
)
    requires
        p.one_more_leaf(q),
        leaves <= p.max_leaves,
    ensures
        ({
            let (end, r, n) = grow_to(d, gh, q, g, rows, leaves, p.max_leaves as nat);
            &&& grow(d, gh, p, g, rows, leaves).nodes == end.nodes
            &&& grow(d, gh, q, g, rows, leaves) == if end.active.len() > 0 {
                split_leaf(d, gh, q, end, r, n)
            } else {
                end
            }
            &&& end.active.len() > 0 ==> n == p.max_leaves
            &&& leaves <= n <= p.max_leaves
        }),
    decreases p.max_leaves - leaves,
{
    let (end, r, n) = grow_to(d, gh, q, g, rows, leaves, p.max_leaves as nat);
    if leaves < p.max_leaves && g.active.len() > 0 {
        let a = split_leaf(d, gh, p, g, rows, leaves);
        let b = split_leaf(d, gh, q, g, rows, leaves);
        let after = rearranged(d, next_leaf(g, p), rows);
        lemma_step_but_leaves(d, gh, p, q, g, rows, leaves);
        lemma_grow_but_leaves(d, gh, p, q, b, after, leaves + 1);
        if leaves + 1 == p.max_leaves {
            assert(grow(d, gh, p, a, after, leaves + 1) == a);
            assert(grow(d, gh, p, b, after, leaves + 1) == b);
        }
    } else if leaves == p.max_leaves && g.active.len() > 0 {
        let b = split_leaf(d, gh, q, g, rows, leaves);
        assert(grow(d, gh, q, b, rearranged(d, next_leaf(g, q), rows), leaves + 1) == b);
    }
}

proof fn lemma_true_grow_to(
    d: &Dataset,
    gh: Seq<[Single; 2]>,
    u: Units,
    p: BoosterParameters,
    g: Growth,
    rows: Seq<u32>,
    owner: Seq<nat>,
    leaves: nat,
    limit: nat,
) -> (o: Seq<nat>)
    requires
        exact_data(d, gh, u, p),
        sound(d, p, g, rows, owner, leaves),
        true_growth(d, gh, u, g, leaves, p),
        limit <= p.max_leaves,
    ensures
        ({
            let (end, r, n) = grow_to(d, gh, p, g, rows, leaves, limit);
            sound(d, p, end, r, o, n) && true_growth(d, gh, u, end, n, p)
        }),
    decreases limit - leaves,
{
    if leaves < limit && g.active.len() > 0 {
        lemma_true_split(d, gh, u, p, g, rows, owner, leaves);
        let after = lemma_split_leaf(d, gh, p, g, rows, owner, leaves);
        let g2 = split_leaf(d, gh, p, g, rows, leaves);
        lemma_true_grow_to(d, gh, u, p, g2, rearranged(d, next_leaf(g, p), rows), after, leaves + 1, limit)
    } else {
        owner
    }
}

/// The split of a leaf's rows, at the leaf's depth, comes before that of another: leaf-wise it
/// gains as much at least; depth-wise it lies less deep, or as deep and gains as much at least.
pub open spec fn comes_first(a: Split, depth_a: nat, b: Split, depth_b: nat, leaf_wise: bool) -> bool {
    let more = b.gain.total_rank() <= a.gain.total_rank();
    if leaf_wise {
        more
    } else {
        depth_a < depth_b || (depth_a == depth_b && more)
    }
}

/// The tree with room for one leaf more is the same tree, and no leaf of it can be split; or it is
/// the tree with one more split, and of all leaves that could be split it is the one whose split
/// comes first. As far as no sum is rounded.
pub proof fn law_best_leaf_is_split_next(
    d: &Dataset,
    gh: Seq<[Single; 2]>,
    u: Units,
    p: BoosterParameters,
    q: BoosterParameters,
)
    requires
        exact_data(d, gh, u, q),
        p.one_more_leaf(q),
        p.max_leaves >= 1,
    ensures
        ({
            let a = grown(d, gh, p);
            let b = grown(d, gh, q);
            ||| a == b && forall|i: int| 0 <= i < a.len() && #[trigger] a[i] is Leaf ==> done(d, gh, u, a, i, q)
            ||| exists|c: int| #[trigger] split_next(d, gh, u, a, b, c, q)
        }),
{
    let start = root(d, gh, q);
    let rows = all_rows(d.num_rows as nat);
    let nothing = Growth { nodes: Seq::empty(), active: Seq::empty(), finished: Seq::empty() };
    lemma_leaf_but_leaves(
        nothing,
        Some(histograms_of(d.feature_bundles@, gh, rows)),
        sums(gh, gh.len()),
        0,
        d.num_rows as nat,
        0,
        p,
        q,
    );
    assert(root(d, gh, p) == start);
    let owner = lemma_root(d, gh, q);
    lemma_true_root(d, gh, u, q);
    lemma_grow_but_leaves(d, gh, p, q, start, rows, 1);
    let o = lemma_true_grow_to(d, gh, u, q, start, rows, owner, 1, p.max_leaves as nat);
    let (g, r, n) = grow_to(d, gh, q, start, rows, 1, p.max_leaves as nat);
    let a = grown(d, gh, p);
    let b = grown(d, gh, q);
    lemma_sound_facts(d, q, g, r, o, n);
    lemma_sound_segments(d, q, g, r, o, n);
    assert(a == g.nodes);
    if g.active.len() == 0 {
        assert forall|i: int| 0 <= i < a.len() && #[trigger] a[i] is Leaf implies done(d, gh, u, a, i, q) by {
            assert(true_node(d, gh, u, g, i, n, q));
        }
    } else {
        let k = chosen(g.active, q.leaf_wise, g.active.len());
        lemma_chosen(g.active, q.leaf_wise, g.active.len());
        law_chosen_leaf_comes_first(g.active, q.leaf_wise, g.active.len());
        lemma_stepped(d, gh, q, g, r, n);
        let leaf = g.active[k];
        let c = leaf.node as int;
        assert(true_leaf(d, gh, u, g.nodes, leaf, q));
        law_every_node_has_one_depth(a, d.bin_counts(), d.kinds());
        assert forall|i: int, m: nat|
            0 <= i < a.len() && a[i] is Leaf && #[trigger] at_depth(a, i, m) && rows_split(
                d,
                gh,
                u,
                node_rows(d, a, i),
                m,
                q,
            ) is Some implies comes_first(
            leaf.split,
            leaf.depth,
            rows_split(d, gh, u, node_rows(d, a, i), m, q)->0,
            m,
            q.leaf_wise,
        ) by {
            assert(true_node(d, gh, u, g, i, n, q));
            if done(d, gh, u, a, i, q) {
                let e = choose|e: nat|
                    #[trigger] at_depth(a, i, e) && rows_split(d, gh, u, node_rows(d, a, i), e, q) is None;
                assert(e == m);
            }
            let j = choose|j: int| 0 <= j < g.active.len() && (#[trigger] g.active[j]).node == i;
            assert(true_leaf(d, gh, u, g.nodes, g.active[j], q));
            assert(g.active[j].depth == m);
        }
        assert(split_at(d, gh, u, a, b, c, leaf.depth, q));
        assert(split_next(d, gh, u, a, b, c, q));
    }
}

/// Tree `b` is tree `a` with leaf `c` split, and the split of that leaf comes before those of all
/// others.
pub open spec fn split_next(
    d: &Dataset,
    gh: Seq<[Single; 2]>,
    u: Units,
    a: Seq<NodeView>,
    b: Seq<NodeView>,
    c: int,
    p: BoosterParameters,
) -> bool {
    &&& 0 <= c < a.len()
    &&& a[c] is Leaf
    &&& b.len() == a.len() + 2
    &&& forall|i: int| 0 <= i < a.len() && i != c ==> #[trigger] b[i] == a[i]
    &&& b[a.len() as int] is Leaf
    &&& b[(a.len() + 1) as int] is Leaf
    &&& exists|depth: nat| #[trigger] at_depth(a, c, depth) && split_at(d, gh, u, a, b, c, depth, p)
}

/// Leaf `c`, which lies at the given depth, has been split, and its split comes before all others.
pub open spec fn split_at(
    d: &Dataset,
    gh: Seq<[Single; 2]>,
    u: Units,
    a: Seq<NodeView>,
    b: Seq<NodeView>,
    c: int,
    depth: nat,
    p: BoosterParameters,
) -> bool {
    match rows_split(d, gh, u, node_rows(d, a, c), depth, p) {
        None => false,
        Some(split) => {
            &&& b[c] == (NodeView::Internal {
                left: a.len(),
                right: a.len() + 1,
                feature: split.feature,
                rule: split.rule,
            })
            &&& forall|i: int, m: nat|
                0 <= i < a.len() && a[i] is Leaf && #[trigger] at_depth(a, i, m) ==> (rows_split(
                    d,
                    gh,
                    u,
                    node_rows(d, a, i),
                    m,
                    p,
                ) matches Some(s) ==> comes_first(split, depth, s, m, p.leaf_wise))
        },
    }
}

} // verus!
