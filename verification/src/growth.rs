//! What the growing of a tree does, step by step.

use vstd::prelude::*;

use crate::bundle::FeatureBundle;
use crate::dataset::Dataset;
use crate::double::{Double, Single};
use crate::histogram::{histograms_of, HistogramBin, HistogramsView};
use crate::parameters::BoosterParameters;
use crate::partition::{gathered, lefts, rights};
use crate::split::{best_split, law_threads_change_no_split, score_of, Split};
use crate::tree::NodeView;

verus! {

/// The value of a leaf with gradient `g` and hessian `h`: the step that lessens the loss
/// most, with the gradient shrunk by `l1` and the hessian raised by `l2`.
pub open spec fn value_of(g: Double, h: Double, l1: Double, l2: Double) -> Double {
    if l1.same_spec(Double::zero_spec()) {
        g.neg_spec().over_spec(h.plus_spec(l2))
    } else {
        let d = g.abs_spec().minus_spec(l1).max_spec(Double::zero_spec());
        g.signum_spec().neg_spec().times_spec(d).over_spec(h.plus_spec(l2))
    }
}

/// A leaf that may still be split: its node, its rows as a segment of the row order, its
/// depth, and the best split found for it.
#[verifier::ext_equal]
pub struct OpenLeaf {
    pub node: nat,
    pub start: nat,
    pub len: nat,
    pub depth: nat,
    pub histograms: HistogramsView,
    pub split: Split,
}

/// A leaf that is not split any further.
#[verifier::ext_equal]
pub struct ClosedLeaf {
    pub start: nat,
    pub len: nat,
    pub node: nat,
}

/// A tree in the making.
#[verifier::ext_equal]
pub struct Growth {
    pub nodes: Seq<NodeView>,
    pub active: Seq<OpenLeaf>,
    pub finished: Seq<ClosedLeaf>,
}

/// The sums of gradients and hessians over the first `n` rows.
pub open spec fn sums(grad_hess: Seq<[Single; 2]>, n: nat) -> HistogramBin
    decreases n,
{
    if n == 0 {
        HistogramBin::empty()
    } else {
        sums(grad_hess, (n - 1) as nat).with(grad_hess[n - 1])
    }
}

/// Twice the least hessian of a leaf: a leaf with less cannot be split.
pub open spec fn splittable_hessian(p: BoosterParameters) -> Double {
    p.min_sum_hessian_in_leaf.times_spec(Double::two_spec())
}

/// The split of a leaf with histograms `histograms`, if it is to be split at all.
pub open spec fn leaf_split(
    histograms: Option<HistogramsView>,
    all: HistogramBin,
    depth: nat,
    p: BoosterParameters,
) -> Option<Split> {
    match histograms {
        Some(h) if depth < p.max_depth && splittable_hessian(p).le_spec(all.sum_hessians) => best_split(
            h,
            h.is_categorical.len(),
            all,
            score_of(all.sum_gradients, all.sum_hessians, p.lambda_l1, p.lambda_l2),
            p,
        ),
        _ => None,
    }
}

impl Growth {
    /// A leaf with the sums `all` is added: open if a split was found for it, closed if not.
    pub open spec fn with_leaf(
        self,
        histograms: Option<HistogramsView>,
        all: HistogramBin,
        start: nat,
        len: nat,
        depth: nat,
        p: BoosterParameters,
    ) -> Growth {
        let value = value_of(all.sum_gradients, all.sum_hessians, p.lambda_l1, p.lambda_l2).times_spec(p.learning_rate);
        let node = self.nodes.len();
        let nodes = self.nodes.push(NodeView::Leaf { value });
        match leaf_split(histograms, all, depth, p) {
            Some(split) => Growth {
                nodes,
                active: self.active.push(
                    OpenLeaf { node, start, len, depth, histograms: histograms->0, split },
                ),
                finished: self.finished,
            },
            None => Growth { nodes, active: self.active, finished: self.finished.push(ClosedLeaf { start, len, node }) },
        }
    }
}

/// Whether the leaf `b` is to be split rather than `a`, which stands before it: leaf-wise,
/// if its split gains as much; depth-wise, if it is less deep, or as deep with a split that
/// gains more.
pub open spec fn supersedes(a: OpenLeaf, b: OpenLeaf, leaf_wise: bool) -> bool {
    if leaf_wise {
        a.split.gain.total_rank() <= b.split.gain.total_rank()
    } else {
        b.depth < a.depth || (b.depth == a.depth && a.split.gain.total_rank() < b.split.gain.total_rank())
    }
}

/// The one of the first `n` open leaves that is to be split.
pub open spec fn chosen(active: Seq<OpenLeaf>, leaf_wise: bool, n: nat) -> int
    decreases n,
{
    if n <= 1 {
        0
    } else {
        let best = chosen(active, leaf_wise, (n - 1) as nat);
        if supersedes(active[best], active[n - 1], leaf_wise) { n - 1 } else { best }
    }
}

/// Neither side of a leaf can be split further: they are at the greatest depth, there are
/// enough leaves, or both sides are too light.
pub open spec fn both_terminal(leaf: OpenLeaf, leaves: nat, p: BoosterParameters) -> bool {
    let least = splittable_hessian(p);
    leaf.depth + 1 >= p.max_depth || leaves + 1 >= p.max_leaves || (leaf.split.left.sum_hessians.lt_spec(least)
        && leaf.split.right.sum_hessians.lt_spec(least))
}

/// The histograms of the two sides of a leaf: the smaller side is summed up, and the other is
/// what is left.
pub open spec fn built_histograms(
    bundles: Seq<FeatureBundle>,
    grad_hess: Seq<[Single; 2]>,
    leaf: OpenLeaf,
    left: Seq<u32>,
    right: Seq<u32>,
) -> (Option<HistogramsView>, Option<HistogramsView>) {
    if left.len() < right.len() {
        let h = histograms_of(bundles, gathered(grad_hess, left), left);
        (Some(h), Some(leaf.histograms.minus_spec(h)))
    } else {
        let h = histograms_of(bundles, gathered(grad_hess, right), right);
        (Some(leaf.histograms.minus_spec(h)), Some(h))
    }
}

/// The histograms of the two sides of a leaf, if one of them can be split further.
pub open spec fn side_histograms(
    bundles: Seq<FeatureBundle>,
    grad_hess: Seq<[Single; 2]>,
    leaf: OpenLeaf,
    left: Seq<u32>,
    right: Seq<u32>,
    leaves: nat,
    p: BoosterParameters,
) -> (Option<HistogramsView>, Option<HistogramsView>) {
    if both_terminal(leaf, leaves, p) {
        (None, None)
    } else {
        built_histograms(bundles, grad_hess, leaf, left, right)
    }
}

/// `rows` with the segment of a leaf put in order: left rows first.
pub open spec fn rearranged(d: &Dataset, leaf: OpenLeaf, rows: Seq<u32>) -> Seq<u32> {
    let segment = leaf_rows(leaf, rows);
    rows.take(leaf.start as int) + lefts(d, leaf.split, segment) + rights(d, leaf.split, segment) + rows.skip(
        (leaf.start + leaf.len) as int,
    )
}

/// The rows of a leaf.
pub open spec fn leaf_rows(leaf: OpenLeaf, rows: Seq<u32>) -> Seq<u32> {
    rows.subrange(leaf.start as int, (leaf.start + leaf.len) as int)
}

/// The leaf that is split next.
pub open spec fn next_leaf(g: Growth, p: BoosterParameters) -> OpenLeaf {
    g.active[chosen(g.active, p.leaf_wise, g.active.len())]
}

impl Growth {
    /// The next leaf is split into two, whose histograms are given.
    pub open spec fn with_split(
        self,
        d: &Dataset,
        rows: Seq<u32>,
        histograms: (Option<HistogramsView>, Option<HistogramsView>),
        p: BoosterParameters,
    ) -> Growth {
        let k = chosen(self.active, p.leaf_wise, self.active.len());
        let leaf = self.active[k];
        let left = lefts(d, leaf.split, leaf_rows(leaf, rows));
        let right = rights(d, leaf.split, leaf_rows(leaf, rows));
        let rest = Growth { active: self.active.update(k, self.active.last()).drop_last(), ..self };
        let both = rest.with_leaf(histograms.0, leaf.split.left, leaf.start, left.len(), leaf.depth + 1, p).with_leaf(
            histograms.1,
            leaf.split.right,
            leaf.start + left.len(),
            right.len(),
            leaf.depth + 1,
            p,
        );
        Growth {
            nodes: both.nodes.update(
                leaf.node as int,
                NodeView::Internal {
                    left: self.nodes.len(),
                    right: self.nodes.len() + 1,
                    feature: leaf.split.feature,
                    rule: leaf.split.rule,
                },
            ),
            ..both
        }
    }
}

/// One leaf is split. `leaves` is the number of leaves before.
pub open spec fn split_leaf(
    d: &Dataset,
    grad_hess: Seq<[Single; 2]>,
    p: BoosterParameters,
    g: Growth,
    rows: Seq<u32>,
    leaves: nat,
) -> Growth {
    let leaf = next_leaf(g, p);
    let left = lefts(d, leaf.split, leaf_rows(leaf, rows));
    let right = rights(d, leaf.split, leaf_rows(leaf, rows));
    g.with_split(d, rows, side_histograms(d.feature_bundles@, grad_hess, leaf, left, right, leaves, p), p)
}

/// Leaves are split until there are enough of them, or none that can be split.
pub open spec fn grow(
    d: &Dataset,
    grad_hess: Seq<[Single; 2]>,
    p: BoosterParameters,
    g: Growth,
    rows: Seq<u32>,
    leaves: nat,
) -> Growth
    decreases p.max_leaves - leaves,
{
    if leaves < p.max_leaves && g.active.len() > 0 {
        let after = split_leaf(d, grad_hess, p, g, rows, leaves);
        grow(d, grad_hess, p, after, rearranged(d, next_leaf(g, p), rows), leaves + 1)
    } else {
        g
    }
}

/// The rows from 0 up.
pub open spec fn all_rows(n: nat) -> Seq<u32> {
    Seq::new(n, |i: int| i as u32)
}

/// The root alone, with all rows.
pub open spec fn root(d: &Dataset, grad_hess: Seq<[Single; 2]>, p: BoosterParameters) -> Growth {
    let nothing = Growth { nodes: Seq::empty(), active: Seq::empty(), finished: Seq::empty() };
    nothing.with_leaf(
        Some(histograms_of(d.feature_bundles@, grad_hess, all_rows(d.num_rows as nat))),
        sums(grad_hess, grad_hess.len()),
        0,
        d.num_rows as nat,
        0,
        p,
    )
}

/// The nodes of the tree that is grown from gradients and hessians.
pub open spec fn grown(d: &Dataset, grad_hess: Seq<[Single; 2]>, p: BoosterParameters) -> Seq<NodeView> {
    grow(d, grad_hess, p, root(d, grad_hess, p), all_rows(d.num_rows as nat), 1).nodes
}

/// Growing leaf-wise, the leaf whose split gains most is split; of equal ones, the last.
/// Growing depth-wise, a leaf of the least depth is split, among these the one whose split
/// gains most; of equal ones, the first. Gains are compared in the total order.
pub proof fn law_chosen_leaf_comes_first(active: Seq<OpenLeaf>, leaf_wise: bool, n: nat)
    requires
        0 < n <= active.len(),
    ensures
        ({
            let k = chosen(active, leaf_wise, n);
            let best = active[k];
            &&& 0 <= k < n
            &&& forall|i: int|
                0 <= i < n ==> {
                    let a = #[trigger] active[i];
                    let gain = a.split.gain.total_rank();
                    let most = best.split.gain.total_rank();
                    if leaf_wise {
                        gain <= most && (i > k ==> gain < most)
                    } else {
                        &&& best.depth <= a.depth
                        &&& best.depth == a.depth ==> gain <= most
                        &&& best.depth == a.depth && i < k ==> gain < most
                    }
                }
        }),
    decreases n,
{
    if n > 1 {
        law_chosen_leaf_comes_first(active, leaf_wise, (n - 1) as nat);
    }
}

/// One leaf is split, and the histograms of both sides are built in any case.
pub open spec fn split_leaf_building(
    d: &Dataset,
    grad_hess: Seq<[Single; 2]>,
    p: BoosterParameters,
    g: Growth,
    rows: Seq<u32>,
) -> Growth {
    let leaf = next_leaf(g, p);
    let left = lefts(d, leaf.split, leaf_rows(leaf, rows));
    let right = rights(d, leaf.split, leaf_rows(leaf, rows));
    g.with_split(d, rows, built_histograms(d.feature_bundles@, grad_hess, leaf, left, right), p)
}

/// Growth in which histograms are built in any case.
pub open spec fn grow_building(
    d: &Dataset,
    grad_hess: Seq<[Single; 2]>,
    p: BoosterParameters,
    g: Growth,
    rows: Seq<u32>,
    leaves: nat,
) -> Growth
    decreases p.max_leaves - leaves,
{
    if leaves < p.max_leaves && g.active.len() > 0 {
        let after = split_leaf_building(d, grad_hess, p, g, rows);
        grow_building(d, grad_hess, p, after, rearranged(d, next_leaf(g, p), rows), leaves + 1)
    } else {
        g
    }
}

/// Not building the histograms of leaves that cannot be split changes no tree.
pub proof fn law_skipped_histograms_change_no_tree(
    d: &Dataset,
    grad_hess: Seq<[Single; 2]>,
    p: BoosterParameters,
    g: Growth,
    rows: Seq<u32>,
    leaves: nat,
)
    ensures
        grow(d, grad_hess, p, g, rows, leaves).nodes == grow_building(d, grad_hess, p, g, rows, leaves).nodes,
    decreases p.max_leaves - leaves,
{
    if leaves < p.max_leaves && g.active.len() > 0 {
        let leaf = next_leaf(g, p);
        let skipping = split_leaf(d, grad_hess, p, g, rows, leaves);
        let building = split_leaf_building(d, grad_hess, p, g, rows);
        let after = rearranged(d, leaf, rows);
        if leaves + 1 >= p.max_leaves {
            assert(skipping.nodes == building.nodes);
            assert(grow(d, grad_hess, p, skipping, after, leaves + 1) == skipping);
            assert(grow_building(d, grad_hess, p, building, after, leaves + 1) == building);
        } else {
            assert(skipping == building);
            law_skipped_histograms_change_no_tree(d, grad_hess, p, skipping, after, leaves + 1);
        }
    }
}

proof fn lemma_with_leaf_threads(
    g: Growth,
    histograms: Option<HistogramsView>,
    all: HistogramBin,
    start: nat,
    len: nat,
    depth: nat,
    p: BoosterParameters,
    q: BoosterParameters,
)
    requires
        p.same_but_threads(q),
    ensures
        g.with_leaf(histograms, all, start, len, depth, p) == g.with_leaf(histograms, all, start, len, depth, q),
{
    if let Some(h) = histograms {
        let score = score_of(all.sum_gradients, all.sum_hessians, p.lambda_l1, p.lambda_l2);
        law_threads_change_no_split(h, h.is_categorical.len(), all, score, p, q);
    }
}

proof fn lemma_grow_threads(
    d: &Dataset,
    grad_hess: Seq<[Single; 2]>,
    p: BoosterParameters,
    q: BoosterParameters,
    g: Growth,
    rows: Seq<u32>,
    leaves: nat,
)
    requires
        p.same_but_threads(q),
    ensures
        grow(d, grad_hess, p, g, rows, leaves) == grow(d, grad_hess, q, g, rows, leaves),
    decreases p.max_leaves - leaves,
{
    if leaves < p.max_leaves && g.active.len() > 0 {
        let k = chosen(g.active, p.leaf_wise, g.active.len());
        let leaf = next_leaf(g, p);
        let left = lefts(d, leaf.split, leaf_rows(leaf, rows));
        let right = rights(d, leaf.split, leaf_rows(leaf, rows));
        let (hl, hr) = side_histograms(d.feature_bundles@, grad_hess, leaf, left, right, leaves, p);
        let rest = Growth { active: g.active.update(k, g.active.last()).drop_last(), ..g };
        lemma_with_leaf_threads(rest, hl, leaf.split.left, leaf.start, left.len(), leaf.depth + 1, p, q);
        let one = rest.with_leaf(hl, leaf.split.left, leaf.start, left.len(), leaf.depth + 1, p);
        lemma_with_leaf_threads(
            one,
            hr,
            leaf.split.right,
            leaf.start + left.len(),
            right.len(),
            leaf.depth + 1,
            p,
            q,
        );
        let after = split_leaf(d, grad_hess, p, g, rows, leaves);
        assert(after == split_leaf(d, grad_hess, q, g, rows, leaves));
        lemma_grow_threads(d, grad_hess, p, q, after, rearranged(d, leaf, rows), leaves + 1);
    }
}

/// The tree that is grown does not depend on the number of threads.
pub proof fn law_threads_change_no_tree(
    d: &Dataset,
    grad_hess: Seq<[Single; 2]>,
    p: BoosterParameters,
    q: BoosterParameters,
)
    requires
        p.same_but_threads(q),
    ensures
        grown(d, grad_hess, p) == grown(d, grad_hess, q),
{
    let rows = all_rows(d.num_rows as nat);
    let nothing = Growth { nodes: Seq::empty(), active: Seq::empty(), finished: Seq::empty() };
    let h = histograms_of(d.feature_bundles@, grad_hess, rows);
    lemma_with_leaf_threads(nothing, Some(h), sums(grad_hess, grad_hess.len()), 0, d.num_rows as nat, 0, p, q);
    lemma_grow_threads(d, grad_hess, p, q, root(d, grad_hess, p), rows, 1);
}

/// Whatever the numbers, the value of a leaf is what the gradient's size exceeds `l1` by, if it
/// does, over the hessian raised by `l2`, with the gradient's sign turned.
pub proof fn law_values_follow_the_formula(g: Double, h: Double, l1: Double, l2: Double)
    ensures
        ({
            let rest = g.abs_spec().plus_spec(l1.neg_spec());
            let zero = Double::zero_spec();
            let d = if rest.nan() || rest.lt_spec(zero) { zero } else { rest };
            let one = g.signum_spec().neg_spec();
            &&& l1.same_spec(zero) ==> value_of(g, h, l1, l2) == g.neg_spec().over_spec(h.plus_spec(l2))
            &&& !l1.same_spec(zero) ==> value_of(g, h, l1, l2) == one.times_spec(d).over_spec(h.plus_spec(l2))
        }),
{
}

} // verus!
