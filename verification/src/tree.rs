//! Decision trees on binned features.

use vstd::prelude::*;
use vstd::slice::slice_subrange;

use crate::dataset::Dataset;
use crate::double::{Double, Single};
use crate::growth::{
    all_rows, chosen, grow, grown, next_leaf, rearranged, root, side_histograms, split_leaf, sums, value_of, ClosedLeaf,
    Growth, OpenLeaf,
};
use crate::histogram::{HistogramBin, Histograms, HistogramsView};
use crate::parameters::BoosterParameters;
use crate::partition::{
    gather_grad_hess, gathered, lefts, lemma_separable_part, lemma_sides_len, rights, separable,
};
use crate::segments::{
    in_segment, laid_out, lemma_root, lemma_row_bins_fit, lemma_side_histograms, lemma_sound_facts, lemma_split_leaf,
    sound,
};
use crate::split::{calculate_score, Rule, SplitInfo, Threshold};

verus! {

/// Node in the decision tree, stored after training.
#[derive(Clone)]
pub enum Node {
    Leaf { value: Double },
    Internal { left_child: u32, right_child: u32, split_feature: u32, threshold: Threshold },
}

/// The contents of a `Node`.
pub enum NodeView {
    Leaf { value: Double },
    Internal { left: nat, right: nat, feature: nat, rule: Rule },
}

impl View for Node {
    type V = NodeView;

    open spec fn view(&self) -> NodeView {
        match self {
            Node::Leaf { value } => NodeView::Leaf { value: *value },
            Node::Internal { left_child, right_child, split_feature, threshold } => NodeView::Internal {
                left: *left_child as nat,
                right: *right_child as nat,
                feature: *split_feature as nat,
                rule: threshold@,
            },
        }
    }
}

impl Node {
    /// The value of a leaf.
    pub fn value(&self) -> (value: Double)
        requires
            self@ is Leaf,
        ensures
            value == self@->value,
    {
        match self {
            Node::Leaf { value } => *value,
            Node::Internal { .. } => Double::zero(),
        }
    }
}

/// The most nodes that a tree may have, so that each can be a child.
pub const MAX_NODES: usize = 0xFFFF_FFFD;

/// The most leaves that a tree may be grown to.
pub const MAX_LEAVES: usize = 0x7FFF_FFFF;

/// A tree: node 0 is the root.
#[derive(Clone)]
pub struct Tree {
    pub nodes: Vec<Node>,
}

impl View for Tree {
    type V = Seq<NodeView>;

    open spec fn view(&self) -> Seq<NodeView> {
        self.nodes@.map_values(|node: Node| node@)
    }
}

/// The leaf that a row reaches from node `at` in at most `steps` steps, where `bins[f]` is
/// the row's bin for feature `f` and `sentinels[f]` the bin of missing values. There is none
/// where the way leads out of the tree, to a feature without a bin, to a numeric split of a
/// feature whose bin of missing values is not known, or to a bin without a side.
pub open spec fn leaf_from(nodes: Seq<NodeView>, bins: Seq<u8>, sentinels: Seq<u8>, at: nat, steps: nat) -> Option<nat>
    decreases steps,
{
    if at >= nodes.len() {
        None
    } else {
        match nodes[at as int] {
            NodeView::Leaf { .. } => Some(at),
            NodeView::Internal { left, right, feature, rule } => if steps == 0 || feature >= bins.len() || (
            rule is Numeric && feature >= sentinels.len()) || !rule.covers(bins[feature as int] as nat + 1) {
                None
            } else {
                let next = if rule.goes_left(bins[feature as int], sentinels[feature as int]) { left } else { right };
                leaf_from(nodes, bins, sentinels, next, (steps - 1) as nat)
            },
        }
    }
}

/// The leaf that a row reaches from the root. A way that ends passes each node once at most.
pub open spec fn leaf_of(nodes: Seq<NodeView>, bins: Seq<u8>, sentinels: Seq<u8>) -> Option<nat> {
    leaf_from(nodes, bins, sentinels, 0, nodes.len())
}

/// Whether the bin for feature `f` is asked for on the way of a row from node `at`.
pub open spec fn asks_for(nodes: Seq<NodeView>, bins: Seq<u8>, sentinels: Seq<u8>, at: nat, steps: nat, f: int) -> bool
    decreases steps,
{
    steps > 0 && at < nodes.len() && match nodes[at as int] {
        NodeView::Leaf { .. } => false,
        NodeView::Internal { left, right, feature, rule } => f == feature || {
            let next = if rule.goes_left(bins[feature as int], sentinels[feature as int]) { left } else { right };
            asks_for(nodes, bins, sentinels, next, (steps - 1) as nat, f)
        },
    }
}

/// The bins of a row. Where a column is too short for the row, nothing is known of its bin.
pub open spec fn row_bins(columns: Seq<&[u8]>, row: int) -> Seq<u8> {
    Seq::new(columns.len(), |f: int| columns[f]@[row])
}

/// A tree over features of the given numbers of bins and kinds: children come after their
/// parents, and every split suits its feature.
pub open spec fn tree_wf(nodes: Seq<NodeView>, num_bins: Seq<nat>, categorical: Seq<bool>) -> bool {
    &&& nodes.len() > 0
    &&& num_bins.len() == categorical.len()
    &&& forall|i: int|
        0 <= i < nodes.len() ==> match #[trigger] nodes[i] {
            NodeView::Leaf { .. } => true,
            NodeView::Internal { left, right, feature, rule } => {
                &&& i < left < nodes.len()
                &&& i < right < nodes.len()
                &&& feature < num_bins.len()
                &&& rule.suits(num_bins[feature as int], categorical[feature as int])
            },
        }
}

/// How many of the first `n` nodes are internal.
pub open spec fn internals(nodes: Seq<NodeView>, n: nat) -> nat
    decreases n,
{
    if n == 0 {
        0
    } else {
        internals(nodes, (n - 1) as nat) + if nodes[n - 1] is Internal { 1nat } else { 0 }
    }
}

/// Node `c` is a child of node `p`.
pub open spec fn is_child(nodes: Seq<NodeView>, p: int, c: int) -> bool {
    0 <= p < nodes.len() && match nodes[p] {
        NodeView::Leaf { .. } => false,
        NodeView::Internal { left, right, .. } => c == left || c == right,
    }
}

/// A binary tree: there is one leaf more than there are internal nodes, the two children of a
/// node are two nodes, and every node but the root is the child of exactly one.
pub open spec fn tree_shape(nodes: Seq<NodeView>) -> bool {
    &&& nodes.len() == 2 * internals(nodes, nodes.len()) + 1
    &&& forall|p: int| 0 <= p < nodes.len() && #[trigger] nodes[p] is Internal ==> nodes[p]->left != nodes[p]->right
    &&& forall|c: int| 1 <= c < nodes.len() ==> #[trigger] has_parent(nodes, c)
    &&& forall|p: int, q: int, c: int| #[trigger] is_child(nodes, p, c) && #[trigger] is_child(nodes, q, c) ==> p == q
}

/// A node has a parent.
pub open spec fn has_parent(nodes: Seq<NodeView>, c: int) -> bool {
    exists|p: int| is_child(nodes, p, c)
}

/// Every bin index is below the feature's number of bins.
pub open spec fn bins_fit(bins: Seq<u8>, num_bins: Seq<nat>) -> bool {
    &&& bins.len() == num_bins.len()
    &&& forall|f: int| 0 <= f < bins.len() ==> (#[trigger] bins[f]) < num_bins[f]
}

/// Node `c` lies `depth` steps below the root: the root itself at depth 0, and a child one step
/// deeper than its parent.
pub open spec fn at_depth(nodes: Seq<NodeView>, c: int, depth: nat) -> bool
    decreases depth,
{
    if depth == 0 {
        c == 0
    } else {
        exists|p: int| #[trigger] is_child(nodes, p, c) && at_depth(nodes, p, (depth - 1) as nat)
    }
}

/// No node lies deeper than `depth` below the root, whether a row reaches it or not.
pub open spec fn no_deeper(nodes: Seq<NodeView>, depth: nat) -> bool {
    forall|c: int, k: nat| #[trigger] at_depth(nodes, c, k) ==> k <= depth
}

/// A node has a depth.
pub open spec fn has_depth(nodes: Seq<NodeView>, c: int) -> bool {
    exists|k: nat| at_depth(nodes, c, k)
}

proof fn lemma_has_depth(nodes: Seq<NodeView>, num_bins: Seq<nat>, categorical: Seq<bool>, c: int)
    requires
        tree_wf(nodes, num_bins, categorical),
        tree_shape(nodes),
        0 <= c < nodes.len(),
    ensures
        has_depth(nodes, c),
    decreases c,
{
    if c == 0 {
        assert(at_depth(nodes, c, 0));
    } else {
        assert(has_parent(nodes, c));
        let p = choose|p: int| is_child(nodes, p, c);
        lemma_has_depth(nodes, num_bins, categorical, p);
        let k = choose|k: nat| at_depth(nodes, p, k);
        assert(at_depth(nodes, c, k + 1));
    }
}

proof fn lemma_one_depth(nodes: Seq<NodeView>, num_bins: Seq<nat>, categorical: Seq<bool>, c: int, j: nat, k: nat)
    requires
        tree_wf(nodes, num_bins, categorical),
        tree_shape(nodes),
        at_depth(nodes, c, j),
        at_depth(nodes, c, k),
    ensures
        j == k,
    decreases j,
{
    if j > 0 && k > 0 {
        let p = choose|p: int| #[trigger] is_child(nodes, p, c) && at_depth(nodes, p, (j - 1) as nat);
        let q = choose|q: int| #[trigger] is_child(nodes, q, c) && at_depth(nodes, q, (k - 1) as nat);
        assert(p == q);
        lemma_one_depth(nodes, num_bins, categorical, p, (j - 1) as nat, (k - 1) as nat);
    } else if j > 0 {
        let p = choose|p: int| #[trigger] is_child(nodes, p, c) && at_depth(nodes, p, (j - 1) as nat);
        assert(nodes[p] is Internal);
    } else if k > 0 {
        let p = choose|p: int| #[trigger] is_child(nodes, p, c) && at_depth(nodes, p, (k - 1) as nat);
        assert(nodes[p] is Internal);
    }
}

/// Every node of a tree has exactly one depth.
pub proof fn law_every_node_has_one_depth(nodes: Seq<NodeView>, num_bins: Seq<nat>, categorical: Seq<bool>)
    requires
        tree_wf(nodes, num_bins, categorical),
        tree_shape(nodes),
    ensures
        forall|c: int| 0 <= c < nodes.len() ==> #[trigger] has_depth(nodes, c),
        forall|c: int, j: nat, k: nat| #[trigger] at_depth(nodes, c, j) && #[trigger] at_depth(nodes, c, k) ==> j == k,
{
    assert forall|c: int| 0 <= c < nodes.len() implies #[trigger] has_depth(nodes, c) by {
        lemma_has_depth(nodes, num_bins, categorical, c);
    }
    assert forall|c: int, j: nat, k: nat| #[trigger] at_depth(nodes, c, j) && #[trigger] at_depth(nodes, c, k) implies j
        == k by {
        lemma_one_depth(nodes, num_bins, categorical, c, j, k);
    }
}

proof fn lemma_within_depth(
    nodes: Seq<NodeView>,
    num_bins: Seq<nat>,
    categorical: Seq<bool>,
    bins: Seq<u8>,
    sentinels: Seq<u8>,
    depth: nat,
    at: nat,
    k: nat,
)
    requires
        tree_wf(nodes, num_bins, categorical),
        no_deeper(nodes, depth),
        bins_fit(bins, num_bins),
        sentinels.len() >= bins.len(),
        at < nodes.len(),
        at_depth(nodes, at as int, k),
    ensures
        leaf_from(nodes, bins, sentinels, at, (depth - k) as nat) is Some,
    decreases depth - k,
{
    assert(k <= depth);
    if let NodeView::Internal { left, right, feature, rule } = nodes[at as int] {
        assert(bins[feature as int] < num_bins[feature as int]);
        let next = if rule.goes_left(bins[feature as int], sentinels[feature as int]) { left } else { right };
        assert(is_child(nodes, at as int, next as int));
        assert(at_depth(nodes, next as int, k + 1));
        lemma_within_depth(nodes, num_bins, categorical, bins, sentinels, depth, next, k + 1);
    }
}

/// Every row reaches its leaf in at most as many steps as the tree is deep.
pub proof fn law_leaves_are_within_depth(
    nodes: Seq<NodeView>,
    num_bins: Seq<nat>,
    categorical: Seq<bool>,
    bins: Seq<u8>,
    sentinels: Seq<u8>,
    depth: nat,
)
    requires
        tree_wf(nodes, num_bins, categorical),
        no_deeper(nodes, depth),
        bins_fit(bins, num_bins),
        sentinels.len() >= bins.len(),
    ensures
        leaf_from(nodes, bins, sentinels, 0, depth) is Some,
{
    assert(at_depth(nodes, 0, 0));
    lemma_within_depth(nodes, num_bins, categorical, bins, sentinels, depth, 0, 0);
}

pub(crate) proof fn lemma_leaf_from_reached(
    nodes: Seq<NodeView>,
    num_bins: Seq<nat>,
    categorical: Seq<bool>,
    bins: Seq<u8>,
    sentinels: Seq<u8>,
    at: nat,
    steps: nat,
)
    requires
        tree_wf(nodes, num_bins, categorical),
        bins_fit(bins, num_bins),
        sentinels.len() >= bins.len(),
        at < nodes.len(),
        at + steps >= nodes.len(),
    ensures
        leaf_from(nodes, bins, sentinels, at, steps) matches Some(leaf) && leaf < nodes.len()
            && nodes[leaf as int] is Leaf,
    decreases steps,
{
    match nodes[at as int] {
        NodeView::Leaf { .. } => {},
        NodeView::Internal { left, right, feature, rule } => {
            assert(bins[feature as int] < num_bins[feature as int]);
            let next = if rule.goes_left(bins[feature as int], sentinels[feature as int]) { left } else { right };
            lemma_leaf_from_reached(nodes, num_bins, categorical, bins, sentinels, next, (steps - 1) as nat);
        },
    }
}

/// Every row reaches a leaf of a well-formed tree.
pub proof fn law_every_row_reaches_a_leaf(
    nodes: Seq<NodeView>,
    num_bins: Seq<nat>,
    categorical: Seq<bool>,
    bins: Seq<u8>,
    sentinels: Seq<u8>,
)
    requires
        tree_wf(nodes, num_bins, categorical),
        bins_fit(bins, num_bins),
        sentinels.len() >= bins.len(),
    ensures
        leaf_of(nodes, bins, sentinels) matches Some(leaf) && leaf < nodes.len() && nodes[leaf as int] is Leaf,
{
    lemma_leaf_from_reached(nodes, num_bins, categorical, bins, sentinels, 0, nodes.len());
}

impl Tree {
    /// A tree without nodes, with room for those of a tree with so many leaves.
    pub fn new(max_leaves: usize) -> (tree: Self)
        ensures
            tree@ == Seq::<NodeView>::empty(),
    {
        let tree = Tree { nodes: Vec::with_capacity(if max_leaves < 0x8000 { 2 * max_leaves } else { 0x1_0000 }) };
        assert(tree@ =~= Seq::<NodeView>::empty());
        tree
    }

    /// The value of the leaf that a row reaches.
    ///
    /// `columns[f]` is the per-row binned values for feature `f`; `sentinels[f]` is
    /// the bin index used to encode missing values for that feature.
    pub fn predict_row(&self, row: usize, columns: &[&[u8]], sentinels: &[u8]) -> (value: Double)
        requires
            leaf_of(self@, row_bins(columns@, row as int), sentinels@) is Some,
            forall|f: int|
                0 <= f < columns@.len() && asks_for(
                    self@,
                    row_bins(columns@, row as int),
                    sentinels@,
                    0,
                    self@.len(),
                    f,
                ) ==> row < (#[trigger] columns@[f])@.len(),
        ensures
            value == self@[leaf_of(self@, row_bins(columns@, row as int), sentinels@)->0 as int]->value,
    {
        let ghost bins = row_bins(columns@, row as int);
        let ghost mut steps: nat = self@.len();
        let mut idx: usize = 0;
        loop
            invariant
                bins == row_bins(columns@, row as int),
                forall|f: int|
                    0 <= f < columns@.len() && asks_for(self@, bins, sentinels@, idx as nat, steps, f) ==> row < (
                    #[trigger] columns@[f])@.len(),
                leaf_of(self@, bins, sentinels@) is Some,
                leaf_from(self@, bins, sentinels@, idx as nat, steps) == leaf_of(self@, bins, sentinels@),
            decreases steps,
        {
            assert(self@[idx as int] == self.nodes@[idx as int]@);
            match &self.nodes[idx] {
                Node::Leaf { value } => {
                    return *value;
                },
                Node::Internal { left_child, right_child, split_feature, threshold } => {
                    let feature = *split_feature as usize;
                    assert(row < columns@[feature as int]@.len());
                    let bin = columns[feature][row];
                    assert(bin == bins[feature as int]);
                    let left = match threshold {
                        Threshold::Numeric { .. } => threshold.goes_left(bin, sentinels[feature]),
                        Threshold::Categorical(cats) => cats[bin as usize],
                    };
                    idx = if left {
                        *left_child as usize
                    } else {
                        *right_child as usize
                    };
                    proof {
                        steps = (steps - 1) as nat;
                    }
                },
            }
        }
    }
}

/// Leaf node during training. The active leaves are those that may still be split; the next
/// one to be split is selected by the gain of its best split, or by its depth.
pub struct ActiveLeaf {
    pub leaf_index: usize,
    pub start: usize,
    pub len: usize,
    pub depth: usize,
    pub histograms: Histograms,
    pub best_split: SplitInfo,
}

impl View for ActiveLeaf {
    type V = OpenLeaf;

    open spec fn view(&self) -> OpenLeaf {
        OpenLeaf {
            node: self.leaf_index as nat,
            start: self.start as nat,
            len: self.len as nat,
            depth: self.depth as nat,
            histograms: self.histograms@,
            split: self.best_split@,
        }
    }
}

/// The contents of active leaves.
pub open spec fn open_leaves(active: Seq<ActiveLeaf>) -> Seq<OpenLeaf> {
    active.map_values(|a: ActiveLeaf| a@)
}

/// Leaves given as `(start, len, node)`.
pub open spec fn closed_leaves(finished: Seq<(usize, usize, usize)>) -> Seq<ClosedLeaf> {
    finished.map_values(
        |f: (usize, usize, usize)| ClosedLeaf { start: f.0 as nat, len: f.1 as nat, node: f.2 as nat },
    )
}

/// A tree in the making.
pub open spec fn growth_of(nodes: Seq<NodeView>, active: Seq<ActiveLeaf>, finished: Seq<(usize, usize, usize)>) -> Growth {
    Growth { nodes, active: open_leaves(active), finished: closed_leaves(finished) }
}

/// The value of a leaf.
pub fn calculate_value(g: Double, h: Double, l1: Double, l2: Double) -> (r: Double)
    ensures
        r == value_of(g, h, l1, l2),
{
    if l1.same(Double::zero()) {
        g.neg().over(h.plus(l2))
    } else {
        let d = g.abs().minus(l1).max(Double::zero());
        g.signum().neg().times(d).over(h.plus(l2))
    }
}

/// The leaf to be split next.
fn choose_leaf(active: &Vec<ActiveLeaf>, leaf_wise: bool) -> (k: usize)
    requires
        active@.len() > 0,
    ensures
        k == chosen(open_leaves(active@), leaf_wise, active@.len()),
        k < active@.len(),
{
    let mut best: usize = 0;
    for i in 1..active.len()
        invariant
            best < i,
            best < active@.len(),
            best == chosen(open_leaves(active@), leaf_wise, i as nat),
    {
        let a = &active[best];
        let b = &active[i];
        let a_rank = a.best_split.gain.total_order_key();
        let b_rank = b.best_split.gain.total_order_key();
        let better = if leaf_wise {
            a_rank <= b_rank
        } else {
            b.depth < a.depth || (b.depth == a.depth && a_rank < b_rank)
        };
        if better {
            best = i;
        }
    }
    best
}

/// The sums of gradients and hessians over all rows.
fn sum_grad_hess(grad_hess: &[[Single; 2]]) -> (all: HistogramBin)
    ensures
        all == sums(grad_hess@, grad_hess@.len()),
{
    let mut all = HistogramBin { sum_gradients: Double::zero(), sum_hessians: Double::zero() };
    for i in 0..grad_hess.len()
        invariant
            all == sums(grad_hess@, i as nat),
    {
        all.add(grad_hess[i]);
    }
    all
}

impl Tree {
    /// Adds a leaf: to the active leaves if a split was found for it, else to the finished ones.
    fn push_leaf(
        &mut self,
        active_leaves: &mut Vec<ActiveLeaf>,
        finished_leaves: &mut Vec<(usize, usize, usize)>,
        histograms: Option<Histograms>,
        gradient: Double,
        hessian: Double,
        start: usize,
        len: usize,
        depth: usize,
        p: &BoosterParameters,
        pool: Option<&rayon::ThreadPool>,
    ) -> (node: usize)
        requires
            histograms matches Some(h) ==> h@.wf(),
        ensures
            node == old(self)@.len(),
            growth_of(final(self)@, final(active_leaves)@, final(finished_leaves)@) == growth_of(
                old(self)@,
                old(active_leaves)@,
                old(finished_leaves)@,
            ).with_leaf(
                histograms_view(histograms),
                HistogramBin { sum_gradients: gradient, sum_hessians: hessian },
                start as nat,
                len as nat,
                depth as nat,
                *p,
            ),
    {
        let ghost before = growth_of(self@, active_leaves@, finished_leaves@);
        let ghost all = HistogramBin { sum_gradients: gradient, sum_hessians: hessian };
        let value = calculate_value(gradient, hessian, p.lambda_l1, p.lambda_l2).times(p.learning_rate);
        let node = self.nodes.len();
        self.nodes.push(Node::Leaf { value });
        proof {
            assert(self@ =~= before.nodes.push(NodeView::Leaf { value }));
        }
        if let Some(h) = histograms {
            if depth < p.max_depth && p.min_sum_hessian_in_leaf.times(Double::two()).le(hessian) {
                let parent_score = calculate_score(gradient, hessian, p.lambda_l1, p.lambda_l2);
                if let Some(best_split) = h.find_best_split(gradient, hessian, parent_score, p, pool) {
                    active_leaves.push(
                        ActiveLeaf { leaf_index: node, start, len, depth, histograms: h, best_split },
                    );
                    proof {
                        let a = active_leaves@.last()@;
                        assert(open_leaves(active_leaves@) =~= before.active.push(a));
                    }
                    return node;
                }
            }
        }
        finished_leaves.push((start, len, node));
        proof {
            let c = ClosedLeaf { start: start as nat, len: len as nat, node: node as nat };
            assert(closed_leaves(finished_leaves@) =~= before.finished.push(c));
        }
        node
    }
}

pub open spec fn histograms_view(h: Option<Histograms>) -> Option<HistogramsView> {
    match h {
        Some(h) => Some(h@),
        None => None,
    }
}

/// The histograms of the two sides of a leaf, and the leaf's split. The smaller side is built
/// directly, the larger is derived by subtracting; nothing is built if neither side can be
/// split further. `ordered_gh` is scratch space.
fn divide(
    dataset: &Dataset,
    grad_hess: &[[Single; 2]],
    leaf: ActiveLeaf,
    left: &[u32],
    right: &[u32],
    num_leaves: usize,
    ordered_gh: &mut [[Single; 2]],
    p: &BoosterParameters,
    pool: Option<&rayon::ThreadPool>,
) -> (r: (Option<Histograms>, Option<Histograms>, SplitInfo))
    requires
        dataset.wf(),
        laid_out(dataset, leaf.histograms@),
        leaf.depth < usize::MAX,
        num_leaves < usize::MAX,
        dataset.num_rows <= grad_hess@.len(),
        forall|i: int| 0 <= i < left@.len() ==> (#[trigger] left@[i]) < dataset.num_rows,
        forall|i: int| 0 <= i < right@.len() ==> (#[trigger] right@[i]) < dataset.num_rows,
        left@.len() <= old(ordered_gh)@.len(),
        right@.len() <= old(ordered_gh)@.len(),
    ensures
        (histograms_view(r.0), histograms_view(r.1)) == side_histograms(
            dataset.feature_bundles@,
            grad_hess@,
            leaf@,
            left@,
            right@,
            num_leaves as nat,
            *p,
        ),
        r.2 == leaf.best_split,
        final(ordered_gh)@.len() == old(ordered_gh)@.len(),
{
    let ghost leaf_view = leaf@;
    let min_hessian = p.min_sum_hessian_in_leaf.times(Double::two());
    let both_terminal = leaf.depth + 1 >= p.max_depth || num_leaves + 1 >= p.max_leaves || (
    leaf.best_split.left_hessian.lt(min_hessian) && leaf.best_split.right_hessian.lt(min_hessian));
    if both_terminal {
        (None, None, leaf.best_split)
    } else {
        let left_is_smaller = left.len() < right.len();
        let smaller = if left_is_smaller { left } else { right };
        gather_grad_hess(grad_hess, smaller, ordered_gh, pool);
        let picked = slice_subrange(&*ordered_gh, 0, smaller.len());
        assert(picked@ =~= gathered(grad_hess@, smaller@));
        let built = Histograms::build(&dataset.feature_bundles, picked, smaller, pool);
        proof {
            lemma_side_histograms(dataset, grad_hess@, leaf_view, left@, right@, num_leaves as nat, *p);
        }
        let mut other = leaf.histograms;
        other.subtract(&built);
        if left_is_smaller {
            (Some(built), Some(other), leaf.best_split)
        } else {
            (Some(other), Some(built), leaf.best_split)
        }
    }
}

/// Separates the rows of a leaf in the row order and returns the number that go left.
fn separate_leaf(
    tree: &Tree,
    dataset: &Dataset,
    all_indices: &mut Vec<u32>,
    leaf: &ActiveLeaf,
    left_buffer: &mut Vec<u32>,
    right_buffer: &mut Vec<u32>,
    pool: Option<&rayon::ThreadPool>,
    flags: &mut Vec<bool>,
) -> (left: usize)
    requires
        leaf.start + leaf.len <= old(all_indices)@.len(),
        separable(dataset, leaf.best_split@, old(all_indices)@),
        old(all_indices)@.len() <= old(left_buffer)@.len(),
        old(all_indices)@.len() <= old(right_buffer)@.len(),
        old(all_indices)@.len() <= old(flags)@.len(),
    ensures
        final(all_indices)@ == rearranged(dataset, leaf@, old(all_indices)@),
        final(all_indices)@.len() == old(all_indices)@.len(),
        left <= leaf.len,
        final(all_indices)@.subrange(leaf.start as int, leaf.start + left) == lefts(
            dataset,
            leaf.best_split@,
            old(all_indices)@.subrange(leaf.start as int, leaf.start + leaf.len),
        ),
        final(all_indices)@.subrange(leaf.start + left, leaf.start + leaf.len) == rights(
            dataset,
            leaf.best_split@,
            old(all_indices)@.subrange(leaf.start as int, leaf.start + leaf.len),
        ),
        final(left_buffer)@.len() == old(left_buffer)@.len(),
        final(right_buffer)@.len() == old(right_buffer)@.len(),
        final(flags)@.len() == old(flags)@.len(),
{
    let ghost rows = all_indices@;
    let ghost segment = rows.subrange(leaf.start as int, leaf.start + leaf.len);
    let ghost split = leaf.best_split@;
    proof {
        lemma_separable_part(dataset, split, rows, leaf.start as int, leaf.start + leaf.len);
        lemma_sides_len(dataset, split, segment, segment.len());
        assert(segment.take(segment.len() as int) =~= segment);
    }
    let left;
    {
        let (head, tail) = all_indices.as_mut_slice().split_at_mut(leaf.start);
        let (own, rest) = tail.split_at_mut(leaf.len);
        assert(own@ =~= segment);
        left = tree.partition_indices(
            dataset,
            own,
            &leaf.best_split,
            left_buffer.as_mut_slice(),
            right_buffer.as_mut_slice(),
            pool,
            flags.as_mut_slice(),
        );
    }
    proof {
        assert(all_indices@ =~= rearranged(dataset, leaf@, rows));
        assert(all_indices@.subrange(leaf.start as int, leaf.start + left) =~= lefts(dataset, split, segment));
        assert(all_indices@.subrange(leaf.start + left, leaf.start + leaf.len) =~= rights(dataset, split, segment));
    }
    left
}

/// A leaf's rows, the segment of `len` rows from `start`, are rows of which `leaf` says that
/// they reach `node`.
spec fn rows_reach(rows: Seq<u32>, leaf: Seq<nat>, start: nat, len: nat, node: nat) -> bool {
    &&& node <= u32::MAX
    &&& start + len <= rows.len()
    &&& forall|k: int| start <= k < start + len ==> leaf[(#[trigger] rows[k]) as int] == node
}

/// The rows of a segment have their leaves written.
spec fn filled(rows: Seq<u32>, leaf: Seq<nat>, start: nat, len: nat, leaf_indices: Seq<u32>) -> bool {
    forall|k: int|
        start <= k < start + len ==> leaf_indices[(#[trigger] rows[k]) as int] == leaf[rows[k] as int]
}

/// Writes the node of a leaf for each row of its segment.
fn fill_leaf(
    rows: &Vec<u32>,
    start: usize,
    len: usize,
    node: usize,
    leaf_indices: &mut Vec<u32>,
    Ghost(leaf): Ghost<Seq<nat>>,
)
    requires
        rows_reach(rows@, leaf, start as nat, len as nat, node as nat),
        forall|k: int| 0 <= k < rows@.len() ==> (#[trigger] rows@[k]) < old(leaf_indices)@.len(),
    ensures
        final(leaf_indices)@.len() == old(leaf_indices)@.len(),
        filled(rows@, leaf, start as nat, len as nat, final(leaf_indices)@),
        forall|r: int|
            0 <= r < old(leaf_indices)@.len() && old(leaf_indices)@[r] == leaf[r] ==> #[trigger] final(leaf_indices)@[r]
                == leaf[r],
{
    let ghost before = leaf_indices@;
    for i in 0..len
        invariant
            rows_reach(rows@, leaf, start as nat, len as nat, node as nat),
            leaf_indices@.len() == before.len(),
            forall|k: int| 0 <= k < rows@.len() ==> (#[trigger] rows@[k]) < before.len(),
            filled(rows@, leaf, start as nat, i as nat, leaf_indices@),
            forall|r: int|
                0 <= r < before.len() && before[r] == leaf[r] ==> #[trigger] leaf_indices@[r] == leaf[r],
    {
        let end = rows.len();
        assert(leaf[rows@[start + i] as int] == node);
        leaf_indices[rows[start + i] as usize] = node as u32;
    }
}

/// The node of the leaf of each row, which is what `leaf` says.
fn leaves_of_rows(
    rows: &Vec<u32>,
    active: &Vec<ActiveLeaf>,
    finished: &Vec<(usize, usize, usize)>,
    num_rows: usize,
    Ghost(leaf): Ghost<Seq<nat>>,
    Ghost(g): Ghost<Growth>,
) -> (leaf_indices: Vec<u32>)
    requires
        rows@.len() == num_rows,
        leaf.len() == num_rows,
        forall|k: int| 0 <= k < rows@.len() ==> (#[trigger] rows@[k]) < num_rows,
        g.active == open_leaves(active@),
        g.finished == closed_leaves(finished@),
        forall|i: int|
            0 <= i < g.active.len() ==> rows_reach(
                rows@,
                leaf,
                (#[trigger] g.active[i]).start,
                g.active[i].len,
                g.active[i].node,
            ),
        forall|i: int|
            0 <= i < g.finished.len() ==> rows_reach(
                rows@,
                leaf,
                (#[trigger] g.finished[i]).start,
                g.finished[i].len,
                g.finished[i].node,
            ),
        forall|k: int| 0 <= k < rows@.len() ==> #[trigger] in_segment(g, k),
        forall|row: u32| row < num_rows ==> rows@.contains(row),
        num_rows <= u32::MAX,
    ensures
        leaf_indices@.len() == num_rows,
        forall|r: int| 0 <= r < num_rows ==> #[trigger] leaf_indices@[r] == leaf[r],
{
    let mut leaf_indices: Vec<u32> = vec![0u32; num_rows];
    for i in 0..finished.len()
        invariant
            leaf_indices@.len() == num_rows,
            forall|k: int| 0 <= k < rows@.len() ==> (#[trigger] rows@[k]) < num_rows,
            g.finished == closed_leaves(finished@),
            forall|i: int|
                0 <= i < g.finished.len() ==> rows_reach(
                    rows@,
                    leaf,
                    (#[trigger] g.finished[i]).start,
                    g.finished[i].len,
                    g.finished[i].node,
                ),
            forall|j: int|
                0 <= j < i ==> filled(rows@, leaf, (#[trigger] g.finished[j]).start, g.finished[j].len, leaf_indices@),
    {
        let (start, len, node) = finished[i];
        assert(g.finished[i as int] == (ClosedLeaf { start: start as nat, len: len as nat, node: node as nat }));
        fill_leaf(rows, start, len, node, &mut leaf_indices, Ghost(leaf));
    }
    for i in 0..active.len()
        invariant
            leaf_indices@.len() == num_rows,
            forall|k: int| 0 <= k < rows@.len() ==> (#[trigger] rows@[k]) < num_rows,
            g.active == open_leaves(active@),
            forall|i: int|
                0 <= i < g.active.len() ==> rows_reach(
                    rows@,
                    leaf,
                    (#[trigger] g.active[i]).start,
                    g.active[i].len,
                    g.active[i].node,
                ),
            forall|i: int|
                0 <= i < g.finished.len() ==> rows_reach(
                    rows@,
                    leaf,
                    (#[trigger] g.finished[i]).start,
                    g.finished[i].len,
                    g.finished[i].node,
                ),
            forall|j: int|
                0 <= j < g.finished.len() ==> filled(
                    rows@,
                    leaf,
                    (#[trigger] g.finished[j]).start,
                    g.finished[j].len,
                    leaf_indices@,
                ),
            forall|j: int|
                0 <= j < i ==> filled(rows@, leaf, (#[trigger] g.active[j]).start, g.active[j].len, leaf_indices@),
    {
        let a = &active[i];
        assert(g.active[i as int] == a@);
        fill_leaf(rows, a.start, a.len, a.leaf_index, &mut leaf_indices, Ghost(leaf));
    }
    proof {
        assert forall|r: int| 0 <= r < num_rows implies #[trigger] leaf_indices@[r] == leaf[r] by {
            assert(rows@.contains(r as u32));
            let k = choose|k: int| 0 <= k < rows@.len() && rows@[k] == r as u32;
            assert(in_segment(g, k));
            if exists|i: int|
                0 <= i < g.active.len() && (#[trigger] g.active[i]).start <= k < g.active[i].start + g.active[i].len {
                let i = choose|i: int|
                    0 <= i < g.active.len() && (#[trigger] g.active[i]).start <= k < g.active[i].start + g.active[i].len;
                assert(filled(rows@, leaf, g.active[i].start, g.active[i].len, leaf_indices@));
                assert(leaf_indices@[rows@[k] as int] == leaf[rows@[k] as int]);
            } else {
                let i = choose|i: int|
                    0 <= i < g.finished.len() && (#[trigger] g.finished[i]).start <= k < g.finished[i].start
                        + g.finished[i].len;
                assert(filled(rows@, leaf, g.finished[i].start, g.finished[i].len, leaf_indices@));
                assert(leaf_indices@[rows@[k] as int] == leaf[rows@[k] as int]);
            }
        }
    }
    leaf_indices
}

/// An open leaf of a tree in the making, and what holds of its rows.
proof fn lemma_open_leaf(
    d: &Dataset,
    p: BoosterParameters,
    g: Growth,
    rows: Seq<u32>,
    owner: Seq<nat>,
    leaves: nat,
    k: int,
)
    requires
        d.wf(),
        sound(d, p, g, rows, owner, leaves),
        0 <= k < g.active.len(),
    ensures
        g.nodes.len() == 2 * leaves - 1,
        rows.len() == d.num_rows,
        g.active[k].node < g.nodes.len(),
        g.active[k].start + g.active[k].len <= rows.len(),
        g.active[k].depth < p.max_depth,
        laid_out(d, g.active[k].histograms),
        g.active[k].split.feature < d.feature_binners@.len(),
        separable(d, g.active[k].split, rows),
{
    lemma_sound_facts(d, p, g, rows, owner, leaves);
    let leaf = g.active[k];
    let f = leaf.split.feature as int;
    assert forall|i: int| 0 <= i < rows.len() implies leaf.split.rule.covers(
        d.bin((#[trigger] rows[i]) as int, f) as nat + 1,
    ) by {
        lemma_row_bins_fit(d, rows[i] as int);
        assert(d.row_bins(rows[i] as int)[f] < d.bin_counts()[f]);
    }
    assert(d.feature_binners@[f]@.wf());
}

/// Rows stay rows of the data.
proof fn lemma_sound_rows(
    d: &Dataset,
    p: BoosterParameters,
    g: Growth,
    rows: Seq<u32>,
    owner: Seq<nat>,
    leaves: nat,
)
    requires
        sound(d, p, g, rows, owner, leaves),
    ensures
        forall|k: int| 0 <= k < rows.len() ==> (#[trigger] rows[k]) < d.num_rows,
{
    lemma_sound_facts(d, p, g, rows, owner, leaves);
}

/// In a finished tree every row has a leaf.
proof fn lemma_rows_have_leaves(
    d: &Dataset,
    p: BoosterParameters,
    g: Growth,
    rows: Seq<u32>,
    owner: Seq<nat>,
    leaves: nat,
)
    requires
        sound(d, p, g, rows, owner, leaves),
        d.num_rows <= u32::MAX,
    ensures
        forall|row: int| 0 <= row < d.num_rows ==> (#[trigger] d.leaf_of_row(g.nodes, row)) is Some,
{
    lemma_sound_facts(d, p, g, rows, owner, leaves);
    assert forall|row: int| 0 <= row < d.num_rows implies (#[trigger] d.leaf_of_row(g.nodes, row)) is Some by {
        assert(rows.contains(row as u32));
        let k = choose|k: int| 0 <= k < rows.len() && rows[k] == row as u32;
        assert(d.leaf_of_row(g.nodes, rows[k] as int) == Some(owner[k]));
    }
}

impl Growth {
    /// A leaf that is no longer open becomes the parent of two new ones.
    spec fn with_children(
        self,
        leaf: OpenLeaf,
        histograms: (Option<HistogramsView>, Option<HistogramsView>),
        left: nat,
        right: nat,
        p: BoosterParameters,
    ) -> Growth {
        let both = self.with_leaf(histograms.0, leaf.split.left, leaf.start, left, leaf.depth + 1, p).with_leaf(
            histograms.1,
            leaf.split.right,
            leaf.start + left,
            right,
            leaf.depth + 1,
            p,
        );
        Growth {
            nodes: both.nodes.update(
                leaf.node as int,
                NodeView::Internal {
                    left: self.nodes.len(),
                    right: self.nodes.len() + 1,
                    feature: leaf.split.feature,
                    rule: leaf.split.rule,
                },
            ),
            ..both
        }
    }
}

impl Tree {
    /// Puts two new leaves below a leaf with the split `split`, which becomes their parent.
    fn push_children(
        &mut self,
        active_leaves: &mut Vec<ActiveLeaf>,
        finished_leaves: &mut Vec<(usize, usize, usize)>,
        histograms: (Option<Histograms>, Option<Histograms>),
        split: SplitInfo,
        leaf_index: usize,
        start: usize,
        left_len: usize,
        right_len: usize,
        depth: usize,
        p: &BoosterParameters,
        pool: Option<&rayon::ThreadPool>,
        Ghost(leaf): Ghost<OpenLeaf>,
    )
        requires
            leaf.node == leaf_index,
            leaf.start == start,
            leaf.depth == depth,
            leaf.split == split@,
            leaf_index < old(self)@.len() <= MAX_NODES,
            start + left_len <= usize::MAX,
            depth < usize::MAX,
            split.feature_index <= u32::MAX,
            histograms.0 matches Some(h) ==> h@.wf(),
            histograms.1 matches Some(h) ==> h@.wf(),
        ensures
            growth_of(final(self)@, final(active_leaves)@, final(finished_leaves)@) == growth_of(
                old(self)@,
                old(active_leaves)@,
                old(finished_leaves)@,
            ).with_children(
                leaf,
                (histograms_view(histograms.0), histograms_view(histograms.1)),
                left_len as nat,
                right_len as nat,
                *p,
            ),
    {
        let (left_histograms, right_histograms) = histograms;
        let left_node = self.push_leaf(
            active_leaves,
            finished_leaves,
            left_histograms,
            split.left_gradient,
            split.left_hessian,
            start,
            left_len,
            depth + 1,
            p,
            pool,
        );
        let ghost one = growth_of(self@, active_leaves@, finished_leaves@);
        assert(one.nodes.len() == old(self)@.len() + 1);
        let right_node = self.push_leaf(
            active_leaves,
            finished_leaves,
            right_histograms,
            split.right_gradient,
            split.right_hessian,
            start + left_len,
            right_len,
            depth + 1,
            p,
            pool,
        );
        let ghost nodes = growth_of(self@, active_leaves@, finished_leaves@).nodes;
        assert(nodes.len() == one.nodes.len() + 1);
        self.nodes.set(
            leaf_index,
            Node::Internal {
                left_child: left_node as u32,
                right_child: right_node as u32,
                split_feature: split.feature_index as u32,
                threshold: split.threshold,
            },
        );
        assert(self@ =~= nodes.update(leaf_index as int, self.nodes@[leaf_index as int]@));
    }

    /// Splits the next leaf. `owner` gives the leaf of each place in the row order before, the
    /// result that after.
    fn split_next(
        &mut self,
        dataset: &Dataset,
        grad_hess: &[[Single; 2]],
        active_leaves: &mut Vec<ActiveLeaf>,
        finished_leaves: &mut Vec<(usize, usize, usize)>,
        all_indices: &mut Vec<u32>,
        left_buffer: &mut Vec<u32>,
        right_buffer: &mut Vec<u32>,
        partition_flags: &mut Vec<bool>,
        ordered_gh: &mut Vec<[Single; 2]>,
        num_leaves: usize,
        p: &BoosterParameters,
        pool: Option<&rayon::ThreadPool>,
        Ghost(owner): Ghost<Seq<nat>>,
    ) -> (after: Ghost<Seq<nat>>)
        requires
            dataset.wf(),
            dataset.num_rows <= grad_hess@.len(),
            dataset.feature_binners@.len() <= u32::MAX,
            num_leaves < p.max_leaves <= MAX_LEAVES,
            old(active_leaves)@.len() > 0,
            sound(
                dataset,
                *p,
                growth_of(old(self)@, old(active_leaves)@, old(finished_leaves)@),
                old(all_indices)@,
                owner,
                num_leaves as nat,
            ),
            old(left_buffer)@.len() == dataset.num_rows,
            old(right_buffer)@.len() == dataset.num_rows,
            old(partition_flags)@.len() == dataset.num_rows,
            old(ordered_gh)@.len() == dataset.num_rows,
        ensures
            ({
                let g = growth_of(old(self)@, old(active_leaves)@, old(finished_leaves)@);
                let rows = old(all_indices)@;
                let g2 = split_leaf(dataset, grad_hess@, *p, g, rows, num_leaves as nat);
                &&& growth_of(final(self)@, final(active_leaves)@, final(finished_leaves)@) == g2
                &&& final(all_indices)@ == rearranged(dataset, next_leaf(g, *p), rows)
                &&& sound(dataset, *p, g2, final(all_indices)@, after@, (num_leaves + 1) as nat)
            }),
            final(left_buffer)@.len() == dataset.num_rows,
            final(right_buffer)@.len() == dataset.num_rows,
            final(partition_flags)@.len() == dataset.num_rows,
            final(ordered_gh)@.len() == dataset.num_rows,
    {
        let ghost g = growth_of(self@, active_leaves@, finished_leaves@);
        let ghost rows = all_indices@;
        let idx = choose_leaf(active_leaves, p.leaf_wise);
        proof {
            lemma_open_leaf(dataset, *p, g, rows, owner, num_leaves as nat, idx as int);
        }
        let leaf = active_leaves.swap_remove(idx);
        let ghost leaf_view = leaf@;
        let leaf_index = leaf.leaf_index;
        let depth = leaf.depth;
        let start = leaf.start;
        let len = leaf.len;
        proof {
            assert(g.active[idx as int] == leaf_view);
            assert(open_leaves(active_leaves@) =~= g.active.update(idx as int, g.active.last()).drop_last());
        }
        let left_len = separate_leaf(
            self,
            dataset,
            all_indices,
            &leaf,
            left_buffer,
            right_buffer,
            pool,
            partition_flags,
        );
        let ghost after;
        proof {
            after = lemma_split_leaf(dataset, grad_hess@, *p, g, rows, owner, num_leaves as nat);
            let g2 = split_leaf(dataset, grad_hess@, *p, g, rows, num_leaves as nat);
            lemma_sound_rows(dataset, *p, g2, all_indices@, after, (num_leaves + 1) as nat);
        }
        let left = slice_subrange(all_indices.as_slice(), start, start + left_len);
        let right = slice_subrange(all_indices.as_slice(), start + left_len, start + len);
        proof {
            lemma_side_histograms(dataset, grad_hess@, leaf_view, left@, right@, num_leaves as nat, *p);
        }
        let (left_histograms, right_histograms, split) = divide(
            dataset,
            grad_hess,
            leaf,
            left,
            right,
            num_leaves,
            ordered_gh.as_mut_slice(),
            p,
            pool,
        );
        self.push_children(
            active_leaves,
            finished_leaves,
            (left_histograms, right_histograms),
            split,
            leaf_index,
            start,
            left_len,
            len - left_len,
            depth,
            p,
            pool,
            Ghost(leaf_view),
        );
        Ghost(after)
    }

    /// Grows the tree and returns each row's leaf.
    pub fn fit(
        &mut self,
        dataset: &Dataset,
        grad_hess: &[[Single; 2]],
        p: &BoosterParameters,
        pool: Option<&rayon::ThreadPool>,
    ) -> (leaf_indices: Vec<u32>)
        requires
            dataset.wf(),
            dataset.num_rows <= u32::MAX,
            dataset.feature_binners@.len() <= u32::MAX,
            dataset.num_rows <= grad_hess@.len(),
            p.max_leaves <= MAX_LEAVES,
        ensures
            final(self)@ == grown(dataset, grad_hess@, *p),
            tree_wf(final(self)@, dataset.bin_counts(), dataset.kinds()),
            tree_shape(final(self)@),
            no_deeper(final(self)@, p.max_depth as nat),
            final(self)@.len() < 2 * if p.max_leaves >= 1 { p.max_leaves as int } else { 1 },
            leaf_indices@.len() == dataset.num_rows,
            forall|row: int|
                0 <= row < dataset.num_rows ==> dataset.leaf_of_row(final(self)@, row) == Some(
                    (#[trigger] leaf_indices@[row]) as nat,
                ),
    {
        self.nodes.clear();
        let num_rows = dataset.num_rows;
        let mut all_indices: Vec<u32> = Vec::with_capacity(num_rows);
        for row in 0..num_rows
            invariant
                num_rows <= u32::MAX,
                all_indices@ =~= all_rows(row as nat),
        {
            all_indices.push(row as u32);
        }
        let mut left_buffer: Vec<u32> = vec![0u32; num_rows];
        let mut right_buffer: Vec<u32> = vec![0u32; num_rows];
        let mut partition_flags: Vec<bool> = vec![false; num_rows];
        let mut ordered_gh: Vec<[Single; 2]> = vec![[Single { bits: 0 }, Single { bits: 0 }]; num_rows];
        let mut active_leaves: Vec<ActiveLeaf> = Vec::new();
        let mut finished_leaves: Vec<(usize, usize, usize)> = Vec::new();
        let root_histograms = Histograms::build(&dataset.feature_bundles, grad_hess, &all_indices, pool);
        let all = sum_grad_hess(grad_hess);
        let ghost start = root(dataset, grad_hess@, *p);
        proof {
            assert(self@ =~= Seq::<NodeView>::empty());
            assert(open_leaves(active_leaves@) =~= Seq::<OpenLeaf>::empty());
            assert(closed_leaves(finished_leaves@) =~= Seq::<ClosedLeaf>::empty());
        }
        self.push_leaf(
            &mut active_leaves,
            &mut finished_leaves,
            Some(root_histograms),
            all.sum_gradients,
            all.sum_hessians,
            0,
            num_rows,
            0,
            p,
            pool,
        );
        let mut num_leaves: usize = 1;
        let ghost mut owner: Seq<nat>;
        proof {
            owner = lemma_root(dataset, grad_hess@, *p);
        }
        let ghost mut g = start;
        while num_leaves < p.max_leaves && active_leaves.len() > 0
            invariant
                dataset.wf(),
                num_rows == dataset.num_rows <= u32::MAX,
                num_rows <= grad_hess@.len(),
                dataset.feature_binners@.len() <= u32::MAX,
                p.max_leaves <= MAX_LEAVES,
                1 <= num_leaves,
                num_leaves <= p.max_leaves || num_leaves == 1,
                g == growth_of(self@, active_leaves@, finished_leaves@),
                sound(dataset, *p, g, all_indices@, owner, num_leaves as nat),
                grow(dataset, grad_hess@, *p, g, all_indices@, num_leaves as nat).nodes == grown(dataset, grad_hess@, *p),
                left_buffer@.len() == num_rows,
                right_buffer@.len() == num_rows,
                partition_flags@.len() == num_rows,
                ordered_gh@.len() == num_rows,
            decreases p.max_leaves - num_leaves,
        {
            let ghost old_rows = all_indices@;
            let after = self.split_next(
                dataset,
                grad_hess,
                &mut active_leaves,
                &mut finished_leaves,
                &mut all_indices,
                &mut left_buffer,
                &mut right_buffer,
                &mut partition_flags,
                &mut ordered_gh,
                num_leaves,
                p,
                pool,
                Ghost(owner),
            );
            proof {
                g = split_leaf(dataset, grad_hess@, *p, g, old_rows, num_leaves as nat);
                owner = after@;
            }
            num_leaves += 1;
        }
        proof {
            lemma_sound_facts(dataset, *p, g, all_indices@, owner, num_leaves as nat);
            lemma_rows_have_leaves(dataset, *p, g, all_indices@, owner, num_leaves as nat);
        }
        let ghost leaf = Seq::new(num_rows as nat, |row: int| dataset.leaf_of_row(self@, row)->0);
        leaves_of_rows(&all_indices, &active_leaves, &finished_leaves, num_rows, Ghost(leaf), Ghost(g))
    }
}

} // verus!
