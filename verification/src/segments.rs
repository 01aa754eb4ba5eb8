//! While a tree grows, the rows of each leaf lie side by side in the row order: those, and
//! only those, that reach the leaf.

use vstd::prelude::*;
use vstd::seq_lib::lemma_multiset_commutative;

use crate::bundle::{lemma_total_monotone, packed_bin, total};
use crate::dataset::{lemma_layout, Dataset};
use crate::double::Single;
use crate::growth::{
    all_rows, chosen, leaf_split, next_leaf, rearranged, root, side_histograms, split_leaf, sums, Growth, OpenLeaf,
};
use crate::histogram::{
    feature_kinds, feature_sizes, histograms_of, lemma_histograms_of_wf, starts, HistogramBin, HistogramsView,
};
use crate::parameters::BoosterParameters;
use crate::partition::{gathered, law_partition_keeps_every_row, lefts, lemma_sides_len, rights, sent_left};
use crate::split::{law_split_suits_its_feature, score_of};
use crate::tree::{
    at_depth, bins_fit, has_parent, internals, is_child, leaf_from, leaf_of, no_deeper, tree_shape, tree_wf, NodeView,
};

verus! {

impl Dataset {
    /// The bins of a row.
    pub open spec fn row_bins(&self, row: int) -> Seq<u8> {
        Seq::new(self.feature_binners@.len(), |f: int| self.bin(row, f))
    }

    /// The bins of missing values.
    pub open spec fn sentinels(&self) -> Seq<u8> {
        Seq::new(self.feature_binners@.len(), |f: int| self.sentinel(f))
    }

    /// The number of bins of each feature.
    pub open spec fn bin_counts(&self) -> Seq<nat> {
        Seq::new(self.feature_binners@.len(), |f: int| self.feature_binners@[f]@.num_bins())
    }

    /// Which features are categorical.
    pub open spec fn kinds(&self) -> Seq<bool> {
        Seq::new(self.feature_binners@.len(), |f: int| self.feature_binners@[f]@ is Categorical)
    }

    /// The leaf that a row of the training data reaches.
    pub open spec fn leaf_of_row(&self, nodes: Seq<NodeView>, row: int) -> Option<nat> {
        leaf_of(nodes, self.row_bins(row), self.sentinels())
    }
}

/// Histograms are laid out as the features of the data.
pub open spec fn laid_out(d: &Dataset, h: HistogramsView) -> bool {
    &&& h.wf()
    &&& h.offsets == starts(feature_sizes(d.feature_bundles@))
    &&& h.is_categorical == feature_kinds(d.feature_bundles@)
}

pub(crate) proof fn lemma_laid_out_feature(d: &Dataset, h: HistogramsView, f: int)
    requires
        d.wf(),
        laid_out(d, h),
        0 <= f < d.feature_binners@.len(),
    ensures
        h.feature(f).len() == d.bin_counts()[f],
        h.is_categorical[f] == d.kinds()[f],
        h.is_categorical.len() == d.feature_binners@.len(),
{
    lemma_layout(*d);
    let sizes = feature_sizes(d.feature_bundles@);
    lemma_total_monotone(sizes, f as nat, sizes.len());
    lemma_total_monotone(sizes, (f + 1) as nat, sizes.len());
    assert(h.offsets[f] == total(sizes, f as nat));
    assert(h.offsets[f + 1] == total(sizes, (f + 1) as nat));
    assert(h.offsets[f + 1] <= h.bins.len());
}

/// A leaf's rows are the segment of `len` rows from `start`; `owner` gives the leaf of each
/// place in the row order.
spec fn owns(owner: Seq<nat>, node: nat, start: nat, len: nat) -> bool {
    &&& start + len <= owner.len()
    &&& forall|k: int| 0 <= k < owner.len() ==> (start <= k < start + len <==> #[trigger] owner[k] == node)
}

spec fn open_ok(d: &Dataset, p: BoosterParameters, nodes: Seq<NodeView>, owner: Seq<nat>, a: OpenLeaf) -> bool {
    &&& a.node < nodes.len()
    &&& nodes[a.node as int] is Leaf
    &&& owns(owner, a.node, a.start, a.len)
    &&& a.depth < p.max_depth
    &&& laid_out(d, a.histograms)
    &&& a.split.feature < d.feature_binners@.len()
    &&& a.split.rule.suits(d.bin_counts()[a.split.feature as int], d.kinds()[a.split.feature as int])
}

/// The leaves of a tree in the making have nodes and segments of their own.
spec fn leaves_ok(d: &Dataset, p: BoosterParameters, g: Growth, owner: Seq<nat>) -> bool {
    &&& owner.len() == d.num_rows
    &&& forall|i: int| 0 <= i < g.active.len() ==> open_ok(d, p, g.nodes, owner, #[trigger] g.active[i])
    &&& forall|i: int|
        0 <= i < g.finished.len() ==> {
            &&& (#[trigger] g.finished[i]).node < g.nodes.len()
            &&& g.nodes[g.finished[i].node as int] is Leaf
            &&& owns(owner, g.finished[i].node, g.finished[i].start, g.finished[i].len)
        }
    &&& forall|i: int, j: int|
        0 <= i < j < g.active.len() ==> (#[trigger] g.active[i]).node != (#[trigger] g.active[j]).node
    &&& forall|i: int, j: int|
        0 <= i < g.active.len() && 0 <= j < g.finished.len() ==> (#[trigger] g.active[i]).node != (
        #[trigger] g.finished[j]).node
}

/// A node is that of a leaf.
spec fn has_leaf(g: Growth, node: nat) -> bool {
    ||| exists|i: int| 0 <= i < g.active.len() && (#[trigger] g.active[i]).node == node
    ||| exists|i: int| 0 <= i < g.finished.len() && (#[trigger] g.finished[i]).node == node
}

/// No node lies deeper than `max_depth`, and an open leaf not deeper than it says.
spec fn shallow(p: BoosterParameters, g: Growth) -> bool {
    &&& no_deeper(g.nodes, p.max_depth as nat)
    &&& forall|i: int, k: nat|
        0 <= i < g.active.len() && #[trigger] at_depth(g.nodes, g.active[i].node as int, k) ==> k <= g.active[i].depth
}

/// The state of a growing tree: `leaves` leaves, each with the segment of the rows that
/// reach it.
pub(crate) closed spec fn sound(
    d: &Dataset,
    p: BoosterParameters,
    g: Growth,
    rows: Seq<u32>,
    owner: Seq<nat>,
    leaves: nat,
) -> bool {
    &&& d.wf()
    &&& leaves >= 1
    &&& g.nodes.len() == 2 * leaves - 1
    &&& tree_wf(g.nodes, d.bin_counts(), d.kinds())
    &&& tree_shape(g.nodes)
    &&& leaves_ok(d, p, g, owner)
    &&& shallow(p, g)
    &&& rows.len() == d.num_rows
    &&& rows.to_multiset() == all_rows(d.num_rows as nat).to_multiset()
    &&& forall|k: int| 0 <= k < rows.len() ==> (#[trigger] rows[k]) < d.num_rows
    &&& forall|k: int| 0 <= k < owner.len() ==> #[trigger] has_leaf(g, owner[k])
    &&& forall|k: int|
        0 <= k < rows.len() ==> d.leaf_of_row(g.nodes, (#[trigger] rows[k]) as int) == Some(owner[k])
}

/// Adding a leaf keeps the leaves in order.
proof fn lemma_with_leaf(
    d: &Dataset,
    p: BoosterParameters,
    g: Growth,
    owner: Seq<nat>,
    histograms: Option<HistogramsView>,
    all: HistogramBin,
    start: nat,
    len: nat,
    depth: nat,
)
    requires
        d.wf(),
        leaves_ok(d, p, g, owner),
        owns(owner, g.nodes.len(), start, len),
        histograms matches Some(h) ==> laid_out(d, h),
    ensures
        ({
            let h = g.with_leaf(histograms, all, start, len, depth, p);
            let node = g.nodes.len();
            &&& leaves_ok(d, p, h, owner)
            &&& h.nodes.len() == node + 1
            &&& h.nodes.last() is Leaf
            &&& forall|i: int| 0 <= i < node ==> #[trigger] h.nodes[i] == g.nodes[i]
            &&& forall|m: nat| #[trigger] has_leaf(g, m) ==> has_leaf(h, m)
            &&& has_leaf(h, node)
            &&& forall|i: int|
                0 <= i < h.active.len() ==> {
                    ||| (#[trigger] h.active[i]).node == node && h.active[i].depth == depth
                    ||| i < g.active.len() && h.active[i] == g.active[i]
                }
            &&& forall|i: int|
                0 <= i < h.finished.len() ==> {
                    ||| (#[trigger] h.finished[i]).node == node
                    ||| i < g.finished.len() && h.finished[i] == g.finished[i]
                }
        }),
{
    let h = g.with_leaf(histograms, all, start, len, depth, p);
    if let Some(split) = leaf_split(histograms, all, depth, p) {
        let view = histograms->0;
        let score = score_of(all.sum_gradients, all.sum_hessians, p.lambda_l1, p.lambda_l2);
        law_split_suits_its_feature(view, view.is_categorical.len(), all, score, p);
        lemma_layout(*d);
        lemma_laid_out_feature(d, view, split.feature as int);
        assert(h.active.last().node == g.nodes.len());
        assert forall|i: int| 0 <= i < h.active.len() implies open_ok(d, p, h.nodes, owner, #[trigger] h.active[i]) by {
            if i < g.active.len() {
                assert(open_ok(d, p, g.nodes, owner, g.active[i]));
            }
        }
    } else {
        assert(h.finished.last().node == g.nodes.len());
        assert forall|i: int| 0 <= i < h.active.len() implies open_ok(d, p, h.nodes, owner, #[trigger] h.active[i]) by {
            assert(open_ok(d, p, g.nodes, owner, g.active[i]));
        }
        assert forall|i: int, j: int| 0 <= i < h.active.len() && 0 <= j < h.finished.len() implies (
        #[trigger] h.active[i]).node != (#[trigger] h.finished[j]).node by {
            assert(open_ok(d, p, g.nodes, owner, g.active[i]));
        }
    }
    assert forall|node: nat| #[trigger] has_leaf(g, node) implies has_leaf(h, node) by {
        if exists|i: int| 0 <= i < g.active.len() && (#[trigger] g.active[i]).node == node {
            let i = choose|i: int| 0 <= i < g.active.len() && (#[trigger] g.active[i]).node == node;
            assert(h.active[i].node == node);
        } else {
            let i = choose|i: int| 0 <= i < g.finished.len() && (#[trigger] g.finished[i]).node == node;
            assert(h.finished[i].node == node);
        }
    }
}

/// Where a row ends up after a leaf has been split: in one of the two new leaves if it was
/// in the leaf, and where it was if not.
proof fn lemma_way_after_split(
    before: Seq<NodeView>,
    after: Seq<NodeView>,
    leaf: nat,
    bins: Seq<u8>,
    sentinels: Seq<u8>,
    at: nat,
    steps: nat,
    more: nat,
)
    requires
        leaf < before.len() <= after.len(),
        forall|i: int| 0 <= i < before.len() && i != leaf ==> #[trigger] after[i] == before[i],
        before[leaf as int] is Leaf,
        after[leaf as int] matches NodeView::Internal { left, right, feature, rule } && {
            &&& left < after.len()
            &&& right < after.len()
            &&& after[left as int] is Leaf
            &&& after[right as int] is Leaf
            &&& feature < bins.len()
            &&& feature < sentinels.len()
            &&& rule.covers(bins[feature as int] as nat + 1)
        },
        leaf_from(before, bins, sentinels, at, steps) is Some,
        more > steps || (more == steps && leaf_from(before, bins, sentinels, at, steps) != Some(leaf)),
    ensures
        leaf_from(after, bins, sentinels, at, more) == if leaf_from(before, bins, sentinels, at, steps) == Some(leaf) {
            let n = after[leaf as int];
            Some(
                if n->rule.goes_left(bins[n->feature as int], sentinels[n->feature as int]) {
                    n->left
                } else {
                    n->right
                },
            )
        } else {
            leaf_from(before, bins, sentinels, at, steps)
        },
    decreases steps,
{
    match before[at as int] {
        NodeView::Leaf { .. } => {
            if at == leaf {
                let n = after[leaf as int];
                let next = if n->rule.goes_left(bins[n->feature as int], sentinels[n->feature as int]) {
                    n->left
                } else {
                    n->right
                };
                assert(leaf_from(after, bins, sentinels, next, (more - 1) as nat) == Some(next));
            }
        },
        NodeView::Internal { left, right, feature, rule } => {
            let next = if rule.goes_left(bins[feature as int], sentinels[feature as int]) { left } else { right };
            lemma_way_after_split(before, after, leaf, bins, sentinels, next, (steps - 1) as nat, (more - 1) as nat);
        },
    }
}

/// What the row order is after the rows of a leaf have been separated.
proof fn lemma_rearranged(d: &Dataset, leaf: OpenLeaf, rows: Seq<u32>)
    requires
        leaf.start + leaf.len <= rows.len(),
    ensures
        ({
            let segment = rows.subrange(leaf.start as int, (leaf.start + leaf.len) as int);
            let left = lefts(d, leaf.split, segment);
            let after = rearranged(d, leaf, rows);
            &&& left.len() + rights(d, leaf.split, segment).len() == leaf.len
            &&& after.len() == rows.len()
            &&& after.to_multiset() == rows.to_multiset()
            &&& forall|k: int|
                0 <= k < rows.len() && !(leaf.start <= k < leaf.start + leaf.len) ==> #[trigger] after[k] == rows[k]
            &&& forall|k: int|
                leaf.start <= k < leaf.start + leaf.len ==> {
                    &&& segment.contains(#[trigger] after[k])
                    &&& sent_left(d, leaf.split, after[k]) <==> k < leaf.start + left.len()
                }
        }),
{
    let segment = rows.subrange(leaf.start as int, (leaf.start + leaf.len) as int);
    let split = leaf.split;
    let left = lefts(d, split, segment);
    let right = rights(d, split, segment);
    let after = rearranged(d, leaf, rows);
    let head = rows.take(leaf.start as int);
    let rest = rows.skip((leaf.start + leaf.len) as int);
    assert(segment.take(segment.len() as int) =~= segment);
    lemma_sides_len(d, split, segment, segment.len());
    law_partition_keeps_every_row(d, split, segment);
    lemma_multiset_commutative(head, left + right);
    lemma_multiset_commutative(head + (left + right), rest);
    lemma_multiset_commutative(head, segment);
    lemma_multiset_commutative(head + segment, rest);
    assert(after =~= head + (left + right) + rest);
    assert(rows =~= head + segment + rest);
    assert forall|k: int| leaf.start <= k < leaf.start + leaf.len implies {
        &&& segment.contains(#[trigger] after[k])
        &&& sent_left(d, split, after[k]) <==> k < leaf.start + left.len()
    } by {
        let goes_left = |row: u32| sent_left(d, split, row);
        let goes_right = |row: u32| !sent_left(d, split, row);
        if k < leaf.start + left.len() {
            let i = k - leaf.start;
            assert(after[k] == left[i]);
            segment.lemma_filter_pred(goes_left, i);
            assert(segment.filter(goes_left).contains(left[i]));
            segment.lemma_filter_contains_rev(goes_left, left[i]);
        } else {
            let i = k - leaf.start - left.len();
            assert(after[k] == right[i]);
            segment.lemma_filter_pred(goes_right, i);
            assert(segment.filter(goes_right).contains(right[i]));
            segment.lemma_filter_contains_rev(goes_right, right[i]);
        }
    }
}

/// The leaf that is split is one of the open leaves.
pub(crate) proof fn lemma_chosen(active: Seq<OpenLeaf>, leaf_wise: bool, n: nat)
    ensures
        n > 0 ==> 0 <= chosen(active, leaf_wise, n) < n,
    decreases n,
{
    if n > 1 {
        lemma_chosen(active, leaf_wise, (n - 1) as nat);
    }
}

/// The bins of a row of the training data are in range.
pub proof fn lemma_row_bins_fit(d: &Dataset, row: int)
    requires
        d.wf(),
        0 <= row < d.num_rows,
    ensures
        bins_fit(d.row_bins(row), d.bin_counts()),
        d.sentinels().len() == d.bin_counts().len(),
{
    assert forall|f: int| 0 <= f < d.row_bins(row).len() implies (#[trigger] d.row_bins(row)[f]) < d.bin_counts()[f] by {
        let bundle = d.feature_bundles@[f / 8];
        assert(bundle.wf());
        assert(d.feature_binners@[f]@.wf());
        assert(packed_bin(bundle.packed_bins@[row], f % 8) < bundle.num_bins@[f % 8]);
    }
}

proof fn lemma_owner_bound(d: &Dataset, p: BoosterParameters, g: Growth, owner: Seq<nat>, k: int)
    requires
        leaves_ok(d, p, g, owner),
        has_leaf(g, owner[k]),
    ensures
        owner[k] < g.nodes.len(),
{
    if exists|i: int| 0 <= i < g.active.len() && (#[trigger] g.active[i]).node == owner[k] {
        let i = choose|i: int| 0 <= i < g.active.len() && (#[trigger] g.active[i]).node == owner[k];
        assert(open_ok(d, p, g.nodes, owner, g.active[i]));
    }
}

spec fn handed_over(owner: Seq<nat>, leaf: OpenLeaf, left: nat, node: nat) -> Seq<nat> {
    Seq::new(
        owner.len(),
        |i: int|
            if leaf.start <= i < leaf.start + leaf.len {
                if i < leaf.start + left { node } else { node + 1 }
            } else {
                owner[i]
            },
    )
}

/// Taking an open leaf out leaves the others in order.
proof fn lemma_leaf_taken(d: &Dataset, p: BoosterParameters, g: Growth, owner: Seq<nat>, k: int, left: nat)
    requires
        leaves_ok(d, p, g, owner),
        forall|i: int| 0 <= i < owner.len() ==> #[trigger] has_leaf(g, owner[i]),
        0 <= k < g.active.len(),
        left <= g.active[k].len,
    ensures
        ({
            let rest = Growth { active: g.active.update(k, g.active.last()).drop_last(), ..g };
            let after = handed_over(owner, g.active[k], left, g.nodes.len());
            &&& leaves_ok(d, p, rest, after)
            &&& owns(after, g.nodes.len(), g.active[k].start, left)
            &&& owns(after, g.nodes.len() + 1, g.active[k].start + left, (g.active[k].len - left) as nat)
            &&& forall|i: int| 0 <= i < rest.active.len() ==> (#[trigger] rest.active[i]).node != g.active[k].node
            &&& forall|node: nat| #[trigger] has_leaf(g, node) && node != g.active[k].node ==> has_leaf(rest, node)
        }),
{
    let leaf = g.active[k];
    let n = g.nodes.len();
    let rest = Growth { active: g.active.update(k, g.active.last()).drop_last(), ..g };
    let after = handed_over(owner, leaf, left, n);
    assert(open_ok(d, p, g.nodes, owner, leaf));
    assert forall|i: int| 0 <= i < owner.len() implies #[trigger] owner[i] < n by {
        lemma_owner_bound(d, p, g, owner, i);
    }
    assert forall|i: int| 0 <= i < rest.active.len() implies {
        &&& (#[trigger] rest.active[i]).node != leaf.node
        &&& open_ok(d, p, rest.nodes, after, rest.active[i])
    } by {
        let j = if i == k { g.active.len() - 1 } else { i };
        assert(rest.active[i] == g.active[j]);
        assert(open_ok(d, p, g.nodes, owner, g.active[j]));
        let a = g.active[j];
        assert forall|m: int| 0 <= m < after.len() implies (a.start <= m < a.start + a.len <==> #[trigger] after[m]
            == a.node) by {
            assert(a.start <= m < a.start + a.len <==> owner[m] == a.node);
            assert(leaf.start <= m < leaf.start + leaf.len <==> owner[m] == leaf.node);
        }
    }
    assert forall|i: int| 0 <= i < rest.finished.len() implies owns(
        after,
        (#[trigger] rest.finished[i]).node,
        rest.finished[i].start,
        rest.finished[i].len,
    ) by {
        let a = g.finished[i];
        assert(leaf.node != a.node);
        assert forall|m: int| 0 <= m < after.len() implies (a.start <= m < a.start + a.len <==> #[trigger] after[m]
            == a.node) by {
            assert(a.start <= m < a.start + a.len <==> owner[m] == a.node);
            assert(leaf.start <= m < leaf.start + leaf.len <==> owner[m] == leaf.node);
        }
    }
    assert forall|i: int, j: int| 0 <= i < j < rest.active.len() implies (#[trigger] rest.active[i]).node != (
    #[trigger] rest.active[j]).node by {
        let i0 = if i == k { g.active.len() - 1 } else { i };
        let j0 = if j == k { g.active.len() - 1 } else { j };
        assert(rest.active[i] == g.active[i0]);
        assert(rest.active[j] == g.active[j0]);
        if i0 < j0 {
            assert(g.active[i0].node != g.active[j0].node);
        } else {
            assert(g.active[j0].node != g.active[i0].node);
        }
    }
    assert forall|i: int, j: int| 0 <= i < rest.active.len() && 0 <= j < rest.finished.len() implies (
    #[trigger] rest.active[i]).node != (#[trigger] rest.finished[j]).node by {
        let i0 = if i == k { g.active.len() - 1 } else { i };
        assert(rest.active[i] == g.active[i0]);
        assert(g.active[i0].node != g.finished[j].node);
    }
    assert forall|m: int| 0 <= m < after.len() implies (leaf.start <= m < leaf.start + left <==> #[trigger] after[m]
        == n) by {
        assert(owner[m] < n);
    }
    assert forall|m: int| 0 <= m < after.len() implies (leaf.start + left <= m < leaf.start + leaf.len
        <==> #[trigger] after[m] == n + 1) by {
        assert(owner[m] < n);
    }
    assert forall|node: nat| #[trigger] has_leaf(g, node) && node != leaf.node implies has_leaf(rest, node) by {
        if exists|i: int| 0 <= i < g.active.len() && (#[trigger] g.active[i]).node == node {
            let i = choose|i: int| 0 <= i < g.active.len() && (#[trigger] g.active[i]).node == node;
            let j = if i == g.active.len() - 1 { k } else { i };
            assert(rest.active[j].node == node);
        } else {
            let i = choose|i: int| 0 <= i < g.finished.len() && (#[trigger] g.finished[i]).node == node;
            assert(rest.finished[i].node == node);
        }
    }
}

/// The histograms of both sides are laid out as the features.
pub(crate) proof fn lemma_side_histograms(
    d: &Dataset,
    grad_hess: Seq<[Single; 2]>,
    leaf: OpenLeaf,
    left: Seq<u32>,
    right: Seq<u32>,
    leaves: nat,
    p: BoosterParameters,
)
    requires
        d.wf(),
        laid_out(d, leaf.histograms),
    ensures
        side_histograms(d.feature_bundles@, grad_hess, leaf, left, right, leaves, p).0 matches Some(h) ==> laid_out(d, h),
        side_histograms(d.feature_bundles@, grad_hess, leaf, left, right, leaves, p).1 matches Some(h) ==> laid_out(d, h),
{
    lemma_histograms_of_wf(d.feature_bundles@, gathered(grad_hess, left), left);
    lemma_histograms_of_wf(d.feature_bundles@, gathered(grad_hess, right), right);
}

proof fn lemma_internals_after_split(before: Seq<NodeView>, after: Seq<NodeView>, leaf: int, n: nat)
    requires
        0 <= leaf < before.len() <= after.len(),
        n <= before.len(),
        before[leaf] is Leaf,
        after[leaf] is Internal,
        forall|i: int| 0 <= i < before.len() && i != leaf ==> #[trigger] after[i] == before[i],
    ensures
        internals(after, n) == internals(before, n) + if leaf < n { 1nat } else { 0 },
    decreases n,
{
    if n > 0 {
        lemma_internals_after_split(before, after, leaf, (n - 1) as nat);
    }
}

/// Splitting a leaf gives a binary tree again.
proof fn lemma_split_shape(before: Seq<NodeView>, after: Seq<NodeView>, leaf: int)
    requires
        tree_shape(before),
        0 <= leaf < before.len(),
        before[leaf] is Leaf,
        after.len() == before.len() + 2,
        forall|i: int| 0 <= i < before.len() && i != leaf ==> #[trigger] after[i] == before[i],
        after[before.len() as int] is Leaf,
        after[(before.len() + 1) as int] is Leaf,
        after[leaf] matches NodeView::Internal { left, right, .. } && left == before.len() && right == before.len() + 1,
        forall|p: int, c: int| #[trigger] is_child(before, p, c) ==> c < before.len(),
    ensures
        tree_shape(after),
{
    let n = before.len();
    lemma_internals_after_split(before, after, leaf, n);
    assert(internals(after, n + 1) == internals(after, n));
    assert(internals(after, n + 2) == internals(after, n + 1));
    assert forall|p: int, c: int| #[trigger] is_child(after, p, c) implies is_child(before, p, c) || (p == leaf && n <= c
        <= n + 1) by {
        if p != leaf && p < n {
            assert(after[p] == before[p]);
        }
    }
    assert forall|c: int| 1 <= c < after.len() implies #[trigger] has_parent(after, c) by {
        if c < n {
            assert(has_parent(before, c));
            let p = choose|p: int| is_child(before, p, c);
            assert(after[p] == before[p]);
            assert(is_child(after, p, c));
        } else {
            assert(is_child(after, leaf, c));
        }
    }
    assert forall|p: int, q: int, c: int| #[trigger] is_child(after, p, c) && #[trigger] is_child(after, q, c) implies p
        == q by {
        if is_child(before, p, c) && is_child(before, q, c) {
        }
    }
    assert forall|p: int| 0 <= p < after.len() && #[trigger] after[p] is Internal implies after[p]->left
        != after[p]->right by {
        if p < n && p != leaf {
            assert(after[p] == before[p]);
        }
    }
}

/// Splitting a leaf moves no node, and the two new ones are one step deeper than the leaf.
proof fn lemma_depth_after_split(before: Seq<NodeView>, after: Seq<NodeView>, leaf: int, depth: nat, c: int, k: nat)
    requires
        0 <= leaf < before.len(),
        before[leaf] is Leaf,
        after.len() == before.len() + 2,
        forall|i: int| 0 <= i < before.len() && i != leaf ==> #[trigger] after[i] == before[i],
        after[before.len() as int] is Leaf,
        after[(before.len() + 1) as int] is Leaf,
        after[leaf] matches NodeView::Internal { left, right, .. } && left == before.len() && right == before.len() + 1,
        forall|p: int, c: int| #[trigger] is_child(before, p, c) ==> c < before.len(),
        forall|k: nat| #[trigger] at_depth(before, leaf, k) ==> k <= depth,
        at_depth(after, c, k),
    ensures
        c < before.len() ==> at_depth(before, c, k),
        c >= before.len() ==> k <= depth + 1,
    decreases k,
{
    if k > 0 {
        let m = (k - 1) as nat;
        let p = choose|p: int| #[trigger] is_child(after, p, c) && at_depth(after, p, m);
        lemma_depth_after_split(before, after, leaf, depth, p, m);
        if p == leaf {
            assert(at_depth(before, leaf, m));
        } else {
            assert(after[p] == before[p]);
            assert(is_child(before, p, c));
        }
    }
}

/// The nodes after a split: two new leaves, and the split leaf is their parent.
proof fn lemma_split_nodes(
    d: &Dataset,
    before: Seq<NodeView>,
    after: Seq<NodeView>,
    leaf: OpenLeaf,
)
    requires
        tree_wf(before, d.bin_counts(), d.kinds()),
        leaf.node < before.len(),
        leaf.split.feature < d.feature_binners@.len(),
        leaf.split.rule.suits(d.bin_counts()[leaf.split.feature as int], d.kinds()[leaf.split.feature as int]),
        after.len() == before.len() + 2,
        forall|i: int| 0 <= i < before.len() && i != leaf.node ==> #[trigger] after[i] == before[i],
        after[before.len() as int] is Leaf,
        after[(before.len() + 1) as int] is Leaf,
        after[leaf.node as int] == (NodeView::Internal {
            left: before.len(),
            right: before.len() + 1,
            feature: leaf.split.feature,
            rule: leaf.split.rule,
        }),
    ensures
        tree_wf(after, d.bin_counts(), d.kinds()),
{
    assert forall|i: int| 0 <= i < after.len() implies match #[trigger] after[i] {
        NodeView::Leaf { .. } => true,
        NodeView::Internal { left, right, feature, rule } => {
            &&& i < left < after.len()
            &&& i < right < after.len()
            &&& feature < d.bin_counts().len()
            &&& rule.suits(d.bin_counts()[feature as int], d.kinds()[feature as int])
        },
    } by {
        if i < before.len() && i != leaf.node {
            assert(after[i] == before[i]);
        }
    }
}

/// After a split every row reaches the leaf that its place belongs to.
proof fn lemma_rows_after_split(
    d: &Dataset,
    before: Seq<NodeView>,
    nodes2: Seq<NodeView>,
    leaf: OpenLeaf,
    rows: Seq<u32>,
    owner: Seq<nat>,
)
    requires
        d.wf(),
        leaf.node < before.len(),
        before[leaf.node as int] is Leaf,
        owns(owner, leaf.node, leaf.start, leaf.len),
        leaf.split.feature < d.feature_binners@.len(),
        leaf.split.rule.suits(d.bin_counts()[leaf.split.feature as int], d.kinds()[leaf.split.feature as int]),
        rows.len() == owner.len(),
        forall|k: int| 0 <= k < rows.len() ==> (#[trigger] rows[k]) < d.num_rows,
        forall|k: int|
            0 <= k < rows.len() ==> d.leaf_of_row(before, (#[trigger] rows[k]) as int) == Some(owner[k]),
        nodes2.len() == before.len() + 2,
        forall|i: int| 0 <= i < before.len() && i != leaf.node ==> #[trigger] nodes2[i] == before[i],
        nodes2[before.len() as int] is Leaf,
        nodes2[(before.len() + 1) as int] is Leaf,
        nodes2[leaf.node as int] == (NodeView::Internal {
            left: before.len(),
            right: before.len() + 1,
            feature: leaf.split.feature,
            rule: leaf.split.rule,
        }),
    ensures
        ({
            let segment = rows.subrange(leaf.start as int, (leaf.start + leaf.len) as int);
            let after = handed_over(owner, leaf, lefts(d, leaf.split, segment).len(), before.len());
            let rows2 = rearranged(d, leaf, rows);
            forall|i: int|
                0 <= i < rows2.len() ==> {
                    &&& (#[trigger] rows2[i]) < d.num_rows
                    &&& d.leaf_of_row(nodes2, rows2[i] as int) == Some(after[i])
                }
        }),
{
    let n = before.len();
    let segment = rows.subrange(leaf.start as int, (leaf.start + leaf.len) as int);
    let left = lefts(d, leaf.split, segment);
    let after = handed_over(owner, leaf, left.len(), n);
    let rows2 = rearranged(d, leaf, rows);
    lemma_rearranged(d, leaf, rows);
    assert forall|i: int| 0 <= i < rows2.len() implies {
        &&& (#[trigger] rows2[i]) < d.num_rows
        &&& d.leaf_of_row(nodes2, rows2[i] as int) == Some(after[i])
    } by {
        let row = rows2[i];
        let inside = leaf.start <= i < leaf.start + leaf.len;
        let j = if inside {
            assert(segment.contains(row));
            leaf.start + choose|j: int| 0 <= j < segment.len() && segment[j] == row
        } else {
            i
        };
        assert(rows[j] == row);
        assert(d.leaf_of_row(before, row as int) == Some(owner[j]));
        assert(leaf.start <= j < leaf.start + leaf.len <==> owner[j] == leaf.node);
        lemma_row_bins_fit(d, row as int);
        let bins = d.row_bins(row as int);
        assert(bins[leaf.split.feature as int] < d.bin_counts()[leaf.split.feature as int]);
        lemma_way_after_split(before, nodes2, leaf.node, bins, d.sentinels(), 0, n, nodes2.len());
        if inside {
            assert(sent_left(d, leaf.split, row) <==> i < leaf.start + left.len());
        }
    }
}

/// Splitting a leaf keeps every row in the segment of the leaf it reaches.
pub(crate) proof fn lemma_split_leaf(
    d: &Dataset,
    grad_hess: Seq<[Single; 2]>,
    p: BoosterParameters,
    g: Growth,
    rows: Seq<u32>,
    owner: Seq<nat>,
    leaves: nat,
) -> (after: Seq<nat>)
    requires
        sound(d, p, g, rows, owner, leaves),
        g.active.len() > 0,
    ensures
        sound(
            d,
            p,
            split_leaf(d, grad_hess, p, g, rows, leaves),
            rearranged(d, next_leaf(g, p), rows),
            after,
            leaves + 1,
        ),
{
    let k = chosen(g.active, p.leaf_wise, g.active.len());
    lemma_chosen(g.active, p.leaf_wise, g.active.len());
    let leaf = g.active[k];
    assert(open_ok(d, p, g.nodes, owner, leaf));
    let segment = rows.subrange(leaf.start as int, (leaf.start + leaf.len) as int);
    let left = lefts(d, leaf.split, segment);
    let right = rights(d, leaf.split, segment);
    let n = g.nodes.len();
    let rows2 = rearranged(d, leaf, rows);
    lemma_rearranged(d, leaf, rows);
    let after = handed_over(owner, leaf, left.len(), n);
    lemma_leaf_taken(d, p, g, owner, k, left.len());
    let rest = Growth { active: g.active.update(k, g.active.last()).drop_last(), ..g };
    let (hl, hr) = side_histograms(d.feature_bundles@, grad_hess, leaf, left, right, leaves, p);
    lemma_side_histograms(d, grad_hess, leaf, left, right, leaves, p);
    lemma_with_leaf(d, p, rest, after, hl, leaf.split.left, leaf.start, left.len(), leaf.depth + 1);
    let one = rest.with_leaf(hl, leaf.split.left, leaf.start, left.len(), leaf.depth + 1, p);
    lemma_with_leaf(d, p, one, after, hr, leaf.split.right, leaf.start + left.len(), right.len(), leaf.depth + 1);
    let both = one.with_leaf(hr, leaf.split.right, leaf.start + left.len(), right.len(), leaf.depth + 1, p);
    let g2 = split_leaf(d, grad_hess, p, g, rows, leaves);
    let nodes2 = g2.nodes;
    assert(g2.active == both.active && g2.finished == both.finished);
    assert(both.nodes[n as int] == one.nodes[n as int]);
    assert forall|i: int| 0 <= i < n && i != leaf.node implies #[trigger] nodes2[i] == g.nodes[i] by {
        assert(both.nodes[i] == one.nodes[i]);
        assert(one.nodes[i] == rest.nodes[i]);
    }
    lemma_split_nodes(d, g.nodes, nodes2, leaf);
    assert forall|p: int, c: int| #[trigger] is_child(g.nodes, p, c) implies c < n by {}
    lemma_split_shape(g.nodes, nodes2, leaf.node as int);
    assert forall|i: int| 0 <= i < g2.active.len() implies open_ok(d, p, nodes2, after, #[trigger] g2.active[i]) by {
        assert(open_ok(d, p, both.nodes, after, both.active[i]));
        if both.active[i].node != n + 1 {
            assert(both.active[i] == one.active[i]);
            if one.active[i].node != n {
                assert(one.active[i] == rest.active[i]);
            }
        }
    }
    assert forall|i: int| 0 <= i < g2.finished.len() implies {
        &&& (#[trigger] g2.finished[i]).node < nodes2.len()
        &&& nodes2[g2.finished[i].node as int] is Leaf
    } by {
        if both.finished[i].node != n + 1 {
            assert(both.finished[i] == one.finished[i]);
            if one.finished[i].node != n {
                assert(one.finished[i] == g.finished[i]);
                assert(leaf.node != g.finished[i].node);
            }
        }
    }
    assert(leaves_ok(d, p, g2, after));
    assert forall|i: int| 0 <= i < after.len() implies #[trigger] has_leaf(g2, after[i]) by {
        if leaf.start <= i < leaf.start + leaf.len {
            assert(has_leaf(one, n));
            assert(has_leaf(both, n) && has_leaf(both, n + 1));
        } else {
            assert(has_leaf(g, owner[i]));
            assert(owner[i] != leaf.node);
            assert(has_leaf(rest, owner[i]));
            assert(has_leaf(one, owner[i]));
            assert(has_leaf(both, owner[i]));
        }
    }
    assert forall|c: int, m: nat| #[trigger] at_depth(nodes2, c, m) implies {
        &&& c < n ==> at_depth(g.nodes, c, m)
        &&& c >= n ==> m <= leaf.depth + 1
        &&& m <= p.max_depth
    } by {
        lemma_depth_after_split(g.nodes, nodes2, leaf.node as int, leaf.depth, c, m);
    }
    assert forall|i: int, m: nat|
        0 <= i < g2.active.len() && #[trigger] at_depth(nodes2, g2.active[i].node as int, m) implies m
        <= g2.active[i].depth by {
        let a = both.active[i];
        if a.node != n + 1 {
            assert(a == one.active[i]);
            if a.node != n {
                assert(a == rest.active[i]);
                let j = if i == k { g.active.len() - 1 } else { i };
                assert(a == g.active[j]);
                assert(open_ok(d, p, g.nodes, owner, g.active[j]));
                assert(at_depth(g.nodes, g.active[j].node as int, m));
            }
        }
    }
    lemma_rows_after_split(d, g.nodes, nodes2, leaf, rows, owner);
    after
}

/// The root alone is sound.
pub(crate) proof fn lemma_root(d: &Dataset, grad_hess: Seq<[Single; 2]>, p: BoosterParameters) -> (owner: Seq<nat>)
    requires
        d.wf(),
        d.num_rows <= u32::MAX,
    ensures
        sound(d, p, root(d, grad_hess, p), all_rows(d.num_rows as nat), owner, 1),
{
    let n = d.num_rows as nat;
    let owner = Seq::new(n, |i: int| 0nat);
    let nothing = Growth { nodes: Seq::empty(), active: Seq::empty(), finished: Seq::empty() };
    let h = histograms_of(d.feature_bundles@, grad_hess, all_rows(n));
    lemma_histograms_of_wf(d.feature_bundles@, grad_hess, all_rows(n));
    lemma_with_leaf(d, p, nothing, owner, Some(h), sums(grad_hess, grad_hess.len()), 0, n, 0);
    let g = root(d, grad_hess, p);
    assert(internals(g.nodes, 0) == 0);
    assert forall|c: int, k: nat| #[trigger] at_depth(g.nodes, c, k) implies k == 0 by {
        if k > 0 {
            let p = choose|p: int| #[trigger] is_child(g.nodes, p, c) && at_depth(g.nodes, p, (k - 1) as nat);
        }
    }
    assert forall|k: int| 0 <= k < owner.len() implies #[trigger] has_leaf(g, owner[k]) by {
        assert(has_leaf(g, 0));
    }
    owner
}

/// A place in the row order lies in the segment of a leaf.
pub(crate) open spec fn in_segment(g: Growth, k: int) -> bool {
    ||| exists|i: int| 0 <= i < g.active.len() && (#[trigger] g.active[i]).start <= k < g.active[i].start + g.active[i].len
    ||| exists|i: int|
        0 <= i < g.finished.len() && (#[trigger] g.finished[i]).start <= k < g.finished[i].start + g.finished[i].len
}

/// What the finished tree has: a leaf for every row, and the row's place in it.
pub(crate) proof fn lemma_sound_facts(d: &Dataset, p: BoosterParameters, g: Growth, rows: Seq<u32>, owner: Seq<nat>, leaves: nat)
    requires
        sound(d, p, g, rows, owner, leaves),
    ensures
        tree_wf(g.nodes, d.bin_counts(), d.kinds()),
        tree_shape(g.nodes),
        g.nodes.len() == 2 * leaves - 1,
        no_deeper(g.nodes, p.max_depth as nat),
        rows.len() == d.num_rows,
        owner.len() == d.num_rows,
        forall|k: int| 0 <= k < rows.len() ==> (#[trigger] rows[k]) < d.num_rows,
        forall|row: u32| row < d.num_rows ==> rows.contains(row),
        forall|k: int|
            0 <= k < rows.len() ==> d.leaf_of_row(g.nodes, (#[trigger] rows[k]) as int) == Some(owner[k]) && owner[k]
                < g.nodes.len(),
        forall|i: int|
            0 <= i < g.active.len() ==> {
                let a = #[trigger] g.active[i];
                &&& a.node < g.nodes.len()
                &&& a.start + a.len <= rows.len()
                &&& a.depth < p.max_depth
                &&& laid_out(d, a.histograms)
                &&& a.split.feature < d.feature_binners@.len()
                &&& a.split.rule.suits(d.bin_counts()[a.split.feature as int], d.kinds()[a.split.feature as int])
                &&& forall|k: int| a.start <= k < a.start + a.len ==> #[trigger] owner[k] == a.node
            },
        forall|i: int|
            0 <= i < g.finished.len() ==> {
                let a = #[trigger] g.finished[i];
                &&& a.node < g.nodes.len()
                &&& a.start + a.len <= rows.len()
                &&& forall|k: int| a.start <= k < a.start + a.len ==> #[trigger] owner[k] == a.node
            },
        forall|k: int| 0 <= k < rows.len() ==> #[trigger] in_segment(g, k),
{
    assert forall|k: int| 0 <= k < rows.len() implies #[trigger] in_segment(g, k) by {
        assert(has_leaf(g, owner[k]));
        if exists|i: int| 0 <= i < g.active.len() && (#[trigger] g.active[i]).node == owner[k] {
            let i = choose|i: int| 0 <= i < g.active.len() && (#[trigger] g.active[i]).node == owner[k];
            assert(open_ok(d, p, g.nodes, owner, g.active[i]));
            assert(g.active[i].start <= k < g.active[i].start + g.active[i].len);
        } else {
            let i = choose|i: int| 0 <= i < g.finished.len() && (#[trigger] g.finished[i]).node == owner[k];
            assert(owns(owner, g.finished[i].node, g.finished[i].start, g.finished[i].len));
            assert(g.finished[i].start <= k < g.finished[i].start + g.finished[i].len);
        }
    }
    assert forall|k: int| 0 <= k < rows.len() implies d.leaf_of_row(g.nodes, (#[trigger] rows[k]) as int) == Some(
        owner[k],
    ) && owner[k] < g.nodes.len() by {
        assert(has_leaf(g, owner[k]));
        lemma_owner_bound(d, p, g, owner, k);
    }
    assert forall|i: int| 0 <= i < g.active.len() implies {
        let a = #[trigger] g.active[i];
        &&& a.node < g.nodes.len()
        &&& a.start + a.len <= rows.len()
        &&& a.depth < p.max_depth
        &&& laid_out(d, a.histograms)
        &&& a.split.feature < d.feature_binners@.len()
        &&& a.split.rule.suits(d.bin_counts()[a.split.feature as int], d.kinds()[a.split.feature as int])
        &&& forall|k: int| a.start <= k < a.start + a.len ==> #[trigger] owner[k] == a.node
    } by {
        assert(open_ok(d, p, g.nodes, owner, g.active[i]));
    }
    assert forall|row: u32| row < d.num_rows implies rows.contains(row) by {
        broadcast use vstd::seq_lib::group_to_multiset_ensures;
        let all = all_rows(d.num_rows as nat);
        assert(all[row as int] == row);
        assert(all.contains(row));
        assert(all.to_multiset().count(row) > 0);
        assert(rows.to_multiset().count(row) > 0);
    }
}

/// What a tree in the making has: a place for every row, and a segment of its own for each leaf.
pub(crate) proof fn lemma_sound_segments(
    d: &Dataset,
    p: BoosterParameters,
    g: Growth,
    rows: Seq<u32>,
    owner: Seq<nat>,
    leaves: nat,
)
    requires
        sound(d, p, g, rows, owner, leaves),
        d.num_rows <= u32::MAX,
    ensures
        rows.no_duplicates(),
        forall|i: int, k: int|
            0 <= i < g.active.len() && 0 <= k < rows.len() ==> ((#[trigger] g.active[i]).start <= k < g.active[i].start
                + g.active[i].len <==> (#[trigger] owner[k]) == g.active[i].node),
        forall|i: int| 0 <= i < g.active.len() ==> g.nodes[(#[trigger] g.active[i]).node as int] is Leaf,
        forall|i: int, j: int|
            0 <= i < j < g.active.len() ==> (#[trigger] g.active[i]).node != (#[trigger] g.active[j]).node,
{
    let all = all_rows(d.num_rows as nat);
    assert forall|i: int, j: int| 0 <= i < all.len() && 0 <= j < all.len() && i != j implies all[i] != all[j] by {}
    lemma_permuted(rows, all);
    assert forall|i: int, k: int| 0 <= i < g.active.len() && 0 <= k < rows.len() implies ((#[trigger] g.active[i]).start
        <= k < g.active[i].start + g.active[i].len <==> (#[trigger] owner[k]) == g.active[i].node) by {
        assert(open_ok(d, p, g.nodes, owner, g.active[i]));
    }
    assert forall|i: int| 0 <= i < g.active.len() implies g.nodes[(#[trigger] g.active[i]).node as int] is Leaf by {
        assert(open_ok(d, p, g.nodes, owner, g.active[i]));
    }
}

proof fn lemma_permuted(a: Seq<u32>, b: Seq<u32>)
    requires
        b.no_duplicates(),
        a.to_multiset() == b.to_multiset(),
    ensures
        a.no_duplicates(),
{
    b.lemma_multiset_has_no_duplicates();
    a.lemma_multiset_has_no_duplicates_conv();
}

} // verus!
