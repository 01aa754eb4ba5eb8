//! How a model's text is read: trees are walked by what stands in their lists, and lead every row
//! to the leaf that it reaches in the model.

use vstd::arithmetic::power2::pow2;
use vstd::prelude::*;

use crate::bin::BinnerView;
use crate::booster::{tree_views, Booster};
use crate::double::Double;
use crate::modelfile::{
    law_header_names_the_model, lemma_category_words, lemma_model_lines, lemma_model_one_line, lemma_part_found,
    lemma_part_shown, lemma_tree_words, lemma_values_found, lone_leaf, model_lines, part_nodes, part_shown,
    plain_texts, tree_names, tree_values,
};
use crate::objective::Objective;
use crate::reading::{
    law_lines_are_read_back, law_lists_are_read_back, law_number_is_read_back, law_signed_number_is_read_back,
    line_of_title, lines, read_number, value_of_name, word, words,
};
use crate::serialization::{
    all_numbers, binner_views, categorical_splits, category_bits, category_left, category_words, child_index,
    count_numbers, decision_type, law_bit_sets_hold_the_categories, leaf_values, lemma_all_numbers_len,
    lemma_internals_monotone, lemma_leaf_values_len, lemma_per_internal_len, lemma_tree_numbers_len, missing_bin,
    model_text, per_internal, threshold_number, tree_numbers,
};
use crate::text::{decimal, signed_decimal, spaced, texts};
use crate::tree::{has_parent, internals, is_child, leaf_from, leaf_of, tree_shape, tree_wf, NodeView};

verus! {

/// A tree as it stands in a text.
pub struct ReadTree {
    pub split_feature: Seq<int>,
    pub threshold: Seq<Seq<char>>,
    pub decision_type: Seq<int>,
    pub left_child: Seq<int>,
    pub right_child: Seq<int>,
    pub leaf_value: Seq<Seq<char>>,
    pub cat_boundaries: Seq<int>,
    pub cat_threshold: Seq<int>,
}

/// The list under a name.
pub open spec fn list(all: Seq<Seq<char>>, at: int, name: Seq<char>) -> Seq<Seq<char>> {
    match value_of_name(all, at, name) {
        Some(text) => words(text, ' '),
        None => Seq::empty(),
    }
}

/// The list of numbers under a name.
pub open spec fn numbers(all: Seq<Seq<char>>, at: int, name: Seq<char>) -> Seq<int> {
    list(all, at, name).map_values(|w: Seq<char>| read_number(w))
}

/// Tree `i` of a text.
pub open spec fn read_tree(text: Seq<char>, i: nat) -> ReadTree {
    let all = lines(text);
    let at = match line_of_title(all, 0, "Tree="@ + decimal(i)) {
        Some(at) => at,
        None => all.len() as int,
    };
    ReadTree {
        split_feature: numbers(all, at, "split_feature="@),
        threshold: list(all, at, "threshold="@),
        decision_type: numbers(all, at, "decision_type="@),
        left_child: numbers(all, at, "left_child="@),
        right_child: numbers(all, at, "right_child="@),
        leaf_value: list(all, at, "leaf_value="@),
        cat_boundaries: numbers(all, at, "cat_boundaries="@),
        cat_threshold: numbers(all, at, "cat_threshold="@),
    }
}

/// What a row has for a feature.
pub enum Value {
    Missing,
    Number(Double),
    Category(int),
}

/// How many of the first `n` splits are categorical: their types are odd.
pub open spec fn odd_types(types: Seq<int>, n: nat) -> nat
    decreases n,
{
    if n == 0 {
        0
    } else {
        odd_types(types, (n - 1) as nat) + if types[n - 1] % 2 == 1 { 1nat } else { 0nat }
    }
}

impl ReadTree {
    /// Whether the bit set of split `j` holds category `k`.
    pub open spec fn holds(self, j: int, k: int) -> bool {
        let t = odd_types(self.decision_type, j as nat) as int;
        let at = self.cat_boundaries[t] + k / 32;
        at < self.cat_boundaries[t + 1] && (self.cat_threshold[at] / pow2((k % 32) as nat) as int) % 2 == 1
    }

    /// Whether split `j` sends a row left. A missing value goes left where bit 1 of the type is
    /// set, a number where it is not above the threshold, and a category where it is in the bit
    /// set.
    pub open spec fn goes_left(self, thresholds: Seq<Double>, j: int, value: Value) -> bool {
        match value {
            Value::Missing => (self.decision_type[j] / 2) % 2 == 1,
            Value::Number(x) => x.le_spec(thresholds[j]),
            Value::Category(k) => self.holds(j, k),
        }
    }

    /// The leaf that a row reaches from `at`: splits are numbered from 0 up, leaves from -1 down.
    pub open spec fn walk(self, thresholds: Seq<Double>, row: spec_fn(int) -> Value, at: int, steps: nat) -> Option<int>
        decreases steps,
    {
        if at < 0 {
            Some(-1 - at)
        } else if steps == 0 || at >= self.split_feature.len() {
            None
        } else {
            let left = self.goes_left(thresholds, at, row(self.split_feature[at]));
            self.walk(thresholds, row, if left { self.left_child[at] } else { self.right_child[at] }, (steps - 1) as nat)
        }
    }
}

/// The bin of a value: a number's bounds are not below it but those of the bins before, a category
/// has its own bin, and missing values have the last.
pub open spec fn bin_of_value(binner: BinnerView, value: Value, bin: u8) -> bool {
    match (binner, value) {
        (BinnerView::Numerical(bounds), Value::Missing) => bin == bounds.len(),
        (BinnerView::Numerical(bounds), Value::Number(x)) => {
            &&& !x.nan()
            &&& bin < bounds.len()
            &&& !bounds[bin as int].lt_spec(x)
            &&& forall|b: int| 0 <= b < bin ==> (#[trigger] bounds[b]).lt_spec(x)
        },
        (BinnerView::Categorical(categories), Value::Missing) => bin == categories.len(),
        (BinnerView::Categorical(categories), Value::Category(k)) => bin == k && 0 <= k < categories.len(),
        _ => false,
    }
}

/// The type of split `j` says that missing values are not numbers, and whether its feature is
/// categorical; a categorical split has its number among those in place of a threshold.
pub open spec fn true_type(rt: ReadTree, binners: Seq<BinnerView>, values: Seq<Double>, j: int) -> bool {
    &&& rt.decision_type[j] / 4 == 2
    &&& 0 <= rt.split_feature[j] < binners.len()
    &&& rt.decision_type[j] % 2 == 1 <==> binners[rt.split_feature[j]] is Categorical
    &&& rt.decision_type[j] % 2 == 1 ==> values[j] == Double::from_count_spec(odd_types(rt.decision_type, j as nat))
}

pub open spec fn true_types(rt: ReadTree, binners: Seq<BinnerView>, values: Seq<Double>) -> bool {
    forall|j: int| 0 <= j < rt.split_feature.len() ==> #[trigger] true_type(rt, binners, values, j)
}

/// The lists of a tree's text as they are read.
spec fn true_lists(rt: ReadTree, nodes: Seq<NodeView>, binners: Seq<BinnerView>) -> bool {
    let n = nodes.len();
    &&& rt.split_feature == per_internal(nodes, n, |i: int| decimal(nodes[i]->feature)).map_values(
        |w: Seq<char>| read_number(w),
    )
    &&& rt.decision_type == per_internal(nodes, n, |i: int| decimal(decision_type(nodes, binners, i))).map_values(
        |w: Seq<char>| read_number(w),
    )
    &&& rt.left_child == per_internal(
        nodes,
        n,
        |i: int| signed_decimal(child_index(nodes, nodes[i]->left as int)),
    ).map_values(|w: Seq<char>| read_number(w))
    &&& rt.right_child == per_internal(
        nodes,
        n,
        |i: int| signed_decimal(child_index(nodes, nodes[i]->right as int)),
    ).map_values(|w: Seq<char>| read_number(w))
    &&& categorical_splits(nodes, n) > 0 ==> {
        &&& rt.cat_boundaries == Seq::new(categorical_splits(nodes, n) + 1, |i: int| decimal((8 * i) as nat)).map_values(
            |w: Seq<char>| read_number(w),
        )
        &&& rt.cat_threshold == category_words(nodes, binners, n).map_values(|w: Seq<char>| read_number(w))
    }
}

/// What is said of an internal node stands at its number.
proof fn lemma_per_internal_at<T>(nodes: Seq<NodeView>, n: nat, f: spec_fn(int) -> T, i: int)
    requires
        0 <= i < n,
        nodes[i] is Internal,
    ensures
        internals(nodes, i as nat) < per_internal(nodes, n, f).len(),
        per_internal(nodes, n, f)[internals(nodes, i as nat) as int] == f(i),
    decreases n,
{
    lemma_per_internal_len(nodes, (n - 1) as nat, f);
    if i < n - 1 {
        lemma_per_internal_at(nodes, (n - 1) as nat, f, i);
    }
}

/// The value of a leaf stands at its number.
proof fn lemma_leaf_value_at(nodes: Seq<NodeView>, n: nat, i: int)
    requires
        0 <= i < n,
        nodes[i] is Leaf,
    ensures
        i - internals(nodes, i as nat) < leaf_values(nodes, n).len(),
        leaf_values(nodes, n)[i - internals(nodes, i as nat)] == nodes[i]->value,
    decreases n,
{
    lemma_leaf_values_len(nodes, (n - 1) as nat);
    lemma_leaf_values_len(nodes, i as nat);
    if i < n - 1 {
        lemma_leaf_value_at(nodes, (n - 1) as nat, i);
    }
}

/// The words of a categorical split.
proof fn lemma_words_at(nodes: Seq<NodeView>, binners: Seq<BinnerView>, n: nat, i: int, w: int)
    requires
        0 <= i < n,
        nodes[i] is Internal,
        nodes[i]->rule is Categorical,
        0 <= w < 8,
    ensures
        category_words(nodes, binners, n).len() == 8 * categorical_splits(nodes, n),
        8 * categorical_splits(nodes, i as nat) + w < category_words(nodes, binners, n).len(),
        category_words(nodes, binners, n)[8 * categorical_splits(nodes, i as nat) + w] == decimal(
            category_bits(
                nodes[i]->rule->Categorical_0,
                missing_bin(binners[nodes[i]->feature as int]),
                32 * w,
                32,
            ),
        ),
    decreases n,
{
    lemma_words_len(nodes, binners, (n - 1) as nat);
    lemma_words_len(nodes, binners, n);
    if i < n - 1 {
        lemma_words_at(nodes, binners, (n - 1) as nat, i, w);
    }
}

proof fn lemma_words_len(nodes: Seq<NodeView>, binners: Seq<BinnerView>, n: nat)
    ensures
        category_words(nodes, binners, n).len() == 8 * categorical_splits(nodes, n),
    decreases n,
{
    if n > 0 {
        lemma_words_len(nodes, binners, (n - 1) as nat);
    }
}

/// The types of splits, read back.
proof fn lemma_types(nodes: Seq<NodeView>, binners: Seq<BinnerView>, types: Seq<int>, n: nat)
    requires
        n <= nodes.len(),
        types == per_internal(nodes, nodes.len(), |i: int| decimal(decision_type(nodes, binners, i))).map_values(
            |w: Seq<char>| read_number(w),
        ),
    ensures
        odd_types(types, internals(nodes, n)) == categorical_splits(nodes, n),
    decreases n,
{
    if n > 0 {
        lemma_types(nodes, binners, types, (n - 1) as nat);
        if nodes[n - 1] is Internal {
            let f = |i: int| decimal(decision_type(nodes, binners, i));
            lemma_per_internal_at(nodes, nodes.len(), f, n - 1);
            law_number_is_read_back(decision_type(nodes, binners, n - 1));
            let j = internals(nodes, (n - 1) as nat) as int;
            assert(types[j] == decision_type(nodes, binners, n - 1));
        }
    }
}

/// What is read of a split.
proof fn lemma_split_read(rt: ReadTree, nodes: Seq<NodeView>, binners: Seq<BinnerView>, i: int)
    requires
        true_lists(rt, nodes, binners),
        0 <= i < nodes.len(),
        nodes[i] is Internal,
    ensures
        ({
            let j = internals(nodes, i as nat) as int;
            &&& j < rt.split_feature.len()
            &&& rt.split_feature[j] == nodes[i]->feature
            &&& rt.decision_type[j] == decision_type(nodes, binners, i)
            &&& rt.left_child[j] == child_index(nodes, nodes[i]->left as int)
            &&& rt.right_child[j] == child_index(nodes, nodes[i]->right as int)
        }),
{
    let n = nodes.len();
    let f1 = |i: int| decimal(nodes[i]->feature);
    let f2 = |i: int| decimal(decision_type(nodes, binners, i));
    let f3 = |i: int| signed_decimal(child_index(nodes, nodes[i]->left as int));
    let f4 = |i: int| signed_decimal(child_index(nodes, nodes[i]->right as int));
    lemma_per_internal_at(nodes, n, f1, i);
    lemma_per_internal_at(nodes, n, f2, i);
    lemma_per_internal_at(nodes, n, f3, i);
    lemma_per_internal_at(nodes, n, f4, i);
    law_number_is_read_back(nodes[i]->feature);
    law_number_is_read_back(decision_type(nodes, binners, i));
    law_signed_number_is_read_back(child_index(nodes, nodes[i]->left as int));
    law_signed_number_is_read_back(child_index(nodes, nodes[i]->right as int));
}

/// The bit of a category, as it is read.
proof fn lemma_category_read(rt: ReadTree, nodes: Seq<NodeView>, binners: Seq<BinnerView>, i: int, k: int)
    requires
        true_lists(rt, nodes, binners),
        0 <= i < nodes.len(),
        nodes[i] is Internal,
        nodes[i]->rule is Categorical,
        0 <= k < missing_bin(binners[nodes[i]->feature as int]),
        missing_bin(binners[nodes[i]->feature as int]) < nodes[i]->rule->Categorical_0.len() <= 256,
    ensures
        rt.holds(internals(nodes, i as nat) as int, k) == nodes[i]->rule->Categorical_0[k],
{
    let n = nodes.len();
    let j = internals(nodes, i as nat);
    let cats = nodes[i]->rule->Categorical_0;
    let missing = missing_bin(binners[nodes[i]->feature as int]);
    let w = k / 32;
    lemma_types(nodes, binners, rt.decision_type, i as nat);
    let t = categorical_splits(nodes, i as nat) as int;
    lemma_words_at(nodes, binners, n, i, w);
    lemma_splits_monotone(nodes, (i + 1) as nat, n);
    law_number_is_read_back((8 * t) as nat);
    law_number_is_read_back((8 * (t + 1)) as nat);
    assert(rt.cat_boundaries[t] == 8 * t);
    assert(rt.cat_boundaries[t + 1] == 8 * (t + 1));
    let bits = category_bits(cats, missing, 32 * w, 32);
    law_number_is_read_back(bits);
    assert(rt.cat_threshold[8 * t + w] == bits);
    let b = (k % 32) as nat;
    law_bit_sets_hold_the_categories(cats, missing, 32 * w, 32, b);
    assert(32 * w + b == k);
    assert(category_left(cats, missing, k) == cats[k]);
}

proof fn lemma_splits_monotone(nodes: Seq<NodeView>, m: nat, n: nat)
    requires
        m <= n,
    ensures
        categorical_splits(nodes, m) <= categorical_splits(nodes, n),
    decreases n,
{
    if m < n {
        lemma_splits_monotone(nodes, m, (n - 1) as nat);
    }
}

/// The trees' features and binners go together, and numeric splits are made at numbers.
pub open spec fn readable(nodes: Seq<NodeView>, binners: Seq<BinnerView>) -> bool {
    &&& tree_wf(
        nodes,
        Seq::new(binners.len(), |f: int| binners[f].num_bins()),
        Seq::new(binners.len(), |f: int| binners[f] is Categorical),
    )
    &&& tree_shape(nodes)
    &&& forall|f: int| 0 <= f < binners.len() ==> (#[trigger] binners[f]).wf()
    &&& forall|i: int|
        0 <= i < nodes.len() && (#[trigger] nodes[i]) is Internal && nodes[i]->rule is Numeric ==> !threshold_number(
            nodes,
            binners,
            i,
        ).nan()
}

/// A split sends a value where the rule sends its bin.
proof fn lemma_same_side(
    rt: ReadTree,
    nodes: Seq<NodeView>,
    binners: Seq<BinnerView>,
    i: int,
    value: Value,
    bin: u8,
    sentinel: u8,
)
    requires
        true_lists(rt, nodes, binners),
        readable(nodes, binners),
        0 <= i < nodes.len(),
        nodes[i] is Internal,
        bin_of_value(binners[nodes[i]->feature as int], value, bin),
        sentinel == binners[nodes[i]->feature as int].num_bins() - 1,
    ensures
        rt.goes_left(
            per_internal(nodes, nodes.len(), |i: int| threshold_number(nodes, binners, i)),
            internals(nodes, i as nat) as int,
            value,
        ) == nodes[i]->rule.goes_left(bin, sentinel),
        nodes[i]->rule.covers(bin as nat + 1),
{
    let f = nodes[i]->feature as int;
    let rule = nodes[i]->rule;
    let j = internals(nodes, i as nat) as int;
    lemma_split_read(rt, nodes, binners, i);
    lemma_per_internal_at(nodes, nodes.len(), |i: int| threshold_number(nodes, binners, i), i);
    assert(binners[f].wf());
    match binners[f] {
        BinnerView::Numerical(bounds) => {
            assert(rule is Numeric);
            let t = rule->bin as int;
            if let Value::Number(x) = value {
                let b = bounds[t];
                assert(!b.nan());
                if bin <= t {
                    if bin < t {
                        assert(b == Double::infinity_spec() || bounds[bin as int].le_spec(b));
                    }
                    assert(x.le_spec(b));
                } else {
                    assert(bounds[t].lt_spec(x));
                }
            }
        },
        BinnerView::Categorical(categories) => {
            assert(rule is Categorical);
            if let Value::Category(k) = value {
                lemma_category_read(rt, nodes, binners, i, k);
            }
        },
    }
}

proof fn lemma_walk_read(
    rt: ReadTree,
    nodes: Seq<NodeView>,
    binners: Seq<BinnerView>,
    row: spec_fn(int) -> Value,
    bins: Seq<u8>,
    sentinels: Seq<u8>,
    at: nat,
    steps: nat,
)
    requires
        true_lists(rt, nodes, binners),
        readable(nodes, binners),
        bins.len() == binners.len(),
        sentinels.len() == binners.len(),
        forall|f: int| 0 <= f < binners.len() ==> bin_of_value(binners[f], row(f), #[trigger] bins[f]),
        forall|f: int| 0 <= f < binners.len() ==> (#[trigger] sentinels[f]) == binners[f].num_bins() - 1,
        at < nodes.len(),
    ensures
        leaf_from(nodes, bins, sentinels, at, steps) matches Some(c) ==> {
            &&& c < nodes.len()
            &&& nodes[c as int] is Leaf
            &&& rt.walk(
                per_internal(nodes, nodes.len(), |i: int| threshold_number(nodes, binners, i)),
                row,
                child_index(nodes, at as int),
                steps,
            ) == Some(c - internals(nodes, c))
        },
    decreases steps,
{
    let thresholds = per_internal(nodes, nodes.len(), |i: int| threshold_number(nodes, binners, i));
    if let NodeView::Internal { left, right, feature, rule } = nodes[at as int] {
        let i = at as int;
        let j = internals(nodes, at) as int;
        assert(feature < binners.len());
        assert(bin_of_value(binners[feature as int], row(feature as int), bins[feature as int]));
        lemma_split_read(rt, nodes, binners, i);
        lemma_same_side(
            rt,
            nodes,
            binners,
            i,
            row(feature as int),
            bins[feature as int],
            sentinels[feature as int],
        );
        if steps > 0 {
            let next = if rule.goes_left(bins[feature as int], sentinels[feature as int]) { left } else { right };
            lemma_walk_read(rt, nodes, binners, row, bins, sentinels, next, (steps - 1) as nat);
        }
    } else {
        lemma_leaf_values_len(nodes, at);
    }
}

/// Tree `t` of a model's text, walked as LightGBM walks it, leads every row to the leaf that it
/// reaches in the model: there stands the text of that leaf's value. Part 0 of the text is the base
/// score, a tree of one leaf.
pub proof fn law_text_leads_rows_to_their_leaves(
    objective: Seq<char>,
    names: Seq<Seq<char>>,
    binners: Seq<BinnerView>,
    base: Double,
    trees: Seq<Seq<NodeView>>,
    shown: Seq<Seq<char>>,
    t: int,
    row: spec_fn(int) -> Value,
    bins: Seq<u8>,
    sentinels: Seq<u8>,
)
    requires
        plain_texts(objective, names, shown),
        shown.len() == count_numbers(trees, trees.len()),
        0 <= t <= trees.len(),
        readable(part_nodes(base, trees, t), binners),
        bins.len() == binners.len(),
        sentinels.len() == binners.len(),
        forall|f: int| 0 <= f < binners.len() ==> bin_of_value(binners[f], row(f), #[trigger] bins[f]),
        forall|f: int| 0 <= f < binners.len() ==> (#[trigger] sentinels[f]) == binners[f].num_bins() - 1,
    ensures
        ({
            let nodes = part_nodes(base, trees, t);
            let rt = read_tree(model_text(objective, names, binners, trees, shown), t as nat);
            let own = part_shown(trees, shown, t);
            let splits = rt.split_feature.len();
            let values = tree_numbers(nodes, binners);
            &&& rt.leaf_value.len() == nodes.len() - splits
            &&& rt.threshold == own.take(splits as int)
            &&& rt.leaf_value == own.skip(splits as int)
            &&& values.len() == nodes.len() == own.len()
            &&& true_types(rt, binners, values)
            &&& leaf_of(nodes, bins, sentinels) matches Some(c) ==> {
                let end = rt.walk(values.take(splits as int), row, if splits == 0 { -1int } else { 0 }, nodes.len());
                &&& end is Some
                &&& 0 <= end->0 < rt.leaf_value.len()
                &&& values[splits + end->0] == nodes[c as int]->value
            }
        }),
{
    let nodes = part_nodes(base, trees, t);
    let rt = read_tree(model_text(objective, names, binners, trees, shown), t as nat);
    lemma_read_part(objective, names, binners, base, trees, shown, t);
    lemma_read_walk(rt, nodes, binners, row, bins, sentinels);
}

/// Where a tree that is read leads a row.
proof fn lemma_read_walk(
    rt: ReadTree,
    nodes: Seq<NodeView>,
    binners: Seq<BinnerView>,
    row: spec_fn(int) -> Value,
    bins: Seq<u8>,
    sentinels: Seq<u8>,
)
    requires
        true_lists(rt, nodes, binners),
        readable(nodes, binners),
        bins.len() == binners.len(),
        sentinels.len() == binners.len(),
        forall|f: int| 0 <= f < binners.len() ==> bin_of_value(binners[f], row(f), #[trigger] bins[f]),
        forall|f: int| 0 <= f < binners.len() ==> (#[trigger] sentinels[f]) == binners[f].num_bins() - 1,
    ensures
        ({
            let splits = rt.split_feature.len();
            let values = tree_numbers(nodes, binners);
            &&& splits == internals(nodes, nodes.len()) <= nodes.len()
            &&& values.len() == nodes.len()
            &&& true_types(rt, binners, values)
            &&& leaf_of(nodes, bins, sentinels) matches Some(c) ==> {
                let end = rt.walk(values.take(splits as int), row, if splits == 0 { -1int } else { 0 }, nodes.len());
                &&& end is Some
                &&& 0 <= end->0 < nodes.len() - splits
                &&& values[splits + end->0] == nodes[c as int]->value
            }
        }),
{
    let n = nodes.len();
    lemma_per_internal_len(nodes, n, |i: int| decimal(nodes[i]->feature));
    let ft = |i: int| threshold_number(nodes, binners, i);
    lemma_per_internal_len(nodes, n, ft);
    assert forall|j: int| 0 <= j < rt.split_feature.len() implies true_type(rt, binners, tree_numbers(nodes, binners), j) by {
        let i = lemma_split_node(nodes, n, j);
        lemma_split_read(rt, nodes, binners, i);
        lemma_types(nodes, binners, rt.decision_type, i as nat);
        lemma_per_internal_at(nodes, n, ft, i);
        assert(tree_numbers(nodes, binners)[j] == ft(i));
    }
    lemma_leaf_values_len(nodes, n);
    let inner = internals(nodes, n);
    assert(rt.split_feature.len() == inner);
    let values = tree_numbers(nodes, binners);
    assert(values.take(inner as int) =~= per_internal(nodes, n, ft));
    lemma_walk_read(rt, nodes, binners, row, bins, sentinels, 0, n);
    assert(internals(nodes, 0) == 0);
    lemma_first_split(nodes, binners);
    if let Some(c) = leaf_of(nodes, bins, sentinels) {
        lemma_leaf_value_at(nodes, n, c as int);
        let j = c - internals(nodes, c);
        lemma_leaf_values_len(nodes, c);
        assert(values[inner + j] == leaf_values(nodes, n)[j]);
    }
}

/// Which node split `j` is.
proof fn lemma_split_node(nodes: Seq<NodeView>, n: nat, j: int) -> (i: int)
    requires
        0 <= j < internals(nodes, n),
    ensures
        0 <= i < n,
        nodes[i] is Internal,
        internals(nodes, i as nat) == j,
    decreases n,
{
    if j < internals(nodes, (n - 1) as nat) {
        lemma_split_node(nodes, (n - 1) as nat, j)
    } else {
        n - 1
    }
}

/// A tree has splits exactly if its root is one.
proof fn lemma_first_split(nodes: Seq<NodeView>, binners: Seq<BinnerView>)
    requires
        readable(nodes, binners),
    ensures
        nodes[0] is Internal <==> internals(nodes, nodes.len()) > 0,
{
    assert(internals(nodes, 0) == 0);
    if nodes[0] is Internal {
        assert(internals(nodes, 1) == 1);
        lemma_internals_monotone(nodes, 1, nodes.len());
    } else {
        if nodes.len() > 1 {
            assert(has_parent(nodes, 1));
            let p = choose|p: int| is_child(nodes, p, 1);
            assert(nodes[p] is Internal);
        }
        assert(internals(nodes, 1) == 0);
    }
}

/// What is read of part `t` of a text.
proof fn lemma_read_part(
    objective: Seq<char>,
    names: Seq<Seq<char>>,
    binners: Seq<BinnerView>,
    base: Double,
    trees: Seq<Seq<NodeView>>,
    shown: Seq<Seq<char>>,
    t: int,
)
    requires
        plain_texts(objective, names, shown),
        shown.len() == count_numbers(trees, trees.len()),
        0 <= t <= trees.len(),
    ensures
        ({
            let nodes = part_nodes(base, trees, t);
            let rt = read_tree(model_text(objective, names, binners, trees, shown), t as nat);
            let own = part_shown(trees, shown, t);
            let inner = internals(nodes, nodes.len());
            &&& true_lists(rt, nodes, binners)
            &&& own.len() == nodes.len()
            &&& inner <= nodes.len()
            &&& rt.threshold == own.take(inner as int)
            &&& rt.leaf_value == own.skip(inner as int)
        }),
{
    let nodes = part_nodes(base, trees, t);
    let text = model_text(objective, names, binners, trees, shown);
    let own = part_shown(trees, shown, t);
    let all = model_lines(objective, names, binners, base, trees, shown);
    lemma_model_lines(objective, names, binners, base, trees, shown);
    lemma_model_one_line(objective, names, binners, base, trees, shown);
    law_lines_are_read_back(all);
    assert(lines(text) == all);
    let at = lemma_part_found(objective, names, binners, base, trees, shown, t);
    lemma_part_shown(base, trees, shown, t);
    lemma_values_found(all, at, t as nat, nodes, binners, own);
    lemma_read_lists(read_tree(text, t as nat), all, at, nodes, binners, own);
}

proof fn lemma_read_lists(
    rt: ReadTree,
    all: Seq<Seq<char>>,
    at: int,
    nodes: Seq<NodeView>,
    binners: Seq<BinnerView>,
    own: Seq<Seq<char>>,
)
    requires
        rt == (ReadTree {
            split_feature: numbers(all, at, "split_feature="@),
            threshold: list(all, at, "threshold="@),
            decision_type: numbers(all, at, "decision_type="@),
            left_child: numbers(all, at, "left_child="@),
            right_child: numbers(all, at, "right_child="@),
            leaf_value: list(all, at, "leaf_value="@),
            cat_boundaries: numbers(all, at, "cat_boundaries="@),
            cat_threshold: numbers(all, at, "cat_threshold="@),
        }),
        forall|i: int| 0 <= i < own.len() ==> word(#[trigger] own[i]),
        internals(nodes, nodes.len()) <= own.len(),
        own.len() == nodes.len(),
        forall|k: int|
            0 <= k < 14 ==> value_of_name(all, at, #[trigger] tree_names()[k]) == Some(
                tree_values(nodes, binners, own)[k],
            ),
        categorical_splits(nodes, nodes.len()) > 0 ==> {
            &&& value_of_name(all, at, "cat_boundaries="@) == Some(
                spaced(Seq::new(categorical_splits(nodes, nodes.len()) + 1, |i: int| decimal((8 * i) as nat))),
            )
            &&& value_of_name(all, at, "cat_threshold="@) == Some(spaced(category_words(nodes, binners, nodes.len())))
        },
    ensures
        true_lists(rt, nodes, binners),
        rt.threshold == own.take(internals(nodes, nodes.len()) as int),
        rt.leaf_value == own.skip(internals(nodes, nodes.len()) as int),
{
    lemma_tree_words(nodes, binners, own);
    let names = tree_names();
    assert(names[2] == "split_feature="@);
    assert(names[4] == "threshold="@);
    assert(names[5] == "decision_type="@);
    assert(names[6] == "left_child="@);
    assert(names[7] == "right_child="@);
    assert(names[8] == "leaf_value="@);
    let bounds = Seq::new(categorical_splits(nodes, nodes.len()) + 1, |i: int| decimal((8 * i) as nat));
    assert forall|i: int| 0 <= i < bounds.len() implies word(#[trigger] bounds[i]) by {
        law_number_is_read_back((8 * i) as nat);
    }
    law_lists_are_read_back(bounds);
    lemma_category_words(nodes, binners, nodes.len());
    law_lists_are_read_back(category_words(nodes, binners, nodes.len()));
}

/// Where the numbers of a part stand among those of the model.
pub open spec fn part_start(trees: Seq<Seq<NodeView>>, t: int) -> int {
    if t == 0 { 0 } else { count_numbers(trees, (t - 1) as nat) as int }
}

proof fn lemma_part_numbers(base: Double, trees: Seq<Seq<NodeView>>, binners: Seq<BinnerView>, n: nat, t: int)
    requires
        0 <= t <= n <= trees.len(),
    ensures
        ({
            let all = all_numbers(base, trees, binners, n);
            let own = tree_numbers(part_nodes(base, trees, t), binners);
            let at = part_start(trees, t);
            &&& own.len() == part_nodes(base, trees, t).len()
            &&& at + own.len() <= all.len()
            &&& all.subrange(at, at + own.len()) == own
        }),
    decreases n,
{
    let all = all_numbers(base, trees, binners, n);
    let own = tree_numbers(part_nodes(base, trees, t), binners);
    let at = part_start(trees, t);
    lemma_tree_numbers_len(part_nodes(base, trees, t), binners);
    lemma_all_numbers_len(base, trees, binners, n);
    if t == n {
        if t > 0 {
            lemma_all_numbers_len(base, trees, binners, (n - 1) as nat);
            assert(all.subrange(at, at + own.len()) =~= own);
        } else {
            let nodes = lone_leaf(base);
            assert(leaf_values(nodes, 0) =~= Seq::<Double>::empty());
            assert(leaf_values(nodes, 1) =~= seq![base]);
            let f = |i: int| threshold_number(nodes, binners, i);
            assert(per_internal(nodes, 0, f) =~= Seq::<Double>::empty());
            assert(per_internal(nodes, 1, f) =~= Seq::<Double>::empty());
            assert(own =~= seq![base]);
            assert(all.subrange(at, at + own.len()) =~= own);
        }
    } else {
        lemma_part_numbers(base, trees, binners, (n - 1) as nat, t);
        let before = all_numbers(base, trees, binners, (n - 1) as nat);
        assert(all.subrange(at, at + own.len()) =~= before.subrange(at, at + own.len()));
    }
}

/// Where the numbers of the text come from.
proof fn lemma_numbers_read(
    objective: Seq<char>,
    names: Seq<Seq<char>>,
    binners: Seq<BinnerView>,
    base: Double,
    trees: Seq<Seq<NodeView>>,
    shown: Seq<Seq<char>>,
    t: int,
    row: spec_fn(int) -> Value,
    bins: Seq<u8>,
    sentinels: Seq<u8>,
)
    requires
        plain_texts(objective, names, shown),
        shown.len() == count_numbers(trees, trees.len()),
        0 <= t <= trees.len(),
        readable(part_nodes(base, trees, t), binners),
        bins.len() == binners.len(),
        sentinels.len() == binners.len(),
        forall|f: int| 0 <= f < binners.len() ==> bin_of_value(binners[f], row(f), #[trigger] bins[f]),
        forall|f: int| 0 <= f < binners.len() ==> (#[trigger] sentinels[f]) == binners[f].num_bins() - 1,
    ensures
        ({
            let rt = read_tree(model_text(objective, names, binners, trees, shown), t as nat);
            let nodes = part_nodes(base, trees, t);
            let values = all_numbers(base, trees, binners, trees.len());
            let splits = rt.split_feature.len();
            let at = part_start(trees, t);
            &&& true_types(rt, binners, values.skip(at))
            &&& rt.threshold == shown.subrange(at, at + splits)
            &&& rt.leaf_value == shown.subrange(at + splits, at + nodes.len())
            &&& leaf_of(nodes, bins, sentinels) matches Some(c) ==> {
                let end = rt.walk(
                    values.subrange(at, at + splits),
                    row,
                    if splits == 0 { -1int } else { 0 },
                    nodes.len(),
                );
                &&& end is Some
                &&& 0 <= end->0 < rt.leaf_value.len()
                &&& values[at + splits + end->0] == nodes[c as int]->value
                &&& rt.leaf_value[end->0] == shown[at + splits + end->0]
            }
        }),
{
    let n = trees.len();
    lemma_part_numbers(base, trees, binners, n, t);
    law_text_leads_rows_to_their_leaves(objective, names, binners, base, trees, shown, t, row, bins, sentinels);
    lemma_all_numbers_len(base, trees, binners, n);
    let rt = read_tree(model_text(objective, names, binners, trees, shown), t as nat);
    let own = part_shown(trees, shown, t);
    let at = part_start(trees, t);
    let nodes = part_nodes(base, trees, t);
    let splits = rt.split_feature.len() as int;
    let values = all_numbers(base, trees, binners, n);
    let part = tree_numbers(nodes, binners);
    assert(own =~= shown.subrange(at, at + nodes.len()));
    lemma_subrange_parts(shown, at, splits, nodes.len() as int);
    lemma_subrange_parts(values, at, splits, nodes.len() as int);
    assert(rt.leaf_value == own.skip(splits));
    assert forall|j: int| 0 <= j < splits implies #[trigger] true_type(rt, binners, values.skip(at), j) by {
        assert(true_type(rt, binners, part, j));
        assert(values.skip(at)[j] == part[j]);
    }
}

proof fn lemma_subrange_parts<T>(all: Seq<T>, at: int, k: int, n: int)
    requires
        0 <= at,
        0 <= k <= n,
        at + n <= all.len(),
    ensures
        all.subrange(at, at + n).take(k) == all.subrange(at, at + k),
        all.subrange(at, at + n).skip(k) == all.subrange(at + k, at + n),
        forall|i: int| 0 <= i < n ==> #[trigger] all.subrange(at, at + n)[i] == all[at + i],
        forall|i: int| 0 <= i < n - k ==> #[trigger] all.subrange(at + k, at + n)[i] == all[at + k + i],
{
    assert(all.subrange(at, at + n).take(k) =~= all.subrange(at, at + k));
    assert(all.subrange(at, at + n).skip(k) =~= all.subrange(at + k, at + n));
}

/// The text of a model names its objective and its features, and reading it back gives the model's
/// trees: tree `t` of the text leads a row to the leaf that it reaches in tree `t` of the model, or
/// to the base score where `t` is zero, and the text that stands there is that which was handed in
/// for the leaf's value. The thresholds are those handed in for the bounds of the bins.
pub proof fn law_model_text_is_read_back<O: Objective>(
    booster: &Booster<O>,
    shown: Seq<Seq<char>>,
    t: int,
    row: spec_fn(int) -> Value,
    bins: Seq<u8>,
)
    requires
        booster.wf(),
        booster.feature_binners@.len() > 0,
        plain_texts(booster.objective.name_spec(), texts(booster.feature_names@), shown),
        shown.len() == booster.numbers_spec().len(),
        0 <= t <= booster.trees@.len(),
        readable(
            part_nodes(booster.base_score, tree_views(booster.trees@), t),
            binner_views(booster.feature_binners@),
        ),
        bins.len() == booster.feature_binners@.len(),
        forall|f: int|
            0 <= f < bins.len() ==> bin_of_value(booster.feature_binners@[f]@, row(f), #[trigger] bins[f]),
    ensures
        ({
            let text = booster.text_spec(shown);
            let all = lines(text);
            &&& value_of_name(all, 0, "objective="@) == Some(booster.objective.name_spec())
            &&& value_of_name(all, 0, "feature_names="@) == Some(spaced(texts(booster.feature_names@)))
            &&& value_of_name(all, 0, "max_feature_idx="@) is Some
            &&& read_number(value_of_name(all, 0, "max_feature_idx="@)->0) == booster.feature_binners@.len() - 1
        }),
        ({
            let rt = read_tree(booster.text_spec(shown), t as nat);
            let nodes = part_nodes(booster.base_score, tree_views(booster.trees@), t);
            let values = booster.numbers_spec();
            let splits = rt.split_feature.len();
            let at = part_start(tree_views(booster.trees@), t);
            &&& true_types(rt, binner_views(booster.feature_binners@), values.skip(at))
            &&& rt.threshold == shown.subrange(at, at + splits)
            &&& rt.leaf_value == shown.subrange(at + splits, at + nodes.len())
            &&& leaf_of(nodes, bins, booster.sentinels()) matches Some(c) ==> {
                let end = rt.walk(
                    values.subrange(at, at + splits),
                    row,
                    if splits == 0 { -1int } else { 0 },
                    nodes.len(),
                );
                &&& end is Some
                &&& 0 <= end->0 < rt.leaf_value.len()
                &&& values[at + splits + end->0] == nodes[c as int]->value
                &&& rt.leaf_value[end->0] == shown[at + splits + end->0]
            }
        }),
{
    let objective = booster.objective.name_spec();
    let names = texts(booster.feature_names@);
    let binners = binner_views(booster.feature_binners@);
    let trees = tree_views(booster.trees@);
    let base = booster.base_score;
    let n = trees.len();
    lemma_all_numbers_len(base, trees, binners, n);
    law_header_names_the_model(objective, names, binners, trees, shown);
    let sentinels = booster.sentinels();
    assert forall|f: int| 0 <= f < binners.len() implies bin_of_value(binners[f], row(f), #[trigger] bins[f]) by {
        assert(binners[f] == booster.feature_binners@[f]@);
    }
    assert forall|f: int| 0 <= f < binners.len() implies (#[trigger] sentinels[f]) == binners[f].num_bins() - 1 by {
        assert(booster.feature_binners@[f]@.wf());
        assert(binners[f] == booster.feature_binners@[f]@);
    }
    lemma_numbers_read(objective, names, binners, base, trees, shown, t, row, bins, sentinels);
}

} // verus!
