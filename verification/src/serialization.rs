//! Models as text, in the format of LightGBM `model.txt` (v4) files.
//!
//! How a floating-point number is written is left to the caller: the numbers that stand in
//! the text are handed out in their order, and come back as texts.

use vstd::arithmetic::div_mod::{lemma_fundamental_div_mod, lemma_fundamental_div_mod_converse};
use vstd::arithmetic::power2::{lemma2_to64, lemma_pow2_adds, lemma_pow2_pos, lemma_pow2_unfold, pow2};
use vstd::prelude::*;
use vstd::slice::slice_subrange;
use vstd::string::StringExecFns;
use vstd::utf8::encode_utf8;

use crate::bin::{BinnerView, FeatureBinner};
use crate::booster::{tree_views, Booster};
use crate::double::Double;
use crate::objective::Objective;
use crate::rounding::lemma_pow2_le;
use crate::split::{Rule, Threshold};
use crate::text::{decimal, decimal_text, join, joined, signed_decimal, signed_text, spaced, texts, zeros, zeros_text};
use crate::tree::{internals, tree_wf, Node, NodeView, Tree, MAX_NODES};

verus! {

/// The contents of binners.
pub open spec fn binner_views(binners: Seq<FeatureBinner>) -> Seq<BinnerView> {
    binners.map_values(|b: FeatureBinner| b@)
}

/// How a child is written: an internal node by its number among the internal nodes, a leaf
/// by its number among the leaves, counted from -1 down.
pub open spec fn child_index(nodes: Seq<NodeView>, i: int) -> int {
    if nodes[i] is Internal {
        internals(nodes, i as nat) as int
    } else {
        -(i - internals(nodes, i as nat) + 1)
    }
}

/// What `f` says of each internal node among the first `n`.
pub open spec fn per_internal<T>(nodes: Seq<NodeView>, n: nat, f: spec_fn(int) -> T) -> Seq<T>
    decreases n,
{
    if n == 0 {
        Seq::empty()
    } else {
        let before = per_internal(nodes, (n - 1) as nat, f);
        if nodes[n - 1] is Internal { before.push(f(n - 1)) } else { before }
    }
}

/// The values of the leaves among the first `n` nodes.
pub open spec fn leaf_values(nodes: Seq<NodeView>, n: nat) -> Seq<Double>
    decreases n,
{
    if n == 0 {
        Seq::empty()
    } else {
        let before = leaf_values(nodes, (n - 1) as nat);
        match nodes[n - 1] {
            NodeView::Leaf { value } => before.push(value),
            NodeView::Internal { .. } => before,
        }
    }
}

/// How many of the first `n` nodes are categorical splits.
pub open spec fn categorical_splits(nodes: Seq<NodeView>, n: nat) -> nat
    decreases n,
{
    if n == 0 {
        0
    } else {
        categorical_splits(nodes, (n - 1) as nat) + match nodes[n - 1] {
            NodeView::Internal { rule: Rule::Categorical(_), .. } => 1nat,
            _ => 0nat,
        }
    }
}

/// The number that stands for a split: the upper bound of its bin, or the number of the
/// categorical split.
pub open spec fn threshold_number(nodes: Seq<NodeView>, binners: Seq<BinnerView>, i: int) -> Double {
    match nodes[i]->rule {
        Rule::Numeric { bin, .. } => binners[nodes[i]->feature as int]->Numerical_0[bin as int],
        Rule::Categorical(_) => Double::from_count_spec(categorical_splits(nodes, i as nat)),
    }
}

/// The bin of missing values of a feature.
pub open spec fn missing_bin(binner: BinnerView) -> int {
    binner.num_bins() - 1
}

/// The decision type of a split: bit 0 for categorical splits, bit 1 where missing values go
/// left, and bit 3, which says that missing values are not numbers.
pub open spec fn decision_type(nodes: Seq<NodeView>, binners: Seq<BinnerView>, i: int) -> nat {
    match nodes[i]->rule {
        Rule::Numeric { missing_goes_left, .. } => if missing_goes_left { 10 } else { 8 },
        Rule::Categorical(cats) => if cats[missing_bin(binners[nodes[i]->feature as int])] { 11 } else { 9 },
    }
}

/// Whether a category goes left. The bin of missing values is left out.
pub open spec fn category_left(cats: Seq<bool>, missing: int, k: int) -> bool {
    k < cats.len() && k != missing && cats[k]
}

/// The `n` bits from category `start` on, as a number.
pub open spec fn category_bits(cats: Seq<bool>, missing: int, start: int, n: nat) -> nat
    decreases n,
{
    if n == 0 {
        0
    } else {
        category_bits(cats, missing, start, (n - 1) as nat) + if category_left(cats, missing, start + n - 1) {
            pow2((n - 1) as nat)
        } else {
            0
        }
    }
}

/// The bit sets of the categorical splits among the first `n` nodes: eight words of 32 bits
/// each.
pub open spec fn category_words(nodes: Seq<NodeView>, binners: Seq<BinnerView>, n: nat) -> Seq<Seq<char>>
    decreases n,
{
    if n == 0 {
        Seq::empty()
    } else {
        let before = category_words(nodes, binners, (n - 1) as nat);
        match nodes[n - 1] {
            NodeView::Internal { feature, rule: Rule::Categorical(cats), .. } => before + Seq::new(
                8,
                |j: int| decimal(category_bits(cats, missing_bin(binners[feature as int]), 32 * j, 32)),
            ),
            _ => before,
        }
    }
}

/// The numbers that stand in the text of a tree, in their order.
pub open spec fn tree_numbers(nodes: Seq<NodeView>, binners: Seq<BinnerView>) -> Seq<Double> {
    per_internal(nodes, nodes.len(), |i: int| threshold_number(nodes, binners, i)) + leaf_values(nodes, nodes.len())
}

/// The text of a tree without its title, the numbers written as `shown`.
pub open spec fn tree_text(nodes: Seq<NodeView>, binners: Seq<BinnerView>, shown: Seq<Seq<char>>) -> Seq<char> {
    let n = nodes.len();
    let inner = internals(nodes, n);
    let leaves = (n - inner) as nat;
    let categorical = categorical_splits(nodes, n);
    let words = category_words(nodes, binners, n);
    "num_leaves="@ + decimal(leaves) + "\nnum_cat="@ + decimal(categorical)
        + "\nsplit_feature="@ + spaced(per_internal(nodes, n, |i: int| decimal(nodes[i]->feature)))
        + "\nsplit_gain="@ + zeros(inner)
        + "\nthreshold="@ + spaced(shown.take(inner as int))
        + "\ndecision_type="@ + spaced(per_internal(nodes, n, |i: int| decimal(decision_type(nodes, binners, i))))
        + "\nleft_child="@ + spaced(
            per_internal(nodes, n, |i: int| signed_decimal(child_index(nodes, nodes[i]->left as int))),
        )
        + "\nright_child="@ + spaced(
            per_internal(nodes, n, |i: int| signed_decimal(child_index(nodes, nodes[i]->right as int))),
        )
        + "\nleaf_value="@ + spaced(shown.skip(inner as int))
        + "\nleaf_weight="@ + zeros(leaves)
        + "\nleaf_count="@ + zeros(leaves)
        + "\ninternal_value="@ + zeros(inner)
        + "\ninternal_weight="@ + zeros(inner)
        + "\ninternal_count="@ + zeros(inner)
        + "\n"@ + if categorical > 0 {
            "cat_boundaries="@ + spaced(Seq::new(categorical + 1, |i: int| decimal((8 * i) as nat)))
                + "\ncat_threshold="@ + spaced(words) + "\n"@
        } else {
            Seq::empty()
        } + "is_linear=0\nshrinkage=1\n"@
}

/// A tree can be written: its children are nodes, and its splits are of the kinds of their
/// features.
pub open spec fn writable(nodes: Seq<NodeView>, binners: Seq<BinnerView>) -> bool {
    forall|i: int|
        0 <= i < nodes.len() ==> match #[trigger] nodes[i] {
            NodeView::Leaf { .. } => true,
            NodeView::Internal { left, right, feature, rule } => {
                &&& left < nodes.len()
                &&& right < nodes.len()
                &&& feature < binners.len()
                &&& binners[feature as int].usable()
                &&& match rule {
                    Rule::Numeric { bin, .. } => binners[feature as int] matches BinnerView::Numerical(bounds) && bin
                        < bounds.len(),
                    Rule::Categorical(cats) => binners[feature as int] is Categorical && missing_bin(
                        binners[feature as int],
                    ) < cats.len(),
                }
            },
        }
}

pub(crate) proof fn lemma_per_internal_len<T>(nodes: Seq<NodeView>, n: nat, f: spec_fn(int) -> T)
    ensures
        per_internal(nodes, n, f).len() == internals(nodes, n) <= n,
    decreases n,
{
    if n > 0 {
        lemma_per_internal_len(nodes, (n - 1) as nat, f);
    }
}

pub(crate) proof fn lemma_internals_monotone(nodes: Seq<NodeView>, m: nat, n: nat)
    requires
        m <= n,
    ensures
        internals(nodes, m) <= internals(nodes, n),
        n - internals(nodes, n) >= m - internals(nodes, m),
    decreases n,
{
    if m < n {
        lemma_internals_monotone(nodes, m, (n - 1) as nat);
    }
}

pub(crate) proof fn lemma_leaf_values_len(nodes: Seq<NodeView>, n: nat)
    ensures
        leaf_values(nodes, n).len() + internals(nodes, n) == n,
        categorical_splits(nodes, n) <= internals(nodes, n),
    decreases n,
{
    if n > 0 {
        lemma_leaf_values_len(nodes, (n - 1) as nat);
    }
}

/// Eight words of a bit set, as texts.
fn push_words(cats: &Vec<bool>, missing: usize, words: &mut Vec<String>)
    ensures
        texts(final(words)@) == texts(old(words)@) + Seq::new(
            8,
            |j: int| decimal(category_bits(cats@, missing as int, 32 * j, 32)),
        ),
{
    let ghost before = texts(words@);
    for j in 0..8usize
        invariant
            texts(words@) =~= before + Seq::new(
                j as nat,
                |j: int| decimal(category_bits(cats@, missing as int, 32 * j, 32)),
            ),
    {
        let start = 32 * j;
        let mut word: u64 = 0;
        let mut power: u64 = 1;
        proof {
            lemma2_to64();
        }
        for b in 0..32usize
            invariant
                start == 32 * j,
                j < 8,
                power == pow2(b as nat),
                power <= 0x1_0000_0000,
                word < power,
                word == category_bits(cats@, missing as int, start as int, b as nat),
        {
            proof {
                lemma_pow2_unfold((b + 1) as nat);
                lemma2_to64();
                lemma_pow2_le((b + 1) as nat, 32);
            }
            let k = start + b;
            if k < cats.len() && k != missing && cats[k] {
                word += power;
            }
            power *= 2;
        }
        let ghost shorter = words@;
        words.push(decimal_text(word));
        proof {
            assert(texts(words@) =~= texts(shorter).push(decimal(word as nat)));
            assert(word == category_bits(cats@, missing as int, 32 * j as int, 32));
            assert(Seq::new((j + 1) as nat, |j: int| decimal(category_bits(cats@, missing as int, 32 * j, 32)))
                =~= Seq::new(j as nat, |j: int| decimal(category_bits(cats@, missing as int, 32 * j, 32))).push(
                decimal(word as nat),
            ));
        }
    }
}

/// How each node is written as a child.
fn child_indices(tree: &Tree) -> (indices: Vec<i64>)
    requires
        tree@.len() <= MAX_NODES,
    ensures
        indices@.len() == tree@.len(),
        forall|i: int| 0 <= i < tree@.len() ==> #[trigger] indices@[i] == child_index(tree@, i),
        forall|i: int| 0 <= i < tree@.len() ==> i64::MIN < #[trigger] indices@[i],
{
    let n = tree.nodes.len();
    let mut indices: Vec<i64> = Vec::with_capacity(n);
    let mut inner: usize = 0;
    for i in 0..n
        invariant
            n == tree@.len(),
            n == tree.nodes@.len(),
            n <= MAX_NODES,
            inner <= i,
            inner == internals(tree@, i as nat),
            indices@.len() == i,
            forall|k: int| 0 <= k < i ==> #[trigger] indices@[k] == child_index(tree@, k),
            forall|k: int| 0 <= k < i ==> i64::MIN < #[trigger] indices@[k],
    {
        assert(tree@[i as int] == tree.nodes@[i as int]@);
        match &tree.nodes[i] {
            Node::Internal { .. } => {
                indices.push(inner as i64);
                inner += 1;
            },
            Node::Leaf { .. } => {
                indices.push(-((i - inner) as i64 + 1));
            },
        }
    }
    indices
}

impl Tree {
    /// The numbers that stand in the text of the tree.
    fn push_numbers(&self, binners: &Vec<FeatureBinner>, numbers: &mut Vec<Double>)
        requires
            writable(self@, binner_views(binners@)),
            self@.len() <= MAX_NODES,
        ensures
            final(numbers)@ == old(numbers)@ + tree_numbers(self@, binner_views(binners@)),
    {
        let ghost nodes = self@;
        let ghost views = binner_views(binners@);
        let ghost before = numbers@;
        let ghost f = |i: int| threshold_number(nodes, views, i);
        let n = self.nodes.len();
        let mut categorical: usize = 0;
        for i in 0..n
            invariant
                n == nodes.len() == self.nodes@.len(),
                nodes == self@,
                views == binner_views(binners@),
                writable(nodes, views),
                categorical <= i,
                categorical == categorical_splits(nodes, i as nat),
                f == (|i: int| threshold_number(nodes, views, i)),
                numbers@ =~= before + per_internal(nodes, i as nat, f),
        {
            assert(nodes[i as int] == self.nodes@[i as int]@);
            if let Node::Internal { split_feature, threshold, .. } = &self.nodes[i] {
                let feature = *split_feature as usize;
                assert(views[feature as int] == binners@[feature as int]@);
                match threshold {
                    Threshold::Numeric { bin, .. } => {
                        if let FeatureBinner::Numerical(bounds) = &binners[feature] {
                            numbers.push(bounds[*bin as usize]);
                        }
                    },
                    Threshold::Categorical(_) => {
                        numbers.push(Double::from_count(categorical));
                        categorical += 1;
                    },
                }
            }
        }
        let ghost first = numbers@;
        for i in 0..n
            invariant
                n == nodes.len() == self.nodes@.len(),
                nodes == self@,
                numbers@ =~= first + leaf_values(nodes, i as nat),
        {
            assert(nodes[i as int] == self.nodes@[i as int]@);
            if let Node::Leaf { value } = &self.nodes[i] {
                numbers.push(*value);
            }
        }
        assert(numbers@ =~= before + tree_numbers(nodes, views));
    }
}

/// The decision type of a split.
fn decide(threshold: &Threshold, missing: usize) -> (d: u64)
    requires
        threshold@ matches Rule::Categorical(cats) ==> missing < cats.len(),
    ensures
        d == match threshold@ {
            Rule::Numeric { missing_goes_left, .. } => if missing_goes_left { 10int } else { 8 },
            Rule::Categorical(cats) => if cats[missing as int] { 11 } else { 9 },
        },
{
    match threshold {
        Threshold::Numeric { missing_goes_left, .. } => if *missing_goes_left { 10 } else { 8 },
        Threshold::Categorical(cats) => if cats[missing] { 11 } else { 9 },
    }
}

/// The lists of a tree's text that have an entry for each split.
struct SplitLists {
    split_feature: Vec<String>,
    decision_type: Vec<String>,
    left_child: Vec<String>,
    right_child: Vec<String>,
    words: Vec<String>,
    categorical: usize,
}

impl SplitLists {
    /// The lists over the first `n` nodes.
    spec fn cover(&self, nodes: Seq<NodeView>, binners: Seq<BinnerView>, n: nat) -> bool {
        &&& texts(self.split_feature@) == per_internal(nodes, n, |i: int| decimal(nodes[i]->feature))
        &&& texts(self.decision_type@) == per_internal(nodes, n, |i: int| decimal(decision_type(nodes, binners, i)))
        &&& texts(self.left_child@) == per_internal(
            nodes,
            n,
            |i: int| signed_decimal(child_index(nodes, nodes[i]->left as int)),
        )
        &&& texts(self.right_child@) == per_internal(
            nodes,
            n,
            |i: int| signed_decimal(child_index(nodes, nodes[i]->right as int)),
        )
        &&& texts(self.words@) == category_words(nodes, binners, n)
        &&& self.categorical == categorical_splits(nodes, n)
    }
}

fn push_text(list: &mut Vec<String>, text: String)
    ensures
        texts(final(list)@) == texts(old(list)@).push(text@),
{
    let ghost before = list@;
    list.push(text);
    assert(texts(list@) =~= texts(before).push(text@));
}

impl Tree {
    fn split_lists(&self, binners: &Vec<FeatureBinner>) -> (lists: SplitLists)
        requires
            writable(self@, binner_views(binners@)),
            self@.len() <= MAX_NODES,
        ensures
            lists.cover(self@, binner_views(binners@), self@.len()),
    {
        let ghost nodes = self@;
        let ghost views = binner_views(binners@);
        let n = self.nodes.len();
        let indices = child_indices(self);
        let mut lists = SplitLists {
            split_feature: Vec::new(),
            decision_type: Vec::new(),
            left_child: Vec::new(),
            right_child: Vec::new(),
            words: Vec::new(),
            categorical: 0,
        };
        proof {
            assert(texts(lists.words@) =~= Seq::<Seq<char>>::empty());
        }
        for i in 0..n
            invariant
                n == nodes.len() == self.nodes@.len(),
                n <= MAX_NODES,
                nodes == self@,
                views == binner_views(binners@),
                writable(nodes, views),
                indices@.len() == n,
                forall|i: int| 0 <= i < n ==> #[trigger] indices@[i] == child_index(nodes, i),
                forall|i: int| 0 <= i < n ==> i64::MIN < #[trigger] indices@[i],
                lists.categorical <= i,
                lists.cover(nodes, views, i as nat),
        {
            assert(nodes[i as int] == self.nodes@[i as int]@);
            if let Node::Internal { left_child, right_child, split_feature, threshold } = &self.nodes[i] {
                let feature = *split_feature as usize;
                assert(views[feature as int] == binners@[feature as int]@);
                let missing = binners[feature].num_bins() - 1;
                push_text(&mut lists.split_feature, decimal_text(*split_feature as u64));
                push_text(&mut lists.decision_type, decimal_text(decide(threshold, missing)));
                push_text(&mut lists.left_child, signed_text(indices[*left_child as usize]));
                push_text(&mut lists.right_child, signed_text(indices[*right_child as usize]));
                if let Threshold::Categorical(cats) = threshold {
                    push_words(cats, missing, &mut lists.words);
                    lists.categorical = lists.categorical + 1;
                }
            }
        }
        lists
    }
}

/// The places at which the bit sets start and end.
fn boundaries(categorical: usize) -> (r: String)
    requires
        categorical <= MAX_NODES,
    ensures
        r@ == spaced(Seq::new((categorical + 1) as nat, |i: int| decimal((8 * i) as nat))),
{
    let ghost all = Seq::new((categorical + 1) as nat, |i: int| decimal((8 * i) as nat));
    let mut list: Vec<String> = Vec::new();
    for i in 0..categorical + 1
        invariant
            categorical <= MAX_NODES,
            all == Seq::new((categorical + 1) as nat, |i: int| decimal((8 * i) as nat)),
            texts(list@) =~= all.take(i as int),
    {
        push_text(&mut list, decimal_text(8 * i as u64));
    }
    assert(texts(list@) =~= all);
    join(&list, " ")
}

impl Tree {
    /// Writes the tree, without its title. `shown` holds the tree's numbers as texts.
    pub fn write_to_string(&self, s: &mut String, binners: &Vec<FeatureBinner>, shown: &[String])
        requires
            writable(self@, binner_views(binners@)),
            self@.len() <= MAX_NODES,
            shown@.len() == self@.len(),
        ensures
            final(s)@ == old(s)@ + tree_text(self@, binner_views(binners@), texts(shown@)),
    {
        let ghost nodes = self@;
        let ghost views = binner_views(binners@);
        let ghost before = s@;
        let n = self.nodes.len();
        let lists = self.split_lists(binners);
        let inner = lists.split_feature.len();
        proof {
            lemma_per_internal_len(nodes, n as nat, |i: int| decimal(nodes[i]->feature));
            lemma_leaf_values_len(nodes, n as nat);
            assert(texts(lists.split_feature@).len() == inner);
        }
        let leaves = n - inner;
        let thresholds = slice_subrange(shown, 0, inner);
        let values = slice_subrange(shown, inner, n);
        proof {
            assert(texts(thresholds@) =~= texts(shown@).take(inner as int));
            assert(texts(values@) =~= texts(shown@).skip(inner as int));
        }
        let zeros_internal = zeros_text(inner);
        let zeros_leaf = zeros_text(leaves);
        let mut r = String::from_str("num_leaves=");
        r.append(decimal_text(leaves as u64).as_str());
        r.append("\nnum_cat=");
        r.append(decimal_text(lists.categorical as u64).as_str());
        r.append("\nsplit_feature=");
        r.append(join(&lists.split_feature, " ").as_str());
        r.append("\nsplit_gain=");
        r.append(zeros_internal.as_str());
        r.append("\nthreshold=");
        r.append(join(thresholds, " ").as_str());
        r.append("\ndecision_type=");
        r.append(join(&lists.decision_type, " ").as_str());
        r.append("\nleft_child=");
        r.append(join(&lists.left_child, " ").as_str());
        r.append("\nright_child=");
        r.append(join(&lists.right_child, " ").as_str());
        r.append("\nleaf_value=");
        r.append(join(values, " ").as_str());
        r.append("\nleaf_weight=");
        r.append(zeros_leaf.as_str());
        r.append("\nleaf_count=");
        r.append(zeros_leaf.as_str());
        r.append("\ninternal_value=");
        r.append(zeros_internal.as_str());
        r.append("\ninternal_weight=");
        r.append(zeros_internal.as_str());
        r.append("\ninternal_count=");
        r.append(zeros_internal.as_str());
        r.append("\n");
        let mut sets = String::new();
        if lists.categorical > 0 {
            sets = String::from_str("cat_boundaries=");
            sets.append(boundaries(lists.categorical).as_str());
            sets.append("\ncat_threshold=");
            sets.append(join(&lists.words, " ").as_str());
            sets.append("\n");
        }
        r.append(sets.as_str());
        r.append("is_linear=0\nshrinkage=1\n");
        s.append(r.as_str());
    }
}

// ---------------------------------------------------------------------------------------
// Models
// ---------------------------------------------------------------------------------------

/// A tree of one leaf, which stands in front of the others and holds the base score.
pub open spec fn base_text(shown: Seq<char>) -> Seq<char> {
    "Tree=0\nnum_leaves=1\nnum_cat=0\nsplit_feature=\nsplit_gain=\nthreshold=\ndecision_type=\nleft_child=\nright_child=\nleaf_value="@
        + shown
        + "\nleaf_weight=0\nleaf_count=0\ninternal_value=\ninternal_weight=\ninternal_count=\nis_linear=0\nshrinkage=1\n\n\n"@
}

/// A tree under its title.
pub open spec fn titled_text(
    number: nat,
    nodes: Seq<NodeView>,
    binners: Seq<BinnerView>,
    shown: Seq<Seq<char>>,
) -> Seq<char> {
    "Tree="@ + decimal(number) + "\n"@ + tree_text(nodes, binners, shown) + "\n\n"@
}

/// How many numbers stand in the text before tree `n + 1`.
pub open spec fn count_numbers(trees: Seq<Seq<NodeView>>, n: nat) -> nat
    decreases n,
{
    if n == 0 {
        1
    } else {
        count_numbers(trees, (n - 1) as nat) + trees[n - 1].len()
    }
}

/// The numbers of the base score and the first `n` trees, in the order of the text.
pub open spec fn all_numbers(base: Double, trees: Seq<Seq<NodeView>>, binners: Seq<BinnerView>, n: nat) -> Seq<Double>
    decreases n,
{
    if n == 0 {
        seq![base]
    } else {
        all_numbers(base, trees, binners, (n - 1) as nat) + tree_numbers(trees[n - 1], binners)
    }
}

/// The texts of the trees, that of the base score first.
pub open spec fn tree_texts(trees: Seq<Seq<NodeView>>, binners: Seq<BinnerView>, shown: Seq<Seq<char>>) -> Seq<Seq<char>> {
    Seq::new(
        trees.len() + 1,
        |i: int|
            if i == 0 {
                base_text(shown[0])
            } else {
                titled_text(
                    i as nat,
                    trees[i - 1],
                    binners,
                    shown.subrange(
                        count_numbers(trees, (i - 1) as nat) as int,
                        count_numbers(trees, i as nat) as int,
                    ),
                )
            },
    )
}

/// What is said of a feature: its range, or its categories by number.
pub open spec fn feature_info(binner: BinnerView) -> Seq<char> {
    match binner {
        BinnerView::Numerical(_) => "[-inf:inf]"@,
        BinnerView::Categorical(map) => joined(
            Seq::new(map.len() + 1, |i: int| signed_decimal(i - 1)),
            ":"@,
            map.len() + 1,
        ),
    }
}

/// The text of a model.
pub open spec fn model_text(
    objective: Seq<char>,
    names: Seq<Seq<char>>,
    binners: Seq<BinnerView>,
    trees: Seq<Seq<NodeView>>,
    shown: Seq<Seq<char>>,
) -> Seq<char> {
    let parts = tree_texts(trees, binners, shown);
    "tree\nversion=v4\nnum_class=1\nnum_tree_per_iteration=1\nlabel_index=0\nmax_feature_idx="@
        + decimal((binners.len() - 1) as nat)
        + "\nobjective="@ + objective
        + "\nfeature_names="@ + spaced(names)
        + "\nfeature_infos="@ + spaced(binners.map_values(|b: BinnerView| feature_info(b)))
        + "\ntree_sizes="@ + spaced(parts.map_values(|t: Seq<char>| decimal(encode_utf8(t).len())))
        + "\n\n"@ + joined(parts, ""@, parts.len())
        + "end of trees\n\nparameters:\n[boosting: gbdt]\n[objective: "@ + objective
        + "]\n[num_class: 1]\n[num_tree_per_iteration: 1]\nend of parameters\n\npandas_categorical:null\n"@
}

/// What is said of a feature.
fn info_text(binner: &FeatureBinner) -> (r: String)
    requires
        binner@.usable(),
    ensures
        r@ == feature_info(binner@),
{
    match binner {
        FeatureBinner::Numerical(_) => String::from_str("[-inf:inf]"),
        FeatureBinner::Categorical(_) => {
            let n = binner.num_bins();
            let ghost all = Seq::new(n as nat, |i: int| signed_decimal(i - 1));
            let mut list: Vec<String> = Vec::new();
            for i in 0..n
                invariant
                    n <= 256,
                    all == Seq::new(n as nat, |i: int| signed_decimal(i - 1)),
                    texts(list@) =~= all.take(i as int),
            {
                push_text(&mut list, signed_text(i as i64 - 1));
            }
            assert(texts(list@) =~= all);
            join(&list, ":")
        },
    }
}

pub(crate) proof fn lemma_tree_numbers_len(nodes: Seq<NodeView>, binners: Seq<BinnerView>)
    ensures
        tree_numbers(nodes, binners).len() == nodes.len(),
{
    lemma_per_internal_len(nodes, nodes.len(), |i: int| threshold_number(nodes, binners, i));
    lemma_leaf_values_len(nodes, nodes.len());
}

pub(crate) proof fn lemma_all_numbers_len(base: Double, trees: Seq<Seq<NodeView>>, binners: Seq<BinnerView>, n: nat)
    ensures
        all_numbers(base, trees, binners, n).len() == count_numbers(trees, n),
    decreases n,
{
    if n > 0 {
        lemma_all_numbers_len(base, trees, binners, (n - 1) as nat);
        lemma_tree_numbers_len(trees[n - 1], binners);
    }
}

pub(crate) proof fn lemma_count_monotone(trees: Seq<Seq<NodeView>>, m: nat, n: nat)
    requires
        m <= n,
    ensures
        count_numbers(trees, m) <= count_numbers(trees, n),
    decreases n,
{
    if m < n {
        lemma_count_monotone(trees, m, (n - 1) as nat);
    }
}

impl<O: Objective> Booster<O> {
    /// The model can be written: it has a feature, and its trees go with its binners.
    pub open spec fn writable(&self) -> bool {
        &&& self.feature_binners@.len() > 0
        &&& forall|f: int| 0 <= f < self.feature_binners@.len() ==> (#[trigger] self.feature_binners@[f])@.usable()
        &&& forall|t: int|
            0 <= t < self.trees@.len() ==> {
                &&& writable((#[trigger] self.trees@[t])@, binner_views(self.feature_binners@))
                &&& self.trees@[t]@.len() <= MAX_NODES
            }
    }

    /// The numbers that stand in the text of the model, in their order.
    pub open spec fn numbers_spec(&self) -> Seq<Double> {
        all_numbers(
            self.base_score,
            tree_views(self.trees@),
            binner_views(self.feature_binners@),
            self.trees@.len(),
        )
    }

    /// The text of the model, with its numbers written as `shown`.
    pub open spec fn text_spec(&self, shown: Seq<Seq<char>>) -> Seq<char> {
        model_text(
            self.objective.name_spec(),
            texts(self.feature_names@),
            binner_views(self.feature_binners@),
            tree_views(self.trees@),
            shown,
        )
    }

    /// The numbers that stand in the text of the model, in their order.
    pub fn model_numbers(&self) -> (numbers: Vec<Double>)
        requires
            self.writable(),
        ensures
            numbers@ == self.numbers_spec(),
    {
        let mut numbers: Vec<Double> = Vec::new();
        numbers.push(self.base_score);
        let ghost views = binner_views(self.feature_binners@);
        let ghost trees = tree_views(self.trees@);
        for t in 0..self.trees.len()
            invariant
                self.writable(),
                views == binner_views(self.feature_binners@),
                trees == tree_views(self.trees@),
                numbers@ =~= all_numbers(self.base_score, trees, views, t as nat),
        {
            self.trees[t].push_numbers(&self.feature_binners, &mut numbers);
        }
        numbers
    }

    /// The texts of the trees.
    fn tree_strings(&self, shown: &Vec<String>) -> (parts: Vec<String>)
        requires
            self.writable(),
            shown@.len() == self.numbers_spec().len(),
        ensures
            texts(parts@) == tree_texts(
                tree_views(self.trees@),
                binner_views(self.feature_binners@),
                texts(shown@),
            ),
    {
        let ghost views = binner_views(self.feature_binners@);
        let ghost trees = tree_views(self.trees@);
        let ghost all = tree_texts(trees, views, texts(shown@));
        let total = shown.len();
        let num_trees = self.trees.len();
        proof {
            lemma_all_numbers_len(self.base_score, trees, views, num_trees as nat);
            lemma_count_monotone(trees, 0, num_trees as nat);
        }
        let mut parts: Vec<String> = Vec::new();
        let mut base = String::from_str(
            "Tree=0\nnum_leaves=1\nnum_cat=0\nsplit_feature=\nsplit_gain=\nthreshold=\ndecision_type=\nleft_child=\nright_child=\nleaf_value=",
        );
        base.append(shown[0].as_str());
        base.append(
            "\nleaf_weight=0\nleaf_count=0\ninternal_value=\ninternal_weight=\ninternal_count=\nis_linear=0\nshrinkage=1\n\n\n",
        );
        assert(texts(parts@) =~= Seq::<Seq<char>>::empty());
        push_text(&mut parts, base);
        assert(texts(parts@) =~= all.take(1));
        let mut done: usize = 1;
        for t in 0..num_trees
            invariant
                self.writable(),
                num_trees == self.trees@.len() == trees.len(),
                views == binner_views(self.feature_binners@),
                trees == tree_views(self.trees@),
                all == tree_texts(trees, views, texts(shown@)),
                total == shown@.len() == count_numbers(trees, num_trees as nat),
                done == count_numbers(trees, t as nat),
                texts(parts@) =~= all.take(t + 1),
        {
            let tree = &self.trees[t];
            proof {
                lemma_count_monotone(trees, (t + 1) as nat, num_trees as nat);
                assert(trees[t as int] == tree@);
            }
            let end = done + tree.nodes.len();
            let own = slice_subrange(shown.as_slice(), done, end);
            assert(texts(own@) =~= texts(shown@).subrange(done as int, end as int));
            let mut text = String::from_str("Tree=");
            text.append(decimal_text(t as u64 + 1).as_str());
            text.append("\n");
            tree.write_to_string(&mut text, &self.feature_binners, own);
            text.append("\n\n");
            push_text(&mut parts, text);
            done = end;
            assert(texts(parts@) =~= all.take(t + 2));
        }
        assert(texts(parts@) =~= all);
        parts
    }

    /// The text of the model, with its numbers written as `shown`.
    pub fn model_text(&self, shown: &Vec<String>) -> (text: String)
        requires
            self.writable(),
            shown@.len() == self.numbers_spec().len(),
        ensures
            text@ == self.text_spec(texts(shown@)),
    {
        let ghost views = binner_views(self.feature_binners@);
        let parts = self.tree_strings(shown);
        let num_features = self.feature_binners.len();
        let mut infos: Vec<String> = Vec::new();
        let ghost all_infos = views.map_values(|b: BinnerView| feature_info(b));
        assert(texts(infos@) =~= all_infos.take(0));
        for f in 0..num_features
            invariant
                self.writable(),
                num_features == self.feature_binners@.len(),
                views == binner_views(self.feature_binners@),
                all_infos == views.map_values(|b: BinnerView| feature_info(b)),
                texts(infos@) =~= all_infos.take(f as int),
        {
            push_text(&mut infos, info_text(&self.feature_binners[f]));
        }
        assert(texts(infos@) =~= all_infos);
        let mut sizes: Vec<String> = Vec::new();
        let ghost all_sizes = texts(parts@).map_values(|t: Seq<char>| decimal(encode_utf8(t).len()));
        assert(texts(sizes@) =~= all_sizes.take(0));
        for i in 0..parts.len()
            invariant
                all_sizes == texts(parts@).map_values(|t: Seq<char>| decimal(encode_utf8(t).len())),
                texts(sizes@) =~= all_sizes.take(i as int),
        {
            push_text(&mut sizes, decimal_text(parts[i].as_str().as_bytes().len() as u64));
        }
        assert(texts(sizes@) =~= all_sizes);
        let name = self.objective.lgbm_name();
        let mut s = String::from_str(
            "tree\nversion=v4\nnum_class=1\nnum_tree_per_iteration=1\nlabel_index=0\nmax_feature_idx=",
        );
        s.append(decimal_text((num_features - 1) as u64).as_str());
        s.append("\nobjective=");
        s.append(name);
        s.append("\nfeature_names=");
        s.append(join(&self.feature_names, " ").as_str());
        s.append("\nfeature_infos=");
        s.append(join(&infos, " ").as_str());
        s.append("\ntree_sizes=");
        s.append(join(&sizes, " ").as_str());
        s.append("\n\n");
        s.append(join(&parts, "").as_str());
        s.append("end of trees\n\nparameters:\n[boosting: gbdt]\n[objective: ");
        s.append(name);
        s.append("]\n[num_class: 1]\n[num_tree_per_iteration: 1]\nend of parameters\n\npandas_categorical:null\n");
        s
    }

    /// The text of the model, with its numbers written by `show`.
    pub fn model_to_string<F: Fn(Double) -> String>(&self, show: F) -> (text: String)
        requires
            self.writable(),
            forall|x: Double| call_requires(show, (x,)),
        ensures
            exists|shown: Seq<String>| #[trigger] texts(shown).len() == self.numbers_spec().len() && text@
                == self.text_spec(texts(shown)) && forall|i: int|
                0 <= i < shown.len() ==> call_ensures(show, (self.numbers_spec()[i],), #[trigger] shown[i]),
    {
        let numbers = self.model_numbers();
        let n = numbers.len();
        let mut shown: Vec<String> = Vec::with_capacity(n);
        for i in 0..n
            invariant
                n == numbers@.len(),
                numbers@ == self.numbers_spec(),
                forall|x: Double| call_requires(show, (x,)),
                shown@.len() == i,
                forall|k: int| 0 <= k < i ==> call_ensures(show, (self.numbers_spec()[k],), #[trigger] shown@[k]),
        {
            shown.push(show(numbers[i]));
        }
        assert(texts(shown@).len() == self.numbers_spec().len());
        self.model_text(&shown)
    }
}

/// Fitted models with a feature can be written.
pub proof fn law_fitted_model_is_writable<O: Objective>(booster: &Booster<O>)
    requires
        booster.wf(),
        booster.feature_binners@.len() > 0,
    ensures
        booster.writable(),
{
    let binners = binner_views(booster.feature_binners@);
    assert forall|t: int| 0 <= t < booster.trees@.len() implies writable((#[trigger] booster.trees@[t])@, binners) by {
        let nodes = booster.trees@[t]@;
        assert(tree_wf(nodes, booster.bin_counts(), booster.kinds()));
        assert forall|i: int| 0 <= i < nodes.len() implies match #[trigger] nodes[i] {
            NodeView::Leaf { .. } => true,
            NodeView::Internal { left, right, feature, rule } => {
                &&& left < nodes.len()
                &&& right < nodes.len()
                &&& feature < binners.len()
                &&& binners[feature as int].usable()
                &&& match rule {
                    Rule::Numeric { bin, .. } => binners[feature as int] matches BinnerView::Numerical(bounds) && bin
                        < bounds.len(),
                    Rule::Categorical(cats) => binners[feature as int] is Categorical && missing_bin(
                        binners[feature as int],
                    ) < cats.len(),
                }
            },
        } by {
            if let NodeView::Internal { left, right, feature, rule } = nodes[i] {
                assert(booster.feature_binners@[feature as int]@.wf());
                assert(rule.suits(booster.bin_counts()[feature as int], booster.kinds()[feature as int]));
            }
        }
    }
}

/// No two nodes are written alike as children.
pub proof fn law_children_are_told_apart(nodes: Seq<NodeView>, i: int, j: int)
    requires
        0 <= i < j < nodes.len(),
    ensures
        child_index(nodes, i) != child_index(nodes, j),
{
    lemma_internals_monotone(nodes, (i + 1) as nat, j as nat);
    lemma_internals_bound(nodes, i as nat);
    lemma_internals_bound(nodes, j as nat);
}

proof fn lemma_internals_bound(nodes: Seq<NodeView>, n: nat)
    ensures
        internals(nodes, n) <= n,
    decreases n,
{
    if n > 0 {
        lemma_internals_bound(nodes, (n - 1) as nat);
    }
}

proof fn lemma_category_bits_bound(cats: Seq<bool>, missing: int, start: int, n: nat)
    ensures
        category_bits(cats, missing, start, n) < pow2(n),
    decreases n,
{
    if n > 0 {
        lemma_category_bits_bound(cats, missing, start, (n - 1) as nat);
        lemma_pow2_unfold(n);
    } else {
        lemma2_to64();
    }
}

/// Bit `k` of a bit set says whether its category goes left.
pub proof fn law_bit_sets_hold_the_categories(cats: Seq<bool>, missing: int, start: int, n: nat, k: nat)
    requires
        k < n,
    ensures
        (category_bits(cats, missing, start, n) / pow2(k)) % 2 == if category_left(cats, missing, start + k) { 1int } else { 0 },
    decreases n,
{
    let bits = category_bits(cats, missing, start, n);
    let lower = category_bits(cats, missing, start, (n - 1) as nat);
    let top = if category_left(cats, missing, start + n - 1) { 1nat } else { 0nat };
    let unit = pow2(k);
    lemma_pow2_pos(k);
    lemma_category_bits_bound(cats, missing, start, (n - 1) as nat);
    if k == n - 1 {
        assert(bits == top * unit + lower) by (nonlinear_arith)
            requires
                bits == lower + (if top == 1 { unit } else { 0 }),
                top == 0 || top == 1,
        ;
        lemma_fundamental_div_mod_converse(bits as int, unit as int, top as int, lower as int);
    } else {
        law_bit_sets_hold_the_categories(cats, missing, start, (n - 1) as nat, k);
        let gap = (n - 2 - k) as nat;
        lemma_pow2_adds(k, gap + 1);
        lemma_pow2_unfold(gap + 1);
        let half = pow2(gap);
        let q = lower / unit;
        let m = lower % unit;
        lemma_fundamental_div_mod(lower as int, unit as int);
        assert(pow2((n - 1) as nat) == 2 * half * unit) by (nonlinear_arith)
            requires
                pow2((n - 1) as nat) == unit * pow2(gap + 1),
                pow2(gap + 1) == 2 * half,
        ;
        assert(bits == (q + 2 * (half * top)) * unit + m) by (nonlinear_arith)
            requires
                bits == lower + (if top == 1 { 2 * half * unit } else { 0 }),
                lower == unit * q + m,
                top == 0 || top == 1,
        ;
        lemma_fundamental_div_mod_converse(bits as int, unit as int, (q + 2 * (half * top)) as int, m as int);
        let twice = half * top;
        assert((q + 2 * twice) % 2 == q % 2);
    }
}

} // verus!
