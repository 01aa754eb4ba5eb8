//! The text of a model, line by line: what stands under each name.

use vstd::prelude::*;
use vstd::utf8::encode_utf8;

use crate::bin::BinnerView;
use crate::double::Double;
use crate::reading::{
    apart, law_colons_are_read_back, law_decimal_is_read_back, law_lines_are_read_back, law_lists_are_read_back,
    law_number_is_read_back, law_signed_number_is_read_back, lemma_apart, lemma_starts, lemma_title_at,
    lemma_unlines_concat, lemma_value_at, line_of_title, lines, one_line, read_number, starts, unlines, value_of_name,
    word, words,
};
use crate::serialization::{
    base_text, categorical_splits, category_bits, category_words, child_index, count_numbers, decision_type,
    feature_info, lemma_count_monotone, missing_bin, model_text, per_internal, titled_text, tree_text, tree_texts,
};
use crate::split::Rule;
use crate::text::{decimal, joined, signed_decimal, spaced, zeros};
use crate::tree::{internals, NodeView};

verus! {

/// A line break.
spec fn nl() -> Seq<char> {
    seq!['\n']
}

proof fn lemma_assoc(a: Seq<char>, b: Seq<char>, c: Seq<char>)
    ensures
        a + (b + c) == (a + b) + c,
{
    assert(a + (b + c) =~= (a + b) + c);
}

proof fn lemma_unlines_take(all: Seq<Seq<char>>, k: int)
    requires
        0 <= k < all.len(),
    ensures
        unlines(all.take(k + 1)) == unlines(all.take(k)) + all[k] + nl(),
{
    let last = seq![all[k]];
    assert(all.take(k + 1) =~= all.take(k) + last);
    lemma_unlines_concat(all.take(k), last);
    assert(last.skip(1) =~= Seq::<Seq<char>>::empty());
    assert(unlines(last.skip(1)) =~= Seq::<char>::empty());
    assert(unlines(last) =~= all[k] + nl());
    assert(unlines(all.take(k)) + (all[k] + nl()) =~= unlines(all.take(k)) + all[k] + nl());
}

/// The next name and value of a text whose lines stand in a list.
proof fn lemma_next_line(all: Seq<Seq<char>>, k: int, before: Seq<char>, literal: Seq<char>, name: Seq<char>, value: Seq<char>)
    requires
        0 < k < all.len(),
        before + nl() == unlines(all.take(k)),
        all[k] == name + value,
        literal == nl() + name,
    ensures
        before + literal + value + nl() == unlines(all.take(k + 1)),
{
    lemma_unlines_take(all, k);
    let u = unlines(all.take(k));
    assert(before + literal =~= u + name);
    assert(u + (name + value) =~= u + name + value);
}

/// The lines above the trees.
pub open spec fn header_lines(
    objective: Seq<char>,
    names: Seq<Seq<char>>,
    binners: Seq<BinnerView>,
    parts: Seq<Seq<char>>,
) -> Seq<Seq<char>> {
    seq![
        "tree"@,
        "version=v4"@,
        "num_class=1"@,
        "num_tree_per_iteration=1"@,
        "label_index=0"@,
        "max_feature_idx="@ + decimal((binners.len() - 1) as nat),
        "objective="@ + objective,
        "feature_names="@ + spaced(names),
        "feature_infos="@ + spaced(binners.map_values(|b: BinnerView| feature_info(b))),
        "tree_sizes="@ + spaced(parts.map_values(|t: Seq<char>| decimal(encode_utf8(t).len()))),
        Seq::empty(),
    ]
}

proof fn lemma_header(objective: Seq<char>, names: Seq<Seq<char>>, binners: Seq<BinnerView>, parts: Seq<Seq<char>>)
    ensures
        unlines(header_lines(objective, names, binners, parts)) == "tree\nversion=v4\nnum_class=1\nnum_tree_per_iteration=1\nlabel_index=0\nmax_feature_idx="@
            + decimal((binners.len() - 1) as nat)
            + "\nobjective="@ + objective
            + "\nfeature_names="@ + spaced(names)
            + "\nfeature_infos="@ + spaced(binners.map_values(|b: BinnerView| feature_info(b)))
            + "\ntree_sizes="@ + spaced(parts.map_values(|t: Seq<char>| decimal(encode_utf8(t).len())))
            + "\n\n"@,
{
    let all = header_lines(objective, names, binners, parts);
    let first = "tree\nversion=v4\nnum_class=1\nnum_tree_per_iteration=1\nlabel_index=0\nmax_feature_idx="@;
    lemma_first_literal();
    let n0 = decimal((binners.len() - 1) as nat);
    assert(all.take(0) =~= Seq::<Seq<char>>::empty());
    lemma_unlines_take(all, 0);
    lemma_unlines_take(all, 1);
    lemma_unlines_take(all, 2);
    lemma_unlines_take(all, 3);
    lemma_unlines_take(all, 4);
    lemma_unlines_take(all, 5);
    let u5 = unlines(all.take(5));
    assert(unlines(all.take(0)) =~= Seq::<char>::empty());
    assert(u5 =~= "tree"@ + nl() + "version=v4"@ + nl() + "num_class=1"@ + nl() + "num_tree_per_iteration=1"@ + nl()
        + "label_index=0"@ + nl());
    assert(first =~= u5 + "max_feature_idx="@);
    let t5 = first + n0;
    assert(t5 + nl() =~= unlines(all.take(6)));
    reveal_strlit("\nobjective=");
    reveal_strlit("objective=");
    assert("\nobjective="@ =~= nl() + "objective="@);
    reveal_strlit("\nfeature_names=");
    reveal_strlit("feature_names=");
    assert("\nfeature_names="@ =~= nl() + "feature_names="@);
    reveal_strlit("\nfeature_infos=");
    reveal_strlit("feature_infos=");
    assert("\nfeature_infos="@ =~= nl() + "feature_infos="@);
    reveal_strlit("\ntree_sizes=");
    reveal_strlit("tree_sizes=");
    assert("\ntree_sizes="@ =~= nl() + "tree_sizes="@);
    let infos = spaced(binners.map_values(|b: BinnerView| feature_info(b)));
    let sizes = spaced(parts.map_values(|t: Seq<char>| decimal(encode_utf8(t).len())));
    lemma_next_line(all, 6, t5, "\nobjective="@, "objective="@, objective);
    let t6 = t5 + "\nobjective="@ + objective;
    lemma_next_line(all, 7, t6, "\nfeature_names="@, "feature_names="@, spaced(names));
    let t7 = t6 + "\nfeature_names="@ + spaced(names);
    lemma_next_line(all, 8, t7, "\nfeature_infos="@, "feature_infos="@, infos);
    let t8 = t7 + "\nfeature_infos="@ + infos;
    lemma_next_line(all, 9, t8, "\ntree_sizes="@, "tree_sizes="@, sizes);
    let t9 = t8 + "\ntree_sizes="@ + sizes;
    lemma_unlines_take(all, 10);
    reveal_strlit("\n\n");
    assert(all.take(11) =~= all);
    assert(t9 + "\n\n"@ =~= t9 + nl() + Seq::<char>::empty() + nl());
}

proof fn lemma_first_literal()
    ensures
        "tree\nversion=v4\nnum_class=1\nnum_tree_per_iteration=1\nlabel_index=0\nmax_feature_idx="@ == "tree"@ + nl()
            + "version=v4"@ + nl() + "num_class=1"@ + nl() + "num_tree_per_iteration=1"@ + nl() + "label_index=0"@ + nl()
            + "max_feature_idx="@,
{
    reveal_strlit("tree\nversion=v4\nnum_class=1\nnum_tree_per_iteration=1\nlabel_index=0\nmax_feature_idx=");
    reveal_strlit("tree");
    reveal_strlit("version=v4");
    reveal_strlit("num_class=1");
    reveal_strlit("num_tree_per_iteration=1");
    reveal_strlit("label_index=0");
    reveal_strlit("max_feature_idx=");
    assert("tree\nversion=v4\nnum_class=1\nnum_tree_per_iteration=1\nlabel_index=0\nmax_feature_idx="@ =~= "tree"@ + nl()
        + "version=v4"@ + nl() + "num_class=1"@ + nl() + "num_tree_per_iteration=1"@ + nl() + "label_index=0"@ + nl()
        + "max_feature_idx="@);
}

/// What stands under each name of a tree's text.
pub open spec fn tree_values(nodes: Seq<NodeView>, binners: Seq<BinnerView>, shown: Seq<Seq<char>>) -> Seq<Seq<char>> {
    let n = nodes.len();
    let inner = internals(nodes, n);
    let leaves = (n - inner) as nat;
    let categorical = categorical_splits(nodes, n);
    seq![
        decimal(leaves),
        decimal(categorical),
        spaced(per_internal(nodes, n, |i: int| decimal(nodes[i]->feature))),
        zeros(inner),
        spaced(shown.take(inner as int)),
        spaced(per_internal(nodes, n, |i: int| decimal(decision_type(nodes, binners, i)))),
        spaced(per_internal(nodes, n, |i: int| signed_decimal(child_index(nodes, nodes[i]->left as int)))),
        spaced(per_internal(nodes, n, |i: int| signed_decimal(child_index(nodes, nodes[i]->right as int)))),
        spaced(shown.skip(inner as int)),
        zeros(leaves),
        zeros(leaves),
        zeros(inner),
        zeros(inner),
        zeros(inner),
    ]
}

/// The names in their order.
pub open spec fn tree_names() -> Seq<Seq<char>> {
    seq![
        "num_leaves="@,
        "num_cat="@,
        "split_feature="@,
        "split_gain="@,
        "threshold="@,
        "decision_type="@,
        "left_child="@,
        "right_child="@,
        "leaf_value="@,
        "leaf_weight="@,
        "leaf_count="@,
        "internal_value="@,
        "internal_weight="@,
        "internal_count="@,
    ]
}

/// The lines of a tree that hold a name and a value.
pub open spec fn tree_front(nodes: Seq<NodeView>, binners: Seq<BinnerView>, shown: Seq<Seq<char>>) -> Seq<Seq<char>> {
    Seq::new(14, |i: int| tree_names()[i] + tree_values(nodes, binners, shown)[i])
}

/// The lines of its bit sets, if it has any.
pub open spec fn tree_sets(nodes: Seq<NodeView>, binners: Seq<BinnerView>) -> Seq<Seq<char>> {
    let n = nodes.len();
    let categorical = categorical_splits(nodes, n);
    if categorical > 0 {
        seq![
            "cat_boundaries="@ + spaced(Seq::new(categorical + 1, |i: int| decimal((8 * i) as nat))),
            "cat_threshold="@ + spaced(category_words(nodes, binners, n)),
        ]
    } else {
        Seq::empty()
    }
}

/// Its last lines.
pub open spec fn tree_end() -> Seq<Seq<char>> {
    seq!["is_linear=0"@, "shrinkage=1"@]
}

#[verifier::rlimit(30)]
proof fn lemma_tree_front(nodes: Seq<NodeView>, binners: Seq<BinnerView>, shown: Seq<Seq<char>>) -> (text: Seq<char>)
    ensures
        text == ({
            let n = nodes.len();
            let inner = internals(nodes, n);
            let leaves = (n - inner) as nat;
            let categorical = categorical_splits(nodes, n);
            "num_leaves="@ + decimal(leaves)
                + "\nnum_cat="@ + decimal(categorical)
                + "\nsplit_feature="@ + spaced(per_internal(nodes, n, |i: int| decimal(nodes[i]->feature)))
                + "\nsplit_gain="@ + zeros(inner)
                + "\nthreshold="@ + spaced(shown.take(inner as int))
                + "\ndecision_type="@ + spaced(per_internal(nodes, n, |i: int| decimal(decision_type(nodes, binners, i))))
                + "\nleft_child="@ + spaced(per_internal(nodes, n, |i: int| signed_decimal(child_index(nodes, nodes[i]->left as int))))
                + "\nright_child="@ + spaced(per_internal(nodes, n, |i: int| signed_decimal(child_index(nodes, nodes[i]->right as int))))
                + "\nleaf_value="@ + spaced(shown.skip(inner as int))
                + "\nleaf_weight="@ + zeros(leaves)
                + "\nleaf_count="@ + zeros(leaves)
                + "\ninternal_value="@ + zeros(inner)
                + "\ninternal_weight="@ + zeros(inner)
                + "\ninternal_count="@ + zeros(inner)
        }),
        unlines(tree_front(nodes, binners, shown)) == text + "\n"@,
{
    let n = nodes.len();
    let inner = internals(nodes, n);
    let leaves = (n - inner) as nat;
    let categorical = categorical_splits(nodes, n);
    let all = tree_front(nodes, binners, shown);
    assert(all.take(0) =~= Seq::<Seq<char>>::empty());
    assert(unlines(all.take(0)) =~= Seq::<char>::empty());
    lemma_unlines_take(all, 0);
    let t0 = "num_leaves="@ + decimal(leaves);
    assert(t0 + nl() =~= unlines(all.take(1)));

    let v1 = decimal(categorical);
    reveal_strlit("\nnum_cat=");
    reveal_strlit("num_cat=");
    assert("\nnum_cat="@ =~= nl() + "num_cat="@);
    lemma_next_line(all, 1, t0, "\nnum_cat="@, "num_cat="@, v1);
    let t1 = t0 + "\nnum_cat="@ + v1;

    let v2 = spaced(per_internal(nodes, n, |i: int| decimal(nodes[i]->feature)));
    reveal_strlit("\nsplit_feature=");
    reveal_strlit("split_feature=");
    assert("\nsplit_feature="@ =~= nl() + "split_feature="@);
    lemma_next_line(all, 2, t1, "\nsplit_feature="@, "split_feature="@, v2);
    let t2 = t1 + "\nsplit_feature="@ + v2;

    let v3 = zeros(inner);
    reveal_strlit("\nsplit_gain=");
    reveal_strlit("split_gain=");
    assert("\nsplit_gain="@ =~= nl() + "split_gain="@);
    lemma_next_line(all, 3, t2, "\nsplit_gain="@, "split_gain="@, v3);
    let t3 = t2 + "\nsplit_gain="@ + v3;

    let v4 = spaced(shown.take(inner as int));
    reveal_strlit("\nthreshold=");
    reveal_strlit("threshold=");
    assert("\nthreshold="@ =~= nl() + "threshold="@);
    lemma_next_line(all, 4, t3, "\nthreshold="@, "threshold="@, v4);
    let t4 = t3 + "\nthreshold="@ + v4;

    let v5 = spaced(per_internal(nodes, n, |i: int| decimal(decision_type(nodes, binners, i))));
    reveal_strlit("\ndecision_type=");
    reveal_strlit("decision_type=");
    assert("\ndecision_type="@ =~= nl() + "decision_type="@);
    lemma_next_line(all, 5, t4, "\ndecision_type="@, "decision_type="@, v5);
    let t5 = t4 + "\ndecision_type="@ + v5;

    let v6 = spaced(per_internal(nodes, n, |i: int| signed_decimal(child_index(nodes, nodes[i]->left as int))));
    reveal_strlit("\nleft_child=");
    reveal_strlit("left_child=");
    assert("\nleft_child="@ =~= nl() + "left_child="@);
    lemma_next_line(all, 6, t5, "\nleft_child="@, "left_child="@, v6);
    let t6 = t5 + "\nleft_child="@ + v6;

    let v7 = spaced(per_internal(nodes, n, |i: int| signed_decimal(child_index(nodes, nodes[i]->right as int))));
    reveal_strlit("\nright_child=");
    reveal_strlit("right_child=");
    assert("\nright_child="@ =~= nl() + "right_child="@);
    lemma_next_line(all, 7, t6, "\nright_child="@, "right_child="@, v7);
    let t7 = t6 + "\nright_child="@ + v7;

    let v8 = spaced(shown.skip(inner as int));
    reveal_strlit("\nleaf_value=");
    reveal_strlit("leaf_value=");
    assert("\nleaf_value="@ =~= nl() + "leaf_value="@);
    lemma_next_line(all, 8, t7, "\nleaf_value="@, "leaf_value="@, v8);
    let t8 = t7 + "\nleaf_value="@ + v8;

    let v9 = zeros(leaves);
    reveal_strlit("\nleaf_weight=");
    reveal_strlit("leaf_weight=");
    assert("\nleaf_weight="@ =~= nl() + "leaf_weight="@);
    lemma_next_line(all, 9, t8, "\nleaf_weight="@, "leaf_weight="@, v9);
    let t9 = t8 + "\nleaf_weight="@ + v9;

    let v10 = zeros(leaves);
    reveal_strlit("\nleaf_count=");
    reveal_strlit("leaf_count=");
    assert("\nleaf_count="@ =~= nl() + "leaf_count="@);
    lemma_next_line(all, 10, t9, "\nleaf_count="@, "leaf_count="@, v10);
    let t10 = t9 + "\nleaf_count="@ + v10;

    let v11 = zeros(inner);
    reveal_strlit("\ninternal_value=");
    reveal_strlit("internal_value=");
    assert("\ninternal_value="@ =~= nl() + "internal_value="@);
    lemma_next_line(all, 11, t10, "\ninternal_value="@, "internal_value="@, v11);
    let t11 = t10 + "\ninternal_value="@ + v11;

    let v12 = zeros(inner);
    reveal_strlit("\ninternal_weight=");
    reveal_strlit("internal_weight=");
    assert("\ninternal_weight="@ =~= nl() + "internal_weight="@);
    lemma_next_line(all, 12, t11, "\ninternal_weight="@, "internal_weight="@, v12);
    let t12 = t11 + "\ninternal_weight="@ + v12;

    let v13 = zeros(inner);
    reveal_strlit("\ninternal_count=");
    reveal_strlit("internal_count=");
    assert("\ninternal_count="@ =~= nl() + "internal_count="@);
    lemma_next_line(all, 13, t12, "\ninternal_count="@, "internal_count="@, v13);
    let t13 = t12 + "\ninternal_count="@ + v13;

    assert(all.take(14) =~= all);
    reveal_strlit("\n");
    assert("\n"@ =~= nl());
    t13
}

proof fn lemma_tree_sets(nodes: Seq<NodeView>, binners: Seq<BinnerView>)
    ensures
        unlines(tree_sets(nodes, binners)) == ({
            let n = nodes.len();
            let categorical = categorical_splits(nodes, n);
            let words = category_words(nodes, binners, n);
            if categorical > 0 {
                "cat_boundaries="@ + spaced(Seq::new(categorical + 1, |i: int| decimal((8 * i) as nat)))
                    + "\ncat_threshold="@ + spaced(words) + "\n"@
            } else {
                Seq::empty()
            }
        }),
{
    let n = nodes.len();
    let categorical = categorical_splits(nodes, n);
    let all = tree_sets(nodes, binners);
    if categorical > 0 {
        assert(all.take(0) =~= Seq::<Seq<char>>::empty());
        assert(unlines(all.take(0)) =~= Seq::<char>::empty());
        lemma_unlines_take(all, 0);
        let v0 = spaced(Seq::new(categorical + 1, |i: int| decimal((8 * i) as nat)));
        let v1 = spaced(category_words(nodes, binners, n));
        let t0 = "cat_boundaries="@ + v0;
        assert(t0 + nl() =~= unlines(all.take(1)));
        reveal_strlit("\ncat_threshold=");
        reveal_strlit("cat_threshold=");
        assert("\ncat_threshold="@ =~= nl() + "cat_threshold="@);
        lemma_next_line(all, 1, t0, "\ncat_threshold="@, "cat_threshold="@, v1);
        assert(all.take(2) =~= all);
        reveal_strlit("\n");
        assert("\n"@ =~= nl());
    } else {
        assert(unlines(all) =~= Seq::<char>::empty());
    }
}

proof fn lemma_tree_end()
    ensures
        unlines(tree_end()) == "is_linear=0\nshrinkage=1\n"@,
{
    let all = tree_end();
    assert(all.take(0) =~= Seq::<Seq<char>>::empty());
    assert(unlines(all.take(0)) =~= Seq::<char>::empty());
    lemma_unlines_take(all, 0);
    lemma_unlines_take(all, 1);
    assert(all.take(2) =~= all);
    reveal_strlit("is_linear=0");
    reveal_strlit("shrinkage=1");
    reveal_strlit("is_linear=0\nshrinkage=1\n");
    assert(unlines(all) =~= "is_linear=0\nshrinkage=1\n"@);
}

/// The lines of a tree without its title.
pub open spec fn tree_lines(nodes: Seq<NodeView>, binners: Seq<BinnerView>, shown: Seq<Seq<char>>) -> Seq<Seq<char>> {
    tree_front(nodes, binners, shown) + tree_sets(nodes, binners) + tree_end()
}

proof fn lemma_tree_lines(nodes: Seq<NodeView>, binners: Seq<BinnerView>, shown: Seq<Seq<char>>)
    ensures
        unlines(tree_lines(nodes, binners, shown)) == tree_text(nodes, binners, shown),
{
    let front = tree_front(nodes, binners, shown);
    let sets = tree_sets(nodes, binners);
    lemma_unlines_concat(front + sets, tree_end());
    lemma_unlines_concat(front, sets);
    let text = lemma_tree_front(nodes, binners, shown);
    lemma_tree_sets(nodes, binners);
    lemma_tree_end();
}

/// The lines of a tree under its title.
pub open spec fn titled_lines(
    number: nat,
    nodes: Seq<NodeView>,
    binners: Seq<BinnerView>,
    shown: Seq<Seq<char>>,
) -> Seq<Seq<char>> {
    seq!["Tree="@ + decimal(number)] + tree_lines(nodes, binners, shown) + seq![Seq::<char>::empty(), Seq::empty()]
}

proof fn lemma_titled_lines(number: nat, nodes: Seq<NodeView>, binners: Seq<BinnerView>, shown: Seq<Seq<char>>)
    ensures
        unlines(titled_lines(number, nodes, binners, shown)) == titled_text(number, nodes, binners, shown),
{
    let title = seq!["Tree="@ + decimal(number)];
    let own = tree_lines(nodes, binners, shown);
    let gap = seq![Seq::<char>::empty(), Seq::empty()];
    lemma_unlines_concat(title + own, gap);
    lemma_unlines_concat(title, own);
    lemma_tree_lines(nodes, binners, shown);
    assert(title.take(0) =~= Seq::<Seq<char>>::empty());
    assert(title.take(1) =~= title);
    lemma_unlines_take(title, 0);
    assert(gap.take(0) =~= Seq::<Seq<char>>::empty());
    assert(gap.take(2) =~= gap);
    lemma_unlines_take(gap, 0);
    lemma_unlines_take(gap, 1);
    reveal_strlit("\n");
    reveal_strlit("\n\n");
    assert(unlines(title) =~= "Tree="@ + decimal(number) + "\n"@);
    assert(unlines(gap) =~= "\n\n"@);
}

/// The nodes of a tree of one leaf.
pub open spec fn lone_leaf(value: Double) -> Seq<NodeView> {
    seq![NodeView::Leaf { value }]
}

proof fn lemma_base_front()
    ensures
        "Tree=0\nnum_leaves=1\nnum_cat=0\nsplit_feature=\nsplit_gain=\nthreshold=\ndecision_type=\nleft_child=\nright_child=\nleaf_value="@ == "Tree="@ + "0"@ + "\n"@
            + "num_leaves="@ + "1"@ + "\nnum_cat="@ + "0"@ + "\nsplit_feature="@ + "\nsplit_gain="@ + "\nthreshold="@
            + "\ndecision_type="@ + "\nleft_child="@ + "\nright_child="@ + "\nleaf_value="@,
{
    reveal_strlit("Tree=0\nnum_leaves=1\nnum_cat=0\nsplit_feature=\nsplit_gain=\nthreshold=\ndecision_type=\nleft_child=\nright_child=\nleaf_value=");
    reveal_strlit("Tree=");
    reveal_strlit("0");
    reveal_strlit("\n");
    reveal_strlit("num_leaves=");
    reveal_strlit("1");
    reveal_strlit("\nnum_cat=");
    reveal_strlit("\nsplit_feature=");
    reveal_strlit("\nsplit_gain=");
    reveal_strlit("\nthreshold=");
    reveal_strlit("\ndecision_type=");
    reveal_strlit("\nleft_child=");
    reveal_strlit("\nright_child=");
    reveal_strlit("\nleaf_value=");
    assert("Tree=0\nnum_leaves=1\nnum_cat=0\nsplit_feature=\nsplit_gain=\nthreshold=\ndecision_type=\nleft_child=\nright_child=\nleaf_value="@ =~= "Tree="@ + "0"@ + "\n"@
        + "num_leaves="@ + "1"@ + "\nnum_cat="@ + "0"@ + "\nsplit_feature="@ + "\nsplit_gain="@ + "\nthreshold="@
        + "\ndecision_type="@ + "\nleft_child="@ + "\nright_child="@ + "\nleaf_value="@);
}

proof fn lemma_base_end()
    ensures
        "\nleaf_weight=0\nleaf_count=0\ninternal_value=\ninternal_weight=\ninternal_count=\nis_linear=0\nshrinkage=1\n\n\n"@
            == "\nleaf_weight="@ + "0"@ + "\nleaf_count="@ + "0"@ + "\ninternal_value="@ + "\ninternal_weight="@
            + "\ninternal_count="@ + "\n"@ + "is_linear=0\nshrinkage=1\n"@ + "\n\n"@,
{
    reveal_strlit("\nleaf_weight=0\nleaf_count=0\ninternal_value=\ninternal_weight=\ninternal_count=\nis_linear=0\nshrinkage=1\n\n\n");
    reveal_strlit("\nleaf_weight=");
    reveal_strlit("0");
    reveal_strlit("\nleaf_count=");
    reveal_strlit("\ninternal_value=");
    reveal_strlit("\ninternal_weight=");
    reveal_strlit("\ninternal_count=");
    reveal_strlit("\n");
    reveal_strlit("is_linear=0\nshrinkage=1\n");
    reveal_strlit("\n\n");
    assert("\nleaf_weight=0\nleaf_count=0\ninternal_value=\ninternal_weight=\ninternal_count=\nis_linear=0\nshrinkage=1\n\n\n"@
        =~= "\nleaf_weight="@ + "0"@ + "\nleaf_count="@ + "0"@ + "\ninternal_value="@ + "\ninternal_weight="@
        + "\ninternal_count="@ + "\n"@ + "is_linear=0\nshrinkage=1\n"@ + "\n\n"@);
}

/// The base score is written as a tree of one leaf.
pub proof fn law_base_score_is_a_tree_of_one_leaf(base: Double, binners: Seq<BinnerView>, shown: Seq<char>)
    ensures
        base_text(shown) == titled_text(0, lone_leaf(base), binners, seq![shown]),
{
    let nodes = lone_leaf(base);
    let none = Seq::<char>::empty();
    assert(internals(nodes, 0) == 0);
    assert(internals(nodes, 1) == 0);
    assert(categorical_splits(nodes, 0) == 0);
    assert(categorical_splits(nodes, 1) == 0);
    lemma_base_front();
    lemma_base_end();
    let f1 = |i: int| decimal(nodes[i]->feature);
    let f2 = |i: int| decimal(decision_type(nodes, binners, i));
    let f3 = |i: int| signed_decimal(child_index(nodes, nodes[i]->left as int));
    let f4 = |i: int| signed_decimal(child_index(nodes, nodes[i]->right as int));
    assert(per_internal(nodes, 0, f1) == Seq::<Seq<char>>::empty());
    assert(per_internal(nodes, 1, f1) == Seq::<Seq<char>>::empty());
    assert(per_internal(nodes, 0, f2) == Seq::<Seq<char>>::empty());
    assert(per_internal(nodes, 1, f2) == Seq::<Seq<char>>::empty());
    assert(per_internal(nodes, 0, f3) == Seq::<Seq<char>>::empty());
    assert(per_internal(nodes, 1, f3) == Seq::<Seq<char>>::empty());
    assert(per_internal(nodes, 0, f4) == Seq::<Seq<char>>::empty());
    assert(per_internal(nodes, 1, f4) == Seq::<Seq<char>>::empty());
    assert(seq![shown].take(0) =~= Seq::<Seq<char>>::empty());
    assert(seq![shown].skip(0) =~= seq![shown]);
    assert(spaced(Seq::<Seq<char>>::empty()) =~= none);
    assert(spaced(seq![shown]) =~= shown);
    assert(zeros(0) =~= none);
    assert(zeros(1) =~= "0"@);
    assert(decimal(0) == "0"@);
    assert(decimal(1) == "1"@);
    let text = tree_text(nodes, binners, seq![shown]);
    let expected = "num_leaves="@ + "1"@ + "\nnum_cat="@ + "0"@ + "\nsplit_feature="@ + none + "\nsplit_gain="@ + none
        + "\nthreshold="@ + none + "\ndecision_type="@ + none + "\nleft_child="@ + none + "\nright_child="@ + none
        + "\nleaf_value="@ + shown + "\nleaf_weight="@ + "0"@ + "\nleaf_count="@ + "0"@ + "\ninternal_value="@ + none
        + "\ninternal_weight="@ + none + "\ninternal_count="@ + none + "\n"@ + none + "is_linear=0\nshrinkage=1\n"@;
    assert(text == expected);
    lemma_base_parts(shown);
}

proof fn lemma_base_parts(shown: Seq<char>)
    ensures
        ({
            let none = Seq::<char>::empty();
            base_text(shown) == "Tree="@ + "0"@ + "\n"@ + ("num_leaves="@ + "1"@ + "\nnum_cat="@ + "0"@ + "\nsplit_feature="@
                + none + "\nsplit_gain="@ + none + "\nthreshold="@ + none + "\ndecision_type="@ + none + "\nleft_child="@
                + none + "\nright_child="@ + none + "\nleaf_value="@ + shown + "\nleaf_weight="@ + "0"@ + "\nleaf_count="@
                + "0"@ + "\ninternal_value="@ + none + "\ninternal_weight="@ + none + "\ninternal_count="@ + none + "\n"@
                + none + "is_linear=0\nshrinkage=1\n"@) + "\n\n"@
        }),
{
    lemma_base_front();
    lemma_base_end();
    let none = Seq::<char>::empty();
    let a = "num_leaves="@ + "1"@ + "\nnum_cat="@ + "0"@ + "\nsplit_feature="@ + none + "\nsplit_gain="@ + none
        + "\nthreshold="@ + none + "\ndecision_type="@ + none + "\nleft_child="@ + none + "\nright_child="@ + none
        + "\nleaf_value="@;
    let a2 = "num_leaves="@ + "1"@ + "\nnum_cat="@ + "0"@ + "\nsplit_feature="@ + "\nsplit_gain="@ + "\nthreshold="@
        + "\ndecision_type="@ + "\nleft_child="@ + "\nright_child="@ + "\nleaf_value="@;
    assert(a =~= a2);
    let front = "Tree="@ + "0"@ + "\n"@;
    let all = "Tree=0\nnum_leaves=1\nnum_cat=0\nsplit_feature=\nsplit_gain=\nthreshold=\ndecision_type=\nleft_child=\nright_child=\nleaf_value="@;
    assert(all =~= front + a2);
    let b = "\nleaf_weight="@ + "0"@ + "\nleaf_count="@ + "0"@ + "\ninternal_value="@ + "\ninternal_weight="@
        + "\ninternal_count="@ + "\n"@ + "is_linear=0\nshrinkage=1\n"@;
    let c = a + shown + "\nleaf_weight="@ + "0"@ + "\nleaf_count="@ + "0"@ + "\ninternal_value="@ + none
        + "\ninternal_weight="@ + none + "\ninternal_count="@ + none + "\n"@ + none + "is_linear=0\nshrinkage=1\n"@;
    assert(c =~= a + shown + b);
    assert("\nleaf_weight=0\nleaf_count=0\ninternal_value=\ninternal_weight=\ninternal_count=\nis_linear=0\nshrinkage=1\n\n\n"@
        =~= b + "\n\n"@);
    assert(base_text(shown) =~= front + (a + shown + b) + "\n\n"@);
}

/// The lines below the trees.
pub open spec fn footer_lines(objective: Seq<char>) -> Seq<Seq<char>> {
    seq![
        "end of trees"@,
        Seq::empty(),
        "parameters:"@,
        "[boosting: gbdt]"@,
        "[objective: "@ + objective + "]"@,
        "[num_class: 1]"@,
        "[num_tree_per_iteration: 1]"@,
        "end of parameters"@,
        Seq::empty(),
        "pandas_categorical:null"@,
    ]
}

proof fn lemma_footer(objective: Seq<char>)
    ensures
        unlines(footer_lines(objective)) == "end of trees\n\nparameters:\n[boosting: gbdt]\n[objective: "@ + objective
            + "]\n[num_class: 1]\n[num_tree_per_iteration: 1]\nend of parameters\n\npandas_categorical:null\n"@,
{
    let all = footer_lines(objective);
    let none = Seq::<char>::empty();
    assert(all.take(0) =~= Seq::<Seq<char>>::empty());
    assert(unlines(all.take(0)) =~= none);
    lemma_unlines_take(all, 0);
    lemma_unlines_take(all, 1);
    lemma_unlines_take(all, 2);
    lemma_unlines_take(all, 3);
    lemma_unlines_take(all, 4);
    lemma_unlines_take(all, 5);
    lemma_unlines_take(all, 6);
    lemma_unlines_take(all, 7);
    lemma_unlines_take(all, 8);
    lemma_unlines_take(all, 9);
    assert(all.take(10) =~= all);
    lemma_footer_literals();
    let u4 = "end of trees"@ + nl() + nl() + "parameters:"@ + nl() + "[boosting: gbdt]"@ + nl();
    assert(unlines(all.take(4)) =~= u4);
    let f1 = "end of trees\n\nparameters:\n[boosting: gbdt]\n[objective: "@;
    assert(u4 + ("[objective: "@ + objective + "]"@) + nl() =~= f1 + objective + "]"@ + nl());
    let f2 = "]"@ + nl() + "[num_class: 1]"@ + nl() + "[num_tree_per_iteration: 1]"@ + nl() + "end of parameters"@ + nl() + nl()
        + "pandas_categorical:null"@ + nl();
    let u5 = unlines(all.take(5));
    assert(u5 == f1 + objective + "]"@ + nl());
    assert(unlines(all) =~= u5 + "[num_class: 1]"@ + nl() + "[num_tree_per_iteration: 1]"@ + nl() + "end of parameters"@ + nl()
        + nl() + "pandas_categorical:null"@ + nl());
    assert(unlines(all) =~= f1 + objective + f2);
}

proof fn lemma_footer_literals()
    ensures
        "end of trees\n\nparameters:\n[boosting: gbdt]\n[objective: "@ == "end of trees"@ + nl() + nl() + "parameters:"@ + nl()
            + "[boosting: gbdt]"@ + nl() + "[objective: "@,
        "]\n[num_class: 1]\n[num_tree_per_iteration: 1]\nend of parameters\n\npandas_categorical:null\n"@ == "]"@
            + nl() + "[num_class: 1]"@ + nl() + "[num_tree_per_iteration: 1]"@ + nl() + "end of parameters"@ + nl() + nl()
            + "pandas_categorical:null"@ + nl(),
{
    reveal_strlit("end of trees\n\nparameters:\n[boosting: gbdt]\n[objective: ");
    reveal_strlit("]\n[num_class: 1]\n[num_tree_per_iteration: 1]\nend of parameters\n\npandas_categorical:null\n");
    reveal_strlit("end of trees");
    reveal_strlit("parameters:");
    reveal_strlit("[boosting: gbdt]");
    reveal_strlit("[objective: ");
    reveal_strlit("]");
    reveal_strlit("[num_class: 1]");
    reveal_strlit("[num_tree_per_iteration: 1]");
    reveal_strlit("end of parameters");
    reveal_strlit("pandas_categorical:null");
    assert("end of trees\n\nparameters:\n[boosting: gbdt]\n[objective: "@ =~= "end of trees"@ + nl() + nl() + "parameters:"@ + nl()
        + "[boosting: gbdt]"@ + nl() + "[objective: "@);
    assert("]\n[num_class: 1]\n[num_tree_per_iteration: 1]\nend of parameters\n\npandas_categorical:null\n"@ =~= "]"@
        + nl() + "[num_class: 1]"@ + nl() + "[num_tree_per_iteration: 1]"@ + nl() + "end of parameters"@ + nl() + nl()
        + "pandas_categorical:null"@ + nl());
}

/// The lines of the trees, that of the base score first.
pub open spec fn forest_lines(
    base: Double,
    trees: Seq<Seq<NodeView>>,
    binners: Seq<BinnerView>,
    shown: Seq<Seq<char>>,
    n: nat,
) -> Seq<Seq<char>>
    decreases n,
{
    if n == 0 {
        Seq::empty()
    } else {
        forest_lines(base, trees, binners, shown, (n - 1) as nat) + part_lines(base, trees, binners, shown, n - 1)
    }
}

/// The nodes that part `i` of the text is of: the base score, and then the trees.
pub open spec fn part_nodes(base: Double, trees: Seq<Seq<NodeView>>, i: int) -> Seq<NodeView> {
    if i == 0 { lone_leaf(base) } else { trees[i - 1] }
}

/// Its numbers as they are shown.
pub open spec fn part_shown(trees: Seq<Seq<NodeView>>, shown: Seq<Seq<char>>, i: int) -> Seq<Seq<char>> {
    if i == 0 {
        seq![shown[0]]
    } else {
        shown.subrange(count_numbers(trees, (i - 1) as nat) as int, count_numbers(trees, i as nat) as int)
    }
}

/// The lines of part `i`.
pub open spec fn part_lines(
    base: Double,
    trees: Seq<Seq<NodeView>>,
    binners: Seq<BinnerView>,
    shown: Seq<Seq<char>>,
    i: int,
) -> Seq<Seq<char>> {
    titled_lines(i as nat, part_nodes(base, trees, i), binners, part_shown(trees, shown, i))
}

proof fn lemma_forest(
    base: Double,
    trees: Seq<Seq<NodeView>>,
    binners: Seq<BinnerView>,
    shown: Seq<Seq<char>>,
    n: nat,
)
    requires
        n <= trees.len() + 1,
    ensures
        unlines(forest_lines(base, trees, binners, shown, n)) == joined(tree_texts(trees, binners, shown), ""@, n),
    decreases n,
{
    let parts = tree_texts(trees, binners, shown);
    reveal_strlit("");
    if n > 0 {
        let m = (n - 1) as nat;
        lemma_forest(base, trees, binners, shown, m);
        let own = part_lines(base, trees, binners, shown, m as int);
        lemma_unlines_concat(forest_lines(base, trees, binners, shown, m), own);
        lemma_titled_lines(m, part_nodes(base, trees, m as int), binners, part_shown(trees, shown, m as int));
        if m == 0 {
            law_base_score_is_a_tree_of_one_leaf(base, binners, shown[0]);
            assert(joined(parts, ""@, 1) == parts[0]);
            assert(unlines(forest_lines(base, trees, binners, shown, 0)) =~= Seq::<char>::empty());
        }
        assert(unlines(own) == parts[m as int]);
        assert(joined(parts, ""@, n) =~= joined(parts, ""@, m) + parts[m as int]);
    } else {
        assert(unlines(forest_lines(base, trees, binners, shown, 0)) =~= joined(parts, ""@, 0));
    }
}

/// All lines of a model.
pub open spec fn model_lines(
    objective: Seq<char>,
    names: Seq<Seq<char>>,
    binners: Seq<BinnerView>,
    base: Double,
    trees: Seq<Seq<NodeView>>,
    shown: Seq<Seq<char>>,
) -> Seq<Seq<char>> {
    header_lines(objective, names, binners, tree_texts(trees, binners, shown)) + forest_lines(
        base,
        trees,
        binners,
        shown,
        trees.len() + 1,
    ) + footer_lines(objective)
}

pub(crate) proof fn lemma_model_lines(
    objective: Seq<char>,
    names: Seq<Seq<char>>,
    binners: Seq<BinnerView>,
    base: Double,
    trees: Seq<Seq<NodeView>>,
    shown: Seq<Seq<char>>,
)
    ensures
        unlines(model_lines(objective, names, binners, base, trees, shown)) == model_text(
            objective,
            names,
            binners,
            trees,
            shown,
        ),
{
    let parts = tree_texts(trees, binners, shown);
    let a = header_lines(objective, names, binners, parts);
    let b = forest_lines(base, trees, binners, shown, trees.len() + 1);
    let c = footer_lines(objective);
    lemma_unlines_concat(a + b, c);
    lemma_unlines_concat(a, b);
    lemma_header(objective, names, binners, parts);
    lemma_forest(base, trees, binners, shown, trees.len() + 1);
    lemma_footer(objective);
    let h = unlines(a);
    let f = joined(parts, ""@, parts.len());
    let f1 = "end of trees\n\nparameters:\n[boosting: gbdt]\n[objective: "@;
    let f2 = "]\n[num_class: 1]\n[num_tree_per_iteration: 1]\nend of parameters\n\npandas_categorical:null\n"@;
    lemma_assoc(h + f, f1 + objective, f2);
    lemma_assoc(h + f, f1, objective);
}

/// Texts that a model can be written with: no line breaks in names, and numbers as words.
pub open spec fn plain_texts(objective: Seq<char>, names: Seq<Seq<char>>, shown: Seq<Seq<char>>) -> bool {
    &&& one_line(objective)
    &&& one_line(spaced(names))
    &&& forall|i: int| 0 <= i < shown.len() ==> word(#[trigger] shown[i])
}

proof fn lemma_one_line_concat(a: Seq<char>, b: Seq<char>)
    requires
        one_line(a),
        one_line(b),
    ensures
        one_line(a + b),
{
    assert forall|i: int| 0 <= i < (a + b).len() implies #[trigger] (a + b)[i] != '\n' by {
        if i < a.len() {
            assert((a + b)[i] == a[i]);
        } else {
            assert((a + b)[i] == b[i - a.len()]);
        }
    }
}

proof fn lemma_infos(binners: Seq<BinnerView>)
    ensures
        forall|i: int| 0 <= i < binners.len() ==> word(feature_info(#[trigger] binners[i])),
{
    assert forall|i: int| 0 <= i < binners.len() implies word(feature_info(#[trigger] binners[i])) by {
        law_feature_info_lists_the_categories(binners[i]);
    }
}

/// What is said of a feature: of a numeric one that it ranges over all numbers, of a categorical
/// one the numbers of its categories, after that of none.
pub proof fn law_feature_info_lists_the_categories(binner: BinnerView)
    ensures
        word(feature_info(binner)),
        binner is Numerical ==> feature_info(binner) == "[-inf:inf]"@,
        binner matches BinnerView::Categorical(map) ==> {
            let all = words(feature_info(binner), ':');
            &&& all.len() == map.len() + 1
            &&& forall|k: int| 0 <= k <= map.len() ==> read_number(#[trigger] all[k]) == k - 1
        },
{
    match binner {
        BinnerView::Numerical(_) => {
            reveal_strlit("[-inf:inf]");
        },
        BinnerView::Categorical(map) => {
            let parts = Seq::new(map.len() + 1, |i: int| signed_decimal(i - 1));
            assert forall|i: int| 0 <= i < parts.len() implies word(#[trigger] parts[i]) && !parts[i].contains(':') by {
                law_signed_number_is_read_back(i - 1);
            }
            law_colons_are_read_back(parts);
            assert forall|k: int| 0 <= k <= map.len() implies read_number(#[trigger] parts[k]) == k - 1 by {
                law_signed_number_is_read_back(k - 1);
            }
        },
    }
}

proof fn lemma_header_one_line(
    objective: Seq<char>,
    names: Seq<Seq<char>>,
    binners: Seq<BinnerView>,
    parts: Seq<Seq<char>>,
)
    requires
        one_line(objective),
        one_line(spaced(names)),
    ensures
        forall|i: int|
            0 <= i < header_lines(objective, names, binners, parts).len() ==> one_line(
                #[trigger] header_lines(objective, names, binners, parts)[i],
            ),
{
    reveal_strlit("tree");
    assert(one_line("tree"@));
    reveal_strlit("version=v4");
    assert(one_line("version=v4"@));
    reveal_strlit("num_class=1");
    assert(one_line("num_class=1"@));
    reveal_strlit("num_tree_per_iteration=1");
    assert(one_line("num_tree_per_iteration=1"@));
    reveal_strlit("label_index=0");
    assert(one_line("label_index=0"@));
    reveal_strlit("max_feature_idx=");
    assert(one_line("max_feature_idx="@));
    reveal_strlit("objective=");
    assert(one_line("objective="@));
    reveal_strlit("feature_names=");
    assert(one_line("feature_names="@));
    reveal_strlit("feature_infos=");
    assert(one_line("feature_infos="@));
    reveal_strlit("tree_sizes=");
    assert(one_line("tree_sizes="@));
    let n0 = decimal((binners.len() - 1) as nat);
    law_number_is_read_back((binners.len() - 1) as nat);
    let infos = binners.map_values(|b: BinnerView| feature_info(b));
    lemma_infos(binners);
    assert forall|i: int| 0 <= i < infos.len() implies word(#[trigger] infos[i]) by {
        assert(infos[i] == feature_info(binners[i]));
    }
    law_lists_are_read_back(infos);
    let sizes = parts.map_values(|t: Seq<char>| decimal(encode_utf8(t).len()));
    assert forall|i: int| 0 <= i < sizes.len() implies word(#[trigger] sizes[i]) by {
        law_number_is_read_back(encode_utf8(parts[i]).len());
    }
    law_lists_are_read_back(sizes);
    lemma_one_line_concat("max_feature_idx="@, n0);
    lemma_one_line_concat("objective="@, objective);
    lemma_one_line_concat("feature_names="@, spaced(names));
    lemma_one_line_concat("feature_infos="@, spaced(infos));
    lemma_one_line_concat("tree_sizes="@, spaced(sizes));
    let all = header_lines(objective, names, binners, parts);
    assert(one_line(all[0]));
    assert(one_line(all[1]));
    assert(one_line(all[2]));
    assert(one_line(all[3]));
    assert(one_line(all[4]));
    assert(one_line(all[5]));
    assert(one_line(all[6]));
    assert(one_line(all[7]));
    assert(one_line(all[8]));
    assert(one_line(all[9]));
    assert(one_line(all[10]));
    assert forall|i: int| 0 <= i < all.len() implies one_line(#[trigger] all[i]) by {
        assert(i == 0 || i == 1 || i == 2 || i == 3 || i == 4 || i == 5 || i == 6 || i == 7 || i == 8 || i == 9 || i == 10);
    }
}

proof fn lemma_footer_one_line(objective: Seq<char>)
    requires
        one_line(objective),
    ensures
        forall|i: int| 0 <= i < footer_lines(objective).len() ==> one_line(#[trigger] footer_lines(objective)[i]),
{
    reveal_strlit("end of trees");
    reveal_strlit("parameters:");
    reveal_strlit("[boosting: gbdt]");
    reveal_strlit("[objective: ");
    reveal_strlit("]");
    reveal_strlit("[num_class: 1]");
    reveal_strlit("[num_tree_per_iteration: 1]");
    reveal_strlit("end of parameters");
    reveal_strlit("pandas_categorical:null");
    lemma_one_line_concat("[objective: "@, objective);
    lemma_one_line_concat("[objective: "@ + objective, "]"@);
    let all = footer_lines(objective);
    assert(one_line(all[0]));
    assert(one_line(all[1]));
    assert(one_line(all[2]));
    assert(one_line(all[3]));
    assert(one_line(all[4]));
    assert(one_line(all[5]));
    assert(one_line(all[6]));
    assert(one_line(all[7]));
    assert(one_line(all[8]));
    assert(one_line(all[9]));
    assert forall|i: int| 0 <= i < all.len() implies one_line(#[trigger] all[i]) by {
        assert(i == 0 || i == 1 || i == 2 || i == 3 || i == 4 || i == 5 || i == 6 || i == 7 || i == 8 || i == 9);
    }
}

/// The header of a model's text says what the model is: the number of its last feature, its
/// objective, the names of its features, what there is to say of each, and the sizes of its trees.
pub proof fn law_header_names_the_model(
    objective: Seq<char>,
    names: Seq<Seq<char>>,
    binners: Seq<BinnerView>,
    trees: Seq<Seq<NodeView>>,
    shown: Seq<Seq<char>>,
)
    requires
        plain_texts(objective, names, shown),
        binners.len() > 0,
        shown.len() == count_numbers(trees, trees.len()),
    ensures
        ({
            let all = lines(model_text(objective, names, binners, trees, shown));
            let infos = value_of_name(all, 0, "feature_infos="@);
            let sizes = value_of_name(all, 0, "tree_sizes="@);
            &&& value_of_name(all, 0, "version="@) == Some("v4"@)
            &&& value_of_name(all, 0, "max_feature_idx="@) is Some
            &&& read_number(value_of_name(all, 0, "max_feature_idx="@)->0) == binners.len() - 1
            &&& value_of_name(all, 0, "objective="@) == Some(objective)
            &&& value_of_name(all, 0, "feature_names="@) == Some(spaced(names))
            &&& infos is Some
            &&& words(infos->0, ' ') == Seq::new(binners.len(), |f: int| feature_info(binners[f]))
            &&& sizes is Some
            &&& words(sizes->0, ' ').len() == trees.len() + 1
            &&& forall|i: int|
                0 <= i <= trees.len() ==> read_number(#[trigger] words(sizes->0, ' ')[i]) == encode_utf8(
                    tree_texts(trees, binners, shown)[i],
                ).len()
        }),
{
    let base = Double::zero_spec();
    let parts = tree_texts(trees, binners, shown);
    let head = header_lines(objective, names, binners, parts);
    let all = model_lines(objective, names, binners, base, trees, shown);
    lemma_model_lines(objective, names, binners, base, trees, shown);
    lemma_model_one_line(objective, names, binners, base, trees, shown);
    law_lines_are_read_back(all);
    lemma_header_values(objective, names, binners, parts, all);
    law_number_is_read_back((binners.len() - 1) as nat);
    let infos = binners.map_values(|b: BinnerView| feature_info(b));
    lemma_infos(binners);
    assert forall|i: int| 0 <= i < infos.len() implies word(#[trigger] infos[i]) by {
        assert(infos[i] == feature_info(binners[i]));
    }
    law_lists_are_read_back(infos);
    assert(infos =~= Seq::new(binners.len(), |f: int| feature_info(binners[f])));
    let sizes = parts.map_values(|t: Seq<char>| decimal(encode_utf8(t).len()));
    assert forall|i: int| 0 <= i < sizes.len() implies word(#[trigger] sizes[i]) && read_number(sizes[i]) == encode_utf8(
        parts[i],
    ).len() by {
        law_number_is_read_back(encode_utf8(parts[i]).len());
    }
    law_lists_are_read_back(sizes);
}

proof fn lemma_header_values(
    objective: Seq<char>,
    names: Seq<Seq<char>>,
    binners: Seq<BinnerView>,
    parts: Seq<Seq<char>>,
    all: Seq<Seq<char>>,
)
    requires
        all.len() >= 11,
        all.take(11) == header_lines(objective, names, binners, parts),
    ensures
        value_of_name(all, 0, "version="@) == Some("v4"@),
        value_of_name(all, 0, "max_feature_idx="@) == Some(decimal((binners.len() - 1) as nat)),
        value_of_name(all, 0, "objective="@) == Some(objective),
        value_of_name(all, 0, "feature_names="@) == Some(spaced(names)),
        value_of_name(all, 0, "feature_infos="@) == Some(spaced(binners.map_values(|b: BinnerView| feature_info(b)))),
        value_of_name(all, 0, "tree_sizes="@) == Some(
            spaced(parts.map_values(|t: Seq<char>| decimal(encode_utf8(t).len()))),
        ),
{
    let head = header_lines(objective, names, binners, parts);
    let n0 = decimal((binners.len() - 1) as nat);
    let infos = spaced(binners.map_values(|b: BinnerView| feature_info(b)));
    let sizes = spaced(parts.map_values(|t: Seq<char>| decimal(encode_utf8(t).len())));
    let none = Seq::<char>::empty();
    assert forall|i: int| 0 <= i < 11 implies #[trigger] all[i] == head[i] by {
        assert(all.take(11)[i] == all[i]);
    }
    reveal_strlit("tree");
    reveal_strlit("version=v4");
    reveal_strlit("num_class=1");
    reveal_strlit("num_tree_per_iteration=1");
    reveal_strlit("label_index=0");
    reveal_strlit("max_feature_idx=");
    reveal_strlit("objective=");
    reveal_strlit("feature_names=");
    reveal_strlit("feature_infos=");
    reveal_strlit("tree_sizes=");
    reveal_strlit("version=");
    reveal_strlit("v4");
    assert("version=v4"@ =~= "version="@ + "v4"@);
    {
        let name = "version="@;
        assert("tree"@[0] != name[0]);
        assert(apart("tree"@, name));
        lemma_apart("tree"@, none, name);
        assert("tree"@ + none =~= "tree"@);
        assert(!starts(all[0], name));
        assert forall|i: int| 0 <= i < 1 implies !starts(#[trigger] all[i], name) by {
            assert(i == 0);
        }
        lemma_value_at(all, 0, 1, name, "v4"@);
    }
    {
        let name = "max_feature_idx="@;
        assert("tree"@[0] != name[0]);
        assert(apart("tree"@, name));
        lemma_apart("tree"@, none, name);
        assert("tree"@ + none =~= "tree"@);
        assert(!starts(all[0], name));
        assert("version=v4"@[0] != name[0]);
        assert(apart("version=v4"@, name));
        lemma_apart("version=v4"@, none, name);
        assert("version=v4"@ + none =~= "version=v4"@);
        assert(!starts(all[1], name));
        assert("num_class=1"@[0] != name[0]);
        assert(apart("num_class=1"@, name));
        lemma_apart("num_class=1"@, none, name);
        assert("num_class=1"@ + none =~= "num_class=1"@);
        assert(!starts(all[2], name));
        assert("num_tree_per_iteration=1"@[0] != name[0]);
        assert(apart("num_tree_per_iteration=1"@, name));
        lemma_apart("num_tree_per_iteration=1"@, none, name);
        assert("num_tree_per_iteration=1"@ + none =~= "num_tree_per_iteration=1"@);
        assert(!starts(all[3], name));
        assert("label_index=0"@[0] != name[0]);
        assert(apart("label_index=0"@, name));
        lemma_apart("label_index=0"@, none, name);
        assert("label_index=0"@ + none =~= "label_index=0"@);
        assert(!starts(all[4], name));
        assert forall|i: int| 0 <= i < 5 implies !starts(#[trigger] all[i], name) by {
            assert(i == 0 || i == 1 || i == 2 || i == 3 || i == 4);
        }
        lemma_value_at(all, 0, 5, name, n0);
    }
    {
        let name = "objective="@;
        assert("tree"@[0] != name[0]);
        assert(apart("tree"@, name));
        lemma_apart("tree"@, none, name);
        assert("tree"@ + none =~= "tree"@);
        assert(!starts(all[0], name));
        assert("version=v4"@[0] != name[0]);
        assert(apart("version=v4"@, name));
        lemma_apart("version=v4"@, none, name);
        assert("version=v4"@ + none =~= "version=v4"@);
        assert(!starts(all[1], name));
        assert("num_class=1"@[0] != name[0]);
        assert(apart("num_class=1"@, name));
        lemma_apart("num_class=1"@, none, name);
        assert("num_class=1"@ + none =~= "num_class=1"@);
        assert(!starts(all[2], name));
        assert("num_tree_per_iteration=1"@[0] != name[0]);
        assert(apart("num_tree_per_iteration=1"@, name));
        lemma_apart("num_tree_per_iteration=1"@, none, name);
        assert("num_tree_per_iteration=1"@ + none =~= "num_tree_per_iteration=1"@);
        assert(!starts(all[3], name));
        assert("label_index=0"@[0] != name[0]);
        assert(apart("label_index=0"@, name));
        lemma_apart("label_index=0"@, none, name);
        assert("label_index=0"@ + none =~= "label_index=0"@);
        assert(!starts(all[4], name));
        assert("max_feature_idx="@[0] != name[0]);
        assert(apart("max_feature_idx="@, name));
        lemma_apart("max_feature_idx="@, n0, name);
        assert(!starts(all[5], name));
        assert forall|i: int| 0 <= i < 6 implies !starts(#[trigger] all[i], name) by {
            assert(i == 0 || i == 1 || i == 2 || i == 3 || i == 4 || i == 5);
        }
        lemma_value_at(all, 0, 6, name, objective);
    }
    {
        let name = "feature_names="@;
        assert("tree"@[0] != name[0]);
        assert(apart("tree"@, name));
        lemma_apart("tree"@, none, name);
        assert("tree"@ + none =~= "tree"@);
        assert(!starts(all[0], name));
        assert("version=v4"@[0] != name[0]);
        assert(apart("version=v4"@, name));
        lemma_apart("version=v4"@, none, name);
        assert("version=v4"@ + none =~= "version=v4"@);
        assert(!starts(all[1], name));
        assert("num_class=1"@[0] != name[0]);
        assert(apart("num_class=1"@, name));
        lemma_apart("num_class=1"@, none, name);
        assert("num_class=1"@ + none =~= "num_class=1"@);
        assert(!starts(all[2], name));
        assert("num_tree_per_iteration=1"@[0] != name[0]);
        assert(apart("num_tree_per_iteration=1"@, name));
        lemma_apart("num_tree_per_iteration=1"@, none, name);
        assert("num_tree_per_iteration=1"@ + none =~= "num_tree_per_iteration=1"@);
        assert(!starts(all[3], name));
        assert("label_index=0"@[0] != name[0]);
        assert(apart("label_index=0"@, name));
        lemma_apart("label_index=0"@, none, name);
        assert("label_index=0"@ + none =~= "label_index=0"@);
        assert(!starts(all[4], name));
        assert("max_feature_idx="@[0] != name[0]);
        assert(apart("max_feature_idx="@, name));
        lemma_apart("max_feature_idx="@, n0, name);
        assert(!starts(all[5], name));
        assert("objective="@[0] != name[0]);
        assert(apart("objective="@, name));
        lemma_apart("objective="@, objective, name);
        assert(!starts(all[6], name));
        assert forall|i: int| 0 <= i < 7 implies !starts(#[trigger] all[i], name) by {
            assert(i == 0 || i == 1 || i == 2 || i == 3 || i == 4 || i == 5 || i == 6);
        }
        lemma_value_at(all, 0, 7, name, spaced(names));
    }
    {
        let name = "feature_infos="@;
        assert("tree"@[0] != name[0]);
        assert(apart("tree"@, name));
        lemma_apart("tree"@, none, name);
        assert("tree"@ + none =~= "tree"@);
        assert(!starts(all[0], name));
        assert("version=v4"@[0] != name[0]);
        assert(apart("version=v4"@, name));
        lemma_apart("version=v4"@, none, name);
        assert("version=v4"@ + none =~= "version=v4"@);
        assert(!starts(all[1], name));
        assert("num_class=1"@[0] != name[0]);
        assert(apart("num_class=1"@, name));
        lemma_apart("num_class=1"@, none, name);
        assert("num_class=1"@ + none =~= "num_class=1"@);
        assert(!starts(all[2], name));
        assert("num_tree_per_iteration=1"@[0] != name[0]);
        assert(apart("num_tree_per_iteration=1"@, name));
        lemma_apart("num_tree_per_iteration=1"@, none, name);
        assert("num_tree_per_iteration=1"@ + none =~= "num_tree_per_iteration=1"@);
        assert(!starts(all[3], name));
        assert("label_index=0"@[0] != name[0]);
        assert(apart("label_index=0"@, name));
        lemma_apart("label_index=0"@, none, name);
        assert("label_index=0"@ + none =~= "label_index=0"@);
        assert(!starts(all[4], name));
        assert("max_feature_idx="@[0] != name[0]);
        assert(apart("max_feature_idx="@, name));
        lemma_apart("max_feature_idx="@, n0, name);
        assert(!starts(all[5], name));
        assert("objective="@[0] != name[0]);
        assert(apart("objective="@, name));
        lemma_apart("objective="@, objective, name);
        assert(!starts(all[6], name));
        assert("feature_names="@[8] != name[8]);
        assert(apart("feature_names="@, name));
        lemma_apart("feature_names="@, spaced(names), name);
        assert(!starts(all[7], name));
        assert forall|i: int| 0 <= i < 8 implies !starts(#[trigger] all[i], name) by {
            assert(i == 0 || i == 1 || i == 2 || i == 3 || i == 4 || i == 5 || i == 6 || i == 7);
        }
        lemma_value_at(all, 0, 8, name, infos);
    }
    {
        let name = "tree_sizes="@;
        assert(!starts(all[0], name));
        assert("version=v4"@[0] != name[0]);
        assert(apart("version=v4"@, name));
        lemma_apart("version=v4"@, none, name);
        assert("version=v4"@ + none =~= "version=v4"@);
        assert(!starts(all[1], name));
        assert("num_class=1"@[0] != name[0]);
        assert(apart("num_class=1"@, name));
        lemma_apart("num_class=1"@, none, name);
        assert("num_class=1"@ + none =~= "num_class=1"@);
        assert(!starts(all[2], name));
        assert("num_tree_per_iteration=1"@[0] != name[0]);
        assert(apart("num_tree_per_iteration=1"@, name));
        lemma_apart("num_tree_per_iteration=1"@, none, name);
        assert("num_tree_per_iteration=1"@ + none =~= "num_tree_per_iteration=1"@);
        assert(!starts(all[3], name));
        assert("label_index=0"@[0] != name[0]);
        assert(apart("label_index=0"@, name));
        lemma_apart("label_index=0"@, none, name);
        assert("label_index=0"@ + none =~= "label_index=0"@);
        assert(!starts(all[4], name));
        assert("max_feature_idx="@[0] != name[0]);
        assert(apart("max_feature_idx="@, name));
        lemma_apart("max_feature_idx="@, n0, name);
        assert(!starts(all[5], name));
        assert("objective="@[0] != name[0]);
        assert(apart("objective="@, name));
        lemma_apart("objective="@, objective, name);
        assert(!starts(all[6], name));
        assert("feature_names="@[0] != name[0]);
        assert(apart("feature_names="@, name));
        lemma_apart("feature_names="@, spaced(names), name);
        assert(!starts(all[7], name));
        assert("feature_infos="@[0] != name[0]);
        assert(apart("feature_infos="@, name));
        lemma_apart("feature_infos="@, infos, name);
        assert(!starts(all[8], name));
        assert forall|i: int| 0 <= i < 9 implies !starts(#[trigger] all[i], name) by {
            assert(i == 0 || i == 1 || i == 2 || i == 3 || i == 4 || i == 5 || i == 6 || i == 7 || i == 8);
        }
        lemma_value_at(all, 0, 9, name, sizes);
    }
}

proof fn lemma_per_internal_words(nodes: Seq<NodeView>, n: nat, f: spec_fn(int) -> Seq<char>)
    requires
        forall|i: int| 0 <= i < n ==> word(#[trigger] f(i)),
    ensures
        forall|j: int| 0 <= j < per_internal(nodes, n, f).len() ==> word(#[trigger] per_internal(nodes, n, f)[j]),
    decreases n,
{
    if n > 0 {
        lemma_per_internal_words(nodes, (n - 1) as nat, f);
        assert(word(f(n - 1)));
        let before = per_internal(nodes, (n - 1) as nat, f);
        let all = per_internal(nodes, n, f);
        assert forall|j: int| 0 <= j < all.len() implies word(#[trigger] all[j]) by {
            if j < before.len() {
                assert(all[j] == before[j]);
            }
        }
    }
}

pub(crate) proof fn lemma_category_words(nodes: Seq<NodeView>, binners: Seq<BinnerView>, n: nat)
    ensures
        forall|j: int|
            0 <= j < category_words(nodes, binners, n).len() ==> word(#[trigger] category_words(nodes, binners, n)[j]),
    decreases n,
{
    if n > 0 {
        lemma_category_words(nodes, binners, (n - 1) as nat);
        let before = category_words(nodes, binners, (n - 1) as nat);
        let all = category_words(nodes, binners, n);
        if let NodeView::Internal { feature, rule: Rule::Categorical(cats), .. } = nodes[n - 1] {
            assert forall|j: int| 0 <= j < all.len() implies word(#[trigger] all[j]) by {
                if j < before.len() {
                    assert(all[j] == before[j]);
                } else {
                    let k = j - before.len();
                    law_number_is_read_back(
                        category_bits(cats, missing_bin(binners[feature as int]), 32 * k, 32),
                    );
                }
            }
        }
    }
}

/// Lists of a tree's text, as words.
pub(crate) proof fn lemma_tree_words(nodes: Seq<NodeView>, binners: Seq<BinnerView>, shown: Seq<Seq<char>>)
    requires
        forall|i: int| 0 <= i < shown.len() ==> word(#[trigger] shown[i]),
        internals(nodes, nodes.len()) <= shown.len(),
        shown.len() == nodes.len(),
    ensures
        ({
            let n = nodes.len();
            let values = tree_values(nodes, binners, shown);
            &&& forall|k: int| 0 <= k < 14 ==> one_line(#[trigger] values[k])
            &&& read_number(values[0]) == n - internals(nodes, n)
            &&& read_number(values[1]) == categorical_splits(nodes, n)
            &&& words(values[2], ' ') == per_internal(nodes, n, |i: int| decimal(nodes[i]->feature))
            &&& words(values[4], ' ') == shown.take(internals(nodes, n) as int)
            &&& words(values[5], ' ') == per_internal(nodes, n, |i: int| decimal(decision_type(nodes, binners, i)))
            &&& words(values[6], ' ') == per_internal(
                nodes,
                n,
                |i: int| signed_decimal(child_index(nodes, nodes[i]->left as int)),
            )
            &&& words(values[7], ' ') == per_internal(
                nodes,
                n,
                |i: int| signed_decimal(child_index(nodes, nodes[i]->right as int)),
            )
            &&& words(values[8], ' ') == shown.skip(internals(nodes, n) as int)
            &&& words(values[3], ' ') == Seq::new(internals(nodes, n), |i: int| "0"@)
            &&& words(values[9], ' ') == Seq::new((n - internals(nodes, n)) as nat, |i: int| "0"@)
            &&& words(values[10], ' ') == Seq::new((n - internals(nodes, n)) as nat, |i: int| "0"@)
            &&& words(values[11], ' ') == Seq::new(internals(nodes, n), |i: int| "0"@)
            &&& words(values[12], ' ') == Seq::new(internals(nodes, n), |i: int| "0"@)
            &&& words(values[13], ' ') == Seq::new(internals(nodes, n), |i: int| "0"@)
        }),
{
    let n = nodes.len();
    let inner = internals(nodes, n);
    let leaves = (n - inner) as nat;
    let values = tree_values(nodes, binners, shown);
    law_number_is_read_back(leaves);
    law_number_is_read_back(categorical_splits(nodes, n));
    let f2 = |i: int| decimal(nodes[i]->feature);
    let f5 = |i: int| decimal(decision_type(nodes, binners, i));
    let f6 = |i: int| signed_decimal(child_index(nodes, nodes[i]->left as int));
    let f7 = |i: int| signed_decimal(child_index(nodes, nodes[i]->right as int));
    assert forall|i: int| 0 <= i < n implies word(#[trigger] f2(i)) by {
        law_number_is_read_back(nodes[i]->feature);
    }
    assert forall|i: int| 0 <= i < n implies word(#[trigger] f5(i)) by {
        law_number_is_read_back(decision_type(nodes, binners, i));
    }
    assert forall|i: int| 0 <= i < n implies word(#[trigger] f6(i)) by {
        law_signed_number_is_read_back(child_index(nodes, nodes[i]->left as int));
    }
    assert forall|i: int| 0 <= i < n implies word(#[trigger] f7(i)) by {
        law_signed_number_is_read_back(child_index(nodes, nodes[i]->right as int));
    }
    lemma_per_internal_words(nodes, n, f2);
    lemma_per_internal_words(nodes, n, f5);
    lemma_per_internal_words(nodes, n, f6);
    lemma_per_internal_words(nodes, n, f7);
    law_lists_are_read_back(per_internal(nodes, n, f2));
    law_lists_are_read_back(per_internal(nodes, n, f5));
    law_lists_are_read_back(per_internal(nodes, n, f6));
    law_lists_are_read_back(per_internal(nodes, n, f7));
    let a = shown.take(inner as int);
    let b = shown.skip(inner as int);
    assert forall|i: int| 0 <= i < a.len() implies word(#[trigger] a[i]) by {
        assert(a[i] == shown[i]);
    }
    assert forall|i: int| 0 <= i < b.len() implies word(#[trigger] b[i]) by {
        assert(b[i] == shown[inner + i]);
    }
    law_lists_are_read_back(a);
    law_lists_are_read_back(b);
    reveal_strlit("0");
    law_lists_are_read_back(Seq::new(inner, |i: int| "0"@));
    law_lists_are_read_back(Seq::new(leaves, |i: int| "0"@));
    assert(one_line(values[0]) && one_line(values[1]) && one_line(values[2]) && one_line(values[3]) && one_line(values[4]));
    assert(one_line(values[5]) && one_line(values[6]) && one_line(values[7]) && one_line(values[8]) && one_line(values[9]));
    assert(one_line(values[10]) && one_line(values[11]) && one_line(values[12]) && one_line(values[13]));
    assert forall|k: int| 0 <= k < 14 implies one_line(#[trigger] values[k]) by {
        assert(k == 0 || k == 1 || k == 2 || k == 3 || k == 4 || k == 5 || k == 6 || k == 7 || k == 8 || k == 9 || k == 10
            || k == 11 || k == 12 || k == 13);
    }
}

proof fn lemma_tree_names_one_line()
    ensures
        forall|k: int| 0 <= k < 14 ==> one_line(#[trigger] tree_names()[k]),
{
    reveal_strlit("num_leaves=");
    assert(one_line(tree_names()[0]));
    reveal_strlit("num_cat=");
    assert(one_line(tree_names()[1]));
    reveal_strlit("split_feature=");
    assert(one_line(tree_names()[2]));
    reveal_strlit("split_gain=");
    assert(one_line(tree_names()[3]));
    reveal_strlit("threshold=");
    assert(one_line(tree_names()[4]));
    reveal_strlit("decision_type=");
    assert(one_line(tree_names()[5]));
    reveal_strlit("left_child=");
    assert(one_line(tree_names()[6]));
    reveal_strlit("right_child=");
    assert(one_line(tree_names()[7]));
    reveal_strlit("leaf_value=");
    assert(one_line(tree_names()[8]));
    reveal_strlit("leaf_weight=");
    assert(one_line(tree_names()[9]));
    reveal_strlit("leaf_count=");
    assert(one_line(tree_names()[10]));
    reveal_strlit("internal_value=");
    assert(one_line(tree_names()[11]));
    reveal_strlit("internal_weight=");
    assert(one_line(tree_names()[12]));
    reveal_strlit("internal_count=");
    assert(one_line(tree_names()[13]));
    assert forall|k: int| 0 <= k < 14 implies one_line(#[trigger] tree_names()[k]) by {
        assert(k == 0 || k == 1 || k == 2 || k == 3 || k == 4 || k == 5 || k == 6 || k == 7 || k == 8 || k == 9 || k == 10
            || k == 11 || k == 12 || k == 13);
    }
}

proof fn lemma_titled_one_line(number: nat, nodes: Seq<NodeView>, binners: Seq<BinnerView>, shown: Seq<Seq<char>>)
    requires
        forall|i: int| 0 <= i < shown.len() ==> word(#[trigger] shown[i]),
        internals(nodes, nodes.len()) <= shown.len(),
        shown.len() == nodes.len(),
    ensures
        forall|i: int|
            0 <= i < titled_lines(number, nodes, binners, shown).len() ==> one_line(
                #[trigger] titled_lines(number, nodes, binners, shown)[i],
            ),
{
    let all = titled_lines(number, nodes, binners, shown);
    let front = tree_front(nodes, binners, shown);
    let sets = tree_sets(nodes, binners);
    let own = tree_lines(nodes, binners, shown);
    lemma_tree_words(nodes, binners, shown);
    lemma_tree_names_one_line();
    reveal_strlit("Tree=");
    law_number_is_read_back(number);
    lemma_one_line_concat("Tree="@, decimal(number));
    assert forall|k: int| 0 <= k < 14 implies one_line(#[trigger] front[k]) by {
        lemma_one_line_concat(tree_names()[k], tree_values(nodes, binners, shown)[k]);
    }
    let categorical = categorical_splits(nodes, nodes.len());
    reveal_strlit("cat_boundaries=");
    reveal_strlit("cat_threshold=");
    reveal_strlit("is_linear=0");
    reveal_strlit("shrinkage=1");
    let bounds = Seq::new(categorical + 1, |i: int| decimal((8 * i) as nat));
    assert forall|i: int| 0 <= i < bounds.len() implies word(#[trigger] bounds[i]) by {
        law_number_is_read_back((8 * i) as nat);
    }
    law_lists_are_read_back(bounds);
    lemma_category_words(nodes, binners, nodes.len());
    law_lists_are_read_back(category_words(nodes, binners, nodes.len()));
    lemma_one_line_concat("cat_boundaries="@, spaced(bounds));
    lemma_one_line_concat("cat_threshold="@, spaced(category_words(nodes, binners, nodes.len())));
    assert forall|i: int| 0 <= i < own.len() implies one_line(#[trigger] own[i]) by {
        if i < 14 {
            assert(own[i] == front[i]);
        } else if i < 14 + sets.len() {
            assert(own[i] == sets[i - 14]);
        } else {
            assert(own[i] == tree_end()[i - 14 - sets.len()]);
        }
    }
    assert forall|i: int| 0 <= i < all.len() implies one_line(#[trigger] all[i]) by {
        if i > 0 && i <= own.len() {
            assert(all[i] == own[i - 1]);
        }
    }
}

proof fn lemma_internals_most(nodes: Seq<NodeView>, n: nat)
    ensures
        internals(nodes, n) <= n,
    decreases n,
{
    if n > 0 {
        lemma_internals_most(nodes, (n - 1) as nat);
    }
}

/// The numbers of a part are words, and as many as its nodes.
pub(crate) proof fn lemma_part_shown(base: Double, trees: Seq<Seq<NodeView>>, shown: Seq<Seq<char>>, i: int)
    requires
        forall|i: int| 0 <= i < shown.len() ==> word(#[trigger] shown[i]),
        shown.len() == count_numbers(trees, trees.len()),
        0 <= i <= trees.len(),
    ensures
        forall|k: int| 0 <= k < part_shown(trees, shown, i).len() ==> word(#[trigger] part_shown(trees, shown, i)[k]),
        part_shown(trees, shown, i).len() == part_nodes(base, trees, i).len(),
        internals(part_nodes(base, trees, i), part_nodes(base, trees, i).len()) <= part_nodes(base, trees, i).len(),
{
    lemma_internals_most(part_nodes(base, trees, i), part_nodes(base, trees, i).len());
    lemma_count_monotone(trees, 0, trees.len());
    if i > 0 {
        lemma_count_monotone(trees, i as nat, trees.len());
        lemma_count_monotone(trees, (i - 1) as nat, i as nat);
        let lo = count_numbers(trees, (i - 1) as nat) as int;
        assert forall|k: int| 0 <= k < part_shown(trees, shown, i).len() implies word(
            #[trigger] part_shown(trees, shown, i)[k],
        ) by {
            assert(part_shown(trees, shown, i)[k] == shown[lo + k]);
        }
    }
}

proof fn lemma_forest_one_line(
    base: Double,
    trees: Seq<Seq<NodeView>>,
    binners: Seq<BinnerView>,
    shown: Seq<Seq<char>>,
    n: nat,
)
    requires
        forall|i: int| 0 <= i < shown.len() ==> word(#[trigger] shown[i]),
        shown.len() == count_numbers(trees, trees.len()),
        n <= trees.len() + 1,
    ensures
        forall|i: int|
            0 <= i < forest_lines(base, trees, binners, shown, n).len() ==> one_line(
                #[trigger] forest_lines(base, trees, binners, shown, n)[i],
            ),
    decreases n,
{
    if n > 0 {
        lemma_forest_one_line(base, trees, binners, shown, (n - 1) as nat);
        lemma_part_shown(base, trees, shown, n - 1);
        lemma_titled_one_line(
            (n - 1) as nat,
            part_nodes(base, trees, n - 1),
            binners,
            part_shown(trees, shown, n - 1),
        );
        let before = forest_lines(base, trees, binners, shown, (n - 1) as nat);
        let own = part_lines(base, trees, binners, shown, n - 1);
        let all = forest_lines(base, trees, binners, shown, n);
        assert forall|i: int| 0 <= i < all.len() implies one_line(#[trigger] all[i]) by {
            if i < before.len() {
                assert(all[i] == before[i]);
            } else {
                assert(all[i] == own[i - before.len()]);
            }
        }
    }
}

pub(crate) proof fn lemma_model_one_line(
    objective: Seq<char>,
    names: Seq<Seq<char>>,
    binners: Seq<BinnerView>,
    base: Double,
    trees: Seq<Seq<NodeView>>,
    shown: Seq<Seq<char>>,
)
    requires
        plain_texts(objective, names, shown),
        shown.len() == count_numbers(trees, trees.len()),
    ensures
        forall|i: int|
            0 <= i < model_lines(objective, names, binners, base, trees, shown).len() ==> one_line(
                #[trigger] model_lines(objective, names, binners, base, trees, shown)[i],
            ),
        model_lines(objective, names, binners, base, trees, shown).take(11) == header_lines(
            objective,
            names,
            binners,
            tree_texts(trees, binners, shown),
        ),
{
    let parts = tree_texts(trees, binners, shown);
    let a = header_lines(objective, names, binners, parts);
    let b = forest_lines(base, trees, binners, shown, trees.len() + 1);
    let c = footer_lines(objective);
    let all = model_lines(objective, names, binners, base, trees, shown);
    lemma_header_one_line(objective, names, binners, parts);
    lemma_forest_one_line(base, trees, binners, shown, trees.len() + 1);
    lemma_footer_one_line(objective);
    assert forall|i: int| 0 <= i < all.len() implies one_line(#[trigger] all[i]) by {
        if i < a.len() {
            assert(all[i] == a[i]);
        } else if i < a.len() + b.len() {
            assert(all[i] == b[i - a.len()]);
        } else {
            assert(all[i] == c[i - a.len() - b.len()]);
        }
    }
    assert(all.take(11) =~= a);
}

/// No name of a tree's text is that of a title.
proof fn lemma_names_are_no_titles()
    ensures
        forall|k: int| 0 <= k < 14 ==> apart(#[trigger] tree_names()[k], "Tree="@),
        apart("cat_boundaries="@, "Tree="@),
        apart("cat_threshold="@, "Tree="@),
        apart("is_linear=0"@, "Tree="@),
        apart("shrinkage=1"@, "Tree="@),
{
    reveal_strlit("Tree=");
    reveal_strlit("num_leaves=");
    assert(tree_names()[0][0] != "Tree="@[0]);
    assert(apart(tree_names()[0], "Tree="@));
    reveal_strlit("num_cat=");
    assert(tree_names()[1][0] != "Tree="@[0]);
    assert(apart(tree_names()[1], "Tree="@));
    reveal_strlit("split_feature=");
    assert(tree_names()[2][0] != "Tree="@[0]);
    assert(apart(tree_names()[2], "Tree="@));
    reveal_strlit("split_gain=");
    assert(tree_names()[3][0] != "Tree="@[0]);
    assert(apart(tree_names()[3], "Tree="@));
    reveal_strlit("threshold=");
    assert(tree_names()[4][0] != "Tree="@[0]);
    assert(apart(tree_names()[4], "Tree="@));
    reveal_strlit("decision_type=");
    assert(tree_names()[5][0] != "Tree="@[0]);
    assert(apart(tree_names()[5], "Tree="@));
    reveal_strlit("left_child=");
    assert(tree_names()[6][0] != "Tree="@[0]);
    assert(apart(tree_names()[6], "Tree="@));
    reveal_strlit("right_child=");
    assert(tree_names()[7][0] != "Tree="@[0]);
    assert(apart(tree_names()[7], "Tree="@));
    reveal_strlit("leaf_value=");
    assert(tree_names()[8][0] != "Tree="@[0]);
    assert(apart(tree_names()[8], "Tree="@));
    reveal_strlit("leaf_weight=");
    assert(tree_names()[9][0] != "Tree="@[0]);
    assert(apart(tree_names()[9], "Tree="@));
    reveal_strlit("leaf_count=");
    assert(tree_names()[10][0] != "Tree="@[0]);
    assert(apart(tree_names()[10], "Tree="@));
    reveal_strlit("internal_value=");
    assert(tree_names()[11][0] != "Tree="@[0]);
    assert(apart(tree_names()[11], "Tree="@));
    reveal_strlit("internal_weight=");
    assert(tree_names()[12][0] != "Tree="@[0]);
    assert(apart(tree_names()[12], "Tree="@));
    reveal_strlit("internal_count=");
    assert(tree_names()[13][0] != "Tree="@[0]);
    assert(apart(tree_names()[13], "Tree="@));
    reveal_strlit("cat_boundaries=");
    assert("cat_boundaries="@[0] != "Tree="@[0]);
    reveal_strlit("cat_threshold=");
    assert("cat_threshold="@[0] != "Tree="@[0]);
    reveal_strlit("is_linear=0");
    assert("is_linear=0"@[0] != "Tree="@[0]);
    reveal_strlit("shrinkage=1");
    assert("shrinkage=1"@[0] != "Tree="@[0]);
    assert forall|k: int| 0 <= k < 14 implies apart(#[trigger] tree_names()[k], "Tree="@) by {
        assert(k == 0 || k == 1 || k == 2 || k == 3 || k == 4 || k == 5 || k == 6 || k == 7 || k == 8 || k == 9 || k == 10
            || k == 11 || k == 12 || k == 13);
    }
}

/// Only the first line of a tree is a title.
proof fn lemma_one_title(number: nat, nodes: Seq<NodeView>, binners: Seq<BinnerView>, shown: Seq<Seq<char>>)
    ensures
        ({
            let all = titled_lines(number, nodes, binners, shown);
            &&& all.len() >= 17
            &&& all[0] == "Tree="@ + decimal(number)
            &&& forall|i: int| 1 <= i < all.len() ==> !starts(#[trigger] all[i], "Tree="@)
        }),
{
    let all = titled_lines(number, nodes, binners, shown);
    let front = tree_front(nodes, binners, shown);
    let sets = tree_sets(nodes, binners);
    let own = tree_lines(nodes, binners, shown);
    let none = Seq::<char>::empty();
    lemma_names_are_no_titles();
    reveal_strlit("Tree=");
    assert forall|i: int| 1 <= i < all.len() implies !starts(#[trigger] all[i], "Tree="@) by {
        if i <= 14 {
            assert(all[i] == own[i - 1]);
            assert(own[i - 1] == front[i - 1]);
            assert(apart(tree_names()[i - 1], "Tree="@));
            lemma_apart(tree_names()[i - 1], tree_values(nodes, binners, shown)[i - 1], "Tree="@);
        } else if i <= 14 + sets.len() {
            assert(all[i] == own[i - 1]);
            assert(own[i - 1] == sets[i - 15]);
            let categorical = categorical_splits(nodes, nodes.len());
            lemma_apart(
                "cat_boundaries="@,
                spaced(Seq::new(categorical + 1, |i: int| decimal((8 * i) as nat))),
                "Tree="@,
            );
            lemma_apart("cat_threshold="@, spaced(category_words(nodes, binners, nodes.len())), "Tree="@);
        } else if i <= own.len() {
            assert(all[i] == own[i - 1]);
            assert(own[i - 1] == tree_end()[i - 15 - sets.len()]);
            lemma_apart("is_linear=0"@, none, "Tree="@);
            lemma_apart("shrinkage=1"@, none, "Tree="@);
            assert("is_linear=0"@ + none =~= "is_linear=0"@);
            assert("shrinkage=1"@ + none =~= "shrinkage=1"@);
        }
    }
}

/// The titles of the first parts.
proof fn lemma_forest_titles(
    base: Double,
    trees: Seq<Seq<NodeView>>,
    binners: Seq<BinnerView>,
    shown: Seq<Seq<char>>,
    n: nat,
    number: nat,
)
    requires
        n <= number,
    ensures
        forall|i: int|
            0 <= i < forest_lines(base, trees, binners, shown, n).len() ==> #[trigger] forest_lines(
                base,
                trees,
                binners,
                shown,
                n,
            )[i] != "Tree="@ + decimal(number),
    decreases n,
{
    if n > 0 {
        let m = (n - 1) as nat;
        lemma_forest_titles(base, trees, binners, shown, m, number);
        let before = forest_lines(base, trees, binners, shown, m);
        let own = part_lines(base, trees, binners, shown, m as int);
        let all = forest_lines(base, trees, binners, shown, n);
        let title = "Tree="@ + decimal(number);
        lemma_one_title(m, part_nodes(base, trees, m as int), binners, part_shown(trees, shown, m as int));
        lemma_starts("Tree="@, decimal(number));
        lemma_starts("Tree="@, decimal(m));
        law_decimal_is_read_back(m);
        law_decimal_is_read_back(number);
        assert forall|i: int| 0 <= i < all.len() implies #[trigger] all[i] != title by {
            if i < before.len() {
                assert(all[i] == before[i]);
            } else {
                assert(all[i] == own[i - before.len()]);
                if i > before.len() {
                    assert(!starts(own[i - before.len()], "Tree="@));
                }
            }
        }
    }
}

/// Where the parts stand.
proof fn lemma_forest_part(
    base: Double,
    trees: Seq<Seq<NodeView>>,
    binners: Seq<BinnerView>,
    shown: Seq<Seq<char>>,
    n: nat,
    i: int,
)
    requires
        0 <= i < n,
    ensures
        ({
            let at = forest_lines(base, trees, binners, shown, i as nat).len() as int;
            let own = part_lines(base, trees, binners, shown, i);
            let all = forest_lines(base, trees, binners, shown, n);
            &&& at + own.len() <= all.len()
            &&& all.subrange(at, at + own.len()) == own
            &&& all.take(at) == forest_lines(base, trees, binners, shown, i as nat)
        }),
    decreases n,
{
    let m = (n - 1) as nat;
    let at = forest_lines(base, trees, binners, shown, i as nat).len() as int;
    let own = part_lines(base, trees, binners, shown, i);
    let all = forest_lines(base, trees, binners, shown, n);
    let before = forest_lines(base, trees, binners, shown, m);
    if i < m {
        lemma_forest_part(base, trees, binners, shown, m, i);
        assert(all.subrange(at, at + own.len()) =~= before.subrange(at, at + own.len()));
        assert(all.take(at) =~= before.take(at));
    } else {
        assert(all.subrange(at, at + own.len()) =~= own);
        assert(all.take(at) =~= before);
    }
}

/// No line of the header is a title.
proof fn lemma_header_titles(
    objective: Seq<char>,
    names: Seq<Seq<char>>,
    binners: Seq<BinnerView>,
    parts: Seq<Seq<char>>,
    number: nat,
)
    ensures
        forall|i: int|
            0 <= i < 11 ==> #[trigger] header_lines(objective, names, binners, parts)[i] != "Tree="@ + decimal(number),
{
    let all = header_lines(objective, names, binners, parts);
    let title = "Tree="@ + decimal(number);
    reveal_strlit("Tree=");
    reveal_strlit("tree");
    assert(all[0][0] != title[0]);
    reveal_strlit("version=v4");
    assert(all[1][0] != title[0]);
    reveal_strlit("num_class=1");
    assert(all[2][0] != title[0]);
    reveal_strlit("num_tree_per_iteration=1");
    assert(all[3][0] != title[0]);
    reveal_strlit("label_index=0");
    assert(all[4][0] != title[0]);
    reveal_strlit("max_feature_idx=");
    assert(all[5][0] != title[0]);
    reveal_strlit("objective=");
    assert(all[6][0] != title[0]);
    reveal_strlit("feature_names=");
    assert(all[7][0] != title[0]);
    reveal_strlit("feature_infos=");
    assert(all[8][0] != title[0]);
    reveal_strlit("tree_sizes=");
    assert(all[9][0] != title[0]);
    assert(all[10].len() != title.len());
    assert forall|i: int| 0 <= i < 11 implies #[trigger] all[i] != title by {
        assert(i == 0 || i == 1 || i == 2 || i == 3 || i == 4 || i == 5 || i == 6 || i == 7 || i == 8 || i == 9 || i == 10);
    }
}

/// The lines of part `i` of a model follow its title.
#[verifier::rlimit(40)]
pub(crate) proof fn lemma_part_found(
    objective: Seq<char>,
    names: Seq<Seq<char>>,
    binners: Seq<BinnerView>,
    base: Double,
    trees: Seq<Seq<NodeView>>,
    shown: Seq<Seq<char>>,
    i: int,
) -> (at: int)
    requires
        0 <= i <= trees.len(),
    ensures
        ({
            let all = model_lines(objective, names, binners, base, trees, shown);
            let own = part_lines(base, trees, binners, shown, i);
            &&& 0 <= at
            &&& at + own.len() <= all.len()
            &&& all.subrange(at, at + own.len()) == own
            &&& line_of_title(all, 0, "Tree="@ + decimal(i as nat)) == Some(at)
        }),
{
    let parts = tree_texts(trees, binners, shown);
    let n = trees.len() + 1;
    let a = header_lines(objective, names, binners, parts);
    let b = forest_lines(base, trees, binners, shown, n);
    let all = model_lines(objective, names, binners, base, trees, shown);
    let own = part_lines(base, trees, binners, shown, i);
    let inner = forest_lines(base, trees, binners, shown, i as nat).len() as int;
    let at = 11 + inner;
    let title = "Tree="@ + decimal(i as nat);
    lemma_forest_part(base, trees, binners, shown, n, i);
    lemma_forest_titles(base, trees, binners, shown, i as nat, i as nat);
    lemma_header_titles(objective, names, binners, parts, i as nat);
    lemma_one_title(i as nat, part_nodes(base, trees, i), binners, part_shown(trees, shown, i));
    assert forall|k: int| 0 <= k < inner implies #[trigger] b[k] != title by {
        assert(b.take(inner)[k] == b[k]);
    }
    lemma_found_between(a, b, footer_lines(objective), own, inner, title);
    at
}

proof fn lemma_found_between(
    a: Seq<Seq<char>>,
    b: Seq<Seq<char>>,
    c: Seq<Seq<char>>,
    own: Seq<Seq<char>>,
    inner: int,
    title: Seq<char>,
)
    requires
        0 <= inner,
        own.len() > 0,
        inner + own.len() <= b.len(),
        b.subrange(inner, inner + own.len()) == own,
        own[0] == title,
        forall|k: int| 0 <= k < a.len() ==> #[trigger] a[k] != title,
        forall|k: int| 0 <= k < inner ==> #[trigger] b[k] != title,
    ensures
        ({
            let all = a + b + c;
            let at = a.len() + inner;
            &&& at + own.len() <= all.len()
            &&& all.subrange(at, at + own.len()) == own
            &&& line_of_title(all, 0, title) == Some(at)
        }),
{
    let all = a + b + c;
    let at = a.len() + inner;
    assert(all.subrange(at, at + own.len()) =~= b.subrange(inner, inner + own.len()));
    assert(all[at] == all.subrange(at, at + own.len())[0]);
    assert forall|k: int| 0 <= k < at implies #[trigger] all[k] != title by {
        if k < a.len() {
            assert(all[k] == a[k]);
        } else {
            assert(all[k] == b[k - a.len()]);
        }
    }
    lemma_title_at(all, 0, at, title);
}

/// Names of a tree's text are told apart.
proof fn lemma_names_apart()
    ensures
        forall|j: int, k: int| 0 <= j < k < 14 ==> apart(#[trigger] tree_names()[j], #[trigger] tree_names()[k]),
        forall|j: int| 0 <= j < 14 ==> apart(#[trigger] tree_names()[j], "cat_boundaries="@),
        forall|j: int| 0 <= j < 14 ==> apart(#[trigger] tree_names()[j], "cat_threshold="@),
        apart("cat_boundaries="@, "cat_threshold="@),
        forall|k: int| 0 <= k < 14 ==> apart("Tree="@, #[trigger] tree_names()[k]),
        apart("Tree="@, "cat_boundaries="@),
        apart("Tree="@, "cat_threshold="@),
{
    let names = tree_names();
    reveal_strlit("Tree=");
    reveal_strlit("num_leaves=");
    reveal_strlit("num_cat=");
    reveal_strlit("split_feature=");
    reveal_strlit("split_gain=");
    reveal_strlit("threshold=");
    reveal_strlit("decision_type=");
    reveal_strlit("left_child=");
    reveal_strlit("right_child=");
    reveal_strlit("leaf_value=");
    reveal_strlit("leaf_weight=");
    reveal_strlit("leaf_count=");
    reveal_strlit("internal_value=");
    reveal_strlit("internal_weight=");
    reveal_strlit("internal_count=");
    reveal_strlit("cat_boundaries=");
    reveal_strlit("cat_threshold=");
    assert(names[0][4] != names[1][4]);
    assert(names[0][0] != names[2][0]);
    assert(names[0][0] != names[3][0]);
    assert(names[0][0] != names[4][0]);
    assert(names[0][0] != names[5][0]);
    assert(names[0][0] != names[6][0]);
    assert(names[0][0] != names[7][0]);
    assert(names[0][0] != names[8][0]);
    assert(names[0][0] != names[9][0]);
    assert(names[0][0] != names[10][0]);
    assert(names[0][0] != names[11][0]);
    assert(names[0][0] != names[12][0]);
    assert(names[0][0] != names[13][0]);
    assert(names[0][0] != "cat_boundaries="@[0]);
    assert(names[0][0] != "cat_threshold="@[0]);
    assert("Tree="@[0] != names[0][0]);
    assert(names[1][0] != names[2][0]);
    assert(names[1][0] != names[3][0]);
    assert(names[1][0] != names[4][0]);
    assert(names[1][0] != names[5][0]);
    assert(names[1][0] != names[6][0]);
    assert(names[1][0] != names[7][0]);
    assert(names[1][0] != names[8][0]);
    assert(names[1][0] != names[9][0]);
    assert(names[1][0] != names[10][0]);
    assert(names[1][0] != names[11][0]);
    assert(names[1][0] != names[12][0]);
    assert(names[1][0] != names[13][0]);
    assert(names[1][0] != "cat_boundaries="@[0]);
    assert(names[1][0] != "cat_threshold="@[0]);
    assert("Tree="@[0] != names[1][0]);
    assert(names[2][6] != names[3][6]);
    assert(names[2][0] != names[4][0]);
    assert(names[2][0] != names[5][0]);
    assert(names[2][0] != names[6][0]);
    assert(names[2][0] != names[7][0]);
    assert(names[2][0] != names[8][0]);
    assert(names[2][0] != names[9][0]);
    assert(names[2][0] != names[10][0]);
    assert(names[2][0] != names[11][0]);
    assert(names[2][0] != names[12][0]);
    assert(names[2][0] != names[13][0]);
    assert(names[2][0] != "cat_boundaries="@[0]);
    assert(names[2][0] != "cat_threshold="@[0]);
    assert("Tree="@[0] != names[2][0]);
    assert(names[3][0] != names[4][0]);
    assert(names[3][0] != names[5][0]);
    assert(names[3][0] != names[6][0]);
    assert(names[3][0] != names[7][0]);
    assert(names[3][0] != names[8][0]);
    assert(names[3][0] != names[9][0]);
    assert(names[3][0] != names[10][0]);
    assert(names[3][0] != names[11][0]);
    assert(names[3][0] != names[12][0]);
    assert(names[3][0] != names[13][0]);
    assert(names[3][0] != "cat_boundaries="@[0]);
    assert(names[3][0] != "cat_threshold="@[0]);
    assert("Tree="@[0] != names[3][0]);
    assert(names[4][0] != names[5][0]);
    assert(names[4][0] != names[6][0]);
    assert(names[4][0] != names[7][0]);
    assert(names[4][0] != names[8][0]);
    assert(names[4][0] != names[9][0]);
    assert(names[4][0] != names[10][0]);
    assert(names[4][0] != names[11][0]);
    assert(names[4][0] != names[12][0]);
    assert(names[4][0] != names[13][0]);
    assert(names[4][0] != "cat_boundaries="@[0]);
    assert(names[4][0] != "cat_threshold="@[0]);
    assert("Tree="@[0] != names[4][0]);
    assert(names[5][0] != names[6][0]);
    assert(names[5][0] != names[7][0]);
    assert(names[5][0] != names[8][0]);
    assert(names[5][0] != names[9][0]);
    assert(names[5][0] != names[10][0]);
    assert(names[5][0] != names[11][0]);
    assert(names[5][0] != names[12][0]);
    assert(names[5][0] != names[13][0]);
    assert(names[5][0] != "cat_boundaries="@[0]);
    assert(names[5][0] != "cat_threshold="@[0]);
    assert("Tree="@[0] != names[5][0]);
    assert(names[6][0] != names[7][0]);
    assert(names[6][2] != names[8][2]);
    assert(names[6][2] != names[9][2]);
    assert(names[6][2] != names[10][2]);
    assert(names[6][0] != names[11][0]);
    assert(names[6][0] != names[12][0]);
    assert(names[6][0] != names[13][0]);
    assert(names[6][0] != "cat_boundaries="@[0]);
    assert(names[6][0] != "cat_threshold="@[0]);
    assert("Tree="@[0] != names[6][0]);
    assert(names[7][0] != names[8][0]);
    assert(names[7][0] != names[9][0]);
    assert(names[7][0] != names[10][0]);
    assert(names[7][0] != names[11][0]);
    assert(names[7][0] != names[12][0]);
    assert(names[7][0] != names[13][0]);
    assert(names[7][0] != "cat_boundaries="@[0]);
    assert(names[7][0] != "cat_threshold="@[0]);
    assert("Tree="@[0] != names[7][0]);
    assert(names[8][5] != names[9][5]);
    assert(names[8][5] != names[10][5]);
    assert(names[8][0] != names[11][0]);
    assert(names[8][0] != names[12][0]);
    assert(names[8][0] != names[13][0]);
    assert(names[8][0] != "cat_boundaries="@[0]);
    assert(names[8][0] != "cat_threshold="@[0]);
    assert("Tree="@[0] != names[8][0]);
    assert(names[9][5] != names[10][5]);
    assert(names[9][0] != names[11][0]);
    assert(names[9][0] != names[12][0]);
    assert(names[9][0] != names[13][0]);
    assert(names[9][0] != "cat_boundaries="@[0]);
    assert(names[9][0] != "cat_threshold="@[0]);
    assert("Tree="@[0] != names[9][0]);
    assert(names[10][0] != names[11][0]);
    assert(names[10][0] != names[12][0]);
    assert(names[10][0] != names[13][0]);
    assert(names[10][0] != "cat_boundaries="@[0]);
    assert(names[10][0] != "cat_threshold="@[0]);
    assert("Tree="@[0] != names[10][0]);
    assert(names[11][9] != names[12][9]);
    assert(names[11][9] != names[13][9]);
    assert(names[11][0] != "cat_boundaries="@[0]);
    assert(names[11][0] != "cat_threshold="@[0]);
    assert("Tree="@[0] != names[11][0]);
    assert(names[12][9] != names[13][9]);
    assert(names[12][0] != "cat_boundaries="@[0]);
    assert(names[12][0] != "cat_threshold="@[0]);
    assert("Tree="@[0] != names[12][0]);
    assert(names[13][0] != "cat_boundaries="@[0]);
    assert(names[13][0] != "cat_threshold="@[0]);
    assert("Tree="@[0] != names[13][0]);
    assert("cat_boundaries="@[4] != "cat_threshold="@[4]);
    assert("Tree="@[0] != "cat_boundaries="@[0]);
    assert("Tree="@[0] != "cat_threshold="@[0]);
    assert(apart(names[0], names[1]) && apart(names[0], names[2]) && apart(names[0], names[3]) && apart(names[0], names[4]) && apart(names[0], names[5]) && apart(names[0], names[6]) && apart(names[0], names[7]) && apart(names[0], names[8]) && apart(names[0], names[9]) && apart(names[0], names[10]) && apart(names[0], names[11]) && apart(names[0], names[12]) && apart(names[0], names[13]));
    assert(apart(names[1], names[2]) && apart(names[1], names[3]) && apart(names[1], names[4]) && apart(names[1], names[5]) && apart(names[1], names[6]) && apart(names[1], names[7]) && apart(names[1], names[8]) && apart(names[1], names[9]) && apart(names[1], names[10]) && apart(names[1], names[11]) && apart(names[1], names[12]) && apart(names[1], names[13]));
    assert(apart(names[2], names[3]) && apart(names[2], names[4]) && apart(names[2], names[5]) && apart(names[2], names[6]) && apart(names[2], names[7]) && apart(names[2], names[8]) && apart(names[2], names[9]) && apart(names[2], names[10]) && apart(names[2], names[11]) && apart(names[2], names[12]) && apart(names[2], names[13]));
    assert(apart(names[3], names[4]) && apart(names[3], names[5]) && apart(names[3], names[6]) && apart(names[3], names[7]) && apart(names[3], names[8]) && apart(names[3], names[9]) && apart(names[3], names[10]) && apart(names[3], names[11]) && apart(names[3], names[12]) && apart(names[3], names[13]));
    assert(apart(names[4], names[5]) && apart(names[4], names[6]) && apart(names[4], names[7]) && apart(names[4], names[8]) && apart(names[4], names[9]) && apart(names[4], names[10]) && apart(names[4], names[11]) && apart(names[4], names[12]) && apart(names[4], names[13]));
    assert(apart(names[5], names[6]) && apart(names[5], names[7]) && apart(names[5], names[8]) && apart(names[5], names[9]) && apart(names[5], names[10]) && apart(names[5], names[11]) && apart(names[5], names[12]) && apart(names[5], names[13]));
    assert(apart(names[6], names[7]) && apart(names[6], names[8]) && apart(names[6], names[9]) && apart(names[6], names[10]) && apart(names[6], names[11]) && apart(names[6], names[12]) && apart(names[6], names[13]));
    assert(apart(names[7], names[8]) && apart(names[7], names[9]) && apart(names[7], names[10]) && apart(names[7], names[11]) && apart(names[7], names[12]) && apart(names[7], names[13]));
    assert(apart(names[8], names[9]) && apart(names[8], names[10]) && apart(names[8], names[11]) && apart(names[8], names[12]) && apart(names[8], names[13]));
    assert(apart(names[9], names[10]) && apart(names[9], names[11]) && apart(names[9], names[12]) && apart(names[9], names[13]));
    assert(apart(names[10], names[11]) && apart(names[10], names[12]) && apart(names[10], names[13]));
    assert(apart(names[11], names[12]) && apart(names[11], names[13]));
    assert(apart(names[12], names[13]));
    assert forall|j: int, k: int| 0 <= j < k < 14 implies apart(#[trigger] names[j], #[trigger] names[k]) by {
        assert(j == 0 || j == 1 || j == 2 || j == 3 || j == 4 || j == 5 || j == 6 || j == 7 || j == 8 || j == 9 || j == 10
            || j == 11 || j == 12);
        assert(k == 1 || k == 2 || k == 3 || k == 4 || k == 5 || k == 6 || k == 7 || k == 8 || k == 9 || k == 10 || k == 11
            || k == 12 || k == 13);
    }
    assert forall|j: int| 0 <= j < 14 implies apart(#[trigger] names[j], "cat_boundaries="@) && apart(
        names[j],
        "cat_threshold="@,
    ) && apart("Tree="@, names[j]) by {
        assert(j == 0 || j == 1 || j == 2 || j == 3 || j == 4 || j == 5 || j == 6 || j == 7 || j == 8 || j == 9 || j == 10
            || j == 11 || j == 12 || j == 13);
    }
}

/// What stands under the names of a tree.
#[verifier::rlimit(30)]
pub(crate) proof fn lemma_values_found(
    all: Seq<Seq<char>>,
    at: int,
    number: nat,
    nodes: Seq<NodeView>,
    binners: Seq<BinnerView>,
    shown: Seq<Seq<char>>,
)
    requires
        0 <= at,
        ({
            let own = titled_lines(number, nodes, binners, shown);
            at + own.len() <= all.len() && all.subrange(at, at + own.len()) == own
        }),
    ensures
        forall|k: int|
            0 <= k < 14 ==> value_of_name(all, at, #[trigger] tree_names()[k]) == Some(
                tree_values(nodes, binners, shown)[k],
            ),
        categorical_splits(nodes, nodes.len()) > 0 ==> {
            &&& value_of_name(all, at, "cat_boundaries="@) == Some(
                spaced(Seq::new(categorical_splits(nodes, nodes.len()) + 1, |i: int| decimal((8 * i) as nat))),
            )
            &&& value_of_name(all, at, "cat_threshold="@) == Some(spaced(category_words(nodes, binners, nodes.len())))
        },
{
    let own = titled_lines(number, nodes, binners, shown);
    let front = tree_front(nodes, binners, shown);
    let lines = tree_lines(nodes, binners, shown);
    let sets = tree_sets(nodes, binners);
    let names = tree_names();
    let values = tree_values(nodes, binners, shown);
    lemma_names_apart();
    assert forall|i: int| 0 <= i < own.len() implies #[trigger] all[at + i] == own[i] by {
        assert(all.subrange(at, at + own.len())[i] == all[at + i]);
    }
    assert(own[0] == "Tree="@ + decimal(number));
    assert forall|j: int| 0 <= j < 14 implies #[trigger] own[j + 1] == names[j] + values[j] by {
        assert(own[j + 1] == lines[j]);
        assert(lines[j] == front[j]);
    }
    assert forall|k: int| 0 <= k < 14 implies value_of_name(all, at, #[trigger] names[k]) == Some(values[k]) by {
        assert forall|i: int| at <= i < at + k + 1 implies !starts(#[trigger] all[i], names[k]) by {
            assert(all[at + (i - at)] == own[i - at]);
            if i == at {
                lemma_apart("Tree="@, decimal(number), names[k]);
            } else {
                let j = i - at - 1;
                assert(own[j + 1] == names[j] + values[j]);
                assert(apart(names[j], names[k]));
                lemma_apart(names[j], values[j], names[k]);
            }
        }
        assert(all[at + (k + 1)] == own[k + 1]);
        lemma_value_at(all, at, at + k + 1, names[k], values[k]);
    }
    if categorical_splits(nodes, nodes.len()) > 0 {
        let v0 = spaced(Seq::new(categorical_splits(nodes, nodes.len()) + 1, |i: int| decimal((8 * i) as nat)));
        let v1 = spaced(category_words(nodes, binners, nodes.len()));
        assert(own[15] == lines[14] && lines[14] == sets[0]);
        assert(own[16] == lines[15] && lines[15] == sets[1]);
        assert forall|i: int| at <= i < at + 15 implies !starts(#[trigger] all[i], "cat_boundaries="@) && !starts(
            all[i],
            "cat_threshold="@,
        ) by {
            assert(all[at + (i - at)] == own[i - at]);
            if i == at {
                lemma_apart("Tree="@, decimal(number), "cat_boundaries="@);
                lemma_apart("Tree="@, decimal(number), "cat_threshold="@);
            } else {
                let j = i - at - 1;
                assert(own[j + 1] == names[j] + values[j]);
                assert(apart(names[j], "cat_boundaries="@));
                lemma_apart(names[j], values[j], "cat_boundaries="@);
                lemma_apart(names[j], values[j], "cat_threshold="@);
            }
        }
        assert(all[at + 15] == own[15]);
        assert(all[at + 16] == own[16]);
        lemma_apart("cat_boundaries="@, v0, "cat_threshold="@);
        lemma_value_at(all, at, at + 15, "cat_boundaries="@, v0);
        lemma_value_at(all, at, at + 16, "cat_threshold="@, v1);
    }
}

/// A tree's text counts its leaves and its categorical splits, and says nothing of gains, weights
/// and counts: zeros stand for them, one for each split or leaf.
#[verifier::rlimit(30)]
pub proof fn law_trees_are_counted(
    objective: Seq<char>,
    names: Seq<Seq<char>>,
    binners: Seq<BinnerView>,
    base: Double,
    trees: Seq<Seq<NodeView>>,
    shown: Seq<Seq<char>>,
    t: int,
)
    requires
        plain_texts(objective, names, shown),
        shown.len() == count_numbers(trees, trees.len()),
        0 <= t <= trees.len(),
    ensures
        ({
            let all = lines(model_text(objective, names, binners, trees, shown));
            let nodes = part_nodes(base, trees, t);
            let splits = internals(nodes, nodes.len());
            let leaves = (nodes.len() - splits) as nat;
            &&& line_of_title(all, 0, "Tree="@ + decimal(t as nat)) matches Some(at) && {
                &&& value_of_name(all, at, "num_leaves="@) matches Some(v) && read_number(v) == leaves
                &&& value_of_name(all, at, "num_cat="@) matches Some(v) && read_number(v) == categorical_splits(
                    nodes,
                    nodes.len(),
                )
                &&& value_of_name(all, at, "split_gain="@) matches Some(v) && words(v, ' ') == Seq::new(splits, |i: int| "0"@)
                &&& value_of_name(all, at, "leaf_weight="@) matches Some(v) && words(v, ' ') == Seq::new(leaves, |i: int| "0"@)
                &&& value_of_name(all, at, "leaf_count="@) matches Some(v) && words(v, ' ') == Seq::new(leaves, |i: int| "0"@)
                &&& value_of_name(all, at, "internal_value="@) matches Some(v) && words(v, ' ') == Seq::new(
                    splits,
                    |i: int| "0"@,
                )
                &&& value_of_name(all, at, "internal_weight="@) matches Some(v) && words(v, ' ') == Seq::new(
                    splits,
                    |i: int| "0"@,
                )
                &&& value_of_name(all, at, "internal_count="@) matches Some(v) && words(v, ' ') == Seq::new(
                    splits,
                    |i: int| "0"@,
                )
            }
        }),
{
    let nodes = part_nodes(base, trees, t);
    let own = part_shown(trees, shown, t);
    let all = model_lines(objective, names, binners, base, trees, shown);
    lemma_model_lines(objective, names, binners, base, trees, shown);
    lemma_model_one_line(objective, names, binners, base, trees, shown);
    law_lines_are_read_back(all);
    let at = lemma_part_found(objective, names, binners, base, trees, shown, t);
    lemma_part_shown(base, trees, shown, t);
    lemma_values_found(all, at, t as nat, nodes, binners, own);
    lemma_tree_words(nodes, binners, own);
    let keys = tree_names();
    assert(keys[0] == "num_leaves="@);
    assert(keys[1] == "num_cat="@);
    assert(keys[3] == "split_gain="@);
    assert(keys[9] == "leaf_weight="@);
    assert(keys[10] == "leaf_count="@);
    assert(keys[11] == "internal_value="@);
    assert(keys[12] == "internal_weight="@);
    assert(keys[13] == "internal_count="@);
}

/// The text ends with the parameters, which name the objective once more.
pub proof fn law_footer_names_the_objective(
    objective: Seq<char>,
    names: Seq<Seq<char>>,
    binners: Seq<BinnerView>,
    trees: Seq<Seq<NodeView>>,
    shown: Seq<Seq<char>>,
)
    requires
        plain_texts(objective, names, shown),
        shown.len() == count_numbers(trees, trees.len()),
    ensures
        ({
            let all = lines(model_text(objective, names, binners, trees, shown));
            let n = all.len() as int;
            &&& n >= 10
            &&& all[n - 10] == "end of trees"@
            &&& all[n - 8] == "parameters:"@
            &&& all[n - 7] == "[boosting: gbdt]"@
            &&& all[n - 6] == "[objective: "@ + objective + "]"@
            &&& all[n - 5] == "[num_class: 1]"@
            &&& all[n - 4] == "[num_tree_per_iteration: 1]"@
            &&& all[n - 3] == "end of parameters"@
            &&& all[n - 1] == "pandas_categorical:null"@
            &&& all[0] == "tree"@
            &&& all[2] == "num_class=1"@
            &&& all[3] == "num_tree_per_iteration=1"@
            &&& all[4] == "label_index=0"@
        }),
{
    let base = Double::zero_spec();
    let all = model_lines(objective, names, binners, base, trees, shown);
    lemma_model_lines(objective, names, binners, base, trees, shown);
    lemma_model_one_line(objective, names, binners, base, trees, shown);
    law_lines_are_read_back(all);
    let end = footer_lines(objective);
    let front = (all.len() - end.len()) as int;
    assert(all.skip(front) =~= end);
    assert forall|k: int| 0 <= k < 10 implies #[trigger] end[k] == all[front + k] by {
        assert(all.skip(front)[k] == all[front + k]);
    }
    let head = all.take(11);
    assert(head[0] == all[0] && head[2] == all[2] && head[3] == all[3] && head[4] == all[4]);
}

} // verus!
