//! Gradient boosting: trees that each correct what the trees before them got wrong.

use vstd::prelude::*;

use crate::bin::{law_bins_in_range, FeatureBinner};
use crate::column::{Batch, Column};
use crate::dataset::{apply_binners, copy_names, Dataset};
use crate::double::{Double, Single};
use crate::growth::{grown, law_threads_change_no_tree};
use crate::objective::{weights_view, Objective};
use crate::parameters::BoosterParameters;
use crate::segments::lemma_row_bins_fit;
use crate::tree::{law_every_row_reaches_a_leaf, leaf_of, row_bins, tree_wf, NodeView, Tree, MAX_LEAVES, MAX_NODES};
use crate::utils::parallel_map;

verus! {

/// A boosted model.
pub struct Booster<O: Objective> {
    pub parameters: BoosterParameters,
    pub objective: O,
    pub trees: Vec<Tree>,
    pub base_score: Double,
    pub feature_binners: Vec<FeatureBinner>,
    pub feature_names: Vec<String>,
}

/// The weights of a dataset.
pub open spec fn dataset_weights(d: &Dataset) -> Option<Seq<Double>> {
    match d.weights {
        Some(w) => Some(w@),
        None => None,
    }
}

/// The gradients and hessians of all rows at the given scores.
pub open spec fn gradients<O: Objective>(objective: &O, d: &Dataset, scores: Seq<Double>) -> Seq<[Single; 2]> {
    Seq::new(
        d.num_rows as nat,
        |i: int|
            objective.grad_hess_spec(
                d.labels@[i],
                scores[i],
                match d.weights {
                    Some(w) => w@[i],
                    None => Double::one_spec(),
                },
            ),
    )
}

/// The scores with the value of each row's leaf added.
pub open spec fn advanced(d: &Dataset, nodes: Seq<NodeView>, scores: Seq<Double>) -> Seq<Double> {
    Seq::new(
        d.num_rows as nat,
        |i: int| scores[i].plus_spec(nodes[d.leaf_of_row(nodes, i)->0 as int]->value),
    )
}

/// The trees after `n` iterations, and the scores of the training rows.
pub open spec fn boosted<O: Objective>(objective: &O, d: &Dataset, p: BoosterParameters, n: nat) -> (
    Seq<Seq<NodeView>>,
    Seq<Double>,
)
    decreases n,
{
    if n == 0 {
        (
            Seq::empty(),
            Seq::new(
                d.num_rows as nat,
                |i: int| objective.initial_score_spec(d.labels@, dataset_weights(d)),
            ),
        )
    } else {
        let (trees, scores) = boosted(objective, d, p, (n - 1) as nat);
        let nodes = grown(d, gradients(objective, d, scores), p);
        (trees.push(nodes), advanced(d, nodes, scores))
    }
}

/// The contents of trees.
pub open spec fn tree_views(trees: Seq<Tree>) -> Seq<Seq<NodeView>> {
    trees.map_values(|t: Tree| t@)
}

/// The score of a row after the first `n` trees.
pub open spec fn score_after(base: Double, trees: Seq<Seq<NodeView>>, bins: Seq<u8>, sentinels: Seq<u8>, n: nat) -> Double
    decreases n,
{
    if n == 0 {
        base
    } else {
        let nodes = trees[n - 1];
        score_after(base, trees, bins, sentinels, (n - 1) as nat).plus_spec(
            nodes[leaf_of(nodes, bins, sentinels)->0 as int]->value,
        )
    }
}

impl<O: Objective> Booster<O> {
    /// The number of bins of each feature.
    pub open spec fn bin_counts(&self) -> Seq<nat> {
        Seq::new(self.feature_binners@.len(), |f: int| self.feature_binners@[f]@.num_bins())
    }

    /// Which features are categorical.
    pub open spec fn kinds(&self) -> Seq<bool> {
        Seq::new(self.feature_binners@.len(), |f: int| self.feature_binners@[f]@ is Categorical)
    }

    /// The bins of missing values.
    pub open spec fn sentinels(&self) -> Seq<u8> {
        Seq::new(self.feature_binners@.len(), |f: int| (self.feature_binners@[f]@.num_bins() - 1) as u8)
    }

    /// The bins of a row of a batch. Columns beyond the features are left out.
    pub open spec fn batch_bins(&self, batch: &Batch, row: int) -> Seq<u8> {
        Seq::new(
            if self.feature_binners@.len() <= batch.columns@.len() { self.feature_binners@.len() } else { batch.columns@.len() },
            |f: int| self.feature_binners@[f]@.bins(batch.columns@[f]@)[row],
        )
    }

    /// The score of a row of a batch.
    pub open spec fn score(&self, batch: &Batch, row: int) -> Double {
        score_after(
            self.base_score,
            tree_views(self.trees@),
            self.batch_bins(batch, row),
            self.sentinels(),
            self.trees@.len(),
        )
    }

    /// Binners in working order, and trees over their bins.
    pub open spec fn wf(&self) -> bool {
        &&& forall|f: int| 0 <= f < self.feature_binners@.len() ==> (#[trigger] self.feature_binners@[f])@.wf()
        &&& forall|t: int| 0 <= t < self.trees@.len() ==> tree_wf(
            (#[trigger] self.trees@[t])@,
            self.bin_counts(),
            self.kinds(),
        )
        &&& forall|t: int| 0 <= t < self.trees@.len() ==> (#[trigger] self.trees@[t])@.len() <= MAX_NODES
    }

    /// The columns of a batch are of the kinds that the binners are for.
    pub open spec fn fits(&self, batch: &Batch) -> bool {
        &&& batch.wf()
        &&& forall|f: int|
            0 <= f < self.feature_binners@.len() ==> {
                &&& (#[trigger] self.feature_binners@[f])@.usable()
                &&& f < batch.columns@.len() ==> self.feature_binners@[f]@.fits(batch.columns@[f]@)
            }
    }

    /// Every row of a batch reaches a leaf in every tree.
    pub open spec fn reaches(&self, batch: &Batch) -> bool {
        forall|row: int, t: int|
            0 <= row < batch.num_rows && 0 <= t < self.trees@.len() ==> #[trigger] leaf_of(
                self.trees@[t]@,
                self.batch_bins(batch, row),
                self.sentinels(),
            ) is Some
    }

    /// A model without trees.
    pub fn new(parameters: BoosterParameters, objective: O) -> (b: Self)
        ensures
            b.parameters == parameters,
            b.objective == objective,
            b.trees@.len() == 0,
            b.base_score == Double::zero_spec(),
            b.feature_binners@.len() == 0,
            b.feature_names@.len() == 0,
            b.wf(),
    {
        Booster {
            parameters,
            objective,
            trees: Vec::new(),
            base_score: Double::zero(),
            feature_binners: Vec::new(),
            feature_names: Vec::new(),
        }
    }
}

/// Adds to each score the value of the row's leaf.
fn add_leaf_values(tree: &Tree, leaf_indices: &Vec<u32>, scores: Vec<Double>, pool: Option<&rayon::ThreadPool>) -> (r: Vec<
    Double,
>)
    requires
        leaf_indices@.len() == scores@.len(),
        forall|i: int|
            0 <= i < leaf_indices@.len() ==> (#[trigger] leaf_indices@[i]) < tree@.len()
                && tree@[leaf_indices@[i] as int] is Leaf,
    ensures
        r@.len() == scores@.len(),
        forall|i: int|
            0 <= i < r@.len() ==> #[trigger] r@[i] == scores@[i].plus_spec(tree@[leaf_indices@[i] as int]->value),
{
    let n = scores.len();
    match pool {
        Some(pool) => {
            let f = |i: usize| -> (score: Double)
                requires
                    i < scores@.len(),
                    i < leaf_indices@.len(),
                    leaf_indices@[i as int] < tree@.len(),
                    tree@[leaf_indices@[i as int] as int] is Leaf,
                ensures
                    score == scores@[i as int].plus_spec(tree@[leaf_indices@[i as int] as int]->value),
            { scores[i].plus(tree.nodes[leaf_indices[i] as usize].value()) };
            parallel_map(pool, n, f)
        },
        None => {
            let mut r: Vec<Double> = Vec::with_capacity(n);
            for i in 0..n
                invariant
                    n == scores@.len(),
                    leaf_indices@.len() == n,
                    forall|i: int|
                        0 <= i < leaf_indices@.len() ==> (#[trigger] leaf_indices@[i]) < tree@.len()
                            && tree@[leaf_indices@[i] as int] is Leaf,
                    r@.len() == i,
                    forall|k: int|
                        0 <= k < i ==> #[trigger] r@[k] == scores@[k].plus_spec(
                            tree@[leaf_indices@[k] as int]->value,
                        ),
            {
                let leaf = leaf_indices[i] as usize;
                r.push(scores[i].plus(tree.nodes[leaf].value()));
            }
            r
        },
    }
}

/// Copies of binners.
fn copy_binners(binners: &Vec<FeatureBinner>) -> (r: Vec<FeatureBinner>)
    ensures
        r@.len() == binners@.len(),
        forall|f: int| 0 <= f < binners@.len() ==> (#[trigger] r@[f])@ == binners@[f]@,
{
    let n = binners.len();
    let mut r: Vec<FeatureBinner> = Vec::with_capacity(n);
    for f in 0..n
        invariant
            n == binners@.len(),
            r@.len() == f,
            forall|k: int| 0 <= k < f ==> (#[trigger] r@[k])@ == binners@[k]@,
    {
        r.push(binners[f].clone());
    }
    r
}

impl<O: Objective> Booster<O> {
    /// Fits the model to a dataset: starting from the objective's initial score, each
    /// iteration grows a tree on the gradients at the scores so far, and adds to the scores
    /// what the tree says.
    pub fn fit(&mut self, dataset: &Dataset, pool: Option<&rayon::ThreadPool>)
        requires
            dataset.wf(),
            dataset.num_rows <= u32::MAX,
            dataset.feature_binners@.len() <= u32::MAX,
            dataset.num_rows <= dataset.labels@.len(),
            dataset.weights matches Some(w) ==> dataset.num_rows <= w@.len(),
            old(self).parameters.max_leaves <= MAX_LEAVES,
        ensures
            final(self).parameters == old(self).parameters,
            final(self).objective == old(self).objective,
            final(self).base_score == old(self).objective.initial_score_spec(dataset.labels@, dataset_weights(dataset)),
            tree_views(final(self).trees@) == boosted(
                &old(self).objective,
                dataset,
                old(self).parameters,
                old(self).parameters.num_iterations as nat,
            ).0,
            final(self).trees@.len() == old(self).parameters.num_iterations,
            final(self).feature_binners@.len() == dataset.feature_binners@.len(),
            forall|f: int|
                0 <= f < dataset.feature_binners@.len() ==> (#[trigger] final(self).feature_binners@[f])@
                    == dataset.feature_binners@[f]@,
            final(self).feature_names@.len() == dataset.feature_names@.len(),
            forall|f: int|
                0 <= f < dataset.feature_names@.len() ==> (#[trigger] final(self).feature_names@[f])@
                    == dataset.feature_names@[f]@,
            final(self).wf(),
    {
        let num_rows = dataset.num_rows;
        self.feature_binners = copy_binners(&dataset.feature_binners);
        self.feature_names = copy_names(&dataset.feature_names);
        let labels = dataset.labels.as_slice();
        let weights: Option<&[Double]> = match &dataset.weights {
            Some(w) => Some(w.as_slice()),
            None => None,
        };
        self.base_score = self.objective.initial_score(labels, weights);
        let mut scores: Vec<Double> = vec![self.base_score; num_rows];
        let mut grad_hess: Vec<[Single; 2]> = vec![[Single { bits: 0 }, Single { bits: 0 }]; num_rows];
        self.trees.clear();
        let ghost objective = self.objective;
        let ghost p = self.parameters;
        let iterations = self.parameters.num_iterations;
        proof {
            assert(weights_view(weights) == dataset_weights(dataset));
            assert(scores@ =~= boosted(&objective, dataset, p, 0).1);
            assert(tree_views(self.trees@) =~= boosted(&objective, dataset, p, 0).0);
            assert(self.bin_counts() =~= dataset.bin_counts());
            assert(self.kinds() =~= dataset.kinds());
        }
        for n in 0..iterations
            invariant
                dataset.wf(),
                num_rows == dataset.num_rows <= u32::MAX,
                dataset.feature_binners@.len() <= u32::MAX,
                num_rows <= dataset.labels@.len(),
                dataset.weights matches Some(w) ==> num_rows <= w@.len(),
                p.max_leaves <= MAX_LEAVES,
                labels@ == dataset.labels@,
                weights is Some == dataset.weights is Some,
                weights matches Some(w) ==> w@ == dataset.weights->0@,
                self.parameters == p,
                self.objective == objective,
                self.base_score == objective.initial_score_spec(dataset.labels@, dataset_weights(dataset)),
                self.feature_binners@.len() == dataset.feature_binners@.len(),
                forall|f: int|
                    0 <= f < dataset.feature_binners@.len() ==> (#[trigger] self.feature_binners@[f])@
                        == dataset.feature_binners@[f]@,
                self.feature_names@.len() == dataset.feature_names@.len(),
                forall|f: int|
                    0 <= f < dataset.feature_names@.len() ==> (#[trigger] self.feature_names@[f])@
                        == dataset.feature_names@[f]@,
                self.bin_counts() == dataset.bin_counts(),
                self.kinds() == dataset.kinds(),
                self.trees@.len() == n,
                forall|t: int| 0 <= t < n ==> tree_wf(
                    (#[trigger] self.trees@[t])@,
                    dataset.bin_counts(),
                    dataset.kinds(),
                ),
                forall|t: int| 0 <= t < n ==> (#[trigger] self.trees@[t])@.len() <= MAX_NODES,
                (tree_views(self.trees@), scores@) == boosted(&objective, dataset, p, n as nat),
                scores@.len() == num_rows,
                grad_hess@.len() == num_rows,
        {
            let ghost before = self.trees@;
            self.objective.gradient_hessian(labels, scores.as_slice(), weights, grad_hess.as_mut_slice(), pool);
            assert(grad_hess@ =~= gradients(&objective, dataset, scores@));
            let mut tree = Tree::new(self.parameters.max_leaves);
            let leaf_indices = tree.fit(dataset, &grad_hess, &self.parameters, pool);
            proof {
                assert forall|i: int| 0 <= i < leaf_indices@.len() implies (#[trigger] leaf_indices@[i]) < tree@.len()
                    && tree@[leaf_indices@[i] as int] is Leaf by {
                    lemma_row_bins_fit(dataset, i);
                    law_every_row_reaches_a_leaf(
                        tree@,
                        dataset.bin_counts(),
                        dataset.kinds(),
                        dataset.row_bins(i),
                        dataset.sentinels(),
                    );
                    assert(dataset.leaf_of_row(tree@, i) == Some(leaf_indices@[i] as nat));
                }
            }
            let ghost old_scores = scores@;
            scores = add_leaf_values(&tree, &leaf_indices, scores, pool);
            proof {
                assert forall|i: int| 0 <= i < num_rows implies #[trigger] scores@[i] == advanced(
                    dataset,
                    tree@,
                    old_scores,
                )[i] by {
                    assert(dataset.leaf_of_row(tree@, i) == Some(leaf_indices@[i] as nat));
                }
                assert(scores@ =~= advanced(dataset, tree@, old_scores));
            }
            self.trees.push(tree);
            proof {
                assert(tree_views(self.trees@) =~= tree_views(before).push(tree@));
            }
        }
    }
}

impl<O: Objective> Booster<O> {
    /// The score of a row, given its bins by column.
    fn score_row(&self, row: usize, columns: &[&[u8]], sentinels: &[u8]) -> (score: Double)
        requires
            forall|f: int| 0 <= f < columns@.len() ==> row < (#[trigger] columns@[f])@.len(),
            forall|t: int|
                0 <= t < self.trees@.len() ==> leaf_of(
                    (#[trigger] self.trees@[t])@,
                    row_bins(columns@, row as int),
                    sentinels@,
                ) is Some,
        ensures
            score == score_after(
                self.base_score,
                tree_views(self.trees@),
                row_bins(columns@, row as int),
                sentinels@,
                self.trees@.len(),
            ),
    {
        let mut score = self.base_score;
        for t in 0..self.trees.len()
            invariant
                forall|f: int| 0 <= f < columns@.len() ==> row < (#[trigger] columns@[f])@.len(),
                forall|t: int|
                    0 <= t < self.trees@.len() ==> leaf_of(
                        (#[trigger] self.trees@[t])@,
                        row_bins(columns@, row as int),
                        sentinels@,
                    ) is Some,
                score == score_after(
                    self.base_score,
                    tree_views(self.trees@),
                    row_bins(columns@, row as int),
                    sentinels@,
                    t as nat,
                ),
        {
            score = score.plus(self.trees[t].predict_row(row, columns, sentinels));
        }
        score
    }

    /// The predictions for the rows of a batch. With a pool, each row is a task of its own.
    pub fn predict(&self, batch: &Batch, pool: Option<&rayon::ThreadPool>) -> (predictions: Vec<Double>)
        requires
            self.fits(batch),
            self.reaches(batch),
        ensures
            predictions@.len() == batch.num_rows,
            forall|row: int|
                0 <= row < batch.num_rows ==> #[trigger] predictions@[row] == self.objective.prediction_spec(
                    self.score(batch, row),
                ),
    {
        let num_binners = self.feature_binners.len();
        let num_columns = batch.columns.len();
        let n = if num_binners <= num_columns { num_binners } else { num_columns };
        let bins = apply_binners(&self.feature_binners, &batch.columns, n, None);
        let mut columns: Vec<&[u8]> = Vec::with_capacity(n);
        for f in 0..n
            invariant
                n == bins@.len(),
                columns@.len() == f,
                forall|k: int| 0 <= k < f ==> (#[trigger] columns@[k])@ == bins@[k]@,
        {
            columns.push(bins[f].as_slice());
        }
        let mut sentinels: Vec<u8> = Vec::with_capacity(num_binners);
        for f in 0..num_binners
            invariant
                num_binners == self.feature_binners@.len(),
                forall|k: int| 0 <= k < num_binners ==> (#[trigger] self.feature_binners@[k])@.usable(),
                sentinels@.len() == f,
                forall|k: int| 0 <= k < f ==> #[trigger] sentinels@[k] == self.sentinels()[k],
        {
            sentinels.push((self.feature_binners[f].num_bins() - 1) as u8);
        }
        let num_rows = batch.num_rows;
        assert(sentinels@ =~= self.sentinels());
        assert forall|row: int| 0 <= row < num_rows implies #[trigger] row_bins(columns@, row) == self.batch_bins(
            batch,
            row,
        ) by {
            assert(row_bins(columns@, row) =~= self.batch_bins(batch, row));
        }
        assert forall|row: int, t: int| 0 <= row < num_rows && 0 <= t < self.trees@.len() implies leaf_of(
            (#[trigger] self.trees@[t])@,
            #[trigger] row_bins(columns@, row),
            sentinels@,
        ) is Some by {
            assert(leaf_of(self.trees@[t]@, self.batch_bins(batch, row), self.sentinels()) is Some);
        }
        let scores = match pool {
            Some(pool) => {
                let f = |row: usize| -> (score: Double)
                    requires
                        forall|f: int| 0 <= f < columns@.len() ==> row < (#[trigger] columns@[f])@.len(),
                        forall|t: int|
                            0 <= t < self.trees@.len() ==> leaf_of(
                                (#[trigger] self.trees@[t])@,
                                row_bins(columns@, row as int),
                                sentinels@,
                            ) is Some,
                    ensures
                        score == score_after(
                            self.base_score,
                            tree_views(self.trees@),
                            row_bins(columns@, row as int),
                            sentinels@,
                            self.trees@.len(),
                        ),
                { self.score_row(row, columns.as_slice(), sentinels.as_slice()) };
                parallel_map(pool, num_rows, f)
            },
            None => {
                let mut scores: Vec<Double> = Vec::with_capacity(num_rows);
                for row in 0..num_rows
                    invariant
                        forall|f: int| 0 <= f < columns@.len() ==> num_rows <= (#[trigger] columns@[f])@.len(),
                        forall|row: int, t: int|
                            0 <= row < num_rows && 0 <= t < self.trees@.len() ==> leaf_of(
                                (#[trigger] self.trees@[t])@,
                                #[trigger] row_bins(columns@, row),
                                sentinels@,
                            ) is Some,
                        scores@.len() == row,
                        forall|k: int|
                            0 <= k < row ==> #[trigger] scores@[k] == score_after(
                                self.base_score,
                                tree_views(self.trees@),
                                row_bins(columns@, k),
                                sentinels@,
                                self.trees@.len(),
                            ),
                {
                    scores.push(self.score_row(row, columns.as_slice(), sentinels.as_slice()));
                }
                scores
            },
        };
        let mut predictions: Vec<Double> = Vec::with_capacity(num_rows);
        for row in 0..num_rows
            invariant
                num_rows == batch.num_rows,
                scores@.len() == num_rows,
                forall|k: int| 0 <= k < num_rows ==> #[trigger] scores@[k] == self.score(batch, k),
                predictions@.len() == row,
                forall|k: int|
                    0 <= k < row ==> #[trigger] predictions@[k] == self.objective.prediction_spec(self.score(batch, k)),
        {
            predictions.push(self.objective.prediction(scores[row]));
        }
        predictions
    }
}

/// A well-formed model predicts every batch whose columns are of the right kinds, as long as
/// it has a column for each feature.
pub proof fn law_fitted_model_predicts<O: Objective>(booster: &Booster<O>, batch: &Batch)
    requires
        booster.wf(),
        booster.fits(batch),
        booster.feature_binners@.len() <= batch.columns@.len(),
    ensures
        booster.reaches(batch),
{
    assert forall|row: int, t: int| 0 <= row < batch.num_rows && 0 <= t < booster.trees@.len() implies #[trigger] leaf_of(
        booster.trees@[t]@,
        booster.batch_bins(batch, row),
        booster.sentinels(),
    ) is Some by {
        let bins = booster.batch_bins(batch, row);
        assert forall|f: int| 0 <= f < bins.len() implies (#[trigger] bins[f]) < booster.bin_counts()[f] by {
            assert(booster.feature_binners@[f]@.wf());
            law_bins_in_range(booster.feature_binners@[f]@, batch.columns@[f]@);
        }
        law_every_row_reaches_a_leaf(
            booster.trees@[t]@,
            booster.bin_counts(),
            booster.kinds(),
            bins,
            booster.sentinels(),
        );
    }
}

impl<O: Objective> Booster<O> {
    /// Whether a batch has a column of the right kind for each feature, and so can be predicted.
    pub fn accepts(&self, batch: &Batch) -> (r: bool)
        requires
            self.wf(),
            batch.wf(),
        ensures
            r <==> self.feature_binners@.len() <= batch.columns@.len() && self.fits(batch),
            r ==> self.reaches(batch),
    {
        let n = self.feature_binners.len();
        if n > batch.columns.len() {
            return false;
        }
        for f in 0..n
            invariant
                n == self.feature_binners@.len() <= batch.columns@.len(),
                forall|k: int|
                    0 <= k < f ==> (#[trigger] self.feature_binners@[k])@.fits(batch.columns@[k]@),
        {
            let categorical = matches!(batch.columns[f], Column::Dictionary { .. });
            if self.feature_binners[f].is_categorical() != categorical {
                assert(!self.feature_binners@[f as int]@.fits(batch.columns@[f as int]@));
                return false;
            }
        }
        proof {
            assert forall|f: int| 0 <= f < n implies (#[trigger] self.feature_binners@[f])@.usable() by {
                assert(self.feature_binners@[f]@.wf());
            }
            law_fitted_model_predicts(self, batch);
        }
        true
    }
}

pub(crate) proof fn lemma_boosted_prefix<O: Objective>(objective: &O, d: &Dataset, p: BoosterParameters, m: nat, n: nat)
    requires
        m <= n,
    ensures
        boosted(objective, d, p, m).0.len() == m,
        boosted(objective, d, p, n).0.len() == n,
        forall|t: int| 0 <= t < m ==> #[trigger] boosted(objective, d, p, m).0[t] == boosted(objective, d, p, n).0[t],
    decreases n,
{
    if m < n {
        lemma_boosted_prefix(objective, d, p, m, (n - 1) as nat);
    } else if n > 0 {
        lemma_boosted_prefix(objective, d, p, (n - 1) as nat, (n - 1) as nat);
    }
}

pub(crate) proof fn lemma_training_score<O: Objective>(objective: &O, d: &Dataset, p: BoosterParameters, m: nat, n: nat, row: int)
    requires
        m <= n,
        0 <= row < d.num_rows,
    ensures
        score_after(
            objective.initial_score_spec(d.labels@, dataset_weights(d)),
            boosted(objective, d, p, n).0,
            d.row_bins(row),
            d.sentinels(),
            m,
        ) == boosted(objective, d, p, m).1[row],
    decreases m,
{
    if m > 0 {
        lemma_training_score(objective, d, p, (m - 1) as nat, n, row);
        lemma_boosted_prefix(objective, d, p, m, n);
        lemma_boosted_prefix(objective, d, p, (m - 1) as nat, (m - 1) as nat);
        assert(boosted(objective, d, p, m).0[m - 1] == boosted(objective, d, p, n).0[m - 1]);
    }
}

/// What a model predicts for the rows that it was fitted to are the predictions at the scores
/// that boosting ended with.
pub proof fn law_predictions_continue_training<O: Objective>(booster: &Booster<O>, d: &Dataset, batch: &Batch, n: nat, row: int)
    requires
        booster.base_score == booster.objective.initial_score_spec(d.labels@, dataset_weights(d)),
        tree_views(booster.trees@) == boosted(&booster.objective, d, booster.parameters, n).0,
        booster.feature_binners@.len() == d.feature_binners@.len(),
        forall|f: int|
            0 <= f < d.feature_binners@.len() ==> (#[trigger] booster.feature_binners@[f])@ == d.feature_binners@[f]@,
        batch.columns@.len() == d.feature_binners@.len(),
        batch.num_rows == d.num_rows,
        forall|row: int, f: int|
            0 <= row < d.num_rows && 0 <= f < batch.columns@.len() ==> #[trigger] d.bin(row, f)
                == d.feature_binners@[f]@.bins(batch.columns@[f]@)[row],
        0 <= row < d.num_rows,
    ensures
        booster.score(batch, row) == boosted(&booster.objective, d, booster.parameters, n).1[row],
{
    let o = &booster.objective;
    let p = booster.parameters;
    assert(booster.sentinels() =~= d.sentinels());
    assert forall|f: int| 0 <= f < d.feature_binners@.len() implies #[trigger] d.row_bins(row)[f] == booster.batch_bins(
        batch,
        row,
    )[f] by {
        assert(d.bin(row, f) == d.feature_binners@[f]@.bins(batch.columns@[f]@)[row]);
        assert(booster.feature_binners@[f]@ == d.feature_binners@[f]@);
    }
    assert(booster.batch_bins(batch, row) =~= d.row_bins(row));
    lemma_boosted_prefix(o, d, p, n, n);
    assert(booster.trees@.len() == tree_views(booster.trees@).len());
    lemma_training_score(o, d, p, n, n, row);
}

/// The trees and scores that boosting comes to do not depend on the number of threads.
pub proof fn law_threads_change_no_model<O: Objective>(
    objective: &O,
    d: &Dataset,
    p: BoosterParameters,
    q: BoosterParameters,
    n: nat,
)
    requires
        p.same_but_threads(q),
    ensures
        boosted(objective, d, p, n) == boosted(objective, d, q, n),
    decreases n,
{
    if n > 0 {
        law_threads_change_no_model(objective, d, p, q, (n - 1) as nat);
        let scores = boosted(objective, d, p, (n - 1) as nat).1;
        law_threads_change_no_tree(d, gradients(objective, d, scores), p, q);
    }
}

} // verus!
