//! Settings for binning and for boosting.

use vstd::prelude::*;

use crate::double::Double;

verus! {

/// How trees are grown and combined.
#[derive(Clone, Debug)]
pub struct BoosterParameters {
    pub num_iterations: usize,
    pub learning_rate: Double,
    pub max_depth: usize,
    pub max_leaves: usize,
    pub leaf_wise: bool,
    pub min_sum_hessian_in_leaf: Double,
    pub min_gain_to_split: Double,
    pub lambda_l1: Double,
    pub lambda_l2: Double,
    pub n_jobs: isize,
}

impl BoosterParameters {
    /// The same settings but for the number of threads.
    pub open spec fn same_but_threads(self, other: BoosterParameters) -> bool {
        other == (BoosterParameters { n_jobs: other.n_jobs, ..self })
    }
}

impl Default for BoosterParameters {
    /// A hundred trees of up to 31 leaves and depth 6, learning rate one tenth, at least a
    /// thousandth of hessian in each leaf, no regularisation, all processors.
    fn default() -> (p: Self)
        ensures
            p.num_iterations == 100,
            p.learning_rate == (Double { bits: 0x3FB9_9999_9999_999A }),
            p.max_depth == 6,
            p.max_leaves == 31,
            p.leaf_wise,
            p.min_sum_hessian_in_leaf == (Double { bits: 0x3F50_624D_D2F1_A9FC }),
            p.min_gain_to_split == Double::zero_spec(),
            p.lambda_l1 == Double::zero_spec(),
            p.lambda_l2 == Double::zero_spec(),
            p.n_jobs == -1,
    {
        BoosterParameters {
            num_iterations: 100,
            learning_rate: Double { bits: 0x3FB9_9999_9999_999A },
            max_depth: 6,
            max_leaves: 31,
            leaf_wise: true,
            min_sum_hessian_in_leaf: Double { bits: 0x3F50_624D_D2F1_A9FC },
            min_gain_to_split: Double::zero(),
            lambda_l1: Double::zero(),
            lambda_l2: Double::zero(),
            n_jobs: -1,
        }
    }
}

/// How features are binned.
#[derive(Clone, Debug)]
pub struct DatasetParameters {
    pub max_bin: usize,
    pub min_data_in_bin: usize,
    pub n_jobs: isize,
    pub seed: u64,
}

impl Default for DatasetParameters {
    fn default() -> (p: Self)
        ensures
            p.max_bin == 255,
            p.min_data_in_bin == 3,
            p.n_jobs == -1,
            p.seed == 0,
    {
        DatasetParameters { max_bin: 255, min_data_in_bin: 3, n_jobs: -1, seed: 0 }
    }
}

} // verus!
