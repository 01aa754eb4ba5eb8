//! Gradient boosting on binned features.

pub mod accuracy;
pub mod arithmetic;
pub mod bin;
pub mod binning;
pub mod booster;
pub mod boosting;
pub mod bounds;
pub mod bundle;
pub mod categories;
pub mod column;
pub mod dataset;
pub mod double;
pub mod exact;
pub mod fixed;
pub mod growth;
pub mod histogram;
pub mod leaves;
pub mod lightgbm;
pub mod modelfile;
pub mod objective;
pub mod odds;
pub mod order;
pub mod parameters;
pub mod partition;
pub mod reading;
pub mod rounding;
pub mod rows;
pub mod sampling;
pub mod segments;
pub mod serialization;
pub mod sides;
pub mod split;
pub mod subsets;
pub mod text;
pub mod tree;
pub mod utils;
