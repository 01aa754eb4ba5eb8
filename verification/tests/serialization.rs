use rgbm::bin::FeatureBinner;
use rgbm::booster::Booster;
use rgbm::column::{Batch, Column};
use rgbm::dataset::Dataset;
use rgbm::double::Double;
use rgbm::objective::Gaussian;
use rgbm::parameters::{BoosterParameters, DatasetParameters};
use rgbm::split::Threshold;
use rgbm::tree::{Node, Tree};

fn double(x: f64) -> Double {
    Double { bits: x.to_bits() }
}

fn show(x: Double) -> String {
    format!("{}", f64::from_bits(x.bits))
}

const BASE: &str = "Tree=0
num_leaves=1
num_cat=0
split_feature=
split_gain=
threshold=
decision_type=
left_child=
right_child=
leaf_value=3
leaf_weight=0
leaf_count=0
internal_value=
internal_weight=
internal_count=
is_linear=0
shrinkage=1


";

const TREE: &str = "Tree=1
num_leaves=2
num_cat=0
split_feature=0
split_gain=0
threshold=1.5000000000000002
decision_type=8
left_child=-1
right_child=-2
leaf_value=-1 1
leaf_weight=0 0
leaf_count=0 0
internal_value=0
internal_weight=0
internal_count=0
is_linear=0
shrinkage=1


";

const TRAILER: &str = "end of trees

parameters:
[boosting: gbdt]
[objective: regression]
[num_class: 1]
[num_tree_per_iteration: 1]
end of parameters

pandas_categorical:null
";

#[test]
fn a_fitted_stump_is_written() {
    let batch = Batch {
        names: vec!["größe".to_string()],
        columns: vec![Column::Float64((0..4).map(|i| Some(double(i as f64))).collect())],
        num_rows: 4,
    };
    let labels = [1.0, 1.0, 5.0, 5.0].iter().map(|&y| double(y)).collect();
    let params = DatasetParameters { min_data_in_bin: 1, ..DatasetParameters::default() };
    let dataset = Dataset::from_arrow(&batch, &labels, None, None, &params, None);
    let mut booster = Booster::new(
        BoosterParameters {
            num_iterations: 1,
            learning_rate: double(0.5),
            max_leaves: 2,
            min_sum_hessian_in_leaf: double(0.0),
            ..BoosterParameters::default()
        },
        Gaussian,
    );
    booster.fit(&dataset, None);
    let header = format!(
        "tree
version=v4
num_class=1
num_tree_per_iteration=1
label_index=0
max_feature_idx=0
objective=regression
feature_names=größe
feature_infos=[-inf:inf]
tree_sizes={} {}

",
        BASE.len(),
        TREE.len()
    );
    assert_eq!(booster.model_to_string(show), format!("{header}{BASE}{TREE}{TRAILER}"));
    let numbers: Vec<String> = booster.model_numbers().iter().map(|&x| show(x)).collect();
    assert_eq!(numbers, ["3", "1.5000000000000002", "-1", "1"]);
    assert_eq!(booster.model_text(&numbers), booster.model_to_string(show));
}

#[test]
fn categorical_splits_are_written_as_bit_sets() {
    let values: Vec<Option<String>> = (0..70).map(|i| Some(format!("c{i}"))).collect();
    let wide = FeatureBinner::new(
        &Column::Dictionary { keys: vec![Some(0)], values },
        255,
        1,
        0,
    );
    let narrow = FeatureBinner::new(
        &Column::Dictionary {
            keys: vec![Some(0)],
            values: vec![Some("a".to_string()), Some("b".to_string()), Some("c".to_string())],
        },
        255,
        1,
        0,
    );
    let numeric = FeatureBinner::Numerical(vec![double(0.25), double(f64::INFINITY)]);
    let mut sides = vec![false; 71];
    for k in [0, 31, 32, 65] {
        sides[k] = true;
    }
    let tree = Tree {
        nodes: vec![
            Node::Internal {
                left_child: 1,
                right_child: 4,
                split_feature: 1,
                threshold: Threshold::Categorical(vec![true, false, true, true]),
            },
            Node::Internal {
                left_child: 2,
                right_child: 3,
                split_feature: 0,
                threshold: Threshold::Numeric { bin: 0, missing_goes_left: true },
            },
            Node::Leaf { value: double(0.5) },
            Node::Leaf { value: double(-1.5) },
            Node::Internal {
                left_child: 6,
                right_child: 5,
                split_feature: 2,
                threshold: Threshold::Categorical(sides),
            },
            Node::Leaf { value: double(2.0) },
            Node::Leaf { value: double(1e-300) },
        ],
    };
    let binners = vec![numeric, narrow, wide];
    let shown: Vec<String> = ["0", "0.25", "1", "0.5", "-1.5", "2", "tiny"].iter().map(|s| s.to_string()).collect();
    let mut text = String::from("before\n");
    tree.write_to_string(&mut text, &binners, &shown);
    assert_eq!(
        text,
        "before
num_leaves=4
num_cat=2
split_feature=1 0 2
split_gain=0 0 0
threshold=0 0.25 1
decision_type=11 10 9
left_child=1 -1 -4
right_child=2 -2 -3
leaf_value=0.5 -1.5 2 tiny
leaf_weight=0 0 0 0
leaf_count=0 0 0 0
internal_value=0 0 0
internal_weight=0 0 0
internal_count=0 0 0
cat_boundaries=0 8 16
cat_threshold=5 0 0 0 0 0 0 0 2147483649 1 2 0 0 0 0 0
is_linear=0
shrinkage=1
"
    );
    let booster = Booster {
        parameters: BoosterParameters::default(),
        objective: Gaussian,
        trees: vec![tree],
        base_score: double(3.0),
        feature_binners: binners,
        feature_names: vec!["x".to_string(), "y".to_string(), "z".to_string()],
    };
    let model = booster.model_to_string(show);
    let many: Vec<String> = (0..70).map(|i| i.to_string()).collect();
    assert!(model.contains(&format!("feature_infos=[-inf:inf] -1:0:1:2 -1:{}\n", many.join(":"))));
    assert!(model.contains("max_feature_idx=2\n"));
    assert!(model.contains("feature_names=x y z\n"));
    let numbers: Vec<f64> = booster.model_numbers().iter().map(|x| f64::from_bits(x.bits)).collect();
    assert_eq!(numbers, [3.0, 0.0, 0.25, 1.0, 0.5, -1.5, 2.0, 1e-300]);
}

#[test]
fn tree_sizes_are_the_bytes_of_the_trees() {
    let booster = Booster {
        parameters: BoosterParameters::default(),
        objective: Gaussian,
        trees: (0..11).map(|i| Tree { nodes: vec![Node::Leaf { value: double(i as f64) }] }).collect(),
        base_score: double(3.0),
        feature_binners: vec![FeatureBinner::Numerical(vec![double(f64::INFINITY)])],
        feature_names: vec!["x".to_string()],
    };
    let model = booster.model_to_string(show);
    let start = model.find("tree_sizes=").unwrap() + "tree_sizes=".len();
    let line = model[start..].lines().next().unwrap();
    let sizes: Vec<usize> = line.split(' ').map(|s| s.parse().unwrap()).collect();
    assert_eq!(sizes.len(), 12);
    let mut at = model.find("Tree=0\n").unwrap();
    for (i, size) in sizes.iter().enumerate() {
        assert!(model[at..].starts_with(&format!("Tree={i}\n")));
        at += size;
    }
    assert!(model[at..].starts_with("end of trees\n"));
    assert!(model.contains("Tree=11\nnum_leaves=1\nnum_cat=0\nsplit_feature=\n"));
}
