use rgbm::bundle::unpack;
use rgbm::column::{Batch, Column};
use rgbm::dataset::Dataset;
use rgbm::double::{Double, Single};
use rgbm::parameters::{BoosterParameters, DatasetParameters};
use rgbm::partition::gather_grad_hess;
use rgbm::split::{calculate_score, SplitInfo, Threshold};
use rgbm::tree::{calculate_value, Node, Tree};
use rgbm::utils::build_thread_pool;

fn double(x: f64) -> Double {
    Double { bits: x.to_bits() }
}

fn single(x: f32) -> Single {
    Single { bits: x.to_bits() }
}

fn float(x: Double) -> f64 {
    f64::from_bits(x.bits)
}

fn leaf(value: f64) -> Node {
    Node::Leaf { value: double(value) }
}

fn numeric_split(feature: usize, bin: u8, left_child: usize, right_child: usize, missing_goes_left: bool) -> Node {
    Node::Internal {
        left_child: left_child as u32,
        right_child: right_child as u32,
        split_feature: feature as u32,
        threshold: Threshold::Numeric { bin, missing_goes_left },
    }
}

#[test]
fn test_predict_numeric_stump() {
    // bin <= 5 → -1.0, else → 1.0. Sentinel = 9; bit unset → missing → right.
    let tree = Tree { nodes: vec![numeric_split(0, 5, 1, 2, false), leaf(-1.0), leaf(1.0)] };
    let col0: &[u8] = &[3, 7];
    let cols = [col0];
    let sentinels = [9u8];
    assert_eq!(float(tree.predict_row(0, &cols, &sentinels)), -1.0); // bin 3 → left
    assert_eq!(float(tree.predict_row(1, &cols, &sentinels)), 1.0); // bin 7 → right
}

#[test]
fn test_predict_missing_goes_left() {
    let tree = Tree {
        nodes: vec![
            numeric_split(0, 5, 1, 2, true), // missing → left
            leaf(-1.0),
            leaf(1.0),
        ],
    };
    let col0: &[u8] = &[9]; // bin 9 = sentinel
    let cols = [col0];
    let sentinels = [9u8];
    assert_eq!(float(tree.predict_row(0, &cols, &sentinels)), -1.0);
}

#[test]
fn test_predict_categorical() {
    // categories 0 and 2 go left, category 1 goes right
    let tree = Tree {
        nodes: vec![
            Node::Internal {
                left_child: 1,
                right_child: 2,
                split_feature: 0,
                threshold: Threshold::Categorical(vec![true, false, true]),
            },
            leaf(-1.0),
            leaf(1.0),
        ],
    };
    let col0: &[u8] = &[0, 1, 2];
    let cols = [col0];
    let sentinels = [3u8]; // unused for categorical
    assert_eq!(float(tree.predict_row(0, &cols, &sentinels)), -1.0); // cat 0 → left
    assert_eq!(float(tree.predict_row(1, &cols, &sentinels)), 1.0); // cat 1 → right
    assert_eq!(float(tree.predict_row(2, &cols, &sentinels)), -1.0); // cat 2 → left
}

#[test]
fn only_what_lies_on_the_way_is_asked_for() {
    // Feature 0 parts the rows; feature 1 is asked for on the right, feature 2 nowhere.
    let tree = Tree {
        nodes: vec![
            Node::Internal {
                left_child: 1,
                right_child: 2,
                split_feature: 0,
                threshold: Threshold::Categorical(vec![true, false]),
            },
            leaf(-1.0),
            numeric_split(1, 3, 3, 4, false),
            leaf(1.0),
            leaf(2.0),
        ],
    };
    let (col0, col1, col2): (&[u8], &[u8], &[u8]) = (&[1, 1, 0], &[2, 7], &[]);
    let cols = [col0, col1, col2];
    assert_eq!(float(tree.predict_row(0, &cols, &[9, 9])), 1.0);
    assert_eq!(float(tree.predict_row(1, &cols, &[9, 9])), 2.0);
    // Neither the second column nor a bin of missing values is needed here.
    assert_eq!(float(tree.predict_row(2, &cols, &[])), -1.0);
}

fn numbers(values: &[f64]) -> Column {
    Column::Float64(values.iter().map(|&x| Some(double(x))).collect())
}

fn one_column(values: &[f64]) -> Dataset {
    let batch = Batch { names: vec!["x".to_string()], columns: vec![numbers(values)], num_rows: values.len() };
    let labels = vec![double(0.0); values.len()];
    let params = DatasetParameters { min_data_in_bin: 1, ..DatasetParameters::default() };
    Dataset::from_arrow(&batch, &labels, None, None, &params, None)
}

fn bin_at_most(bin: u8) -> SplitInfo {
    SplitInfo {
        gain: double(1.0),
        threshold: Threshold::Numeric { bin, missing_goes_left: false },
        feature_index: 0,
        left_gradient: double(0.0),
        left_hessian: double(0.0),
        right_gradient: double(0.0),
        right_hessian: double(0.0),
    }
}

#[test]
fn test_partition_indices_numeric() {
    // 10 rows, 1 numeric feature. Build dataset, then partition by bin <= some threshold.
    let values: Vec<f64> = (0..10).map(|i| i as f64).collect();
    let dataset = one_column(&values);

    // Build a bin <= 4 split. Bins 0..=4 go left, others right.
    let split = bin_at_most(4);

    let tree = Tree::new(1);
    let mut indices: Vec<u32> = (0..10).collect();
    let mut left_buf = vec![0u32; 10];
    let mut right_buf = vec![0u32; 10];
    let mut flags = vec![false; 10];

    let n_left =
        tree.partition_indices(&dataset, &mut indices, &split, &mut left_buf, &mut right_buf, None, &mut flags);

    // Left rows must have feature-bin <= 4; right rows must have bin > 4.
    let bundle = &dataset.feature_bundles[0];
    for &row in &indices[..n_left] {
        assert!((bundle.packed_bins[row as usize] & 0xFF) as u8 <= 4, "left row has bin > 4");
    }
    for &row in &indices[n_left..] {
        assert!((bundle.packed_bins[row as usize] & 0xFF) as u8 > 4, "right row has bin <= 4");
    }
    assert_eq!(n_left + (10 - n_left), 10);
}

#[test]
fn test_predict_deep_tree() {
    // f0 splits at bin 5; if left, f1 splits at bin 5
    // [f0=3, f1=3]→-2, [f0=3, f1=7]→-1, [f0=7,*]→1
    let tree = Tree {
        nodes: vec![
            numeric_split(0, 5, 1, 4, false),
            numeric_split(1, 5, 2, 3, false),
            leaf(-2.0),
            leaf(-1.0),
            leaf(1.0),
        ],
    };
    let c0: &[u8] = &[3, 3, 7];
    let c1: &[u8] = &[3, 7, 3];
    let cols = [c0, c1];
    let sentinels = [9u8, 9u8];
    assert_eq!(float(tree.predict_row(0, &cols, &sentinels)), -2.0);
    assert_eq!(float(tree.predict_row(1, &cols, &sentinels)), -1.0);
    assert_eq!(float(tree.predict_row(2, &cols, &sentinels)), 1.0);
}

#[test]
fn partition_is_stable_with_and_without_a_pool() {
    let n = 5000usize;
    let values: Vec<f64> = (0..n).map(|i| ((i * 7919) % 100) as f64).collect();
    let dataset = one_column(&values);
    let split = bin_at_most(30);
    let tree = Tree::new(1);
    let pool = build_thread_pool(3, 1).unwrap();
    let bins: Vec<u8> = dataset.feature_bundles[0].packed_bins.iter().map(|&w| unpack(w, 0)).collect();
    let mut expected: Vec<u32> = (0..n as u32).filter(|&r| bins[r as usize] <= 30).collect();
    let count = expected.len();
    expected.extend((0..n as u32).filter(|&r| bins[r as usize] > 30));
    for pool in [None, pool.as_ref()] {
        let mut indices: Vec<u32> = (0..n as u32).collect();
        let mut left = vec![u32::MAX; n];
        let mut right = vec![u32::MAX; n];
        let mut flags = vec![false; n];
        let n_left =
            tree.partition_indices(&dataset, &mut indices, &split, &mut left, &mut right, pool, &mut flags);
        assert_eq!(n_left, count);
        assert_eq!(indices, expected);
        assert_eq!(&left[..count], &expected[..count]);
        assert!(left[count..].iter().all(|&r| r == u32::MAX));
        assert_eq!(&right[..n - count], &expected[count..]);
        let written = pool.is_some();
        assert!((0..n).all(|r| flags[r] == (written && bins[r] <= 30)));
    }
}

#[test]
fn gradients_are_gathered_in_the_order_of_the_rows() {
    let n = 4000usize;
    let grad_hess: Vec<[Single; 2]> = (0..n).map(|i| [single(i as f32), single(1.0)]).collect();
    let rows: Vec<u32> = (0..3000u32).map(|i| (i * 37) % n as u32).collect();
    let pool = build_thread_pool(2, 1).unwrap();
    for pool in [None, pool.as_ref()] {
        let mut out = vec![[single(-1.0), single(-1.0)]; 3001];
        gather_grad_hess(&grad_hess, &rows, &mut out, pool);
        assert!((0..3000).all(|i| out[i] == grad_hess[rows[i] as usize]));
        assert_eq!(out[3000], [single(-1.0), single(-1.0)]);
    }
}

#[test]
fn leaf_values_and_scores_follow_their_formulas() {
    let value = |g: f64, h: f64, l1: f64, l2: f64| float(calculate_value(double(g), double(h), double(l1), double(l2)));
    assert_eq!(value(6.0, 2.0, 0.0, 1.0), -2.0);
    assert_eq!(value(-6.0, 2.0, 0.0, 1.0), 2.0);
    assert_eq!(value(6.0, 2.0, 1.5, 1.0), -1.5);
    assert_eq!(value(-6.0, 2.0, 1.5, 1.0), 1.5);
    assert_eq!(value(1.0, 2.0, 1.5, 1.0), 0.0);
    let score = |g: f64, h: f64, l1: f64, l2: f64| float(calculate_score(double(g), double(h), double(l1), double(l2)));
    assert_eq!(score(6.0, 2.0, 0.0, 1.0), 12.0);
    assert_eq!(score(-6.0, 2.0, 2.0, 2.0), 4.0);
    assert_eq!(score(1.0, 2.0, 2.0, 2.0), 0.0);
}

#[test]
fn small_gradients_give_zero() {
    for (g, l1) in [(0.0, 0.0), (-0.0, 0.0), (1.5, 1.5), (-1.5, 1.5), (0.25, 3.0), (-2.0, f64::INFINITY)] {
        assert_eq!(float(calculate_value(double(g), double(2.0), double(l1), double(1.0))), 0.0);
        assert_eq!(float(calculate_score(double(g), double(2.0), double(l1), double(1.0))), 0.0);
    }
}

#[test]
fn leaf_values_cost_least_and_scores_are_what_they_save() {
    for (g, h, l1, l2) in [(6.0, 2.0, 0.0, 1.0), (-6.0, 2.0, 1.5, 1.0), (9.0, 3.0, 1.0, 1.0), (-0.5, 4.0, 1.0, 0.0)] {
        let cost = |w: f64| 0.5 * (h + l2) * w * w + g * w + l1 * w.abs();
        let v = float(calculate_value(double(g), double(h), double(l1), double(l2)));
        let s = float(calculate_score(double(g), double(h), double(l1), double(l2)));
        for k in -400..=400 {
            assert!(cost(v) <= cost(k as f64 / 64.0));
        }
        assert_eq!(s, (h + l2) * v * v);
        assert_eq!(cost(v), -0.5 * s);
    }
}

#[test]
fn rounded_leaf_values_and_scores_are_near() {
    let part = 2.0f64.powi(-53);
    for (g, h, l1, l2) in [(1.0, 3.0, 0.0, 0.1), (-0.7, 1.3, 0.2, 0.3), (1e10, 7.0, 3.0, 1e-9), (-5.5, 0.1, 0.1, 0.2)] {
        let g: f64 = g;
        let v = float(calculate_value(double(g), double(h), double(l1), double(l2)));
        let s = float(calculate_score(double(g), double(h), double(l1), double(l2)));
        let exact = (g.abs() - l1) / (h + l2);
        assert!(v.signum() == -g.signum());
        assert!((v.abs() - exact).abs() <= 8.0 * part * exact);
        assert!((s - (h + l2) * v * v).abs() <= 22.0 * part * s);
    }
}

fn parameters(max_leaves: usize, max_depth: usize, leaf_wise: bool) -> BoosterParameters {
    BoosterParameters {
        max_leaves,
        max_depth,
        leaf_wise,
        learning_rate: double(1.0),
        min_sum_hessian_in_leaf: double(0.0),
        ..BoosterParameters::default()
    }
}

/// Depth of each node, and the number of leaves.
fn depths(tree: &Tree) -> (Vec<usize>, usize) {
    let mut depth = vec![0usize; tree.nodes.len()];
    let mut leaves = 0;
    for (i, node) in tree.nodes.iter().enumerate() {
        match node {
            Node::Leaf { .. } => leaves += 1,
            Node::Internal { left_child, right_child, .. } => {
                assert!(i < *left_child as usize && i < *right_child as usize);
                depth[*left_child as usize] = depth[i] + 1;
                depth[*right_child as usize] = depth[i] + 1;
            }
        }
    }
    (depth, leaves)
}

#[test]
fn rows_stand_in_the_leaves_that_they_reach() {
    let n = 3000usize;
    let a: Vec<f64> = (0..n).map(|i| ((i * 7919) % 997) as f64).collect();
    let b: Vec<f64> = (0..n).map(|i| if i % 11 == 0 { f64::NAN } else { ((i * 104_729) % 613) as f64 }).collect();
    let keys: Vec<Option<usize>> = (0..n).map(|i| if i % 13 == 0 { None } else { Some((i * 31) % 5) }).collect();
    let values: Vec<Option<String>> = (0..5).map(|i| Some(format!("c{i}"))).collect();
    let batch = Batch {
        names: vec!["a".to_string(), "b".to_string(), "c".to_string()],
        columns: vec![numbers(&a), numbers(&b), Column::Dictionary { keys: keys.clone(), values }],
        num_rows: n,
    };
    let labels = vec![double(0.0); n];
    let dataset = Dataset::from_arrow(&batch, &labels, None, None, &DatasetParameters::default(), None);
    let grad_hess: Vec<[Single; 2]> = (0..n)
        .map(|i| {
            let c = keys[i].unwrap_or(9) as f64;
            let g = (a[i] / 100.0).sin() + if b[i].is_nan() { 2.0 } else { b[i] / 300.0 } + c * 0.3;
            [single(g as f32), single(1.0)]
        })
        .collect();
    let columns: Vec<Vec<u8>> = (0..3).map(|f| dataset.feature_binners[f].apply(&batch.columns[f])).collect();
    let refs: Vec<&[u8]> = columns.iter().map(|c| c.as_slice()).collect();
    let sentinels: Vec<u8> = dataset.feature_binners.iter().map(|b| (b.num_bins() - 1) as u8).collect();
    let pool = build_thread_pool(2, 1).unwrap();
    for leaf_wise in [true, false] {
        let p = parameters(20, 4, leaf_wise);
        let mut tree = Tree::new(20);
        let leaves = tree.fit(&dataset, &grad_hess, &p, None);
        let (depth, count) = depths(&tree);
        assert!(count > 4 && count <= 20);
        assert!(depth.iter().all(|&d| d <= 4));
        assert_eq!(tree.nodes.len(), 2 * count - 1);
        let mut parents = vec![0usize; tree.nodes.len()];
        for node in &tree.nodes {
            if let Node::Internal { left_child, right_child, .. } = node {
                assert_ne!(left_child, right_child);
                parents[*left_child as usize] += 1;
                parents[*right_child as usize] += 1;
            }
        }
        assert!(parents[0] == 0 && parents[1..].iter().all(|&k| k == 1));
        for row in 0..n {
            assert_eq!(tree.nodes[leaves[row] as usize].value(), tree.predict_row(row, &refs, &sentinels));
        }
        // A pool changes nothing.
        let mut other = Tree::new(20);
        assert_eq!(other.fit(&dataset, &grad_hess, &p, pool.as_ref()), leaves);
        assert_eq!(other.nodes.len(), tree.nodes.len());
        for row in 0..n {
            assert_eq!(other.predict_row(row, &refs, &sentinels), tree.predict_row(row, &refs, &sentinels));
        }
    }
}

#[test]
fn one_leaf_or_no_depth_leaves_the_root_alone() {
    let dataset = one_column(&[0.0, 1.0, 2.0, 3.0]);
    let grad_hess: Vec<[Single; 2]> = (0..4).map(|i| [single(i as f32 - 1.0), single(1.0)]).collect();
    for (max_leaves, max_depth) in [(0usize, 6usize), (1, 6), (31, 0)] {
        let mut tree = Tree::new(max_leaves);
        let leaves = tree.fit(&dataset, &grad_hess, &parameters(max_leaves, max_depth, true), None);
        assert_eq!(leaves, vec![0, 0, 0, 0]);
        assert_eq!(tree.nodes.len(), 1);
        // The gradients sum up to 2 and the hessians to 4.
        assert_eq!(float(tree.nodes[0].value()), -0.5);
    }
}

#[test]
fn a_step_is_found_and_fitted() {
    let dataset = one_column(&[0.0, 1.0, 2.0, 3.0]);
    let grad_hess: Vec<[Single; 2]> =
        [1.0f32, 1.0, -3.0, -3.0].iter().map(|&g| [single(g), single(1.0)]).collect();
    let mut tree = Tree::new(2);
    let leaves = tree.fit(&dataset, &grad_hess, &parameters(2, 6, true), None);
    assert_eq!(leaves, vec![1, 1, 2, 2]);
    assert_eq!(float(tree.nodes[1].value()), -1.0);
    assert_eq!(float(tree.nodes[2].value()), 3.0);
    assert!(matches!(
        &tree.nodes[0],
        Node::Internal { left_child: 1, right_child: 2, split_feature: 0, threshold: Threshold::Numeric { bin: 1, .. } }
    ));
}

#[test]
fn leaves_are_split_by_gain_or_by_depth() {
    let dataset = one_column(&[0.0, 1.0, 2.0, 3.0, 4.0, 5.0, 6.0, 7.0]);
    let gradients = [140.0f32, 120.0, 80.0, 60.0, -101.0, -100.0, -99.0, -100.0];
    let grad_hess: Vec<[Single; 2]> = gradients.iter().map(|&g| [single(g), single(1.0)]).collect();
    // The root parts the first half from the second; then the first half gains most.
    let mut tree = Tree::new(4);
    // Its two halves gain the same, and more than the second half: the later one is split.
    assert_eq!(tree.fit(&dataset, &grad_hess, &parameters(4, 6, true), None), vec![3, 3, 5, 6, 2, 2, 2, 2]);
    // The second half is less deep than the halves of the first.
    assert_eq!(tree.fit(&dataset, &grad_hess, &parameters(4, 6, false), None), vec![3, 3, 4, 4, 5, 6, 6, 6]);
    assert_eq!(tree.nodes.len(), 7);
}

#[test]
fn light_leaves_are_not_split() {
    let dataset = one_column(&[0.0, 1.0, 2.0, 3.0]);
    let grad_hess: Vec<[Single; 2]> =
        [4.0f32, 2.0, -2.0, -4.0].iter().map(|&g| [single(g), single(1.0)]).collect();
    let least = |h: f64| BoosterParameters { min_sum_hessian_in_leaf: double(h), ..parameters(31, 6, true) };
    let mut tree = Tree::new(31);
    assert_eq!(tree.fit(&dataset, &grad_hess, &least(2.0), None), vec![1, 1, 2, 2]);
    assert_eq!(tree.fit(&dataset, &grad_hess, &least(2.5), None), vec![0, 0, 0, 0]);
    tree.fit(&dataset, &grad_hess, &least(1.0), None);
    assert_eq!(tree.nodes.len(), 7);
}
