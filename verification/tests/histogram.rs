use rgbm::bundle::FeatureBundle;
use rgbm::double::{Double, Single};
use rgbm::histogram::{HistogramBin, Histograms};
use rgbm::parameters::BoosterParameters;
use rgbm::split::{SplitInfo, Threshold};
use rgbm::utils::build_thread_pool;

fn double(x: f64) -> Double {
    Double { bits: x.to_bits() }
}

fn float(x: Double) -> f64 {
    f64::from_bits(x.bits)
}

fn single(x: f32) -> Single {
    Single { bits: x.to_bits() }
}

fn bin(g: f64, h: f64) -> HistogramBin {
    HistogramBin { sum_gradients: double(g), sum_hessians: double(h) }
}

fn parameters() -> BoosterParameters {
    BoosterParameters { min_sum_hessian_in_leaf: double(1.0), ..BoosterParameters::default() }
}

fn totals(bins: &[HistogramBin]) -> (Double, Double) {
    let g: f64 = bins.iter().map(|b| float(b.sum_gradients)).sum();
    let h: f64 = bins.iter().map(|b| float(b.sum_hessians)).sum();
    (double(g), double(h))
}

fn numeric(bins: &[HistogramBin], p: &BoosterParameters) -> Option<SplitInfo> {
    let (g, h) = totals(bins);
    Histograms::find_best_numeric_split(bins, g, h, double(0.0), p)
}

fn categorical(bins: &[HistogramBin], p: &BoosterParameters) -> Option<SplitInfo> {
    let (g, h) = totals(bins);
    Histograms::find_best_categorical_split(bins, g, h, double(0.0), p)
}

fn numeric_rule(split: &SplitInfo) -> (u8, bool) {
    match &split.threshold {
        Threshold::Numeric { bin, missing_goes_left } => (*bin, *missing_goes_left),
        Threshold::Categorical(_) => unreachable!(),
    }
}

fn categorical_rule(split: &SplitInfo) -> Vec<bool> {
    match &split.threshold {
        Threshold::Categorical(goes_left) => goes_left.clone(),
        Threshold::Numeric { .. } => unreachable!(),
    }
}

/// Nine features with five bins each, the last a bundle of its own.
fn bundles(rows: usize) -> Vec<FeatureBundle> {
    let word = |row: usize, count: usize, seed: usize| {
        (0..count).fold(0u64, |w, s| w | ((((row * (seed + s + 3)) % 5) as u64) << (8 * s)))
    };
    vec![
        FeatureBundle {
            packed_bins: (0..rows).map(|r| word(r, 8, 0)).collect(),
            num_bins: vec![5; 8],
            is_categorical: vec![false, true, false, false, false, false, false, true],
            count: 8,
        },
        FeatureBundle {
            packed_bins: (0..rows).map(|r| word(r, 1, 8)).collect(),
            num_bins: vec![5],
            is_categorical: vec![false],
            count: 1,
        },
    ]
}

#[test]
fn empty_histograms_are_laid_out_by_feature() {
    let h = Histograms::zeros(&bundles(3));
    assert_eq!(h.offsets, (0..10).map(|f| 5 * f).collect::<Vec<_>>());
    assert_eq!(h.is_categorical, vec![false, true, false, false, false, false, false, true, false]);
    assert_eq!(h.bins.len(), 45);
    assert!(h.bins.iter().all(|b| b.sum_gradients == double(0.0) && b.sum_hessians == double(0.0)));
}

#[test]
fn histograms_hold_the_sums_of_their_rows() {
    let rows = 200;
    let bundles = bundles(rows);
    let indices: Vec<u32> = (0..rows as u32).filter(|r| r % 3 != 0).collect();
    let grad_hess: Vec<[Single; 2]> =
        indices.iter().map(|&r| [single((r as f32 * 0.37).sin()), single(0.1 + r as f32)]).collect();
    let pool = build_thread_pool(2, 1).unwrap();
    let h = Histograms::build(&bundles, &grad_hess, &indices, None);
    let parallel = Histograms::build(&bundles, &grad_hess, &indices, pool.as_ref());
    let mut expected = vec![[0.0f64; 2]; 45];
    for (i, &row) in indices.iter().enumerate() {
        for f in 0..9 {
            let b = (bundles[f / 8].packed_bins[row as usize] >> (8 * (f % 8))) & 0xFF;
            expected[5 * f + b as usize][0] += f32::from_bits(grad_hess[i][0].bits) as f64;
            expected[5 * f + b as usize][1] += f32::from_bits(grad_hess[i][1].bits) as f64;
        }
    }
    for k in 0..45 {
        assert_eq!(float(h.bins[k].sum_gradients), expected[k][0]);
        assert_eq!(float(h.bins[k].sum_hessians), expected[k][1]);
        assert_eq!(h.bins[k].sum_gradients, parallel.bins[k].sum_gradients);
        assert_eq!(h.bins[k].sum_hessians, parallel.bins[k].sum_hessians);
    }
}

#[test]
fn building_adds_to_what_is_there() {
    let bundles = bundles(4);
    let mut bins = vec![bin(1.0, 2.0); 46];
    let grad_hess = vec![[single(0.5), single(1.0)]; 4];
    Histograms::build_into(&bundles[0], &grad_hess, &[0, 1, 2, 3], &mut bins);
    // Row 0 is in bin 0 of every feature; no other row is in bin 0 of the first one.
    assert_eq!(float(bins[0].sum_gradients), 1.5);
    assert_eq!(float(bins[0].sum_hessians), 3.0);
    // The bins behind those of the bundle stay as they were.
    for k in 40..46 {
        assert_eq!(float(bins[k].sum_gradients), 1.0);
    }
    let total: f64 = bins[..40].iter().map(|b| float(b.sum_hessians)).sum();
    assert_eq!(total, 80.0 + 32.0);
}

#[test]
fn subtraction_leaves_the_other_rows() {
    let bundles = bundles(6);
    let gh: Vec<[Single; 2]> = (0..6).map(|i| [single(i as f32), single(1.0)]).collect();
    let mut all = Histograms::build(&bundles, &gh, &[0, 1, 2, 3, 4, 5], None);
    let some = Histograms::build(&bundles, &gh[..3], &[0, 1, 2], None);
    let rest = Histograms::build(&bundles, &gh[3..], &[3, 4, 5], None);
    all.subtract(&some);
    for k in 0..45 {
        assert_eq!(float(all.bins[k].sum_gradients), float(rest.bins[k].sum_gradients));
        assert_eq!(float(all.bins[k].sum_hessians), float(rest.bins[k].sum_hessians));
    }
}

#[test]
fn a_numeric_split_parts_the_gradients() {
    let split = numeric(&[bin(3.0, 1.0), bin(3.0, 1.0), bin(-6.0, 1.0), bin(0.0, 0.0)], &parameters()).unwrap();
    // Nothing is missing, so missing values follow the heavier side.
    assert_eq!(numeric_rule(&split), (1, true));
    assert_eq!(float(split.gain), 36.0 / 2.0 + 36.0);
    assert_eq!(float(split.left_gradient), 6.0);
    assert_eq!(float(split.left_hessian), 2.0);
    assert_eq!(float(split.right_gradient), -6.0);
    assert_eq!(float(split.right_hessian), 1.0);
    assert_eq!(split.feature_index, 0);
}

#[test]
fn missing_values_go_where_they_gain_most() {
    let p = parameters();
    let left = numeric(&[bin(4.0, 1.0), bin(-4.0, 1.0), bin(4.0, 1.0)], &p).unwrap();
    assert_eq!(numeric_rule(&left), (0, true));
    let right = numeric(&[bin(4.0, 1.0), bin(-4.0, 1.0), bin(-4.0, 1.0)], &p).unwrap();
    assert_eq!(numeric_rule(&right), (0, false));
    // All numbers on one side, missing values on the other.
    let apart = numeric(&[bin(4.0, 1.0), bin(4.0, 1.0), bin(-9.0, 1.0)], &p).unwrap();
    assert_eq!(numeric_rule(&apart), (1, false));
    // The two bins are the one of numbers and the one of missing values.
    let two = numeric(&[bin(4.0, 1.0), bin(-4.0, 1.0)], &p).unwrap();
    assert_eq!(numeric_rule(&two), (0, false));
}

#[test]
fn of_equal_numeric_splits_the_first_is_taken() {
    let split = numeric(&[bin(1.0, 1.0), bin(0.0, 0.0), bin(-1.0, 1.0), bin(0.0, 0.0)], &parameters()).unwrap();
    assert_eq!(numeric_rule(&split), (0, false));
}

#[test]
fn there_may_be_no_split() {
    let p = parameters();
    // One bin of numbers, nothing missing.
    assert!(numeric(&[bin(4.0, 3.0), bin(0.0, 0.0)], &p).is_none());
    assert!(numeric(&[bin(0.0, 0.0)], &p).is_none());
    assert!(numeric(&[bin(1.0, 1.0)], &p).is_none());
    // A side would be too light.
    assert!(numeric(&[bin(4.0, 0.5), bin(-4.0, 3.0), bin(0.0, 0.0)], &p).is_none());
    // The gain is not above the least gain.
    let greedy = BoosterParameters { min_gain_to_split: double(32.0), ..parameters() };
    assert!(numeric(&[bin(4.0, 1.0), bin(-4.0, 1.0), bin(0.0, 0.0)], &greedy).is_none());
    assert!(numeric(&[bin(4.0, 1.0), bin(-4.0, 1.0), bin(0.0, 0.0)], &p).is_some());
    // One category with rows.
    assert!(categorical(&[bin(4.0, 3.0), bin(0.0, 0.0), bin(0.0, 0.0)], &p).is_none());
}

#[test]
fn categories_are_parted_by_their_ratios() {
    // Ratios 3, -2, 2 and, for missing values, -1; one category has no rows.
    let bins = [bin(3.0, 1.0), bin(-2.0, 1.0), bin(4.0, 2.0), bin(0.0, 0.0), bin(-1.0, 1.0)];
    let split = categorical(&bins, &parameters()).unwrap();
    // By rising ratio: 1, 4 (missing), 2, 0. The best cut is in the middle; the category
    // without rows follows the heavier side, which is the right one.
    assert_eq!(categorical_rule(&split), vec![false, true, false, false, true]);
    assert_eq!(float(split.left_gradient), -3.0);
    assert_eq!(float(split.left_hessian), 2.0);
    assert_eq!(float(split.gain), 9.0 / 2.0 + 49.0 / 3.0);
    // With the heavier side on the left, it goes left.
    let bins = [bin(3.0, 1.0), bin(-2.0, 2.0), bin(0.0, 0.0), bin(0.0, 0.0)];
    assert_eq!(categorical_rule(&categorical(&bins, &parameters()).unwrap()), vec![false, true, true, true]);
}

#[test]
fn the_best_feature_is_split_and_the_first_of_equal_ones() {
    let quiet = [bin(1.0, 1.0), bin(-1.0, 1.0), bin(0.0, 0.0)];
    let loud = [bin(5.0, 1.0), bin(-5.0, 1.0), bin(0.0, 0.0)];
    let make = |features: &[&[HistogramBin; 3]]| Histograms {
        bins: features.iter().flat_map(|f| f.iter().copied()).collect(),
        offsets: (0..=features.len()).map(|f| 3 * f).collect(),
        is_categorical: vec![false; features.len()],
    };
    let pool = build_thread_pool(2, 1).unwrap();
    let p = parameters();
    let best = |h: &Histograms, pool: Option<&rayon::ThreadPool>| {
        h.find_best_split(double(0.0), double(2.0), double(0.0), &p, pool).map(|s| s.feature_index)
    };
    for pool in [None, pool.as_ref()] {
        assert_eq!(best(&make(&[&quiet, &loud, &quiet]), pool), Some(1));
        assert_eq!(best(&make(&[&quiet, &loud, &loud]), pool), Some(1));
        assert_eq!(best(&make(&[]), pool), None);
        let nothing = [bin(2.0, 2.0), bin(0.0, 0.0), bin(0.0, 0.0)];
        assert_eq!(best(&make(&[&nothing]), pool), None);
    }
}

#[test]
fn regularisation_shrinks_scores() {
    let p = BoosterParameters { lambda_l1: double(1.0), lambda_l2: double(1.0), ..parameters() };
    let split = numeric(&[bin(5.0, 1.0), bin(-5.0, 1.0), bin(0.0, 0.0)], &p).unwrap();
    assert_eq!(float(split.gain), 8.0 + 8.0);
}

#[test]
fn categories_are_ordered_without_regularisation() {
    let bins = [bin(-9000.0, 1000.0), bin(2.0, 1.0), bin(5.0, 10.0), bin(11000.0, 1000.0), bin(0.0, 0.0)];
    let p = BoosterParameters { lambda_l2: double(10.0), ..BoosterParameters::default() };
    let split = categorical(&bins, &p).unwrap();
    assert_eq!(&categorical_rule(&split)[..4], &[true, false, true, false]);
    assert!((float(split.gain) - 199050.56).abs() < 0.01);
    // No other subset of the categories gains more.
    let score = |g: f64, h: f64| g * g / (h + 10.0);
    for subset in 0..16 {
        let picked = (0..4).filter(|k| subset >> k & 1 == 1);
        let (g, h) = picked.fold((0.0, 0.0), |(g, h), k: usize| {
            (g + float(bins[k].sum_gradients), h + float(bins[k].sum_hessians))
        });
        assert!(score(g, h) + score(2007.0 - g, 2011.0 - h) <= float(split.gain) + 1e-6);
    }
}

#[test]
fn no_subset_of_the_categories_is_better() {
    // Powers of two, so that every score is exact.
    let bins = [bin(6.0, 2.0), bin(-10.0, 2.0), bin(-2.0, 2.0), bin(14.0, 2.0), bin(0.0, 0.0)];
    for (l1, l2) in [(0.0, 0.0), (2.0, 0.0), (0.0, 4.0), (1.0, 8.0)] {
        let p = BoosterParameters {
            lambda_l1: double(l1),
            lambda_l2: double(l2),
            min_sum_hessian_in_leaf: double(0.0),
            ..BoosterParameters::default()
        };
        let score = |g: f64, h: f64| {
            let d = (g.abs() - l1).max(0.0);
            d * d / (h + l2)
        };
        let split = categorical(&bins, &p).unwrap();
        let best = score(float(split.left_gradient), float(split.left_hessian))
            + score(float(split.right_gradient), float(split.right_hessian));
        assert_eq!(float(split.gain), best);
        for subset in 1..15 {
            let picked = (0..4).filter(|k| subset >> k & 1 == 1);
            let (g, h) = picked.fold((0.0, 0.0), |(g, h), k: usize| {
                (g + float(bins[k].sum_gradients), h + float(bins[k].sum_hessians))
            });
            assert!(score(g, h) + score(8.0 - g, 8.0 - h) <= best);
        }
    }
}
