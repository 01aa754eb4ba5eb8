use rgbm::booster::Booster;
use rgbm::column::{Batch, Column};
use rgbm::dataset::Dataset;
use rgbm::double::{Double, Single};
use rgbm::objective::{
    Gaussian, Logistic, Objective, ObjectiveKind, Poisson, Probit, GREATEST_RATE_BITS, HALF_BITS, HIGH_BITS, LEAST_RATE_BITS,
    LOW_BITS, MINUS_HALF_BITS, SQRT_HALF_BITS, SQRT_TWO_PI_BITS, TINY_BITS,
};
use rgbm::parameters::{BoosterParameters, DatasetParameters};
use rgbm::utils::build_thread_pool;

fn double(x: f64) -> Double {
    Double { bits: x.to_bits() }
}

fn float(x: Double) -> f64 {
    f64::from_bits(x.bits)
}

fn doubles(x: &[f64]) -> Vec<Double> {
    x.iter().map(|&x| double(x)).collect()
}

fn floats(x: &[Double]) -> Vec<f64> {
    x.iter().map(|&x| float(x)).collect()
}

struct LogisticLoss;

impl Objective for LogisticLoss {
    fn lgbm_name(&self) -> &str {
        "binary"
    }

    fn grad_hess(&self, label: Double, score: Double, weight: Double) -> [Single; 2] {
        Logistic::grad_hess(self.prediction(score), label, weight)
    }

    fn initial_score(&self, labels: &[Double], weights: Option<&[Double]>) -> Double {
        match Logistic::initial_odds(labels, weights) {
            Some(odds) => double(float(odds).ln()),
            None => double(0.0),
        }
    }

    fn prediction(&self, score: Double) -> Double {
        Logistic::probability(double((-float(score)).exp()))
    }
}

struct ProbitLoss;

impl Objective for ProbitLoss {
    fn lgbm_name(&self) -> &str {
        "binary"
    }

    fn grad_hess(&self, label: Double, score: Double, weight: Double) -> [Single; 2] {
        let pdf = Probit::pdf(double(float(Probit::pdf_argument(score)).exp()));
        Probit::grad_hess(self.prediction(score), pdf, label, weight)
    }

    fn initial_score(&self, _labels: &[Double], _weights: Option<&[Double]>) -> Double {
        double(0.0)
    }

    fn prediction(&self, score: Double) -> Double {
        Probit::cdf(double(libm::erfc(float(Probit::cdf_argument(score)))))
    }
}

fn make_batch(x: &[f64]) -> Batch {
    Batch {
        names: vec!["x".to_string()],
        columns: vec![Column::Float64(x.iter().map(|&x| Some(double(x))).collect())],
        num_rows: x.len(),
    }
}

fn make_dataset(x: Vec<f64>, y: Vec<f64>) -> (Dataset, Batch) {
    let batch = make_batch(&x);
    let params = DatasetParameters { min_data_in_bin: 1, ..DatasetParameters::default() };
    let dataset = Dataset::from_arrow(&batch, &doubles(&y), None, None, &params, None);
    (dataset, batch)
}

fn test_params() -> BoosterParameters {
    BoosterParameters { num_iterations: 20, min_sum_hessian_in_leaf: double(0.0), ..BoosterParameters::default() }
}

fn mse(preds: &[f64], labels: &[f64]) -> f64 {
    preds.iter().zip(labels).map(|(p, y)| (p - y).powi(2)).sum::<f64>() / labels.len() as f64
}

#[test]
fn test_base_score_is_mean() {
    let y = vec![0.0, 1.0, 2.0, 3.0];
    let (dataset, _) = make_dataset(vec![0.0, 1.0, 2.0, 3.0], y.clone());
    let mut booster = Booster::new(BoosterParameters { num_iterations: 0, ..test_params() }, Gaussian);
    booster.fit(&dataset, None);
    assert!((float(booster.base_score) - 1.5).abs() < 1e-10);
}

#[test]
fn test_fit_regression_reduces_mse() {
    let n = 200;
    let x: Vec<f64> = (0..n).map(|i| i as f64 / n as f64).collect();
    let y: Vec<f64> = x.iter().map(|&xi| 2.0 * xi + 1.0).collect();
    let (dataset, batch) = make_dataset(x, y.clone());

    let variance = y.iter().map(|&yi| (yi - 1.5f64).powi(2)).sum::<f64>() / n as f64;

    let mut booster = Booster::new(test_params(), Gaussian);
    booster.fit(&dataset, None);
    let preds = floats(&booster.predict(&batch, None));
    assert!(mse(&preds, &y) < variance * 0.01);
}

#[test]
fn test_fit_probit() {
    let n = 200;
    let x: Vec<f64> = (0..n).map(|i| i as f64 / n as f64).collect();
    let y: Vec<f64> = x.iter().map(|&xi| if xi > 0.5 { 1.0 } else { 0.0 }).collect();
    let (dataset, batch) = make_dataset(x, y.clone());

    let mut booster = Booster::new(test_params(), ProbitLoss);
    booster.fit(&dataset, None);
    let preds = floats(&booster.predict(&batch, None));

    let correct = preds.iter().zip(&y).filter(|&(&p, &yi)| (p > 0.5) == (yi > 0.5)).count();
    assert!(correct as f64 / n as f64 > 0.95);
}

fn logloss(preds: &[f64], labels: &[f64]) -> f64 {
    preds
        .iter()
        .zip(labels)
        .map(|(&p, &y)| {
            let p = p.clamp(1e-15, 1.0 - 1e-15);
            -(y * p.ln() + (1.0 - y) * (1.0 - p).ln())
        })
        .sum::<f64>()
        / labels.len() as f64
}

#[test]
fn test_fit_classification_reduces_logloss() {
    let n = 200;
    let x: Vec<f64> = (0..n).map(|i| i as f64 / n as f64).collect();
    let y: Vec<f64> = x.iter().map(|&xi| if xi > 0.5 { 1.0 } else { 0.0 }).collect();
    let (dataset, batch) = make_dataset(x, y.clone());

    let initial_p = y.iter().sum::<f64>() / n as f64;
    let initial_logloss = logloss(&vec![initial_p; n], &y);

    let mut booster = Booster::new(test_params(), LogisticLoss);
    booster.fit(&dataset, None);
    let preds = floats(&booster.predict(&batch, None));

    let final_logloss = logloss(&preds, &y);
    assert!(final_logloss < initial_logloss * 0.1);

    // also check accuracy as a sanity check
    let correct = preds.iter().zip(&y).filter(|&(&p, &yi)| (p > 0.5) == (yi > 0.5)).count();
    assert!(correct as f64 / n as f64 > 0.95);
}

#[test]
fn test_fit_weighted() {
    // Two points: (0, 0) and (1, 1).
    // If we weight (0, 0) heavily, the base score (mean) should be close to 0.
    // If we weight (1, 1) heavily, it should be close to 1.
    let batch = make_batch(&[0.0, 1.0]);
    let labels = doubles(&[0.0, 1.0]);
    let params = DatasetParameters { min_data_in_bin: 1, ..DatasetParameters::default() };

    // Weight first point heavily
    let weights1 = doubles(&[100.0, 1.0]);
    let ds1 = Dataset::from_arrow(&batch, &labels, Some(&weights1), None, &params, None);
    let mut booster1 = Booster::new(test_params(), Gaussian);
    booster1.fit(&ds1, None);
    assert!(float(booster1.base_score) < 0.1);

    // Weight second point heavily
    let weights2 = doubles(&[1.0, 100.0]);
    let ds2 = Dataset::from_arrow(&batch, &labels, Some(&weights2), None, &params, None);
    let mut booster2 = Booster::new(test_params(), Gaussian);
    booster2.fit(&ds2, None);
    assert!(float(booster2.base_score) > 0.9);
}

#[test]
fn a_pool_changes_no_prediction() {
    let n = 2500;
    let x: Vec<f64> = (0..n).map(|i| ((i * 7919) % 1009) as f64).collect();
    let y: Vec<f64> = x.iter().map(|&xi| (xi / 100.0).sin()).collect();
    let (dataset, batch) = make_dataset(x, y);
    let params = BoosterParameters { num_iterations: 3, ..test_params() };
    let pool = build_thread_pool(2, 1).unwrap();
    let mut alone = Booster::new(params.clone(), Gaussian);
    alone.fit(&dataset, None);
    let mut together = Booster::new(params, Gaussian);
    together.fit(&dataset, pool.as_ref());
    assert_eq!(alone.base_score, together.base_score);
    assert_eq!(alone.predict(&batch, None), together.predict(&batch, pool.as_ref()));
}

#[test]
fn predictions_are_the_training_scores() {
    // With one iteration, the score of a row is the base score plus its leaf's value.
    let (dataset, batch) = make_dataset(vec![0.0, 1.0, 2.0, 3.0], vec![1.0, 1.0, 5.0, 5.0]);
    let params = BoosterParameters {
        num_iterations: 1,
        learning_rate: double(0.5),
        max_leaves: 2,
        ..test_params()
    };
    let mut booster = Booster::new(params, Gaussian);
    booster.fit(&dataset, None);
    assert_eq!(float(booster.base_score), 3.0);
    assert_eq!(floats(&booster.predict(&batch, None)), vec![2.0, 2.0, 4.0, 4.0]);
    // Other numbers fall into the bins of the training data.
    assert_eq!(floats(&booster.predict(&make_batch(&[-7.0, 1.2, 1.8, 99.0]), None)), vec![2.0, 2.0, 4.0, 4.0]);
}

#[test]
fn a_second_fit_starts_afresh() {
    let (first, _) = make_dataset(vec![0.0, 1.0], vec![0.0, 1.0]);
    let (second, batch) = make_dataset(vec![0.0, 1.0], vec![4.0, 8.0]);
    let mut booster = Booster::new(test_params(), Gaussian);
    booster.fit(&first, None);
    booster.fit(&second, None);
    assert_eq!(booster.trees.len(), 20);
    assert_eq!(float(booster.base_score), 6.0);
    let mut fresh = Booster::new(test_params(), Gaussian);
    fresh.fit(&second, None);
    assert_eq!(booster.predict(&batch, None), fresh.predict(&batch, None));
}

#[test]
fn without_labels_scores_start_at_zero() {
    assert_eq!(float(Gaussian.initial_score(&[], None)), 0.0);
    assert_eq!(Logistic::initial_odds(&[], None), None);
    assert_eq!(Poisson::initial_rate(&[], None), None);
}

#[test]
fn means_without_weight_fall_back() {
    let labels = doubles(&[1.0, 3.0]);
    let none = doubles(&[0.0, 0.0]);
    assert_eq!(float(Gaussian.initial_score(&labels, Some(&none))), 0.0);
    assert_eq!(float(Logistic::initial_odds(&labels, Some(&none)).unwrap()), 1.0);
    assert_eq!(float(Poisson::initial_rate(&labels, Some(&none)).unwrap()), 1e-10);
    let weights = doubles(&[1.0, 3.0]);
    assert_eq!(float(Gaussian.initial_score(&labels, Some(&weights))), 2.5);
    assert_eq!(float(Poisson::initial_rate(&labels, Some(&weights)).unwrap()), 2.5);
    assert_eq!(float(Gaussian.initial_score(&labels, None)), 2.0);
}

#[test]
fn gradients_follow_their_formulas() {
    let bits = |gh: [Single; 2]| [f32::from_bits(gh[0].bits), f32::from_bits(gh[1].bits)];
    assert_eq!(bits(Gaussian.grad_hess(double(1.0), double(3.5), double(2.0))), [5.0, 2.0]);
    assert_eq!(float(Gaussian.prediction(double(3.5))), 3.5);
    assert_eq!(Gaussian.lgbm_name(), "regression");
    for (label, score, weight) in [(0.0, 0.3, 1.0), (1.0, -2.5, 0.7), (1.0, 40.0, 3.0)] {
        let (l, s, w) = (double(label), double(score), double(weight));
        let p = 1.0 / (1.0 + f64::exp(-score));
        let expected = [((p - label) * weight) as f32, ((p * (1.0 - p)).max(1e-16) * weight) as f32];
        assert_eq!(bits(LogisticLoss.grad_hess(l, s, w)), expected);

        let cdf = (0.5 * libm::erfc(-score * std::f64::consts::FRAC_1_SQRT_2)).clamp(1e-7, 1.0 - 1e-7);
        let phi = (-0.5 * score * score).exp() / (2.0 * std::f64::consts::PI).sqrt();
        let v = cdf * (1.0 - cdf);
        let expected = [(phi * (cdf - label) / v * weight) as f32, (phi * phi / v * weight).max(1e-16) as f32];
        assert_eq!(bits(ProbitLoss.grad_hess(l, s, w)), expected);

        let lambda = score.exp().min(1e30);
        let expected = [((lambda - label) * weight) as f32, (lambda * weight).max(1e-16) as f32];
        assert_eq!(bits(Poisson::grad_hess(double(score.exp()), l, w)), expected);
    }
    let infinite = bits(Poisson::grad_hess(double(f64::INFINITY), double(0.0), double(1.0)));
    assert_eq!(infinite, [1e30f64 as f32, 1e30f64 as f32]);
}

#[test]
fn constants_are_the_numbers_they_are_named_for() {
    assert_eq!(f64::from_bits(HALF_BITS), 0.5);
    assert_eq!(f64::from_bits(MINUS_HALF_BITS), -0.5);
    assert_eq!(f64::from_bits(LOW_BITS), 1e-7);
    assert_eq!(f64::from_bits(HIGH_BITS), 1.0 - 1e-7);
    assert_eq!(f64::from_bits(TINY_BITS), 1e-16);
    assert_eq!(f64::from_bits(GREATEST_RATE_BITS), 1e30);
    assert_eq!(f64::from_bits(LEAST_RATE_BITS), 1e-10);
    assert_eq!(f64::from_bits(SQRT_HALF_BITS), std::f64::consts::FRAC_1_SQRT_2);
    assert_eq!(f64::from_bits(SQRT_TWO_PI_BITS), (2.0 * std::f64::consts::PI).sqrt());
    let p = BoosterParameters::default();
    assert_eq!(float(p.learning_rate), 0.1);
    assert_eq!(float(p.min_sum_hessian_in_leaf), 1e-3);
}

#[test]
fn all_rows_get_their_gradients() {
    let labels = doubles(&[1.0, 2.0, 3.0]);
    let scores = doubles(&[0.0, 0.0, 1.0]);
    let weights = doubles(&[1.0, 2.0, 4.0]);
    let pool = build_thread_pool(2, 1).unwrap();
    for pool in [None, pool.as_ref()] {
        let mut out = vec![[Single { bits: 0 }; 2]; 3];
        Gaussian.gradient_hessian(&labels, &scores, Some(&weights), &mut out, pool);
        let expected: Vec<[u32; 2]> =
            [[-1.0f32, 1.0], [-4.0, 2.0], [-8.0, 4.0]].iter().map(|gh| [gh[0].to_bits(), gh[1].to_bits()]).collect();
        assert_eq!(out.iter().map(|gh| [gh[0].bits, gh[1].bits]).collect::<Vec<_>>(), expected);
        Gaussian.gradient_hessian(&labels, &scores, None, &mut out, pool);
        assert_eq!(f32::from_bits(out[2][0].bits), -2.0);
        assert_eq!(f32::from_bits(out[2][1].bits), 1.0);
    }
}

#[test]
fn objectives_have_names() {
    let kinds = ["gaussian", "logistic", "probit", "poisson", "Gaussian", ""].map(ObjectiveKind::from_name);
    assert_eq!(
        kinds,
        [
            Some(ObjectiveKind::Gaussian),
            Some(ObjectiveKind::Logistic),
            Some(ObjectiveKind::Probit),
            Some(ObjectiveKind::Poisson),
            None,
            None,
        ]
    );
    let names: Vec<&str> = kinds.iter().flatten().map(|k| k.lgbm_name()).collect();
    assert_eq!(names, ["regression", "binary", "binary", "poisson"]);
}

#[test]
fn batches_are_accepted_by_their_columns() {
    let (dataset, batch) = make_dataset(vec![0.0, 1.0, 2.0], vec![0.0, 1.0, 2.0]);
    let mut booster = Booster::new(test_params(), Gaussian);
    booster.fit(&dataset, None);
    assert!(booster.accepts(&batch));
    assert!(!booster.accepts(&Batch { names: vec![], columns: vec![], num_rows: 0 }));
    let words = Column::Dictionary { keys: vec![Some(0)], values: vec![Some("a".to_string())] };
    assert!(!booster.accepts(&Batch { names: vec!["x".to_string()], columns: vec![words], num_rows: 1 }));
    // Columns beyond the features are left out.
    let mut wide = make_batch(&[0.5]);
    wide.names.push("y".to_string());
    wide.columns.push(Column::Float32(vec![None]));
    assert!(booster.accepts(&wide));
    assert_eq!(booster.predict(&wide, None), booster.predict(&make_batch(&[0.5]), None));
}

#[test]
fn the_number_of_threads_changes_no_model() {
    let x: Vec<f64> = (0..300).map(|i| ((i * 37) % 101) as f64).collect();
    let y: Vec<f64> = x.iter().map(|&v| (v / 10.0).sin()).collect();
    let (dataset, batch) = make_dataset(x, y);
    let mut expected: Option<Vec<f64>> = None;
    for n_jobs in [-1isize, 1, 3] {
        let pool = build_thread_pool(n_jobs, 2).unwrap();
        let mut booster = Booster::new(BoosterParameters { n_jobs, ..test_params() }, Gaussian);
        booster.fit(&dataset, pool.as_ref());
        let predictions = floats(&booster.predict(&batch, pool.as_ref()));
        if let Some(first) = &expected {
            assert_eq!(&predictions, first);
        }
        expected = Some(predictions);
    }
}

#[test]
fn predicting_undoes_the_initial_odds() {
    let part = 2.0f64.powi(-53);
    for labels in [vec![0.0, 1.0], vec![0.0, 0.0, 1.0], vec![1.0; 7], vec![0.0; 7], vec![1.0, 1.0, 1.0, 0.0, 1.0]] {
        let mean = (labels.iter().sum::<f64>() / labels.len() as f64).clamp(1e-7, 1.0 - 1e-7);
        let odds = Logistic::initial_odds(&doubles(&labels), None).unwrap();
        assert!(float(odds).is_finite() && float(odds) > 0.0);
        let p = float(Logistic::probability(double(1.0 / float(odds))));
        assert!((p - mean).abs() <= 11.0 * part * mean);
        let predicted = float(LogisticLoss.prediction(LogisticLoss.initial_score(&doubles(&labels), None)));
        assert!((predicted - mean).abs() <= 1e-12);
    }
    assert_eq!(float(LogisticLoss.initial_score(&doubles(&[0.0, 1.0]), None)), 0.0);
}
