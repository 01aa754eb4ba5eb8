use rgbm::bin::FeatureBinner;
use rgbm::bundle::unpack;
use rgbm::column::{Batch, Column};
use rgbm::dataset::Dataset;
use rgbm::double::Double;
use rgbm::parameters::DatasetParameters;
use rgbm::utils::{build_thread_pool, started_pool, PoolError};

fn doubles(values: &[f64]) -> Vec<Double> {
    values.iter().map(|x| Double { bits: x.to_bits() }).collect()
}

fn numbers(values: &[f64]) -> Column {
    Column::Float64(values.iter().map(|x| Some(Double { bits: x.to_bits() })).collect())
}

fn make_features() -> Batch {
    Batch { names: vec!["x".to_string()], columns: vec![numbers(&[1.0, 2.0, 3.0, 4.0, 5.0])], num_rows: 5 }
}

#[test]
fn test_basic_dataset() {
    let labels = doubles(&[0.0, 1.0, 0.0, 1.0, 0.0]);
    let params = DatasetParameters { min_data_in_bin: 1, ..DatasetParameters::default() };
    let pool = build_thread_pool(params.n_jobs, 2).unwrap();
    let ds = Dataset::from_arrow(&make_features(), &labels, None, None, &params, pool.as_ref());
    assert_eq!(ds.num_rows, 5);
    assert_eq!(ds.feature_binners.len(), 1);
    assert_eq!(ds.feature_names, vec!["x"]);
    assert_eq!(ds.labels, doubles(&[0.0, 1.0, 0.0, 1.0, 0.0]));
}

#[test]
fn test_categorical_feature() {
    let dict = Column::Dictionary {
        keys: [0usize, 1, 0, 2, 1].iter().map(|&k| Some(k)).collect(),
        values: ["a", "b", "c"].iter().map(|v| Some(v.to_string())).collect(),
    };
    let features = Batch { names: vec!["cat".to_string()], columns: vec![dict], num_rows: 5 };
    let labels = doubles(&[0.0, 1.0, 0.0, 1.0, 0.0]);

    let params = DatasetParameters { min_data_in_bin: 1, ..DatasetParameters::default() };
    let pool = build_thread_pool(params.n_jobs, 2).unwrap();
    let ds = Dataset::from_arrow(&features, &labels, None, None, &params, pool.as_ref());
    assert_eq!(ds.feature_binners.len(), 1);
    assert!(matches!(ds.feature_binners[0], FeatureBinner::Categorical(_)));
    assert_eq!(ds.feature_binners[0].num_bins(), 4); // 3 categories + sentinel
}

#[test]
fn ten_features_fill_two_bundles() {
    let columns: Vec<Column> =
        (0..10).map(|f| numbers(&(0..6).map(|i| ((i * (f + 1)) % 6) as f64).collect::<Vec<_>>())).collect();
    let names: Vec<String> = (0..10).map(|f| format!("f{f}")).collect();
    let features = Batch { names: names.clone(), columns, num_rows: 6 };
    let labels = doubles(&[0.0; 6]);
    let weights = doubles(&[1.0, 2.0, 3.0, 4.0, 5.0, 6.0]);
    let offsets = doubles(&[0.5; 6]);
    let params = DatasetParameters { min_data_in_bin: 1, ..DatasetParameters::default() };
    let pool = build_thread_pool(3, 1).unwrap();
    let with_pool = Dataset::from_arrow(&features, &labels, Some(&weights), Some(&offsets), &params, pool.as_ref());
    let alone = Dataset::from_arrow(&features, &labels, Some(&weights), Some(&offsets), &params, None);
    for ds in [&with_pool, &alone] {
        assert_eq!(ds.feature_names, names);
        assert_eq!(ds.weights.as_ref().unwrap(), &weights);
        assert_eq!(ds.offsets.as_ref().unwrap(), &offsets);
        assert_eq!(ds.feature_bundles.len(), 2);
        assert_eq!(ds.feature_bundles[0].count, 8);
        assert_eq!(ds.feature_bundles[1].count, 2);
        for f in 0..10 {
            let bundle = &ds.feature_bundles[f / 8];
            let bins = ds.feature_binners[f].apply(&features.columns[f]);
            assert_eq!(bundle.num_bins[f % 8], ds.feature_binners[f].num_bins());
            for row in 0..6 {
                assert_eq!(unpack(bundle.packed_bins[row], f % 8), bins[row]);
            }
        }
        assert!(ds.feature_bundles[1].packed_bins.iter().all(|w| w >> 16 == 0));
    }
    assert_eq!(with_pool.feature_bundles[0].packed_bins, alone.feature_bundles[0].packed_bins);
    assert_eq!(with_pool.feature_bundles[1].packed_bins, alone.feature_bundles[1].packed_bins);
}

#[test]
fn pools_have_the_threads_that_are_asked_for() {
    assert!(build_thread_pool(1, 8).unwrap().is_none());
    assert!(build_thread_pool(-1, 1).unwrap().is_none());
    assert!(build_thread_pool(0, 0).unwrap().is_none());
    assert_eq!(build_thread_pool(3, 1).unwrap().unwrap().current_num_threads(), 3);
    assert_eq!(build_thread_pool(-1, 2).unwrap().unwrap().current_num_threads(), 2);
    // The machine may not have that many threads to give.
    match build_thread_pool(300, 1) {
        Ok(pool) => assert_eq!(pool.unwrap().current_num_threads(), 300.min(rayon::max_num_threads())),
        Err(error) => assert_eq!(error, PoolError::NotStarted),
    }
    assert_eq!(rayon::max_num_threads(), if usize::BITS == 64 { 65535 } else { 255 });
}

#[test]
fn a_pool_that_cannot_be_started_is_an_error() {
    // The global pool can be set up once only.
    let first = rayon::ThreadPoolBuilder::new().num_threads(1).build_global();
    let second = rayon::ThreadPoolBuilder::new().num_threads(1).build_global();
    let error = first.and(second).unwrap_err();
    assert!(matches!(started_pool(Err(error)), Err(PoolError::NotStarted)));
    let pool = rayon::ThreadPoolBuilder::new().num_threads(2).build();
    assert_eq!(started_pool(pool).unwrap().unwrap().current_num_threads(), 2);
}
