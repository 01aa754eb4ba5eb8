use std::sync::Arc;

use arrow::array::{
    Array, AsArray, DictionaryArray, Float32Array, Float64Array, LargeStringArray, StringArray, StringViewArray,
    UInt32Array,
};
use arrow::compute::cast;
use arrow::datatypes::{DataType, Float32Type, Float64Type, UInt32Type};
use rgbm::bin::{check_column, find_bounds, greedy_find_bins, BinError, FeatureBinner, MAX_SAMPLE};
use rgbm::column::Column;
use rgbm::double::{Double, Single};

fn double(x: f64) -> Double {
    Double { bits: x.to_bits() }
}

/// The column of an Arrow array.
fn column(array: &dyn Array) -> Column {
    match array.data_type() {
        DataType::Float64 => {
            Column::Float64(array.as_primitive::<Float64Type>().iter().map(|x| x.map(double)).collect())
        }
        DataType::Float32 => Column::Float32(
            array
                .as_primitive::<Float32Type>()
                .iter()
                .map(|x| x.map(|x| Single { bits: x.to_bits() }))
                .collect(),
        ),
        DataType::Dictionary(k, _) => {
            let utf8 = cast(array, &DataType::Dictionary(k.clone(), Box::new(DataType::Utf8))).unwrap();
            let dict = utf8.as_any_dictionary();
            let keys = dict.normalized_keys();
            Column::Dictionary {
                keys: (0..dict.len())
                    .map(|i| if dict.is_null(i) { None } else { Some(keys[i]) })
                    .collect(),
                values: dict.values().as_string::<i32>().iter().map(|v| v.map(str::to_string)).collect(),
            }
        }
        other => panic!("unsupported type {other:?}"),
    }
}

fn make_array(values: &[f64]) -> Column {
    column(&Float64Array::from(values.to_vec()))
}

#[test]
fn test_few_distinct_values() {
    // input [1.0, 2.0, 3.0, 1.0, 2.0] → bins [0, 1, 2, 0, 1], sentinel at 3
    let arr = make_array(&[1.0, 2.0, 3.0, 1.0, 2.0]);
    let binner = FeatureBinner::new(&arr, 255, 1, 0);
    assert_eq!(binner.apply(&arr), vec![0, 1, 2, 0, 1]);
    assert_eq!(binner.num_bins(), 4);
}

#[test]
fn test_monotone_bin_assignment() {
    let values: Vec<f64> = (0..1000).map(|i| i as f64 * 0.1).collect();
    let arr = make_array(&values);
    let binner = FeatureBinner::new(&arr, 255, 1, 0);
    let bins = binner.apply(&arr);
    for w in bins.windows(2) {
        assert!(w[0] <= w[1], "bins not monotone: {} > {}", w[0], w[1]);
    }
}

#[test]
fn test_null_nan_sentinel() {
    let arr = column(&Float64Array::from(vec![Some(1.0), None, Some(f64::NAN)]));
    let binner = FeatureBinner::new(&arr, 255, 1, 0);
    let bins = binner.apply(&arr);
    // null and NaN map to the same sentinel bin
    assert_eq!(bins[1], bins[2]);
    // sentinel is below num_bins() (which counts sentinel as a bin)
    assert!((bins[1] as usize) < binner.num_bins());
    // valid value maps to a different bin
    assert_ne!(bins[0], bins[1]);
}

#[test]
fn test_min_data_in_bin_reduces_bin_count() {
    let values: Vec<f64> = (0..100).map(|i| i as f64).collect();
    let arr = make_array(&values);
    let strict = FeatureBinner::new(&arr, 255, 10, 0);
    let loose = FeatureBinner::new(&arr, 255, 1, 0);
    assert!(strict.num_bins() <= loose.num_bins());
}

#[test]
fn test_float32_via_cast() {
    // f32 input: must give the same bins as the equivalent f64 input.
    let f32_arr = column(&Float32Array::from(vec![Some(1.0f32), Some(2.0), None, Some(f32::NAN), Some(3.0)]));
    let f64_arr = column(&Float64Array::from(vec![Some(1.0f64), Some(2.0), None, Some(f64::NAN), Some(3.0)]));
    let f32_binner = FeatureBinner::new(&f32_arr, 255, 1, 0);
    let f64_binner = FeatureBinner::new(&f64_arr, 255, 1, 0);
    assert_eq!(f32_binner.apply(&f32_arr), f64_binner.apply(&f64_arr));
    // null and NaN map to sentinel.
    let bins = f32_binner.apply(&f32_arr);
    assert_eq!(bins[2], bins[3]);
    assert!((bins[2] as usize) < f32_binner.num_bins());
}

fn make_utf8_dict(keys: &[u32], values: &[&str]) -> Column {
    let keys = UInt32Array::from(keys.to_vec());
    let values = Arc::new(StringArray::from(values.to_vec()));
    column(&DictionaryArray::<UInt32Type>::try_new(keys, values).unwrap())
}

#[test]
fn test_large_utf8_dict_via_cast() {
    // Polars-style Dict<UInt32, LargeUtf8>: must bin the same as Dict<UInt32, Utf8>.
    let keys = UInt32Array::from(vec![0u32, 1, 2, 0, 1]);
    let large = Arc::new(LargeStringArray::from(vec!["a", "b", "c"]));
    let large_dict = column(&DictionaryArray::<UInt32Type>::try_new(keys.clone(), large).unwrap());
    let utf8_dict = make_utf8_dict(&[0, 1, 2, 0, 1], &["a", "b", "c"]);

    let large_binner = FeatureBinner::new(&large_dict, 255, 1, 0);
    let utf8_binner = FeatureBinner::new(&utf8_dict, 255, 1, 0);
    assert_eq!(large_binner.apply(&large_dict), utf8_binner.apply(&utf8_dict));
    assert_eq!(large_binner.num_bins(), 4); // 3 categories + sentinel
}

#[test]
fn test_utf8_view_dict_via_cast() {
    // Newer-polars-style Dict<UInt32, Utf8View>: must bin the same as Dict<UInt32, Utf8>.
    let keys = UInt32Array::from(vec![0u32, 1, 2, 0, 1]);
    let view = Arc::new(StringViewArray::from(vec!["a", "b", "c"]));
    let view_dict = column(&DictionaryArray::<UInt32Type>::try_new(keys.clone(), view).unwrap());
    let utf8_dict = make_utf8_dict(&[0, 1, 2, 0, 1], &["a", "b", "c"]);

    let view_binner = FeatureBinner::new(&view_dict, 255, 1, 0);
    let utf8_binner = FeatureBinner::new(&utf8_dict, 255, 1, 0);
    assert_eq!(view_binner.apply(&view_dict), utf8_binner.apply(&utf8_dict));
    assert_eq!(view_binner.num_bins(), 4);
}

fn doubles(values: &[f64]) -> Vec<Double> {
    values.iter().map(|&x| double(x)).collect()
}

#[test]
fn bounds_lie_next_above_the_midpoints() {
    let bounds = greedy_find_bins(&doubles(&[1.0, 2.0, 4.0]), 255, 1);
    assert_eq!(bounds, doubles(&[1.5f64.next_up(), 3.0f64.next_up(), f64::INFINITY]));
}

#[test]
fn no_values_have_one_unbounded_bin() {
    assert_eq!(greedy_find_bins(&[], 255, 3), doubles(&[f64::INFINITY]));
    let empty = make_array(&[]);
    assert_eq!(FeatureBinner::new(&empty, 255, 3, 0).num_bins(), 2);
    let missing = make_array(&[f64::NAN, f64::NAN]);
    let binner = FeatureBinner::new(&missing, 255, 3, 0);
    assert_eq!(binner.num_bins(), 2);
    assert_eq!(binner.apply(&missing), vec![1, 1]);
}

#[test]
fn a_frequent_value_has_a_bin_of_its_own() {
    // Ten zeros between a few other values; a bin is full with five values.
    let mut values = vec![-2.0, -1.0];
    values.extend(vec![0.0; 10]);
    values.extend([1.0, 2.0, 3.0]);
    let bounds = greedy_find_bins(&doubles(&values), 3, 1);
    assert_eq!(bounds, doubles(&[(-0.5f64).next_up(), 0.5f64.next_up(), f64::INFINITY]));
}

#[test]
fn bins_are_at_most_max_bin() {
    let values: Vec<f64> = (0..1000).map(|i| i as f64).collect();
    for max_bin in [0usize, 1, 2, 3, 10, 255] {
        let arr = make_array(&values);
        let binner = FeatureBinner::new(&arr, max_bin, 1, 0);
        assert!(binner.num_bins() <= max_bin.max(2) + 1);
    }
    assert_eq!(greedy_find_bins(&doubles(&values), 2, 1).len(), 2);
    assert_eq!(greedy_find_bins(&doubles(&values), 1, 1).len(), 1);
    assert_eq!(greedy_find_bins(&doubles(&values), 0, 1).len(), 1);
}

#[test]
fn infinities_are_binned_as_numbers() {
    let arr = make_array(&[f64::NEG_INFINITY, f64::INFINITY]);
    let binner = FeatureBinner::new(&arr, 255, 1, 0);
    assert_eq!(binner.num_bins(), 3);
    assert_eq!(binner.apply(&arr), vec![0, 0]);
    let arr = make_array(&[f64::NEG_INFINITY, 0.0, f64::INFINITY]);
    let binner = FeatureBinner::new(&arr, 255, 1, 0);
    assert_eq!(binner.apply(&make_array(&[f64::NEG_INFINITY, -f64::MAX, 0.0, 1.0, f64::INFINITY])), vec![0, 0, 1, 1, 1]);
}

#[test]
fn both_zeros_are_one_value() {
    let bounds = greedy_find_bins(&doubles(&[-0.0, 0.0, 1.0]), 255, 1);
    assert_eq!(bounds, doubles(&[0.5f64.next_up(), f64::INFINITY]));
}

#[test]
fn unknown_and_missing_categories_have_the_last_bin() {
    let dict = make_utf8_dict(&[0, 1, 2], &["a", "b", "c"]);
    let binner = FeatureBinner::new(&dict, 255, 1, 0);
    assert!(binner.is_categorical());
    let other = Column::Dictionary {
        keys: vec![Some(2), Some(0), None, Some(1), Some(3)],
        values: vec![Some("c".to_string()), Some("z".to_string()), Some("a".to_string()), None],
    };
    assert_eq!(binner.apply(&other), vec![0, 2, 3, 3, 3]);
    let copy = binner.clone();
    assert_eq!(copy.apply(&other), binner.apply(&other));
    assert_eq!(copy.num_bins(), 4);
}

#[test]
fn null_dictionary_values_are_skipped_in_numbering() {
    let dict = Column::Dictionary {
        keys: vec![Some(0), Some(1), Some(2), None],
        values: vec![Some("x".to_string()), None, Some("y".to_string())],
    };
    let binner = FeatureBinner::new(&dict, 255, 1, 0);
    assert_eq!(binner.num_bins(), 3);
    assert_eq!(binner.apply(&dict), vec![0, 2, 1, 2]);
}

#[test]
fn repeated_categories_are_one() {
    let dict = make_utf8_dict(&[0, 1, 2, 3], &["a", "a", "a", "b"]);
    let binner = FeatureBinner::new(&dict, 255, 1, 0);
    assert_eq!(binner.num_bins(), 3);
    assert_eq!(binner.apply(&dict), vec![0, 0, 0, 1]);
    let dict = make_utf8_dict(&[0, 1, 2], &["x", "y", "x"]);
    assert_eq!(FeatureBinner::new(&dict, 255, 1, 0).apply(&dict), vec![0, 1, 0]);
}

#[test]
fn a_bin_is_closed_only_where_it_would_be_exceeded() {
    // Two values fill a bin, and the second one still joins it.
    let bounds = greedy_find_bins(&doubles(&[0.0, 1.0, 2.0, 3.0]), 255, 2);
    assert_eq!(bounds, doubles(&[1.5f64.next_up(), f64::INFINITY]));
    // The last value is kept out of a bin that it would overfill.
    let bounds = greedy_find_bins(&doubles(&[0.0, 1.0, 1.0, 1.0]), 255, 3);
    assert_eq!(bounds, doubles(&[0.5f64.next_up(), f64::INFINITY]));
    let bounds = greedy_find_bins(&doubles(&[0.0, 1.0, 1.0]), 255, 3);
    assert_eq!(bounds, doubles(&[f64::INFINITY]));
}

#[test]
fn bounds_need_not_end_in_infinity() {
    let binner = FeatureBinner::Numerical(doubles(&[0.0, 1.0]));
    assert_eq!(binner.num_bins(), 3);
    assert_eq!(binner.apply(&make_array(&[-1.0, 0.5, 9.0, f64::NAN])), vec![0, 1, 2, 2]);
    assert_eq!(FeatureBinner::Numerical(vec![]).num_bins(), 1);
}

#[test]
fn bounds_depend_on_the_numbers_alone() {
    let bounds = |column: &Column, seed: u64| match FeatureBinner::new(column, 4, 2, seed) {
        FeatureBinner::Numerical(bounds) => bounds,
        FeatureBinner::Categorical(_) => unreachable!(),
    };
    let one = make_array(&[5.0, 1.0, 4.0, 1.0, 3.0, 2.0, 9.0]);
    let other = column(&Float64Array::from(vec![
        None, Some(1.0), Some(9.0), Some(f64::NAN), Some(2.0), Some(3.0), Some(1.0), Some(4.0), None, Some(5.0),
    ]));
    assert_eq!(bounds(&one, 0), bounds(&other, 77));
}

#[test]
fn a_sample_decides_the_bounds_of_long_columns() {
    let n = MAX_SAMPLE + 50_000;
    let values: Vec<f64> = (0..n).map(|i| ((i * 7919) % 1_000_003) as f64).collect();
    let arr = make_array(&values);
    let bounds = |seed: u64| match FeatureBinner::new(&arr, 64, 1, seed) {
        FeatureBinner::Numerical(bounds) => bounds,
        FeatureBinner::Categorical(_) => unreachable!(),
    };
    let keys: Vec<i64> = values.iter().map(|&x| double(x).order_key()).collect();
    let picked = bounds(7);
    // The same seed picks the same values, another one others.
    assert_eq!(picked, bounds(7));
    assert_ne!(picked, bounds(8));
    // Neither all the values are picked nor the first of them.
    assert_ne!(picked, find_bounds(keys.clone(), 64, 1));
    assert_ne!(picked, find_bounds(keys[..MAX_SAMPLE].to_vec(), 64, 1));
    assert!(picked.len() <= 64);
}

#[test]
fn short_columns_are_sampled_whole() {
    let values = [3.0, 1.0, 2.0, 1.0];
    let arr = make_array(&values);
    let keys: Vec<i64> = values.iter().map(|&x| double(x).order_key()).collect();
    let bounds = find_bounds(keys, 255, 1);
    assert_eq!(bounds, doubles(&[1.5f64.next_up(), 2.5f64.next_up(), f64::INFINITY]));
    for seed in [0, 1, 99] {
        assert_eq!(FeatureBinner::new(&arr, 255, 1, seed).apply(&arr), vec![2, 0, 1, 0]);
    }
}

fn categories(n: usize) -> Column {
    Column::Dictionary { keys: vec![], values: (0..n).map(|i| Some(format!("c{i}"))).collect() }
}

#[test]
fn columns_that_cannot_be_binned_are_told() {
    assert_eq!(check_column(&make_array(&[1.0]), 256), Err(BinError::MaxBinTooLarge));
    assert_eq!(check_column(&make_array(&[1.0]), 255), Ok(()));
    assert_eq!(check_column(&categories(300), 255), Err(BinError::TooManyCategories { count: 300 }));
    assert_eq!(check_column(&categories(255), 255), Err(BinError::TooManyCategories { count: 255 }));
    assert_eq!(check_column(&categories(254), 255), Ok(()));
    assert_eq!(FeatureBinner::new(&categories(254), 255, 1, 0).num_bins(), 255);
    // Nulls and repeated values are no categories of their own.
    let values = vec![Some("a".to_string()), None, Some("b".to_string()), Some("a".to_string())];
    let column = Column::Dictionary { keys: vec![], values };
    assert_eq!(check_column(&column, 3), Ok(()));
    assert_eq!(check_column(&column, 2), Err(BinError::TooManyCategories { count: 2 }));
}

#[test]
fn one_bin_is_the_least() {
    let values = doubles(&[0.0, 1.0, 1.0, 2.0, 5.0]);
    for max_bin in [0usize, 1] {
        for min_data_in_bin in [0usize, 1, 3] {
            assert_eq!(greedy_find_bins(&values, max_bin, min_data_in_bin), doubles(&[f64::INFINITY]));
        }
        let binner = FeatureBinner::new(&make_array(&[0.0, 1.0, 1.0, 2.0, 5.0]), max_bin, 1, 0);
        assert_eq!(binner.num_bins(), 2);
    }
}

#[test]
fn bounds_out_of_order_part_some_numbers() {
    // Only numbers between 3 and 5 have bounds below them behind others that are not.
    let binner = FeatureBinner::Numerical(doubles(&[1.0, 5.0, 3.0, f64::INFINITY]));
    let column = make_array(&[0.0, 1.0, 2.0, 3.0, 6.0, f64::NAN]);
    assert_eq!(binner.apply(&column), vec![0, 0, 1, 1, 3, 4]);
}
