//! Training data: binned features, labels, and optional weights and offsets.

use vstd::arithmetic::power2::pow2;
use vstd::prelude::*;
use vstd::slice::slice_subrange;

use crate::bin::{binnable, binner_of, law_bins_in_range, small, whole_binner, FeatureBinner};
pub use crate::bundle::FeatureBundle;
use crate::bundle::{packed_bin, total};
use crate::column::{Batch, Column};
use crate::double::Double;
use crate::histogram::{bundles_wf, feature_kinds, feature_sizes};
use crate::parameters::DatasetParameters;
use crate::utils::parallel_map;

verus! {

/// Training data: binned features, labels, and optional weights and offsets.
pub struct Dataset {
    pub feature_binners: Vec<FeatureBinner>,
    pub feature_bundles: Vec<FeatureBundle>,
    pub feature_names: Vec<String>,
    pub labels: Vec<Double>,
    pub weights: Option<Vec<Double>>,
    pub offsets: Option<Vec<Double>>,
    pub num_rows: usize,
}

/// The number of features in bundle `b`: bundles are filled with eight features in turn.
pub open spec fn bundle_len(features: nat, b: int) -> int {
    if 8 * b + 8 <= features { 8 } else { features - 8 * b }
}

impl Dataset {
    /// The bin of a row for a feature.
    pub open spec fn bin(&self, row: int, feature: int) -> u8 {
        packed_bin(self.feature_bundles@[feature / 8].packed_bins@[row], feature % 8)
    }

    /// The bin of missing values of a feature.
    pub open spec fn sentinel(&self, feature: int) -> u8 {
        (self.feature_binners@[feature]@.num_bins() - 1) as u8
    }

    /// The features lie in bundles of eight, in their order.
    pub open spec fn bundled(&self) -> bool {
        let features = self.feature_binners@.len();
        &&& self.feature_bundles@.len() == (features + 7) / 8
        &&& forall|b: int|
            0 <= b < self.feature_bundles@.len() ==> {
                &&& (#[trigger] self.feature_bundles@[b]).count == bundle_len(features, b)
                &&& self.feature_bundles@[b].num_bins@.len() == bundle_len(features, b)
                &&& self.feature_bundles@[b].is_categorical@.len() == bundle_len(features, b)
                &&& self.feature_bundles@[b].packed_bins@.len() == self.num_rows
            }
        &&& forall|f: int|
            0 <= f < features ==> {
                &&& self.feature_bundles@[f / 8].num_bins@[f % 8] == (#[trigger] self.feature_binners@[f])@.num_bins()
                &&& self.feature_bundles@[f / 8].is_categorical@[f % 8] == (self.feature_binners@[f]@ is Categorical)
            }
    }

    /// Features in bundles, with every bin index below the feature's number of bins.
    pub open spec fn wf(&self) -> bool {
        &&& self.bundled()
        &&& forall|f: int| 0 <= f < self.feature_binners@.len() ==> (#[trigger] self.feature_binners@[f])@.wf()
        &&& bundles_wf(self.feature_bundles@)
    }
}

pub(crate) proof fn lemma_layout_upto(d: Dataset, b: nat)
    requires
        d.bundled(),
        b <= d.feature_bundles@.len(),
    ensures
        ({
            let features = d.feature_binners@.len();
            let n = if 8 * b <= features { 8 * b } else { features };
            let sizes = feature_sizes(d.feature_bundles@.take(b as int));
            let kinds = feature_kinds(d.feature_bundles@.take(b as int));
            &&& sizes.len() == n
            &&& kinds.len() == n
            &&& forall|f: int| 0 <= f < n ==> #[trigger] sizes[f] == d.feature_binners@[f]@.num_bins()
            &&& forall|f: int| 0 <= f < n ==> #[trigger] kinds[f] == (d.feature_binners@[f]@ is Categorical)
        }),
    decreases b,
{
    if b > 0 {
        let features = d.feature_binners@.len();
        lemma_layout_upto(d, (b - 1) as nat);
        let all = d.feature_bundles@;
        assert(all.take(b as int).drop_last() =~= all.take(b - 1));
        let sizes = feature_sizes(all.take(b as int));
        let kinds = feature_kinds(all.take(b as int));
        let before = feature_sizes(all.take(b - 1));
        let kinds_before = feature_kinds(all.take(b - 1));
        let n = if 8 * b <= features { 8 * b } else { features };
        assert(all[b - 1].count == bundle_len(features, b - 1));
        assert forall|f: int| 0 <= f < n implies #[trigger] sizes[f] == d.feature_binners@[f]@.num_bins() by {
            if f < 8 * (b - 1) {
                assert(sizes[f] == before[f]);
            } else {
                assert(f / 8 == b - 1);
                assert(sizes[f] == all[b - 1].num_bins@[f % 8]);
            }
        }
        assert forall|f: int| 0 <= f < n implies #[trigger] kinds[f] == (d.feature_binners@[f]@ is Categorical) by {
            if f < 8 * (b - 1) {
                assert(kinds[f] == kinds_before[f]);
            } else {
                assert(f / 8 == b - 1);
                assert(kinds[f] == all[b - 1].is_categorical@[f % 8]);
            }
        }
    }
}

/// Taken together, the bundles hold the features in their order.
pub proof fn lemma_layout(d: Dataset)
    requires
        d.bundled(),
    ensures
        feature_sizes(d.feature_bundles@).len() == d.feature_binners@.len(),
        feature_kinds(d.feature_bundles@).len() == d.feature_binners@.len(),
        forall|f: int|
            0 <= f < d.feature_binners@.len() ==> #[trigger] feature_sizes(d.feature_bundles@)[f]
                == d.feature_binners@[f]@.num_bins(),
        forall|f: int|
            0 <= f < d.feature_binners@.len() ==> #[trigger] feature_kinds(d.feature_bundles@)[f] == (
            d.feature_binners@[f]@ is Categorical),
{
    let n = d.feature_bundles@.len();
    lemma_layout_upto(d, n);
    assert(d.feature_bundles@.take(n as int) =~= d.feature_bundles@);
}

proof fn lemma_total_bound(sizes: Seq<usize>, n: nat)
    requires
        n <= sizes.len(),
        forall|f: int| 0 <= f < sizes.len() ==> #[trigger] sizes[f] <= 256,
    ensures
        total(sizes, n) <= 256 * n,
    decreases n,
{
    if n > 0 {
        lemma_total_bound(sizes, (n - 1) as nat);
    }
}

/// A dataset whose binners give no index out of range is well formed.
proof fn lemma_dataset_wf(d: Dataset, columns: Seq<Column>)
    requires
        d.bundled(),
        d.feature_binners@.len() == columns.len(),
        columns.len() * 256 <= usize::MAX,
        forall|f: int|
            0 <= f < columns.len() ==> {
                &&& (#[trigger] d.feature_binners@[f])@.wf()
                &&& d.feature_binners@[f]@.fits(columns[f]@)
                &&& columns[f]@.len() == d.num_rows
            },
        forall|row: int, f: int|
            0 <= row < d.num_rows && 0 <= f < columns.len() ==> #[trigger] d.bin(row, f)
                == d.feature_binners@[f]@.bins(columns[f]@)[row],
    ensures
        d.wf(),
{
    let bundles = d.feature_bundles@;
    let features = columns.len();
    assert forall|b: int| 0 <= b < bundles.len() implies (#[trigger] bundles[b]).wf() by {
        let bundle = bundles[b];
        assert forall|s: int| 0 <= s < bundle.count implies 1 <= #[trigger] bundle.num_bins@[s] <= 256 by {
            let f = 8 * b + s;
            assert(f / 8 == b && f % 8 == s);
            assert(d.feature_binners@[f]@.wf());
        }
        assert forall|row: int, s: int| 0 <= row < bundle.packed_bins@.len() && 0 <= s < bundle.count implies (
        #[trigger] packed_bin(bundle.packed_bins@[row], s)) < bundle.num_bins@[s] by {
            let f = 8 * b + s;
            assert(f / 8 == b && f % 8 == s);
            assert(d.feature_binners@[f]@.wf());
            law_bins_in_range(d.feature_binners@[f]@, columns[f]@);
            assert(d.bin(row, f) == packed_bin(bundle.packed_bins@[row], s));
        }
    }
    lemma_layout(d);
    let sizes = feature_sizes(bundles);
    assert forall|f: int| 0 <= f < sizes.len() implies #[trigger] sizes[f] <= 256 by {
        assert(d.feature_binners@[f]@.wf());
    }
    lemma_total_bound(sizes, sizes.len());
}

/// A copy of names.
pub(crate) fn copy_names(names: &Vec<String>) -> (r: Vec<String>)
    ensures
        r@.len() == names@.len(),
        forall|i: int| 0 <= i < names@.len() ==> (#[trigger] r@[i])@ == names@[i]@,
{
    let n = names.len();
    let mut r: Vec<String> = Vec::with_capacity(n);
    for i in 0..n
        invariant
            n == names@.len(),
            r@.len() == i,
            forall|k: int| 0 <= k < i ==> (#[trigger] r@[k])@ == names@[k]@,
    {
        r.push(names[i].clone());
    }
    r
}

/// A copy of numbers, if there are any.
fn copy_numbers(x: Option<&Vec<Double>>) -> (r: Option<Vec<Double>>)
    ensures
        r is Some == x is Some,
        r matches Some(v) ==> v@ == x->0@,
{
    match x {
        Some(x) => {
            let v = x.clone();
            assert(v@ =~= x@);
            Some(v)
        },
        None => None,
    }
}

/// The binners of the columns of a batch.
fn make_binners(features: &Batch, params: &DatasetParameters, pool: Option<&rayon::ThreadPool>) -> (binners: Vec<
    FeatureBinner,
>)
    requires
        forall|f: int|
            0 <= f < features.columns@.len() ==> binnable((#[trigger] features.columns@[f])@, params.max_bin as nat),
    ensures
        binners@.len() == features.columns@.len(),
        forall|f: int| 0 <= f < binners@.len() ==> binner_for(#[trigger] binners@[f], features.columns@[f], *params),
{
    let n = features.columns.len();
    match pool {
        Some(pool) => {
            let f = |f: usize| -> (r: FeatureBinner)
                requires
                    f < features.columns@.len(),
                    binnable(features.columns@[f as int]@, params.max_bin as nat),
                ensures
                    binner_for(r, features.columns@[f as int], *params),
            { FeatureBinner::new(&features.columns[f], params.max_bin, params.min_data_in_bin, params.seed) };
            parallel_map(pool, n, f)
        },
        None => {
            let mut binners: Vec<FeatureBinner> = Vec::with_capacity(n);
            for f in 0..n
                invariant
                    n == features.columns@.len(),
                    forall|f: int|
                        0 <= f < features.columns@.len() ==> binnable(
                            (#[trigger] features.columns@[f])@,
                            params.max_bin as nat,
                        ),
                    binners@.len() == f,
                    forall|g: int| 0 <= g < f ==> binner_for(#[trigger] binners@[g], features.columns@[g], *params),
            {
                let column = &features.columns[f];
                binners.push(FeatureBinner::new(column, params.max_bin, params.min_data_in_bin, params.seed));
            }
            binners
        },
    }
}

/// What is known of the binner of a column.
pub open spec fn binner_for(binner: FeatureBinner, column: Column, params: DatasetParameters) -> bool {
    &&& binner@ == binner_of(column@, params.max_bin as nat, params.min_data_in_bin as nat, params.seed)
    &&& small(column@) ==> binner@ == whole_binner(column@, params.max_bin as nat, params.min_data_in_bin as nat)
    &&& binner@.wf()
    &&& binner@.fits(column@)
}

/// The bins of the columns of a batch.
pub(crate) fn apply_binners(binners: &Vec<FeatureBinner>, columns: &Vec<Column>, n: usize, pool: Option<&rayon::ThreadPool>) -> (bins:
    Vec<Vec<u8>>)
    requires
        n <= binners@.len(),
        n <= columns@.len(),
        forall|f: int|
            0 <= f < n ==> {
                &&& (#[trigger] binners@[f])@.usable()
                &&& binners@[f]@.fits(columns@[f]@)
                &&& columns@[f]@.wf()
            },
    ensures
        bins@.len() == n,
        forall|f: int|
            0 <= f < n ==> {
                &&& (#[trigger] bins@[f])@ == binners@[f]@.bins(columns@[f]@)
                &&& bins@[f]@.len() == columns@[f]@.len()
            },
{
    match pool {
        Some(pool) => {
            let f = |f: usize| -> (r: Vec<u8>)
                requires
                    f < binners@.len(),
                    f < columns@.len(),
                    binners@[f as int]@.usable(),
                    binners@[f as int]@.fits(columns@[f as int]@),
                    columns@[f as int]@.wf(),
                ensures
                    r@ == binners@[f as int]@.bins(columns@[f as int]@),
                    r@.len() == columns@[f as int]@.len(),
            { binners[f].apply(&columns[f]) };
            parallel_map(pool, n, f)
        },
        None => {
            let mut bins: Vec<Vec<u8>> = Vec::with_capacity(n);
            for f in 0..n
                invariant
                    n <= binners@.len(),
                    n <= columns@.len(),
                    forall|f: int|
                        0 <= f < n ==> {
                            &&& (#[trigger] binners@[f])@.usable()
                            &&& binners@[f]@.fits(columns@[f]@)
                            &&& columns@[f]@.wf()
                        },
                    bins@.len() == f,
                    forall|g: int|
                        0 <= g < f ==> {
                            &&& (#[trigger] bins@[g])@ == binners@[g]@.bins(columns@[g]@)
                            &&& bins@[g]@.len() == columns@[g]@.len()
                        },
            {
                bins.push(binners[f].apply(&columns[f]));
            }
            bins
        },
    }
}

/// Bundle `b` of the features: eight of them, or what is left, a byte each.
spec fn is_bundle(bundle: FeatureBundle, binners: Seq<FeatureBinner>, bins: Seq<Vec<u8>>, num_rows: nat, b: int) -> bool {
    &&& bundle.count == bundle_len(binners.len(), b)
    &&& bundle.num_bins@.len() == bundle.count
    &&& bundle.is_categorical@.len() == bundle.count
    &&& bundle.packed_bins@.len() == num_rows
    &&& forall|s: int| 0 <= s < bundle.count ==> #[trigger] bundle.num_bins@[s] == binners[8 * b + s]@.num_bins()
    &&& forall|s: int|
        0 <= s < bundle.count ==> #[trigger] bundle.is_categorical@[s] == (binners[8 * b + s]@ is Categorical)
    &&& forall|row: int, s: int|
        0 <= row < num_rows && 0 <= s < 8 ==> #[trigger] packed_bin(bundle.packed_bins@[row], s) == if s < bundle.count {
            bins[8 * b + s]@[row]
        } else {
            0
        }
}

/// Bundle `b` of the features.
fn pack_bundle(binners: &Vec<FeatureBinner>, bins: &Vec<Vec<u8>>, num_rows: usize, b: usize) -> (bundle: FeatureBundle)
    requires
        8 * b < binners@.len(),
        bins@.len() == binners@.len(),
        forall|f: int| 0 <= f < bins@.len() ==> (#[trigger] bins@[f])@.len() == num_rows,
        forall|f: int| 0 <= f < binners@.len() ==> (#[trigger] binners@[f])@.usable(),
    ensures
        is_bundle(bundle, binners@, bins@, num_rows as nat, b as int),
{
    let n = binners.len();
    let start = 8 * b;
    let end = if n - start >= 8 { start + 8 } else { n };
    FeatureBundle::pack(
        slice_subrange(binners.as_slice(), start, end),
        slice_subrange(bins.as_slice(), start, end),
        num_rows,
    )
}

/// The bundles of all features.
fn pack_bundles(binners: &Vec<FeatureBinner>, bins: &Vec<Vec<u8>>, num_rows: usize, pool: Option<&rayon::ThreadPool>) -> (bundles:
    Vec<FeatureBundle>)
    requires
        bins@.len() == binners@.len(),
        forall|f: int| 0 <= f < bins@.len() ==> (#[trigger] bins@[f])@.len() == num_rows,
        forall|f: int| 0 <= f < binners@.len() ==> (#[trigger] binners@[f])@.usable(),
    ensures
        bundles@.len() == (binners@.len() + 7) / 8,
        forall|b: int| 0 <= b < bundles@.len() ==> is_bundle(#[trigger] bundles@[b], binners@, bins@, num_rows as nat, b),
{
    let n = binners.len();
    let num_bundles = if n % 8 == 0 { n / 8 } else { n / 8 + 1 };
    match pool {
        Some(pool) => {
            let f = |b: usize| -> (r: FeatureBundle)
                requires
                    8 * b < binners@.len(),
                    bins@.len() == binners@.len(),
                    forall|f: int| 0 <= f < bins@.len() ==> (#[trigger] bins@[f])@.len() == num_rows,
                    forall|f: int| 0 <= f < binners@.len() ==> (#[trigger] binners@[f])@.usable(),
                ensures
                    is_bundle(r, binners@, bins@, num_rows as nat, b as int),
            { pack_bundle(binners, bins, num_rows, b) };
            parallel_map(pool, num_bundles, f)
        },
        None => {
            let mut bundles: Vec<FeatureBundle> = Vec::with_capacity(num_bundles);
            for b in 0..num_bundles
                invariant
                    num_bundles == (binners@.len() + 7) / 8,
                    bins@.len() == binners@.len(),
                    forall|f: int| 0 <= f < bins@.len() ==> (#[trigger] bins@[f])@.len() == num_rows,
                    forall|f: int| 0 <= f < binners@.len() ==> (#[trigger] binners@[f])@.usable(),
                    bundles@.len() == b,
                    forall|c: int| 0 <= c < b ==> is_bundle(#[trigger] bundles@[c], binners@, bins@, num_rows as nat, c),
            {
                bundles.push(pack_bundle(binners, bins, num_rows, b));
            }
            bundles
        },
    }
}

impl Dataset {
    /// Bins the columns of a batch and packs them into bundles. With a pool, each column and
    /// each bundle is a task of its own.
    pub fn from_arrow(
        features: &Batch,
        labels: &Vec<Double>,
        weights: Option<&Vec<Double>>,
        offsets: Option<&Vec<Double>>,
        params: &DatasetParameters,
        pool: Option<&rayon::ThreadPool>,
    ) -> (d: Self)
        requires
            features.wf(),
            forall|f: int|
                0 <= f < features.columns@.len() ==> binnable(
                    (#[trigger] features.columns@[f])@,
                    params.max_bin as nat,
                ),
        ensures
            d.num_rows == features.num_rows,
            d.feature_names@.len() == features.names@.len(),
            forall|f: int| 0 <= f < features.names@.len() ==> (#[trigger] d.feature_names@[f])@ == features.names@[f]@,
            d.labels@ == labels@,
            d.weights is Some == weights is Some,
            d.weights matches Some(w) ==> w@ == weights->0@,
            d.offsets is Some == offsets is Some,
            d.offsets matches Some(o) ==> o@ == offsets->0@,
            d.feature_binners@.len() == features.columns@.len(),
            forall|f: int|
                0 <= f < features.columns@.len() ==> binner_for(
                    #[trigger] d.feature_binners@[f],
                    features.columns@[f],
                    *params,
                ),
            d.bundled(),
            forall|row: int, f: int|
                0 <= row < d.num_rows && 0 <= f < features.columns@.len() ==> #[trigger] d.bin(row, f)
                    == d.feature_binners@[f]@.bins(features.columns@[f]@)[row],
            forall|b: int, row: int, s: int|
                0 <= b < d.feature_bundles@.len() && 0 <= row < d.num_rows && d.feature_bundles@[b].count <= s < 8
                    ==> #[trigger] packed_bin(d.feature_bundles@[b].packed_bins@[row], s) == 0,
            features.columns@.len() * 256 <= usize::MAX ==> d.wf(),
    {
        let num_features = features.columns.len();
        let num_rows = features.num_rows;
        let feature_binners = make_binners(features, params, pool);
        let all_bins = apply_binners(&feature_binners, &features.columns, num_features, pool);
        let feature_bundles = pack_bundles(&feature_binners, &all_bins, num_rows, pool);
        let d = Dataset {
            feature_binners,
            feature_bundles,
            feature_names: copy_names(&features.names),
            labels: labels.clone(),
            weights: copy_numbers(weights),
            offsets: copy_numbers(offsets),
            num_rows,
        };
        proof {
            if features.columns@.len() * 256 <= usize::MAX {
                lemma_dataset_wf(d, features.columns@);
            }
        }
        d
    }
}

/// Features lie in bundles of eight: bundle `b` holds the features from `8 b` on, each in the digit
/// to the base 256 that its place among them gives, with its number of bins and its kind.
pub proof fn law_bundles_hold_eight_features_each(d: &Dataset, row: int, f: int)
    requires
        d.bundled(),
        0 <= row < d.num_rows,
        0 <= f < d.feature_binners@.len(),
    ensures
        d.feature_bundles@.len() == (d.feature_binners@.len() + 7) / 8,
        ({
            let bundle = d.feature_bundles@[f / 8];
            let rest = d.feature_binners@.len() - 8 * (f / 8);
            &&& bundle.count == if rest < 8 { rest } else { 8 }
            &&& bundle.packed_bins@.len() == d.num_rows
            &&& bundle.num_bins@[f % 8] == d.feature_binners@[f]@.num_bins()
            &&& bundle.is_categorical@[f % 8] == (d.feature_binners@[f]@ is Categorical)
            &&& d.bin(row, f) == (bundle.packed_bins@[row] as nat / pow2((8 * (f % 8)) as nat)) % 256
        }),
{
    let bundle = d.feature_bundles@[f / 8];
    assert(bundle.count == bundle_len(d.feature_binners@.len(), f / 8));
    crate::binning::law_words_hold_their_bins(bundle.packed_bins@[row], (f % 8) as nat);
}

} // verus!
