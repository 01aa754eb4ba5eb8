//! Sums of gradients and hessians per bin.

use vstd::prelude::*;

use crate::bundle::{
    lemma_total_concat, lemma_total_monotone, lemma_total_prefix, packed_bin, total, unpack,
    FeatureBundle,
};
use crate::double::{Double, Single};
pub use crate::split::{calculate_score, SplitInfo, Threshold};
use crate::utils::parallel_map;

verus! {

/// The gradients and hessians of the rows of one bin, summed.
#[derive(Clone, Copy, Debug, PartialEq, Eq, Structural)]
pub struct HistogramBin {
    pub sum_gradients: Double,
    pub sum_hessians: Double,
}

impl Default for HistogramBin {
    fn default() -> (b: Self)
        ensures
            b == HistogramBin::empty(),
    {
        HistogramBin { sum_gradients: Double::zero(), sum_hessians: Double::zero() }
    }
}

impl HistogramBin {
    /// The sums over no rows.
    pub open spec fn empty() -> HistogramBin {
        HistogramBin { sum_gradients: Double::zero_spec(), sum_hessians: Double::zero_spec() }
    }

    /// The sums with one more row.
    pub open spec fn with(self, gh: [Single; 2]) -> HistogramBin {
        HistogramBin {
            sum_gradients: self.sum_gradients.plus_spec(gh@[0].widen_spec()),
            sum_hessians: self.sum_hessians.plus_spec(gh@[1].widen_spec()),
        }
    }

    /// Adds the gradient and the hessian of a row.
    pub fn add(&mut self, gh: [Single; 2])
        ensures
            *final(self) == old(self).with(gh),
    {
        self.sum_gradients = self.sum_gradients.plus(gh[0].widen());
        self.sum_hessians = self.sum_hessians.plus(gh[1].widen());
    }

    pub open spec fn plus_spec(self, other: HistogramBin) -> HistogramBin {
        HistogramBin {
            sum_gradients: self.sum_gradients.plus_spec(other.sum_gradients),
            sum_hessians: self.sum_hessians.plus_spec(other.sum_hessians),
        }
    }

    pub fn plus(self, other: Self) -> (r: Self)
        ensures
            r == self.plus_spec(other),
    {
        HistogramBin {
            sum_gradients: self.sum_gradients.plus(other.sum_gradients),
            sum_hessians: self.sum_hessians.plus(other.sum_hessians),
        }
    }

    pub open spec fn minus_spec(self, other: HistogramBin) -> HistogramBin {
        HistogramBin {
            sum_gradients: self.sum_gradients.minus_spec(other.sum_gradients),
            sum_hessians: self.sum_hessians.minus_spec(other.sum_hessians),
        }
    }

    pub fn minus(self, other: Self) -> (r: Self)
        ensures
            r == self.minus_spec(other),
    {
        HistogramBin {
            sum_gradients: self.sum_gradients.minus(other.sum_gradients),
            sum_hessians: self.sum_hessians.minus(other.sum_hessians),
        }
    }
}

/// What a bin of a slot holds after the first `n` of the rows `rows`: the sums it held at
/// the start, with each of those rows that falls into the bin added in turn. `gh[i]`
/// belongs to `rows[i]`.
pub open spec fn cell(
    packed: Seq<u64>,
    slot: int,
    bin: int,
    gh: Seq<[Single; 2]>,
    rows: Seq<u32>,
    n: nat,
    start: HistogramBin,
) -> HistogramBin
    decreases n,
{
    if n == 0 {
        start
    } else {
        let before = cell(packed, slot, bin, gh, rows, (n - 1) as nat, start);
        if packed_bin(packed[rows[n - 1] as int], slot) == bin {
            before.with(gh[n - 1])
        } else {
            before
        }
    }
}

/// The histogram of the feature in a slot of a bundle.
pub open spec fn slot_histogram(
    bundle: FeatureBundle,
    slot: int,
    gh: Seq<[Single; 2]>,
    rows: Seq<u32>,
) -> Seq<HistogramBin> {
    Seq::new(
        bundle.num_bins@[slot] as nat,
        |bin: int|
            cell(bundle.packed_bins@, slot, bin, gh, rows, rows.len(), HistogramBin::empty()),
    )
}

/// The histograms of the first `n` features of a bundle, one after the other.
pub open spec fn bundle_histogram(
    bundle: FeatureBundle,
    n: nat,
    gh: Seq<[Single; 2]>,
    rows: Seq<u32>,
) -> Seq<HistogramBin>
    decreases n,
{
    if n == 0 {
        Seq::empty()
    } else {
        bundle_histogram(bundle, (n - 1) as nat, gh, rows) + slot_histogram(bundle, n - 1, gh, rows)
    }
}

/// The histograms of all features of all bundles, one after the other.
pub open spec fn all_histograms(
    bundles: Seq<FeatureBundle>,
    gh: Seq<[Single; 2]>,
    rows: Seq<u32>,
) -> Seq<HistogramBin>
    decreases bundles.len(),
{
    if bundles.len() == 0 {
        Seq::empty()
    } else {
        all_histograms(bundles.drop_last(), gh, rows)
            + bundle_histogram(bundles.last(), bundles.last().count as nat, gh, rows)
    }
}

/// The number of bins of each feature of the bundles.
pub open spec fn feature_sizes(bundles: Seq<FeatureBundle>) -> Seq<usize>
    decreases bundles.len(),
{
    if bundles.len() == 0 {
        Seq::empty()
    } else {
        feature_sizes(bundles.drop_last()) + bundles.last().num_bins@
    }
}

/// Which features of the bundles are categorical.
pub open spec fn feature_kinds(bundles: Seq<FeatureBundle>) -> Seq<bool>
    decreases bundles.len(),
{
    if bundles.len() == 0 {
        Seq::empty()
    } else {
        feature_kinds(bundles.drop_last()) + bundles.last().is_categorical@
    }
}

pub open spec fn bundles_wf(bundles: Seq<FeatureBundle>) -> bool {
    &&& forall|b: int| 0 <= b < bundles.len() ==> (#[trigger] bundles[b]).wf()
    &&& total(feature_sizes(bundles), feature_sizes(bundles).len()) <= usize::MAX
}

/// Where each feature's bins start, and, last, where they all end.
pub open spec fn starts(sizes: Seq<usize>) -> Seq<usize> {
    Seq::new(sizes.len() + 1, |f: int| total(sizes, f as nat) as usize)
}

/// The contents of histograms.
#[verifier::ext_equal]
pub struct HistogramsView {
    pub bins: Seq<HistogramBin>,
    pub offsets: Seq<usize>,
    pub is_categorical: Seq<bool>,
}

impl HistogramsView {
    /// The bins of each feature lie between its offset and the next one, and there are 1
    /// to 256 of them.
    pub open spec fn wf(self) -> bool {
        &&& self.offsets.len() == self.is_categorical.len() + 1
        &&& self.offsets[0] == 0
        &&& self.offsets.last() == self.bins.len()
        &&& forall|f: int|
            0 <= f < self.is_categorical.len() ==> 1 <= #[trigger] self.offsets[f + 1]
                - self.offsets[f] <= 256
        &&& forall|f: int| 0 <= f < self.offsets.len() ==> #[trigger] self.offsets[f] <= self.bins.len()
    }

    /// The bins of one feature.
    pub open spec fn feature(self, f: int) -> Seq<HistogramBin> {
        self.bins.subrange(self.offsets[f] as int, self.offsets[f + 1] as int)
    }

    pub open spec fn minus_spec(self, other: HistogramsView) -> HistogramsView {
        HistogramsView {
            bins: Seq::new(self.bins.len(), |i: int| self.bins[i].minus_spec(other.bins[i])),
            ..self
        }
    }
}

/// The histograms of `rows` over the bundles.
pub open spec fn histograms_of(
    bundles: Seq<FeatureBundle>,
    gh: Seq<[Single; 2]>,
    rows: Seq<u32>,
) -> HistogramsView {
    HistogramsView {
        bins: all_histograms(bundles, gh, rows),
        offsets: starts(feature_sizes(bundles)),
        is_categorical: feature_kinds(bundles),
    }
}

/// The histograms of all features.
pub struct Histograms {
    /// The bins for all features in a contiguous block of memory.
    pub bins: Vec<HistogramBin>,
    /// The starting index of each feature's bins within the `bins` array.
    pub offsets: Vec<usize>,
    pub is_categorical: Vec<bool>,
}

impl View for Histograms {
    type V = HistogramsView;

    open spec fn view(&self) -> HistogramsView {
        HistogramsView {
            bins: self.bins@,
            offsets: self.offsets@,
            is_categorical: self.is_categorical@,
        }
    }
}

/// All bundles' features, one bundle at a time.
proof fn lemma_sizes_step(bundles: Seq<FeatureBundle>, b: int)
    requires
        0 <= b < bundles.len(),
        forall|b: int| 0 <= b < bundles.len() ==> (#[trigger] bundles[b]).wf(),
    ensures
        ({
            let next = bundles.take(b + 1);
            let this = bundles.take(b);
            &&& next.drop_last() =~= this
            &&& next.last() == bundles[b]
            &&& feature_sizes(next) == feature_sizes(this) + bundles[b].num_bins@
            &&& feature_kinds(next) == feature_kinds(this) + bundles[b].is_categorical@
            &&& total(feature_sizes(next), feature_sizes(next).len())
                == total(feature_sizes(this), feature_sizes(this).len()) + bundles[b].width()
        }),
{
    let next = bundles.take(b + 1);
    let this = bundles.take(b);
    assert(next.drop_last() =~= this);
    lemma_total_concat(feature_sizes(this), bundles[b].num_bins@, bundles[b].count as nat);
}

/// What holds of every prefix of the bundles.
pub(crate) proof fn lemma_sizes_facts(bundles: Seq<FeatureBundle>)
    requires
        forall|b: int| 0 <= b < bundles.len() ==> (#[trigger] bundles[b]).wf(),
    ensures
        feature_sizes(bundles).len() == feature_kinds(bundles).len(),
        forall|f: int| 0 <= f < feature_sizes(bundles).len() ==> 1 <= #[trigger] feature_sizes(bundles)[f] <= 256,
    decreases bundles.len(),
{
    if bundles.len() > 0 {
        assert forall|b: int| 0 <= b < bundles.drop_last().len() implies (#[trigger] bundles.drop_last()[b]).wf() by {
            assert(bundles.drop_last()[b] == bundles[b]);
        }
        lemma_sizes_facts(bundles.drop_last());
        let last = bundles.last();
        assert(last == bundles[bundles.len() - 1]);
        let sizes = feature_sizes(bundles.drop_last());
        assert forall|f: int| 0 <= f < feature_sizes(bundles).len() implies 1 <= #[trigger] feature_sizes(bundles)[f] <= 256 by {
            if f < sizes.len() {
                assert(feature_sizes(bundles)[f] == sizes[f]);
            } else {
                assert(feature_sizes(bundles)[f] == last.num_bins@[f - sizes.len()]);
            }
        }
    }
}

/// Sizes of a prefix of the bundles are a prefix of the sizes, and no larger in sum.
proof fn lemma_sizes_prefix(bundles: Seq<FeatureBundle>, b: int)
    requires
        0 <= b <= bundles.len(),
        forall|b: int| 0 <= b < bundles.len() ==> (#[trigger] bundles[b]).wf(),
    ensures
        total(feature_sizes(bundles.take(b)), feature_sizes(bundles.take(b)).len())
            <= total(feature_sizes(bundles), feature_sizes(bundles).len()),
    decreases bundles.len() - b,
{
    if b == bundles.len() {
        assert(bundles.take(b) =~= bundles);
    } else {
        lemma_sizes_prefix(bundles, b + 1);
        lemma_sizes_step(bundles, b);
    }
}

/// The layout of histograms over well-formed bundles is well formed.
pub proof fn lemma_histograms_wf(bundles: Seq<FeatureBundle>, bins: Seq<HistogramBin>)
    requires
        bundles_wf(bundles),
        bins.len() == total(feature_sizes(bundles), feature_sizes(bundles).len()),
    ensures
        (HistogramsView {
            bins,
            offsets: starts(feature_sizes(bundles)),
            is_categorical: feature_kinds(bundles),
        }).wf(),
{
    let sizes = feature_sizes(bundles);
    lemma_sizes_facts(bundles);
    let offsets = starts(sizes);
    assert forall|f: int| 0 <= f < offsets.len() implies #[trigger] offsets[f] <= bins.len()
        && offsets[f] == total(sizes, f as nat) by {
        lemma_total_monotone(sizes, f as nat, sizes.len());
    }
    assert forall|f: int| 0 <= f < sizes.len() implies 1 <= #[trigger] offsets[f + 1] - offsets[f] <= 256 by {
        assert(offsets[f] <= bins.len());
        assert(total(sizes, (f + 1) as nat) == total(sizes, f as nat) + sizes[f]);
    }
}

pub(crate) proof fn lemma_bundle_histogram_len(bundle: FeatureBundle, n: nat, gh: Seq<[Single; 2]>, rows: Seq<u32>)
    requires
        n <= bundle.num_bins@.len(),
    ensures
        bundle_histogram(bundle, n, gh, rows).len() == total(bundle.num_bins@, n),
    decreases n,
{
    if n > 0 {
        lemma_bundle_histogram_len(bundle, (n - 1) as nat, gh, rows);
    }
}

/// A bundle's histogram, bin by bin.
proof fn lemma_bundle_histogram_at(
    bundle: FeatureBundle,
    n: nat,
    gh: Seq<[Single; 2]>,
    rows: Seq<u32>,
    bins: Seq<HistogramBin>,
)
    requires
        n <= bundle.num_bins@.len(),
        bins.len() == total(bundle.num_bins@, n),
        forall|s: int, x: int|
            0 <= s < n && 0 <= x < bundle.num_bins@[s] ==> #[trigger] bins[total(bundle.num_bins@, s as nat) + x]
                == cell(bundle.packed_bins@, s, x, gh, rows, rows.len(), HistogramBin::empty()),
    ensures
        bins == bundle_histogram(bundle, n, gh, rows),
    decreases n,
{
    let sizes = bundle.num_bins@;
    lemma_bundle_histogram_len(bundle, n, gh, rows);
    if n > 0 {
        let m = (n - 1) as nat;
        let head = bins.take(total(sizes, m) as int);
        assert forall|s: int, x: int| 0 <= s < m && 0 <= x < sizes[s] implies #[trigger] head[total(sizes, s as nat) + x]
            == cell(bundle.packed_bins@, s, x, gh, rows, rows.len(), HistogramBin::empty()) by {
            lemma_total_monotone(sizes, (s + 1) as nat, m);
            assert(head[total(sizes, s as nat) + x] == bins[total(sizes, s as nat) + x]);
        }
        lemma_bundle_histogram_at(bundle, m, gh, rows, head);
        let tail = slot_histogram(bundle, m as int, gh, rows);
        assert forall|i: int| 0 <= i < bins.len() implies bins[i] == (head + tail)[i] by {
            if i >= total(sizes, m) {
                let x = i - total(sizes, m);
                assert(bins[total(sizes, m) + x] == cell(bundle.packed_bins@, m as int, x, gh, rows, rows.len(), HistogramBin::empty()));
            }
        }
        assert(bins =~= head + tail);
    } else {
        assert(bins =~= Seq::empty());
    }
}

pub(crate) proof fn lemma_all_histograms_len(bundles: Seq<FeatureBundle>, gh: Seq<[Single; 2]>, rows: Seq<u32>)
    requires
        forall|b: int| 0 <= b < bundles.len() ==> (#[trigger] bundles[b]).wf(),
    ensures
        all_histograms(bundles, gh, rows).len() == total(feature_sizes(bundles), feature_sizes(bundles).len()),
    decreases bundles.len(),
{
    if bundles.len() > 0 {
        let b = bundles.len() - 1;
        assert(bundles.take(b + 1) =~= bundles);
        assert(bundles.drop_last() =~= bundles.take(b));
        lemma_sizes_step(bundles, b);
        lemma_all_histograms_len(bundles.drop_last(), gh, rows);
        lemma_bundle_histogram_len(bundles[b], bundles[b].count as nat, gh, rows);
    }
}

/// Histograms of rows are laid out as their bundles say.
pub proof fn lemma_histograms_of_wf(bundles: Seq<FeatureBundle>, gh: Seq<[Single; 2]>, rows: Seq<u32>)
    requires
        bundles_wf(bundles),
    ensures
        histograms_of(bundles, gh, rows).wf(),
{
    lemma_all_histograms_len(bundles, gh, rows);
    lemma_histograms_wf(bundles, all_histograms(bundles, gh, rows));
}

/// A slot's bins do not meet another slot's.
proof fn lemma_slots_apart(sizes: Seq<usize>, s: int, x: int, t: int, y: int)
    requires
        0 <= s < sizes.len(),
        0 <= t < sizes.len(),
        0 <= x < sizes[s],
        0 <= y < sizes[t],
        total(sizes, s as nat) + x == total(sizes, t as nat) + y,
    ensures
        s == t,
        x == y,
{
    if s < t {
        lemma_total_monotone(sizes, (s + 1) as nat, t as nat);
    } else if t < s {
        lemma_total_monotone(sizes, (t + 1) as nat, s as nat);
    }
}

impl Histograms {
    /// Empty histograms for the features of the bundles.
    pub fn zeros(bundles: &[FeatureBundle]) -> (h: Self)
        requires
            bundles_wf(bundles@),
        ensures
            h@.offsets == starts(feature_sizes(bundles@)),
            h@.is_categorical == feature_kinds(bundles@),
            h@.bins == Seq::new(
                total(feature_sizes(bundles@), feature_sizes(bundles@).len()),
                |i: int| HistogramBin::empty(),
            ),
            h@.wf(),
    {
        let mut offsets: Vec<usize> = Vec::new();
        let mut is_categorical: Vec<bool> = Vec::new();
        let mut offset: usize = 0;
        let ghost all = bundles@;
        proof {
            assert(all.take(0) =~= Seq::empty());
        }
        for b in 0..bundles.len()
            invariant
                all == bundles@,
                bundles_wf(all),
                is_categorical@ == feature_kinds(all.take(b as int)),
                offset == total(feature_sizes(all.take(b as int)), feature_sizes(all.take(b as int)).len()),
                offsets@.len() == feature_sizes(all.take(b as int)).len(),
                forall|f: int| 0 <= f < offsets@.len() ==> #[trigger] offsets@[f]
                    == total(feature_sizes(all.take(b as int)), f as nat),
        {
            let bundle = &bundles[b];
            let ghost this = feature_sizes(all.take(b as int));
            let ghost next = feature_sizes(all.take(b as int + 1));
            let ghost kinds = feature_kinds(all.take(b as int));
            proof {
                lemma_sizes_step(all, b as int);
                lemma_sizes_prefix(all, b as int + 1);
                assert(next == this + bundle.num_bins@);
                assert forall|f: int| 0 <= f < offsets@.len() implies #[trigger] offsets@[f] == total(next, f as nat) by {
                    lemma_total_prefix(this, next, f as nat);
                }
                lemma_total_prefix(this, next, this.len());
            }
            for i in 0..bundle.count
                invariant
                    bundle.wf(),
                    next == this + bundle.num_bins@,
                    is_categorical@ == kinds + bundle.is_categorical@.take(i as int),
                    offset == total(next, (this.len() + i) as nat),
                    total(next, next.len()) <= usize::MAX,
                    offsets@.len() == this.len() + i,
                    forall|f: int| 0 <= f < offsets@.len() ==> #[trigger] offsets@[f] == total(next, f as nat),
            {
                proof {
                    lemma_total_monotone(next, (this.len() + i + 1) as nat, next.len());
                    assert(next[this.len() + i as int] == bundle.num_bins@[i as int]);
                }
                offsets.push(offset);
                offset = offset + bundle.num_bins[i];
                is_categorical.push(bundle.is_categorical[i]);
                proof {
                    assert(bundle.is_categorical@.take(i as int).push(bundle.is_categorical@[i as int])
                        =~= bundle.is_categorical@.take(i as int + 1));
                }
            }
            proof {
                assert(bundle.is_categorical@.take(bundle.count as int) =~= bundle.is_categorical@);
            }
        }
        proof {
            assert(all.take(bundles@.len() as int) =~= all);
        }
        offsets.push(offset);
        let bins = vec![HistogramBin::default(); offset];
        let h = Histograms { bins, offsets, is_categorical };
        proof {
            assert(h@.offsets =~= starts(feature_sizes(all))) by {
                assert forall|f: int| 0 <= f < h@.offsets.len() implies h@.offsets[f] == starts(feature_sizes(all))[f] by {
                    lemma_total_monotone(feature_sizes(all), f as nat, feature_sizes(all).len());
                }
            }
            assert(h@.bins =~= Seq::new(offset as nat, |i: int| HistogramBin::empty()));
            lemma_histograms_wf(all, h@.bins);
        }
        h
    }

    /// Adds the gradients and hessians of `row_indices` to the bins of all features of a
    /// bundle in one pass. `packed_gh[i]` belongs to `row_indices[i]`; the features' bins
    /// lie one after the other at the front of `bins`.
    pub fn build_into(
        bundle: &FeatureBundle,
        packed_gh: &[[Single; 2]],
        row_indices: &[u32],
        bins: &mut [HistogramBin],
    )
        requires
            bundle.wf(),
            row_indices@.len() <= packed_gh@.len(),
            forall|i: int| 0 <= i < row_indices@.len() ==> (#[trigger] row_indices@[i]) < bundle.packed_bins@.len(),
            bundle.width() <= old(bins)@.len(),
        ensures
            final(bins)@.len() == old(bins)@.len(),
            forall|s: int, x: int|
                0 <= s < bundle.count && 0 <= x < bundle.num_bins@[s] ==> #[trigger] final(bins)@[total(bundle.num_bins@, s as nat) + x]
                    == cell(bundle.packed_bins@, s, x, packed_gh@, row_indices@, row_indices@.len(),
                        old(bins)@[total(bundle.num_bins@, s as nat) + x]),
            forall|i: int| bundle.width() <= i < old(bins)@.len() ==> #[trigger] final(bins)@[i] == old(bins)@[i],
    {
        let ghost sizes = bundle.num_bins@;
        let ghost start = bins@;
        let len = bins.len();
        let mut offsets: Vec<usize> = Vec::new();
        let mut offset: usize = 0;
        for s in 0..bundle.count
            invariant
                bundle.wf(),
                sizes == bundle.num_bins@,
                bundle.width() <= len,
                bins@ == start,
                offsets@.len() == s,
                offset == total(sizes, s as nat),
                forall|t: int| 0 <= t < s ==> #[trigger] offsets@[t] == total(sizes, t as nat),
        {
            offsets.push(offset);
            proof {
                lemma_total_monotone(sizes, (s + 1) as nat, bundle.count as nat);
            }
            offset = offset + bundle.num_bins[s];
        }
        for i in 0..row_indices.len()
            invariant
                bundle.wf(),
                sizes == bundle.num_bins@,
                bins@.len() == start.len(),
                bundle.width() <= start.len() == len,
                row_indices@.len() <= packed_gh@.len(),
                forall|i: int| 0 <= i < row_indices@.len() ==> (#[trigger] row_indices@[i]) < bundle.packed_bins@.len(),
                offsets@.len() == bundle.count,
                forall|t: int| 0 <= t < bundle.count ==> #[trigger] offsets@[t] == total(sizes, t as nat),
                forall|s: int, x: int|
                    0 <= s < bundle.count && 0 <= x < sizes[s] ==> #[trigger] bins@[total(sizes, s as nat) + x]
                        == cell(bundle.packed_bins@, s, x, packed_gh@, row_indices@, i as nat, start[total(sizes, s as nat) + x]),
                forall|i: int| bundle.width() <= i < start.len() ==> #[trigger] bins@[i] == start[i],
        {
            let row = row_indices[i] as usize;
            let gh = packed_gh[i];
            let word = bundle.packed_bins[row];
            for s in 0..bundle.count
                invariant
                    bundle.wf(),
                    sizes == bundle.num_bins@,
                    bins@.len() == start.len(),
                    bundle.width() <= start.len() == len,
                    i < row_indices@.len() <= packed_gh@.len(),
                    row == row_indices@[i as int],
                    row < bundle.packed_bins@.len(),
                    gh == packed_gh@[i as int],
                    word == bundle.packed_bins@[row as int],
                    offsets@.len() == bundle.count,
                    forall|t: int| 0 <= t < bundle.count ==> #[trigger] offsets@[t] == total(sizes, t as nat),
                    forall|t: int, x: int|
                        0 <= t < bundle.count && 0 <= x < sizes[t] ==> #[trigger] bins@[total(sizes, t as nat) + x]
                            == cell(bundle.packed_bins@, t, x, packed_gh@, row_indices@,
                                if t < s { (i + 1) as nat } else { i as nat }, start[total(sizes, t as nat) + x]),
                    forall|i: int| bundle.width() <= i < start.len() ==> #[trigger] bins@[i] == start[i],
            {
                let bin = unpack(word, s) as usize;
                let ghost before = bins@;
                proof {
                    assert(packed_bin(bundle.packed_bins@[row as int], s as int) < sizes[s as int]);
                    lemma_total_monotone(sizes, (s + 1) as nat, bundle.count as nat);
                    assert(offsets@[s as int] == total(sizes, s as nat));
                }
                let at: usize = offsets[s] + bin;
                let mut b = bins[at];
                b.add(gh);
                bins[at] = b;
                proof {
                    assert forall|t: int, x: int|
                        0 <= t < bundle.count && 0 <= x < sizes[t] implies #[trigger] bins@[total(sizes, t as nat) + x]
                            == cell(bundle.packed_bins@, t, x, packed_gh@, row_indices@,
                                if t < s + 1 { (i + 1) as nat } else { i as nat }, start[total(sizes, t as nat) + x]) by {
                        lemma_total_monotone(sizes, (t + 1) as nat, bundle.count as nat);
                        let j = total(sizes, t as nat) + x;
                        assert(before[j] == cell(bundle.packed_bins@, t, x, packed_gh@, row_indices@,
                            if t < s { (i + 1) as nat } else { i as nat }, start[j]));
                        if j == at {
                            lemma_slots_apart(sizes, t, x, s as int, bin as int);
                        } else if t == s {
                            assert(x != bin);
                        }
                    }
                }
            }
        }
    }
}

/// One bundle's histograms.
fn build_bundle(bundle: &FeatureBundle, grad_hess: &[[Single; 2]], indices: &[u32], width: usize) -> (bins: Vec<HistogramBin>)
    requires
        bundle.wf(),
        indices@.len() <= grad_hess@.len(),
        forall|i: int| 0 <= i < indices@.len() ==> (#[trigger] indices@[i]) < bundle.packed_bins@.len(),
        width == bundle.width(),
    ensures
        bins@ == bundle_histogram(*bundle, bundle.count as nat, grad_hess@, indices@),
{
    let mut bins = vec![HistogramBin::default(); width];
    let ghost start = bins@;
    Histograms::build_into(bundle, grad_hess, indices, bins.as_mut_slice());
    proof {
        let sizes = bundle.num_bins@;
        assert forall|s: int, x: int| 0 <= s < bundle.count && 0 <= x < sizes[s] implies #[trigger] bins@[total(sizes, s as nat) + x]
            == cell(bundle.packed_bins@, s, x, grad_hess@, indices@, indices@.len(), HistogramBin::empty()) by {
            lemma_total_monotone(sizes, (s + 1) as nat, bundle.count as nat);
            assert(start[total(sizes, s as nat) + x] == HistogramBin::empty());
        }
        lemma_bundle_histogram_at(*bundle, bundle.count as nat, grad_hess@, indices@, bins@);
    }
    bins
}

impl Histograms {
    /// The histograms of the rows `indices`; `grad_hess[i]` belongs to `indices[i]`. With a
    /// pool, each bundle is a task of its own.
    pub fn build(
        bundles: &[FeatureBundle],
        grad_hess: &[[Single; 2]],
        indices: &[u32],
        pool: Option<&rayon::ThreadPool>,
    ) -> (h: Self)
        requires
            bundles_wf(bundles@),
            indices@.len() <= grad_hess@.len(),
            forall|b: int, i: int|
                0 <= b < bundles@.len() && 0 <= i < indices@.len() ==>
                    (#[trigger] indices@[i]) < (#[trigger] bundles@[b]).packed_bins@.len(),
        ensures
            h@ == histograms_of(bundles@, grad_hess@, indices@),
            h@.wf(),
    {
        let mut h = Self::zeros(bundles);
        let ghost all = bundles@;
        let mut widths: Vec<usize> = Vec::new();
        for b in 0..bundles.len()
            invariant
                all == bundles@,
                bundles_wf(all),
                widths@.len() == b,
                forall|c: int| 0 <= c < b ==> #[trigger] widths@[c] == all[c].width(),
        {
            let bundle = &bundles[b];
            let mut width: usize = 0;
            proof {
                lemma_sizes_step(all, b as int);
                lemma_sizes_prefix(all, b as int + 1);
            }
            for s in 0..bundle.count
                invariant
                    bundle.wf(),
                    bundle.width() <= usize::MAX,
                    width == total(bundle.num_bins@, s as nat),
            {
                proof {
                    lemma_total_monotone(bundle.num_bins@, (s + 1) as nat, bundle.count as nat);
                }
                width = width + bundle.num_bins[s];
            }
            widths.push(width);
        }
        let mut bins: Vec<HistogramBin> = Vec::new();
        proof {
            assert(all.take(0) =~= Seq::empty());
        }
        match pool {
            None => {
                for b in 0..bundles.len()
                    invariant
                        all == bundles@,
                        bundles_wf(all),
                        indices@.len() <= grad_hess@.len(),
                        forall|b: int, i: int|
                            0 <= b < bundles@.len() && 0 <= i < indices@.len() ==>
                                (#[trigger] indices@[i]) < (#[trigger] bundles@[b]).packed_bins@.len(),
                        widths@.len() == all.len(),
                        forall|c: int| 0 <= c < all.len() ==> #[trigger] widths@[c] == all[c].width(),
                        bins@ == all_histograms(all.take(b as int), grad_hess@, indices@),
                {
                    assert(all[b as int].wf());
                    let mut part = build_bundle(&bundles[b], grad_hess, indices, widths[b]);
                    bins.append(&mut part);
                    proof {
                        lemma_sizes_step(all, b as int);
                    }
                }
            },
            Some(pool) => {
                let f = |b: usize| -> (part: Vec<HistogramBin>)
                    requires
                        b < bundles@.len(),
                        bundles@[b as int].wf(),
                        indices@.len() <= grad_hess@.len(),
                        forall|i: int| 0 <= i < indices@.len() ==> (#[trigger] indices@[i]) < bundles@[b as int].packed_bins@.len(),
                        widths@.len() == bundles@.len(),
                        widths@[b as int] == bundles@[b as int].width(),
                    ensures
                        part@ == bundle_histogram(bundles@[b as int], bundles@[b as int].count as nat, grad_hess@, indices@),
                {
                    build_bundle(&bundles[b], grad_hess, indices, widths[b])
                };
                let mut parts = parallel_map(pool, bundles.len(), f);
                for b in 0..bundles.len()
                    invariant
                        all == bundles@,
                        bundles_wf(all),
                        parts@.len() == all.len(),
                        forall|c: int| b <= c < all.len() ==> (#[trigger] parts@[c])@
                            == bundle_histogram(all[c], all[c].count as nat, grad_hess@, indices@),
                        bins@ == all_histograms(all.take(b as int), grad_hess@, indices@),
                {
                    bins.append(&mut parts[b]);
                    proof {
                        lemma_sizes_step(all, b as int);
                    }
                }
            },
        }
        proof {
            assert(all.take(bundles@.len() as int) =~= all);
            lemma_histograms_of_wf(all, grad_hess@, indices@);
        }
        h.bins = bins;
        h
    }

    /// Takes another set of histograms away, bin by bin.
    pub fn subtract(&mut self, other: &Self)
        requires
            old(self)@.bins.len() == other@.bins.len(),
        ensures
            final(self)@ == old(self)@.minus_spec(other@),
    {
        let ghost start = self@;
        let n = self.bins.len();
        for i in 0..n
            invariant
                self.bins@.len() == start.bins.len() == n,
                start.bins.len() == other.bins@.len(),
                self.offsets@ == start.offsets,
                self.is_categorical@ == start.is_categorical,
                forall|j: int| 0 <= j < i ==> #[trigger] self.bins@[j] == start.bins[j].minus_spec(other.bins@[j]),
                forall|j: int| i <= j < start.bins.len() ==> #[trigger] self.bins@[j] == start.bins[j],
        {
            let difference = self.bins[i].minus(other.bins[i]);
            self.bins[i] = difference;
        }
        proof {
            assert(self@ =~= start.minus_spec(other@));
        }
    }
}

proof fn lemma_cell_prefix(
    packed: Seq<u64>,
    slot: int,
    bin: int,
    gh: Seq<[Single; 2]>,
    rows: Seq<u32>,
    more_gh: Seq<[Single; 2]>,
    more: Seq<u32>,
    n: nat,
    start: HistogramBin,
)
    requires
        n <= rows.len(),
        gh.len() == rows.len(),
    ensures
        cell(packed, slot, bin, gh + more_gh, rows + more, n, start) == cell(packed, slot, bin, gh, rows, n, start),
    decreases n,
{
    if n > 0 {
        lemma_cell_prefix(packed, slot, bin, gh, rows, more_gh, more, (n - 1) as nat, start);
        assert((rows + more)[n - 1] == rows[n - 1]);
        assert((gh + more_gh)[n - 1] == gh[n - 1]);
    }
}

/// Adding up rows in two goes gives what adding them up in one does: the second goes on from what
/// the first has left, and a row is added to the bin that it falls into, and to no other.
pub proof fn law_building_goes_on_from_what_is_there(
    packed: Seq<u64>,
    slot: int,
    bin: int,
    gh: Seq<[Single; 2]>,
    rows: Seq<u32>,
    more_gh: Seq<[Single; 2]>,
    more: Seq<u32>,
    n: nat,
    start: HistogramBin,
)
    requires
        gh.len() == rows.len(),
        n <= more.len(),
        more_gh.len() == more.len(),
    ensures
        cell(packed, slot, bin, gh + more_gh, rows + more, rows.len() + n, start) == cell(
            packed,
            slot,
            bin,
            more_gh,
            more,
            n,
            cell(packed, slot, bin, gh, rows, rows.len(), start),
        ),
        cell(packed, slot, bin, gh, rows, 0, start) == start,
        rows.len() > 0 ==> cell(packed, slot, bin, gh, rows, 1, start) == if packed_bin(packed[rows[0] as int], slot) == bin {
            HistogramBin {
                sum_gradients: start.sum_gradients.plus_spec(gh[0]@[0].widen_spec()),
                sum_hessians: start.sum_hessians.plus_spec(gh[0]@[1].widen_spec()),
            }
        } else {
            start
        },
    decreases n,
{
    assert(cell(packed, slot, bin, gh, rows, 0, start) == start);
    if n == 0 {
        lemma_cell_prefix(packed, slot, bin, gh, rows, more_gh, more, rows.len(), start);
    } else {
        law_building_goes_on_from_what_is_there(packed, slot, bin, gh, rows, more_gh, more, (n - 1) as nat, start);
        assert((rows + more)[rows.len() + n - 1] == more[n - 1]);
        assert((gh + more_gh)[rows.len() + n - 1] == more_gh[n - 1]);
    }
}

} // verus!
