//! Feature binning: the bins of a feature, and the bin of each of its values.

use ahash::AHashMap;
use vstd::arithmetic::power2::{lemma2_to64_rest, pow2};
use vstd::prelude::*;

pub use crate::bounds::{greedy_find_bins, MAX_NUM_BINS};
use crate::bounds::{
    ascending_numbers, greedy_bounds, lemma_fewer_bounds, lemma_greedy_bounds, most_bins, partitioned, valid_bounds,
};
use crate::categories::{
    category_bins, copy_categories, count_categories, lookup_category, no_categories, set_category,
};
use crate::column::{text_of, widened, Column, ColumnView};
use crate::double::{Double, Single, INFINITY_BITS};
use crate::sampling::{lemma_map_by_contents, lemma_sorted_by_contents, sample, sampled, sort, sorted};

verus! {

/// The most values from which bin bounds are found.
pub const MAX_SAMPLE: usize = 200_000;

/// Bin mapping rules. Missing values, not-a-numbers and unknown categories have a bin of
/// their own after all the others.
pub enum FeatureBinner {
    /// Upper bounds, inclusive. For the bins (-inf, 0] and (0, inf] the bounds are 0 and inf.
    Numerical(Vec<Double>),
    /// The bin of each category.
    Categorical(AHashMap<String, u8>),
}

#[verifier::ext_equal]
pub enum BinnerView {
    Numerical(Seq<Double>),
    Categorical(Map<Seq<char>, u8>),
}

impl View for FeatureBinner {
    type V = BinnerView;

    open spec fn view(&self) -> BinnerView {
        match self {
            FeatureBinner::Numerical(bounds) => BinnerView::Numerical(bounds@),
            FeatureBinner::Categorical(categories) => BinnerView::Categorical(category_bins(*categories)),
        }
    }
}

/// How many of the first `n` bounds lie below a number.
pub open spec fn count_below(bounds: Seq<Double>, x: Double, n: nat) -> nat
    decreases n,
{
    if n == 0 {
        0
    } else {
        count_below(bounds, x, (n - 1) as nat) + if bounds[n - 1].lt_spec(x) { 1nat } else { 0 }
    }
}

/// The bin of a number: the first one whose upper bound is not below it.
pub open spec fn number_bin(bounds: Seq<Double>, x: Option<Double>) -> u8 {
    match x {
        Some(x) if !x.nan() => count_below(bounds, x, bounds.len()) as u8,
        _ => bounds.len() as u8,
    }
}

/// The bin of a category.
pub open spec fn category_bin(categories: Map<Seq<char>, u8>, category: Option<Seq<char>>) -> u8 {
    match category {
        Some(c) if categories.contains_key(c) => categories[c],
        _ => categories.len() as u8,
    }
}

impl BinnerView {
    /// The number of bins, the one for missing values included.
    pub open spec fn num_bins(self) -> nat {
        match self {
            BinnerView::Numerical(bounds) => bounds.len() + 1,
            BinnerView::Categorical(categories) => categories.len() + 1,
        }
    }

    /// Bin indices fit a byte, and numeric bounds can be searched.
    pub open spec fn valid(self) -> bool {
        match self {
            BinnerView::Numerical(bounds) => valid_bounds(bounds),
            BinnerView::Categorical(categories) => categories.len() <= MAX_NUM_BINS,
        }
    }

    /// Numeric bounds that values can be searched through.
    pub open spec fn searchable(self) -> bool {
        self matches BinnerView::Numerical(bounds) ==> partitioned(bounds)
    }

    /// The bin of a row can be found: it holds a category, a missing value, or a number at which
    /// the bounds are parted.
    pub open spec fn parted_at(self, column: ColumnView, row: int) -> bool {
        match (self, column) {
            (BinnerView::Numerical(bounds), ColumnView::Numbers(x)) => x[row] is None || x[row]->0.nan() || parted_at(
                bounds,
                x[row]->0,
            ),
            _ => true,
        }
    }

    /// Bin indices fit a byte, and values can be searched for.
    pub open spec fn usable(self) -> bool {
        self.num_bins() <= 256 && self.searchable()
    }

    /// A valid binner that gives no category the bin for missing values, or one beyond it.
    pub open spec fn wf(self) -> bool {
        &&& self.valid()
        &&& self matches BinnerView::Categorical(categories) ==> forall|c: Seq<char>|
            categories.contains_key(c) ==> (#[trigger] categories[c]) < categories.len()
    }

    /// The kind of column that the binner is for.
    pub open spec fn fits(self, column: ColumnView) -> bool {
        match self {
            BinnerView::Numerical(_) => column is Numbers,
            BinnerView::Categorical(_) => column is Categories,
        }
    }

    /// The bin of each row of a column.
    pub open spec fn bins(self, column: ColumnView) -> Seq<u8> {
        match (self, column) {
            (BinnerView::Numerical(bounds), ColumnView::Numbers(x)) => Seq::new(
                x.len(),
                |row: int| number_bin(bounds, x[row]),
            ),
            (BinnerView::Categorical(categories), _) => Seq::new(
                column.len(),
                |row: int| category_bin(categories, column.category(row)),
            ),
            _ => Seq::empty(),
        }
    }
}

/// A row without a value: missing, or not a number.
pub open spec fn missing(column: ColumnView, row: int) -> bool {
    match column {
        ColumnView::Numbers(x) => x[row] matches Some(v) ==> v.nan(),
        ColumnView::Categories { .. } => column.category(row) is None,
    }
}

/// The positions in the order of numbers of the first `n` values that are numbers.
pub open spec fn valid_keys(x: Seq<Option<Double>>, n: nat) -> Seq<i64>
    decreases n,
{
    if n == 0 {
        Seq::empty()
    } else {
        let before = valid_keys(x, (n - 1) as nat);
        match x[n - 1] {
            Some(v) if !v.nan() => before.push(v.ordinal() as i64),
            _ => before,
        }
    }
}

/// The numbers at the given positions.
pub open spec fn numbers_at(keys: Seq<i64>) -> Seq<Double> {
    keys.map_values(|k: i64| Double::from_order_key_spec(k as int))
}

/// The bounds found from a sample of positions.
pub open spec fn sample_bounds(sample: Seq<i64>, max_bin: nat, min_data_in_bin: nat) -> Seq<Double> {
    greedy_bounds(numbers_at(sorted(sample)), max_bin, min_data_in_bin)
}

/// The categories among the first `n` dictionary values, numbered in the order in which they
/// first occur. Nulls are no categories.
pub open spec fn numbered(values: Seq<Option<Seq<char>>>, n: nat) -> Map<Seq<char>, u8>
    decreases n,
{
    if n == 0 {
        Map::empty()
    } else {
        let before = numbered(values, (n - 1) as nat);
        match values[n - 1] {
            Some(c) if !before.contains_key(c) => before.insert(c, before.len() as u8),
            _ => before,
        }
    }
}

/// The binner of a column.
pub open spec fn binner_of(column: ColumnView, max_bin: nat, min_data_in_bin: nat, seed: u64) -> BinnerView {
    match column {
        ColumnView::Numbers(x) => BinnerView::Numerical(
            sample_bounds(sampled(valid_keys(x, x.len()), seed, MAX_SAMPLE as nat), max_bin, min_data_in_bin),
        ),
        ColumnView::Categories { values, .. } => BinnerView::Categorical(numbered(values, values.len())),
    }
}

/// The binner of a column all of whose numbers are used.
pub open spec fn whole_binner(column: ColumnView, max_bin: nat, min_data_in_bin: nat) -> BinnerView {
    match column {
        ColumnView::Numbers(x) => BinnerView::Numerical(
            sample_bounds(valid_keys(x, x.len()), max_bin, min_data_in_bin),
        ),
        ColumnView::Categories { values, .. } => BinnerView::Categorical(numbered(values, values.len())),
    }
}

/// The column has no more numbers than bounds are found from.
pub open spec fn small(column: ColumnView) -> bool {
    column matches ColumnView::Numbers(x) ==> valid_keys(x, x.len()).len() <= MAX_SAMPLE
}

/// A column can be binned: it has fewer than `max_bin` categories.
pub open spec fn binnable(column: ColumnView, max_bin: nat) -> bool {
    &&& column.wf()
    &&& max_bin <= MAX_NUM_BINS
    &&& column matches ColumnView::Categories { values, .. } ==> numbered(values, values.len()).len() < max_bin
}

/// Positions of numbers, the infinities included.
pub open spec fn number_keys(keys: Seq<i64>) -> bool {
    forall|i: int| 0 <= i < keys.len() ==> -INFINITY_BITS <= #[trigger] keys[i] <= INFINITY_BITS
}

/// The positions of the numbers of a numeric column.
fn collect_keys(column: &Column) -> (keys: Vec<i64>)
    requires
        column@ is Numbers,
    ensures
        keys@ == valid_keys(column@->Numbers_0, column@.len()),
        number_keys(keys@),
{
    let n = column.len();
    let mut keys: Vec<i64> = Vec::new();
    let mut i: usize = 0;
    while i < n
        invariant
            i <= n,
            n == column@.len(),
            column@ is Numbers,
            keys@ == valid_keys(column@->Numbers_0, i as nat),
            number_keys(keys@),
        decreases n - i,
    {
        if let Some(x) = column.number(i) {
            if !x.is_nan() {
                keys.push(x.order_key());
            }
        }
        i += 1;
    }
    keys
}

/// The bounds found from a sample of values, given as their positions in the order of numbers.
pub fn find_bounds(sample: Vec<i64>, max_bin: usize, min_data_in_bin: usize) -> (bounds: Vec<Double>)
    requires
        number_keys(sample@),
        max_bin <= MAX_NUM_BINS,
    ensures
        bounds@ == sample_bounds(sample@, max_bin as nat, min_data_in_bin as nat),
        valid_bounds(bounds@),
        max_bin >= 2 || sample@.len() <= pow2(53) ==> bounds@.len() <= most_bins(max_bin as nat),
{
    let mut keys = sample;
    sort(&mut keys);
    let n = keys.len();
    let mut values: Vec<Double> = Vec::new();
    let mut i: usize = 0;
    assert(number_keys(keys@)) by {
        assert forall|i: int| 0 <= i < keys@.len() implies -INFINITY_BITS <= #[trigger] keys@[i] <= INFINITY_BITS by {
            assert(sample@.contains(keys@[i]));
        }
    }
    while i < n
        invariant
            i <= n,
            n == keys@.len(),
            number_keys(keys@),
            values@ == numbers_at(keys@.take(i as int)),
            forall|k: int| 0 <= k < i ==> (#[trigger] values@[k]).ordinal() == keys@[k],
        decreases n - i,
    {
        values.push(Double::from_order_key(keys[i]));
        proof {
            assert(values@ =~= numbers_at(keys@.take(i + 1)));
        }
        i += 1;
    }
    proof {
        assert(keys@.take(n as int) =~= keys@);
        assert forall|k: int| 0 <= k < values@.len() implies !(#[trigger] values@[k]).nan() by {
            assert(values@[k].ordinal() == keys@[k]);
        }
        assert(ascending_numbers(values@));
        lemma_greedy_bounds(values@, max_bin as nat, min_data_in_bin as nat);
    }
    greedy_find_bins(&values, max_bin, min_data_in_bin)
}

proof fn lemma_numbered(values: Seq<Option<Seq<char>>>, n: nat)
    requires
        n <= values.len(),
    ensures
        numbered(values, n).dom().finite(),
        numbered(values, n).len() <= n,
        numbered(values, n).len() <= 256 ==> forall|c: Seq<char>|
            numbered(values, n).contains_key(c) ==> (#[trigger] numbered(values, n)[c]) < numbered(values, n).len(),
        numbered(values, n).len() <= 256 ==> forall|a: Seq<char>, b: Seq<char>|
            numbered(values, n).contains_key(a) && numbered(values, n).contains_key(b) && a != b ==> (
            #[trigger] numbered(values, n)[a]) != (#[trigger] numbered(values, n)[b]),
    decreases n,
{
    if n > 0 {
        lemma_numbered(values, (n - 1) as nat);
    }
}

/// The categories are numbered from zero in the order in which they first occur, and no two
/// of them alike.
pub proof fn law_categories_are_numbered(values: Seq<Option<Seq<char>>>, n: nat)
    requires
        n <= values.len(),
        numbered(values, n).len() <= 256,
    ensures
        forall|c: Seq<char>|
            numbered(values, n).contains_key(c) ==> (#[trigger] numbered(values, n)[c]) < numbered(values, n).len(),
        forall|a: Seq<char>, b: Seq<char>|
            numbered(values, n).contains_key(a) && numbered(values, n).contains_key(b) && a != b ==> (
            #[trigger] numbered(values, n)[a]) != (#[trigger] numbered(values, n)[b]),
        forall|i: int|
            0 <= i < n ==> (#[trigger] values[i] matches Some(c) ==> {
                &&& numbered(values, n).contains_key(c)
                &&& !numbered(values, i as nat).contains_key(c) ==> numbered(values, n)[c] == numbered(
                    values,
                    i as nat,
                ).len()
            }),
    decreases n,
{
    lemma_numbered(values, n);
    if n > 0 {
        lemma_numbered(values, (n - 1) as nat);
        law_categories_are_numbered(values, (n - 1) as nat);
    }
}

/// A text is among the first `n` dictionary values.
pub open spec fn is_value(values: Seq<Option<Seq<char>>>, n: nat, c: Seq<char>) -> bool {
    exists|i: int| 0 <= i < n && #[trigger] values[i] == Some(c)
}

/// The categories are the dictionary values, and nothing else: no category stands for a null.
pub proof fn law_only_values_are_categories(values: Seq<Option<Seq<char>>>, n: nat)
    requires
        n <= values.len(),
    ensures
        forall|c: Seq<char>| #[trigger] numbered(values, n).contains_key(c) <==> is_value(values, n, c),
    decreases n,
{
    if n > 0 {
        law_only_values_are_categories(values, (n - 1) as nat);
        let before = numbered(values, (n - 1) as nat);
        assert forall|c: Seq<char>| #[trigger] numbered(values, n).contains_key(c) <==> is_value(values, n, c) by {
            if numbered(values, n).contains_key(c) {
                if before.contains_key(c) {
                    assert(is_value(values, (n - 1) as nat, c));
                    let i = choose|i: int| 0 <= i < n - 1 && #[trigger] values[i] == Some(c);
                    assert(values[i] == Some(c));
                } else {
                    assert(values[n - 1] == Some(c));
                }
            }
            if is_value(values, n, c) {
                let i = choose|i: int| 0 <= i < n && #[trigger] values[i] == Some(c);
                if i < n - 1 {
                    assert(is_value(values, (n - 1) as nat, c));
                    assert(before.contains_key(c));
                }
            }
        }
    }
}

/// The categories of dictionary values, numbered in the order in which they first occur.
fn number_categories(values: &Vec<Option<String>>) -> (categories: AHashMap<String, u8>)
    ensures
        category_bins(categories) == numbered(values@.map_values(|v: Option<String>| text_of(v)), values@.len()),
{
    let ghost texts = values@.map_values(|v: Option<String>| text_of(v));
    let n = values.len();
    let mut categories = no_categories();
    let mut i: usize = 0;
    while i < n
        invariant
            i <= n,
            n == values@.len(),
            texts == values@.map_values(|v: Option<String>| text_of(v)),
            category_bins(categories) == numbered(texts, i as nat),
        decreases n - i,
    {
        if let Some(category) = &values[i] {
            if lookup_category(&categories, category.as_str()).is_none() {
                let bin = #[verifier::truncate] (count_categories(&categories) as u8);
                set_category(&mut categories, category.clone(), bin);
            }
        }
        i += 1;
    }
    categories
}

/// Why a column cannot be binned.
#[derive(Clone, Copy, Debug, PartialEq, Eq, Structural)]
pub enum BinError {
    /// More bins are asked for than a byte can number.
    MaxBinTooLarge,
    /// There are too many categories for the bins that are asked for.
    TooManyCategories { count: usize },
}

/// Tells whether a column can be binned, and if not, why.
pub fn check_column(column: &Column, max_bin: usize) -> (r: Result<(), BinError>)
    requires
        column@.wf(),
    ensures
        match r {
            Ok(_) => binnable(column@, max_bin as nat),
            Err(BinError::MaxBinTooLarge) => max_bin > MAX_NUM_BINS,
            Err(BinError::TooManyCategories { count }) => {
                &&& max_bin <= MAX_NUM_BINS
                &&& column@ matches ColumnView::Categories { values, .. }
                &&& count == numbered(values, values.len()).len()
                &&& count >= max_bin
            },
        },
{
    if max_bin > MAX_NUM_BINS {
        return Err(BinError::MaxBinTooLarge);
    }
    if let Column::Dictionary { values, .. } = column {
        let count = count_categories(&number_categories(values));
        if count >= max_bin {
            return Err(BinError::TooManyCategories { count });
        }
    }
    Ok(())
}

proof fn lemma_count_below(bounds: Seq<Double>, x: Double, k: nat, n: nat)
    requires
        n <= bounds.len(),
        forall|i: int| 0 <= i < k && i < n ==> (#[trigger] bounds[i]).lt_spec(x),
        forall|i: int| k <= i < n ==> !(#[trigger] bounds[i]).lt_spec(x),
    ensures
        count_below(bounds, x, n) == if k <= n { k } else { n },
    decreases n,
{
    if n > 0 {
        lemma_count_below(bounds, x, k, (n - 1) as nat);
    }
}

/// Bounds below `x` come before all others.
pub open spec fn parted_at(bounds: Seq<Double>, x: Double) -> bool {
    forall|i: int, j: int|
        0 <= i < j < bounds.len() && (#[trigger] bounds[j]).lt_spec(x) ==> (#[trigger] bounds[i]).lt_spec(x)
}

/// Searchable bounds are parted at every number.
proof fn lemma_parted(bounds: Seq<Double>, x: Double)
    requires
        partitioned(bounds),
    ensures
        parted_at(bounds, x),
{
    assert forall|i: int, j: int| 0 <= i < j < bounds.len() && (#[trigger] bounds[j]).lt_spec(x) implies (
    #[trigger] bounds[i]).lt_spec(x) by {
        assert(bounds[i].le_spec(bounds[j]));
    }
}

/// The number of bounds below a number, by bisection. Where some bound below the number follows
/// one that is not, no particular number is promised.
fn search(bounds: &Vec<Double>, x: Double) -> (k: usize)
    ensures
        k <= bounds@.len(),
        parted_at(bounds@, x) ==> k == count_below(bounds@, x, bounds@.len()),
{
    let n = bounds.len();
    let mut low: usize = 0;
    let mut high: usize = n;
    while low < high
        invariant
            low <= high <= n,
            n == bounds@.len(),
            parted_at(bounds@, x) ==> forall|i: int| 0 <= i < low ==> (#[trigger] bounds@[i]).lt_spec(x),
            parted_at(bounds@, x) ==> forall|i: int| high <= i < n ==> !(#[trigger] bounds@[i]).lt_spec(x),
        decreases high - low,
    {
        let middle = low + (high - low) / 2;
        if bounds[middle].lt(x) {
            assert(bounds@[middle as int].lt_spec(x));
            low = middle + 1;
        } else {
            assert(!bounds@[middle as int].lt_spec(x));
            high = middle;
        }
    }
    proof {
        if parted_at(bounds@, x) {
            lemma_count_below(bounds@, x, low as nat, n as nat);
        }
    }
    low
}

proof fn lemma_count_below_bound(bounds: Seq<Double>, x: Double, n: nat)
    ensures
        count_below(bounds, x, n) <= n,
    decreases n,
{
    if n > 0 {
        lemma_count_below_bound(bounds, x, (n - 1) as nat);
    }
}

impl Clone for FeatureBinner {
    fn clone(&self) -> (r: Self)
        ensures
            r@ == self@,
    {
        match self {
            FeatureBinner::Numerical(bounds) => {
                let copy = bounds.clone();
                assert(copy@ =~= bounds@);
                FeatureBinner::Numerical(copy)
            },
            FeatureBinner::Categorical(categories) => FeatureBinner::Categorical(copy_categories(categories)),
        }
    }
}

impl FeatureBinner {
    /// The binner of a column: the bins of a numeric column are found from a sample of its
    /// numbers; categories are numbered in the order in which the dictionary first holds them.
    pub fn new(column: &Column, max_bin: usize, min_data_in_bin: usize, seed: u64) -> (r: Self)
        requires
            binnable(column@, max_bin as nat),
        ensures
            r@ == binner_of(column@, max_bin as nat, min_data_in_bin as nat, seed),
            small(column@) ==> r@ == whole_binner(column@, max_bin as nat, min_data_in_bin as nat),
            r@.wf(),
            r@.fits(column@),
            r@.num_bins() <= 1 + most_bins(max_bin as nat),
    {
        match column {
            Column::Dictionary { values, .. } => {
                let categories = number_categories(values);
                proof {
                    lemma_numbered(values@.map_values(|v: Option<String>| text_of(v)), values@.len());
                }
                FeatureBinner::Categorical(categories)
            },
            _ => {
                let keys = collect_keys(column);
                let picked = sample(&keys, seed, MAX_SAMPLE);
                assert(number_keys(picked@)) by {
                    assert forall|i: int| 0 <= i < picked@.len() implies -INFINITY_BITS <= #[trigger] picked@[i]
                        <= INFINITY_BITS by {
                        assert(keys@.contains(picked@[i]));
                    }
                }
                proof {
                    lemma2_to64_rest();
                }
                FeatureBinner::Numerical(find_bounds(picked, max_bin, min_data_in_bin))
            },
        }
    }

    /// The bin of each row of a column, which may hold values and categories that were not
    /// there when the binner was made. Where bounds are out of order, a number has its bin as
    /// long as those below it come before all others; the bin of another number is left open.
    pub fn apply(&self, column: &Column) -> (bins: Vec<u8>)
        requires
            self@.num_bins() <= 256,
            self@.fits(column@),
            column@.wf(),
        ensures
            bins@.len() == column@.len(),
            self@.searchable() ==> bins@ == self@.bins(column@),
            forall|row: int| #![trigger bins@[row]]
                0 <= row < column@.len() && self@.parted_at(column@, row) ==> bins@[row] == self@.bins(column@)[row],
            forall|row: int|
                0 <= row < column@.len() && missing(column@, row) ==> (#[trigger] bins@[row]) == self@.num_bins() - 1,
    {
        match self {
            FeatureBinner::Numerical(bounds) => {
                let n = column.len();
                let sentinel = bounds.len() as u8;
                let mut bins: Vec<u8> = Vec::with_capacity(n);
                let mut row: usize = 0;
                while row < n
                    invariant
                        row <= n,
                        n == column@.len(),
                        column@ is Numbers,
                        sentinel == bounds@.len() <= 255,
                        bins@.len() == row,
                        forall|k: int|
                            0 <= k < row && (missing(column@, k) || parted_at(bounds@, column@->Numbers_0[k]->0)) ==> (
                            #[trigger] bins@[k])
                                == number_bin(bounds@, column@->Numbers_0[k]),
                    decreases n - row,
                {
                    let bin = match column.number(row) {
                        Some(x) => if x.is_nan() {
                            sentinel
                        } else {
                            proof {
                                lemma_count_below_bound(bounds@, x, bounds@.len());
                            }
                            search(bounds, x) as u8
                        },
                        None => sentinel,
                    };
                    bins.push(bin);
                    row += 1;
                }
                proof {
                    if partitioned(bounds@) {
                        assert forall|k: int| 0 <= k < n implies bins@[k] == self@.bins(column@)[k] by {
                            lemma_parted(bounds@, column@->Numbers_0[k]->0);
                            assert(bins@[k] == number_bin(bounds@, column@->Numbers_0[k]));
                        }
                        assert(bins@ =~= self@.bins(column@));
                    }
                }
                bins
            },
            FeatureBinner::Categorical(categories) => match column {
                Column::Dictionary { keys, values } => apply_categories(categories, keys, values),
                _ => Vec::new(),
            },
        }
    }

    /// The number of bins, the one for missing values included.
    pub fn num_bins(&self) -> (n: usize)
        requires
            self@.num_bins() <= usize::MAX,
        ensures
            n == self@.num_bins(),
    {
        match self {
            FeatureBinner::Numerical(bounds) => bounds.len() + 1,
            FeatureBinner::Categorical(categories) => count_categories(categories) + 1,
        }
    }

    pub fn is_categorical(&self) -> (r: bool)
        ensures
            r == (self@ is Categorical),
    {
        match self {
            FeatureBinner::Numerical(_) => false,
            FeatureBinner::Categorical(_) => true,
        }
    }
}

/// The bins of a dictionary column. Each dictionary value is looked up once.
fn apply_categories(categories: &AHashMap<String, u8>, keys: &Vec<Option<usize>>, values: &Vec<Option<String>>) -> (bins:
    Vec<u8>)
    requires
        category_bins(*categories).len() <= MAX_NUM_BINS,
        forall|i: int| 0 <= i < keys@.len() ==> (#[trigger] keys@[i] matches Some(k) ==> k < values@.len()),
    ensures
        bins@.len() == keys@.len(),
        forall|row: int|
            0 <= row < keys@.len() ==> (#[trigger] bins@[row]) == category_bin(
                category_bins(*categories),
                match keys@[row] {
                    Some(k) => text_of(values@[k as int]),
                    None => None,
                },
            ),
{
    let ghost map = category_bins(*categories);
    let sentinel = count_categories(categories) as u8;
    let mut value_bins: Vec<u8> = Vec::with_capacity(values.len());
    let mut i: usize = 0;
    while i < values.len()
        invariant
            i <= values@.len(),
            map == category_bins(*categories),
            map.len() <= MAX_NUM_BINS,
            sentinel == map.len(),
            value_bins@.len() == i,
            forall|k: int| 0 <= k < i ==> (#[trigger] value_bins@[k]) == category_bin(map, text_of(values@[k])),
        decreases values@.len() - i,
    {
        let bin = match &values[i] {
            Some(category) => match lookup_category(categories, category.as_str()) {
                Some(bin) => bin,
                None => sentinel,
            },
            None => sentinel,
        };
        value_bins.push(bin);
        i += 1;
    }
    let n = keys.len();
    let mut bins: Vec<u8> = Vec::with_capacity(n);
    let mut row: usize = 0;
    while row < n
        invariant
            row <= n,
            n == keys@.len(),
            sentinel == map.len(),
            forall|i: int| 0 <= i < keys@.len() ==> (#[trigger] keys@[i] matches Some(k) ==> k < values@.len()),
            value_bins@.len() == values@.len(),
            forall|k: int|
                0 <= k < values@.len() ==> (#[trigger] value_bins@[k]) == category_bin(map, text_of(values@[k])),
            bins@.len() == row,
            forall|j: int|
                0 <= j < row ==> (#[trigger] bins@[j]) == category_bin(
                    map,
                    match keys@[j] {
                        Some(k) => text_of(values@[k as int]),
                        None => None,
                    },
                ),
        decreases n - row,
    {
        bins.push(
            match keys[row] {
                Some(k) => value_bins[k],
                None => sentinel,
            },
        );
        row += 1;
    }
    bins
}

// ---------------------------------------------------------------------------------------
// Laws
// ---------------------------------------------------------------------------------------

/// A larger number never has a lower bin.
pub proof fn law_bins_are_monotone(bounds: Seq<Double>, x: Double, y: Double)
    requires
        valid_bounds(bounds),
        x.le_spec(y),
    ensures
        number_bin(bounds, Some(x)) <= number_bin(bounds, Some(y)),
{
    lemma_count_below_monotone(bounds, x, y, bounds.len());
    lemma_count_below_bound(bounds, y, bounds.len());
}

proof fn lemma_count_below_monotone(bounds: Seq<Double>, x: Double, y: Double, n: nat)
    requires
        x.le_spec(y),
    ensures
        count_below(bounds, x, n) <= count_below(bounds, y, n),
    decreases n,
{
    if n > 0 {
        lemma_count_below_monotone(bounds, x, y, (n - 1) as nat);
    }
}

proof fn lemma_partition_point(bounds: Seq<Double>, x: Double, n: nat)
    requires
        n <= bounds.len(),
        partitioned(bounds),
    ensures
        forall|i: int| 0 <= i < n ==> (#[trigger] bounds[i].lt_spec(x) <==> i < count_below(bounds, x, n)),
    decreases n,
{
    if n > 0 {
        lemma_partition_point(bounds, x, (n - 1) as nat);
        lemma_count_below_bound(bounds, x, (n - 1) as nat);
        let k = count_below(bounds, x, (n - 1) as nat);
        if bounds[n - 1].lt_spec(x) && k < n - 1 {
            assert(bounds[k as int].le_spec(bounds[n - 1]));
            assert(bounds[k as int].lt_spec(x));
        }
        assert forall|i: int| 0 <= i < n implies (#[trigger] bounds[i].lt_spec(x) <==> i < count_below(bounds, x, n)) by {
            if i < n - 1 {
                assert(bounds[i].lt_spec(x) <==> i < k);
            }
        }
    }
}

/// A number's bin is not the one for missing values; its upper bound is not below the number,
/// and the bounds of all earlier bins are.
pub proof fn law_number_in_its_bin(bounds: Seq<Double>, x: Double)
    requires
        valid_bounds(bounds),
        !x.nan(),
    ensures
        number_bin(bounds, Some(x)) < bounds.len(),
        !bounds[number_bin(bounds, Some(x)) as int].lt_spec(x),
        forall|i: int| 0 <= i < number_bin(bounds, Some(x)) ==> (#[trigger] bounds[i]).lt_spec(x),
{
    let n = bounds.len();
    lemma_partition_point(bounds, x, n);
    lemma_count_below_bound(bounds, x, n);
    assert(!bounds[n - 1].lt_spec(x));
}

/// Missing values and not-a-numbers share the last bin.
pub proof fn law_missing_numbers_have_the_last_bin(bounds: Seq<Double>, x: Option<Double>)
    requires
        valid_bounds(bounds),
        x matches Some(v) ==> v.nan(),
    ensures
        number_bin(bounds, x) == BinnerView::Numerical(bounds).num_bins() - 1,
{
}

/// A known category never has the last bin; rows without a category and unknown categories
/// always do.
pub proof fn law_unknown_categories_have_the_last_bin(categories: Map<Seq<char>, u8>, category: Option<Seq<char>>)
    requires
        BinnerView::Categorical(categories).wf(),
    ensures
        category_bin(categories, category) == BinnerView::Categorical(categories).num_bins() - 1 <==> !(category
            matches Some(c) && categories.contains_key(c)),
{
    if let Some(c) = category {
        if categories.contains_key(c) {
            assert(categories[c] < categories.len());
        }
    }
}

/// Every row has a bin, and every bin index is below the number of bins.
pub proof fn law_bins_in_range(binner: BinnerView, column: ColumnView)
    requires
        binner.wf(),
        binner.fits(column),
    ensures
        binner.bins(column).len() == column.len(),
        forall|row: int| 0 <= row < column.len() ==> (#[trigger] binner.bins(column)[row]) < binner.num_bins(),
{
    assert forall|row: int| 0 <= row < column.len() implies (#[trigger] binner.bins(column)[row])
        < binner.num_bins() by {
        match binner {
            BinnerView::Numerical(bounds) => {
                if let Some(x) = column->Numbers_0[row] {
                    lemma_count_below_bound(bounds, x, bounds.len());
                }
            },
            BinnerView::Categorical(categories) => {
                if let Some(c) = column.category(row) {
                    if categories.contains_key(c) {
                        assert(categories[c] < categories.len());
                    }
                }
            },
        }
    }
}

/// A column of narrow numbers is binned as the column of the same numbers in the wide format.
pub proof fn law_width_does_not_matter(narrow: Vec<Option<Single>>, wide: Vec<Option<Double>>)
    requires
        narrow@.len() == wide@.len(),
        forall|i: int| 0 <= i < wide@.len() ==> #[trigger] wide@[i] == widened(narrow@[i]),
    ensures
        Column::Float32(narrow)@ == Column::Float64(wide)@,
{
    assert(Column::Float32(narrow)@->Numbers_0 =~= wide@);
}

/// Asking for more values in each bin never gives more bins.
pub proof fn law_fuller_bins_are_fewer(column: ColumnView, max_bin: nat, few: nat, many: nat, seed: u64)
    requires
        few <= many,
    ensures
        binner_of(column, max_bin, many, seed).num_bins() <= binner_of(column, max_bin, few, seed).num_bins(),
{
    if let ColumnView::Numbers(x) = column {
        let sample = sampled(valid_keys(x, x.len()), seed, MAX_SAMPLE as nat);
        lemma_fewer_bounds(numbers_at(sorted(sample)), max_bin, few, many);
    }
}

/// The values that are numbers.
pub open spec fn present(x: Seq<Option<Double>>) -> Seq<Option<Double>> {
    x.filter(|v: Option<Double>| is_number(v))
}

pub open spec fn is_number(v: Option<Double>) -> bool {
    v matches Some(v) && !v.nan()
}

pub(crate) proof fn lemma_valid_keys(x: Seq<Option<Double>>, n: nat)
    requires
        n <= x.len(),
    ensures
        valid_keys(x, n) == present(x.take(n as int)).map_values(|v: Option<Double>| v->0.ordinal() as i64),
    decreases n,
{
    reveal(Seq::filter);
    let f = |v: Option<Double>| v->0.ordinal() as i64;
    if n > 0 {
        lemma_valid_keys(x, (n - 1) as nat);
        let before = present(x.take(n - 1));
        assert(x.take(n as int).drop_last() =~= x.take(n - 1));
        if is_number(x[n - 1]) {
            assert(before.push(x[n - 1]).map_values(f) =~= before.map_values(f).push(f(x[n - 1])));
        }
    }
    assert(valid_keys(x, n) =~= present(x.take(n as int)).map_values(f));
}

/// The bounds of a column all of whose numbers are used depend on the numbers alone: neither
/// on the order of the rows, nor on rows without a number.
pub proof fn law_bounds_depend_on_the_numbers_alone(
    x: Seq<Option<Double>>,
    y: Seq<Option<Double>>,
    max_bin: nat,
    min_data_in_bin: nat,
)
    requires
        present(x).to_multiset() == present(y).to_multiset(),
    ensures
        small(ColumnView::Numbers(x)) == small(ColumnView::Numbers(y)),
        whole_binner(ColumnView::Numbers(x), max_bin, min_data_in_bin) == whole_binner(
            ColumnView::Numbers(y),
            max_bin,
            min_data_in_bin,
        ),
{
    broadcast use vstd::seq_lib::group_to_multiset_ensures;
    let f = |v: Option<Double>| v->0.ordinal() as i64;
    assert(x.take(x.len() as int) =~= x);
    assert(y.take(y.len() as int) =~= y);
    lemma_valid_keys(x, x.len());
    lemma_valid_keys(y, y.len());
    lemma_map_by_contents(present(x), present(y), f);
    assert(present(x).len() == present(x).to_multiset().len());
    assert(present(y).len() == present(y).to_multiset().len());
    lemma_sorted_by_contents(valid_keys(x, x.len()), valid_keys(y, y.len()));
}

} // verus!
