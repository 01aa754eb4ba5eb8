//! Columns of feature values, and batches of columns.

use vstd::prelude::*;

use crate::double::{Double, Single};

verus! {

/// The values of one feature, one per row; `None` is a missing value.
pub enum Column {
    Float64(Vec<Option<Double>>),
    Float32(Vec<Option<Single>>),
    /// Categories by number: a row's key is the position of its category in `values`.
    Dictionary { keys: Vec<Option<usize>>, values: Vec<Option<String>> },
}

/// What a column holds. Numbers of either width are doubles here.
#[verifier::ext_equal]
pub enum ColumnView {
    Numbers(Seq<Option<Double>>),
    Categories { keys: Seq<Option<usize>>, values: Seq<Option<Seq<char>>> },
}

pub open spec fn widened(x: Option<Single>) -> Option<Double> {
    match x {
        Some(x) => Some(x.widen_spec()),
        None => None,
    }
}

pub open spec fn text_of(value: Option<String>) -> Option<Seq<char>> {
    match value {
        Some(value) => Some(value@),
        None => None,
    }
}

impl View for Column {
    type V = ColumnView;

    open spec fn view(&self) -> ColumnView {
        match self {
            Column::Float64(x) => ColumnView::Numbers(x@),
            Column::Float32(x) => ColumnView::Numbers(x@.map_values(|x: Option<Single>| widened(x))),
            Column::Dictionary { keys, values } => ColumnView::Categories {
                keys: keys@,
                values: values@.map_values(|v: Option<String>| text_of(v)),
            },
        }
    }
}

impl ColumnView {
    pub open spec fn len(self) -> nat {
        match self {
            ColumnView::Numbers(x) => x.len(),
            ColumnView::Categories { keys, .. } => keys.len(),
        }
    }

    /// Every key is the position of a dictionary value.
    pub open spec fn wf(self) -> bool {
        match self {
            ColumnView::Numbers(_) => true,
            ColumnView::Categories { keys, values } =>
                forall|i: int| 0 <= i < keys.len() ==> (#[trigger] keys[i] matches Some(k) ==> k < values.len()),
        }
    }

    /// The category of a row, if it has one.
    pub open spec fn category(self, row: int) -> Option<Seq<char>> {
        match self {
            ColumnView::Numbers(_) => None,
            ColumnView::Categories { keys, values } => match keys[row] {
                Some(k) => values[k as int],
                None => None,
            },
        }
    }
}

impl Column {
    /// The number of rows.
    pub fn len(&self) -> (n: usize)
        ensures
            n == self@.len(),
    {
        match self {
            Column::Float64(x) => x.len(),
            Column::Float32(x) => x.len(),
            Column::Dictionary { keys, .. } => keys.len(),
        }
    }

    /// The number in a row of a numeric column, as a double.
    pub fn number(&self, row: usize) -> (x: Option<Double>)
        requires
            self@ is Numbers,
            row < self@.len(),
        ensures
            x == self@->Numbers_0[row as int],
    {
        match self {
            Column::Float64(x) => x[row],
            Column::Float32(x) => match x[row] {
                Some(x) => Some(x.widen()),
                None => None,
            },
            Column::Dictionary { .. } => None,
        }
    }
}

/// Named columns of the same length.
pub struct Batch {
    pub names: Vec<String>,
    pub columns: Vec<Column>,
    pub num_rows: usize,
}

impl Batch {
    pub open spec fn wf(&self) -> bool {
        &&& self.names@.len() == self.columns@.len()
        &&& forall|c: int| 0 <= c < self.columns@.len() ==> {
            &&& (#[trigger] self.columns@[c])@.wf()
            &&& self.columns@[c]@.len() == self.num_rows
        }
    }
}

/// Narrow numbers are the doubles of the same value, and missing ones stay missing.
pub proof fn law_narrow_columns_are_widened(x: Vec<Option<Single>>, row: int)
    requires
        0 <= row < x@.len(),
    ensures
        Column::Float32(x)@ is Numbers,
        Column::Float32(x)@.len() == x@.len(),
        x@[row] is None ==> Column::Float32(x)@->Numbers_0[row] is None,
        x@[row] matches Some(v) ==> Column::Float32(x)@->Numbers_0[row] == Some(v.widen_spec()),
{
}

/// Doubles are what they are.
pub proof fn law_wide_columns_are_as_they_are(x: Vec<Option<Double>>)
    ensures
        Column::Float64(x)@ == ColumnView::Numbers(x@),
{
}

/// A dictionary's keys and values are its own.
pub proof fn law_dictionaries_are_as_they_are(keys: Vec<Option<usize>>, values: Vec<Option<String>>, i: int)
    requires
        0 <= i < values@.len(),
    ensures
        (Column::Dictionary { keys, values })@ matches ColumnView::Categories { keys: k, values: v } && k == keys@ && v.len()
            == values@.len() && (values@[i] is None ==> v[i] is None) && (values@[i] matches Some(t) ==> v[i] == Some(t@)),
{
}

} // verus!
