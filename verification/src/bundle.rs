//! Bin indices of up to eight features, packed into one word per row.

use vstd::prelude::*;

use crate::bin::FeatureBinner;

verus! {

/// The bin index that a packed word holds in a slot: the slot's byte.
pub open spec fn packed_bin(word: u64, slot: int) -> u8 {
    ((word >> ((8 * slot) as u64)) & 0xff) as u8
}

/// Reads one slot of a packed word.
pub fn unpack(word: u64, slot: usize) -> (bin: u8)
    requires
        slot < 8,
    ensures
        bin == packed_bin(word, slot as int),
{
    let shift: u64 = 8 * slot as u64;
    ((word >> shift) & 0xff) as u8
}

/// The sum of the first `n` sizes.
pub open spec fn total(sizes: Seq<usize>, n: nat) -> nat
    decreases n,
{
    if n == 0 {
        0
    } else {
        total(sizes, (n - 1) as nat) + sizes[n - 1] as nat
    }
}

pub(crate) proof fn lemma_total_monotone(sizes: Seq<usize>, a: nat, b: nat)
    requires
        a <= b,
    ensures
        total(sizes, a) <= total(sizes, b),
    decreases b,
{
    if a < b {
        lemma_total_monotone(sizes, a, (b - 1) as nat);
    }
}

pub(crate) proof fn lemma_total_prefix(s: Seq<usize>, t: Seq<usize>, n: nat)
    requires
        n <= s.len(),
        n <= t.len(),
        forall|i: int| 0 <= i < n ==> s[i] == t[i],
    ensures
        total(s, n) == total(t, n),
    decreases n,
{
    if n > 0 {
        lemma_total_prefix(s, t, (n - 1) as nat);
    }
}

pub(crate) proof fn lemma_total_concat(s: Seq<usize>, t: Seq<usize>, n: nat)
    requires
        n <= t.len(),
    ensures
        total(s + t, s.len() + n) == total(s, s.len()) + total(t, n),
    decreases n,
{
    if n == 0 {
        lemma_total_prefix(s + t, s, s.len());
    } else {
        lemma_total_concat(s, t, (n - 1) as nat);
        assert((s + t)[s.len() + n - 1] == t[n - 1]);
    }
}

/// The bin indices of up to eight features. Bin indices are bytes, and a row's bytes are
/// packed into one word, slot 0 lowest.
pub struct FeatureBundle {
    pub packed_bins: Vec<u64>,
    /// Bins of each feature, the one for missing values included.
    pub num_bins: Vec<usize>,
    pub is_categorical: Vec<bool>,
    /// Number of features in the bundle.
    pub count: usize,
}

impl FeatureBundle {
    /// One to eight features of at most 256 bins each, with every packed index in range.
    pub open spec fn wf(&self) -> bool {
        &&& 1 <= self.count <= 8
        &&& self.num_bins@.len() == self.count
        &&& self.is_categorical@.len() == self.count
        &&& forall|s: int| 0 <= s < self.count ==> 1 <= #[trigger] self.num_bins@[s] <= 256
        &&& forall|row: int, s: int|
            0 <= row < self.packed_bins@.len() && 0 <= s < self.count ==>
                (#[trigger] packed_bin(self.packed_bins@[row], s)) < self.num_bins@[s]
    }

    /// Bins of all the features together.
    pub open spec fn width(&self) -> nat {
        total(self.num_bins@, self.count as nat)
    }
}

proof fn lemma_set_slot(word: u64, slot: u64, bin: u8, other: u64)
    by (bit_vector)
    requires
        slot < 8,
        other < 8,
        (word >> (8 * slot)) & 0xff == 0,
    ensures
        other == slot ==> ((word | ((bin as u64) << (8 * slot))) >> (8 * other)) & 0xff == bin,
        other != slot ==> ((word | ((bin as u64) << (8 * slot))) >> (8 * other)) & 0xff == (word >> (8 * other)) & 0xff,
{
}

/// Writes a bin index into an empty slot of a word.
fn set_slot(word: u64, slot: usize, bin: u8) -> (r: u64)
    requires
        slot < 8,
        packed_bin(word, slot as int) == 0,
    ensures
        packed_bin(r, slot as int) == bin,
        forall|s: int| 0 <= s < 8 && s != slot ==> #[trigger] packed_bin(r, s) == packed_bin(word, s),
{
    let shift: u64 = 8 * slot as u64;
    let r = word | ((bin as u64) << shift);
    proof {
        let first = (word >> shift) & 0xff;
        assert(first <= 0xff) by (bit_vector)
            requires first == (word >> shift) & 0xff;
        lemma_set_slot(word, slot as u64, bin, slot as u64);
        assert forall|s: int| 0 <= s < 8 && s != slot implies #[trigger] packed_bin(r, s) == packed_bin(word, s) by {
            lemma_set_slot(word, slot as u64, bin, s as u64);
        }
    }
    r
}

proof fn lemma_empty_word(s: u64)
    by (bit_vector)
    requires
        s < 8,
    ensures
        (0u64 >> (8 * s)) & 0xff == 0,
{
}

impl FeatureBundle {
    /// Packs the bins of one to eight features.
    pub fn pack(binners: &[FeatureBinner], bins: &[Vec<u8>], num_rows: usize) -> (bundle: Self)
        requires
            1 <= binners@.len() <= 8,
            bins@.len() == binners@.len(),
            forall|s: int| 0 <= s < bins@.len() ==> (#[trigger] bins@[s])@.len() == num_rows,
            forall|s: int| 0 <= s < binners@.len() ==> (#[trigger] binners@[s])@.usable(),
        ensures
            bundle.count == binners@.len(),
            bundle.num_bins@.len() == binners@.len(),
            bundle.is_categorical@.len() == binners@.len(),
            bundle.packed_bins@.len() == num_rows,
            forall|s: int| 0 <= s < binners@.len() ==> #[trigger] bundle.num_bins@[s] == binners@[s]@.num_bins(),
            forall|s: int| 0 <= s < binners@.len() ==> #[trigger] bundle.is_categorical@[s] == (binners@[s]@ is Categorical),
            forall|row: int, s: int|
                0 <= row < num_rows && 0 <= s < 8 ==> #[trigger] packed_bin(bundle.packed_bins@[row], s)
                    == if s < bins@.len() { bins@[s]@[row] } else { 0 },
    {
        let count = binners.len();
        let mut packed_bins: Vec<u64> = Vec::with_capacity(num_rows);
        let mut row: usize = 0;
        while row < num_rows
            invariant
                row <= num_rows,
                count == bins@.len(),
                count <= 8,
                forall|s: int| 0 <= s < bins@.len() ==> (#[trigger] bins@[s])@.len() == num_rows,
                packed_bins@.len() == row,
                forall|r: int, s: int|
                    0 <= r < row && 0 <= s < 8 ==> #[trigger] packed_bin(packed_bins@[r], s)
                        == if s < bins@.len() { bins@[s]@[r] } else { 0 },
            decreases num_rows - row,
        {
            let mut word: u64 = 0;
            proof {
                assert forall|s: int| 0 <= s < 8 implies #[trigger] packed_bin(word, s) == 0 by {
                    lemma_empty_word(s as u64);
                }
            }
            let mut slot: usize = 0;
            while slot < count
                invariant
                    slot <= count,
                    row < num_rows,
                    count == bins@.len(),
                    count <= 8,
                    forall|s: int| 0 <= s < bins@.len() ==> (#[trigger] bins@[s])@.len() == num_rows,
                    forall|s: int|
                        0 <= s < 8 ==> #[trigger] packed_bin(word, s) == if s < slot { bins@[s]@[row as int] } else { 0 },
                decreases count - slot,
            {
                word = set_slot(word, slot, bins[slot][row]);
                slot += 1;
            }
            packed_bins.push(word);
            row += 1;
        }
        let mut num_bins: Vec<usize> = Vec::with_capacity(count);
        let mut is_categorical: Vec<bool> = Vec::with_capacity(count);
        let mut slot: usize = 0;
        while slot < count
            invariant
                slot <= count,
                count == binners@.len(),
                forall|s: int| 0 <= s < binners@.len() ==> (#[trigger] binners@[s])@.usable(),
                num_bins@.len() == slot,
                is_categorical@.len() == slot,
                forall|s: int| 0 <= s < slot ==> #[trigger] num_bins@[s] == binners@[s]@.num_bins(),
                forall|s: int| 0 <= s < slot ==> #[trigger] is_categorical@[s] == (binners@[s]@ is Categorical),
            decreases count - slot,
        {
            num_bins.push(binners[slot].num_bins());
            is_categorical.push(binners[slot].is_categorical());
            slot += 1;
        }
        FeatureBundle { packed_bins, num_bins, is_categorical, count }
    }
}

} // verus!
