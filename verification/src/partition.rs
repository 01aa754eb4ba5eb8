//! Separating the rows of a leaf into those that go left and those that go right.

use vstd::prelude::*;
use vstd::seq_lib::lemma_multiset_commutative;
use vstd::slice::slice_subrange;

use crate::bundle::unpack;
use crate::dataset::Dataset;
use crate::double::Single;
use crate::split::{Split, SplitInfo};
use crate::tree::Tree;
use crate::utils::{num_threads, parallel_map};

verus! {

/// Leaves with more rows than this are worked on in parallel.
pub const PARALLEL_ROWS: usize = 2048;

/// The least number of rows in a task.
pub const MIN_CHUNK: usize = 1024;

/// Whether a split sends a row left.
pub open spec fn sent_left(d: &Dataset, split: Split, row: u32) -> bool {
    split.rule.goes_left(d.bin(row as int, split.feature as int), d.sentinel(split.feature as int))
}

/// The rows that a split sends left, in their order.
pub open spec fn lefts(d: &Dataset, split: Split, rows: Seq<u32>) -> Seq<u32> {
    rows.filter(|row: u32| sent_left(d, split, row))
}

/// The rows that a split sends right, in their order.
pub open spec fn rights(d: &Dataset, split: Split, rows: Seq<u32>) -> Seq<u32> {
    rows.filter(|row: u32| !sent_left(d, split, row))
}

/// A split can be put to these rows: each has a bin for the feature, and the bin a side.
pub open spec fn separable(d: &Dataset, split: Split, rows: Seq<u32>) -> bool {
    &&& d.bundled()
    &&& split.feature < d.feature_binners@.len()
    &&& d.feature_binners@[split.feature as int]@.usable()
    &&& forall|i: int| 0 <= i < rows.len() ==> (#[trigger] rows[i]) < d.num_rows
    &&& forall|i: int|
        0 <= i < rows.len() ==> split.rule.covers(d.bin((#[trigger] rows[i]) as int, split.feature as int) as nat + 1)
}

pub(crate) proof fn lemma_separable_part(d: &Dataset, split: Split, rows: Seq<u32>, lo: int, hi: int)
    requires
        separable(d, split, rows),
        0 <= lo <= hi <= rows.len(),
    ensures
        separable(d, split, rows.subrange(lo, hi)),
{
    let part = rows.subrange(lo, hi);
    assert forall|i: int| 0 <= i < part.len() implies (#[trigger] part[i]) < d.num_rows && split.rule.covers(
        d.bin(part[i] as int, split.feature as int) as nat + 1,
    ) by {
        assert(part[i] == rows[lo + i]);
    }
}

pub(crate) proof fn lemma_sides_step(d: &Dataset, split: Split, rows: Seq<u32>, i: int)
    requires
        0 <= i < rows.len(),
    ensures
        lefts(d, split, rows.take(i + 1)) == if sent_left(d, split, rows[i]) {
            lefts(d, split, rows.take(i)).push(rows[i])
        } else {
            lefts(d, split, rows.take(i))
        },
        rights(d, split, rows.take(i + 1)) == if sent_left(d, split, rows[i]) {
            rights(d, split, rows.take(i))
        } else {
            rights(d, split, rows.take(i)).push(rows[i])
        },
{
    reveal(Seq::filter);
    assert(rows.take(i + 1).drop_last() =~= rows.take(i));
}

/// Every row goes to one side.
pub(crate) proof fn lemma_sides_len(d: &Dataset, split: Split, rows: Seq<u32>, n: nat)
    requires
        n <= rows.len(),
    ensures
        lefts(d, split, rows.take(n as int)).len() + rights(d, split, rows.take(n as int)).len() == n,
        lefts(d, split, rows.take(n as int)).len() <= lefts(d, split, rows).len(),
        rights(d, split, rows.take(n as int)).len() <= rights(d, split, rows).len(),
    decreases rows.len() - n,
{
    lemma_sides_count(d, split, rows, n);
    if n < rows.len() {
        lemma_sides_step(d, split, rows, n as int);
        lemma_sides_len(d, split, rows, n + 1);
    } else {
        assert(rows.take(n as int) =~= rows);
    }
}

proof fn lemma_sides_count(d: &Dataset, split: Split, rows: Seq<u32>, n: nat)
    requires
        n <= rows.len(),
    ensures
        lefts(d, split, rows.take(n as int)).len() + rights(d, split, rows.take(n as int)).len() == n,
    decreases n,
{
    if n > 0 {
        lemma_sides_count(d, split, rows, (n - 1) as nat);
        lemma_sides_step(d, split, rows, n - 1);
    } else {
        reveal(Seq::filter);
    }
}

/// Whether a split sends a row left.
fn check_left(dataset: &Dataset, split: &SplitInfo, row: u32) -> (left: bool)
    requires
        separable(dataset, split@, seq![row]),
    ensures
        left == sent_left(dataset, split@, row),
{
    let feature = split.feature_index;
    assert(seq![row][0] == row);
    let bundle = &dataset.feature_bundles[feature / 8];
    let bin = unpack(bundle.packed_bins[row as usize], feature % 8);
    let sentinel = (dataset.feature_binners[feature].num_bins() - 1) as u8;
    split.threshold.goes_left(bin, sentinel)
}

/// The sides of some rows.
fn check_rows(dataset: &Dataset, split: &SplitInfo, rows: &[u32]) -> (sides: Vec<bool>)
    requires
        separable(dataset, split@, rows@),
    ensures
        sides@.len() == rows@.len(),
        forall|i: int| 0 <= i < rows@.len() ==> #[trigger] sides@[i] == sent_left(dataset, split@, rows@[i]),
{
    let n = rows.len();
    let mut sides: Vec<bool> = Vec::with_capacity(n);
    for i in 0..n
        invariant
            n == rows@.len(),
            separable(dataset, split@, rows@),
            sides@.len() == i,
            forall|k: int| 0 <= k < i ==> #[trigger] sides@[k] == sent_left(dataset, split@, rows@[k]),
    {
        proof {
            lemma_separable_part(dataset, split@, rows@, i as int, i + 1);
            assert(rows@.subrange(i as int, i + 1) =~= seq![rows@[i as int]]);
        }
        sides.push(check_left(dataset, split, rows[i]));
    }
    sides
}

proof fn lemma_chunk_start(n: int, size: int, c: int)
    requires
        0 <= n,
        0 < size,
        0 <= c <= n / size,
    ensures
        c * size <= n,
        (n / size + 1) * size > n,
        size >= 2 ==> 2 * (n / size) <= n,
{
    vstd::arithmetic::div_mod::lemma_fundamental_div_mod(n, size);
    let q = n / size;
    assert(c * size <= q * size) by (nonlinear_arith)
        requires
            c <= q,
            size > 0,
    ;
    assert(q * size == size * q) by (nonlinear_arith);
    assert((q + 1) * size == q * size + size) by (nonlinear_arith);
    if size >= 2 {
        assert(2 * q <= size * q) by (nonlinear_arith)
            requires
                size >= 2,
                q >= 0,
        ;
    }
}

/// The sides of chunk `c` of the rows.
spec fn chunk_of(d: &Dataset, split: Split, rows: Seq<u32>, c: int, size: int, sides: Seq<bool>) -> bool {
    let start = c * size;
    &&& start <= rows.len()
    &&& sides.len() == if rows.len() - start < size { rows.len() - start } else { size }
    &&& forall|i: int| 0 <= i < sides.len() ==> #[trigger] sides[i] == sent_left(d, split, rows[start + i])
}

/// Writes the sides of the rows to the front of `flags`; chunks of rows are tasks of their own.
fn mark_sides(dataset: &Dataset, split: &SplitInfo, rows: &[u32], pool: &rayon::ThreadPool, flags: &mut [bool])
    requires
        separable(dataset, split@, rows@),
        rows@.len() <= old(flags)@.len(),
    ensures
        final(flags)@.len() == old(flags)@.len(),
        forall|i: int| 0 <= i < rows@.len() ==> #[trigger] final(flags)@[i] == sent_left(dataset, split@, rows@[i]),
        forall|i: int| rows@.len() <= i < old(flags)@.len() ==> #[trigger] final(flags)@[i] == old(flags)@[i],
{
    let n = rows.len();
    let share = n / (num_threads(pool) * 32);
    let chunk_size = if share < MIN_CHUNK { MIN_CHUNK } else { share };
    proof {
        lemma_chunk_start(n as int, chunk_size as int, 0);
    }
    let num_chunks = n / chunk_size + 1;
    let ghost before = flags@;
    let f = |c: usize| -> (sides: Vec<bool>)
        requires
            separable(dataset, split@, rows@),
            n == rows@.len(),
            c * chunk_size <= n,
            chunk_size >= 1,
        ensures
            chunk_of(dataset, split@, rows@, c as int, chunk_size as int, sides@),
    {
        let start = c * chunk_size;
        let end = if n - start < chunk_size { n } else { start + chunk_size };
        proof {
            lemma_separable_part(dataset, split@, rows@, start as int, end as int);
        }
        check_rows(dataset, split, slice_subrange(rows, start, end))
    };
    assert forall|c: usize| c < num_chunks implies call_requires(f, (c,)) by {
        lemma_chunk_start(n as int, chunk_size as int, c as int);
    }
    let chunks = parallel_map(pool, num_chunks, f);
    assert forall|k: int| 0 <= k < num_chunks implies chunk_of(
        dataset,
        split@,
        rows@,
        k,
        chunk_size as int,
        (#[trigger] chunks@[k])@,
    ) by {
        lemma_chunk_start(n as int, chunk_size as int, k);
        assert(call_ensures(f, (k as usize,), chunks@[k]));
    }
    let mut done: usize = 0;
    assert(0 * chunk_size == 0);
    for c in 0..num_chunks
        invariant
            n == rows@.len() <= flags@.len(),
            flags@.len() == before.len(),
            chunk_size >= 1,
            chunks@.len() == num_chunks,
            forall|k: int|
                0 <= k < num_chunks ==> chunk_of(
                    dataset,
                    split@,
                    rows@,
                    k,
                    chunk_size as int,
                    (#[trigger] chunks@[k])@,
                ),
            done == if c * chunk_size < n { c * chunk_size } else { n as int },
            forall|i: int| 0 <= i < done ==> #[trigger] flags@[i] == sent_left(dataset, split@, rows@[i]),
            forall|i: int| n <= i < before.len() ==> #[trigger] flags@[i] == before[i],
    {
        let sides = &chunks[c];
        assert(chunk_of(dataset, split@, rows@, c as int, chunk_size as int, sides@));
        let start = done;
        for j in 0..sides.len()
            invariant
                n == rows@.len() <= flags@.len(),
                flags@.len() == before.len(),
                start + sides@.len() <= n,
                done == start + j,
                forall|i: int|
                    0 <= i < sides@.len() ==> #[trigger] sides@[i] == sent_left(dataset, split@, rows@[start + i]),
                forall|i: int| 0 <= i < done ==> #[trigger] flags@[i] == sent_left(dataset, split@, rows@[i]),
                forall|i: int| n <= i < before.len() ==> #[trigger] flags@[i] == before[i],
        {
            flags[done] = sides[j];
            done += 1;
        }
        assert((c + 1) * chunk_size == c * chunk_size + chunk_size) by (nonlinear_arith);
    }
}

/// Writes the rows that go left to the front of `left_buffer` and the others to the front of
/// `right_buffer`, both in their order, and returns the number of the former.
fn separate(
    dataset: &Dataset,
    rows: &[u32],
    split: &SplitInfo,
    left_buffer: &mut [u32],
    right_buffer: &mut [u32],
    pool: Option<&rayon::ThreadPool>,
    flags: &mut [bool],
) -> (left: usize)
    requires
        separable(dataset, split@, rows@),
        lefts(dataset, split@, rows@).len() <= old(left_buffer)@.len(),
        rights(dataset, split@, rows@).len() <= old(right_buffer)@.len(),
        pool is Some && rows@.len() > PARALLEL_ROWS ==> rows@.len() <= old(flags)@.len(),
    ensures
        left == lefts(dataset, split@, rows@).len(),
        left + rights(dataset, split@, rows@).len() == rows@.len(),
        overwritten(old(left_buffer)@, lefts(dataset, split@, rows@), final(left_buffer)@),
        overwritten(old(right_buffer)@, rights(dataset, split@, rows@), final(right_buffer)@),
        overwritten(
            old(flags)@,
            if pool is Some && rows@.len() > PARALLEL_ROWS {
                rows@.map_values(|row: u32| sent_left(dataset, split@, row))
            } else {
                Seq::empty()
            },
            final(flags)@,
        ),
{
    let n = rows.len();
    let ghost left_start = left_buffer@;
    let ghost right_start = right_buffer@;
    let marked = match pool {
        Some(pool) => if n > PARALLEL_ROWS {
            mark_sides(dataset, split, rows, pool, flags);
            true
        } else {
            false
        },
        None => false,
    };
    let mut l: usize = 0;
    let mut r: usize = 0;
    proof {
        reveal(Seq::filter);
        assert(rows@.take(0) =~= Seq::<u32>::empty());
    }
    for i in 0..n
        invariant
            n == rows@.len(),
            separable(dataset, split@, rows@),
            marked ==> n <= flags@.len(),
            marked ==> forall|k: int| 0 <= k < n ==> #[trigger] flags@[k] == sent_left(dataset, split@, rows@[k]),
            lefts(dataset, split@, rows@).len() <= left_start.len(),
            rights(dataset, split@, rows@).len() <= right_start.len(),
            l == lefts(dataset, split@, rows@.take(i as int)).len(),
            r == rights(dataset, split@, rows@.take(i as int)).len(),
            overwritten(left_start, lefts(dataset, split@, rows@.take(i as int)), left_buffer@),
            overwritten(right_start, rights(dataset, split@, rows@.take(i as int)), right_buffer@),
    {
        let row = rows[i];
        proof {
            lemma_separable_part(dataset, split@, rows@, i as int, i + 1);
            assert(rows@.subrange(i as int, i + 1) =~= seq![rows@[i as int]]);
            lemma_sides_step(dataset, split@, rows@, i as int);
            lemma_sides_len(dataset, split@, rows@, (i + 1) as nat);
        }
        let left = if marked { flags[i] } else { check_left(dataset, split, row) };
        if left {
            left_buffer[l] = row;
            l += 1;
        } else {
            right_buffer[r] = row;
            r += 1;
        }
    }
    proof {
        assert(rows@.take(n as int) =~= rows@);
        lemma_sides_len(dataset, split@, rows@, n as nat);
    }
    l
}

/// `after` is `before` with `front` written over its front.
pub open spec fn overwritten<T>(before: Seq<T>, front: Seq<T>, after: Seq<T>) -> bool {
    &&& after.len() == before.len()
    &&& forall|i: int| 0 <= i < after.len() ==> #[trigger] after[i] == if i < front.len() { front[i] } else { before[i] }
}

impl Tree {
    /// Separates `indices` into left and right by a split. Indices that belong left go to the
    /// front of `indices`, those that belong right to the back, both in the order they had.
    /// Returns the number of indices that go left. The buffers are scratch space; with a pool
    /// and many indices the sides are first worked out in parallel, into `flags`.
    pub fn partition_indices(
        &self,
        dataset: &Dataset,
        indices: &mut [u32],
        split: &SplitInfo,
        left_buffer: &mut [u32],
        right_buffer: &mut [u32],
        pool: Option<&rayon::ThreadPool>,
        flags: &mut [bool],
    ) -> (left: usize)
        requires
            separable(dataset, split@, old(indices)@),
            lefts(dataset, split@, old(indices)@).len() <= old(left_buffer)@.len(),
            rights(dataset, split@, old(indices)@).len() <= old(right_buffer)@.len(),
            pool is Some && old(indices)@.len() > PARALLEL_ROWS ==> old(indices)@.len() <= old(flags)@.len(),
        ensures
            left == lefts(dataset, split@, old(indices)@).len(),
            final(indices)@ == lefts(dataset, split@, old(indices)@) + rights(dataset, split@, old(indices)@),
            final(indices)@.len() == old(indices)@.len(),
            overwritten(old(left_buffer)@, lefts(dataset, split@, old(indices)@), final(left_buffer)@),
            overwritten(old(right_buffer)@, rights(dataset, split@, old(indices)@), final(right_buffer)@),
            overwritten(
                old(flags)@,
                if pool is Some && old(indices)@.len() > PARALLEL_ROWS {
                    old(indices)@.map_values(|row: u32| sent_left(dataset, split@, row))
                } else {
                    Seq::empty()
                },
                final(flags)@,
            ),
    {
        let ghost rows = indices@;
        let n = indices.len();
        let left = separate(dataset, indices, split, left_buffer, right_buffer, pool, flags);
        let ghost both = lefts(dataset, split@, rows) + rights(dataset, split@, rows);
        for i in 0..n
            invariant
                n == rows.len(),
                indices@.len() == n,
                left == lefts(dataset, split@, rows).len(),
                n == left + rights(dataset, split@, rows).len(),
                both == lefts(dataset, split@, rows) + rights(dataset, split@, rows),
                left <= left_buffer@.len(),
                n - left <= right_buffer@.len(),
                forall|k: int| 0 <= k < left ==> #[trigger] left_buffer@[k] == both[k],
                forall|k: int| 0 <= k < n - left ==> #[trigger] right_buffer@[k] == both[left + k],
                forall|k: int| 0 <= k < i ==> #[trigger] indices@[k] == both[k],
        {
            indices[i] = if i < left { left_buffer[i] } else { right_buffer[i - left] };
        }
        assert(indices@ =~= both);
        left
    }
}

/// The gradients and hessians of some rows.
pub open spec fn gathered(grad_hess: Seq<[Single; 2]>, rows: Seq<u32>) -> Seq<[Single; 2]> {
    Seq::new(rows.len(), |i: int| grad_hess[rows[i] as int])
}

/// Writes `grad_hess[row]` for each row in `indices` to the front of `out`.
pub fn gather_grad_hess(
    grad_hess: &[[Single; 2]],
    indices: &[u32],
    out: &mut [[Single; 2]],
    pool: Option<&rayon::ThreadPool>,
)
    requires
        forall|i: int| 0 <= i < indices@.len() ==> (#[trigger] indices@[i]) < grad_hess@.len(),
        indices@.len() <= old(out)@.len(),
    ensures
        overwritten(old(out)@, gathered(grad_hess@, indices@), final(out)@),
{
    let n = indices.len();
    let ghost before = out@;
    match pool {
        Some(pool) => if n > PARALLEL_ROWS {
            let f = |i: usize| -> (gh: [Single; 2])
                requires
                    i < indices@.len(),
                    indices@[i as int] < grad_hess@.len(),
                ensures
                    gh == grad_hess@[indices@[i as int] as int],
            { grad_hess[indices[i] as usize] };
            let picked = parallel_map(pool, n, f);
            for i in 0..n
                invariant
                    n == indices@.len() <= before.len(),
                    picked@.len() == n,
                    forall|k: int| 0 <= k < n ==> #[trigger] picked@[k] == grad_hess@[indices@[k] as int],
                    out@.len() == before.len(),
                    forall|k: int|
                        0 <= k < before.len() ==> #[trigger] out@[k] == if k < i {
                            grad_hess@[indices@[k] as int]
                        } else {
                            before[k]
                        },
            {
                out[i] = picked[i];
            }
            return;
        },
        None => {},
    }
    for i in 0..n
        invariant
            n == indices@.len() <= before.len(),
            forall|k: int| 0 <= k < indices@.len() ==> (#[trigger] indices@[k]) < grad_hess@.len(),
            out@.len() == before.len(),
            forall|k: int|
                0 <= k < before.len() ==> #[trigger] out@[k] == if k < i { grad_hess@[indices@[k] as int] } else { before[k] },
    {
        out[i] = grad_hess[indices[i] as usize];
    }
}

proof fn lemma_sides_multiset(d: &Dataset, split: Split, rows: Seq<u32>, n: nat)
    requires
        n <= rows.len(),
    ensures
        (lefts(d, split, rows.take(n as int)) + rights(d, split, rows.take(n as int))).to_multiset()
            == rows.take(n as int).to_multiset(),
    decreases n,
{
    broadcast use vstd::seq_lib::group_to_multiset_ensures;
    let l = lefts(d, split, rows.take(n as int));
    let r = rights(d, split, rows.take(n as int));
    lemma_multiset_commutative(l, r);
    if n == 0 {
        lemma_sides_len(d, split, rows, 0);
        assert(l + r =~= rows.take(0));
    } else {
        let l0 = lefts(d, split, rows.take(n - 1));
        let r0 = rights(d, split, rows.take(n - 1));
        let x = rows[n - 1];
        lemma_sides_multiset(d, split, rows, (n - 1) as nat);
        lemma_sides_step(d, split, rows, n - 1);
        lemma_multiset_commutative(l0, r0);
        assert(rows.take(n as int) =~= rows.take(n - 1).push(x));
        if sent_left(d, split, x) {
            assert(l0.push(x).to_multiset() =~= l0.to_multiset().insert(x));
        } else {
            assert(r0.push(x).to_multiset() =~= r0.to_multiset().insert(x));
        }
        assert((l + r).to_multiset() =~= (l0 + r0).to_multiset().insert(x));
    }
}

/// Separating rows loses none and adds none.
pub proof fn law_partition_keeps_every_row(d: &Dataset, split: Split, rows: Seq<u32>)
    ensures
        (lefts(d, split, rows) + rights(d, split, rows)).to_multiset() == rows.to_multiset(),
        lefts(d, split, rows).len() + rights(d, split, rows).len() == rows.len(),
{
    lemma_sides_multiset(d, split, rows, rows.len());
    lemma_sides_len(d, split, rows, rows.len());
    assert(rows.take(rows.len() as int) =~= rows);
}

/// Rows in ascending order.
pub open spec fn ascending_rows(rows: Seq<u32>) -> bool {
    forall|i: int, j: int| 0 <= i < j < rows.len() ==> rows[i] < rows[j]
}

proof fn lemma_sides_in_order(d: &Dataset, split: Split, rows: Seq<u32>, n: nat)
    requires
        n <= rows.len(),
        ascending_rows(rows),
    ensures
        ascending_rows(lefts(d, split, rows.take(n as int))),
        ascending_rows(rights(d, split, rows.take(n as int))),
        forall|i: int| 0 <= i < lefts(d, split, rows.take(n as int)).len() && n < rows.len()
            ==> #[trigger] lefts(d, split, rows.take(n as int))[i] < rows[n as int],
        forall|i: int| 0 <= i < rights(d, split, rows.take(n as int)).len() && n < rows.len()
            ==> #[trigger] rights(d, split, rows.take(n as int))[i] < rows[n as int],
    decreases n,
{
    if n > 0 {
        lemma_sides_in_order(d, split, rows, (n - 1) as nat);
        lemma_sides_step(d, split, rows, n - 1);
        if n < rows.len() {
            assert(rows[n - 1] < rows[n as int]);
        }
    } else {
        reveal(Seq::filter);
    }
}

/// Rows that were in ascending order stay so on both sides.
pub proof fn law_partition_keeps_the_order(d: &Dataset, split: Split, rows: Seq<u32>)
    requires
        ascending_rows(rows),
    ensures
        ascending_rows(lefts(d, split, rows)),
        ascending_rows(rights(d, split, rows)),
{
    lemma_sides_in_order(d, split, rows, rows.len());
    assert(rows.take(rows.len() as int) =~= rows);
}

/// Every row stands on the side that the split sends it to.
pub proof fn law_partition_goes_by_the_split(d: &Dataset, split: Split, rows: Seq<u32>)
    ensures
        forall|i: int| 0 <= i < lefts(d, split, rows).len() ==> sent_left(d, split, #[trigger] lefts(d, split, rows)[i]),
        forall|i: int| 0 <= i < rights(d, split, rows).len() ==> !sent_left(d, split, #[trigger] rights(d, split, rows)[i]),
{
    let goes_left = |row: u32| sent_left(d, split, row);
    let goes_right = |row: u32| !sent_left(d, split, row);
    assert forall|i: int| 0 <= i < lefts(d, split, rows).len() implies sent_left(
        d,
        split,
        #[trigger] lefts(d, split, rows)[i],
    ) by {
        rows.lemma_filter_pred(goes_left, i);
    }
    assert forall|i: int| 0 <= i < rights(d, split, rows).len() implies !sent_left(
        d,
        split,
        #[trigger] rights(d, split, rows)[i],
    ) by {
        rows.lemma_filter_pred(goes_right, i);
    }
}

} // verus!
