//! The assignment step: every sample goes to the centroid at the least
//! distance.
//!
//! The distances arrive as single-precision IEEE-754 bit patterns, one row
//! per sample and one column per centroid. They are compared in the IEEE
//! total order, in which every pattern has a place of its own: negative
//! values come before positive ones, `-0` before `+0`, and a NaN of either
//! sign lies outside the infinities.

use crate::dataset::Dataset;
use vstd::prelude::*;

verus! {

/// The place of a bit pattern in the total order: patterns compare as their
/// keys do.
///
/// A pattern with a clear sign bit is its own key. With the sign bit set, a
/// larger magnitude means a smaller value, so the remaining bits count
/// downwards from `-1`.
pub open spec fn total_order_key(bits: u32) -> int {
    if bits < 0x8000_0000 {
        bits as int
    } else {
        0x7fff_ffff - bits
    }
}

/// Different bit patterns never share a key, and every key fits 32 signed
/// bits.
pub proof fn lemma_total_order_key(a: u32, b: u32)
    ensures
        -0x8000_0000 <= total_order_key(a) < 0x8000_0000,
        total_order_key(a) == total_order_key(b) <==> a == b,
{
}

/// Computes [`total_order_key`].
pub fn order_key(bits: u32) -> (key: i64)
    ensures
        key == total_order_key(bits),
{
    let wide: i64 = bits as i64;
    if bits < 0x8000_0000 {
        wide
    } else {
        0x7fff_ffff - wide
    }
}

/// Column `c` holds the least distance of `row`, and no earlier column holds
/// one as small: among equal distances the lowest index wins.
pub open spec fn is_nearest(row: Seq<u32>, c: int) -> bool {
    &&& 0 <= c < row.len()
    &&& forall|j: int|
        0 <= j < c ==> total_order_key(row[c]) < total_order_key(#[trigger] row[j])
    &&& forall|j: int|
        c <= j < row.len() ==> total_order_key(row[c]) <= total_order_key(#[trigger] row[j])
}

/// The column that [`is_nearest`] singles out; meaningful for a row that is
/// not empty.
pub open spec fn argmin(row: Seq<u32>) -> int {
    choose|c: int| is_nearest(row, c)
}

/// A row has at most one nearest column.
pub proof fn lemma_nearest_unique(row: Seq<u32>, a: int, b: int)
    requires
        is_nearest(row, a),
        is_nearest(row, b),
    ensures
        a == b,
{
    if a < b {
        assert(total_order_key(row[b]) < total_order_key(row[a]));
        assert(total_order_key(row[a]) <= total_order_key(row[b]));
    } else if b < a {
        assert(total_order_key(row[a]) < total_order_key(row[b]));
        assert(total_order_key(row[b]) <= total_order_key(row[a]));
    }
}

/// Every row that is not empty has a nearest column, and [`argmin`] is that
/// column.
pub proof fn lemma_nearest_exists(row: Seq<u32>) -> (c: int)
    requires
        row.len() > 0,
    ensures
        is_nearest(row, c),
        c == argmin(row),
    decreases row.len(),
{
    let c = if row.len() == 1 {
        0
    } else {
        let front = row.drop_last();
        let p = lemma_nearest_exists(front);
        assert(forall|j: int| 0 <= j < front.len() ==> front[j] == row[j]);
        if total_order_key(row.last()) < total_order_key(row[p]) {
            row.len() - 1
        } else {
            p
        }
    };
    assert(is_nearest(row, c));
    lemma_nearest_unique(row, c, argmin(row));
    c
}

/// The label of every row of a distance table.
pub open spec fn assignment(table: Seq<Seq<u32>>) -> Seq<usize> {
    Seq::new(table.len(), |i: int| argmin(table[i]) as usize)
}

/// The rows of `table` at the positions `picks`, in that order.
pub open spec fn select_rows(table: Seq<Seq<u32>>, picks: Seq<int>) -> Seq<Seq<u32>> {
    Seq::new(picks.len(), |j: int| table[picks[j]])
}

/// The index of the least distance in `row`, the lowest such index where
/// several are equal; `None` for an empty row.
pub fn nearest(row: &[u32]) -> (choice: Option<usize>)
    ensures
        choice is None <==> row@.len() == 0,
        choice matches Some(c) ==> is_nearest(row@, c as int) && c == argmin(row@),
{
    let len = row.len();
    if len == 0 {
        return None;
    }
    let mut best: usize = 0;
    let mut best_key: i64 = order_key(row[0]);
    let mut j: usize = 1;
    while j < len
        invariant
            len == row@.len(),
            1 <= j <= len,
            best_key == total_order_key(row@[best as int]),
            is_nearest(row@.take(j as int), best as int),
        decreases len - j,
    {
        let key = order_key(row[j]);
        let ghost before = row@.take(j as int);
        let ghost after = row@.take(j + 1);
        assert(forall|i: int| 0 <= i < j ==> after[i] == before[i]);
        if key < best_key {
            best = j;
            best_key = key;
        }
        j += 1;
    }
    assert(row@.take(len as int) == row@);
    proof {
        lemma_nearest_unique(row@, best as int, argmin(row@));
    }
    Some(best)
}

/// Labels every sample with its nearest centroid: entry `i` of the result is
/// the column of the least distance in row `i` of `distances`.
pub fn assign(distances: &Dataset<u32>) -> (labels: Vec<usize>)
    ensures
        labels@ == assignment(distances@),
        forall|i: int|
            0 <= i < distances@.len() ==> is_nearest(distances@[i], #[trigger] labels@[i] as int),
        forall|i: int| 0 <= i < labels@.len() ==> #[trigger] labels@[i] < distances.dim(),
{
    let n = distances.nsamples();
    let mut labels: Vec<usize> = Vec::with_capacity(n);
    proof {
        use_type_invariant(distances);
        distances.lemma_shape();
    }
    let mut i: usize = 0;
    while i < n
        invariant
            distances.well_formed(),
            n == distances@.len(),
            i <= n,
            labels@.len() == i,
            forall|r: int| 0 <= r < i ==> is_nearest(distances@[r], #[trigger] labels@[r] as int),
            forall|r: int| 0 <= r < i ==> #[trigger] labels@[r] == argmin(distances@[r]),
        decreases n - i,
    {
        proof {
            distances.lemma_shape();
        }
        let row = distances.get(i).unwrap();
        let choice = nearest(row).unwrap();
        labels.push(choice);
        i += 1;
    }
    proof {
        distances.lemma_shape();
        assert(labels@ =~= assignment(distances@));
    }
    labels
}

/// The assignment step never moves a sample farther away: under the
/// distances it was made from, no sample is farther from its new centroid
/// than from the one that any other labelling gives it.
pub proof fn lemma_assignment_never_farther(table: Seq<Seq<u32>>, other: Seq<usize>)
    requires
        other.len() == table.len(),
        forall|i: int| 0 <= i < table.len() ==> #[trigger] other[i] < table[i].len(),
        forall|i: int| 0 <= i < table.len() ==> (#[trigger] table[i]).len() <= usize::MAX,
    ensures
        forall|i: int|
            0 <= i < table.len() ==> total_order_key(table[i][#[trigger] assignment(table)[i] as int])
                <= total_order_key(table[i][other[i] as int]),
{
    assert forall|i: int| 0 <= i < table.len() implies total_order_key(
        table[i][#[trigger] assignment(table)[i] as int],
    ) <= total_order_key(table[i][other[i] as int]) by {
        assert(other[i] < table[i].len());
        let c = lemma_nearest_exists(table[i]);
        let o = other[i] as int;
        assert(total_order_key(table[i][c]) <= total_order_key(table[i][o]));
    }
}

/// Labelling two tables one after the other is labelling their
/// concatenation: a split of the samples into two contiguous ranges does not
/// change any label.
pub proof fn lemma_assignment_concat(first: Seq<Seq<u32>>, second: Seq<Seq<u32>>)
    ensures
        assignment(first + second) == assignment(first) + assignment(second),
{
    assert(assignment(first + second) =~= assignment(first) + assignment(second));
}

/// The label of a sample depends on its own row alone: labelling any
/// selection of rows gives the selected entries of the full labelling.
pub proof fn lemma_assignment_select(table: Seq<Seq<u32>>, picks: Seq<int>)
    requires
        forall|j: int| 0 <= j < picks.len() ==> 0 <= #[trigger] picks[j] < table.len(),
    ensures
        assignment(select_rows(table, picks)) == Seq::new(
            picks.len(),
            |j: int| assignment(table)[picks[j]],
        ),
{
    assert(assignment(select_rows(table, picks)) =~= Seq::new(
        picks.len(),
        |j: int| assignment(table)[picks[j]],
    ));
}

/// Row `i` is in the share of some worker.
pub open spec fn is_shared_out(shares: Seq<Seq<int>>, i: int) -> bool {
    exists|w: int, j: int|
        0 <= w < shares.len() && 0 <= j < shares[w].len() && #[trigger] shares[w][j] == i
}

/// Assignment does not depend on how the samples are shared out: when the
/// rows are dealt to workers in any way that leaves no row out, each worker
/// labels its own rows, and every label is written back at its row's
/// position, the merged labels are those of one pass over the whole table.
pub proof fn lemma_assignment_partition_invariant(
    table: Seq<Seq<u32>>,
    shares: Seq<Seq<int>>,
    merged: Seq<usize>,
)
    requires
        merged.len() == table.len(),
        forall|w: int, j: int|
            0 <= w < shares.len() && 0 <= j < shares[w].len() ==> 0 <= #[trigger] shares[w][j]
                < table.len(),
        forall|i: int| 0 <= i < table.len() ==> #[trigger] is_shared_out(shares, i),
        forall|w: int, j: int|
            0 <= w < shares.len() && 0 <= j < shares[w].len() ==> merged[#[trigger] shares[w][j]]
                == assignment(select_rows(table, shares[w]))[j],
    ensures
        merged == assignment(table),
{
    assert forall|i: int| 0 <= i < table.len() implies merged[i] == assignment(table)[i] by {
        assert(is_shared_out(shares, i));
        let (w, j) = choose|w: int, j: int|
            0 <= w < shares.len() && 0 <= j < shares[w].len() && #[trigger] shares[w][j] == i;
        lemma_assignment_select(table, shares[w]);
        assert(merged[shares[w][j]] == assignment(select_rows(table, shares[w]))[j]);
    }
    assert(merged =~= assignment(table));
}

} // verus!
