//! Rows of a linear system over GF(2) with right-hand sides in the field.

use crate::field::{gf_add, lemma_add_interchange, lemma_add_laws, F128b};
use core::ops::Range;
use vstd::prelude::*;

verus! {

/// One equation: the coefficient bits and the value their selection must sum to.
pub struct Row {
    pub values: Vec<bool>,
    pub target: F128b,
}

/// Bitwise sum of two bit vectors, as long as the first.
pub open spec fn bits_xor(a: Seq<bool>, b: Seq<bool>) -> Seq<bool> {
    Seq::new(a.len(), |i: int| a[i] != b[i])
}

/// The all-zero bit vector of length `n`.
pub open spec fn zero_bits(n: nat) -> Seq<bool> {
    Seq::new(n, |i: int| false)
}

/// Sum of the entries of `r` that the first `n` bits select.
pub open spec fn inner_upto(bits: Seq<bool>, r: Seq<F128b>, n: int) -> F128b
    decreases n,
{
    if n <= 0 {
        F128b(0)
    } else {
        let s = inner_upto(bits, r, n - 1);
        if bits[n - 1] {
            gf_add(s, r[n - 1])
        } else {
            s
        }
    }
}

/// Inner product of a bit vector with a vector of field elements.
pub open spec fn inner_product(bits: Seq<bool>, r: Seq<F128b>) -> F128b {
    inner_upto(bits, r, bits.len() as int)
}

/// The inner product depends only on the entries it reads.
pub proof fn lemma_inner_agree(a: Seq<bool>, b: Seq<bool>, r: Seq<F128b>, s: Seq<F128b>, n: int)
    requires
        forall|i: int| 0 <= i < n ==> a[i] == b[i],
        forall|i: int| 0 <= i < n && a[i] ==> r[i] == s[i],
    ensures
        inner_upto(a, r, n) == inner_upto(b, s, n),
    decreases n,
{
    if n > 0 {
        lemma_inner_agree(a, b, r, s, n - 1);
    }
}

/// The inner product is additive in the bit vector.
pub proof fn lemma_inner_xor(a: Seq<bool>, b: Seq<bool>, r: Seq<F128b>, n: int)
    requires
        n <= a.len(),
    ensures
        inner_upto(bits_xor(a, b), r, n) == gf_add(inner_upto(a, r, n), inner_upto(b, r, n)),
    decreases n,
{
    if n <= 0 {
        lemma_add_laws(F128b(0), F128b(0), F128b(0));
    } else {
        lemma_inner_xor(a, b, r, n - 1);
        let sa = inner_upto(a, r, n - 1);
        let sb = inner_upto(b, r, n - 1);
        let x = r[n - 1];
        lemma_add_laws(sa, sb, x);
        lemma_add_laws(sa, x, sb);
        lemma_add_laws(x, sb, sb);
        lemma_add_interchange(sa, x, sb, x);
        lemma_add_laws(x, x, x);
        lemma_add_laws(gf_add(sa, sb), F128b(0), F128b(0));
    }
}

/// The zero vector has inner product zero with everything.
pub proof fn lemma_inner_zero(bits: Seq<bool>, r: Seq<F128b>, n: int)
    requires
        forall|i: int| 0 <= i < n ==> !bits[i],
    ensures
        inner_upto(bits, r, n) == F128b(0),
    decreases n,
{
    if n > 0 {
        lemma_inner_zero(bits, r, n - 1);
    }
}

/// Setting bit `p` adds the entry `r[p]` to the inner product.
pub proof fn lemma_inner_set_bit(bits: Seq<bool>, r: Seq<F128b>, p: int, n: int)
    requires
        0 <= p < n <= bits.len(),
        bits[p],
    ensures
        inner_upto(bits, r, n) == gf_add(inner_upto(bits.update(p, false), r, n), r[p]),
    decreases n,
{
    let cleared = bits.update(p, false);
    if n - 1 == p {
        lemma_inner_agree(bits, cleared, r, r, n - 1);
    } else {
        lemma_inner_set_bit(bits, r, p, n - 1);
        let s = inner_upto(cleared, r, n - 1);
        lemma_add_laws(s, r[p], r[n - 1]);
        lemma_add_laws(s, r[n - 1], r[p]);
        lemma_add_laws(r[p], r[n - 1], s);
    }
}

impl Row {
    pub fn new(values: Vec<bool>, target: F128b) -> (row: Row)
        ensures
            row.values == values,
            row.target == target,
    {
        Row { values, target }
    }
}

/// What [`add_rows`] leaves in the row it adds to.
pub open spec fn added_bits(into: Seq<bool>, from: Seq<bool>, start: int, end: int) -> Seq<bool> {
    Seq::new(into.len(), |c: int| if start <= c < end { into[c] != from[c] } else { into[c] })
}

/// Adds row `add_row_idx` to row `added_row_idx` on the columns of `range`,
/// and its target to that row's target. A row added to itself is cleared
/// on those columns, and so is its target; a range that ends before it
/// starts has no columns.
pub fn add_rows(matrix: &mut Vec<Row>, added_row_idx: usize, add_row_idx: usize, range: Range<usize>)
    requires
        added_row_idx < old(matrix)@.len(),
        add_row_idx < old(matrix)@.len(),
        range.start < range.end ==> range.end <= old(matrix)@[added_row_idx as int].values@.len(),
        range.start < range.end ==> range.end <= old(matrix)@[add_row_idx as int].values@.len(),
    ensures
        final(matrix)@.len() == old(matrix)@.len(),
        forall|k: int|
            0 <= k < old(matrix)@.len() && k != added_row_idx ==> final(matrix)@[k] == old(
                matrix,
            )@[k],
        final(matrix)@[added_row_idx as int].values@ == added_bits(
            old(matrix)@[added_row_idx as int].values@,
            old(matrix)@[add_row_idx as int].values@,
            range.start as int,
            range.end as int,
        ),
        final(matrix)@[added_row_idx as int].target == gf_add(
            old(matrix)@[added_row_idx as int].target,
            old(matrix)@[add_row_idx as int].target,
        ),
{
    let ghost before = matrix@;
    let mut i: usize = range.start;
    assert(before[added_row_idx as int].values@ =~= added_bits(
        before[added_row_idx as int].values@,
        before[add_row_idx as int].values@,
        range.start as int,
        range.start as int,
    ));
    while i < range.end
        invariant
            range.start <= i,
            range.start < range.end ==> i <= range.end,
            range.start >= range.end ==> i == range.start,
            matrix@.len() == before.len(),
            added_row_idx < before.len(),
            add_row_idx < before.len(),
            range.start < range.end ==> range.end <= before[added_row_idx as int].values@.len(),
            range.start < range.end ==> range.end <= before[add_row_idx as int].values@.len(),
            forall|k: int| 0 <= k < before.len() && k != added_row_idx ==> matrix@[k] == before[k],
            matrix@[added_row_idx as int].target == before[added_row_idx as int].target,
            matrix@[added_row_idx as int].values@ == added_bits(
                before[added_row_idx as int].values@,
                before[add_row_idx as int].values@,
                range.start as int,
                i as int,
            ),
        decreases range.end - i,
    {
        let val = matrix[add_row_idx].values[i];
        let cur = matrix[added_row_idx].values[i];
        assert(val == before[add_row_idx as int].values@[i as int]);
        matrix[added_row_idx].values[i] = cur != val;
        i = i + 1;
        assert(matrix@[added_row_idx as int].values@ =~= added_bits(
            before[added_row_idx as int].values@,
            before[add_row_idx as int].values@,
            range.start as int,
            i as int,
        ));
    }
    assert(matrix@[added_row_idx as int].values@ =~= added_bits(
        before[added_row_idx as int].values@,
        before[add_row_idx as int].values@,
        range.start as int,
        range.end as int,
    ));
    let val = matrix[add_row_idx].target;
    let cur = matrix[added_row_idx].target;
    matrix[added_row_idx].target = cur.plus(val);
}

} // verus!
