//! How many rows of a matrix over GF(2) are more than a largest
//! independent selection of them holds.

use crate::solver::gaussian_eliminations::independence::{picks, vanishes};
use vstd::prelude::*;

verus! {

/// Number of rows that the selection picks among the first `n`.
pub open spec fn count_upto(sel: Seq<bool>, n: int) -> nat
    decreases n,
{
    if n <= 0 {
        0
    } else if sel[n - 1] {
        count_upto(sel, n - 1) + 1
    } else {
        count_upto(sel, n - 1)
    }
}

/// Whether `sub` picks only rows that `sel` picks.
pub open spec fn within(sub: Seq<bool>, sel: Seq<bool>) -> bool {
    forall|k: int| 0 <= k < sub.len() && #[trigger] sub[k] ==> sel[k]
}

/// Whether the selected rows are independent on the first `m` columns: no
/// selection among them that picks a row sums to zero there.
pub open spec fn independent(rows: Seq<Seq<bool>>, sel: Seq<bool>, m: int) -> bool {
    forall|sub: Seq<bool>|
        sub.len() == rows.len() && picks(sub) && within(sub, sel) ==> !#[trigger] vanishes(rows, sub, m)
}

/// Whether `b` is the number of rows beyond a largest independent
/// selection: some independent selection leaves `b` rows out, and none
/// leaves fewer out.
pub open spec fn excess_is(rows: Seq<Seq<bool>>, m: int, b: nat) -> bool {
    let n = rows.len() as int;
    &&& exists|sel: Seq<bool>|
        sel.len() == rows.len() && #[trigger] independent(rows, sel, m) && count_upto(sel, n) + b
            == n
    &&& forall|sel: Seq<bool>|
        sel.len() == rows.len() && #[trigger] independent(rows, sel, m) ==> count_upto(sel, n) + b
            <= n
}

/// The number of rows beyond a largest independent selection of them.
pub open spec fn excess(rows: Seq<Seq<bool>>, m: int) -> nat {
    choose|b: nat| excess_is(rows, m, b)
}

/// There is one such number at most, so a number that is one is the excess.
pub proof fn lemma_excess_unique(rows: Seq<Seq<bool>>, m: int, b: nat)
    requires
        excess_is(rows, m, b),
    ensures
        excess(rows, m) == b,
        b <= rows.len(),
{
    let n = rows.len() as int;
    let other = excess(rows, m);
    assert(excess_is(rows, m, other));
    let most = choose|sel: Seq<bool>|
        sel.len() == rows.len() && #[trigger] independent(rows, sel, m) && count_upto(sel, n) + b
            == n;
    let most2 = choose|sel: Seq<bool>|
        sel.len() == rows.len() && #[trigger] independent(rows, sel, m) && count_upto(sel, n)
            + other == n;
    assert(count_upto(most, n) + other <= n);
    assert(count_upto(most2, n) + b <= n);
}

/// A selection picks no more rows than there are.
pub proof fn lemma_count_bound(sel: Seq<bool>, n: int)
    requires
        0 <= n,
    ensures
        count_upto(sel, n) <= n,
    decreases n,
{
    if n > 0 {
        lemma_count_bound(sel, n - 1);
    }
}

/// A selection that picks no row counts zero.
pub proof fn lemma_count_none(sel: Seq<bool>, n: int)
    requires
        forall|k: int| 0 <= k < n ==> !sel[k],
    ensures
        count_upto(sel, n) == 0,
    decreases n,
{
    if n > 0 {
        lemma_count_none(sel, n - 1);
    }
}

/// The count depends only on the bits that it reads.
pub proof fn lemma_count_agree(a: Seq<bool>, b: Seq<bool>, n: int)
    requires
        forall|k: int| 0 <= k < n ==> a[k] == b[k],
    ensures
        count_upto(a, n) == count_upto(b, n),
    decreases n,
{
    if n > 0 {
        lemma_count_agree(a, b, n - 1);
    }
}

/// Dropping a picked row from a selection lowers its count by one.
pub proof fn lemma_count_dropped(sel: Seq<bool>, k: int, n: int)
    requires
        0 <= k < n <= sel.len(),
        sel[k],
    ensures
        count_upto(sel, n) == count_upto(sel.update(k, false), n) + 1,
    decreases n,
{
    let less = sel.update(k, false);
    if k == n - 1 {
        lemma_count_agree(sel, less, n - 1);
    } else {
        lemma_count_dropped(sel, k, n - 1);
    }
}

/// A selection that is matched one to one with the numbers below `b` picks
/// `b` rows: `owner` names the row of every number, and `number` the number
/// of every picked row.
pub proof fn lemma_count_matched(sel: Seq<bool>, owner: Seq<int>, number: Seq<int>, b: int)
    requires
        0 <= b <= owner.len(),
        number.len() == sel.len(),
        forall|i: int|
            0 <= i < b ==> 0 <= #[trigger] owner[i] < sel.len() && sel[owner[i]] && number[owner[i]]
                == i,
        forall|k: int|
            0 <= k < sel.len() && #[trigger] sel[k] ==> 0 <= number[k] < b && owner[number[k]] == k,
    ensures
        count_upto(sel, sel.len() as int) == b,
    decreases b,
{
    let n = sel.len() as int;
    if b == 0 {
        lemma_count_none(sel, n);
    } else {
        let last = owner[b - 1];
        let less = sel.update(last, false);
        assert forall|i: int| 0 <= i < b - 1 implies 0 <= #[trigger] owner[i] < less.len()
            && less[owner[i]] && number[owner[i]] == i by {
            assert(number[owner[i]] == i);
        }
        assert forall|k: int| 0 <= k < less.len() && #[trigger] less[k] implies 0 <= number[k] < b
            - 1 && owner[number[k]] == k by {
            assert(sel[k]);
        }
        lemma_count_matched(less, owner, number, b - 1);
        lemma_count_dropped(sel, last, n);
    }
}

/// Two selections that are matched one to one pick equally many rows: `to`
/// names the partner of every row that the first picks, and `back` the
/// partner of every row that the second picks.
pub proof fn lemma_count_paired(a: Seq<bool>, b: Seq<bool>, to: Seq<int>, back: Seq<int>)
    requires
        forall|k: int|
            0 <= k < a.len() && #[trigger] a[k] ==> 0 <= to[k] < b.len() && b[to[k]] && back[to[k]]
                == k,
        forall|w: int|
            0 <= w < b.len() && #[trigger] b[w] ==> 0 <= back[w] < a.len() && a[back[w]]
                && to[back[w]] == w,
    ensures
        count_upto(a, a.len() as int) == count_upto(b, b.len() as int),
    decreases a.len(),
{
    if a.len() == 0 {
        lemma_count_none(b, b.len() as int);
    } else {
        let last = a.len() - 1;
        let rest = a.drop_last();
        lemma_count_agree(a, rest, last);
        if a[last] {
            let w = to[last];
            let less = b.update(w, false);
            assert forall|k: int| 0 <= k < rest.len() && #[trigger] rest[k] implies 0 <= to[k]
                < less.len() && less[to[k]] && back[to[k]] == k by {
                assert(a[k]);
            }
            assert forall|v: int| 0 <= v < less.len() && #[trigger] less[v] implies 0 <= back[v]
                < rest.len() && rest[back[v]] && to[back[v]] == v by {
                assert(b[v]);
            }
            lemma_count_paired(rest, less, to, back);
            lemma_count_dropped(b, w, b.len() as int);
        } else {
            assert forall|k: int| 0 <= k < rest.len() && #[trigger] rest[k] implies 0 <= to[k]
                < b.len() && b[to[k]] && back[to[k]] == k by {
                assert(a[k]);
            }
            assert forall|v: int| 0 <= v < b.len() && #[trigger] b[v] implies 0 <= back[v]
                < rest.len() && rest[back[v]] && to[back[v]] == v by {}
            lemma_count_paired(rest, b, to, back);
        }
    }
}

/// Two selections of which every row is in exactly one pick all rows
/// between them.
pub proof fn lemma_count_complement(a: Seq<bool>, b: Seq<bool>, n: int)
    requires
        0 <= n,
        forall|k: int| 0 <= k < n ==> a[k] != b[k],
    ensures
        count_upto(a, n) + count_upto(b, n) == n,
    decreases n,
{
    if n > 0 {
        lemma_count_complement(a, b, n - 1);
    }
}

/// The rows among the first `n` that the selection leaves out, in order.
pub open spec fn left_out(sel: Seq<bool>, n: int) -> Seq<int>
    decreases n,
{
    if n <= 0 {
        Seq::empty()
    } else if sel[n - 1] {
        left_out(sel, n - 1)
    } else {
        left_out(sel, n - 1).push(n - 1)
    }
}

/// The rows left out are those that are not picked, each listed once.
pub proof fn lemma_left_out(sel: Seq<bool>, n: int)
    requires
        0 <= n,
    ensures
        left_out(sel, n).len() + count_upto(sel, n) == n,
        forall|j: int|
            0 <= j < left_out(sel, n).len() ==> 0 <= #[trigger] left_out(sel, n)[j] < n && !sel[left_out(
                sel,
                n,
            )[j]],
        forall|k: int| 0 <= k < n && !sel[k] ==> left_out(sel, n).contains(k),
    decreases n,
{
    if n > 0 {
        lemma_left_out(sel, n - 1);
        let before = left_out(sel, n - 1);
        let now = left_out(sel, n);
        assert forall|k: int| 0 <= k < n && !sel[k] implies now.contains(k) by {
            if k < n - 1 {
                assert(before.contains(k));
                let j = choose|j: int| 0 <= j < before.len() && before[j] == k;
                assert(now[j] == k);
            } else {
                assert(now[now.len() - 1] == k);
            }
        }
    }
}

} // verus!
