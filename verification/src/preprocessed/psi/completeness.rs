//! Completeness of the intersection: an element that every party holds is
//! in what the receiver returns.
//!
//! For such an element every party deals a sharing of zero. At the element
//! a peer's function gives a party the share that the peer dealt to it, so
//! a party's sum there is one share of every party's sharing, and the
//! receiver's total is the sum of all shares of all sharings, which is zero.

use crate::field::{gf_add, lemma_add_laws, sum_upto, F128b};
use crate::preprocessed::psi::{
    accumulated, column_sum, columns_total, lemma_common_element_cancels,
    lemma_zero_selected_member, share_column, zero_selected,
};
use vstd::prelude::*;

verus! {

/// The number of the `t`-th peer of party `j`: the parties in order,
/// without `j`.
pub open spec fn peer_of(j: int, t: int) -> int {
    if t < j {
        t
    } else {
        t + 1
    }
}

/// The sums after what the first `n` functions gave was added to them, one
/// function after the other.
pub open spec fn absorbed(sums: Seq<F128b>, received: Seq<Seq<(F128b, F128b)>>, n: int) -> Seq<F128b>
    decreases n,
{
    if n <= 0 {
        sums
    } else {
        accumulated(absorbed(sums, received, n - 1), received[n - 1])
    }
}

/// For an element that stands at `at[i]` in the inputs of party `i`: the
/// shares that every party dealt for it.
pub open spec fn shares_at(dealt: Seq<Seq<Seq<F128b>>>, at: Seq<int>) -> Seq<Seq<F128b>> {
    Seq::new(dealt.len(), |i: int| dealt[i][at[i]])
}

/// The sums of party `j` after the sharing of zero among `n` parties: its
/// own shares, and what the functions of its peers gave it.
pub open spec fn sums_of(
    dealt: Seq<Seq<Seq<F128b>>>,
    received: Seq<Seq<Seq<(F128b, F128b)>>>,
    j: int,
    n: int,
) -> Seq<F128b> {
    absorbed(share_column(dealt[j], j), received[j], n - 1)
}

/// Adding what functions gave keeps the number of sums.
pub proof fn lemma_absorbed_len(sums: Seq<F128b>, received: Seq<Seq<(F128b, F128b)>>, n: int)
    ensures
        absorbed(sums, received, n).len() == sums.len(),
    decreases n,
{
    if n > 0 {
        lemma_absorbed_len(sums, received, n - 1);
    }
}

/// The sum of party `j` at the element after the functions of its first
/// `m` peers: its own share and the shares that those peers dealt to it.
pub proof fn lemma_party_sum(
    s: Seq<Seq<F128b>>,
    own: Seq<F128b>,
    received: Seq<Seq<(F128b, F128b)>>,
    j: int,
    at: int,
    m: int,
)
    requires
        0 <= j,
        0 <= m,
        0 <= at < own.len(),
        own[at] == s[j][j],
        forall|t: int| 0 <= t < m ==> (#[trigger] received[t])[at].1 == s[peer_of(j, t)][j],
    ensures
        absorbed(own, received, m)[at] == if m <= j {
            gf_add(s[j][j], column_sum(s, j, m))
        } else {
            column_sum(s, j, m + 1)
        },
    decreases m,
{
    if m == 0 {
        lemma_add_laws(s[j][j], s[j][j], s[j][j]);
    } else {
        lemma_party_sum(s, own, received, j, at, m - 1);
        lemma_absorbed_len(own, received, m - 1);
        let before = absorbed(own, received, m - 1)[at];
        let got = received[m - 1][at].1;
        assert(absorbed(own, received, m)[at] == gf_add(before, got));
        assert(got == s[peer_of(j, m - 1)][j]);
        let upto = column_sum(s, j, m - 1);
        if m <= j {
            assert(before == gf_add(s[j][j], upto));
            assert(column_sum(s, j, m) == gf_add(upto, got));
            lemma_add_laws(s[j][j], upto, got);
        } else if m - 1 == j {
            assert(before == gf_add(s[j][j], upto));
            assert(column_sum(s, j, m) == gf_add(upto, s[j][j]));
            assert(column_sum(s, j, m + 1) == gf_add(column_sum(s, j, m), got));
            lemma_add_laws(s[j][j], upto, got);
        } else {
            assert(before == column_sum(s, j, m));
            assert(column_sum(s, j, m + 1) == gf_add(column_sum(s, j, m), got));
        }
    }
}

/// The receiver's total at the element after the sums of the first `m`
/// senders: the sums of that many parties and one.
pub proof fn lemma_receiver_total(
    s: Seq<Seq<F128b>>,
    own: Seq<F128b>,
    reconstructed: Seq<Seq<(F128b, F128b)>>,
    at: int,
    n: int,
    m: int,
)
    requires
        0 <= m,
        0 <= at < own.len(),
        own[at] == column_sum(s, 0, n),
        forall|t: int| 0 <= t < m ==> (#[trigger] reconstructed[t])[at].1 == column_sum(s, t + 1, n),
    ensures
        absorbed(own, reconstructed, m)[at] == columns_total(s, n, m + 1),
    decreases m,
{
    if m == 0 {
        assert(columns_total(s, n, 0) == F128b(0));
        lemma_add_laws(own[at], own[at], own[at]);
    } else {
        lemma_receiver_total(s, own, reconstructed, at, n, m - 1);
        lemma_absorbed_len(own, reconstructed, m - 1);
        assert(reconstructed[m - 1][at].1 == column_sum(s, m, n));
    }
}

/// Completeness of the intersection among `n` parties, for an element `x`
/// that stands at `at[i]` in the inputs of every party `i`.
///
/// Every party deals sharings of zero, one per input. Of what the function
/// of a peer gives a party, the value at `x` is the share that the peer
/// dealt to the party for `x`: the functions are programmed so. Of what the
/// function of a sender gives the receiver in the reconstruction, the value
/// at `x` is the sender's sum for `x`. Then the receiver's total for `x` is
/// zero, and `x` is among the inputs that the receiver selects.
pub proof fn lemma_intersection_complete(
    n: int,
    inputs: Seq<F128b>,
    x: F128b,
    at: Seq<int>,
    dealt: Seq<Seq<Seq<F128b>>>,
    received: Seq<Seq<Seq<(F128b, F128b)>>>,
    reconstructed: Seq<Seq<(F128b, F128b)>>,
)
    requires
        n >= 1,
        at.len() == n,
        dealt.len() == n,
        0 <= at[0] < inputs.len(),
        inputs[at[0]] == x,
        dealt[0].len() == inputs.len(),
        forall|i: int| 0 <= i < n ==> 0 <= #[trigger] at[i] < dealt[i].len(),
        forall|i: int| 0 <= i < n ==> sum_upto(#[trigger] dealt[i][at[i]], n) == F128b(0),
        forall|j: int, t: int|
            0 <= j < n && 0 <= t < n - 1 ==> (#[trigger] received[j][t])[at[j]].1 == dealt[peer_of(
                j,
                t,
            )][at[peer_of(j, t)]][j],
        forall|t: int|
            0 <= t < n - 1 ==> (#[trigger] reconstructed[t])[at[0]].1 == sums_of(
                dealt,
                received,
                t + 1,
                n,
            )[at[t + 1]],
    ensures
        absorbed(sums_of(dealt, received, 0, n), reconstructed, n - 1)[at[0]] == F128b(0),
        zero_selected(
            inputs,
            absorbed(sums_of(dealt, received, 0, n), reconstructed, n - 1),
            inputs.len() as int,
        ).contains(x),
{
    let s = shares_at(dealt, at);
    assert forall|j: int| 0 <= j < n implies #[trigger] sums_of(dealt, received, j, n)[at[j]]
        == column_sum(s, j, n) by {
        let own = share_column(dealt[j], j);
        assert(own[at[j]] == s[j][j]);
        assert forall|t: int| 0 <= t < n - 1 implies (#[trigger] received[j][t])[at[j]].1 == s[peer_of(
            j,
            t,
        )][j] by {
            assert(s[peer_of(j, t)] == dealt[peer_of(j, t)][at[peer_of(j, t)]]);
        }
        lemma_party_sum(s, own, received[j], j, at[j], n - 1);
        if n - 1 <= j {
            lemma_add_laws(s[j][j], column_sum(s, j, n - 1), s[j][j]);
        }
    }
    let own = sums_of(dealt, received, 0, n);
    lemma_absorbed_len(share_column(dealt[0], 0), received[0], n - 1);
    assert forall|t: int| 0 <= t < n - 1 implies (#[trigger] reconstructed[t])[at[0]].1 == column_sum(
        s,
        t + 1,
        n,
    ) by {
        assert(sums_of(dealt, received, t + 1, n)[at[t + 1]] == column_sum(s, t + 1, n));
    }
    lemma_receiver_total(s, own, reconstructed, at[0], n, n - 1);
    assert forall|i: int| 0 <= i < n implies sum_upto(#[trigger] s[i], n) == F128b(0) by {
        assert(s[i] == dealt[i][at[i]]);
    }
    lemma_common_element_cancels(s, n);
    let total = absorbed(own, reconstructed, n - 1);
    lemma_absorbed_len(own, reconstructed, n - 1);
    lemma_zero_selected_member(inputs, total, inputs.len() as int, at[0]);
}

} // verus!
