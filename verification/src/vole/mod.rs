//! Vector oblivious linear evaluation: correlated randomness `(delta, B)` at
//! one party and `(A, C)` at the other with `C = A * delta + B`, entry by entry.

pub mod lpn_based;
pub mod ot_based;

use crate::field::{gf_add, gf_mul, F128b};
use vstd::prelude::*;

verus! {

/// Whether the two views form a VOLE correlation of one length.
pub open spec fn correlated(delta: F128b, b: Seq<F128b>, a: Seq<F128b>, c: Seq<F128b>) -> bool {
    &&& a.len() == b.len()
    &&& c.len() == b.len()
    &&& forall|i: int| 0 <= i < b.len() ==> #[trigger] c[i] == gf_add(gf_mul(delta, a[i]), b[i])
}

/// The first `m` entries of a correlation form a correlation.
pub proof fn lemma_correlated_prefix(
    delta: F128b,
    b: Seq<F128b>,
    a: Seq<F128b>,
    c: Seq<F128b>,
    m: int,
)
    requires
        correlated(delta, b, a, c),
        0 <= m <= b.len(),
    ensures
        correlated(delta, b.subrange(0, m), a.subrange(0, m), c.subrange(0, m)),
{
    let (b2, a2, c2) = (b.subrange(0, m), a.subrange(0, m), c.subrange(0, m));
    assert forall|i: int| 0 <= i < b2.len() implies #[trigger] c2[i] == gf_add(
        gf_mul(delta, a2[i]),
        b2[i],
    ) by {
        assert(c[i] == gf_add(gf_mul(delta, a[i]), b[i]));
    }
}

} // verus!
