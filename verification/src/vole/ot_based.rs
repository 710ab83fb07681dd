//! VOLE from oblivious transfers.
//!
//! For every entry and every bit position `j` the sender offers a random
//! mask and the mask plus `delta * x^j`. The receiver picks by the bits of
//! its entry `a`, so the masks it gets sum to the sender's sum plus
//! `delta * a`.

use crate::error::Error;
use crate::field::{
    gf_add, gf_mul, lemma_add_interchange, lemma_add_laws, lemma_mul_by_x, mul_low, sum_upto,
    xtime, F128b,
};
use crate::random::{random_field, random_fields};
use crate::vole::correlated;
use rand::rngs::StdRng;
use vstd::prelude::*;

verus! {

/// Number of bits of a field element: one transfer per bit.
pub const F_LENGTH: usize = 128;

/// How often a zero entry is drawn again before the receiver gives up.
pub const RESAMPLE_LIMIT: usize = 64;

/// `delta * x^j`.
pub open spec fn delta_shift(delta: F128b, j: nat) -> F128b
    decreases j,
{
    if j == 0 {
        delta
    } else {
        gf_mul(delta_shift(delta, (j - 1) as nat), F128b(2))
    }
}

/// Sum of the entries of block `i`, each block having one entry per bit.
pub open spec fn block_sum(v: Seq<F128b>, i: int) -> F128b {
    sum_upto(v.subrange(128 * i, 128 * i + 128), 128)
}

/// Bit `j` of `a`.
pub open spec fn choice_bit(a: u128, j: int) -> bool {
    (a >> (j as u128)) & 1 == 1
}

/// The pair of messages offered at position `idx` with mask `rho`.
pub open spec fn offer(delta: F128b, rho: F128b, idx: int) -> (F128b, F128b) {
    (rho, gf_add(rho, delta_shift(delta, (idx % 128) as nat)))
}

/// The message that a choice bit picks from an offered pair.
pub open spec fn picked(pair: (F128b, F128b), bit: bool) -> F128b {
    if bit {
        pair.1
    } else {
        pair.0
    }
}

/// The sender's side of an OT-based VOLE.
#[derive(Clone, Copy)]
pub struct OtVoleSender;

/// The receiver's side of an OT-based VOLE.
#[derive(Clone, Copy)]
pub struct OtVoleReceiver;

/// The masks of offered pairs: their first messages.
pub open spec fn masks(inputs: Seq<(F128b, F128b)>) -> Seq<F128b> {
    Seq::new(inputs.len(), |idx: int| inputs[idx].0)
}

/// What the sender offers, and its share `B`: every pair is a mask and the
/// mask plus `delta * x^j`, and `B[i]` is the sum of the masks of block `i`.
pub open spec fn offers_ok(delta: F128b, b_vec: Seq<F128b>, inputs: Seq<(F128b, F128b)>) -> bool {
    &&& inputs.len() == 128 * b_vec.len()
    &&& forall|i: int| 0 <= i < b_vec.len() ==> #[trigger] b_vec[i] == block_sum(masks(inputs), i)
    &&& forall|idx: int|
        0 <= idx < inputs.len() ==> #[trigger] inputs[idx] == offer(delta, inputs[idx].0, idx)
}

/// What the receiver chooses for its entries `A`, none of which is zero:
/// one choice bit per bit of every entry.
pub open spec fn choices_ok(a_vec: Seq<F128b>, choices: Seq<bool>) -> bool {
    &&& choices.len() == 128 * a_vec.len()
    &&& forall|i: int| 0 <= i < a_vec.len() ==> (#[trigger] a_vec[i]).0 != 0
    &&& forall|idx: int|
        0 <= idx < choices.len() ==> #[trigger] choices[idx] == choice_bit(a_vec[idx / 128].0, idx % 128)
}

fn delta_powers(delta: F128b) -> (pows: Vec<F128b>)
    ensures
        pows@.len() == 128,
        forall|j: int| 0 <= j < 128 ==> #[trigger] pows@[j] == delta_shift(delta, j as nat),
{
    let mut pows: Vec<F128b> = Vec::with_capacity(F_LENGTH);
    let mut cur = delta;
    let two = F128b(2);
    let mut j: usize = 0;
    while j < F_LENGTH
        invariant
            j <= 128,
            two == F128b(2),
            pows@.len() == j,
            cur == delta_shift(delta, j as nat),
            forall|c: int| 0 <= c < j ==> #[trigger] pows@[c] == delta_shift(delta, c as nat),
        decreases 128 - j,
    {
        pows.push(cur);
        cur = cur.times(two);
        j = j + 1;
    }
    pows
}

impl OtVoleSender {
    pub fn new() -> (s: OtVoleSender) {
        OtVoleSender
    }

    /// The sender's share and the message pairs to offer, from `delta` and
    /// one mask per entry and bit. The masks must number `128 m`.
    pub fn offers_from(delta: F128b, rhos: &[F128b], m: usize) -> (res: Result<
        (Vec<F128b>, Vec<(F128b, F128b)>),
        Error,
    >)
        ensures
            rhos@.len() != 128 * m <==> res == Err::<(Vec<F128b>, Vec<(F128b, F128b)>), Error>(
                Error::InvariantViolation,
            ),
            rhos@.len() == 128 * m ==> (res matches Ok(out) && out.0@.len() == m && masks(out.1@)
                == rhos@ && offers_ok(delta, out.0@, out.1@)),
    {
        let n = rhos.len();
        if m > usize::MAX / F_LENGTH || n != m * F_LENGTH {
            return Err(Error::InvariantViolation);
        }
        let pows = delta_powers(delta);
        let mut b_vec: Vec<F128b> = Vec::with_capacity(m);
        let mut inputs: Vec<(F128b, F128b)> = Vec::with_capacity(m * F_LENGTH);
        let mut i: usize = 0;
        while i < m
            invariant
                i <= m,
                rhos@.len() == 128 * m,
                128 * m <= usize::MAX,
                pows@.len() == 128,
                forall|j: int| 0 <= j < 128 ==> #[trigger] pows@[j] == delta_shift(delta, j as nat),
                b_vec@.len() == i,
                inputs@.len() == 128 * i,
                forall|k: int| 0 <= k < i ==> #[trigger] b_vec@[k] == block_sum(rhos@, k),
                forall|idx: int|
                    0 <= idx < 128 * i ==> #[trigger] inputs@[idx] == offer(delta, rhos@[idx], idx),
            decreases m - i,
        {
            let mut b = F128b::zero();
            let ghost block = rhos@.subrange(128 * i, 128 * i + 128);
            let mut j: usize = 0;
            while j < F_LENGTH
                invariant
                    j <= 128,
                    i < m,
                    rhos@.len() == 128 * m,
                    128 * m <= usize::MAX,
                    pows@.len() == 128,
                    forall|c: int| 0 <= c < 128 ==> #[trigger] pows@[c] == delta_shift(delta, c as nat),
                    block == rhos@.subrange(128 * i, 128 * i + 128),
                    b == sum_upto(block, j as int),
                    inputs@.len() == 128 * i + j,
                    forall|idx: int|
                        0 <= idx < 128 * i + j ==> #[trigger] inputs@[idx] == offer(
                            delta,
                            rhos@[idx],
                            idx,
                        ),
                decreases 128 - j,
            {
                let rho = rhos[i * F_LENGTH + j];
                b = b.plus(rho);
                inputs.push((rho, rho.plus(pows[j])));
                assert((128 * i + j) % 128 == j);
                j = j + 1;
            }
            b_vec.push(b);
            i = i + 1;
        }
        proof {
            assert(masks(inputs@) =~= rhos@);
        }
        Ok((b_vec, inputs))
    }

    /// Samples `delta` and the masks for a correlation of length `m`.
    /// Returns `delta`, the share `B`, and the message pairs to offer.
    pub fn receive(&mut self, rng: &mut StdRng, m: usize) -> (res: Result<
        (F128b, Vec<F128b>, Vec<(F128b, F128b)>),
        Error,
    >)
        ensures
            128 * m > usize::MAX <==> res == Err::<(F128b, Vec<F128b>, Vec<(F128b, F128b)>), Error>(
                Error::InvariantViolation,
            ),
            128 * m <= usize::MAX ==> res is Ok,
            match res {
                Ok((delta, b_vec, inputs)) => {
                    &&& b_vec@.len() == m
                    &&& offers_ok(delta, b_vec@, inputs@)
                },
                Err(_) => true,
            },
    {
        if m > usize::MAX / F_LENGTH {
            return Err(Error::InvariantViolation);
        }
        let delta = random_field(rng);
        let rhos = random_fields(rng, m * F_LENGTH);
        match OtVoleSender::offers_from(delta, rhos.as_slice(), m) {
            Ok((b_vec, inputs)) => Ok((delta, b_vec, inputs)),
            Err(e) => Err(e),
        }
    }
}

/// The draws that are not zero, in order.
pub open spec fn nonzero(draws: Seq<F128b>) -> Seq<F128b>
    decreases draws.len(),
{
    if draws.len() == 0 {
        Seq::empty()
    } else if draws.last() != F128b(0) {
        nonzero(draws.drop_last()).push(draws.last())
    } else {
        nonzero(draws.drop_last())
    }
}

/// The first `m` entries for the receiver from what was drawn: a zero is
/// rejected and the next draw taken in its place. Draws with fewer than `m`
/// that are not zero are insufficient.
pub fn entries_from(draws: &[F128b], m: usize) -> (res: Result<Vec<F128b>, Error>)
    ensures
        res is Ok <==> nonzero(draws@).len() >= m,
        res matches Ok(a) ==> a@ == nonzero(draws@).subrange(0, m as int),
        res is Err ==> res matches Err(Error::VoleInsufficient),
{
    let mut a_vec: Vec<F128b> = Vec::new();
    let mut i: usize = 0;
    assert(draws@.subrange(0, 0) =~= Seq::<F128b>::empty());
    while i < draws.len()
        invariant
            i <= draws@.len(),
            a_vec@.len() <= m,
            a_vec@.len() <= nonzero(draws@.subrange(0, i as int)).len(),
            a_vec@.len() < m ==> a_vec@.len() == nonzero(draws@.subrange(0, i as int)).len(),
            a_vec@ == nonzero(draws@.subrange(0, i as int)).subrange(0, a_vec@.len() as int),
        decreases draws@.len() - i,
    {
        let ghost seen = nonzero(draws@.subrange(0, i as int));
        let d = draws[i];
        proof {
            let grown = draws@.subrange(0, i + 1);
            assert(grown.drop_last() =~= draws@.subrange(0, i as int));
            assert(grown.last() == d);
        }
        if !d.is_zero() && a_vec.len() < m {
            a_vec.push(d);
            assert(a_vec@ =~= seen.push(d));
        }
        proof {
            let now = nonzero(draws@.subrange(0, i + 1));
            assert(a_vec@ =~= now.subrange(0, a_vec@.len() as int));
        }
        i = i + 1;
    }
    assert(draws@.subrange(0, i as int) =~= draws@);
    if a_vec.len() < m {
        return Err(Error::VoleInsufficient);
    }
    Ok(a_vec)
}

/// None of the draws that are not zero is zero.
pub proof fn lemma_nonzero(draws: Seq<F128b>)
    ensures
        forall|k: int| 0 <= k < nonzero(draws).len() ==> #[trigger] nonzero(draws)[k] != F128b(0),
    decreases draws.len(),
{
    if draws.len() > 0 {
        lemma_nonzero(draws.drop_last());
        let before = nonzero(draws.drop_last());
        assert forall|k: int| 0 <= k < nonzero(draws).len() implies #[trigger] nonzero(draws)[k]
            != F128b(0) by {
            if k < before.len() {
                assert(nonzero(draws)[k] == before[k]);
            }
        }
    }
}

impl OtVoleReceiver {
    pub fn new() -> (r: OtVoleReceiver) {
        OtVoleReceiver
    }

    /// The choice bits for entries `a_vec`: bit `j` of entry `i` at position
    /// `128 i + j`.
    pub fn choices_from(a_vec: &[F128b]) -> (res: Result<Vec<bool>, Error>)
        ensures
            128 * a_vec@.len() > usize::MAX <==> res == Err::<Vec<bool>, Error>(
                Error::InvariantViolation,
            ),
            128 * a_vec@.len() <= usize::MAX ==> res is Ok,
            match res {
                Ok(choices) => {
                    &&& choices@.len() == 128 * a_vec@.len()
                    &&& forall|idx: int|
                        0 <= idx < choices@.len() ==> #[trigger] choices@[idx] == choice_bit(
                            a_vec@[idx / 128].0,
                            idx % 128,
                        )
                },
                Err(_) => true,
            },
    {
        let m = a_vec.len();
        if m > usize::MAX / F_LENGTH {
            return Err(Error::InvariantViolation);
        }
        let mut choices: Vec<bool> = Vec::with_capacity(m * F_LENGTH);
        let mut i: usize = 0;
        while i < m
            invariant
                i <= m,
                m == a_vec@.len(),
                128 * m <= usize::MAX,
                choices@.len() == 128 * i,
                forall|idx: int|
                    0 <= idx < 128 * i ==> #[trigger] choices@[idx] == choice_bit(
                        a_vec@[idx / 128].0,
                        idx % 128,
                    ),
            decreases m - i,
        {
            let a = a_vec[i].0;
            let mut j: usize = 0;
            while j < F_LENGTH
                invariant
                    j <= 128,
                    i < m,
                    m == a_vec@.len(),
                    a == a_vec@[i as int].0,
                    choices@.len() == 128 * i + j,
                    forall|idx: int|
                        0 <= idx < 128 * i + j ==> #[trigger] choices@[idx] == choice_bit(
                            a_vec@[idx / 128].0,
                            idx % 128,
                        ),
                decreases 128 - j,
            {
                let a_bit = (a >> (j as u128)) & 1 == 1;
                choices.push(a_bit);
                assert((128 * i + j) / 128 == i && (128 * i + j) % 128 == j);
                j = j + 1;
            }
            i = i + 1;
        }
        Ok(choices)
    }

    /// Samples `m` nonzero entries `A` and their choice bits: draws
    /// [`RESAMPLE_LIMIT`] values more than entries are asked for and takes
    /// the entries from them as [`entries_from`] does, so that the sampling
    /// fails with `VoleInsufficient` only if more than that many draws are
    /// zero. More entries than have their choice bits in memory are
    /// refused before anything is drawn.
    pub fn sample(&mut self, rng: &mut StdRng, m: usize) -> (res: Result<
        (Vec<F128b>, Vec<bool>),
        Error,
    >)
        ensures
            128 * m > usize::MAX <==> res == Err::<(Vec<F128b>, Vec<bool>), Error>(
                Error::InvariantViolation,
            ),
            match res {
                Ok((a_vec, choices)) => a_vec@.len() == m && choices_ok(a_vec@, choices@),
                Err(e) => e == Error::VoleInsufficient || e == Error::InvariantViolation,
            },
            m == 0 ==> res is Ok,
    {
        if m > usize::MAX / F_LENGTH {
            return Err(Error::InvariantViolation);
        }
        let draws = random_fields(rng, m + RESAMPLE_LIMIT);
        let a_vec = match entries_from(draws.as_slice(), m) {
            Ok(a_vec) => a_vec,
            Err(e) => {
                return Err(e);
            },
        };
        proof {
            lemma_nonzero(draws@);
        }
        match OtVoleReceiver::choices_from(a_vec.as_slice()) {
            Ok(choices) => {
                assert(choices@.len() == 128 * a_vec@.len());
                assert(choices_ok(a_vec@, choices@));
                Ok((a_vec, choices))
            },
            Err(e) => Err(e),
        }
    }

    /// The receiver's share from its entries and the messages it got: `C[i]`
    /// is the sum of the messages of block `i`. The messages must number
    /// `128` per entry.
    pub fn receive(&mut self, a_vec: Vec<F128b>, rhos: &[F128b]) -> (res: Result<
        (Vec<F128b>, Vec<F128b>),
        Error,
    >)
        ensures
            rhos@.len() != 128 * a_vec@.len() <==> res == Err::<(Vec<F128b>, Vec<F128b>), Error>(
                Error::InvariantViolation,
            ),
            rhos@.len() == 128 * a_vec@.len() ==> (res matches Ok(share) && share.0@ == a_vec@
                && share.1@.len() == a_vec@.len() && forall|i: int|
                0 <= i < a_vec@.len() ==> #[trigger] share.1@[i] == block_sum(rhos@, i)),
    {
        let m = a_vec.len();
        let n = rhos.len();
        if m > usize::MAX / F_LENGTH || n != m * F_LENGTH {
            return Err(Error::InvariantViolation);
        }
        let mut c_vec: Vec<F128b> = Vec::with_capacity(m);
        let mut i: usize = 0;
        while i < m
            invariant
                i <= m,
                rhos@.len() == 128 * m,
                128 * m <= usize::MAX,
                c_vec@.len() == i,
                forall|k: int| 0 <= k < i ==> #[trigger] c_vec@[k] == block_sum(rhos@, k),
            decreases m - i,
        {
            let mut c = F128b::zero();
            let ghost block = rhos@.subrange(128 * i, 128 * i + 128);
            let mut j: usize = 0;
            while j < F_LENGTH
                invariant
                    j <= 128,
                    i < m,
                    rhos@.len() == 128 * m,
                    128 * m <= usize::MAX,
                    block == rhos@.subrange(128 * i, 128 * i + 128),
                    c == sum_upto(block, j as int),
                decreases 128 - j,
            {
                c = c.plus(rhos[i * F_LENGTH + j]);
                j = j + 1;
            }
            c_vec.push(c);
            i = i + 1;
        }
        Ok((a_vec, c_vec))
    }
}

/// What the receiver gets when every transfer hands over the message that
/// its choice bit picks.
pub open spec fn transferred(inputs: Seq<(F128b, F128b)>, choices: Seq<bool>) -> Seq<F128b> {
    Seq::new(inputs.len(), |idx: int| picked(inputs[idx], choices[idx]))
}

/// Sum of `delta * x^j` over the set bits `j < t` of `a`.
pub open spec fn selected_shifts(delta: F128b, a: u128, t: int) -> F128b
    decreases t,
{
    if t <= 0 {
        F128b(0)
    } else {
        let rest = selected_shifts(delta, a, t - 1);
        if choice_bit(a, t - 1) {
            gf_add(rest, delta_shift(delta, (t - 1) as nat))
        } else {
            rest
        }
    }
}

/// The selected shifts of all bits make up the product `delta * a`.
pub proof fn lemma_selected_shifts_product(delta: F128b, a: u128, t: int)
    requires
        0 <= t <= 128,
    ensures
        gf_add(
            selected_shifts(delta, a, t),
            F128b(mul_low(delta_shift(delta, t as nat).0, a >> (t as u128), (128 - t) as nat)),
        ) == gf_mul(delta, F128b(a)),
    decreases t,
{
    if t == 0 {
        assert(a >> 0u128 == a) by (bit_vector);
        lemma_add_laws(gf_mul(delta, F128b(a)), F128b(0), F128b(0));
    } else {
        let s = t - 1;
        lemma_selected_shifts_product(delta, a, s);
        let d = delta_shift(delta, s as nat);
        let su = s as u128;
        let tu = t as u128;
        lemma_mul_by_x(d);
        assert(delta_shift(delta, t as nat) == F128b(xtime(d.0)));
        let rest = mul_low(xtime(d.0), (a >> su) >> 1, (128 - t) as nat);
        if t < 128 {
            assert(su < 127 && tu == su + 1 ==> (a >> su) >> 1 == a >> tu) by (bit_vector);
        }
        assert(rest == mul_low(xtime(d.0), a >> tu, (128 - t) as nat));
        let prev = selected_shifts(delta, a, s);
        lemma_add_laws(prev, d, F128b(rest));
    }
}

/// One block of transfers: the picked messages sum to the masks' sum plus
/// the selected shifts.
pub proof fn lemma_block_sum(delta: F128b, rho: Seq<F128b>, got: Seq<F128b>, a: u128, t: int)
    requires
        0 <= t <= 128,
        forall|j: int|
            0 <= j < t ==> #[trigger] got[j] == picked(
                (rho[j], gf_add(rho[j], delta_shift(delta, j as nat))),
                choice_bit(a, j),
            ),
    ensures
        sum_upto(got, t) == gf_add(sum_upto(rho, t), selected_shifts(delta, a, t)),
    decreases t,
{
    if t == 0 {
        lemma_add_laws(F128b(0), F128b(0), F128b(0));
    } else {
        lemma_block_sum(delta, rho, got, a, t - 1);
        let sr = sum_upto(rho, t - 1);
        let ss = selected_shifts(delta, a, t - 1);
        let r = rho[t - 1];
        let d = delta_shift(delta, (t - 1) as nat);
        assert(got[t - 1] == picked((r, gf_add(r, d)), choice_bit(a, t - 1)));
        lemma_add_laws(sr, ss, r);
        lemma_add_laws(sr, r, ss);
        lemma_add_laws(ss, r, r);
        lemma_add_interchange(sr, ss, r, d);
    }
}

/// VOLE correctness of the OT-based variant: if every transfer hands over
/// the message that its choice bit picks, the shares that both sides compute
/// satisfy `C[i] = delta * A[i] + B[i]`.
pub proof fn lemma_ot_vole_correct(
    delta: F128b,
    b_vec: Seq<F128b>,
    inputs: Seq<(F128b, F128b)>,
    a_vec: Seq<F128b>,
    choices: Seq<bool>,
    c_vec: Seq<F128b>,
)
    requires
        offers_ok(delta, b_vec, inputs),
        choices_ok(a_vec, choices),
        a_vec.len() == b_vec.len(),
        c_vec.len() == a_vec.len(),
        forall|i: int|
            0 <= i < c_vec.len() ==> #[trigger] c_vec[i] == block_sum(transferred(inputs, choices), i),
    ensures
        correlated(delta, b_vec, a_vec, c_vec),
{
    let all = transferred(inputs, choices);
    assert forall|i: int| 0 <= i < b_vec.len() implies #[trigger] c_vec[i] == gf_add(
        gf_mul(delta, a_vec[i]),
        b_vec[i],
    ) by {
        let a = a_vec[i].0;
        let rho = masks(inputs).subrange(128 * i, 128 * i + 128);
        let got = all.subrange(128 * i, 128 * i + 128);
        assert(b_vec[i] == block_sum(masks(inputs), i));
        assert forall|j: int| 0 <= j < 128 implies #[trigger] got[j] == picked(
            (rho[j], gf_add(rho[j], delta_shift(delta, j as nat))),
            choice_bit(a, j),
        ) by {
            let idx = 128 * i + j;
            assert(idx / 128 == i && idx % 128 == j);
            assert(inputs[idx] == offer(delta, inputs[idx].0, idx));
            assert(choices[idx] == choice_bit(a_vec[idx / 128].0, idx % 128));
        }
        lemma_block_sum(delta, rho, got, a, 128);
        lemma_selected_shifts_product(delta, a, 128);
        lemma_add_laws(selected_shifts(delta, a, 128), F128b(0), F128b(0));
        lemma_add_laws(sum_upto(rho, 128), gf_mul(delta, a_vec[i]), F128b(0));
    }
}

} // verus!
