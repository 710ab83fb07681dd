//! VOLE from the learning-parity-with-noise extension: the expansion yields
//! at least as many entries as asked for, and the first of them are taken.

use crate::cli_utils::LpnSize;
use crate::error::Error;
use crate::field::F128b;
use vstd::prelude::*;

verus! {

/// The sender's side of an LPN-based VOLE.
#[derive(Clone, Copy)]
pub struct LPNVoleSender {
    size: LpnSize,
}

/// The receiver's side of an LPN-based VOLE.
#[derive(Clone, Copy)]
pub struct LPNVoleReceiver {
    size: LpnSize,
}

/// The first components of the first `m` pairs.
pub open spec fn firsts(out: Seq<(F128b, F128b)>, m: int) -> Seq<F128b> {
    Seq::new(m as nat, |i: int| out[i].0)
}

/// The second components of the first `m` pairs.
pub open spec fn seconds(out: Seq<(F128b, F128b)>, m: int) -> Seq<F128b> {
    Seq::new(m as nat, |i: int| out[i].1)
}

impl LPNVoleSender {
    /// A sender that expands with the given parameter set.
    pub fn new(size: LpnSize) -> (s: LPNVoleSender)
        ensures
            s.parameters() == size,
    {
        LPNVoleSender { size }
    }

    pub closed spec fn parameters(&self) -> LpnSize {
        self.size
    }

    /// The parameter set to expand with.
    pub fn size(&self) -> (size: LpnSize)
        ensures
            size == self.parameters(),
    {
        self.size
    }

    /// Takes the sender's share of length `m` from an expansion: `delta` and
    /// the first `m` entries. An expansion with fewer entries is insufficient.
    pub fn receive(&mut self, delta: F128b, out: Vec<F128b>, m: usize) -> (res: Result<
        (F128b, Vec<F128b>),
        Error,
    >)
        ensures
            final(self).parameters() == old(self).parameters(),
            out@.len() < m <==> res == Err::<(F128b, Vec<F128b>), Error>(Error::VoleInsufficient),
            out@.len() >= m ==> (res matches Ok(share) && share.0 == delta && share.1@
                == out@.subrange(0, m as int)),
    {
        if out.len() < m {
            return Err(Error::VoleInsufficient);
        }
        let mut vec_b = out;
        vec_b.truncate(m);
        Ok((delta, vec_b))
    }
}

impl LPNVoleReceiver {
    /// A receiver that expands with the given parameter set.
    pub fn new(size: LpnSize) -> (r: LPNVoleReceiver)
        ensures
            r.parameters() == size,
    {
        LPNVoleReceiver { size }
    }

    pub closed spec fn parameters(&self) -> LpnSize {
        self.size
    }

    /// The parameter set to expand with.
    pub fn size(&self) -> (size: LpnSize)
        ensures
            size == self.parameters(),
    {
        self.size
    }

    /// Takes the receiver's share of length `m` from an expansion of pairs
    /// `(a, c)`: the first `m` of each. An expansion with fewer pairs is
    /// insufficient.
    pub fn receive(&mut self, out: Vec<(F128b, F128b)>, m: usize) -> (res: Result<
        (Vec<F128b>, Vec<F128b>),
        Error,
    >)
        ensures
            final(self).parameters() == old(self).parameters(),
            out@.len() < m <==> res == Err::<(Vec<F128b>, Vec<F128b>), Error>(
                Error::VoleInsufficient,
            ),
            out@.len() >= m ==> (res matches Ok(share) && share.0@ == firsts(out@, m as int)
                && share.1@ == seconds(out@, m as int)),
    {
        if out.len() < m {
            return Err(Error::VoleInsufficient);
        }
        let mut a_vec: Vec<F128b> = Vec::with_capacity(m);
        let mut c_vec: Vec<F128b> = Vec::with_capacity(m);
        let mut i: usize = 0;
        while i < m
            invariant
                i <= m <= out@.len(),
                a_vec@.len() == i,
                c_vec@.len() == i,
                forall|k: int| 0 <= k < i ==> a_vec@[k] == out@[k].0 && c_vec@[k] == out@[k].1,
            decreases m - i,
        {
            a_vec.push(out[i].0);
            c_vec.push(out[i].1);
            i = i + 1;
        }
        assert(a_vec@ =~= firsts(out@, m as int));
        assert(c_vec@ =~= seconds(out@, m as int));
        Ok((a_vec, c_vec))
    }
}

} // verus!
