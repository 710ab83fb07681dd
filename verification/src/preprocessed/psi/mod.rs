//! Multi-party private set intersection from an all-pairs mesh of oblivious
//! programmable pseudorandom functions.
//!
//! Every party splits zero into one share per party for each of its
//! elements, and programs, for every peer, a function that gives the peer
//! its share at that element. A party's sum at an element is its own share
//! plus what the peers' functions give it there. The senders then program
//! their sums for the receiver, who adds them to its own and keeps the
//! elements whose total is zero.

pub mod completeness;

use crate::error::Error;
use crate::field::{gf_add, lemma_add_interchange, lemma_add_laws, sum_upto, F128b};
use crate::preprocessed::opprf::{SepOpprfReceiverWithVole, SepOpprfSenderWithVole};
use crate::random::random_fields;
use rand::rngs::StdRng;
use vstd::prelude::*;
use vstd::relations::{sorted_by, total_ordering};
use vstd::seq_lib::{lemma_sorted_unique, to_multiset_insert, to_multiset_len, to_multiset_remove};

verus! {

/// A party's number. The receiver is always party 0.
pub type PartyId = usize;

/// Which of its two roles a party plays first with a peer.
#[derive(Clone, Copy, Debug, PartialEq, Eq, Structural)]
pub enum Turn {
    /// First the sender's steps, then the receiver's.
    SendFirst,
    /// First the receiver's steps, then the sender's.
    ReceiveFirst,
}

/// The order of roles between `me` and `them`, in the offline phase and in
/// every online exchange: the party with the lower number sends first.
pub fn turn(me: PartyId, them: PartyId) -> (t: Turn)
    ensures
        t == if me < them {
            Turn::SendFirst
        } else {
            Turn::ReceiveFirst
        },
{
    if me < them {
        Turn::SendFirst
    } else {
        Turn::ReceiveFirst
    }
}

/// A sharing of zero from the shares of all parties but the last: the last
/// share is their sum.
pub fn shares_of_zero_from(randoms: Vec<F128b>) -> (shares: Vec<F128b>)
    ensures
        shares@ == randoms@.push(sum_upto(randoms@, randoms@.len() as int)),
        sum_upto(shares@, shares@.len() as int) == F128b(0),
{
    let mut sum = F128b::zero();
    let mut i: usize = 0;
    while i < randoms.len()
        invariant
            i <= randoms@.len(),
            sum == sum_upto(randoms@, i as int),
        decreases randoms@.len() - i,
    {
        sum = sum.plus(randoms[i]);
        i = i + 1;
    }
    let mut shares = randoms;
    shares.push(sum);
    proof {
        lemma_sum_prefix(randoms@, shares@, randoms@.len() as int);
        lemma_add_laws(sum, sum, sum);
    }
    shares
}

/// Sums of vectors that agree on their first `n` entries agree.
pub proof fn lemma_sum_prefix(a: Seq<F128b>, b: Seq<F128b>, n: int)
    requires
        forall|i: int| 0 <= i < n ==> a[i] == b[i],
    ensures
        sum_upto(a, n) == sum_upto(b, n),
    decreases n,
{
    if n > 0 {
        lemma_sum_prefix(a, b, n - 1);
    }
}

/// Samples an additive sharing of zero among `nparties` parties.
pub fn secret_sharing_of_zero(nparties: usize, rng: &mut StdRng) -> (shares: Vec<F128b>)
    requires
        nparties >= 1,
    ensures
        shares@.len() == nparties,
        sum_upto(shares@, nparties as int) == F128b(0),
{
    let randoms = random_fields(rng, nparties - 1);
    shares_of_zero_from(randoms)
}

/// One sharing of zero per input element.
pub struct ZeroShares {
    nparties: usize,
    s: Vec<Vec<F128b>>,
}

impl ZeroShares {
    /// Number of parties that every sharing is split among.
    pub closed spec fn parties(&self) -> nat {
        self.nparties as nat
    }

    /// The shares: entry `k` is the sharing for input `k`, and its entry
    /// `j` the share of party `j`.
    pub closed spec fn shares(&self) -> Seq<Seq<F128b>> {
        Seq::new(self.s@.len(), |k: int| self.s@[k]@)
    }

    #[verifier::type_invariant]
    spec fn shaped(&self) -> bool {
        forall|k: int|
            0 <= k < self.s@.len() ==> {
                &&& (#[trigger] self.s@[k])@.len() == self.nparties
                &&& sum_upto(self.s@[k]@, self.nparties as int) == F128b(0)
            }
    }

    /// Every sharing has one share per party, and the shares sum to zero.
    pub open spec fn wf(&self) -> bool {
        forall|k: int|
            0 <= k < self.shares().len() ==> {
                &&& (#[trigger] self.shares()[k]).len() == self.parties()
                &&& sum_upto(self.shares()[k], self.parties() as int) == F128b(0)
            }
    }

    /// Samples a sharing of zero among `nparties` parties for each of
    /// `ninputs` inputs.
    pub fn sample(nparties: usize, ninputs: usize, rng: &mut StdRng) -> (z: ZeroShares)
        requires
            nparties >= 1,
        ensures
            z.parties() == nparties,
            z.shares().len() == ninputs,
            z.wf(),
    {
        let mut s: Vec<Vec<F128b>> = Vec::with_capacity(ninputs);
        let mut k: usize = 0;
        while k < ninputs
            invariant
                k <= ninputs,
                nparties >= 1,
                s@.len() == k,
                forall|c: int|
                    0 <= c < k ==> {
                        &&& (#[trigger] s@[c])@.len() == nparties
                        &&& sum_upto(s@[c]@, nparties as int) == F128b(0)
                    },
            decreases ninputs - k,
        {
            let shares = secret_sharing_of_zero(nparties, rng);
            s.push(shares);
            k = k + 1;
        }
        let z = ZeroShares { nparties, s };
        proof {
            assert forall|c: int| 0 <= c < z.shares().len() implies {
                &&& (#[trigger] z.shares()[c]).len() == z.parties()
                &&& sum_upto(z.shares()[c], z.parties() as int) == F128b(0)
            } by {
                let _ = s@[c];
            }
        }
        z
    }

    /// The shares of party `id`, one per input. A party number that is not
    /// below the number of parties is a misuse.
    pub fn shares_for(&self, id: PartyId) -> (res: Result<Vec<F128b>, Error>)
        ensures
            id >= self.parties() <==> res matches Err(Error::ProtocolMisuse),
            res matches Ok(v) ==> {
                &&& v@.len() == self.shares().len()
                &&& forall|k: int| 0 <= k < v@.len() ==> #[trigger] v@[k] == self.shares()[k][id as int]
            },
            res is Err ==> res matches Err(Error::ProtocolMisuse),
    {
        proof {
            use_type_invariant(self);
        }
        if id >= self.nparties {
            return Err(Error::ProtocolMisuse);
        }
        let n = self.s.len();
        let mut v: Vec<F128b> = Vec::with_capacity(n);
        let mut k: usize = 0;
        while k < n
            invariant
                k <= n,
                n == self.s@.len(),
                id < self.nparties,
                v@.len() == k,
                forall|c: int| 0 <= c < n ==> (#[trigger] self.s@[c])@.len() == self.nparties,
                forall|c: int| 0 <= c < k ==> #[trigger] v@[c] == self.s@[c]@[id as int],
            decreases n - k,
        {
            let _ = &self.s[k];
            v.push(self.s[k][id]);
            k = k + 1;
        }
        proof {
            assert forall|c: int| 0 <= c < v@.len() implies #[trigger] v@[c] == self.shares()[c][id as int] by {
                let _ = self.s@[c];
            }
        }
        Ok(v)
    }
}

/// The points to program for a peer: every input with the peer's share.
pub open spec fn paired(inputs: Seq<F128b>, values: Seq<F128b>) -> Seq<(F128b, F128b)> {
    Seq::new(inputs.len(), |k: int| (inputs[k], values[k]))
}

/// Pairs every input with its value. The two must be equally many.
pub fn pair_points(inputs: &[F128b], values: &[F128b]) -> (res: Result<Vec<(F128b, F128b)>, Error>)
    ensures
        inputs@.len() != values@.len() <==> res matches Err(Error::InvariantViolation),
        res matches Ok(points) ==> points@ == paired(inputs@, values@),
        res is Err ==> res matches Err(Error::InvariantViolation),
{
    if inputs.len() != values.len() {
        return Err(Error::InvariantViolation);
    }
    let n = inputs.len();
    let mut points: Vec<(F128b, F128b)> = Vec::with_capacity(n);
    let mut k: usize = 0;
    while k < n
        invariant
            k <= n,
            n == inputs@.len(),
            n == values@.len(),
            points@.len() == k,
            forall|c: int| 0 <= c < k ==> points@[c] == (inputs@[c], values@[c]),
        decreases n - k,
    {
        points.push((inputs[k], values[k]));
        k = k + 1;
    }
    assert(points@ =~= paired(inputs@, values@));
    Ok(points)
}

/// The sums after the values that a peer's function gave were added.
pub open spec fn accumulated(sums: Seq<F128b>, received: Seq<(F128b, F128b)>) -> Seq<F128b> {
    Seq::new(sums.len(), |k: int| gf_add(sums[k], received[k].1))
}

/// Adds to every sum the value that a peer's function gave at that input.
/// There must be one value per sum; otherwise nothing is added.
pub fn accumulate(s_hat_sum: &mut Vec<F128b>, received: &[(F128b, F128b)]) -> (res: Result<(), Error>)
    ensures
        old(s_hat_sum)@.len() != received@.len() <==> res matches Err(Error::InvariantViolation),
        old(s_hat_sum)@.len() == received@.len() <==> res is Ok,
        res is Err ==> final(s_hat_sum)@ == old(s_hat_sum)@,
        res is Ok ==> final(s_hat_sum)@ == accumulated(old(s_hat_sum)@, received@),
{
    if s_hat_sum.len() != received.len() {
        return Err(Error::InvariantViolation);
    }
    let n = s_hat_sum.len();
    let ghost before = s_hat_sum@;
    let mut k: usize = 0;
    while k < n
        invariant
            k <= n,
            n == before.len(),
            n == received@.len(),
            s_hat_sum@.len() == n,
            forall|c: int| 0 <= c < k ==> s_hat_sum@[c] == gf_add(before[c], received@[c].1),
            forall|c: int| k <= c < n ==> s_hat_sum@[c] == before[c],
        decreases n - k,
    {
        let sum = s_hat_sum[k].plus(received[k].1);
        s_hat_sum[k] = sum;
        k = k + 1;
    }
    assert(s_hat_sum@ =~= accumulated(before, received@));
    Ok(())
}

/// Among the first `n` inputs, those whose sum is zero, in order.
pub open spec fn zero_selected(inputs: Seq<F128b>, sums: Seq<F128b>, n: int) -> Seq<F128b>
    decreases n,
{
    if n <= 0 {
        Seq::empty()
    } else if sums[n - 1] == F128b(0) {
        zero_selected(inputs, sums, n - 1).push(inputs[n - 1])
    } else {
        zero_selected(inputs, sums, n - 1)
    }
}

/// The intersection: the inputs whose sum is zero. If inputs and sums are
/// not equally many, the surplus of the longer is left out.
pub fn select_intersection(inputs: &[F128b], s_hat_sum: &[F128b]) -> (intersection: Vec<F128b>)
    ensures
        intersection@ == zero_selected(
            inputs@,
            s_hat_sum@,
            if inputs@.len() <= s_hat_sum@.len() {
                inputs@.len() as int
            } else {
                s_hat_sum@.len() as int
            },
        ),
{
    let n = if inputs.len() <= s_hat_sum.len() {
        inputs.len()
    } else {
        s_hat_sum.len()
    };
    let mut intersection: Vec<F128b> = Vec::new();
    let mut k: usize = 0;
    while k < n
        invariant
            k <= n,
            n <= inputs@.len(),
            n <= s_hat_sum@.len(),
            intersection@ == zero_selected(inputs@, s_hat_sum@, k as int),
        decreases n - k,
    {
        if s_hat_sum[k].is_zero() {
            intersection.push(inputs[k]);
        }
        k = k + 1;
    }
    intersection
}

/// An input is in the intersection exactly if its sum is zero.
pub proof fn lemma_zero_selected_member(inputs: Seq<F128b>, sums: Seq<F128b>, n: int, k: int)
    requires
        0 <= k < n <= inputs.len(),
        n <= sums.len(),
    ensures
        sums[k] == F128b(0) ==> zero_selected(inputs, sums, n).contains(inputs[k]),
        forall|x: F128b|
            zero_selected(inputs, sums, n).contains(x) ==> exists|c: int|
                0 <= c < n && inputs[c] == x && #[trigger] sums[c] == F128b(0),
    decreases n,
{
    let sel = zero_selected(inputs, sums, n);
    let prev = zero_selected(inputs, sums, n - 1);
    if k < n - 1 {
        lemma_zero_selected_member(inputs, sums, n - 1, k);
        if sums[k] == F128b(0) {
            let i = choose|i: int| 0 <= i < prev.len() && prev[i] == inputs[k];
            assert(sel[i] == inputs[k]);
        }
    } else {
        if n - 1 > 0 {
            lemma_zero_selected_member(inputs, sums, n - 1, 0);
        }
        if sums[k] == F128b(0) {
            assert(sel[prev.len() as int] == inputs[k]);
        }
    }
    assert forall|x: F128b| sel.contains(x) implies exists|c: int|
        0 <= c < n && inputs[c] == x && #[trigger] sums[c] == F128b(0) by {
        let i = choose|i: int| 0 <= i < sel.len() && sel[i] == x;
        if sums[n - 1] == F128b(0) && i == prev.len() {
            assert(inputs[n - 1] == x && sums[n - 1] == F128b(0));
        } else {
            assert(prev[i] == x);
            assert(prev.contains(x));
            if n - 1 > 0 {
                let c = choose|c: int| 0 <= c < n - 1 && inputs[c] == x && #[trigger] sums[c] == F128b(0);
                assert(0 <= c < n && inputs[c] == x && sums[c] == F128b(0));
            }
        }
    }
}

/// Whether the entries stand in the order of their party numbers.
pub open spec fn sorted_by_party<T>(v: Seq<(usize, T)>) -> bool {
    forall|i: int, j: int| 0 <= i < j < v.len() ==> (#[trigger] v[i]).0 <= (#[trigger] v[j]).0
}

/// The party numbers of the entries.
pub open spec fn party_ids<T>(v: Seq<(usize, T)>) -> Seq<usize> {
    Seq::new(v.len(), |i: int| v[i].0)
}

/// Sorts the entries by party number.
pub fn sort_by_party<T>(v: &mut Vec<(usize, T)>)
    ensures
        sorted_by_party(final(v)@),
        final(v)@.to_multiset() == old(v)@.to_multiset(),
        party_ids(final(v)@).to_multiset() == party_ids(old(v)@).to_multiset(),
        final(v)@.len() == old(v)@.len(),
{
    let n = v.len();
    let mut i: usize = 0;
    while i < n
        invariant
            i <= n,
            n == v@.len(),
            sorted_by_party(v@.subrange(0, i as int)),
            v@.to_multiset() == old(v)@.to_multiset(),
            party_ids(v@).to_multiset() == party_ids(old(v)@).to_multiset(),
        decreases n - i,
    {
        let key = v[i].0;
        let mut j: usize = i;
        while j > 0 && v[j - 1].0 > key
            invariant
                j <= i < n,
                n == v@.len(),
                key == v@[i as int].0,
                forall|c: int| j <= c < i ==> (#[trigger] v@[c]).0 > key,
            decreases j,
        {
            j = j - 1;
        }
        let ghost before = v@;
        let item = v.remove(i);
        let ghost without = v@;
        v.insert(j, item);
        proof {
            to_multiset_remove(before, i as int);
            to_multiset_insert(without, j as int, item);
            to_multiset_remove(party_ids(before), i as int);
            to_multiset_insert(party_ids(without), j as int, key);
            assert(party_ids(without) =~= party_ids(before).remove(i as int));
            assert(party_ids(v@) =~= party_ids(without).insert(j as int, key));
            broadcast use vstd::multiset::group_multiset_axioms;

            before.to_multiset_ensures();
            party_ids(before).to_multiset_ensures();
            assert(before[i as int] == item);
            assert(before.contains(item));
            assert(party_ids(before)[i as int] == key);
            assert(party_ids(before).contains(key));
            assert(v@.to_multiset() =~= before.to_multiset());
            assert(party_ids(v@).to_multiset() =~= party_ids(before).to_multiset());
            let after = v@;
            let head = after.subrange(0, i + 1);
            let old_head = before.subrange(0, i as int);
            assert forall|a: int, b: int| 0 <= a < b < head.len() implies (#[trigger] head[a]).0 <= (
            #[trigger] head[b]).0 by {
                // Entries before `j` are as they were; entry `j` is the key;
                // entries after it are those that were larger than the key.
                if b < j {
                    assert(head[a] == old_head[a] && head[b] == old_head[b]);
                } else if b == j {
                    assert(head[a] == old_head[a]);
                    if j > 0 {
                        assert(old_head[j - 1].0 <= key);
                        if a < j - 1 {
                            assert(old_head[a].0 <= old_head[j - 1].0);
                        }
                    }
                } else if a < j {
                    assert(head[a] == old_head[a] && head[b] == old_head[b - 1]);
                } else if a == j {
                    assert(head[b] == before[b - 1]);
                } else {
                    assert(head[a] == old_head[a - 1] && head[b] == old_head[b - 1]);
                }
            }
        }
        i = i + 1;
    }
    assert(v@.subrange(0, n as int) =~= v@);
}

/// A party's two roles towards one peer.
pub struct PeerRoles {
    /// The peer's number.
    pub them: PartyId,
    pub sender: SepOpprfSenderWithVole,
    pub receiver: SepOpprfReceiverWithVole,
}

/// The peers' numbers of a list of roles.
pub open spec fn peer_ids(links: Seq<PeerRoles>) -> Seq<usize> {
    Seq::new(links.len(), |i: int| links[i].them)
}

/// The sender's roles of a list of roles, each with the peer's number.
pub open spec fn senders_of(links: Seq<PeerRoles>) -> Seq<(usize, SepOpprfSenderWithVole)> {
    Seq::new(links.len(), |i: int| (links[i].them, links[i].sender))
}

/// The receiver's roles of a list of roles, each with the peer's number.
pub open spec fn receivers_of(links: Seq<PeerRoles>) -> Seq<(usize, SepOpprfReceiverWithVole)> {
    Seq::new(links.len(), |i: int| (links[i].them, links[i].receiver))
}

/// A party's roles towards its peers, for the sharing of zero.
pub struct Party {
    id: PartyId,
    links: Vec<PeerRoles>,
}

impl Party {
    pub closed spec fn id(&self) -> PartyId {
        self.id
    }

    /// The roles towards the peers that the party has yet to exchange
    /// with, in order.
    pub closed spec fn roles(&self) -> Seq<PeerRoles> {
        self.links@
    }

    /// The peers that the party has yet to exchange with, in order.
    pub open spec fn peers(&self) -> Seq<usize> {
        peer_ids(self.roles())
    }

    /// The party's number.
    pub fn get_id(&self) -> (id: PartyId)
        ensures
            id == self.id(),
    {
        self.id
    }

    /// Number of peers that the party has yet to exchange with.
    pub fn remaining(&self) -> (n: usize)
        ensures
            n == self.peers().len(),
    {
        self.links.len()
    }

    /// Makes party `me` from its two roles towards every peer, each with
    /// the peer's number. Both lists are put in the order of the peers'
    /// numbers; they must then name the same peers. Every role stays with
    /// the number that it came with.
    pub fn precomp(
        me: PartyId,
        opprf_senders: Vec<(usize, SepOpprfSenderWithVole)>,
        opprf_receivers: Vec<(usize, SepOpprfReceiverWithVole)>,
    ) -> (res: Result<Party, Error>)
        ensures
            res matches Ok(party) ==> {
                &&& party.id() == me
                &&& party.peers().len() == opprf_senders@.len()
                &&& party.peers().to_multiset() == party_ids(opprf_senders@).to_multiset()
                &&& party.peers().to_multiset() == party_ids(opprf_receivers@).to_multiset()
                &&& senders_of(party.roles()).to_multiset() == opprf_senders@.to_multiset()
                &&& receivers_of(party.roles()).to_multiset() == opprf_receivers@.to_multiset()
                &&& forall|i: int, j: int|
                    0 <= i < j < party.peers().len() ==> party.peers()[i] <= party.peers()[j]
            },
            res is Err ==> res matches Err(Error::InvariantViolation),
            party_ids(opprf_senders@).to_multiset() == party_ids(opprf_receivers@).to_multiset()
                <==> res is Ok,
    {
        let mut senders = opprf_senders;
        let mut receivers = opprf_receivers;
        if senders.len() != receivers.len() {
            proof {
                to_multiset_len(party_ids(senders@));
                to_multiset_len(party_ids(receivers@));
            }
            return Err(Error::InvariantViolation);
        }
        sort_by_party(&mut senders);
        sort_by_party(&mut receivers);
        let ghost sorted_s = senders@;
        let ghost sorted_r = receivers@;
        let n = senders.len();
        // Pair the roles from the back, then turn the list around.
        let mut backwards: Vec<PeerRoles> = Vec::with_capacity(n);
        let mut left: usize = n;
        while left > 0
            invariant
                left <= n,
                n == sorted_s.len(),
                n == sorted_r.len(),
                sorted_by_party(sorted_s),
                sorted_by_party(sorted_r),
                party_ids(sorted_s).to_multiset() == party_ids(opprf_senders@).to_multiset(),
                party_ids(sorted_r).to_multiset() == party_ids(opprf_receivers@).to_multiset(),
                sorted_s.to_multiset() == opprf_senders@.to_multiset(),
                sorted_r.to_multiset() == opprf_receivers@.to_multiset(),
                senders@ == sorted_s.subrange(0, left as int),
                receivers@ == sorted_r.subrange(0, left as int),
                backwards@.len() == n - left,
                forall|c: int|
                    0 <= c < n - left ==> (#[trigger] backwards@[c]).them == sorted_s[n - 1 - c].0
                        && backwards@[c].them == sorted_r[n - 1 - c].0 && backwards@[c].sender
                        == sorted_s[n - 1 - c].1 && backwards@[c].receiver == sorted_r[n - 1 - c].1,
            decreases left,
        {
            let s = senders.pop();
            let r = receivers.pop();
            match (s, r) {
                (Some((them, sender)), Some((also, receiver))) => {
                    if them != also {
                        proof {
                            lemma_sorted_lists_differ(sorted_s, sorted_r, left - 1);
                        }
                        return Err(Error::InvariantViolation);
                    }
                    backwards.push(PeerRoles { them, sender, receiver });
                },
                _ => {
                    assert(false);
                },
            }
            left = left - 1;
            proof {
                assert(senders@ =~= sorted_s.subrange(0, left as int));
                assert(receivers@ =~= sorted_r.subrange(0, left as int));
            }
        }
        let mut links: Vec<PeerRoles> = Vec::with_capacity(n);
        let ghost rev = backwards@;
        let mut taken: usize = 0;
        while taken < n
            invariant
                taken <= n,
                n == rev.len(),
                n == sorted_s.len(),
                n == sorted_r.len(),
                sorted_by_party(sorted_s),
                sorted_s.to_multiset() == opprf_senders@.to_multiset(),
                sorted_r.to_multiset() == opprf_receivers@.to_multiset(),
                party_ids(sorted_s).to_multiset() == party_ids(opprf_senders@).to_multiset(),
                party_ids(sorted_r).to_multiset() == party_ids(opprf_receivers@).to_multiset(),
                forall|c: int|
                    0 <= c < n ==> (#[trigger] rev[c]).them == sorted_s[n - 1 - c].0 && rev[c].them
                        == sorted_r[n - 1 - c].0 && rev[c].sender == sorted_s[n - 1 - c].1
                        && rev[c].receiver == sorted_r[n - 1 - c].1,
                backwards@ == rev.subrange(0, n - taken),
                links@.len() == taken,
                forall|c: int| 0 <= c < taken ==> #[trigger] links@[c] == rev[n - 1 - c],
            decreases n - taken,
        {
            match backwards.pop() {
                Some(link) => {
                    links.push(link);
                },
                None => {
                    assert(false);
                },
            }
            taken = taken + 1;
            proof {
                assert(backwards@ =~= rev.subrange(0, n - taken));
            }
        }
        proof {
            assert(peer_ids(links@) =~= party_ids(sorted_s));
            assert(peer_ids(links@) =~= party_ids(sorted_r));
            assert(senders_of(links@) =~= sorted_s) by {
                assert forall|c: int| 0 <= c < n implies senders_of(links@)[c] == sorted_s[c] by {
                    assert(links@[c] == rev[n - 1 - c]);
                }
            }
            assert(receivers_of(links@) =~= sorted_r) by {
                assert forall|c: int| 0 <= c < n implies receivers_of(links@)[c] == sorted_r[c] by {
                    assert(links@[c] == rev[n - 1 - c]);
                }
            }
            assert forall|a: int, b: int| 0 <= a < b < peer_ids(links@).len() implies peer_ids(
                links@,
            )[a] <= peer_ids(links@)[b] by {
                assert(sorted_s[a].0 <= sorted_s[b].0);
            }
        }
        Ok(Party { id: me, links })
    }

    /// Takes the roles towards the next peer, with the order in which they
    /// are to be played. `None` when the party has exchanged with every peer.
    pub fn next_peer(&mut self) -> (next: Option<(Turn, PeerRoles)>)
        ensures
            final(self).id() == old(self).id(),
            old(self).peers().len() == 0 ==> next is None && final(self).peers() == old(self).peers(),
            old(self).peers().len() == 0 ==> final(self).roles() == old(self).roles(),
            old(self).peers().len() > 0 ==> {
                &&& next matches Some(peer)
                &&& peer.1 == old(self).roles()[0]
                &&& peer.1.them == old(self).peers()[0]
                &&& peer.0 == if old(self).id() < peer.1.them {
                    Turn::SendFirst
                } else {
                    Turn::ReceiveFirst
                }
                &&& final(self).roles() == old(self).roles().drop_first()
                &&& final(self).peers() == old(self).peers().drop_first()
            },
    {
        if self.links.len() == 0 {
            return None;
        }
        let ghost l0 = self.links@;
        let link = self.links.remove(0);
        proof {
            assert(self.links@ =~= l0.drop_first());
            assert(peer_ids(self.links@) =~= peer_ids(l0).drop_first());
        }
        Some((turn(self.id, link.them), link))
    }
}

/// Two lists in the order of their party numbers that differ somewhere do
/// not name the same parties equally often.
pub proof fn lemma_sorted_lists_differ<S, R>(a: Seq<(usize, S)>, b: Seq<(usize, R)>, at: int)
    requires
        sorted_by_party(a),
        sorted_by_party(b),
        0 <= at < a.len(),
        a.len() == b.len(),
        a[at].0 != b[at].0,
    ensures
        party_ids(a).to_multiset() != party_ids(b).to_multiset(),
{
    let leq = |x: usize, y: usize| x <= y;
    let (x, y) = (party_ids(a), party_ids(b));
    if x.to_multiset() == y.to_multiset() {
        assert(sorted_by(x, leq)) by {
            assert forall|i: int, j: int| 0 <= i < j < x.len() implies #[trigger] leq(x[i], x[j]) by {
                assert(a[i].0 <= a[j].0);
            }
        }
        assert(sorted_by(y, leq)) by {
            assert forall|i: int, j: int| 0 <= i < j < y.len() implies #[trigger] leq(y[i], y[j]) by {
                assert(b[i].0 <= b[j].0);
            }
        }
        assert(total_ordering(leq));
        lemma_sorted_unique(x, y, leq);
        assert(x[at] == y[at]);
    }
}

/// The shares of party `j`, one from every sharing.
pub open spec fn share_column(shares: Seq<Seq<F128b>>, j: int) -> Seq<F128b> {
    Seq::new(shares.len(), |k: int| shares[k][j])
}

/// What a party does with its next peer in the sharing of zero.
pub struct Exchange {
    /// Which of its two roles the party plays first.
    pub turn: Turn,
    /// The party's two roles towards the peer.
    pub link: PeerRoles,
    /// The points to program for the peer: every input with the peer's
    /// share for it.
    pub points: Vec<(F128b, F128b)>,
}

/// A party in the conditional sharing of zero: the sharings that it dealt,
/// the peers that it has yet to exchange with, and its sums so far.
pub struct Sharing {
    party: Party,
    dealt: ZeroShares,
    sums: Vec<F128b>,
}

impl Party {
    /// Begins the conditional sharing of zero for `ninputs` inputs: deals a
    /// sharing of zero among the party and its peers for every input, and
    /// keeps the party's own shares as its first sums. A party whose number
    /// is above the number of its peers has no share of its own, which is a
    /// misuse.
    pub fn conditional_secret_sharing(self, ninputs: usize, rng: &mut StdRng) -> (res: Result<
        Sharing,
        Error,
    >)
        ensures
            self.id() > self.peers().len() <==> res matches Err(Error::ProtocolMisuse),
            res matches Ok(sharing) ==> {
                &&& sharing.id() == self.id()
                &&& sharing.roles() == self.roles()
                &&& sharing.peers() == self.peers()
                &&& sharing.parties() == self.peers().len() + 1
                &&& sharing.dealt().len() == ninputs
                &&& sharing.dealt_wf()
                &&& sharing.sums() == share_column(sharing.dealt(), self.id() as int)
            },
            res matches Err(e) ==> e == Error::ProtocolMisuse || e == Error::InvariantViolation,
            res matches Err(Error::InvariantViolation) ==> self.peers().len() == usize::MAX,
    {
        let npeers = self.remaining();
        if self.id > npeers {
            return Err(Error::ProtocolMisuse);
        }
        if npeers == usize::MAX {
            return Err(Error::InvariantViolation);
        }
        let dealt = ZeroShares::sample(npeers + 1, ninputs, rng);
        match dealt.shares_for(self.id) {
            Ok(sums) => {
                proof {
                    assert(sums@ =~= share_column(dealt.shares(), self.id as int));
                }
                Ok(Sharing { party: self, dealt, sums })
            },
            Err(e) => Err(e),
        }
    }
}

impl Sharing {
    /// The party's number.
    pub closed spec fn id(&self) -> PartyId {
        self.party.id()
    }

    /// The roles towards the peers that the party has yet to exchange
    /// with, in order.
    pub closed spec fn roles(&self) -> Seq<PeerRoles> {
        self.party.roles()
    }

    /// The peers that the party has yet to exchange with, in order.
    pub open spec fn peers(&self) -> Seq<usize> {
        peer_ids(self.roles())
    }

    /// Number of parties that every sharing is split among.
    pub closed spec fn parties(&self) -> nat {
        self.dealt.parties()
    }

    /// The sharings that the party dealt: entry `k` is the sharing for
    /// input `k`, and its entry `j` the share of party `j`.
    pub closed spec fn dealt(&self) -> Seq<Seq<F128b>> {
        self.dealt.shares()
    }

    /// The party's sums so far, one per input.
    pub closed spec fn sums(&self) -> Seq<F128b> {
        self.sums@
    }

    /// Every sharing that the party dealt has one share per party, and the
    /// shares sum to zero.
    pub open spec fn dealt_wf(&self) -> bool {
        forall|k: int|
            0 <= k < self.dealt().len() ==> {
                &&& (#[trigger] self.dealt()[k]).len() == self.parties()
                &&& sum_upto(self.dealt()[k], self.parties() as int) == F128b(0)
            }
    }

    /// Whether the party keeps what does not change in an exchange.
    pub open spec fn same_deal(&self, before: &Sharing) -> bool {
        &&& self.id() == before.id()
        &&& self.parties() == before.parties()
        &&& self.dealt() == before.dealt()
    }

    /// Takes the next peer: the order of the roles, the roles, and the
    /// points to program for the peer, which pair every input with the
    /// peer's share for it. `None` when the party has exchanged with every
    /// peer. A peer whose number is not below the number of parties is a
    /// misuse, and inputs that are not as many as the sharings are a length
    /// mismatch; either leaves the peer in place.
    pub fn next_exchange(&mut self, inputs: &[F128b]) -> (res: Result<Option<Exchange>, Error>)
        ensures
            final(self).same_deal(old(self)),
            final(self).sums() == old(self).sums(),
            old(self).peers().len() == 0 ==> res matches Ok(None),
            old(self).peers().len() > 0 && old(self).peers()[0] >= old(self).parties() <==> res matches Err(
                Error::ProtocolMisuse,
            ),
            old(self).peers().len() > 0 && old(self).peers()[0] < old(self).parties() && inputs@.len()
                != old(self).dealt().len() <==> res matches Err(Error::InvariantViolation),
            res matches Ok(Some(exchange)) ==> {
                &&& old(self).peers().len() > 0
                &&& exchange.link == old(self).roles()[0]
                &&& final(self).roles() == old(self).roles().drop_first()
                &&& exchange.link.them == old(self).peers()[0]
                &&& exchange.turn == if old(self).id() < exchange.link.them {
                    Turn::SendFirst
                } else {
                    Turn::ReceiveFirst
                }
                &&& exchange.points@ == paired(
                    inputs@,
                    share_column(old(self).dealt(), exchange.link.them as int),
                )
                &&& final(self).peers() == old(self).peers().drop_first()
            },
            res matches Ok(None) <==> old(self).peers().len() == 0,
            !(res matches Ok(Some(_))) ==> final(self).roles() == old(self).roles(),
            res matches Err(e) ==> e == Error::ProtocolMisuse || e == Error::InvariantViolation,
    {
        if self.party.links.len() == 0 {
            return Ok(None);
        }
        let them = self.party.links[0].them;
        let for_them = match self.dealt.shares_for(them) {
            Ok(v) => v,
            Err(e) => {
                return Err(e);
            },
        };
        proof {
            assert(for_them@ =~= share_column(self.dealt.shares(), them as int));
        }
        let points = match pair_points(inputs, for_them.as_slice()) {
            Ok(points) => points,
            Err(e) => {
                return Err(e);
            },
        };
        match self.party.next_peer() {
            Some((turn, link)) => Ok(Some(Exchange { turn, link, points })),
            None => Ok(None),
        }
    }

    /// Adds to every sum the value that the peer's function gave at that
    /// input. There must be one value per sum; otherwise nothing is added.
    pub fn absorb(&mut self, received: &[(F128b, F128b)]) -> (res: Result<(), Error>)
        ensures
            final(self).same_deal(old(self)),
            final(self).roles() == old(self).roles(),
            old(self).sums().len() != received@.len() <==> res matches Err(Error::InvariantViolation),
            old(self).sums().len() == received@.len() <==> res is Ok,
            res is Err ==> final(self).sums() == old(self).sums(),
            res is Ok ==> final(self).sums() == accumulated(old(self).sums(), received@),
    {
        accumulate(&mut self.sums, received)
    }

    /// Ends the sharing: the party's sums, one per input. To end it before
    /// the party has exchanged with every peer is a misuse.
    pub fn into_sums(self) -> (res: Result<Vec<F128b>, Error>)
        ensures
            self.peers().len() > 0 <==> res matches Err(Error::ProtocolMisuse),
            self.peers().len() == 0 ==> (res matches Ok(sums) && sums@ == self.sums()),
    {
        if self.party.remaining() > 0 {
            return Err(Error::ProtocolMisuse);
        }
        Ok(self.sums)
    }
}

/// A sender of the protocol: a party with a number above zero, which also
/// programs its sums for the receiver.
pub struct Sender {
    id: PartyId,
    party_for_zs: Party,
    opprf_sender_for_rc: SepOpprfSenderWithVole,
}

impl Sender {
    pub closed spec fn id(&self) -> PartyId {
        self.id
    }

    /// The sender's roles towards its peers in the sharing of zero, in
    /// order.
    pub closed spec fn roles(&self) -> Seq<PeerRoles> {
        self.party_for_zs.roles()
    }

    /// The peers of the sender in the sharing of zero, in order.
    pub open spec fn peers(&self) -> Seq<usize> {
        peer_ids(self.roles())
    }

    /// The sender's role towards the receiver in the reconstruction.
    pub closed spec fn reconstruction(&self) -> SepOpprfSenderWithVole {
        self.opprf_sender_for_rc
    }

    #[verifier::type_invariant]
    spec fn numbered(&self) -> bool {
        self.id != 0 && self.party_for_zs.id() == self.id
    }

    /// The party's number.
    pub fn get_id(&self) -> (id: PartyId)
        ensures
            id == self.id(),
            id != 0,
    {
        proof {
            use_type_invariant(self);
        }
        self.id
    }

    /// Makes sender `me` from its roles for the sharing of zero and its
    /// sender's role towards the receiver. Number zero is the receiver's,
    /// and the roles for the sharing of zero must be those of party `me`.
    pub fn precomp(me: PartyId, party_for_zs: Party, opprf_sender_for_rc: SepOpprfSenderWithVole) -> (res:
        Result<Sender, Error>)
        ensures
            me == 0 <==> res matches Err(Error::ProtocolMisuse),
            me != 0 && party_for_zs.id() != me <==> res matches Err(Error::InvariantViolation),
            me != 0 && party_for_zs.id() == me <==> res is Ok,
            res matches Ok(s) ==> {
                &&& s.id() == me
                &&& s.roles() == party_for_zs.roles()
                &&& s.reconstruction() == opprf_sender_for_rc
            },
    {
        if me == 0 {
            return Err(Error::ProtocolMisuse);
        }
        if party_for_zs.get_id() != me {
            return Err(Error::InvariantViolation);
        }
        Ok(Sender { id: me, party_for_zs, opprf_sender_for_rc })
    }

    /// Goes online for `ninputs` inputs: begins the sharing of zero as
    /// [`Party::conditional_secret_sharing`] does, and gives out the role
    /// for the reconstruction, in which the sender programs its sums.
    pub fn send(self, ninputs: usize, rng: &mut StdRng) -> (res: Result<
        (Sharing, SepOpprfSenderWithVole),
        Error,
    >)
        ensures
            self.id() > self.peers().len() <==> res matches Err(Error::ProtocolMisuse),
            res matches Ok(roles) ==> {
                &&& roles.0.id() == self.id()
                &&& roles.0.roles() == self.roles()
                &&& roles.0.parties() == self.peers().len() + 1
                &&& roles.0.dealt().len() == ninputs
                &&& roles.0.dealt_wf()
                &&& roles.0.sums() == share_column(roles.0.dealt(), self.id() as int)
                &&& roles.1 == self.reconstruction()
            },
            res matches Err(e) ==> e == Error::ProtocolMisuse || e == Error::InvariantViolation,
            res matches Err(Error::InvariantViolation) ==> self.peers().len() == usize::MAX,
    {
        proof {
            use_type_invariant(&self);
        }
        match self.party_for_zs.conditional_secret_sharing(ninputs, rng) {
            Ok(sharing) => Ok((sharing, self.opprf_sender_for_rc)),
            Err(e) => Err(e),
        }
    }
}

/// The receiver of the protocol: party zero, which also evaluates every
/// sender's function for the reconstruction.
pub struct Receiver {
    party_for_zs: Party,
    opprf_receivers_for_rc: Vec<(usize, SepOpprfReceiverWithVole)>,
}

impl Receiver {
    /// The receiver's roles towards the senders in the reconstruction,
    /// each with the sender's number, in the order of the numbers.
    pub closed spec fn reconstruction(&self) -> Seq<(usize, SepOpprfReceiverWithVole)> {
        self.opprf_receivers_for_rc@
    }

    /// The senders whose sums the receiver has yet to take, in order.
    pub open spec fn senders(&self) -> Seq<usize> {
        party_ids(self.reconstruction())
    }

    /// The receiver's roles towards its peers in the sharing of zero, in
    /// order.
    pub closed spec fn roles(&self) -> Seq<PeerRoles> {
        self.party_for_zs.roles()
    }

    /// The peers of the receiver in the sharing of zero, in order.
    pub open spec fn peers(&self) -> Seq<usize> {
        peer_ids(self.roles())
    }

    #[verifier::type_invariant]
    spec fn numbered(&self) -> bool {
        self.party_for_zs.id() == 0
    }

    /// The party's number, which is zero.
    pub fn get_id(&self) -> (id: PartyId)
        ensures
            id == 0,
    {
        0
    }

    /// Makes the receiver from its roles for the sharing of zero and its
    /// receiver's role towards every sender, each with the sender's number.
    /// The roles are put in the order of the senders' numbers.
    pub fn precomp(
        party_for_zs: Party,
        opprf_receivers_for_rc: Vec<(usize, SepOpprfReceiverWithVole)>,
    ) -> (res: Result<Receiver, Error>)
        ensures
            party_for_zs.id() != 0 <==> res matches Err(Error::ProtocolMisuse),
            party_for_zs.id() == 0 ==> {
                &&& res matches Ok(r)
                &&& r.roles() == party_for_zs.roles()
                &&& r.reconstruction().to_multiset() == opprf_receivers_for_rc@.to_multiset()
                &&& r.senders().len() == opprf_receivers_for_rc@.len()
                &&& r.senders().to_multiset() == party_ids(opprf_receivers_for_rc@).to_multiset()
                &&& forall|i: int, j: int|
                    0 <= i < j < r.senders().len() ==> r.senders()[i] <= r.senders()[j]
            },
    {
        if party_for_zs.get_id() != 0 {
            return Err(Error::ProtocolMisuse);
        }
        let mut receivers = opprf_receivers_for_rc;
        sort_by_party(&mut receivers);
        proof {
            assert forall|a: int, b: int| 0 <= a < b < party_ids(receivers@).len() implies party_ids(
                receivers@,
            )[a] <= party_ids(receivers@)[b] by {
                assert(receivers@[a].0 <= receivers@[b].0);
            }
        }
        Ok(Receiver { party_for_zs, opprf_receivers_for_rc: receivers })
    }

    /// Goes online for `ninputs` inputs: begins the sharing of zero as
    /// [`Party::conditional_secret_sharing`] does, and gives out the roles
    /// for the reconstruction, in which the receiver adds every sender's
    /// sums to its own. The receiver's number is zero, so it always has a
    /// share of its own.
    pub fn receive(self, ninputs: usize, rng: &mut StdRng) -> (res: Result<
        (Sharing, Vec<(usize, SepOpprfReceiverWithVole)>),
        Error,
    >)
        ensures
            res matches Ok(roles) ==> {
                &&& roles.0.id() == 0
                &&& roles.0.roles() == self.roles()
                &&& roles.0.parties() == self.peers().len() + 1
                &&& roles.0.dealt().len() == ninputs
                &&& roles.0.dealt_wf()
                &&& roles.0.sums() == share_column(roles.0.dealt(), 0)
                &&& roles.1@ == self.reconstruction()
            },
            res matches Err(e) ==> e == Error::InvariantViolation && self.peers().len() == usize::MAX,
    {
        proof {
            use_type_invariant(&self);
        }
        match self.party_for_zs.conditional_secret_sharing(ninputs, rng) {
            Ok(sharing) => Ok((sharing, self.opprf_receivers_for_rc)),
            Err(e) => Err(e),
        }
    }
}

/// For one element, with `s[i][j]` the share that party `i` deals to party
/// `j`: the sum that party `j` holds once the first `rows` parties have
/// dealt, its own share among them.
pub open spec fn column_sum(s: Seq<Seq<F128b>>, j: int, rows: int) -> F128b
    decreases rows,
{
    if rows <= 0 {
        F128b(0)
    } else {
        gf_add(column_sum(s, j, rows - 1), s[rows - 1][j])
    }
}

/// The total that the receiver holds after the reconstruction: the sum of
/// the sums of the first `cols` parties.
pub open spec fn columns_total(s: Seq<Seq<F128b>>, rows: int, cols: int) -> F128b
    decreases cols,
{
    if cols <= 0 {
        F128b(0)
    } else {
        gf_add(columns_total(s, rows, cols - 1), column_sum(s, cols - 1, rows))
    }
}

/// The sum of everything that the first `rows` parties dealt.
pub open spec fn rows_total(s: Seq<Seq<F128b>>, rows: int, cols: int) -> F128b
    decreases rows,
{
    if rows <= 0 {
        F128b(0)
    } else {
        gf_add(rows_total(s, rows - 1, cols), sum_upto(s[rows - 1], cols))
    }
}

/// One more dealer adds its shares to the receiver's total.
pub proof fn lemma_columns_add_row(s: Seq<Seq<F128b>>, rows: int, cols: int)
    requires
        rows >= 1,
    ensures
        columns_total(s, rows, cols) == gf_add(
            columns_total(s, rows - 1, cols),
            sum_upto(s[rows - 1], cols),
        ),
    decreases cols,
{
    if cols <= 0 {
        lemma_add_laws(F128b(0), F128b(0), F128b(0));
    } else {
        lemma_columns_add_row(s, rows, cols - 1);
        lemma_add_interchange(
            columns_total(s, rows - 1, cols - 1),
            sum_upto(s[rows - 1], cols - 1),
            column_sum(s, cols - 1, rows - 1),
            s[rows - 1][cols - 1],
        );
    }
}

/// The receiver's total is the sum of everything that was dealt.
pub proof fn lemma_totals_agree(s: Seq<Seq<F128b>>, rows: int, cols: int)
    ensures
        columns_total(s, rows, cols) == rows_total(s, rows, cols),
    decreases rows,
{
    if rows <= 0 {
        lemma_columns_of_nothing(s, rows, cols);
    } else {
        lemma_totals_agree(s, rows - 1, cols);
        lemma_columns_add_row(s, rows, cols);
    }
}

/// Without dealers the receiver's total is zero.
pub proof fn lemma_columns_of_nothing(s: Seq<Seq<F128b>>, rows: int, cols: int)
    requires
        rows <= 0,
    ensures
        columns_total(s, rows, cols) == F128b(0),
    decreases cols,
{
    if cols > 0 {
        lemma_columns_of_nothing(s, rows, cols - 1);
        lemma_add_laws(F128b(0), F128b(0), F128b(0));
    }
}

/// Completeness of the intersection, for one element that all `n` parties
/// hold: every party deals a sharing of zero, every party's sum is its own
/// share plus the shares that the peers' functions give it, which at a
/// common element are the shares dealt to it, and the receiver's total is
/// the sum of all parties' sums. That total is zero, so the receiver keeps
/// the element.
pub proof fn lemma_common_element_cancels(s: Seq<Seq<F128b>>, n: int)
    requires
        forall|i: int| 0 <= i < n ==> sum_upto(#[trigger] s[i], n) == F128b(0),
    ensures
        columns_total(s, n, n) == F128b(0),
{
    lemma_totals_agree(s, n, n);
    lemma_rows_of_zero(s, n, n);
}

/// Sharings of zero sum to zero.
pub proof fn lemma_rows_of_zero(s: Seq<Seq<F128b>>, rows: int, cols: int)
    requires
        forall|i: int| 0 <= i < rows ==> sum_upto(#[trigger] s[i], cols) == F128b(0),
    ensures
        rows_total(s, rows, cols) == F128b(0),
    decreases rows,
{
    if rows > 0 {
        lemma_rows_of_zero(s, rows - 1, cols);
        assert(sum_upto(s[rows - 1], cols) == F128b(0));
        lemma_add_laws(F128b(0), F128b(0), F128b(0));
    }
}

} // verus!
