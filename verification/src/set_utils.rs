//! Sets of field elements for trying out the protocol: every party gets a set
//! of one size, and the sets have some elements in common.

use crate::error::Error;
use crate::field::F128b;
use crate::random::{random_below, random_field, random_fields, shuffle_fields};
use rand::rngs::StdRng;
use std::collections::HashSet;
use vstd::prelude::*;
use vstd::seq_lib::{to_multiset_contains, to_multiset_len};
use vstd::std_specs::hash::group_hash_axioms;

verus! {

/// Types that can be made from a 128-bit integer.
pub trait FromU128: Sized {
    /// The value that stands for `x`.
    spec fn spec_from_u128(x: u128) -> Self;

    /// Converts a 128-bit integer.
    fn from_u128(x: u128) -> (r: Self)
        ensures
            r == Self::spec_from_u128(x),
    ;
}

impl FromU128 for F128b {
    /// The element whose coefficient bits are the bits of `x`.
    open spec fn spec_from_u128(x: u128) -> F128b {
        F128b(x)
    }

    fn from_u128(x: u128) -> (r: F128b) {
        F128b(x)
    }
}

/// Whether a request for `nparties` sets of `set_size` elements with
/// `common_size` common elements is refused: a protocol needs two parties,
/// and a set holds at least the common elements.
pub open spec fn set_sizes_refused(nparties: usize, set_size: usize, common_size: usize) -> bool {
    nparties <= 1 || set_size < common_size
}

/// Checks the sizes of a request for sets.
pub fn check_set_sizes(nparties: usize, set_size: usize, common_size: usize) -> (ok: Result<(), Error>)
    ensures
        set_sizes_refused(nparties, set_size, common_size) <==> ok == Err::<(), Error>(
            Error::ProtocolMisuse,
        ),
        !set_sizes_refused(nparties, set_size, common_size) <==> ok == Ok::<(), Error>(()),
{
    if nparties <= 1 {
        return Err(Error::ProtocolMisuse);
    }
    if set_size < common_size {
        return Err(Error::ProtocolMisuse);
    }
    Ok(())
}

/// How many drawn elements that a set already holds are passed over before
/// the set is filled up with the least numbers that it does not hold.
pub const REDRAW_LIMIT: usize = 64;

/// Whether `seen` holds exactly the bits of the elements.
pub open spec fn holds_bits_of(seen: Set<u128>, items: Seq<F128b>) -> bool {
    forall|k: u128| seen.contains(k) <==> items.contains(F128b(k))
}

/// The sets as sequences.
pub open spec fn views(sets: Seq<Vec<F128b>>) -> Seq<Seq<F128b>> {
    Seq::new(sets.len(), |i: int| sets[i]@)
}

/// Whether the sets are made as asked: each has `set_size` elements, none
/// of them twice, and holds every element of `common`.
pub open spec fn sets_made(common: Seq<F128b>, sets: Seq<Seq<F128b>>, set_size: usize) -> bool {
    forall|i: int|
        0 <= i < sets.len() ==> {
            &&& (#[trigger] sets[i]).len() == set_size
            &&& sets[i].no_duplicates()
            &&& forall|c: int| 0 <= c < common.len() ==> sets[i].contains(#[trigger] common[c])
        }
}

/// The element that stands for the number of party `j`.
pub open spec fn number_of(j: int) -> F128b {
    F128b(j as u128)
}

/// Whether every set holds the numbers of the other parties: elements that
/// all parties but one share.
pub open spec fn shares_numbers(sets: Seq<Seq<F128b>>) -> bool {
    forall|i: int, j: int|
        0 <= i < sets.len() && 0 <= j < sets.len() && i != j ==> (#[trigger] sets[i]).contains(
            #[trigger] number_of(j),
        )
}

/// Whether `x` is an element of every set.
pub open spec fn in_all(sets: Seq<Seq<F128b>>, x: F128b) -> bool {
    forall|i: int| 0 <= i < sets.len() ==> (#[trigger] sets[i]).contains(x)
}

/// What the elements held before `x` was put to them or passed over, they
/// still hold, and they hold `x`.
proof fn lemma_kept(before: Seq<F128b>, after: Seq<F128b>, x: F128b)
    requires
        after == before || after == before.push(x),
        after == before ==> before.contains(x),
    ensures
        after.contains(x),
        forall|y: F128b| before.contains(y) ==> after.contains(y),
{
    if after != before {
        assert(after[before.len() as int] == x);
        assert forall|y: F128b| before.contains(y) implies after.contains(y) by {
            let i = choose|i: int| 0 <= i < before.len() && before[i] == y;
            assert(after[i] == y);
        }
    }
}

/// A shuffled sequence has the elements of the sequence before it.
proof fn lemma_shuffled(before: Seq<F128b>, after: Seq<F128b>)
    requires
        before.to_multiset() == after.to_multiset(),
    ensures
        after.len() == before.len(),
        forall|x: F128b| after.contains(x) <==> before.contains(x),
        before.no_duplicates() ==> after.no_duplicates(),
{
    to_multiset_len(before);
    to_multiset_len(after);
    assert forall|x: F128b| after.contains(x) <==> before.contains(x) by {
        to_multiset_contains(before, x);
        to_multiset_contains(after, x);
    }
    if before.no_duplicates() {
        before.lemma_multiset_has_no_duplicates();
        after.lemma_multiset_has_no_duplicates_conv();
    }
}

/// Whether `seen` holds as many numbers as there are elements.
pub open spec fn counted(seen: Set<u128>, items: Seq<F128b>) -> bool {
    seen.finite() && seen.len() == items.len()
}

/// A set that holds all numbers below `c` holds `c` numbers or more.
proof fn lemma_room(seen: Set<u128>, c: nat)
    requires
        seen.finite(),
        c <= u128::MAX,
        forall|v: u128| v < c ==> seen.contains(v),
    ensures
        c <= seen.len(),
    decreases c,
{
    broadcast use vstd::set::group_set_axioms;

    if c > 0 {
        let last = (c - 1) as u128;
        assert(seen.contains(last));
        lemma_room(seen.remove(last), (c - 1) as nat);
    }
}

/// The least number that the set does not hold.
fn first_unseen(seen: &HashSet<u128>) -> (c: u128)
    requires
        seen@.finite(),
        seen@.len() <= usize::MAX,
    ensures
        !seen@.contains(c),
        forall|v: u128| v < c ==> seen@.contains(v),
{
    broadcast use group_hash_axioms;

    let mut c: u128 = 0;
    proof {
        lemma_room(seen@, 0);
    }
    while seen.contains(&c)
        invariant
            seen@.finite(),
            seen@.len() <= usize::MAX,
            c <= seen@.len(),
            forall|v: u128| v < c ==> seen@.contains(v),
        decreases seen@.len() - c,
    {
        proof {
            lemma_room(seen@, (c + 1) as nat);
        }
        c = c + 1;
    }
    c
}

/// Puts `x` at the end of the elements unless they hold it already.
fn push_new(items: &mut Vec<F128b>, seen: &mut HashSet<u128>, x: F128b) -> (fresh: bool)
    requires
        old(items)@.no_duplicates(),
        holds_bits_of(old(seen)@, old(items)@),
        counted(old(seen)@, old(items)@),
    ensures
        fresh == !old(items)@.contains(x),
        final(items)@ == if fresh {
            old(items)@.push(x)
        } else {
            old(items)@
        },
        final(items)@.no_duplicates(),
        holds_bits_of(final(seen)@, final(items)@),
        counted(final(seen)@, final(items)@),
{
    broadcast use group_hash_axioms;
    broadcast use vstd::set::group_set_axioms;

    let ghost before = items@;
    assert(before.contains(F128b(x.0)) == before.contains(x));
    if seen.insert(x.0) {
        items.push(x);
        proof {
            assert forall|k: u128| seen@.contains(k) <==> items@.contains(F128b(k)) by {
                if before.contains(F128b(k)) {
                    let i = choose|i: int| 0 <= i < before.len() && before[i] == F128b(k);
                    assert(items@[i] == F128b(k));
                }
                if k == x.0 {
                    assert(items@[before.len() as int] == F128b(k));
                }
                if items@.contains(F128b(k)) {
                    let i = choose|i: int| 0 <= i < items@.len() && items@[i] == F128b(k);
                    if i < before.len() {
                        assert(before[i] == F128b(k));
                    }
                }
            }
            assert forall|i: int, j: int| 0 <= i < items@.len() && 0 <= j < items@.len() && i != j implies items@[i]
                != items@[j] by {
                if i == before.len() {
                    assert(before[j] == items@[j]);
                } else if j == before.len() {
                    assert(before[i] == items@[i]);
                }
            }
        }
        true
    } else {
        false
    }
}

/// The set of party `i`: the common elements; then, while the set is not
/// full, the numbers of the other parties, each of which is thus shared by
/// all parties but one; then random elements. Where the generator has given
/// [`REDRAW_LIMIT`] elements that the set already held, the least number
/// that the set does not hold is taken in place of one more. The set is
/// shuffled.
fn make_set(i: usize, nparties: usize, set_size: usize, common: &[F128b], rng: &mut StdRng) -> (set:
    Vec<F128b>)
    requires
        common@.len() <= set_size,
    ensures
        set@.len() == set_size,
        set@.no_duplicates(),
        forall|c: int| 0 <= c < common@.len() ==> set@.contains(#[trigger] common@[c]),
        common@.len() + nparties <= set_size ==> forall|j: int|
            0 <= j < nparties && j != i ==> set@.contains(#[trigger] number_of(j)),
{
    broadcast use vstd::set::group_set_axioms;

    let mut items: Vec<F128b> = Vec::new();
    let mut seen: HashSet<u128> = HashSet::new();
    assert(holds_bits_of(seen@, items@));
    assert(counted(seen@, items@));
    let mut c: usize = 0;
    while c < common.len()
        invariant
            c <= common@.len() <= set_size,
            items@.len() <= c,
            items@.no_duplicates(),
            holds_bits_of(seen@, items@),
            counted(seen@, items@),
            forall|j: int| 0 <= j < c ==> items@.contains(#[trigger] common@[j]),
        decreases common@.len() - c,
    {
        let ghost before = items@;
        push_new(&mut items, &mut seen, common[c]);
        proof {
            lemma_kept(before, items@, common@[c as int]);
        }
        c = c + 1;
    }
    let ghost with_common = items@;
    let mut counter: usize = 0;
    while items.len() < set_size && counter < nparties
        invariant
            counter <= nparties,
            items@.len() <= set_size,
            items@.len() <= common@.len() + counter,
            items@.no_duplicates(),
            holds_bits_of(seen@, items@),
            counted(seen@, items@),
            forall|x: F128b| with_common.contains(x) ==> items@.contains(x),
            forall|j: int| 0 <= j < counter && j != i ==> items@.contains(#[trigger] number_of(j)),
        decreases nparties - counter,
    {
        if counter != i {
            let ghost before = items@;
            let x = F128b::from_u128(counter as u128);
            push_new(&mut items, &mut seen, x);
            proof {
                lemma_kept(before, items@, x);
            }
        }
        counter = counter + 1;
    }
    let ghost with_numbers = items@;
    assert(common@.len() + nparties <= set_size ==> counter == nparties);
    let mut misses: usize = 0;
    while items.len() < set_size
        invariant
            items@.len() <= set_size,
            misses <= REDRAW_LIMIT,
            items@.no_duplicates(),
            holds_bits_of(seen@, items@),
            counted(seen@, items@),
            forall|x: F128b| with_common.contains(x) ==> items@.contains(x),
            forall|x: F128b| with_numbers.contains(x) ==> items@.contains(x),
        decreases (set_size - items@.len()) + (REDRAW_LIMIT - misses),
    {
        let ghost before = items@;
        let x = random_field(rng);
        let fresh = push_new(&mut items, &mut seen, x);
        proof {
            lemma_kept(before, items@, x);
        }
        if !fresh {
            if misses == REDRAW_LIMIT {
                let ghost held = items@;
                let least = F128b::from_u128(first_unseen(&seen));
                push_new(&mut items, &mut seen, least);
                proof {
                    lemma_kept(held, items@, least);
                }
            } else {
                misses = misses + 1;
            }
        }
    }
    let ghost made = items@;
    shuffle_fields(&mut items, rng);
    proof {
        lemma_shuffled(made, items@);
        assert forall|j: int| 0 <= j < common@.len() implies items@.contains(#[trigger] common@[j]) by {
            assert(with_common.contains(common@[j]));
        }
        if common@.len() + nparties <= set_size {
            assert forall|j: int| 0 <= j < nparties && j != i implies items@.contains(
                #[trigger] number_of(j),
            ) by {
                assert(with_numbers.contains(number_of(j)));
            }
        }
    }
    items
}

/// One set for every party, each with the elements of `common`.
fn fill(nparties: usize, set_size: usize, common: &[F128b], rng: &mut StdRng) -> (sets: Vec<
    Vec<F128b>,
>)
    requires
        common@.len() <= set_size,
    ensures
        sets@.len() == nparties,
        sets_made(common@, views(sets@), set_size),
        common@.len() + nparties <= set_size ==> shares_numbers(views(sets@)),
{
    let mut sets: Vec<Vec<F128b>> = Vec::new();
    let mut i: usize = 0;
    while i < nparties
        invariant
            i <= nparties,
            common@.len() <= set_size,
            sets@.len() == i,
            sets_made(common@, views(sets@), set_size),
            common@.len() + nparties <= set_size ==> forall|a: int, j: int|
                0 <= a < i && 0 <= j < nparties && a != j ==> (#[trigger] views(sets@)[a]).contains(
                    #[trigger] number_of(j),
                ),
        decreases nparties - i,
    {
        let set = make_set(i, nparties, set_size, common, rng);
        let ghost before = sets@;
        sets.push(set);
        proof {
            assert forall|j: int| 0 <= j < views(sets@).len() implies {
                &&& (#[trigger] views(sets@)[j]).len() == set_size
                &&& views(sets@)[j].no_duplicates()
                &&& forall|c: int|
                    0 <= c < common@.len() ==> views(sets@)[j].contains(#[trigger] common@[c])
            } by {
                if j < i {
                    assert(views(sets@)[j] == views(before)[j]);
                }
            }
            if common@.len() + nparties <= set_size {
                assert forall|a: int, j: int|
                    0 <= a < i + 1 && 0 <= j < nparties && a != j implies (#[trigger] views(
                    sets@,
                )[a]).contains(#[trigger] number_of(j)) by {
                    if a < i {
                        assert(views(sets@)[a] == views(before)[a]);
                    }
                }
            }
        }
        i = i + 1;
    }
    sets
}

/// Whether the elements hold `x`.
fn holds(set: &[F128b], x: F128b) -> (found: bool)
    ensures
        found == set@.contains(x),
{
    let mut i: usize = 0;
    while i < set.len()
        invariant
            i <= set@.len(),
            forall|j: int| 0 <= j < i ==> set@[j] != x,
        decreases set@.len() - i,
    {
        if set[i].0 == x.0 {
            return true;
        }
        i = i + 1;
    }
    false
}

/// Whether every set holds `x`.
fn holds_in_all(sets: &Vec<Vec<F128b>>, x: F128b) -> (found: bool)
    ensures
        found == in_all(views(sets@), x),
{
    let mut i: usize = 0;
    while i < sets.len()
        invariant
            i <= sets@.len(),
            forall|j: int| 0 <= j < i ==> (#[trigger] views(sets@)[j]).contains(x),
        decreases sets@.len() - i,
    {
        if !holds(sets[i].as_slice(), x) {
            assert(!views(sets@)[i as int].contains(x));
            return false;
        }
        i = i + 1;
    }
    true
}

/// Makes `nparties` sets of `set_size` elements that have `common_size`
/// random elements in common, and works out what the sets have in common:
/// besides those elements, what chance made common. Returns the common
/// elements and the sets.
pub fn create_sets_with_check(nparties: usize, set_size: usize, common_size: usize, rng: &mut StdRng) -> (res:
    Result<(Vec<F128b>, Vec<Vec<F128b>>), Error>)
    ensures
        set_sizes_refused(nparties, set_size, common_size) <==> res matches Err(Error::ProtocolMisuse),
        !set_sizes_refused(nparties, set_size, common_size) <==> res is Ok,
        res matches Ok(made) ==> {
            &&& made.1@.len() == nparties
            &&& sets_made(made.0@, views(made.1@), set_size)
            &&& common_size + nparties <= set_size ==> shares_numbers(views(made.1@))
            &&& made.0@.no_duplicates()
            &&& forall|x: F128b| made.0@.contains(x) <==> in_all(views(made.1@), x)
        },
{
    match check_set_sizes(nparties, set_size, common_size) {
        Ok(()) => {},
        Err(e) => {
            return Err(e);
        },
    }
    let sampled = random_fields(rng, common_size);
    let sets = fill(nparties, set_size, sampled.as_slice(), rng);
    let ghost all = views(sets@);
    let first = &sets[0];
    assert(first@ == all[0]);
    let mut common: Vec<F128b> = Vec::new();
    let ghost mut from: Seq<int> = Seq::empty();
    let mut k: usize = 0;
    while k < first.len()
        invariant
            k <= first@.len(),
            first@ == all[0],
            all == views(sets@),
            sets@.len() == nparties,
            nparties > 1,
            first@.no_duplicates(),
            common@.no_duplicates(),
            from.len() == common@.len(),
            forall|t: int|
                0 <= t < common@.len() ==> 0 <= #[trigger] from[t] < k && common@[t] == first@[from[t]]
                    && in_all(all, common@[t]),
            forall|j: int| 0 <= j < k && in_all(all, first@[j]) ==> common@.contains(#[trigger] first@[j]),
        decreases first@.len() - k,
    {
        let x = first[k];
        if holds_in_all(&sets, x) {
            let ghost before = common@;
            common.push(x);
            proof {
                from = from.push(k as int);
                lemma_kept(before, common@, x);
                assert forall|a: int, b: int|
                    0 <= a < common@.len() && 0 <= b < common@.len() && a != b implies common@[a]
                    != common@[b] by {
                    assert(common@[a] == first@[from[a]] && common@[b] == first@[from[b]]);
                    if a < before.len() && b < before.len() {
                        assert(before[a] != before[b]);
                    }
                }
            }
        }
        k = k + 1;
    }
    proof {
        assert forall|x: F128b| common@.contains(x) <==> in_all(all, x) by {
            if common@.contains(x) {
                let t = choose|t: int| 0 <= t < common@.len() && common@[t] == x;
                assert(0 <= from[t]);
                assert(in_all(all, common@[t]));
            }
            if in_all(all, x) {
                assert(all[0].contains(x));
                let j = choose|j: int| 0 <= j < first@.len() && first@[j] == x;
                assert(common@.contains(first@[j]));
            }
        }
        assert forall|i: int| 0 <= i < all.len() implies {
            &&& (#[trigger] all[i]).len() == set_size
            &&& all[i].no_duplicates()
            &&& forall|c: int| 0 <= c < common@.len() ==> all[i].contains(#[trigger] common@[c])
        } by {
            assert forall|c: int| 0 <= c < common@.len() implies all[i].contains(#[trigger] common@[c]) by {
                assert(0 <= from[c]);
                assert(in_all(all, common@[c]));
            }
        }
    }
    Ok((common, sets))
}

/// Makes `nparties` sets of `set_size` elements that have `common_size`
/// random elements in common, without working out what else chance made
/// common: for large sets. Returns those elements and the sets.
pub fn create_sets_without_check(
    nparties: usize,
    set_size: usize,
    common_size: usize,
    rng: &mut StdRng,
) -> (res: Result<(Vec<F128b>, Vec<Vec<F128b>>), Error>)
    ensures
        set_sizes_refused(nparties, set_size, common_size) <==> res matches Err(Error::ProtocolMisuse),
        !set_sizes_refused(nparties, set_size, common_size) <==> res is Ok,
        res matches Ok(made) ==> {
            &&& made.0@.len() == common_size
            &&& made.1@.len() == nparties
            &&& sets_made(made.0@, views(made.1@), set_size)
            &&& common_size + nparties <= set_size ==> shares_numbers(views(made.1@))
        },
{
    match check_set_sizes(nparties, set_size, common_size) {
        Ok(()) => {},
        Err(e) => {
            return Err(e);
        },
    }
    let common = random_fields(rng, common_size);
    let sets = fill(nparties, set_size, common.as_slice(), rng);
    Ok((common, sets))
}

/// Makes sets with a random number of common elements, below `set_size`.
pub fn create_sets_random(nparties: usize, set_size: usize, rng: &mut StdRng) -> (res: Result<
    (Vec<F128b>, Vec<Vec<F128b>>),
    Error,
>)
    requires
        set_size > 0,
    ensures
        nparties <= 1 <==> res matches Err(Error::ProtocolMisuse),
        nparties > 1 <==> res is Ok,
        res matches Ok(made) ==> {
            &&& made.0@.len() < set_size
            &&& made.1@.len() == nparties
            &&& sets_made(made.0@, views(made.1@), set_size)
            &&& made.0@.len() + nparties <= set_size ==> shares_numbers(views(made.1@))
        },
{
    let common_size = random_below(rng, set_size);
    create_sets_without_check(nparties, set_size, common_size, rng)
}

} // verus!
