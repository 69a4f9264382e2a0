//! Fisher-Yates shuffling driven by a [`Prng`].

use crate::prng::{lemma_rest_twice, rest, scaled_draw, Prng, MAX_BOUND};
use vstd::prelude::*;

verus! {

/// std's `swap` on slices: exchanges the items at `a` and `b`. It panics
/// when either index is out of bounds, which `requires` rules out.
#[verifier::external_body]
fn swap_items<T>(vec: &mut Vec<T>, a: usize, b: usize)
    requires
        a < old(vec)@.len(),
        b < old(vec)@.len(),
    ensures
        final(vec)@ == swapped(old(vec)@, a as int, b as int),
{
    vec.swap(a, b)
}

/// `s` with the items at `a` and `b` exchanged.
pub open spec fn swapped<T>(s: Seq<T>, a: int, b: int) -> Seq<T> {
    s.update(a, s[b]).update(b, s[a])
}

/// Fisher-Yates on the first `unplaced` items of `s`: position
/// `unplaced - 1` receives an item drawn from positions `0..unplaced`, then
/// the same happens one position lower with the next raw value, down to
/// position 1.
pub open spec fn shuffled_prefix<T>(s: Seq<T>, draws: Map<nat, u32>, unplaced: nat) -> Seq<T>
    decreases unplaced,
{
    if unplaced <= 1 {
        s
    } else {
        let drawn = scaled_draw(draws[0], 0, unplaced as usize);
        shuffled_prefix(
            swapped(s, unplaced - 1, drawn as int),
            rest(draws, 1),
            (unplaced - 1) as nat,
        )
    }
}

/// The arrangement of `s` that a shuffle produces from the stream `draws`.
pub open spec fn shuffled<T>(s: Seq<T>, draws: Map<nat, u32>) -> Seq<T> {
    shuffled_prefix(s, draws, s.len())
}

/// How many raw values a shuffle of `len` items consumes.
pub open spec fn draws_used(len: nat) -> nat {
    if len == 0 {
        0
    } else {
        (len - 1) as nat
    }
}

/// The sequence `0, 1, .., size - 1`; empty when `size` is not positive.
pub open spec fn ascending(size: int) -> Seq<i32> {
    Seq::new(
        if size > 0 {
            size as nat
        } else {
            0
        },
        |k: int| k as i32,
    )
}

/// `column` holds every number of `0..size` exactly once and nothing else.
pub open spec fn is_permutation(column: Seq<i32>, size: nat) -> bool {
    &&& column.len() == size
    &&& column.no_duplicates()
    &&& forall|value: i32| column.contains(value) <==> 0 <= value < size
}

/// Exchanging two items keeps what the sequence holds.
pub proof fn lemma_swapped_same_items<T>(s: Seq<T>, a: int, b: int)
    requires
        0 <= a < s.len(),
        0 <= b < s.len(),
    ensures
        swapped(s, a, b).len() == s.len(),
        swapped(s, a, b).to_multiset() == s.to_multiset(),
{
    broadcast use vstd::multiset::group_multiset_axioms;

    let half = s.update(a, s[b]);
    vstd::seq_lib::to_multiset_update(s, a, s[b]);
    vstd::seq_lib::to_multiset_update(half, b, s[a]);
    vstd::seq_lib::to_multiset_contains(s, s[a]);
    vstd::seq_lib::to_multiset_contains(s, s[b]);
    assert(s.contains(s[a]));
    assert(s.contains(s[b]));
    assert(half[b] == s[b]);
    assert(swapped(s, a, b).to_multiset() =~= s.to_multiset());
}

/// A rearrangement of `0..size` is a permutation of it.
pub proof fn lemma_rearranged_ascending(column: Seq<i32>, size: int)
    requires
        size <= i32::MAX,
        column.to_multiset() == ascending(size).to_multiset(),
    ensures
        is_permutation(column, ascending(size).len()),
{
    broadcast use vstd::multiset::group_multiset_axioms;

    let base = ascending(size);
    vstd::seq_lib::to_multiset_len(column);
    vstd::seq_lib::to_multiset_len(base);
    assert(base.no_duplicates());
    base.lemma_multiset_has_no_duplicates();
    column.lemma_multiset_has_no_duplicates_conv();
    assert forall|value: i32| column.contains(value) <==> 0 <= value < base.len() by {
        vstd::seq_lib::to_multiset_contains(column, value);
        vstd::seq_lib::to_multiset_contains(base, value);
        if 0 <= value < base.len() {
            assert(base[value as int] == value);
        }
    }
}

/// One step of a shuffle: the last of the first `unplaced` items changes
/// places with the item at `drawn`.
pub fn place<T>(vec: &mut Vec<T>, unplaced: usize, drawn: usize)
    requires
        0 < unplaced <= old(vec).len(),
        drawn < unplaced,
    ensures
        final(vec)@ == swapped(old(vec)@, unplaced - 1, drawn as int),
        final(vec)@.to_multiset() == old(vec)@.to_multiset(),
{
    proof {
        lemma_swapped_same_items(vec@, unplaced - 1, drawn as int);
    }
    swap_items(vec, unplaced - 1, drawn);
}

/// Shuffles `vec` in place: for each position from the last down to the
/// second, one index is drawn from the positions up to and including it, and
/// the two items change places. The draw covers the position itself, so an
/// item may stay where it is and every arrangement can come out.
pub fn shuffle_vec<T>(prng: &mut Prng, vec: &mut Vec<T>)
    requires
        old(vec).len() <= MAX_BOUND,
    ensures
        final(vec)@ == shuffled(old(vec)@, old(prng).upcoming()),
        final(vec)@.to_multiset() == old(vec)@.to_multiset(),
        final(prng).upcoming() == rest(old(prng).upcoming(), draws_used(old(vec)@.len())),
{
    let ghost before = vec@;
    let ghost draws = prng.upcoming();
    let len: usize = vec.len();
    let mut unplaced: usize = len;
    while unplaced > 1
        invariant
            vec.len() == len,
            len <= MAX_BOUND,
            unplaced <= len,
            len > 0 ==> unplaced > 0,
            shuffled_prefix(vec@, prng.upcoming(), unplaced as nat) == shuffled(before, draws),
            vec@.to_multiset() == before.to_multiset(),
            prng.upcoming() == rest(draws, (len - unplaced) as nat),
            before.len() == len,
        decreases unplaced,
    {
        let drawn: usize = prng.below(unplaced);
        place(vec, unplaced, drawn);
        proof {
            lemma_rest_twice(draws, (len - unplaced) as nat, 1);
        }
        unplaced = unplaced - 1;
    }
}

/// The numbers `0..size` in shuffled order; empty when `size` is not
/// positive.
pub fn gen_shuffled_vec(prng: &mut Prng, size: i32) -> (vec: Vec<i32>)
    ensures
        vec@ == shuffled(ascending(size as int), old(prng).upcoming()),
        is_permutation(vec@, ascending(size as int).len()),
        final(prng).upcoming() == rest(
            old(prng).upcoming(),
            draws_used(ascending(size as int).len()),
        ),
{
    let mut vec: Vec<i32> = Vec::new();
    let mut next: i32 = 0;
    while next < size
        invariant
            0 <= next,
            next <= size || next == 0,
            vec@ == ascending(next as int),
        decreases size - next,
    {
        vec.push(next);
        next = next + 1;
        assert(vec@ =~= ascending(next as int));
    }
    assert(vec@ =~= ascending(size as int));
    shuffle_vec(prng, &mut vec);
    proof {
        lemma_rearranged_ascending(vec@, size as int);
    }
    vec
}

} // verus!
