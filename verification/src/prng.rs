//! The pseudo-random stream that every shuffle draws from.

use macroquad::rand::RandGenerator;
use vstd::prelude::*;

verus! {

/// `RandGenerator`, the generator type of quad-rand as macroquad hands it
/// on under `macroquad::rand`. Its one field, the state word, stays hidden:
/// the contracts below speak of a generator only through [`outputs`].
#[verifier::external_type_specification]
#[verifier::external_body]
pub struct ExRandGenerator(RandGenerator);

/// The values that the generator's next calls of `rand` return: key `0` is
/// the very next one, key `1` the one after it, and so on.
pub uninterp spec fn outputs(generator: RandGenerator) -> Map<nat, u32>;

/// The stream that a generator holds right after `srand(seed)`.
pub uninterp spec fn seeded_outputs(seed: u64) -> Map<nat, u32>;

/// What `gen_range(low, high)` makes of the one raw value `draw` that it
/// takes from the stream.
pub uninterp spec fn scaled_draw(draw: u32, low: usize, high: usize) -> usize;

/// Largest bound that [`Prng::below`] accepts: 2^53. Up to here the
/// generator's range arithmetic represents the bound without rounding.
pub const MAX_BOUND: u64 = 0x20_0000_0000_0000;

/// The stream `stream` after its first `count` values were taken.
pub open spec fn rest(stream: Map<nat, u32>, count: nat) -> Map<nat, u32> {
    if count == 0 {
        stream
    } else {
        Map::total(|n: nat| stream[n + count])
    }
}

/// Taking `first` values and then `second` more is taking `first + second`.
pub proof fn lemma_rest_twice(stream: Map<nat, u32>, first: nat, second: nat)
    ensures
        rest(rest(stream, first), second) == rest(stream, first + second),
{
    assert(rest(rest(stream, first), second) =~= rest(stream, first + second));
}

/// `RandGenerator::new`: a generator of its own, apart from the crate-wide
/// one. Nothing is claimed of its stream before it is seeded.
#[verifier::external_body]
fn fresh_generator() -> (generator: RandGenerator) {
    RandGenerator::new()
}

/// `RandGenerator::srand`: overwrites the generator's state with one that
/// depends on `seed` alone, so the stream from here on is fixed by `seed`.
#[verifier::external_body]
fn reseed(generator: &mut RandGenerator, seed: u64)
    ensures
        outputs(*final(generator)) == seeded_outputs(seed),
{
    generator.srand(seed)
}

/// `RandGenerator::gen_range` at `usize`: takes exactly one raw value from
/// the stream, divides it by 2^32 and scales the range by that factor, in
/// double precision. The crate documents the result as within
/// `low..high`. That is claimed here for `low == 0` and `high` up to 2^53
/// only: the factor is at most `1 - 2^-32`, and up to 2^53 the bound is
/// held exactly, so the product stays below it and is cut down to a whole
/// number.
#[verifier::external_body]
fn draw_in_range(generator: &mut RandGenerator, low: usize, high: usize) -> (drawn: usize)
    requires
        low == 0,
        0 < high <= MAX_BOUND,
    ensures
        drawn == scaled_draw(outputs(*old(generator))[0], low, high),
        low <= drawn < high,
        outputs(*final(generator)) == rest(outputs(*old(generator)), 1),
{
    generator.gen_range(low, high)
}

/// A pseudo-random generator with a stream of its own.
pub struct Prng {
    generator: RandGenerator,
}

impl Prng {
    /// The raw values that the next draws will consume, in order.
    pub closed spec fn upcoming(&self) -> Map<nat, u32> {
        outputs(self.generator)
    }

    /// A generator seeded with `seed`.
    pub fn new(seed: u64) -> (prng: Prng)
        ensures
            prng.upcoming() == seeded_outputs(seed),
    {
        let mut generator = fresh_generator();
        reseed(&mut generator, seed);
        Prng { generator }
    }

    /// Restarts the stream from `seed`, whatever was drawn before.
    pub fn seed(&mut self, seed: u64)
        ensures
            final(self).upcoming() == seeded_outputs(seed),
    {
        reseed(&mut self.generator, seed);
    }

    /// Draws a number from `0..bound`, consuming one raw value.
    pub fn below(&mut self, bound: usize) -> (drawn: usize)
        requires
            0 < bound <= MAX_BOUND,
        ensures
            drawn < bound,
            drawn == scaled_draw(old(self).upcoming()[0], 0, bound),
            final(self).upcoming() == rest(old(self).upcoming(), 1),
    {
        draw_in_range(&mut self.generator, 0, bound)
    }
}

} // verus!
