//! The reveal order store: one permutation of the rows for every column,
//! all of them drawn from one stream that the seed fixes.

use crate::prng::{lemma_rest_twice, rest, seeded_outputs, Prng};
use crate::render::{
    columns, has_shape, lemma_first_frame_is_lit, rendered, uniform, Pixel, RenderError,
};
use crate::shuffle::{ascending, draws_used, gen_shuffled_vec, is_permutation, shuffled};
use vstd::prelude::*;

verus! {

/// The reveal orders that the stream `draws` yields for `count` columns of
/// `size` rows: column after column, each a shuffle of `0..size` that takes
/// up the stream where the column before it stopped.
pub open spec fn generated_orders(draws: Map<nat, u32>, count: int, size: int) -> Seq<Seq<i32>> {
    Seq::new(
        if count > 0 {
            count as nat
        } else {
            0
        },
        |x: int|
            shuffled(ascending(size), rest(draws, (x * draws_used(ascending(size).len())) as nat)),
    )
}

/// What a [`Pendings`] stands for.
pub struct PendingsView {
    /// The seed that the orders were generated from.
    pub seed: u64,
    /// The reveal orders, one sequence for each column.
    pub orders: Seq<Seq<i32>>,
}

impl PendingsView {
    /// The number of columns.
    pub open spec fn count(self) -> nat {
        self.orders.len()
    }

    /// The number of rows, read off the first column.
    pub open spec fn size(self) -> nat {
        if self.orders.len() > 0 {
            self.orders[0].len()
        } else {
            0
        }
    }
}

/// The seed and the reveal orders generated from it.
pub struct Pendings {
    seed: u64,
    orders: Vec<Vec<i32>>,
    prng: Prng,
}

impl View for Pendings {
    type V = PendingsView;

    closed spec fn view(&self) -> PendingsView {
        PendingsView { seed: self.seed, orders: columns(self.orders@) }
    }
}

impl Pendings {
    /// The orders are those that the seed generates, and every column is a
    /// permutation of the rows.
    pub open spec fn wf(&self) -> bool {
        &&& self@.count() <= i32::MAX
        &&& self@.size() <= i32::MAX
        &&& self@.orders == generated_orders(
            seeded_outputs(self@.seed),
            self@.count() as int,
            self@.size() as int,
        )
        &&& forall|x: int|
            0 <= x < self@.count() ==> is_permutation(#[trigger] self@.orders[x], self@.size())
    }

    /// `self` is what [`Pendings::update_seed`] makes of `before` and
    /// `seed`.
    pub open spec fn reseeded(&self, before: &Pendings, seed: u64) -> bool {
        &&& self.wf()
        &&& self@.seed == seed
        &&& self@.count() == before@.count()
        &&& self@.size() == before@.size()
        &&& self@.orders == generated_orders(
            seeded_outputs(seed),
            before@.count() as int,
            before@.size() as int,
        )
    }

    /// Generates the orders for `orders_count` columns of `order_size` rows
    /// from `seed`. A count or size that is not positive gives no columns,
    /// or empty ones.
    pub fn new(seed: u64, orders_count: i32, order_size: i32) -> (pendings: Pendings)
        ensures
            pendings.wf(),
            pendings@.seed == seed,
            pendings@.orders == generated_orders(
                seeded_outputs(seed),
                orders_count as int,
                order_size as int,
            ),
            forall|x: int|
                0 <= x < orders_count ==> is_permutation(
                    #[trigger] pendings@.orders[x],
                    ascending(order_size as int).len(),
                ),
    {
        let mut prng = Prng::new(seed);
        let count: usize = if orders_count > 0 {
            orders_count as usize
        } else {
            0
        };
        let orders = generate(&mut prng, count, order_size);
        let pendings = Pendings { seed, orders, prng };
        proof {
            let made = generated_orders(
                seeded_outputs(seed),
                orders_count as int,
                order_size as int,
            );
            assert(pendings@.orders == made);
            assert(made =~= generated_orders(
                seeded_outputs(seed),
                pendings@.count() as int,
                pendings@.size() as int,
            ));
        }
        pendings
    }

    /// The reveal orders, one vector for each column.
    pub fn orders(&self) -> (orders: &Vec<Vec<i32>>)
        ensures
            columns(orders@) == self@.orders,
    {
        &self.orders
    }

    /// Replaces the seed and generates all the orders anew from it, for as
    /// many columns as before and as many rows as the first column has.
    pub fn update_seed(&mut self, new_seed: u64)
        requires
            old(self).wf(),
            old(self)@.count() > 0,
        ensures
            final(self).reseeded(old(self), new_seed),
    {
        let count: usize = self.orders.len();
        assert(columns(self.orders@)[0] == self.orders@[0]@);
        let size: i32 = self.orders[0].len() as i32;
        self.seed = new_seed;
        self.prng.seed(new_seed);
        self.orders = generate(&mut self.prng, count, size);
        assert(self@.orders =~= generated_orders(
            seeded_outputs(new_seed),
            self@.count() as int,
            self@.size() as int,
        ));
    }
}

/// Draws `count` columns of `size` rows, one after the other, from `prng`.
fn generate(prng: &mut Prng, count: usize, size: i32) -> (orders: Vec<Vec<i32>>)
    ensures
        columns(orders@) == generated_orders(old(prng).upcoming(), count as int, size as int),
        has_shape(columns(orders@), count as int, ascending(size as int).len() as int),
        forall|x: int|
            0 <= x < count ==> is_permutation(
                #[trigger] columns(orders@)[x],
                ascending(size as int).len(),
            ),
{
    let ghost draws = prng.upcoming();
    let ghost each = draws_used(ascending(size as int).len());
    let mut orders: Vec<Vec<i32>> = Vec::new();
    let mut x: usize = 0;
    while x < count
        invariant
            x <= count,
            orders@.len() == x,
            each == draws_used(ascending(size as int).len()),
            prng.upcoming() == rest(draws, (x * each) as nat),
            forall|c: int|
                0 <= c < x ==> (#[trigger] orders@[c])@ == generated_orders(
                    draws,
                    count as int,
                    size as int,
                )[c],
            forall|c: int|
                0 <= c < x ==> is_permutation(
                    (#[trigger] orders@[c])@,
                    ascending(size as int).len(),
                ),
        decreases count - x,
    {
        let column = gen_shuffled_vec(prng, size);
        proof {
            lemma_rest_twice(draws, (x * each) as nat, each);
            assert(x * each + each == (x + 1) * each) by (nonlinear_arith);
        }
        orders.push(column);
        x = x + 1;
    }
    assert(columns(orders@) =~= generated_orders(draws, count as int, size as int));
    orders
}

/// Two stores with the same seed and the same dimensions hold the same
/// orders.
pub proof fn lemma_same_seed_same_orders(first: Pendings, second: Pendings)
    requires
        first.wf(),
        second.wf(),
        first@.seed == second@.seed,
        first@.count() == second@.count(),
        first@.size() == second@.size(),
    ensures
        first@.orders == second@.orders,
{
}

/// Every column of a store holds each row number exactly once.
pub proof fn lemma_columns_are_permutations(pendings: Pendings, x: int)
    requires
        pendings.wf(),
        0 <= x < pendings@.count(),
    ensures
        pendings@.orders[x].len() == pendings@.size(),
        pendings@.orders[x].no_duplicates(),
        forall|row: i32| 0 <= row < pendings@.size() <==> pendings@.orders[x].contains(row),
{
}

/// After a change of seed the frame at step 0 is lit all over, whatever the
/// new seed is.
pub proof fn lemma_lit_after_update_seed(before: Pendings, after: Pendings, new_seed: u64)
    requires
        before.wf(),
        before@.count() > 0,
        after.reseeded(&before, new_seed),
    ensures
        rendered(0, before@.count() as int, before@.size() as int, after@.orders) == Ok::<
            Seq<Seq<Pixel>>,
            RenderError,
        >(uniform(before@.count() as int, before@.size() as int, Pixel::Lit)),
{
    let width = before@.count() as int;
    let height = before@.size() as int;
    lemma_first_frame_is_lit(width, height, after@.orders);
    assert forall|x: int| 0 <= x < width implies (#[trigger] after@.orders[x]).len() == height by {
        assert(is_permutation(after@.orders[x], after@.size()));
    }
}

} // verus!
