//! The animation as a whole: the reveal orders, the step counter and the
//! help flag, moved on by the events that the host reports.

use crate::pendings::{generated_orders, Pendings};
use crate::prng::seeded_outputs;
use crate::render::{columns, frame, has_shape, max_step, render, Pixel};
use crate::shuffle::{ascending, is_permutation};
use vstd::prelude::*;

verus! {

/// What the host can report.
#[derive(Clone, Copy, Debug, PartialEq, Eq, Structural)]
pub enum Event {
    /// One step on; the last step stays the last.
    StepForward,
    /// One step back; step 0 stays step 0.
    StepBackward,
    /// New reveal orders, generated from the seed given.
    Randomize(u64),
    /// Show the help line, or hide it.
    ToggleHelp,
}

/// What an [`Animation`] stands for.
pub struct AnimationView {
    /// The number of columns.
    pub width: nat,
    /// The number of rows.
    pub height: nat,
    /// The seed of the reveal orders.
    pub seed: u64,
    /// The reveal orders, one sequence for each column.
    pub orders: Seq<Seq<i32>>,
    /// The step counter.
    pub step: nat,
    /// Whether the help line is shown.
    pub show_help: bool,
}

impl AnimationView {
    /// The last step of the animation.
    pub open spec fn last_step(self) -> int {
        max_step(self.width as int, self.height as int)
    }

    /// The state that `event` leads to: steps are clamped to
    /// `0..=last_step`, a new seed replaces all orders and leaves the step
    /// alone.
    pub open spec fn after(self, event: Event) -> AnimationView {
        match event {
            Event::StepForward => AnimationView {
                step: if self.step < self.last_step() {
                    self.step + 1
                } else {
                    self.step
                },
                ..self
            },
            Event::StepBackward => AnimationView {
                step: if self.step > 0 {
                    (self.step - 1) as nat
                } else {
                    0
                },
                ..self
            },
            Event::Randomize(seed) => AnimationView {
                seed,
                orders: generated_orders(
                    seeded_outputs(seed),
                    self.width as int,
                    self.height as int,
                ),
                ..self
            },
            Event::ToggleHelp => AnimationView { show_help: !self.show_help, ..self },
        }
    }
}

/// A grid of falling pixels at some step of its animation.
pub struct Animation {
    pendings: Pendings,
    width: usize,
    height: usize,
    step: usize,
    last_step: usize,
    show_help: bool,
}

impl View for Animation {
    type V = AnimationView;

    closed spec fn view(&self) -> AnimationView {
        AnimationView {
            width: self.width as nat,
            height: self.height as nat,
            seed: self.pendings@.seed,
            orders: self.pendings@.orders,
            step: self.step as nat,
            show_help: self.show_help,
        }
    }
}

impl Animation {
    /// The grid has a column at least, its orders are those of its seed,
    /// and the step is within `0..=last_step`.
    pub closed spec fn wf(&self) -> bool {
        &&& self.pendings.wf()
        &&& 1 <= self.width <= u16::MAX
        &&& self.height <= u16::MAX
        &&& self.pendings@.count() == self.width
        &&& self.pendings@.size() == self.height
        &&& self.last_step == self@.last_step()
        &&& self.step <= self.last_step
    }

    /// What [`Animation::wf`] says of the state.
    pub proof fn lemma_wf(&self)
        requires
            self.wf(),
        ensures
            1 <= self@.width <= u16::MAX,
            self@.height <= u16::MAX,
            has_shape(self@.orders, self@.width as int, self@.height as int),
            forall|x: int|
                0 <= x < self@.width ==> is_permutation(#[trigger] self@.orders[x], self@.height),
            self@.orders == generated_orders(
                seeded_outputs(self@.seed),
                self@.width as int,
                self@.height as int,
            ),
            self@.step <= self@.last_step() <= usize::MAX,
    {
        assert forall|x: int| 0 <= x < self@.width implies (#[trigger] self@.orders[x]).len()
            == self@.height by {
            assert(is_permutation(self@.orders[x], self@.height));
        }
    }

    /// An animation of `width` columns and `height` rows at step 0, with
    /// the help line shown and the orders generated from `seed`.
    pub fn new(seed: u64, width: u16, height: u16) -> (animation: Animation)
        requires
            width >= 1,
        ensures
            animation.wf(),
            animation@ == (AnimationView {
                width: width as nat,
                height: height as nat,
                seed,
                orders: generated_orders(seeded_outputs(seed), width as int, height as int),
                step: 0,
                show_help: true,
            }),
    {
        let pendings = Pendings::new(seed, width as i32, height as i32);
        assert(is_permutation(pendings@.orders[0], ascending(height as int).len()));
        assert(0 <= width * height <= 0xffff * 0xffff) by (nonlinear_arith)
            requires
                0 <= width <= 0xffff,
                0 <= height <= 0xffff,
        ;
        let cells: usize = (width as usize) * (height as usize);
        let last_step: usize = cells + (width as usize) - 1;
        Animation {
            pendings,
            width: width as usize,
            height: height as usize,
            step: 0,
            last_step,
            show_help: true,
        }
    }

    /// The step counter.
    pub fn step(&self) -> (step: usize)
        ensures
            step == self@.step,
    {
        self.step
    }

    /// The last step: `width * height + width - 1`.
    pub fn max_step(&self) -> (last: usize)
        requires
            self.wf(),
        ensures
            last == self@.last_step(),
    {
        self.last_step
    }

    /// The number of columns.
    pub fn width(&self) -> (width: usize)
        ensures
            width == self@.width,
    {
        self.width
    }

    /// The number of rows.
    pub fn height(&self) -> (height: usize)
        ensures
            height == self@.height,
    {
        self.height
    }

    /// Whether the help line is shown.
    pub fn show_help(&self) -> (shown: bool)
        ensures
            shown == self@.show_help,
    {
        self.show_help
    }

    /// The store of the reveal orders.
    pub fn pendings(&self) -> (pendings: &Pendings)
        ensures
            pendings@.seed == self@.seed,
            pendings@.orders == self@.orders,
            self.wf() ==> pendings.wf(),
    {
        &self.pendings
    }

    /// Moves the animation on by one event.
    pub fn handle(&mut self, event: Event)
        requires
            old(self).wf(),
        ensures
            final(self).wf(),
            final(self)@ == old(self)@.after(event),
    {
        match event {
            Event::StepForward => {
                if self.step < self.last_step {
                    self.step = self.step + 1;
                }
            },
            Event::StepBackward => {
                if self.step > 0 {
                    self.step = self.step - 1;
                }
            },
            Event::Randomize(seed) => {
                self.pendings.update_seed(seed);
            },
            Event::ToggleHelp => {
                self.show_help = !self.show_help;
            },
        }
    }

    /// The frame at the current step.
    pub fn frame(&self) -> (grid: Vec<Vec<Pixel>>)
        requires
            self.wf(),
        ensures
            columns(grid@) == frame(
                self@.step as int,
                self@.width as int,
                self@.height as int,
                self@.orders,
            ),
            grid@.len() == self@.width,
            forall|x: int| 0 <= x < self@.width ==> (#[trigger] grid@[x])@.len() == self@.height,
    {
        proof {
            self.lemma_wf();
        }
        match render(self.step, self.width, self.height, self.pendings.orders()) {
            Ok(grid) => grid,
            Err(_) => Vec::new(),
        }
    }
}

} // verus!
