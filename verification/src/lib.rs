//! A seed-controlled "falling pixels" progress animation.
//!
//! Every column of the grid owns a random permutation of its rows, drawn
//! from a stream that one seed fixes ([`pendings`]). A single step counter
//! then decides, cell by cell, what a frame looks like ([`render`]), and the
//! events of the host move that counter within its bounds ([`playback`]).

pub mod pendings;
pub mod playback;
pub mod prng;
pub mod render;
pub mod shuffle;

pub use pendings::Pendings;
pub use playback::{Animation, Event};
pub use prng::Prng;
pub use render::{Pixel, RenderError};
