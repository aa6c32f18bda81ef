//! Bidirectionally transformed strings: a string that remembers, position by
//! position, how its current form relates to its original form.
//!
//! - `bound`: half-open ranges with optional endpoints.
//! - `align`: alignments between two sequences, range mapping, slicing,
//!   composition, inversion, and inference of a lowest-cost alignment.
//! - `owned`: the bistring, which keeps its two texts and their alignment in step.
//! - `slice`: views of a bistring over a range of its modified text.
//! - `laws`: properties that relate the operations on alignments.
pub mod align;
pub mod bound;
pub mod laws;
pub mod owned;
pub mod slice;

pub use align::Alignment;
pub use bound::{Bounds, Endpoint};
pub use owned::BiString;
pub use slice::BiStr;
