//! Lazy unfolding of a seed value: from a transform `f` and a start value `i`,
//! the sequence `i, f(i), f(f(i)), ...`, produced one value at a time, collected
//! into a vector, cut at a count, or read at a position.
mod generator;
mod orbit;

pub use generator::{
    bounded_prefix_of_orbit, unfold, unfold_count, unfold_nth, unfold_vector, Unfold, UnfoldCount,
    UnfoldError,
};
pub use orbit::{
    computes, is_functional, is_nth, is_orbit, is_total, iterate, nth_is_iteration, orbit_is_iteration,
    orbits_agree,
};
