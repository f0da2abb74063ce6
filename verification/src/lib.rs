//! Simulation optimisation over integer decision vectors: a genetic algorithm
//! proposes candidates, a bandit-style rule decides how often each is sampled
//! and which one is reported when the evaluation budget is spent.
//!
//! Rewards are floating-point numbers, and floating-point arithmetic is not
//! part of this crate. A reward enters as a [`float_key::FloatKey`], made from
//! the bits of a double, which orders and compares as the double does; the
//! arithmetic on rewards is supplied by the caller through [`arm::Numerics`],
//! the objective through [`arm::OptimizationFn`]. Random draws come from a
//! generator of the `rand` crate that the caller hands over.
//!
//! - [`float_key`]: rank keys.
//! - [`arm`]: candidates with their running statistics.
//! - [`sorted_multi_map`]: the rank index, ordered by mean.
//! - [`lookup_table`]: the deduplication index, from vectors to arms.
//! - [`random`]: the draws from the random source.
//! - [`genetic`]: the proposer: first population, crossover, mutation.
//! - [`pool`]: what it means that the pool and the two indexes agree.
//! - [`generation`]: what one generation is and how many evaluations it takes.
//! - [`selection`]: the final choice among the best arms.
//! - [`gmab`]: the engine, which owns all of it.

pub mod arm;
pub mod float_key;
pub mod generation;
pub mod genetic;
pub mod gmab;
pub mod lookup_table;
pub mod pool;
pub mod random;
pub mod selection;
pub mod sorted_multi_map;
