//! A room-assignment search engine.
//!
//! Given a population of people, each with a category, a list of preferred
//! roommates and a list of people to avoid, the library plans capacity-bounded
//! rooms per category, builds candidate assignments with a seeded randomized
//! two-phase heuristic, scores them, and keeps the best assignment found
//! within an iteration budget.
#![verifier::loop_isolation(false)]

pub mod construct;
pub mod distribution;
pub mod driver;
pub mod hints;
pub mod rng;
pub mod roster;
pub mod scoring;
pub mod solution;
pub mod solve;
pub mod types;
