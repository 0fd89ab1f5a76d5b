//! An explicit-state model checker.
//!
//! A system is described by a [`model::Model`]: a finite set of initial
//! states, an action generator, a transition function, and a list of
//! properties, each either `Always` (must hold on every reachable state) or
//! `Sometimes` (must hold on at least one reachable state).
//!
//! [`engine::run`] explores the reachable state space in breadth-first order,
//! deduplicating states in a [`store::StateStore`], evaluates every property
//! on each newly discovered state, and reports per-property verdicts.  A
//! failing `Always` property comes with a counterexample trace that is proved
//! to be a valid path of minimal length; a satisfied `Sometimes` property
//! comes with a witness trace of minimal length.

pub mod engine;
pub mod model;
pub mod reach;
pub mod store;
pub mod test_util;
