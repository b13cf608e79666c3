//! Reversible one-dimensional block cellular automata on bit-packed rows.
//!
//! A generation of the automaton is a circular row of up to 63 cells packed
//! into one machine word (a [`field::Field`]).  A [`rule::Rule`] is a
//! bijective substitution table on three-cell blocks; one full generation
//! composes three phase steps, each realigning the block partition by one
//! cell, which is what makes the whole step reversible.  The [`classify`]
//! module holds the analyses built on the engine: period and offset
//! detection, canonical forms, the elementary-object test, the
//! independence filter for composites of known components, the causal
//! reachability check and the glider-gun recognizer.  Rules are named by
//! integer indices through the factorial-number-system codec in [`perm`],
//! and [`random`] supplies the deterministic stream used to pick
//! exploratory start values.

pub mod bits;
pub mod classify;
pub mod field;
pub mod perm;
pub mod random;
pub mod rule;
