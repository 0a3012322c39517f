//! A symbolic CTL model checker over finite Kripke structures.
//!
//! Sets of states and the transition relation are encoded as binary decision
//! diagrams; the temporal operators are evaluated by Boolean operations and
//! least/greatest fixed-point iterations over them. Every evaluation is
//! proved to return exactly the satisfaction set given by the standard
//! fixed-point semantics of CTL.

pub mod bdd;
pub mod ctl;
pub mod kripke;
pub mod laws;
pub mod semantics;
pub mod solve;
