//! A solver for the Countdown numbers puzzle: given a multiset of integer
//! tiles and a target, enumerate every arithmetic expression that uses each
//! chosen tile at most once and evaluates to the target, then collapse
//! semantically equivalent solutions.

pub mod combinatorics;
pub mod expr;
pub mod solver;
