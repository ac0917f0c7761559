//! Verified arithmetic in GF(2^32) with a calculator built on it, together with two
//! small puzzles of the same collection: the twelve-coin weighing and the greatest
//! common divisor of a list.
pub mod calculator;
pub mod coins;
pub mod euclid;
pub mod field32;
pub mod field_laws;
