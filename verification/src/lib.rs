//! Evolution strategies: populations of candidate solutions, recombination
//! of parents, and (mu, lambda) / (mu + lambda) selection.
//!
//! Real-valued quantities (genes, step sizes, fitness values) never take
//! part in arithmetic here: each is carried as the 64-bit IEEE-754 pattern
//! of the value, and a fitness also carries an integer rank that orders
//! fitness values the way the numbers themselves are ordered.

pub mod adaptation;
pub mod population;
pub mod ranking;
pub mod recombination;
pub mod selection;
