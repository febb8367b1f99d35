//! A gift-exchange cycle builder.
//!
//! Given a collection of families (groups of people who must not give
//! gifts to one another), [`find_assignment`] produces an ordered sequence
//! of names in which no two consecutive entries come from the same family,
//! or reports that no such sequence exists under its greedy strategy.

pub mod family;
pub mod assign;

pub use family::Family;
pub use assign::find_assignment;
