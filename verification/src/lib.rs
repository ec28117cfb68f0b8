//! Verified core of a finder of profitable crafting chains.
//!
//! The crate scans item descriptions for the text of their value, brings raw
//! recipe records into a normal form, and searches the recipe graph, depth
//! first and with backtracking, for the first chain of recipes that ends in a
//! profit. Values themselves are fractional numbers and stay with the caller:
//! the library works on texts, item identifiers and the caller's verdicts.
pub mod buffer;
pub mod chain;
pub mod reading;
pub mod recipe;
pub mod search;
pub mod tooltip;
