//! A lazy, memoizing, persistent singly-linked list.
//!
//! The spine is a chain of one-time memoizing cells. Each cell is populated
//! at most once, on first demand, either from a finite source sequence or
//! from a self-referential step function that may inspect the elements
//! produced before the one it is currently asked for.

pub mod cell;
pub mod list;
