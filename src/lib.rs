//! Memory consistency and shared range-check lookups for a zero-knowledge VM.
//!
//! The library issues timestamps for memory accesses, records them, derives the
//! sorted view that an offline memory check walks, commits memory state into a
//! Merkle digest so consecutive segments can be linked, and keeps the counts of
//! the bounded-value lookup table that every other chip relies on.

pub mod range_checker;
pub mod is_less_than_tuple;
pub mod assert_sorted;
pub mod memory;
pub mod controller;
pub mod offline_checker;
pub mod merkle;
pub mod continuation;
pub mod alu;
pub mod columns;
pub mod bus;
pub mod inventory;
pub mod boundary;
