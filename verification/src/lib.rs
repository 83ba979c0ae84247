//! A small restaurant order book: each table (numbered by a `u8`) holds the
//! ordered list of dishes that were ordered at it. Dishes are told apart by
//! a random 128-bit identifier, so two orders of the same dish can be removed
//! or updated one at a time.

pub mod item;
pub mod database;
pub mod laws;
