//! In-memory models for two small interactive tools, with verified contracts:
//! a warehouse inventory tracker over a fixed grid of storage cells, and a
//! clinic queue that spreads visitors across service windows by a greedy
//! least-load rule. Terminal dialogue lives outside this crate; the library
//! holds the state, the operations, and the laws they obey.

pub mod address;
pub mod clinic;
pub mod digits;
pub mod parse;
pub mod warehouse;
