//! Document matching, scoring-independent ranking and slicing logic of a
//! full-text search engine, with its contracts proved by Verus.

pub mod error;
pub mod search;
pub mod util;
