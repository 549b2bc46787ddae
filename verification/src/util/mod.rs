//! Building blocks shared by the search modules.

pub mod bits;
pub mod bytes;
pub mod fixed_bit_set;
pub mod heap;
pub mod math;
pub mod models;
pub mod number_keys;
pub mod positions;
pub mod priority_queue;
pub mod slots;
pub mod sort;
pub mod text;
