//! Small containers used by the graph algorithms.

pub mod bits;
pub mod set;
pub mod bitset;
pub mod shift_stack;
