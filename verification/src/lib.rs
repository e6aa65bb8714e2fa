//! A binary max-heap with machine-checked contracts, together with a
//! sorted-vector priority queue that serves as its executable model.

pub mod agreement;
pub mod differential;
pub mod heap;
pub mod naive;
pub mod order;
