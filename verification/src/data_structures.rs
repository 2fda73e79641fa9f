//! Containers.

pub mod heap;
pub mod laws;
pub mod order;

pub use heap::Heap;
pub use order::MaxFirst;
pub use order::MinFirst;
pub use order::Order;
