//! A binary-heap priority queue and an in-place heap sort, with their
//! behaviour stated as contracts and proved.

pub mod data_structures;
pub mod exchange;
pub mod sorting;
