pub mod data_structures;
pub mod sort;
pub mod algorithm;
pub mod heap;
