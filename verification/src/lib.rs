//! A deterministic sorting micro-benchmark: a linear-congruential generator
//! fills an array with pseudo-random values, an in-place Hoare-partition
//! quicksort orders it, and a checksum is accumulated from a fixed position of
//! the sorted array across many rounds.  Both the generator and the sort are
//! verified, so the checksum each driver returns is pinned, down to the exact
//! value, by its contract.

pub mod quick_sort;
pub mod quicksort_benchmark;
pub mod rng;
pub mod seq_facts;

pub use quick_sort::QuickSort;
pub use quicksort_benchmark::QuicksortBenchmark;
