//! Benchmark harnesses: the protocol runs the benchmarks time. Writing the
//! results to `.xlsx` files and reporting progress is the program's part.
pub mod gkr;
pub mod sumcheck;
