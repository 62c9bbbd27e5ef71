//! The closed-loop benchmark: what it writes and reads, how the work is divided, and
//! how latencies are summed up. Running it, with its threads, is left
//! to the program.

pub mod args;
pub mod clock;
pub mod hist;
pub mod kv;
pub mod probe;
pub mod runner;
pub mod workload;
