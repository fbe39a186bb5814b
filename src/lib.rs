//! Parallel map with threshold-driven chunking.
//!
//! An input sequence is split into chunks of at most `threshold` elements;
//! every chunk but the last goes to a worker, the last one runs on the
//! calling thread, and the outputs are put back together in input order.

mod executor;
mod laws;
mod mapping;
mod partition;
mod result_map;
mod session;

pub use executor::{Executable, Get, SingleThreaded};
pub use laws::{lemma_chunk_count, lemma_merge_length, lemma_single_chunk, lemma_strategies_agree};
pub use mapping::{accepts_all, deterministic, lemma_maps_to_append, maps_to};
pub use partition::{ceil_div, chunk_count, spawned_workers, Partition};
pub use result_map::{ordered_concat, ResultMap};
pub use session::{chunk_of, exec_partitioned, DeliveryError, ParallelRun};
