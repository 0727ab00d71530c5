//! The queue that hands jobs to the threads of a pool.
pub use crate::pool::{JobQueue, Message};
