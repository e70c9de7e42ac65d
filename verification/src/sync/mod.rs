//! Synchronisation between tasks.
pub mod semaphore;
