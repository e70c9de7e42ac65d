//! System calls.
pub mod call_laws;
pub mod checks;
pub mod heap_laws;
pub mod laws;
pub mod process;
