//! The memory-management, file-system, process and synchronisation core of a
//! small teaching kernel for 64-bit RISC-V.
//!
//! A machine word is 64 bits wide: addresses, page numbers and table tokens are
//! `u64` values.
pub mod bytes;
pub mod fs;
pub mod mm;
pub mod sync;
pub mod syscall;
pub mod task;
