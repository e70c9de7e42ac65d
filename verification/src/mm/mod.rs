//! Sv39 virtual memory: addresses, physical memory and page tables.
pub mod access_laws;
pub mod address;
pub mod entry;
pub mod memory;
pub mod memory_set;
pub mod page_laws;
pub mod page_table;
pub mod pages;
pub mod user;
pub mod user_buffer;
pub mod user_laws;
pub mod walk;
