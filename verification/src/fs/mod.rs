//! The file system: inodes, the blocks that hold their data, and one directory
//! of named entries.
pub mod checks;
pub mod dir;
pub mod efs;
pub mod file_laws;
pub mod inode_laws;
pub mod laws;
pub mod layout;
pub mod link_counts;
pub mod name_laws;
pub mod vfs;
pub mod volume;
