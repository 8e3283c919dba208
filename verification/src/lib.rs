//! On-disk layout engine of a small block-based filesystem.
//!
//! The crate describes how the content of a file or directory is addressed on
//! a block device: the super block, the inode with its direct and indirect
//! block pointers, and the fixed-size directory entry. Beside it stands the
//! bookkeeping of the files that a task has mapped into its memory.

pub mod device;
pub mod tree;
pub mod tier;
pub mod inode;
pub mod growth;
pub mod io;
pub mod checked;
pub mod super_block;
pub mod dir_entry;
pub mod record;
pub mod laws;
pub mod mmap;
pub mod demand;
