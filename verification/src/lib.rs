//! The verified core of a small kernel: a block-device filesystem engine
//! with machine-checked contracts, and the few rules of the boot sequence
//! that are plain computation.
//!
//! The engine keeps a superblock, a fixed table of inodes and a free list
//! threaded through the free blocks themselves, all on a device that is
//! reached through the [`disk::Disk`] capability. [`format::mkfs`] makes a
//! filesystem, [`seed::write_file`] puts a file into it, and the methods
//! of [`filesystem::FileSystem`] read and change it. What holds of all of
//! them together is proved in [`laws`] and [`consistency`].

pub mod bytes;
pub mod consistency;
pub mod directory;
pub mod dirent;
pub mod disk;
pub mod extent;
pub mod file;
pub mod filesystem;
pub mod format;
pub mod freelist;
pub mod inode;
pub mod inodes;
pub mod laws;
pub mod layout;
pub mod logger;
pub mod paging;
pub mod path;
pub mod pcibar;
pub mod seed;
pub mod superblock;
pub mod uptime;
