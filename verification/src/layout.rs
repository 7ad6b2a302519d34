//! Geometry of the on-disk format.

use vstd::prelude::*;

verus! {

/// Bytes in one block. A block is one sector of the device.
pub const BLOCKSIZE: usize = 512;

/// Direct block pointers in an inode.
pub const NDIRECT: usize = 12;

/// Largest file, in bytes: every direct block full.
pub const MAX_FILE_SIZE: u32 = 6144;

/// Slots in the inode table.
pub const NUM_INODES: u32 = 200;

/// Bytes in one inode record.
pub const INODE_SIZE: usize = 64;

/// Inode records in one block.
pub const INODES_PER_BLOCK: u32 = 8;

/// Bytes in the name field of a directory entry.
pub const DIRNAME_SIZE: usize = 28;

/// Bytes in one directory entry: the name field and the inode number.
pub const DIRENT_SIZE: usize = 32;

/// Identifier of the device that holds the root directory.
pub const ROOT_DEV: u32 = 0;

/// Inode number of the root directory.
pub const ROOT_INUM: u32 = 0;

/// Sector that holds the superblock.
pub const SUPERBLOCK_ADDR: u32 = 0;

/// First sector of the inode table.
pub const INODE_START: u32 = 1;

/// First sector of the data region.
pub const DATA_START: u32 = 26;

/// Blocks in a freshly formatted filesystem.
pub const FS_SIZE: u32 = 1000;

/// Block number that stands for "no block": it ends the free list and
/// marks an unset direct pointer. It is the superblock's own sector, so
/// it is never a data block.
pub const UNUSED_BLOCKADDR: u32 = 0;

/// Sector of the inode table that holds inode `inum`.
pub open spec fn spec_inode_sector(inum: u32) -> int {
    INODE_START + inum / INODES_PER_BLOCK
}

/// Byte offset of inode `inum` inside its sector.
pub open spec fn spec_inode_offset(inum: u32) -> int {
    (inum % INODES_PER_BLOCK) * INODE_SIZE
}

/// Sector of the inode table that holds inode `inum`.
pub fn inode_sector(inum: u32) -> (s: u32)
    ensures
        s == spec_inode_sector(inum),
        inum < NUM_INODES ==> INODE_START <= s < DATA_START,
{
    INODE_START + inum / INODES_PER_BLOCK
}

/// Byte offset of inode `inum` inside its sector.
pub fn inode_offset_in_sector(inum: u32) -> (off: usize)
    ensures
        off == spec_inode_offset(inum),
        off + INODE_SIZE <= BLOCKSIZE,
        off % INODE_SIZE == 0,
{
    (inum % INODES_PER_BLOCK) as usize * INODE_SIZE
}

/// The geometry is consistent: the inode table fills the sectors between
/// the superblock and the data region, and a full set of direct blocks is
/// the largest file.
pub proof fn law_geometry()
    ensures
        INODES_PER_BLOCK * INODE_SIZE == BLOCKSIZE,
        DATA_START == INODE_START + NUM_INODES / INODES_PER_BLOCK,
        NUM_INODES % INODES_PER_BLOCK == 0,
        MAX_FILE_SIZE == NDIRECT * BLOCKSIZE,
        DIRENT_SIZE == DIRNAME_SIZE + 4,
        BLOCKSIZE % DIRENT_SIZE == 0,
        SUPERBLOCK_ADDR < INODE_START < DATA_START < FS_SIZE,
{
}

} // verus!
