//! The superblock record and its on-disk form.

use vstd::prelude::*;
use crate::bytes::{get_u32, le32, lemma_u32_at_le32, put_u32, splice, u32_at};

verus! {

/// Bytes in the superblock record.
pub const SUPERBLOCK_SIZE: usize = 20;

/// Byte offset of the free-list head inside the superblock record.
pub const FREE_HEAD_OFFSET: usize = 16;

/// The record that describes a filesystem.
#[derive(Debug, Clone, Copy, PartialEq, Eq)]
pub struct SuperBlock {
    /// Bookkeeping counter of used space.
    pub size: u32,
    /// Blocks in the filesystem.
    pub nblocks: u32,
    /// Slots in the inode table.
    pub ninodes: u32,
    /// First sector of the inode table.
    pub inode_start: u32,
    /// First block of the free list, `UNUSED_BLOCKADDR` when there is none.
    pub freelist_start: u32,
}

/// The 20 bytes of a superblock record: its five fields in order, each a
/// 32-bit integer.
pub open spec fn superblock_bytes(sb: SuperBlock) -> Seq<u8> {
    Seq::new(
        SUPERBLOCK_SIZE as nat,
        |j: int|
            if j < 4 {
                le32(sb.size)[j]
            } else if j < 8 {
                le32(sb.nblocks)[j - 4]
            } else if j < 12 {
                le32(sb.ninodes)[j - 8]
            } else if j < 16 {
                le32(sb.inode_start)[j - 12]
            } else {
                le32(sb.freelist_start)[j - 16]
            },
    )
}

/// The superblock that the leading bytes of `rec` hold.
pub open spec fn superblock_of(rec: Seq<u8>) -> SuperBlock {
    SuperBlock {
        size: u32_at(rec, 0),
        nblocks: u32_at(rec, 4),
        ninodes: u32_at(rec, 8),
        inode_start: u32_at(rec, 12),
        freelist_start: u32_at(rec, 16),
    }
}

/// A record holds the superblock that it was made from, whatever follows
/// the record in its sector.
pub proof fn lemma_superblock_round_trip(s: Seq<u8>, sb: SuperBlock)
    requires
        SUPERBLOCK_SIZE <= s.len(),
    ensures
        superblock_of(splice(s, 0, superblock_bytes(sb))) == sb,
{
    let r = splice(s, 0, superblock_bytes(sb));
    lemma_u32_at_le32(r, 0, sb.size);
    lemma_u32_at_le32(r, 4, sb.nblocks);
    lemma_u32_at_le32(r, 8, sb.ninodes);
    lemma_u32_at_le32(r, 12, sb.inode_start);
    lemma_u32_at_le32(r, 16, sb.freelist_start);
}

impl SuperBlock {
    /// Writes the record of this superblock at the start of `buf`.
    pub fn encode(&self, buf: &mut [u8])
        requires
            SUPERBLOCK_SIZE <= old(buf)@.len(),
        ensures
            final(buf)@ == splice(old(buf)@, 0, superblock_bytes(*self)),
    {
        put_u32(buf, 0, self.size);
        put_u32(buf, 4, self.nblocks);
        put_u32(buf, 8, self.ninodes);
        put_u32(buf, 12, self.inode_start);
        put_u32(buf, 16, self.freelist_start);
        assert(buf@ =~= splice(old(buf)@, 0, superblock_bytes(*self)));
    }

    /// Reads the record at the start of `buf`.
    pub fn decode(buf: &[u8]) -> (sb: SuperBlock)
        requires
            SUPERBLOCK_SIZE <= buf@.len(),
        ensures
            sb == superblock_of(buf@),
    {
        SuperBlock {
            size: get_u32(buf, 0),
            nblocks: get_u32(buf, 4),
            ninodes: get_u32(buf, 8),
            inode_start: get_u32(buf, 12),
            freelist_start: get_u32(buf, 16),
        }
    }
}

} // verus!
