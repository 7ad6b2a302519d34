//! The inode record and its on-disk form.

use vstd::prelude::*;
use crate::bytes::{
    get_u16,
    get_u32,
    le16,
    le32,
    lemma_u16_at_le16,
    lemma_u32_at_le32,
    put_u16,
    put_u32,
    splice,
    u16_at,
    u32_at,
};
use crate::layout::{INODE_SIZE, MAX_FILE_SIZE, NDIRECT};

verus! {

/// What an inode stands for.
#[derive(Debug, Clone, Copy, PartialEq, Eq)]
pub enum InodeType {
    /// The slot is free.
    Unused,
    /// A regular file.
    File,
    /// A directory: a file whose content is a run of directory entries.
    Directory,
    /// A device special file, named by `major` and `minor`.
    Device,
}

/// One slot of the inode table.
#[derive(Debug, Clone, Copy, PartialEq, Eq)]
pub struct Inode {
    /// What the inode stands for.
    pub type_: InodeType,
    /// Device that the inode lives on.
    pub device: u32,
    /// Major number of a device special file.
    pub major: u16,
    /// Minor number of a device special file.
    pub minor: u16,
    /// Length of the content in bytes.
    pub size: u32,
    /// Block numbers of the content, `UNUSED_BLOCKADDR` where none is set.
    pub blocks: [u32; NDIRECT],
}

/// The number that stands for a type on disk.
pub open spec fn type_tag(t: InodeType) -> u16 {
    match t {
        InodeType::Unused => 0,
        InodeType::File => 1,
        InodeType::Directory => 2,
        InodeType::Device => 3,
    }
}

/// The 64 bytes of an inode record: type, major and minor as 16-bit
/// integers, two zero bytes, then device, size and the direct pointers as
/// 32-bit integers.
pub open spec fn inode_bytes(ino: Inode) -> Seq<u8> {
    Seq::new(
        INODE_SIZE as nat,
        |j: int|
            if j < 2 {
                le16(type_tag(ino.type_))[j]
            } else if j < 4 {
                le16(ino.major)[j - 2]
            } else if j < 6 {
                le16(ino.minor)[j - 4]
            } else if j < 8 {
                0u8
            } else if j < 12 {
                le32(ino.device)[j - 8]
            } else if j < 16 {
                le32(ino.size)[j - 12]
            } else {
                le32(ino.blocks@[(j - 16) / 4])[(j - 16) % 4]
            },
    )
}

/// The record `rec` holds the inode `ino`.
pub open spec fn decodes(rec: Seq<u8>, ino: Inode) -> bool {
    &&& rec.len() == INODE_SIZE
    &&& u16_at(rec, 0) == type_tag(ino.type_)
    &&& u16_at(rec, 2) == ino.major
    &&& u16_at(rec, 4) == ino.minor
    &&& u32_at(rec, 8) == ino.device
    &&& u32_at(rec, 12) == ino.size
    &&& forall|i: int| 0 <= i < NDIRECT ==> u32_at(rec, 16 + 4 * i) == #[trigger] ino.blocks@[i]
}

/// The record `rec` holds some inode: its type field is one of the four
/// known numbers.
pub open spec fn decodable(rec: Seq<u8>) -> bool {
    rec.len() == INODE_SIZE && u16_at(rec, 0) <= 3
}

/// The record `rec` is a free slot.
pub open spec fn is_unused(rec: Seq<u8>) -> bool {
    u16_at(rec, 0) == 0
}

/// A record holds the inode that it was made from.
pub proof fn lemma_decodes_own_bytes(ino: Inode)
    ensures
        decodes(inode_bytes(ino), ino),
        decodable(inode_bytes(ino)),
        is_unused(inode_bytes(ino)) <==> ino.type_ == InodeType::Unused,
{
    let rec = inode_bytes(ino);
    assert(u16_at(rec, 0) == type_tag(ino.type_)) by {
        lemma_u16_at_le16(rec, 0, type_tag(ino.type_));
    }
    assert(u16_at(rec, 2) == ino.major) by {
        lemma_u16_at_le16(rec, 2, ino.major);
    }
    assert(u16_at(rec, 4) == ino.minor) by {
        lemma_u16_at_le16(rec, 4, ino.minor);
    }
    assert(u32_at(rec, 8) == ino.device) by {
        lemma_u32_at_le32(rec, 8, ino.device);
    }
    assert(u32_at(rec, 12) == ino.size) by {
        lemma_u32_at_le32(rec, 12, ino.size);
    }
    assert forall|i: int| 0 <= i < NDIRECT implies u32_at(rec, 16 + 4 * i)
        == #[trigger] ino.blocks@[i] by {
        let b = ino.blocks@[i];
        assert(rec[16 + 4 * i] == le32(b)[0]);
        assert(rec[16 + 4 * i + 1] == le32(b)[1]);
        assert(rec[16 + 4 * i + 2] == le32(b)[2]);
        assert(rec[16 + 4 * i + 3] == le32(b)[3]);
        lemma_u32_at_le32(rec, 16 + 4 * i, b);
    }
}

/// A record holds one inode only.
pub proof fn lemma_decodes_unique(rec: Seq<u8>, a: Inode, b: Inode)
    requires
        decodes(rec, a),
        decodes(rec, b),
    ensures
        a == b,
{
    assert(a.blocks =~= b.blocks);
}

impl Inode {
    /// The invariant of an inode: its size is one that its direct blocks
    /// can hold.
    pub open spec fn wf(self) -> bool {
        self.size <= MAX_FILE_SIZE
    }

    /// The inode of a free slot: every field zero.
    pub fn unused() -> (ino: Inode)
        ensures
            ino.type_ == InodeType::Unused,
            ino.device == 0,
            ino.major == 0,
            ino.minor == 0,
            ino.size == 0,
            forall|i: int| 0 <= i < NDIRECT ==> ino.blocks@[i] == 0,
            ino.wf(),
    {
        Inode {
            type_: InodeType::Unused,
            device: 0,
            major: 0,
            minor: 0,
            size: 0,
            blocks: [0u32;12],
        }
    }

    /// Writes the record of this inode into `buf` from `at` on.
    pub fn encode(&self, buf: &mut [u8], at: usize)
        requires
            at + INODE_SIZE <= old(buf)@.len(),
        ensures
            final(buf)@ == splice(old(buf)@, at as int, inode_bytes(*self)),
    {
        let size: usize = buf.len();
        let tag: u16 = match self.type_ {
            InodeType::Unused => 0,
            InodeType::File => 1,
            InodeType::Directory => 2,
            InodeType::Device => 3,
        };
        let ghost rec = inode_bytes(*self);
        put_u16(buf, at, tag);
        put_u16(buf, at + 2, self.major);
        put_u16(buf, at + 4, self.minor);
        buf[at + 6] = 0;
        buf[at + 7] = 0;
        put_u32(buf, at + 8, self.device);
        put_u32(buf, at + 12, self.size);
        assert(buf@ == splice(old(buf)@, at as int, rec.take(16)));
        let mut i: usize = 0;
        while i < NDIRECT
            invariant
                i <= NDIRECT,
                at + INODE_SIZE <= size,
                buf@.len() == size,
                old(buf)@.len() == size,
                rec == inode_bytes(*self),
                buf@ == splice(old(buf)@, at as int, rec.take(16 + 4 * i)),
            decreases NDIRECT - i,
        {
            let ghost before = buf@;
            put_u32(buf, at + 16 + 4 * i, self.blocks[i]);
            assert(buf@ == splice(old(buf)@, at as int, rec.take(16 + 4 * (i + 1)))) by {
                let b = self.blocks@[i as int];
                assert(rec[16 + 4 * i] == le32(b)[0]);
                assert(rec[16 + 4 * i + 1] == le32(b)[1]);
                assert(rec[16 + 4 * i + 2] == le32(b)[2]);
                assert(rec[16 + 4 * i + 3] == le32(b)[3]);
            }
            i = i + 1;
        }
        assert(rec.take(64) == rec);
    }

    /// Reads the record that starts at `at` in `buf`. `None` when its type
    /// field holds no known number.
    pub fn decode(buf: &[u8], at: usize) -> (r: Option<Inode>)
        requires
            at + INODE_SIZE <= buf@.len(),
        ensures
            match r {
                Some(ino) => decodes(buf@.subrange(at as int, at + INODE_SIZE), ino),
                None => !decodable(buf@.subrange(at as int, at + INODE_SIZE)),
            },
    {
        let ghost rec = buf@.subrange(at as int, at + INODE_SIZE);
        let total: usize = buf.len();
        let tag: u16 = get_u16(buf, at);
        let type_ = if tag == 0 {
            InodeType::Unused
        } else if tag == 1 {
            InodeType::File
        } else if tag == 2 {
            InodeType::Directory
        } else if tag == 3 {
            InodeType::Device
        } else {
            return None;
        };
        let major: u16 = get_u16(buf, at + 2);
        let minor: u16 = get_u16(buf, at + 4);
        let device: u32 = get_u32(buf, at + 8);
        let size: u32 = get_u32(buf, at + 12);
        let mut blocks = [0u32;12];
        let mut i: usize = 0;
        while i < NDIRECT
            invariant
                i <= NDIRECT,
                at + INODE_SIZE <= total,
                buf@.len() == total,
                rec == buf@.subrange(at as int, at + INODE_SIZE),
                forall|k: int| 0 <= k < i ==> u32_at(rec, 16 + 4 * k) == #[trigger] blocks@[k],
            decreases NDIRECT - i,
        {
            blocks[i] = get_u32(buf, at + 16 + 4 * i);
            i = i + 1;
        }
        Some(Inode { type_, device, major, minor, size, blocks })
    }
}

} // verus!
