//! Formatting: an empty filesystem with a root directory.

use vstd::prelude::*;
use crate::bytes::{le32, lemma_u32_round_trip, splice, u32_at, zeros};
use crate::consistency::{consistent, law_formatted_is_consistent};
use crate::dirent::{dirent_bytes, lemma_dirent_round_trip};
use crate::disk::{wf_image, Disk};
use crate::extent::{end_block, fill_holes, holds_block, holes, owns, written};
use crate::file::{file_bytes, file_data};
use crate::filesystem::{FileSystem, FsError};
use crate::freelist::{
    after_free,
    free_head,
    free_list,
    is_free_chain,
    lemma_chain_frame,
    lemma_free_list_is,
    link_after,
    link_block,
    next_free,
};
use crate::inode::{
    decodes,
    inode_bytes,
    is_unused,
    lemma_decodes_own_bytes,
    Inode,
    InodeType,
};
use crate::inodes::{
    inode_slot,
    lemma_slot_update,
    lemma_stored_inode,
    stored_inode,
    with_inode_slot,
};
use crate::layout::{
    spec_inode_sector,
    BLOCKSIZE,
    DATA_START,
    DIRENT_SIZE,
    FS_SIZE,
    INODE_SIZE,
    INODE_START,
    NDIRECT,
    NUM_INODES,
    ROOT_DEV,
    ROOT_INUM,
    SUPERBLOCK_ADDR,
    UNUSED_BLOCKADDR,
};
use crate::superblock::{
    lemma_superblock_round_trip,
    superblock_bytes,
    superblock_of,
    SuperBlock,
    FREE_HEAD_OFFSET,
};

verus! {

/// The block numbers from `hi - 1` down to `lo`.
pub open spec fn descending(lo: u32, hi: u32) -> Seq<u32> {
    Seq::new((hi - lo) as nat, |i: int| (hi - 1 - i) as u32)
}

/// The record of a free slot is all zero.
pub proof fn lemma_unused_is_zero(ino: Inode)
    requires
        ino.type_ == InodeType::Unused,
        ino.device == 0,
        ino.major == 0,
        ino.minor == 0,
        ino.size == 0,
        forall|i: int| 0 <= i < NDIRECT ==> ino.blocks@[i] == 0,
    ensures
        inode_bytes(ino) == zeros(INODE_SIZE as int),
{
    assert(inode_bytes(ino) =~= zeros(INODE_SIZE as int));
}

impl<T: Disk> FileSystem<T> {
    /// Reads the superblock.
    pub fn read_superblock(&self) -> (r: Result<SuperBlock, FsError>)
        ensures
            match r {
                Ok(sb) => SUPERBLOCK_ADDR < self.image().len() && sb == superblock_of(
                    self.image()[SUPERBLOCK_ADDR as int],
                ),
                Err(e) => e is DeviceError && !(self.disk.reliable() && SUPERBLOCK_ADDR
                    < self.image().len()),
            },
    {
        let block = self.load(SUPERBLOCK_ADDR)?;
        Ok(SuperBlock::decode(block.as_slice()))
    }

    /// Writes `sb` as the superblock; the rest of its sector is set to
    /// zero.
    pub fn write_superblock(&mut self, sb: &SuperBlock) -> (r: Result<(), FsError>)
        ensures
            final(self).image().len() == old(self).image().len(),
            final(self).disk.reliable() == old(self).disk.reliable(),
            match r {
                Ok(()) => SUPERBLOCK_ADDR < old(self).image().len() && final(self).image() == old(
                    self,
                ).image().update(
                    SUPERBLOCK_ADDR as int,
                    splice(zeros(BLOCKSIZE as int), 0, superblock_bytes(*sb)),
                ),
                Err(e) => e is DeviceError && !(old(self).disk.reliable() && SUPERBLOCK_ADDR < old(
                    self,
                ).image().len()),
            },
    {
        let mut block = [0u8;512];
        assert(block@ == zeros(BLOCKSIZE as int));
        sb.encode(&mut block);
        self.store(block.as_slice(), SUPERBLOCK_ADDR)
    }

    /// Writes the unused inode into every slot of the inode table.
    pub fn clear_inodes(&mut self) -> (r: Result<(), FsError>)
        ensures
            final(self).image().len() == old(self).image().len(),
            final(self).disk.reliable() == old(self).disk.reliable(),
            match r {
                Ok(()) => {
                    &&& DATA_START <= old(self).image().len()
                    &&& forall|j: u32|
                        j < NUM_INODES ==> #[trigger] inode_slot(final(self).image(), j) == zeros(
                            INODE_SIZE as int,
                        )
                    &&& forall|x: int|
                        0 <= x < old(self).image().len() && !(INODE_START <= x < DATA_START)
                            ==> #[trigger] final(self).image()[x] == old(self).image()[x]
                },
                Err(e) => e is DeviceError && !(old(self).disk.reliable() && DATA_START <= old(
                    self,
                ).image().len()),
            },
    {
        let unused = Inode::unused();
        proof {
            lemma_unused_is_zero(unused);
        }
        let mut inum: u32 = 0;
        while inum < NUM_INODES
            invariant
                inum <= NUM_INODES,
                self.image().len() == old(self).image().len(),
                self.disk.reliable() == old(self).disk.reliable(),
                inode_bytes(unused) == zeros(INODE_SIZE as int),
                inum > 0 ==> spec_inode_sector((inum - 1) as u32) < self.image().len(),
                forall|j: u32|
                    j < inum ==> #[trigger] inode_slot(self.image(), j) == zeros(INODE_SIZE as int),
                forall|x: int|
                    0 <= x < old(self).image().len() && !(INODE_START <= x < DATA_START)
                        ==> #[trigger] self.image()[x] == old(self).image()[x],
            decreases NUM_INODES - inum,
        {
            let ghost before = self.image();
            match self.update_inode(inum, &unused) {
                Ok(()) => {},
                Err(e) => {
                    return Err(e);
                },
            }
            proof {
                assert forall|j: u32| j < inum + 1 implies #[trigger] inode_slot(self.image(), j)
                    == zeros(INODE_SIZE as int) by {
                    lemma_slot_update(before, inum, zeros(INODE_SIZE as int), j);
                }
                lemma_slot_update(before, inum, zeros(INODE_SIZE as int), inum);
            }
            inum = inum + 1;
        }
        Ok(())
    }

    /// Puts the blocks from `first` up to `end` on the free list, in
    /// rising order, so that the last of them is the new head.
    pub(crate) fn free_range(&mut self, device: u32, first: u32, end: u32) -> (r: Result<(), FsError>)
        requires
            SUPERBLOCK_ADDR < first <= end,
        ensures
            final(self).image().len() == old(self).image().len(),
            final(self).disk.reliable() == old(self).disk.reliable(),
            match r {
                Ok(()) => {
                    &&& first < end ==> end <= old(self).image().len()
                    &&& freed_range(old(self).image(), first, end, final(self).image())
                },
                Err(FsError::DeviceError(_)) => !(old(self).disk.reliable() && end <= old(
                    self,
                ).image().len()),
                Err(_) => false,
            },
    {
        let mut b: u32 = first;
        while b < end
            invariant
                SUPERBLOCK_ADDR < first <= b <= end,
                self.image().len() == old(self).image().len(),
                self.disk.reliable() == old(self).disk.reliable(),
                first < b ==> b <= self.image().len(),
                freed_range(old(self).image(), first, b, self.image()),
            decreases end - b,
        {
            let ghost before = self.image();
            match self.free_block(device, b) {
                Ok(()) => {},
                Err(e) => {
                    return Err(e);
                },
            }
            proof {
                lemma_freed_one_more(old(self).image(), first, b, before);
            }
            b = b + 1;
        }
        Ok(())
    }
}

/// The image `img1` is `img0` after the blocks from `first` up to `end` were
/// freed in rising order: the first word of the first of them links to the
/// old head, that of each other to the block before it, the superblock
/// names the last of them, and nothing else changed.
pub open spec fn freed_range(img0: Seq<Seq<u8>>, first: u32, end: u32, img1: Seq<Seq<u8>>) -> bool {
    &&& img1.len() == img0.len()
    &&& forall|x: int|
        first <= x < end && x < img0.len() ==> #[trigger] img1[x] == link_block(
            img0[x],
            if x == first {
                free_head(img0)
            } else {
                (x - 1) as u32
            },
        )
    &&& forall|x: int|
        0 <= x < img0.len() && x != SUPERBLOCK_ADDR && !(first <= x < end) ==> #[trigger] img1[x]
            == img0[x]
    &&& img1[SUPERBLOCK_ADDR as int] == if first < end {
        splice(img0[SUPERBLOCK_ADDR as int], FREE_HEAD_OFFSET as int, le32((end - 1) as u32))
    } else {
        img0[SUPERBLOCK_ADDR as int]
    }
}

/// One more block freed behind a range that was freed is a longer range
/// freed.
pub proof fn lemma_freed_one_more(img0: Seq<Seq<u8>>, first: u32, b: u32, img1: Seq<Seq<u8>>)
    requires
        wf_image(img0),
        wf_image(img1),
        SUPERBLOCK_ADDR < first <= b,
        b < img0.len(),
        b < u32::MAX,
        freed_range(img0, first, b, img1),
    ensures
        freed_range(img0, first, (b + 1) as u32, after_free(img1, b)),
{
    let out = after_free(img1, b);
    if first < b {
        lemma_u32_round_trip(img0[SUPERBLOCK_ADDR as int], FREE_HEAD_OFFSET as int, (b - 1) as u32);
    }
    assert(free_head(img1) == if b == first {
        free_head(img0)
    } else {
        (b - 1) as u32
    });
    assert(out[SUPERBLOCK_ADDR as int] =~= splice(
        img0[SUPERBLOCK_ADDR as int],
        FREE_HEAD_OFFSET as int,
        le32(b),
    ));
}

/// Blocks freed in rising order stand on the free list in falling order,
/// in front of what the list held.
pub proof fn lemma_freed_range_chain(
    img0: Seq<Seq<u8>>,
    first: u32,
    end: u32,
    img1: Seq<Seq<u8>>,
    s: Seq<u32>,
)
    requires
        wf_image(img0),
        SUPERBLOCK_ADDR < first <= end,
        end <= img0.len(),
        freed_range(img0, first, end, img1),
        is_free_chain(img0, s),
        forall|i: int| 0 <= i < s.len() ==> !(first <= #[trigger] s[i] < end),
    ensures
        is_free_chain(img1, descending(first, end) + s),
{
    let d = descending(first, end);
    let t = d + s;
    if first < end {
        lemma_u32_round_trip(
            img0[SUPERBLOCK_ADDR as int],
            FREE_HEAD_OFFSET as int,
            (end - 1) as u32,
        );
    }
    assert forall|i: int| 0 <= i < t.len() implies #[trigger] next_free(img1, t[i]) == link_after(
        t,
        i,
    ) by {
        if i < d.len() {
            let x = t[i];
            let before = if x == first {
                free_head(img0)
            } else {
                (x - 1) as u32
            };
            assert(img1[x as int] == link_block(img0[x as int], before));
            lemma_u32_round_trip(img0[x as int], 0, before);
            if i + 1 < d.len() {
                assert(t[i + 1] == d[i + 1]);
            } else if s.len() > 0 {
                assert(t[i + 1] == s[0]);
            }
        } else {
            let j = i - d.len();
            assert(t[i] == s[j]);
            assert(next_free(img0, s[j]) == link_after(s, j));
            assert(img1[s[j] as int] == img0[s[j] as int]);
            if j + 1 < s.len() {
                assert(t[i + 1] == s[j + 1]);
            }
        }
    }
    assert forall|i: int, j: int| 0 <= i < j < t.len() implies t[i] != t[j] by {
        if j >= d.len() {
            assert(t[j] == s[j - d.len()]);
            if i >= d.len() {
                assert(t[i] == s[i - d.len()]);
            }
        }
    }
    assert forall|i: int| 0 <= i < t.len() implies (#[trigger] t[i]) != UNUSED_BLOCKADDR && t[i]
        < img1.len() by {
        if i >= d.len() {
            assert(t[i] == s[i - d.len()]);
        }
    }
    if s.len() > 0 && d.len() == 0 {
        assert(t[0] == s[0]);
    }
}

/// The name of a directory in itself.
pub open spec fn dot() -> Seq<u8> {
    seq![46u8]
}

/// The name of the parent of a directory.
pub open spec fn dotdot() -> Seq<u8> {
    seq![46u8, 46u8]
}

/// The superblock records the geometry of a fresh filesystem.
pub open spec fn geometry_recorded(img: Seq<Seq<u8>>) -> bool {
    let sb = superblock_of(img[SUPERBLOCK_ADDR as int]);
    &&& sb.size == 0
    &&& sb.nblocks == FS_SIZE
    &&& sb.ninodes == NUM_INODES
    &&& sb.inode_start == INODE_START
}

/// The inode of the root directory of a fresh filesystem: a directory of
/// two entries in the last block of the filesystem.
pub open spec fn is_fresh_root(ino: Inode) -> bool {
    &&& ino.type_ == InodeType::Directory
    &&& ino.device == ROOT_DEV
    &&& ino.major == 0
    &&& ino.minor == 0
    &&& ino.size == 2 * DIRENT_SIZE
    &&& ino.blocks@[0] == FS_SIZE - 1
    &&& forall|i: int| 1 <= i < NDIRECT ==> ino.blocks@[i] == UNUSED_BLOCKADDR
}

/// The image holds a fresh filesystem: the superblock records the
/// geometry; the free list holds the data blocks but the last, in falling
/// order; inode `ROOT_INUM` is the root directory, with the entries `.` and
/// `..` that both name the root itself; and every other inode is unused.
pub open spec fn formatted(img: Seq<Seq<u8>>) -> bool {
    let root = stored_inode(img, ROOT_INUM);
    &&& wf_image(img)
    &&& FS_SIZE <= img.len()
    &&& geometry_recorded(img)
    &&& is_free_chain(img, descending(DATA_START, (FS_SIZE - 1) as u32))
    &&& decodes(inode_slot(img, ROOT_INUM), root)
    &&& is_fresh_root(root)
    &&& forall|j: u32|
        0 < j < NUM_INODES ==> #[trigger] inode_slot(img, j) == zeros(INODE_SIZE as int)
    &&& file_bytes(img, root) == dirent_bytes(dot(), ROOT_INUM) + dirent_bytes(dotdot(), ROOT_INUM)
}

/// The image holds an inode table of unused inodes, a superblock that
/// records the geometry, and a free list of all the data blocks.
pub open spec fn blank(img: Seq<Seq<u8>>) -> bool {
    &&& wf_image(img)
    &&& FS_SIZE <= img.len()
    &&& geometry_recorded(img)
    &&& is_free_chain(img, descending(DATA_START, FS_SIZE))
    &&& forall|j: u32| j < NUM_INODES ==> #[trigger] inode_slot(img, j) == zeros(INODE_SIZE as int)
}

/// A cleared inode table, then the superblock of a fresh filesystem, then
/// the data blocks freed in rising order: the image is blank.
pub proof fn lemma_blank(
    img1: Seq<Seq<u8>>,
    sb: SuperBlock,
    img2: Seq<Seq<u8>>,
    img3: Seq<Seq<u8>>,
)
    requires
        wf_image(img1),
        wf_image(img3),
        FS_SIZE <= img1.len(),
        forall|j: u32| j < NUM_INODES ==> #[trigger] inode_slot(img1, j) == zeros(INODE_SIZE as int),
        sb == (SuperBlock {
            size: 0,
            nblocks: FS_SIZE,
            ninodes: NUM_INODES,
            inode_start: INODE_START,
            freelist_start: UNUSED_BLOCKADDR,
        }),
        img2 == img1.update(
            SUPERBLOCK_ADDR as int,
            splice(zeros(BLOCKSIZE as int), 0, superblock_bytes(sb)),
        ),
        freed_range(img2, DATA_START, FS_SIZE, img3),
    ensures
        blank(img3),
{
    lemma_superblock_round_trip(zeros(BLOCKSIZE as int), sb);
    let rec2 = img2[SUPERBLOCK_ADDR as int];
    let rec3 = img3[SUPERBLOCK_ADDR as int];
    assert(superblock_of(rec2) == sb);
    assert(free_head(img2) == UNUSED_BLOCKADDR);
    assert(is_free_chain(img2, Seq::<u32>::empty()));
    lemma_freed_range_chain(img2, DATA_START, FS_SIZE, img3, Seq::<u32>::empty());
    assert(descending(DATA_START, FS_SIZE) + Seq::<u32>::empty() == descending(
        DATA_START,
        FS_SIZE,
    ));
    assert(rec3 == splice(rec2, FREE_HEAD_OFFSET as int, le32((FS_SIZE - 1) as u32)));
    assert(u32_at(rec3, 0) == u32_at(rec2, 0));
    assert(u32_at(rec3, 4) == u32_at(rec2, 4));
    assert(u32_at(rec3, 8) == u32_at(rec2, 8));
    assert(u32_at(rec3, 12) == u32_at(rec2, 12));
    assert forall|j: u32| j < NUM_INODES implies #[trigger] inode_slot(img3, j) == zeros(
        INODE_SIZE as int,
    ) by {
        let x = spec_inode_sector(j);
        assert(img3[x] == img2[x]);
        assert(img2[x] == img1[x]);
        assert(inode_slot(img1, j) == zeros(INODE_SIZE as int));
    }
}

/// The inode that the root directory starts from: an empty directory on
/// the root device.
pub open spec fn is_empty_root(ino: Inode) -> bool {
    &&& ino.type_ == InodeType::Directory
    &&& ino.device == ROOT_DEV
    &&& ino.major == 0
    &&& ino.minor == 0
    &&& ino.size == 0
    &&& forall|i: int| 0 <= i < NDIRECT ==> ino.blocks@[i] == UNUSED_BLOCKADDR
}

/// The image is blank but for inode `ROOT_INUM`, which is taken.
pub open spec fn root_taken(img: Seq<Seq<u8>>) -> bool {
    &&& wf_image(img)
    &&& FS_SIZE <= img.len()
    &&& geometry_recorded(img)
    &&& is_free_chain(img, descending(DATA_START, FS_SIZE))
    &&& forall|j: u32|
        0 < j < NUM_INODES ==> #[trigger] inode_slot(img, j) == zeros(INODE_SIZE as int)
}

/// On a blank image the first inode is free, and once the empty root
/// directory is written into it, the pointers of that directory and the
/// free list share the device without overlap.
pub proof fn lemma_root_taken(img3: Seq<Seq<u8>>, empty: Inode, img4: Seq<Seq<u8>>)
    requires
        blank(img3),
        is_empty_root(empty),
        img4 == with_inode_slot(img3, ROOT_INUM, inode_bytes(empty)),
    ensures
        is_unused(inode_slot(img3, ROOT_INUM)),
        root_taken(img4),
        free_list(img4) == descending(DATA_START, FS_SIZE),
        owns(img4, empty.blocks@, descending(DATA_START, FS_SIZE)),
{
    let c = descending(DATA_START, FS_SIZE);
    assert(inode_slot(img3, ROOT_INUM) == zeros(INODE_SIZE as int));
    lemma_slot_update(img3, ROOT_INUM, inode_bytes(empty), ROOT_INUM);
    assert forall|j: u32| 0 < j < NUM_INODES implies #[trigger] inode_slot(img4, j) == zeros(
        INODE_SIZE as int,
    ) by {
        lemma_slot_update(img3, ROOT_INUM, inode_bytes(empty), j);
        assert(inode_slot(img3, j) == zeros(INODE_SIZE as int));
    }
    lemma_chain_frame(img3, img4, c);
    lemma_free_list_is(img4, c);
}

/// The two entries of a fresh root directory, written one behind the other
/// into the empty root directory, and the inode written back: the image
/// holds a fresh filesystem.
pub proof fn lemma_formatted(
    img4: Seq<Seq<u8>>,
    empty: Inode,
    img5: Seq<Seq<u8>>,
    blocks5: Seq<u32>,
    img6: Seq<Seq<u8>>,
    root: Inode,
    img7: Seq<Seq<u8>>,
)
    requires
        root_taken(img4),
        is_empty_root(empty),
        written(
            img4,
            empty.blocks@,
            descending(DATA_START, FS_SIZE),
            0,
            dirent_bytes(dot(), ROOT_INUM),
            img5,
            blocks5,
        ),
        written(
            img5,
            blocks5,
            descending(DATA_START, FS_SIZE).skip(1),
            DIRENT_SIZE as int,
            dirent_bytes(dotdot(), ROOT_INUM),
            img6,
            root.blocks@,
        ),
        root.type_ == InodeType::Directory,
        root.device == ROOT_DEV,
        root.major == 0,
        root.minor == 0,
        root.size == 2 * DIRENT_SIZE,
        img7 == with_inode_slot(img6, ROOT_INUM, inode_bytes(root)),
    ensures
        formatted(img7),
{
    let c = descending(DATA_START, FS_SIZE);
    let rest = c.skip(1);
    let blocks4 = empty.blocks@;
    let e1 = dirent_bytes(dot(), ROOT_INUM);
    let e2 = dirent_bytes(dotdot(), ROOT_INUM);
    lemma_dirent_round_trip(dot(), ROOT_INUM);
    lemma_dirent_round_trip(dotdot(), ROOT_INUM);
    // the first entry fills the hole at pointer 0 with the head of the free list
    assert(end_block(0, e1.len() as int) == 1);
    assert(holes(blocks4, 0, 0) == 0);
    assert(holes(blocks4, 0, 1) == 1);
    assert(fill_holes(blocks4, 0, 0, c) == blocks4);
    assert(blocks5 == blocks4.update(0, c[0]));
    assert(c.skip(1) == rest);
    // the second entry lies in the same block
    assert(end_block(DIRENT_SIZE as int, e2.len() as int) == 1);
    assert(holes(blocks5, 0, 0) == 0);
    assert(holes(blocks5, 0, 1) == 0);
    assert(fill_holes(blocks5, 0, 0, rest) == blocks5);
    assert(root.blocks@ == blocks5);
    assert(rest.skip(0) == rest);
    assert(rest == descending(DATA_START, (FS_SIZE - 1) as u32));
    assert(is_free_chain(img6, rest));
    // the inode goes back into its slot
    lemma_slot_update(img6, ROOT_INUM, inode_bytes(root), ROOT_INUM);
    lemma_decodes_own_bytes(root);
    lemma_stored_inode(img7, ROOT_INUM, root);
    lemma_chain_frame(img6, img7, rest);
    assert forall|j: u32| 0 < j < NUM_INODES implies #[trigger] inode_slot(img7, j) == zeros(
        INODE_SIZE as int,
    ) by {
        lemma_slot_update(img6, ROOT_INUM, inode_bytes(root), j);
        let x = spec_inode_sector(j);
        lemma_not_held(blocks5, x);
        assert(img6[x] == img5[x]);
        assert(img5[x] == img4[x]);
        assert(inode_slot(img4, j) == zeros(INODE_SIZE as int));
    }
    let rec4 = img4[SUPERBLOCK_ADDR as int];
    let rec7 = img7[SUPERBLOCK_ADDR as int];
    assert(rec7 == img6[SUPERBLOCK_ADDR as int]);
    assert(u32_at(rec7, 0) == u32_at(rec4, 0));
    assert(u32_at(rec7, 4) == u32_at(rec4, 4));
    assert(u32_at(rec7, 8) == u32_at(rec4, 8));
    assert(u32_at(rec7, 12) == u32_at(rec4, 12));
    // the directory holds the two entries
    let data4 = file_data(img4, blocks4);
    let data6 = file_data(img6, blocks5);
    assert(data6 == splice(splice(data4, 0, e1), DIRENT_SIZE as int, e2));
    assert(file_data(img7, blocks5) =~= data6) by {
        assert(img7[c[0] as int] == img6[c[0] as int]);
    }
    assert(file_bytes(img7, root) =~= e1 + e2);
}

/// A sector of the inode table is no block of a directory that holds the
/// last block of the filesystem and nothing else.
proof fn lemma_not_held(blocks: Seq<u32>, x: int)
    requires
        blocks.len() == NDIRECT,
        blocks[0] == FS_SIZE - 1,
        forall|i: int| 1 <= i < NDIRECT ==> blocks[i] == UNUSED_BLOCKADDR,
        INODE_START <= x < DATA_START,
    ensures
        !holds_block(blocks, x),
{
}

/// Formats the device: every inode unused, the superblock of a filesystem
/// of `FS_SIZE` blocks, every data block on the free list in rising
/// order, and the root directory in the first inode, with the entries `.`
/// and `..` that both name the root itself.
///
/// On a reliable device of `FS_SIZE` sectors or more the call succeeds, and
/// the filesystem that it leaves is consistent; on a smaller device it
/// fails as the device does.
pub fn mkfs<T: Disk>(fs: &mut FileSystem<T>) -> (r: Result<(), FsError>)
    ensures
        final(fs).image().len() == old(fs).image().len(),
        final(fs).disk.reliable() == old(fs).disk.reliable(),
        match r {
            Ok(()) => formatted(final(fs).image()) && consistent(final(fs).image()),
            Err(FsError::DeviceError(_)) => !(old(fs).disk.reliable() && FS_SIZE <= old(
                fs,
            ).image().len()),
            Err(_) => false,
        },
{
    fs.clear_inodes()?;
    let ghost img1 = fs.image();
    let sb = SuperBlock {
        size: 0,
        nblocks: FS_SIZE,
        ninodes: NUM_INODES,
        inode_start: INODE_START,
        freelist_start: UNUSED_BLOCKADDR,
    };
    fs.write_superblock(&sb)?;
    let ghost img2 = fs.image();
    fs.free_range(ROOT_DEV, DATA_START, FS_SIZE)?;
    let ghost img3 = fs.image();
    proof {
        lemma_blank(img1, sb, img2, img3);
    }
    make_root(fs)
}

/// Puts the root directory on a blank image: the first inode becomes a
/// directory with the entries `.` and `..`.
pub(crate) fn make_root<T: Disk>(fs: &mut FileSystem<T>) -> (r: Result<(), FsError>)
    requires
        blank(old(fs).image()),
    ensures
        final(fs).image().len() == old(fs).image().len(),
        final(fs).disk.reliable() == old(fs).disk.reliable(),
        match r {
            Ok(()) => formatted(final(fs).image()) && consistent(final(fs).image()),
            Err(FsError::DeviceError(_)) => !old(fs).disk.reliable(),
            Err(_) => false,
        },
{
    let ghost img3 = fs.image();
    let ghost c = descending(DATA_START, FS_SIZE);
    let mut root = Inode {
        type_: InodeType::Directory,
        device: ROOT_DEV,
        major: 0,
        minor: 0,
        size: 0,
        blocks: [0u32;12],
    };
    let ghost empty = root;
    proof {
        lemma_root_taken(img3, empty, with_inode_slot(img3, ROOT_INUM, inode_bytes(empty)));
    }
    let inum: u32 = fs.alloc_inode(ROOT_DEV, root)?;
    assert(inum == ROOT_INUM) by {
        if inum != ROOT_INUM {
            assert(!is_unused(inode_slot(img3, ROOT_INUM)));
        }
    }
    let ghost img4 = fs.image();
    let dot_name = [46u8];
    let dotdot_name = [46u8, 46u8];
    assert(dot_name@ == dot());
    assert(dotdot_name@ == dotdot());
    proof {
        assert(holes(empty.blocks@, 0, 0) == 0);
        assert(holes(empty.blocks@, 0, 1) == 1);
        assert(end_block(0, dirent_bytes(dot(), ROOT_INUM).len() as int) == 1);
    }
    fs.dir_add(&mut root, dot_name.as_slice(), ROOT_INUM)?;
    let ghost img5 = fs.image();
    let ghost blocks5 = root.blocks@;
    proof {
        assert(written(img4, empty.blocks@, c, 0, dirent_bytes(dot(), ROOT_INUM), img5, blocks5));
        assert(c.skip(1) == c.skip(holes(empty.blocks@, 0, 1)));
        lemma_free_list_is(img5, c.skip(1));
        assert(holes(blocks5, 0, 0) == 0);
        assert(end_block(
            DIRENT_SIZE as int,
            dirent_bytes(dotdot(), ROOT_INUM).len() as int,
        ) == 1);
    }
    fs.dir_add(&mut root, dotdot_name.as_slice(), ROOT_INUM)?;
    let ghost img6 = fs.image();
    fs.update_inode(ROOT_INUM, &root)?;
    proof {
        lemma_formatted(img4, empty, img5, blocks5, img6, root, fs.image());
        law_formatted_is_consistent(fs.image());
    }
    Ok(())
}

} // verus!
