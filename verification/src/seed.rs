//! Seeding: a new file in the root directory.

use vstd::prelude::*;
use vstd::slice::slice_subrange;
use crate::consistency::{
    fresh_pointers,
    lemma_fill_fresh,
    block_of,
    consistent,
    fits_slot,
    in_data_region,
    lemma_consistent_owns,
    lemma_data_untouched,
    lemma_holes_of_fresh,
    lemma_store_inode,
    lemma_write_consistent,
};
use crate::dirent::dirent_bytes;
use crate::disk::Disk;
use crate::extent::{end_block, fill_holes, holes, owns, written};
use crate::consistency::same_inodes;
use crate::file::{clipped, file_bytes, file_data, ran_out_at, same_identity, write_result};
use crate::filesystem::{FileSystem, FsError};
use crate::freelist::free_list;
use crate::inode::{inode_bytes, Inode, InodeType};
use crate::inodes::{
    all_in_use,
    first_free_inode,
    inode_at,
    inode_slot,
    is_first_free,
    lemma_first_free,
    lemma_stored_inode,
    stored_inode,
    with_inode_slot,
};
use crate::layout::{
    BLOCKSIZE,
    DATA_START,
    DIRENT_SIZE,
    DIRNAME_SIZE,
    MAX_FILE_SIZE,
    NDIRECT,
    NUM_INODES,
    ROOT_DEV,
    ROOT_INUM,
    UNUSED_BLOCKADDR,
};

verus! {

/// The name that a file of path `path` gets in the root directory: the
/// leading bytes of the path, as many as the name field holds.
pub open spec fn entry_name(path: Seq<u8>) -> Seq<u8> {
    if path.len() <= DIRNAME_SIZE {
        path
    } else {
        path.take(DIRNAME_SIZE as int)
    }
}

/// The leading bytes of `path` that fit the name field of a directory
/// entry.
pub fn truncate_name(path: &[u8]) -> (name: &[u8])
    ensures
        name@ == entry_name(path@),
{
    if path.len() <= DIRNAME_SIZE {
        assert(path@.subrange(0, path@.len() as int) == path@);
        slice_subrange(path, 0, path.len())
    } else {
        slice_subrange(path, 0, DIRNAME_SIZE)
    }
}

/// Whether the root inode of the image is a directory on the root
/// device.
pub open spec fn has_root(img: Seq<Seq<u8>>) -> bool {
    inode_at(img, ROOT_DEV, ROOT_INUM) matches Ok(root) && root.type_ == InodeType::Directory
}

/// The inode that a new file starts from: a file without content on the
/// root device.
pub open spec fn is_empty_file(ino: Inode) -> bool {
    &&& ino.type_ == InodeType::File
    &&& ino.device == ROOT_DEV
    &&& ino.major == 0
    &&& ino.minor == 0
    &&& ino.size == 0
    &&& forall|i: int| 0 <= i < NDIRECT ==> ino.blocks@[i] == UNUSED_BLOCKADDR
}

/// How many bytes of a directory entry have room behind `size` bytes of a
/// directory.
pub open spec fn entry_room(size: u32) -> int {
    if size >= MAX_FILE_SIZE {
        0
    } else if size + DIRENT_SIZE <= MAX_FILE_SIZE {
        DIRENT_SIZE as int
    } else {
        MAX_FILE_SIZE - size
    }
}

/// How many blocks of the free list an entry appended to the root
/// directory of the image takes: one where the entry starts a new block,
/// else none; none either where the directory is full.
pub open spec fn blocks_to_link(img: Seq<Seq<u8>>) -> int {
    let root = stored_inode(img, ROOT_INUM);
    holes(
        root.blocks@,
        root.size as int / (BLOCKSIZE as int),
        end_block(root.size as int, entry_room(root.size)),
    )
}

/// How many blocks of the free list it takes to seed a file of `len` bytes
/// on the image: one for each block of the file, and what its entry in the
/// root directory takes.
pub open spec fn blocks_to_seed(img: Seq<Seq<u8>>, len: int) -> int {
    end_block(0, len) + blocks_to_link(img)
}

/// Every inode but `inum`, and the content of its file, is on `img1` what
/// it was on `img0`.
pub open spec fn others_kept(img0: Seq<Seq<u8>>, inum: u32, img1: Seq<Seq<u8>>) -> bool {
    forall|a: u32|
        a < NUM_INODES && a != inum ==> #[trigger] inode_slot(img1, a) == inode_slot(img0, a)
            && file_data(img1, stored_inode(img0, a).blocks@) == file_data(
            img0,
            stored_inode(img0, a).blocks@,
        )
}

/// The image `img1` is the consistent image `img0` with a new file in slot
/// `inum`: the slot holds a file on the root device with the content
/// `content`, whose blocks are the first blocks of the free list as it
/// was, one for each block of the content and in their order; the free
/// list has lost these blocks; the filesystem is consistent; and every
/// other inode and its content is what it was.
pub open spec fn stored(img0: Seq<Seq<u8>>, inum: u32, content: Seq<u8>, img1: Seq<Seq<u8>>) -> bool {
    let file = stored_inode(img1, inum);
    &&& consistent(img1)
    &&& img1.len() == img0.len()
    &&& inum < NUM_INODES
    &&& file.type_ == InodeType::File
    &&& file.device == ROOT_DEV
    &&& file.major == 0
    &&& file.minor == 0
    &&& file.size == content.len()
    &&& file.blocks@ == fresh_pointers(free_list(img0), end_block(0, content.len() as int))
    &&& file_bytes(img1, file) == content
    &&& end_block(0, content.len() as int) <= free_list(img0).len()
    &&& free_list(img1) == free_list(img0).skip(end_block(0, content.len() as int))
    &&& others_kept(img0, inum, img1)
}

/// The image `img1` is the consistent image `img0` with one more entry in
/// the root directory: the entry that gives `name` to inode `inum` stands
/// behind the entries that the directory had; where the entry starts a
/// new block, that block is the head of the free list as it was, and the
/// free list has lost it; the filesystem is consistent; and every other
/// inode and its content is what it was.
pub open spec fn linked(img0: Seq<Seq<u8>>, name: Seq<u8>, inum: u32, img1: Seq<Seq<u8>>) -> bool {
    let root0 = stored_inode(img0, ROOT_INUM);
    let root1 = stored_inode(img1, ROOT_INUM);
    &&& consistent(img1)
    &&& img1.len() == img0.len()
    &&& same_identity(root1, root0)
    &&& root1.size == root0.size + DIRENT_SIZE
    &&& root1.blocks@ == fill_holes(
        root0.blocks@,
        root0.size as int / (BLOCKSIZE as int),
        end_block(root0.size as int, DIRENT_SIZE as int),
        free_list(img0),
    )
    &&& file_bytes(img1, root1) == file_bytes(img0, root0) + dirent_bytes(name, inum)
    &&& 0 <= blocks_to_link(img0) <= free_list(img0).len()
    &&& free_list(img1) == free_list(img0).skip(blocks_to_link(img0))
    &&& others_kept(img0, ROOT_INUM, img1)
}

/// The image `img1` is the consistent image `img0` with one more file: the
/// first free inode of `img0` is a file that holds `content`, in the first
/// blocks of the free list as it was; the root directory has grown by the
/// entry that gives `name` to that inode, behind the entries that it had,
/// and where the entry starts a new block that block is the next of the
/// free list; the free list had these blocks and has lost them; the
/// filesystem is consistent; and every other inode, and the content of its
/// file, is what it was.
pub open spec fn seeded(img0: Seq<Seq<u8>>, name: Seq<u8>, content: Seq<u8>, img1: Seq<Seq<u8>>) -> bool {
    let inum = first_free_inode(img0);
    let file = stored_inode(img1, inum);
    let root0 = stored_inode(img0, ROOT_INUM);
    let root1 = stored_inode(img1, ROOT_INUM);
    &&& consistent(img1)
    &&& is_first_free(img0, inum)
    &&& inum != ROOT_INUM
    &&& file.type_ == InodeType::File
    &&& file.device == ROOT_DEV
    &&& file.major == 0
    &&& file.minor == 0
    &&& file.size == content.len()
    &&& file.blocks@ == fresh_pointers(free_list(img0), end_block(0, content.len() as int))
    &&& file_bytes(img1, file) == content
    &&& same_identity(root1, root0)
    &&& root1.size == root0.size + DIRENT_SIZE
    &&& root1.blocks@ == fill_holes(
        root0.blocks@,
        root0.size as int / (BLOCKSIZE as int),
        end_block(root0.size as int, DIRENT_SIZE as int),
        free_list(img0).skip(end_block(0, content.len() as int)),
    )
    &&& file_bytes(img1, root1) == file_bytes(img0, root0) + dirent_bytes(name, inum)
    &&& 0 <= blocks_to_link(img0)
    &&& blocks_to_seed(img0, content.len() as int) <= free_list(img0).len()
    &&& free_list(img1) == free_list(img0).skip(blocks_to_seed(img0, content.len() as int))
    &&& forall|a: u32|
        a < NUM_INODES && a != ROOT_INUM && a != inum ==> #[trigger] inode_slot(img1, a)
            == inode_slot(img0, a) && file_data(img1, stored_inode(img0, a).blocks@) == file_data(
            img0,
            stored_inode(img0, a).blocks@,
        )
}

/// Every inode but `inum`, and the content of its file, is on `img1` what
/// it was on `img0`: each slot holds the same record, and each file reads
/// the same up to its size.
pub open spec fn files_kept(img0: Seq<Seq<u8>>, inum: u32, img1: Seq<Seq<u8>>) -> bool {
    forall|a: u32|
        a < NUM_INODES && a != inum ==> #[trigger] inode_slot(img1, a) == inode_slot(img0, a)
            && file_bytes(img1, stored_inode(img0, a)) == file_bytes(img0, stored_inode(img0, a))
}

/// What a failed attempt to store a file leaves of the consistent image
/// `img0`: the filesystem is consistent, the first free slot of `img0` holds
/// a file without content and without blocks, and every other inode and
/// its content is what it was. Blocks that the attempt took are lost to
/// the free list.
pub open spec fn store_failed(img0: Seq<Seq<u8>>, img1: Seq<Seq<u8>>) -> bool {
    let inum = first_free_inode(img0);
    &&& consistent(img1)
    &&& img1.len() == img0.len()
    &&& is_empty_file(stored_inode(img1, inum))
    &&& others_kept(img0, inum, img1)
}

/// What a failed attempt to add an entry to the root directory leaves of
/// the consistent image `img0`: the filesystem is consistent, every slot of
/// the inode table holds what it held, so that the root directory is no
/// longer than it was, the root directory reads as it did, and every
/// other inode and its content is what it was. Where the root directory
/// was a run of whole entries nothing changed at all.
pub open spec fn link_failed(img0: Seq<Seq<u8>>, img1: Seq<Seq<u8>>) -> bool {
    let root0 = stored_inode(img0, ROOT_INUM);
    &&& consistent(img1)
    &&& img1.len() == img0.len()
    &&& same_inodes(img0, img1)
    &&& others_kept(img0, ROOT_INUM, img1)
    &&& file_bytes(img1, root0) == file_bytes(img0, root0)
    &&& root0.size % (DIRENT_SIZE as u32) == 0 ==> img1 == img0
}

/// What a failed attempt to seed a file leaves of the consistent image
/// `img0`: the filesystem is consistent, and every inode but the first free
/// one of `img0`, the root directory among them, and the content of its
/// file is what it was.
pub open spec fn seed_failed(img0: Seq<Seq<u8>>, img1: Seq<Seq<u8>>) -> bool {
    &&& consistent(img1)
    &&& img1.len() == img0.len()
    &&& files_kept(img0, first_free_inode(img0), img1)
}

/// What storing a new file of content `content` comes to on a consistent
/// image `img0`: the result `r` and the image `img1`. `reliable` says
/// whether the device is reliable.
pub open spec fn store_result(
    img0: Seq<Seq<u8>>,
    reliable: bool,
    content: Seq<u8>,
    r: Result<u32, FsError>,
    img1: Seq<Seq<u8>>,
) -> bool {
    &&& all_in_use(img0, NUM_INODES) ==> img1 == img0 && (r == Err::<u32, FsError>(
        FsError::OutOfSpace,
    ) || r matches Err(FsError::DeviceError(_)))
    &&& match r {
        Ok(inum) => is_first_free(img0, inum) && stored(img0, inum, content, img1),
        Err(FsError::OutOfSpace) => (all_in_use(img0, NUM_INODES) && img1 == img0) || (
        !all_in_use(img0, NUM_INODES) && free_list(img0).len() < end_block(
            0,
            clipped(0, content).len() as int,
        ) && store_failed(img0, img1)),
        Err(FsError::FileTooLarge) => !all_in_use(img0, NUM_INODES) && content.len()
            > MAX_FILE_SIZE && NDIRECT <= free_list(img0).len() && store_failed(img0, img1),
        Err(FsError::DeviceError(_)) => !reliable,
        Err(_) => false,
    }
}

/// What adding the entry that gives `name` to inode `inum` to the root
/// directory comes to on a consistent image `img0` with a root directory:
/// the result `r` and the image `img1`. `reliable` says whether the device
/// is reliable.
pub open spec fn link_result(
    img0: Seq<Seq<u8>>,
    reliable: bool,
    name: Seq<u8>,
    inum: u32,
    r: Result<(), FsError>,
    img1: Seq<Seq<u8>>,
) -> bool {
    let root = stored_inode(img0, ROOT_INUM);
    match r {
        Ok(()) => linked(img0, name, inum, img1),
        Err(FsError::OutOfSpace) => free_list(img0).len() < blocks_to_link(img0) && link_failed(
            img0,
            img1,
        ),
        Err(FsError::FileTooLarge) => root.size + DIRENT_SIZE > MAX_FILE_SIZE && blocks_to_link(
            img0,
        ) <= free_list(img0).len() && link_failed(img0, img1),
        Err(FsError::DeviceError(_)) => !reliable,
        Err(_) => false,
    }
}

/// What seeding a file of content `content` under `name` comes to on a
/// consistent image `img0` with a root directory: the result `r` and the
/// image `img1`. `reliable` says whether the device is reliable.
///
/// On a reliable device the call succeeds where an inode is free, the
/// content is no longer than a file can be, the root directory has room
/// for one more entry, and the free list has the blocks that it takes.
/// With no inode free it fails with `OutOfSpace`, or as the device does,
/// and changes nothing. Else it fails with `OutOfSpace` where the free
/// list has not the blocks of the content, or not the block of the entry
/// behind them; and with `FileTooLarge` where the free list has the blocks
/// but the content is too long or the root directory is full. A call that
/// fails for want of room leaves the root directory and every file that
/// was there as they were.
pub open spec fn seed_result(
    img0: Seq<Seq<u8>>,
    reliable: bool,
    name: Seq<u8>,
    content: Seq<u8>,
    r: Result<(), FsError>,
    img1: Seq<Seq<u8>>,
) -> bool {
    let root = stored_inode(img0, ROOT_INUM);
    &&& all_in_use(img0, NUM_INODES) ==> img1 == img0 && (r == Err::<(), FsError>(
        FsError::OutOfSpace,
    ) || r matches Err(FsError::DeviceError(_)))
    &&& match r {
        Ok(()) => seeded(img0, name, content, img1),
        Err(FsError::OutOfSpace) => (all_in_use(img0, NUM_INODES) && img1 == img0) || (
        !all_in_use(img0, NUM_INODES) && seed_failed(img0, img1) && (free_list(img0).len()
            < end_block(0, clipped(0, content).len() as int) || (content.len() <= MAX_FILE_SIZE
            && free_list(img0).len() < blocks_to_seed(img0, content.len() as int)))),
        Err(FsError::FileTooLarge) => !all_in_use(img0, NUM_INODES) && seed_failed(img0, img1)
            && if content.len() > MAX_FILE_SIZE {
            NDIRECT <= free_list(img0).len()
        } else {
            root.size + DIRENT_SIZE > MAX_FILE_SIZE && blocks_to_seed(
                img0,
                content.len() as int,
            ) <= free_list(img0).len()
        },
        Err(FsError::DeviceError(_)) => !reliable,
        Err(_) => false,
    }
}

/// The first step of seeding: the empty file written into a free slot
/// keeps the filesystem consistent, and its pointers and the free list
/// share the device without overlap.
pub proof fn lemma_seed_start(img0: Seq<Seq<u8>>, empty: Inode, inum: u32, img1: Seq<Seq<u8>>)
    requires
        consistent(img0),
        inum < NUM_INODES,
        is_empty_file(empty),
        img1 == with_inode_slot(img0, inum, inode_bytes(empty)),
    ensures
        consistent(img1),
        img1.len() == img0.len(),
        free_list(img1) == free_list(img0),
        stored_inode(img1, inum) == empty,
        owns(img1, empty.blocks@, free_list(img1)),
        fits_slot(img1, inum, empty.blocks@),
        forall|a: u32|
            a < NUM_INODES && a != inum ==> #[trigger] inode_slot(img1, a) == inode_slot(img0, a),
        forall|x: int| DATA_START <= x < img0.len() ==> #[trigger] img1[x] == img0[x],
{
    assert(fits_slot(img0, inum, empty.blocks@));
    lemma_store_inode(img0, inum, empty);
    lemma_consistent_owns(img1, inum);
}

/// The content that pointers into the data region reach is the same on two
/// images with the same data region.
pub proof fn lemma_same_data_region(img1: Seq<Seq<u8>>, img2: Seq<Seq<u8>>, blocks: Seq<u32>)
    requires
        img2.len() == img1.len(),
        blocks.len() == NDIRECT,
        in_data_region(blocks, img1.len() as int),
        forall|x: int| DATA_START <= x < img1.len() ==> #[trigger] img2[x] == img1[x],
    ensures
        file_data(img2, blocks) == file_data(img1, blocks),
{
    assert forall|p: int| 0 <= p < MAX_FILE_SIZE implies file_data(img2, blocks)[p] == file_data(
        img1,
        blocks,
    )[p] by {
        let b = blocks[p / (BLOCKSIZE as int)];
        if b != UNUSED_BLOCKADDR {
            assert(img2[b as int] == img1[b as int]);
        }
    }
    assert(file_data(img2, blocks) =~= file_data(img1, blocks));
}

/// A write into the inode of slot `inum`, and the inode written back into
/// its slot: the filesystem stays consistent, the slot holds the inode,
/// the content that the inode reaches holds the bytes `d` at `offset` and is
/// elsewhere what the old pointers reached, the free list has lost the
/// blocks that were handed out, and every other inode and its content is
/// what it was.
pub proof fn lemma_write_back(
    img1: Seq<Seq<u8>>,
    inum: u32,
    ino1: Inode,
    offset: int,
    d: Seq<u8>,
    img2: Seq<Seq<u8>>,
    ino2: Inode,
    img3: Seq<Seq<u8>>,
)
    requires
        consistent(img1),
        inum < NUM_INODES,
        stored_inode(img1, inum) == ino1,
        0 <= offset,
        end_block(offset, d.len() as int) <= NDIRECT,
        written(img1, ino1.blocks@, free_list(img1), offset, d, img2, ino2.blocks@),
        ino2.size <= MAX_FILE_SIZE,
        img3 == with_inode_slot(img2, inum, inode_bytes(ino2)),
    ensures
        consistent(img3),
        img3.len() == img1.len(),
        stored_inode(img3, inum) == ino2,
        ino2.blocks@ == fill_holes(
            ino1.blocks@,
            offset / (BLOCKSIZE as int),
            end_block(offset, d.len() as int),
            free_list(img1),
        ),
        file_data(img3, ino2.blocks@) == crate::bytes::splice(
            file_data(img1, ino1.blocks@),
            offset,
            d,
        ),
        holes(ino1.blocks@, offset / (BLOCKSIZE as int), end_block(offset, d.len() as int))
            <= free_list(img1).len(),
        free_list(img3) == free_list(img1).skip(
            holes(ino1.blocks@, offset / (BLOCKSIZE as int), end_block(offset, d.len() as int)),
        ),
        forall|a: u32|
            a < NUM_INODES && a != inum ==> #[trigger] inode_slot(img3, a) == inode_slot(img1, a)
                && file_data(img3, stored_inode(img1, a).blocks@) == file_data(
                img1,
                stored_inode(img1, a).blocks@,
            ),
{
    lemma_consistent_owns(img1, inum);
    lemma_write_consistent(img1, inum, ino1.blocks@, offset, d, img2, ino2.blocks@);
    lemma_store_inode(img2, inum, ino2);
    lemma_same_data_region(img2, img3, ino2.blocks@);
    assert forall|a: u32| a < NUM_INODES && a != inum implies #[trigger] inode_slot(img3, a)
        == inode_slot(img1, a) && file_data(img3, stored_inode(img1, a).blocks@) == file_data(
        img1,
        stored_inode(img1, a).blocks@,
    ) by {
        let blocks = stored_inode(img1, a).blocks@;
        lemma_consistent_owns(img1, a);
        assert(inode_slot(img2, a) == inode_slot(img1, a));
        assert(inode_slot(img3, a) == inode_slot(img2, a));
        assert forall|i: int, j: int|
            0 <= i < NDIRECT && 0 <= j < ino2.blocks@.len() && blocks[i]
                != UNUSED_BLOCKADDR implies #[trigger] blocks[i] != #[trigger] ino2.blocks@[j] by {
            if ino2.blocks@[j] != UNUSED_BLOCKADDR {
                assert(ino2.blocks@[j] != block_of(img2, a, i));
            }
        }
        lemma_data_untouched(img1, img2, ino2.blocks@, blocks);
        lemma_same_data_region(img2, img3, blocks);
    }
}

/// A write into the inode of slot `inum` that is not written back: the
/// filesystem stays consistent, no slot of the inode table changes, every
/// other inode reaches the content that it reached, and what the old
/// pointers reach in front of the write is what it was.
pub proof fn lemma_write_keeps_others(
    img1: Seq<Seq<u8>>,
    inum: u32,
    offset: int,
    d: Seq<u8>,
    img2: Seq<Seq<u8>>,
    blocks2: Seq<u32>,
)
    requires
        consistent(img1),
        inum < NUM_INODES,
        0 <= offset,
        end_block(offset, d.len() as int) <= NDIRECT,
        written(
            img1,
            stored_inode(img1, inum).blocks@,
            free_list(img1),
            offset,
            d,
            img2,
            blocks2,
        ),
    ensures
        consistent(img2),
        img2.len() == img1.len(),
        same_inodes(img1, img2),
        others_kept(img1, inum, img2),
        forall|p: int|
            0 <= p < offset && p < MAX_FILE_SIZE ==> file_data(
                img2,
                stored_inode(img1, inum).blocks@,
            )[p] == file_data(img1, stored_inode(img1, inum).blocks@)[p],
{
    let blocks1 = stored_inode(img1, inum).blocks@;
    let lo = offset / (BLOCKSIZE as int);
    let hi = end_block(offset, d.len() as int);
    lemma_consistent_owns(img1, inum);
    lemma_write_consistent(img1, inum, blocks1, offset, d, img2, blocks2);
    crate::extent::lemma_fill_holes_frame(blocks1, lo, hi, free_list(img1));
    assert forall|a: u32| a < NUM_INODES && a != inum implies #[trigger] inode_slot(img2, a)
        == inode_slot(img1, a) && file_data(img2, stored_inode(img1, a).blocks@) == file_data(
        img1,
        stored_inode(img1, a).blocks@,
    ) by {
        let blocks = stored_inode(img1, a).blocks@;
        lemma_consistent_owns(img1, a);
        assert(inode_slot(img2, a) == inode_slot(img1, a));
        assert forall|i: int, j: int|
            0 <= i < NDIRECT && 0 <= j < blocks2.len() && blocks[i]
                != UNUSED_BLOCKADDR implies #[trigger] blocks[i] != #[trigger] blocks2[j] by {
            if blocks2[j] != UNUSED_BLOCKADDR {
                assert(blocks2[j] != block_of(img2, a, i));
            }
        }
        lemma_data_untouched(img1, img2, blocks2, blocks);
    }
    let after = file_data(img2, blocks2);
    let before = file_data(img1, blocks1);
    assert forall|p: int| 0 <= p < offset && p < MAX_FILE_SIZE implies file_data(
        img2,
        blocks1,
    )[p] == before[p] by {
        let q = p / (BLOCKSIZE as int);
        if blocks1[q] != UNUSED_BLOCKADDR {
            assert(blocks2[q] == blocks1[q]);
            assert(file_data(img2, blocks1)[p] == after[p]);
            assert(after[p] == before[p]);
        }
    }
}

/// A write that failed for want of room while a file was stored leaves
/// the image as a failed attempt to store a file does.
pub proof fn lemma_store_failed(
    img0: Seq<Seq<u8>>,
    empty: Inode,
    inum: u32,
    img1: Seq<Seq<u8>>,
    reliable: bool,
    content: Seq<u8>,
    r: Result<usize, FsError>,
    img2: Seq<Seq<u8>>,
    ino2: Inode,
)
    requires
        consistent(img0),
        is_first_free(img0, inum),
        is_empty_file(empty),
        img1 == with_inode_slot(img0, inum, inode_bytes(empty)),
        write_result(img1, empty, reliable, 0, content, r, img2, ino2),
        r == Err::<usize, FsError>(FsError::FileTooLarge) || r == Err::<usize, FsError>(
            FsError::OutOfSpace,
        ),
    ensures
        store_failed(img0, img2),
{
    lemma_first_free(img0, inum);
    lemma_seed_start(img0, empty, inum, img1);
    let chain = free_list(img1);
    let d = if r == Err::<usize, FsError>(FsError::FileTooLarge) {
        clipped(0, content)
    } else {
        content.take(
            choose|m: int|
                #[trigger] ran_out_at(img1, empty.blocks@, chain, 0, content, m, img2, ino2.blocks@),
        )
    };
    assert(written(img1, empty.blocks@, chain, 0, d, img2, ino2.blocks@));
    lemma_write_keeps_others(img1, inum, 0, d, img2, ino2.blocks@);
    assert(inode_slot(img2, inum) == inode_slot(img1, inum));
    assert forall|a: u32| a < NUM_INODES && a != inum implies #[trigger] inode_slot(img2, a)
        == inode_slot(img0, a) && file_data(img2, stored_inode(img0, a).blocks@) == file_data(
        img0,
        stored_inode(img0, a).blocks@,
    ) by {
        let blocks = stored_inode(img0, a).blocks@;
        lemma_consistent_owns(img0, a);
        assert(inode_slot(img1, a) == inode_slot(img0, a));
        assert(inode_slot(img2, a) == inode_slot(img1, a));
        lemma_same_data_region(img0, img1, blocks);
    }
}

/// A write that failed for want of room while an entry was added to the
/// root directory leaves the image as a failed attempt to add an entry
/// does.
pub proof fn lemma_link_failed(
    img0: Seq<Seq<u8>>,
    reliable: bool,
    entry: Seq<u8>,
    r: Result<usize, FsError>,
    img1: Seq<Seq<u8>>,
    root1: Inode,
)
    requires
        consistent(img0),
        entry.len() == DIRENT_SIZE,
        write_result(
            img0,
            stored_inode(img0, ROOT_INUM),
            reliable,
            stored_inode(img0, ROOT_INUM).size,
            entry,
            r,
            img1,
            root1,
        ),
        r == Err::<usize, FsError>(FsError::FileTooLarge) || r == Err::<usize, FsError>(
            FsError::OutOfSpace,
        ),
    ensures
        link_failed(img0, img1),
{
    let root0 = stored_inode(img0, ROOT_INUM);
    let chain = free_list(img0);
    let size = root0.size;
    lemma_consistent_owns(img0, ROOT_INUM);
    let m = if r == Err::<usize, FsError>(FsError::OutOfSpace) {
        choose|m: int|
            #[trigger] ran_out_at(img0, root0.blocks@, chain, size, entry, m, img1, root1.blocks@)
    } else {
        0
    };
    let d = if r == Err::<usize, FsError>(FsError::FileTooLarge) {
        clipped(size, entry)
    } else {
        entry.take(m)
    };
    assert(written(img0, root0.blocks@, chain, size as int, d, img1, root1.blocks@));
    lemma_write_keeps_others(img0, ROOT_INUM, size as int, d, img1, root1.blocks@);
    assert(file_bytes(img1, root0) =~= file_bytes(img0, root0));
    if size % (DIRENT_SIZE as u32) == 0 {
        let q = size as int / 32;
        assert(size == 32 * q);
        if r == Err::<usize, FsError>(FsError::FileTooLarge) {
            assert(size + 32 > 6144);
            assert(q >= 192);
            assert(size >= MAX_FILE_SIZE);
        } else {
            assert(ran_out_at(img0, root0.blocks@, chain, size, entry, m, img1, root1.blocks@));
            assert(m == 0) by {
                if m != 0 {
                    let k = (size + m) / 512;
                    assert(size + m == 512 * k);
                    assert(m == 32 * (16 * k - q));
                    assert(0 < m < 32);
                }
            }
        }
        assert(img1 == img0);
    }
}

/// A failed attempt to add the entry of a file that is stored leaves the
/// image as a failed attempt to seed the file does.
pub proof fn lemma_seed_failed_in_link(
    img0: Seq<Seq<u8>>,
    inum: u32,
    content: Seq<u8>,
    img1: Seq<Seq<u8>>,
    img2: Seq<Seq<u8>>,
)
    requires
        consistent(img0),
        has_root(img0),
        is_first_free(img0, inum),
        stored(img0, inum, content, img1),
        link_failed(img1, img2),
    ensures
        seed_failed(img0, img2),
{
    lemma_stored_keeps_root(img0, inum, content, img1);
    lemma_first_free(img0, inum);
    let root0 = stored_inode(img0, ROOT_INUM);
    assert forall|a: u32| a < NUM_INODES && a != inum implies #[trigger] inode_slot(img2, a)
        == inode_slot(img0, a) && file_bytes(img2, stored_inode(img0, a)) == file_bytes(
        img0,
        stored_inode(img0, a),
    ) by {
        assert(inode_slot(img1, a) == inode_slot(img0, a));
        assert(inode_slot(img2, a) == inode_slot(img1, a));
        assert(stored_inode(img1, a) == stored_inode(img0, a));
        assert(file_data(img1, stored_inode(img0, a).blocks@) == file_data(
            img0,
            stored_inode(img0, a).blocks@,
        ));
        if a != ROOT_INUM {
            assert(file_data(img2, stored_inode(img1, a).blocks@) == file_data(
                img1,
                stored_inode(img1, a).blocks@,
            ));
        }
    }
}

/// A file stored in the first free slot, then linked into the root
/// directory, is a file seeded.
pub proof fn lemma_seeded(
    img0: Seq<Seq<u8>>,
    inum: u32,
    content: Seq<u8>,
    img1: Seq<Seq<u8>>,
    name: Seq<u8>,
    img2: Seq<Seq<u8>>,
)
    requires
        consistent(img0),
        has_root(img0),
        is_first_free(img0, inum),
        stored(img0, inum, content, img1),
        linked(img1, name, inum, img2),
    ensures
        seeded(img0, name, content, img2),
        inum != ROOT_INUM,
{
    let root0 = stored_inode(img0, ROOT_INUM);
    lemma_first_free(img0, inum);
    lemma_consistent_owns(img0, ROOT_INUM);
    assert(inum != ROOT_INUM) by {
        crate::inode::lemma_decodes_own_bytes(root0);
    }
    assert(inode_slot(img1, ROOT_INUM) == inode_slot(img0, ROOT_INUM));
    assert(inode_slot(img2, inum) == inode_slot(img1, inum));
    let file = stored_inode(img1, inum);
    lemma_consistent_owns(img1, inum);
    assert(file_data(img2, file.blocks@) == file_data(img1, file.blocks@));
    assert(file_bytes(img2, file) == file_bytes(img1, file));
    assert(file_bytes(img1, root0) == file_bytes(img0, root0));
    let k1 = end_block(0, content.len() as int);
    let k2 = blocks_to_link(img1);
    assert(blocks_to_link(img0) == k2);
    assert(free_list(img0).skip(k1).skip(k2) == free_list(img0).skip(k1 + k2));
    assert forall|a: u32|
        a < NUM_INODES && a != ROOT_INUM && a != inum implies #[trigger] inode_slot(img2, a)
        == inode_slot(img0, a) && file_data(img2, stored_inode(img0, a).blocks@) == file_data(
        img0,
        stored_inode(img0, a).blocks@,
    ) by {
        assert(inode_slot(img1, a) == inode_slot(img0, a));
        assert(inode_slot(img2, a) == inode_slot(img1, a));
    }
    let root2 = stored_inode(img2, ROOT_INUM);
    assert(first_free_inode(img0) == inum);
    assert(stored_inode(img2, inum) == file);
    assert(file_bytes(img2, file) == content);
    assert(file_bytes(img2, root2) == file_bytes(img0, root0) + dirent_bytes(name, inum));
    assert(free_list(img2) == free_list(img0).skip(blocks_to_seed(img0, content.len() as int)));
}

/// Stores a new file with the content `content`: the first free inode
/// becomes a file on the root device, the content is written from offset
/// 0 on, and the inode is written back. Returns the number of the
/// inode.
///
/// On a consistent filesystem the call fails only for want of room or
/// because the device fails: with `OutOfSpace` where no inode is free,
/// which changes nothing, or where the free list is too short, and with
/// `FileTooLarge` where the content is longer than a file can be. After
/// such a failure the inode that was taken holds a file without content,
/// the blocks that were taken are lost to the free list, and every other
/// inode and its content is what it was.
pub fn store_file<T: Disk>(fs: &mut FileSystem<T>, content: &[u8]) -> (r: Result<u32, FsError>)
    ensures
        final(fs).image().len() == old(fs).image().len(),
        final(fs).disk.reliable() == old(fs).disk.reliable(),
        r matches Ok(inum) ==> is_first_free(old(fs).image(), inum) && content@.len()
            <= MAX_FILE_SIZE,
        content@.len() > MAX_FILE_SIZE ==> r is Err,
        all_in_use(old(fs).image(), NUM_INODES) ==> r is Err && final(fs).image() == old(
            fs,
        ).image(),
        consistent(old(fs).image()) ==> store_result(
            old(fs).image(),
            old(fs).disk.reliable(),
            content@,
            r,
            final(fs).image(),
        ),
{
    let ghost img0 = fs.image();
    let ghost sound = consistent(img0);
    let mut inode = Inode {
        type_: InodeType::File,
        device: ROOT_DEV,
        major: 0,
        minor: 0,
        size: 0,
        blocks: [0u32;12],
    };
    let ghost empty = inode;
    let inum: u32 = fs.alloc_inode(ROOT_DEV, inode)?;
    let ghost img1 = fs.image();
    proof {
        lemma_first_free(img0, inum);
        if sound {
            lemma_seed_start(img0, empty, inum, img1);
            lemma_holes_of_fresh(
                empty.blocks@,
                end_block(0, clipped(0, content@).len() as int),
            );
        }
    }
    match fs.write(&mut inode, content, 0) {
        Ok(_) => {},
        Err(e) => {
            proof {
                if sound && !(e is DeviceError) {
                    lemma_store_failed(
                        img0,
                        empty,
                        inum,
                        img1,
                        old(fs).disk.reliable(),
                        content@,
                        Err(e),
                        fs.image(),
                        inode,
                    );
                }
            }
            return Err(e);
        },
    }
    let ghost img2 = fs.image();
    fs.update_inode(inum, &inode)?;
    proof {
        if sound {
            lemma_write_back(img1, inum, empty, 0, content@, img2, inode, fs.image());
            lemma_stored(img0, empty, inum, img1, content@, inode, fs.image());
        }
    }
    Ok(inum)
}

/// The empty file in a free slot, the content written and the inode
/// written back: the file is stored.
pub proof fn lemma_stored(
    img0: Seq<Seq<u8>>,
    empty: Inode,
    inum: u32,
    img1: Seq<Seq<u8>>,
    content: Seq<u8>,
    file: Inode,
    img3: Seq<Seq<u8>>,
)
    requires
        consistent(img0),
        inum < NUM_INODES,
        is_empty_file(empty),
        img1 == with_inode_slot(img0, inum, inode_bytes(empty)),
        content.len() <= MAX_FILE_SIZE,
        same_identity(file, empty),
        file.size == content.len(),
        consistent(img3),
        img3.len() == img1.len(),
        stored_inode(img3, inum) == file,
        file.blocks@ == fill_holes(
            empty.blocks@,
            0,
            end_block(0, content.len() as int),
            free_list(img1),
        ),
        file_data(img3, file.blocks@) == crate::bytes::splice(
            file_data(img1, empty.blocks@),
            0,
            content,
        ),
        holes(empty.blocks@, 0, end_block(0, content.len() as int)) <= free_list(img1).len(),
        free_list(img3) == free_list(img1).skip(
            holes(empty.blocks@, 0, end_block(0, content.len() as int)),
        ),
        others_kept(img1, inum, img3),
    ensures
        stored(img0, inum, content, img3),
{
    let n = end_block(0, content.len() as int);
    assert(0 <= n <= NDIRECT);
    lemma_seed_start(img0, empty, inum, img1);
    assert(free_list(img1) == free_list(img0));
    lemma_holes_of_fresh(empty.blocks@, n);
    assert(holes(empty.blocks@, 0, n) == n);
    lemma_fill_fresh(empty.blocks@, n, free_list(img0));
    assert(file.blocks@ == fresh_pointers(free_list(img0), n));
    assert(file_bytes(img3, file) =~= content) by {
        let data = file_data(img3, file.blocks@);
        assert forall|p: int| 0 <= p < content.len() implies data[p] == content[p] by {}
    }
    assert forall|a: u32| a < NUM_INODES && a != inum implies #[trigger] inode_slot(img3, a)
        == inode_slot(img0, a) && file_data(img3, stored_inode(img0, a).blocks@) == file_data(
        img0,
        stored_inode(img0, a).blocks@,
    ) by {
        let blocks = stored_inode(img0, a).blocks@;
        lemma_consistent_owns(img0, a);
        assert(inode_slot(img1, a) == inode_slot(img0, a));
        assert(inode_slot(img3, a) == inode_slot(img1, a));
        lemma_same_data_region(img0, img1, blocks);
    }
    assert(others_kept(img0, inum, img3));
    assert(free_list(img3) == free_list(img0).skip(n));
    assert(file.major == 0 && file.minor == 0);
}

/// Adds the entry that gives `name` to inode `inum` to the root directory
/// and writes the inode of the root directory back. A name longer than
/// the name field is refused with `NameTooLong` before anything is read or
/// written.
///
/// On a consistent filesystem with a root directory the call fails only
/// for want of room or because the device fails: with `OutOfSpace` where
/// the entry starts a new block and the free list is empty, with
/// `FileTooLarge` where the root directory is full. After such a failure
/// the inode table is what it was and every file reads as it did; where
/// the root directory was a run of whole entries, nothing changed at
/// all.
pub fn link_file<T: Disk>(fs: &mut FileSystem<T>, name: &[u8], inum: u32) -> (r: Result<
    (),
    FsError,
>)
    ensures
        final(fs).image().len() == old(fs).image().len(),
        final(fs).disk.reliable() == old(fs).disk.reliable(),
        name@.len() > DIRNAME_SIZE <==> r == Err::<(), FsError>(FsError::NameTooLong),
        name@.len() > DIRNAME_SIZE ==> final(fs).image() == old(fs).image(),
        name@.len() <= DIRNAME_SIZE && consistent(old(fs).image()) && has_root(
            old(fs).image(),
        ) ==> link_result(
            old(fs).image(),
            old(fs).disk.reliable(),
            name@,
            inum,
            r,
            final(fs).image(),
        ),
{
    if name.len() > DIRNAME_SIZE {
        return Err(FsError::NameTooLong);
    }
    let ghost img0 = fs.image();
    let ghost sound = consistent(img0) && has_root(img0);
    let ghost root0 = stored_inode(img0, ROOT_INUM);
    proof {
        if sound {
            lemma_consistent_owns(img0, ROOT_INUM);
            crate::dirent::lemma_dirent_round_trip(name@, inum);
            lemma_link_room(root0, dirent_bytes(name@, inum));
        }
    }
    let mut root = fs.read_inode(ROOT_DEV, ROOT_INUM)?;
    proof {
        if sound {
            lemma_stored_inode(img0, ROOT_INUM, root);
        }
    }
    match fs.dir_add(&mut root, name, inum) {
        Ok(()) => {},
        Err(e) => {
            proof {
                if sound && !(e is DeviceError) {
                    lemma_link_failed(
                        img0,
                        old(fs).disk.reliable(),
                        dirent_bytes(name@, inum),
                        Err(e),
                        fs.image(),
                        root,
                    );
                }
            }
            return Err(e);
        },
    }
    let ghost img1 = fs.image();
    fs.update_inode(ROOT_INUM, &root)?;
    proof {
        if sound {
            lemma_write_back(
                img0,
                ROOT_INUM,
                root0,
                root0.size as int,
                dirent_bytes(name@, inum),
                img1,
                root,
                fs.image(),
            );
            assert(file_bytes(fs.image(), root) =~= file_bytes(img0, root0) + dirent_bytes(
                name@,
                inum,
            ));
        }
    }
    Ok(())
}

/// Puts a new file with the content `content` into the root directory,
/// under the leading bytes of `path` that fit the name field: the first
/// free inode becomes the file, the content is written from offset 0 on,
/// the inode is written back, and the entry is added to the root
/// directory, whose inode is written back too.
///
/// Where the root inode cannot be read as a directory the call fails
/// before it changes anything: with `NotADirectory` where the inode is of
/// another type, else as the read of the inode does. A later failure
/// leaves on the device what the steps before it wrote.
///
/// On a consistent filesystem success leaves the image as `seeded` says,
/// and the call fails only for want of room or because the device
/// fails: with `OutOfSpace` where no inode is free, which changes
/// nothing, or where the free list is too short, with `FileTooLarge`
/// where the content is longer than a file can be or the root directory
/// is full. After a failure for want of room the root directory and every
/// file that was there are what they were: no entry was added.
pub fn write_file<T: Disk>(fs: &mut FileSystem<T>, path: &[u8], content: &[u8]) -> (r: Result<
    (),
    FsError,
>)
    ensures
        final(fs).image().len() == old(fs).image().len(),
        final(fs).disk.reliable() == old(fs).disk.reliable(),
        r is Ok ==> has_root(old(fs).image()) && content@.len() <= MAX_FILE_SIZE,
        !has_root(old(fs).image()) ==> r is Err && final(fs).image() == old(fs).image(),
        !has_root(old(fs).image()) && !(r matches Err(FsError::DeviceError(_))) ==> r == (match inode_at(
            old(fs).image(),
            ROOT_DEV,
            ROOT_INUM,
        ) {
            Ok(_) => Err::<(), FsError>(FsError::NotADirectory),
            Err(e) => Err(e),
        }),
        content@.len() > MAX_FILE_SIZE ==> r is Err,
        all_in_use(old(fs).image(), NUM_INODES) ==> r is Err && final(fs).image() == old(
            fs,
        ).image(),
        consistent(old(fs).image()) && has_root(old(fs).image()) ==> seed_result(
            old(fs).image(),
            old(fs).disk.reliable(),
            entry_name(path@),
            content@,
            r,
            final(fs).image(),
        ),
{
    let ghost img0 = fs.image();
    let ghost sound = consistent(img0);
    let root = fs.read_inode(ROOT_DEV, ROOT_INUM)?;
    match root.type_ {
        InodeType::Directory => {},
        _ => {
            return Err(FsError::NotADirectory);
        },
    }
    let ghost reliable = fs.disk.reliable();
    let inum: u32 = match store_file(fs, content) {
        Ok(inum) => inum,
        Err(e) => {
            proof {
                if sound {
                    lemma_seed_result_from_store(
                        img0,
                        reliable,
                        entry_name(path@),
                        content@,
                        e,
                        fs.image(),
                    );
                }
            }
            return Err(e);
        },
    };
    let ghost img1 = fs.image();
    proof {
        if sound {
            lemma_stored_keeps_root(img0, inum, content@, img1);
        }
    }
    let r = link_file(fs, truncate_name(path), inum);
    proof {
        if sound {
            lemma_seed_result_from_link(
                img0,
                reliable,
                inum,
                content@,
                img1,
                entry_name(path@),
                r,
                fs.image(),
            );
        }
    }
    r
}

/// Inodes that keep all that their pointers reach keep their files.
pub proof fn lemma_others_are_files(img0: Seq<Seq<u8>>, inum: u32, img1: Seq<Seq<u8>>)
    requires
        others_kept(img0, inum, img1),
    ensures
        files_kept(img0, inum, img1),
{
    assert forall|a: u32| a < NUM_INODES && a != inum implies #[trigger] inode_slot(img1, a)
        == inode_slot(img0, a) && file_bytes(img1, stored_inode(img0, a)) == file_bytes(
        img0,
        stored_inode(img0, a),
    ) by {
        let blocks = stored_inode(img0, a).blocks@;
        assert(inode_slot(img1, a) == inode_slot(img0, a));
        assert(file_data(img1, blocks) == file_data(img0, blocks));
    }
}

/// A failed attempt to store the file is a failed attempt to seed it.
pub proof fn lemma_seed_result_from_store(
    img0: Seq<Seq<u8>>,
    reliable: bool,
    name: Seq<u8>,
    content: Seq<u8>,
    e: FsError,
    img1: Seq<Seq<u8>>,
)
    requires
        consistent(img0),
        has_root(img0),
        store_result(img0, reliable, content, Err(e), img1),
    ensures
        seed_result(img0, reliable, name, content, Err(e), img1),
{
    let root0 = stored_inode(img0, ROOT_INUM);
    crate::extent::lemma_holes_nonneg(
        root0.blocks@,
        root0.size as int / (BLOCKSIZE as int),
        end_block(root0.size as int, entry_room(root0.size)),
    );
    assert(0 <= blocks_to_link(img0));
    if store_failed(img0, img1) {
        lemma_others_are_files(img0, first_free_inode(img0), img1);
        assert(seed_failed(img0, img1));
    }
    match e {
        FsError::OutOfSpace => {
            if !all_in_use(img0, NUM_INODES) {
                assert(free_list(img0).len() < end_block(0, clipped(0, content).len() as int));
            }
        },
        FsError::FileTooLarge => {
            assert(content.len() > MAX_FILE_SIZE);
            assert(NDIRECT <= free_list(img0).len());
        },
        _ => {},
    }
}

/// The result of the link of a file that is stored is the result of
/// seeding the file.
pub proof fn lemma_seed_result_from_link(
    img0: Seq<Seq<u8>>,
    reliable: bool,
    inum: u32,
    content: Seq<u8>,
    img1: Seq<Seq<u8>>,
    name: Seq<u8>,
    r: Result<(), FsError>,
    img2: Seq<Seq<u8>>,
)
    requires
        consistent(img0),
        has_root(img0),
        content.len() <= MAX_FILE_SIZE,
        name.len() <= DIRNAME_SIZE,
        store_result(img0, reliable, content, Ok(inum), img1),
        link_result(img1, reliable, name, inum, r, img2),
    ensures
        seed_result(img0, reliable, name, content, r, img2),
{
    lemma_first_free(img0, inum);
    lemma_stored_keeps_root(img0, inum, content, img1);
    let k1 = end_block(0, content.len() as int);
    assert(clipped(0, content) == content);
    assert(blocks_to_seed(img0, content.len() as int) == k1 + blocks_to_link(img1));
    assert(free_list(img1).len() == free_list(img0).len() - k1);
    match r {
        Ok(()) => {
            lemma_seeded(img0, inum, content, img1, name, img2);
        },
        Err(FsError::OutOfSpace) => {
            lemma_seed_failed_in_link(img0, inum, content, img1, img2);
            assert(free_list(img0).len() < blocks_to_seed(img0, content.len() as int));
        },
        Err(FsError::FileTooLarge) => {
            lemma_seed_failed_in_link(img0, inum, content, img1, img2);
            assert(blocks_to_seed(img0, content.len() as int) <= free_list(img0).len());
        },
        Err(_) => {},
    }
}

/// A file stored on a consistent image with a root directory leaves the
/// root directory in its slot, and takes no block that the link of the
/// file needs to count anew.
pub proof fn lemma_stored_keeps_root(
    img0: Seq<Seq<u8>>,
    inum: u32,
    content: Seq<u8>,
    img1: Seq<Seq<u8>>,
)
    requires
        consistent(img0),
        has_root(img0),
        is_first_free(img0, inum),
        stored(img0, inum, content, img1),
    ensures
        inum != ROOT_INUM,
        has_root(img1),
        stored_inode(img1, ROOT_INUM) == stored_inode(img0, ROOT_INUM),
        blocks_to_link(img1) == blocks_to_link(img0),
        0 <= blocks_to_link(img0),
        free_list(img1).len() == free_list(img0).len() - end_block(0, content.len() as int),
{
    let root0 = stored_inode(img0, ROOT_INUM);
    lemma_consistent_owns(img0, ROOT_INUM);
    assert(inum != ROOT_INUM) by {
        crate::inode::lemma_decodes_own_bytes(root0);
    }
    assert(inode_slot(img1, ROOT_INUM) == inode_slot(img0, ROOT_INUM));
    crate::extent::lemma_holes_nonneg(
        root0.blocks@,
        root0.size as int / (BLOCKSIZE as int),
        end_block(root0.size as int, entry_room(root0.size)),
    );
}

/// The part of an entry that has room behind the root directory is what a
/// write of the entry at the end of the directory does not clip, and the
/// blocks that it takes are none or more.
pub proof fn lemma_link_room(root: Inode, entry: Seq<u8>)
    requires
        entry.len() == DIRENT_SIZE,
    ensures
        clipped(root.size, entry).len() == entry_room(root.size),
        0 <= holes(
            root.blocks@,
            root.size as int / (BLOCKSIZE as int),
            end_block(root.size as int, entry_room(root.size)),
        ),
{
    crate::extent::lemma_holes_nonneg(
        root.blocks@,
        root.size as int / (BLOCKSIZE as int),
        end_block(root.size as int, entry_room(root.size)),
    );
}

} // verus!
