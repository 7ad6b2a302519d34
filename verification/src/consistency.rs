//! The invariant of the filesystem as a whole: every block belongs to one
//! pointer of one inode, or to the free list, never to both.

use vstd::prelude::*;
use crate::bytes::zeros;
use crate::disk::wf_image;
use crate::extent::{end_block, fill_holes, holds_block, holes, owns, written};
use crate::file::file_data;
use crate::format::{descending, formatted};
use crate::freelist::{
    after_alloc,
    after_free,
    free_list,
    is_free_chain,
    lemma_chain_frame,
    lemma_free_list_is,
};
use crate::inode::{decodes, inode_bytes, lemma_decodes_own_bytes, Inode, InodeType};
use crate::inodes::{inode_slot, lemma_slot_update, record_inode, stored_inode, with_inode_slot};
use crate::layout::{
    spec_inode_sector,
    BLOCKSIZE,
    DATA_START,
    FS_SIZE,
    INODE_SIZE,
    MAX_FILE_SIZE,
    NDIRECT,
    NUM_INODES,
    ROOT_INUM,
    SUPERBLOCK_ADDR,
    UNUSED_BLOCKADDR,
};

verus! {

/// Pointer `i` of inode `inum` as the inode table records it.
pub open spec fn block_of(img: Seq<Seq<u8>>, inum: u32, i: int) -> u32 {
    stored_inode(img, inum).blocks@[i]
}

/// The pointers `blocks` that are set name data blocks of a device of
/// `sectors` sectors.
pub open spec fn in_data_region(blocks: Seq<u32>, sectors: int) -> bool {
    forall|i: int|
        0 <= i < blocks.len() && blocks[i] != UNUSED_BLOCKADDR ==> DATA_START <= (
        #[trigger] blocks[i]) < sectors
}

/// The slot of inode `inum` holds an inode of a size that its blocks can
/// hold, whose pointers name data blocks that are not free.
pub open spec fn valid_slot(img: Seq<Seq<u8>>, inum: u32, chain: Seq<u32>) -> bool {
    let ino = stored_inode(img, inum);
    &&& decodes(inode_slot(img, inum), ino)
    &&& ino.size <= MAX_FILE_SIZE
    &&& in_data_region(ino.blocks@, img.len() as int)
    &&& forall|i: int, k: int|
        0 <= i < NDIRECT && 0 <= k < chain.len() ==> #[trigger] block_of(img, inum, i)
            != #[trigger] chain[k]
}

/// The filesystem is consistent: the device has whole blocks and holds the
/// superblock and the inode table; the free list ends and holds data
/// blocks only; every slot of the inode table holds an inode whose
/// pointers name data blocks that are not free; and no block is named by
/// two pointers, of one inode or of two.
pub open spec fn consistent(img: Seq<Seq<u8>>) -> bool {
    let chain = free_list(img);
    &&& wf_image(img)
    &&& DATA_START <= img.len()
    &&& is_free_chain(img, chain)
    &&& forall|k: int| 0 <= k < chain.len() ==> DATA_START <= #[trigger] chain[k]
    &&& forall|inum: u32| inum < NUM_INODES ==> #[trigger] valid_slot(img, inum, chain)
    &&& forall|a: u32, b: u32, i: int, j: int|
        a < NUM_INODES && b < NUM_INODES && 0 <= i < NDIRECT && 0 <= j < NDIRECT && (a != b || i
            != j) && block_of(img, a, i) != UNUSED_BLOCKADDR ==> #[trigger] block_of(img, a, i)
            != #[trigger] block_of(img, b, j)
}

/// The pointers `blocks` may take the place of those of inode `inum`: the
/// ones that are set name data blocks, no two the same, none free, and
/// none that another inode names.
pub open spec fn fits_slot(img: Seq<Seq<u8>>, inum: u32, blocks: Seq<u32>) -> bool {
    let chain = free_list(img);
    &&& blocks.len() == NDIRECT
    &&& in_data_region(blocks, img.len() as int)
    &&& forall|i: int, j: int|
        0 <= i < j < NDIRECT && blocks[i] != UNUSED_BLOCKADDR ==> blocks[i] != blocks[j]
    &&& forall|i: int, k: int|
        0 <= i < NDIRECT && 0 <= k < chain.len() ==> #[trigger] blocks[i] != #[trigger] chain[k]
    &&& forall|a: u32, i: int, j: int|
        a < NUM_INODES && a != inum && 0 <= i < NDIRECT && 0 <= j < NDIRECT && blocks[i]
            != UNUSED_BLOCKADDR ==> #[trigger] blocks[i] != #[trigger] block_of(img, a, j)
}

/// In a consistent filesystem the pointers of an inode of the table and
/// the free list share the device without overlap, and the pointers may
/// stay where they are.
pub proof fn lemma_consistent_owns(img: Seq<Seq<u8>>, inum: u32)
    requires
        consistent(img),
        inum < NUM_INODES,
    ensures
        owns(img, stored_inode(img, inum).blocks@, free_list(img)),
        fits_slot(img, inum, stored_inode(img, inum).blocks@),
        in_data_region(stored_inode(img, inum).blocks@, img.len() as int),
        stored_inode(img, inum).size <= MAX_FILE_SIZE,
        decodes(inode_slot(img, inum), stored_inode(img, inum)),
{
    let chain = free_list(img);
    let blocks = stored_inode(img, inum).blocks@;
    assert(valid_slot(img, inum, chain));
    assert forall|i: int, j: int|
        0 <= i < j < blocks.len() && blocks[i] != UNUSED_BLOCKADDR implies blocks[i]
        != blocks[j] by {
        assert(block_of(img, inum, i) != block_of(img, inum, j));
    }
    assert forall|i: int, k: int| 0 <= i < blocks.len() && 0 <= k < chain.len() implies blocks[i]
        != chain[k] by {
        assert(block_of(img, inum, i) != chain[k]);
    }
    assert forall|a: u32, i: int, j: int|
        a < NUM_INODES && a != inum && 0 <= i < NDIRECT && 0 <= j < NDIRECT && blocks[i]
            != UNUSED_BLOCKADDR implies #[trigger] blocks[i] != #[trigger] block_of(img, a, j) by {
        assert(block_of(img, inum, i) != block_of(img, a, j));
    }
}

/// An inode written into a slot keeps the filesystem consistent where its
/// size is one that its blocks can hold and its pointers fit the slot.
/// The free list, the other inodes and the data region stay as they
/// were.
pub proof fn lemma_store_inode(img: Seq<Seq<u8>>, inum: u32, ino: Inode)
    requires
        consistent(img),
        inum < NUM_INODES,
        ino.size <= MAX_FILE_SIZE,
        fits_slot(img, inum, ino.blocks@),
    ensures
        ({
            let out = with_inode_slot(img, inum, inode_bytes(ino));
            &&& consistent(out)
            &&& out.len() == img.len()
            &&& free_list(out) == free_list(img)
            &&& stored_inode(out, inum) == ino
            &&& forall|a: u32|
                a < NUM_INODES && a != inum ==> #[trigger] inode_slot(out, a) == inode_slot(
                    img,
                    a,
                )
            &&& forall|x: int| DATA_START <= x < img.len() ==> #[trigger] out[x] == img[x]
        }),
{
    let out = with_inode_slot(img, inum, inode_bytes(ino));
    let chain = free_list(img);
    lemma_decodes_own_bytes(ino);
    lemma_slot_update(img, inum, inode_bytes(ino), inum);
    crate::inodes::lemma_stored_inode(out, inum, ino);
    assert forall|a: u32| a < NUM_INODES && a != inum implies #[trigger] inode_slot(out, a)
        == inode_slot(img, a) by {
        lemma_slot_update(img, inum, inode_bytes(ino), a);
    }
    lemma_chain_frame(img, out, chain);
    lemma_free_list_is(out, chain);
    assert forall|a: u32| a < NUM_INODES implies #[trigger] valid_slot(out, a, chain) by {
        if a != inum {
            assert(valid_slot(img, a, chain));
            assert(inode_slot(out, a) == inode_slot(img, a));
            assert forall|i: int, k: int|
                0 <= i < NDIRECT && 0 <= k < chain.len() implies #[trigger] block_of(out, a, i)
                != #[trigger] chain[k] by {
                assert(block_of(img, a, i) != chain[k]);
            }
        } else {
            assert forall|i: int, k: int|
                0 <= i < NDIRECT && 0 <= k < chain.len() implies #[trigger] block_of(out, a, i)
                != #[trigger] chain[k] by {
                assert(ino.blocks@[i] != chain[k]);
            }
        }
    }
    assert forall|a: u32, b: u32, i: int, j: int|
        a < NUM_INODES && b < NUM_INODES && 0 <= i < NDIRECT && 0 <= j < NDIRECT && (a != b || i
            != j) && block_of(out, a, i) != UNUSED_BLOCKADDR implies #[trigger] block_of(out, a, i)
        != #[trigger] block_of(out, b, j) by {
        if a != inum {
            assert(inode_slot(out, a) == inode_slot(img, a));
        }
        if b != inum {
            assert(inode_slot(out, b) == inode_slot(img, b));
        }
        if a != inum && b != inum {
            assert(block_of(img, a, i) != block_of(img, b, j));
        } else if a == inum && b == inum {
            if i < j {
                assert(ino.blocks@[i] != ino.blocks@[j]);
            } else {
                if ino.blocks@[j] != UNUSED_BLOCKADDR {
                    assert(ino.blocks@[j] != ino.blocks@[i]);
                }
            }
        } else if a == inum {
            assert(ino.blocks@[i] != block_of(img, b, j));
        } else {
            if ino.blocks@[j] != UNUSED_BLOCKADDR {
                assert(ino.blocks@[j] != block_of(img, a, i));
            }
        }
    }
}

/// Each pointer after holes were filled is the pointer that was there or,
/// in a hole of the range, one of the blocks of the pool that were handed
/// out.
pub proof fn lemma_fill_holes_entries(blocks: Seq<u32>, lo: int, hi: int, pool: Seq<u32>, i: int)
    requires
        0 <= lo,
        hi <= blocks.len(),
        0 <= i < blocks.len(),
    ensures
        fill_holes(blocks, lo, hi, pool)[i] == blocks[i] || (blocks[i] == UNUSED_BLOCKADDR
            && exists|m: int|
            0 <= m < holes(blocks, lo, hi) && fill_holes(blocks, lo, hi, pool)[i] == #[trigger] pool[m]),
    decreases hi - lo,
{
    if hi > lo {
        lemma_fill_holes_entries(blocks, lo, hi - 1, pool, i);
        crate::extent::lemma_fill_holes_frame(blocks, lo, hi - 1, pool);
        let before = fill_holes(blocks, lo, hi - 1, pool);
        let after = fill_holes(blocks, lo, hi, pool);
        if blocks[hi - 1] == UNUSED_BLOCKADDR {
            if i == hi - 1 {
                let m = holes(blocks, lo, hi - 1);
                assert(after[i] == pool[m]);
            } else if before[i] != blocks[i] {
                let m = choose|m: int|
                    0 <= m < holes(blocks, lo, hi - 1) && before[i] == #[trigger] pool[m];
                assert(after[i] == pool[m]);
            }
        } else if before[i] != blocks[i] {
            let m = choose|m: int|
                0 <= m < holes(blocks, lo, hi - 1) && before[i] == #[trigger] pool[m];
            assert(after[i] == pool[m]);
        }
    }
}

/// A range of `n` pointers that are all unset has `n` holes.
pub proof fn lemma_holes_of_fresh(blocks: Seq<u32>, n: int)
    requires
        0 <= n <= blocks.len(),
        forall|i: int| 0 <= i < n ==> blocks[i] == UNUSED_BLOCKADDR,
    ensures
        holes(blocks, 0, n) == n,
    decreases n,
{
    if n > 0 {
        lemma_holes_of_fresh(blocks, n - 1);
    }
}

/// The pointers of a file of `n` blocks that was written in one go into an
/// inode without blocks: block `i` of the file is block `i` of the free
/// list as it was, and the pointers behind the file are unset.
pub open spec fn fresh_pointers(chain: Seq<u32>, n: int) -> Seq<u32> {
    Seq::new(
        NDIRECT as nat,
        |i: int|
            if i < n {
                chain[i]
            } else {
                UNUSED_BLOCKADDR
            },
    )
}

/// To fill the first `n` pointers of an inode without blocks gives it the
/// first `n` blocks of the pool, in order.
pub proof fn lemma_fill_fresh(blocks: Seq<u32>, n: int, pool: Seq<u32>)
    requires
        blocks.len() == NDIRECT,
        0 <= n <= NDIRECT,
        forall|i: int| 0 <= i < NDIRECT ==> blocks[i] == UNUSED_BLOCKADDR,
    ensures
        fill_holes(blocks, 0, n, pool) == fresh_pointers(pool, n),
    decreases n,
{
    if n > 0 {
        lemma_fill_fresh(blocks, n - 1, pool);
        lemma_holes_of_fresh(blocks, n - 1);
    }
    assert(fill_holes(blocks, 0, n, pool) =~= fresh_pointers(pool, n));
}

/// A write keeps the filesystem consistent. The inode table stays as it
/// was; the free list loses the blocks that were handed out; the new
/// pointers fit the slot that the old ones fitted; and the content that
/// other pointers reach stays as it was, where they share no block with
/// the new pointers.
pub proof fn lemma_write_consistent(
    img1: Seq<Seq<u8>>,
    inum: u32,
    blocks1: Seq<u32>,
    offset: int,
    d: Seq<u8>,
    img2: Seq<Seq<u8>>,
    blocks2: Seq<u32>,
)
    requires
        consistent(img1),
        inum < NUM_INODES,
        fits_slot(img1, inum, blocks1),
        0 <= offset,
        end_block(offset, d.len() as int) <= NDIRECT,
        written(img1, blocks1, free_list(img1), offset, d, img2, blocks2),
    ensures
        consistent(img2),
        img2.len() == img1.len(),
        free_list(img2) == free_list(img1).skip(
            holes(blocks1, offset / (BLOCKSIZE as int), end_block(offset, d.len() as int)),
        ),
        fits_slot(img2, inum, blocks2),
        forall|a: u32| a < NUM_INODES ==> #[trigger] inode_slot(img2, a) == inode_slot(img1, a),
        forall|x: int|
            0 <= x < img1.len() && x != SUPERBLOCK_ADDR && !holds_block(blocks2, x)
                ==> #[trigger] img2[x] == img1[x],
{
    let chain = free_list(img1);
    let lo = offset / (BLOCKSIZE as int);
    let hi = end_block(offset, d.len() as int);
    let k = holes(blocks1, lo, hi);
    let rest = chain.skip(k);
    crate::extent::lemma_fill_holes_frame(blocks1, lo, hi, chain);
    lemma_free_list_is(img2, rest);
    assert forall|i: int| 0 <= i < NDIRECT implies blocks2[i] == blocks1[i] || (exists|m: int|
        0 <= m < k && blocks2[i] == #[trigger] chain[m]) by {
        lemma_fill_holes_entries(blocks1, lo, hi, chain, i);
    }
    assert(in_data_region(blocks2, img2.len() as int)) by {
        assert forall|i: int|
            0 <= i < blocks2.len() && blocks2[i] != UNUSED_BLOCKADDR implies DATA_START <= (
        #[trigger] blocks2[i]) < img2.len() by {
            if blocks2[i] != blocks1[i] {
                let m = choose|m: int| 0 <= m < k && blocks2[i] == #[trigger] chain[m];
                assert(DATA_START <= chain[m]);
            }
        }
    }
    assert forall|a: u32| a < NUM_INODES implies #[trigger] inode_slot(img2, a) == inode_slot(
        img1,
        a,
    ) by {
        let x = spec_inode_sector(a);
        if holds_block(blocks2, x) {
            let i = choose|i: int| 0 <= i < blocks2.len() && #[trigger] blocks2[i] == x;
            assert(DATA_START <= blocks2[i]);
        }
        assert(img2[x] == img1[x]);
    }
    assert forall|k2: int| 0 <= k2 < rest.len() implies DATA_START <= #[trigger] rest[k2] by {
        assert(rest[k2] == chain[k2 + k]);
    }
    assert forall|a: u32| a < NUM_INODES implies #[trigger] valid_slot(img2, a, rest) by {
        assert(valid_slot(img1, a, chain));
        assert(inode_slot(img2, a) == inode_slot(img1, a));
        assert forall|i: int, k2: int|
            0 <= i < NDIRECT && 0 <= k2 < rest.len() implies #[trigger] block_of(img2, a, i)
            != #[trigger] rest[k2] by {
            assert(rest[k2] == chain[k2 + k]);
            assert(block_of(img1, a, i) != chain[k2 + k]);
        }
    }
    assert forall|a: u32, b: u32, i: int, j: int|
        a < NUM_INODES && b < NUM_INODES && 0 <= i < NDIRECT && 0 <= j < NDIRECT && (a != b || i
            != j) && block_of(img2, a, i) != UNUSED_BLOCKADDR implies #[trigger] block_of(
        img2,
        a,
        i,
    ) != #[trigger] block_of(img2, b, j) by {
        assert(inode_slot(img2, a) == inode_slot(img1, a));
        assert(inode_slot(img2, b) == inode_slot(img1, b));
        assert(block_of(img1, a, i) != block_of(img1, b, j));
    }
    assert forall|a: u32, i: int, j: int|
        a < NUM_INODES && a != inum && 0 <= i < NDIRECT && 0 <= j < NDIRECT && blocks2[i]
            != UNUSED_BLOCKADDR implies #[trigger] blocks2[i] != #[trigger] block_of(img2, a, j) by {
        assert(inode_slot(img2, a) == inode_slot(img1, a));
        if blocks2[i] != blocks1[i] {
            let m = choose|m: int| 0 <= m < k && blocks2[i] == #[trigger] chain[m];
            assert(valid_slot(img1, a, chain));
            assert(block_of(img1, a, j) != chain[m]);
        } else {
            assert(blocks1[i] != block_of(img1, a, j));
        }
    }
    assert forall|i: int, k2: int|
        0 <= i < NDIRECT && 0 <= k2 < rest.len() implies #[trigger] blocks2[i]
        != #[trigger] rest[k2] by {}
}

/// Content that shares no block with a change stays as it was.
pub proof fn lemma_data_untouched(
    img1: Seq<Seq<u8>>,
    img2: Seq<Seq<u8>>,
    changed: Seq<u32>,
    blocks: Seq<u32>,
)
    requires
        img2.len() == img1.len(),
        blocks.len() == NDIRECT,
        in_data_region(blocks, img1.len() as int),
        forall|x: int|
            0 <= x < img1.len() && x != SUPERBLOCK_ADDR && !holds_block(changed, x)
                ==> #[trigger] img2[x] == img1[x],
        forall|i: int, j: int|
            0 <= i < NDIRECT && 0 <= j < changed.len() && blocks[i] != UNUSED_BLOCKADDR
                ==> #[trigger] blocks[i] != #[trigger] changed[j],
    ensures
        file_data(img2, blocks) == file_data(img1, blocks),
{
    assert forall|p: int| 0 <= p < MAX_FILE_SIZE implies file_data(img2, blocks)[p] == file_data(
        img1,
        blocks,
    )[p] by {
        let q = p / (BLOCKSIZE as int);
        let b = blocks[q];
        if b != UNUSED_BLOCKADDR {
            if holds_block(changed, b as int) {
                let j = choose|j: int| 0 <= j < changed.len() && #[trigger] changed[j] == b as int;
                assert(blocks[q] != changed[j]);
            }
            assert(img2[b as int] == img1[b as int]);
        }
    }
    assert(file_data(img2, blocks) =~= file_data(img1, blocks));
}

/// A fresh filesystem is consistent.
pub proof fn law_formatted_is_consistent(img: Seq<Seq<u8>>)
    requires
        formatted(img),
    ensures
        consistent(img),
        free_list(img) == descending(DATA_START, (FS_SIZE - 1) as u32),
{
    let chain = descending(DATA_START, (FS_SIZE - 1) as u32);
    lemma_free_list_is(img, chain);
    let root = stored_inode(img, ROOT_INUM);
    assert forall|a: u32| 0 < a < NUM_INODES implies decodes(
        inode_slot(img, a),
        stored_inode(img, a),
    ) && stored_inode(img, a).size == 0 && (forall|i: int|
        0 <= i < NDIRECT ==> block_of(img, a, i) == UNUSED_BLOCKADDR) by {
        lemma_zero_record(inode_slot(img, a));
    }
    assert forall|a: u32| a < NUM_INODES implies #[trigger] valid_slot(img, a, chain) by {
        if a != ROOT_INUM {
            assert(forall|i: int| 0 <= i < NDIRECT ==> block_of(img, a, i) == UNUSED_BLOCKADDR);
        }
    }
    assert forall|a: u32, b: u32, i: int, j: int|
        a < NUM_INODES && b < NUM_INODES && 0 <= i < NDIRECT && 0 <= j < NDIRECT && (a != b || i
            != j) && block_of(img, a, i) != UNUSED_BLOCKADDR implies #[trigger] block_of(img, a, i)
        != #[trigger] block_of(img, b, j) by {
        if b != ROOT_INUM {
            assert(forall|i: int| 0 <= i < NDIRECT ==> block_of(img, b, i) == UNUSED_BLOCKADDR);
        }
        if a != ROOT_INUM {
            assert(forall|i: int| 0 <= i < NDIRECT ==> block_of(img, a, i) == UNUSED_BLOCKADDR);
        }
    }
}

/// A record of zero bytes holds an unused inode of no size and no block.
pub proof fn lemma_zero_record(rec: Seq<u8>)
    requires
        rec == zeros(INODE_SIZE as int),
    ensures
        decodes(rec, record_inode(rec)),
        record_inode(rec).type_ == InodeType::Unused,
        record_inode(rec).size == 0,
        forall|i: int| 0 <= i < NDIRECT ==> record_inode(rec).blocks@[i] == UNUSED_BLOCKADDR,
{
    let unused = unused_inode();
    crate::format::lemma_unused_is_zero(unused);
    lemma_decodes_own_bytes(unused);
    assert(decodes(rec, unused));
}

/// The inode of a free slot.
pub open spec fn unused_inode() -> Inode {
    Inode {
        type_: InodeType::Unused,
        device: 0,
        major: 0,
        minor: 0,
        size: 0,
        blocks: vstd::array::spec_array_fill_for_copy_type::<u32, 12>(0u32),
    }
}

/// Every slot of the inode table is the same on the two images.
pub open spec fn same_inodes(img0: Seq<Seq<u8>>, img1: Seq<Seq<u8>>) -> bool {
    forall|a: u32| a < NUM_INODES ==> #[trigger] inode_slot(img1, a) == inode_slot(img0, a)
}

/// Consistency carries over to an image with the same inode table and a
/// free list that holds data blocks which no inode names.
proof fn lemma_consistent_with_chain(img0: Seq<Seq<u8>>, img1: Seq<Seq<u8>>, chain: Seq<u32>)
    requires
        consistent(img0),
        wf_image(img1),
        img1.len() == img0.len(),
        same_inodes(img0, img1),
        is_free_chain(img1, chain),
        forall|k: int| 0 <= k < chain.len() ==> DATA_START <= #[trigger] chain[k],
        forall|a: u32, i: int, k: int|
            a < NUM_INODES && 0 <= i < NDIRECT && 0 <= k < chain.len() ==> #[trigger] block_of(
                img0,
                a,
                i,
            ) != #[trigger] chain[k],
    ensures
        consistent(img1),
        free_list(img1) == chain,
{
    lemma_free_list_is(img1, chain);
    assert forall|a: u32| a < NUM_INODES implies #[trigger] valid_slot(img1, a, chain) by {
        assert(valid_slot(img0, a, free_list(img0)));
        assert(inode_slot(img1, a) == inode_slot(img0, a));
        assert forall|i: int, k: int|
            0 <= i < NDIRECT && 0 <= k < chain.len() implies #[trigger] block_of(img1, a, i)
            != #[trigger] chain[k] by {
            assert(block_of(img0, a, i) != chain[k]);
        }
    }
    assert forall|a: u32, b: u32, i: int, j: int|
        a < NUM_INODES && b < NUM_INODES && 0 <= i < NDIRECT && 0 <= j < NDIRECT && (a != b || i
            != j) && block_of(img1, a, i) != UNUSED_BLOCKADDR implies #[trigger] block_of(
        img1,
        a,
        i,
    ) != #[trigger] block_of(img1, b, j) by {
        assert(inode_slot(img1, a) == inode_slot(img0, a));
        assert(inode_slot(img1, b) == inode_slot(img0, b));
        assert(block_of(img0, a, i) != block_of(img0, b, j));
    }
}

/// To allocate a block keeps the filesystem consistent: the block leaves
/// the free list and no inode names it yet.
pub proof fn law_alloc_keeps_consistent(img: Seq<Seq<u8>>)
    requires
        consistent(img),
        free_list(img).len() > 0,
    ensures
        consistent(after_alloc(img)),
        free_list(after_alloc(img)) == free_list(img).skip(1),
        same_inodes(img, after_alloc(img)),
{
    let chain = free_list(img);
    let out = after_alloc(img);
    let rest = chain.skip(1);
    crate::freelist::lemma_alloc_pops(img, chain);
    assert(DATA_START <= chain[0]);
    assert forall|a: u32| a < NUM_INODES implies #[trigger] inode_slot(out, a) == inode_slot(
        img,
        a,
    ) by {
        assert(out[spec_inode_sector(a)] == img[spec_inode_sector(a)]);
    }
    assert forall|k: int| 0 <= k < rest.len() implies DATA_START <= #[trigger] rest[k] by {
        assert(rest[k] == chain[k + 1]);
    }
    assert forall|a: u32, i: int, k: int|
        a < NUM_INODES && 0 <= i < NDIRECT && 0 <= k < rest.len() implies #[trigger] block_of(
        img,
        a,
        i,
    ) != #[trigger] rest[k] by {
        assert(valid_slot(img, a, chain));
        assert(rest[k] == chain[k + 1]);
        assert(block_of(img, a, i) != chain[k + 1]);
    }
    lemma_consistent_with_chain(img, out, rest);
}

/// To free a block keeps the filesystem consistent where the block is a
/// data block of the device that is neither free nor named by an inode.
pub proof fn law_free_keeps_consistent(img: Seq<Seq<u8>>, b: u32)
    requires
        consistent(img),
        DATA_START <= b < img.len(),
        !free_list(img).contains(b),
        forall|a: u32, i: int|
            a < NUM_INODES && 0 <= i < NDIRECT ==> #[trigger] block_of(img, a, i) != b,
    ensures
        consistent(after_free(img, b)),
        free_list(after_free(img, b)) == seq![b] + free_list(img),
        same_inodes(img, after_free(img, b)),
{
    let chain = free_list(img);
    let out = after_free(img, b);
    let more = seq![b] + chain;
    crate::freelist::law_free_pushes(img, chain, b);
    assert forall|a: u32| a < NUM_INODES implies #[trigger] inode_slot(out, a) == inode_slot(
        img,
        a,
    ) by {
        assert(out[spec_inode_sector(a)] == img[spec_inode_sector(a)]);
    }
    assert forall|k: int| 0 <= k < more.len() implies DATA_START <= #[trigger] more[k] by {
        if k > 0 {
            assert(more[k] == chain[k - 1]);
        }
    }
    assert forall|a: u32, i: int, k: int|
        a < NUM_INODES && 0 <= i < NDIRECT && 0 <= k < more.len() implies #[trigger] block_of(
        img,
        a,
        i,
    ) != #[trigger] more[k] by {
        if k > 0 {
            assert(valid_slot(img, a, chain));
            assert(more[k] == chain[k - 1]);
            assert(block_of(img, a, i) != chain[k - 1]);
        }
    }
    lemma_consistent_with_chain(img, out, more);
}

} // verus!
