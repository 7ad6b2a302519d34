//! Who owns which block: the direct pointers of a file on one side, the
//! free list on the other, and what a write does to both.

use vstd::prelude::*;
use crate::bytes::splice;
use crate::disk::wf_image;
use crate::file::file_data;
use crate::freelist::{after_alloc, free_head, is_free_chain, link_after, next_free};
use crate::layout::{BLOCKSIZE, MAX_FILE_SIZE, NDIRECT, SUPERBLOCK_ADDR, UNUSED_BLOCKADDR};
use crate::superblock::{FREE_HEAD_OFFSET, SUPERBLOCK_SIZE};

verus! {

/// How many of the pointers from position `lo` up to `hi` are unset.
pub open spec fn holes(blocks: Seq<u32>, lo: int, hi: int) -> int
    decreases hi - lo,
{
    if hi <= lo {
        0
    } else {
        holes(blocks, lo, hi - 1) + if blocks[hi - 1] == UNUSED_BLOCKADDR {
            1int
        } else {
            0int
        }
    }
}

/// The pointers `blocks` with each unset one from position `lo` up to `hi`
/// set to a block of `pool`: the first hole gets the first block of the
/// pool, the second hole the second, and so on.
pub open spec fn fill_holes(blocks: Seq<u32>, lo: int, hi: int, pool: Seq<u32>) -> Seq<u32>
    decreases hi - lo,
{
    if hi <= lo {
        blocks
    } else if blocks[hi - 1] == UNUSED_BLOCKADDR {
        fill_holes(blocks, lo, hi - 1, pool).update(hi - 1, pool[holes(blocks, lo, hi - 1)])
    } else {
        fill_holes(blocks, lo, hi - 1, pool)
    }
}

/// The index behind the last block that `len` bytes from `offset` on lie
/// in; the block of `offset` itself where `len` is zero.
pub open spec fn end_block(offset: int, len: int) -> int {
    if len <= 0 {
        offset / (BLOCKSIZE as int)
    } else {
        (offset + len - 1) / (BLOCKSIZE as int) + 1
    }
}

/// Some pointer of `blocks` names sector `x`.
pub open spec fn holds_block(blocks: Seq<u32>, x: int) -> bool {
    exists|i: int| 0 <= i < blocks.len() && #[trigger] blocks[i] == x
}

/// The pointers `blocks` and the free list `chain` share the device
/// without overlap: the device has whole blocks and a superblock, `chain`
/// is its free list, each pointer that is set names a block of the device,
/// no two pointers name the same block, and no pointer names a free block.
pub open spec fn owns(img: Seq<Seq<u8>>, blocks: Seq<u32>, chain: Seq<u32>) -> bool {
    &&& wf_image(img)
    &&& SUPERBLOCK_ADDR < img.len()
    &&& is_free_chain(img, chain)
    &&& blocks.len() == NDIRECT
    &&& forall|i: int|
        0 <= i < blocks.len() && blocks[i] != UNUSED_BLOCKADDR ==> (#[trigger] blocks[i])
            < img.len()
    &&& forall|i: int, j: int|
        0 <= i < j < blocks.len() && blocks[i] != UNUSED_BLOCKADDR ==> blocks[i] != blocks[j]
    &&& forall|i: int, k: int|
        0 <= i < blocks.len() && 0 <= k < chain.len() ==> blocks[i] != chain[k]
}

/// From `img0` to `img1` nothing changed but the blocks that `blocks1`
/// names and the free-list head in the superblock.
pub open spec fn untouched_outside(img0: Seq<Seq<u8>>, img1: Seq<Seq<u8>>, blocks1: Seq<u32>) -> bool {
    &&& img1.len() == img0.len()
    &&& forall|x: int|
        0 <= x < img0.len() && x != SUPERBLOCK_ADDR && !holds_block(blocks1, x) ==> #[trigger] img1[x]
            == img0[x]
    &&& forall|j: int|
        0 <= j < BLOCKSIZE && !(FREE_HEAD_OFFSET <= j < SUPERBLOCK_SIZE)
            ==> #[trigger] img1[SUPERBLOCK_ADDR as int][j] == img0[SUPERBLOCK_ADDR as int][j]
}

/// What a write of the bytes `d` at `offset` makes of the image `img0` and
/// the pointers `blocks0`, where `chain` is the free list before the
/// write: each hole under the bytes gets the next block of the free list,
/// the bytes stand in the file and the rest of the file is as it was, the
/// blocks that were handed out have left the free list, and nothing else
/// on the device changed.
pub open spec fn written(
    img0: Seq<Seq<u8>>,
    blocks0: Seq<u32>,
    chain: Seq<u32>,
    offset: int,
    d: Seq<u8>,
    img1: Seq<Seq<u8>>,
    blocks1: Seq<u32>,
) -> bool {
    let lo = offset / (BLOCKSIZE as int);
    let hi = end_block(offset, d.len() as int);
    let k = holes(blocks0, lo, hi);
    &&& k <= chain.len()
    &&& blocks1 == fill_holes(blocks0, lo, hi, chain)
    &&& owns(img1, blocks1, chain.skip(k))
    &&& file_data(img1, blocks1) == splice(file_data(img0, blocks0), offset, d)
    &&& untouched_outside(img0, img1, blocks1)
}

/// To fill holes keeps the number of pointers and every pointer outside
/// the range.
pub proof fn lemma_fill_holes_frame(blocks: Seq<u32>, lo: int, hi: int, pool: Seq<u32>)
    requires
        0 <= lo,
        hi <= blocks.len(),
    ensures
        fill_holes(blocks, lo, hi, pool).len() == blocks.len(),
        forall|i: int|
            0 <= i < blocks.len() && !(lo <= i < hi) ==> fill_holes(blocks, lo, hi, pool)[i]
                == blocks[i],
        forall|i: int|
            0 <= i < blocks.len() && blocks[i] != UNUSED_BLOCKADDR ==> fill_holes(
                blocks,
                lo,
                hi,
                pool,
            )[i] == blocks[i],
        0 <= holes(blocks, lo, hi),
        lo <= hi ==> holes(blocks, lo, hi) <= hi - lo,
    decreases hi - lo,
{
    if hi > lo {
        lemma_fill_holes_frame(blocks, lo, hi - 1, pool);
    }
}

/// Nothing written: the state is as a write of no bytes leaves it.
pub proof fn lemma_written_nothing(img: Seq<Seq<u8>>, blocks: Seq<u32>, chain: Seq<u32>, offset: int)
    requires
        owns(img, blocks, chain),
        0 <= offset,
    ensures
        written(img, blocks, chain, offset, Seq::<u8>::empty(), img, blocks),
{
    assert(chain.skip(0) == chain);
    assert(file_data(img, blocks) == splice(file_data(img, blocks), offset, Seq::<u8>::empty()));
}

/// A hole of the file that gets the head of the free list: the file reads
/// as before, for the new block is all zero as the hole was, and the
/// pointers and the rest of the free list still share the device without
/// overlap.
pub proof fn lemma_alloc_into_hole(
    img: Seq<Seq<u8>>,
    blocks: Seq<u32>,
    chain: Seq<u32>,
    index: int,
)
    requires
        owns(img, blocks, chain),
        chain.len() > 0,
        0 <= index < NDIRECT,
        blocks[index] == UNUSED_BLOCKADDR,
    ensures
        free_head(img) == chain[0],
        owns(after_alloc(img), blocks.update(index, chain[0]), chain.skip(1)),
        file_data(after_alloc(img), blocks.update(index, chain[0])) == file_data(img, blocks),
        untouched_outside(img, after_alloc(img), blocks.update(index, chain[0])),
{
    let out = after_alloc(img);
    let b = chain[0];
    let blocks1 = blocks.update(index, b);
    let rest = chain.skip(1);
    crate::freelist::lemma_alloc_pops(img, chain);
    assert forall|i: int, k: int| 0 <= i < blocks1.len() && 0 <= k < rest.len() implies blocks1[i]
        != rest[k] by {
        assert(rest[k] == chain[k + 1]);
    }
    assert forall|i: int, j: int|
        0 <= i < j < blocks1.len() && blocks1[i] != UNUSED_BLOCKADDR implies blocks1[i]
        != blocks1[j] by {}
    assert forall|p: int| 0 <= p < MAX_FILE_SIZE implies file_data(out, blocks1)[p] == file_data(
        img,
        blocks,
    )[p] by {
        let q = p / (BLOCKSIZE as int);
        if q != index && blocks[q] != UNUSED_BLOCKADDR {
            assert(blocks[q] != chain[0]);
            assert(out[blocks[q] as int] == img[blocks[q] as int]);
        }
    }
    assert(file_data(out, blocks1) =~= file_data(img, blocks));
    assert(holds_block(blocks1, b as int)) by {
        assert(blocks1[index] == b);
    }
    assert forall|x: int|
        0 <= x < img.len() && x != SUPERBLOCK_ADDR && !holds_block(blocks1, x) implies #[trigger] out[x]
        == img[x] by {}
}

/// Bytes patched into a block of the file: the file holds them at their
/// place and is elsewhere as before, and the free list is untouched.
pub proof fn lemma_patch_block(
    img: Seq<Seq<u8>>,
    blocks: Seq<u32>,
    chain: Seq<u32>,
    index: int,
    within: int,
    e: Seq<u8>,
)
    requires
        owns(img, blocks, chain),
        0 <= index < NDIRECT,
        blocks[index] != UNUSED_BLOCKADDR,
        0 <= within,
        within + e.len() <= BLOCKSIZE,
    ensures
        ({
            let b = blocks[index] as int;
            let out = img.update(b, splice(img[b], within, e));
            &&& owns(out, blocks, chain)
            &&& file_data(out, blocks) == splice(
                file_data(img, blocks),
                index * BLOCKSIZE + within,
                e,
            )
            &&& untouched_outside(img, out, blocks)
        }),
{
    let b = blocks[index] as int;
    let out = img.update(b, splice(img[b], within, e));
    assert(chain.len() > 0 ==> blocks[index] != chain[0]);
    assert(b != SUPERBLOCK_ADDR);
    assert(free_head(out) == free_head(img));
    assert forall|i: int| 0 <= i < chain.len() implies #[trigger] next_free(out, chain[i])
        == link_after(chain, i) by {
        assert(blocks[index] != chain[i]);
        assert(next_free(img, chain[i]) == link_after(chain, i));
    }
    let want = splice(file_data(img, blocks), index * BLOCKSIZE + within, e);
    assert forall|p: int| 0 <= p < MAX_FILE_SIZE implies file_data(out, blocks)[p] == want[p] by {
        let q = p / (BLOCKSIZE as int);
        if q != index && blocks[q] != UNUSED_BLOCKADDR {
            assert(blocks[q] != blocks[index]);
        }
    }
    assert(file_data(out, blocks) =~= want);
    assert(holds_block(blocks, b));
}

/// Two steps that each left the rest of the device alone did so together.
pub proof fn lemma_untouched_trans(
    img0: Seq<Seq<u8>>,
    img1: Seq<Seq<u8>>,
    blocks1: Seq<u32>,
    img2: Seq<Seq<u8>>,
    blocks2: Seq<u32>,
)
    requires
        untouched_outside(img0, img1, blocks1),
        untouched_outside(img1, img2, blocks2),
        blocks1.len() == blocks2.len(),
        forall|i: int|
            0 <= i < blocks1.len() && blocks1[i] != UNUSED_BLOCKADDR ==> blocks2[i] == blocks1[i],
    ensures
        untouched_outside(img0, img2, blocks2),
{
    assert forall|x: int|
        0 <= x < img0.len() && x != SUPERBLOCK_ADDR && !holds_block(blocks2, x) implies #[trigger] img2[x]
        == img0[x] by {
        if holds_block(blocks1, x) {
            let i = choose|i: int| 0 <= i < blocks1.len() && #[trigger] blocks1[i] == x;
            assert(blocks2[i] == x);
        }
        assert(img2[x] == img1[x]);
        assert(img1[x] == img0[x]);
    }
}

/// One more run of bytes behind a prefix that was written is a longer
/// prefix written.
pub proof fn lemma_splice_append(data: Seq<u8>, offset: int, d: Seq<u8>, m: int, c: int)
    requires
        0 <= offset,
        0 <= m,
        0 <= c,
        m + c <= d.len(),
    ensures
        splice(splice(data, offset, d.take(m)), offset + m, d.subrange(m, m + c)) == splice(
            data,
            offset,
            d.take(m + c),
        ),
{
    assert(splice(splice(data, offset, d.take(m)), offset + m, d.subrange(m, m + c)) =~= splice(
        data,
        offset,
        d.take(m + c),
    ));
}

/// No range has fewer than no holes.
pub proof fn lemma_holes_nonneg(blocks: Seq<u32>, lo: int, hi: int)
    ensures
        0 <= holes(blocks, lo, hi),
    decreases hi - lo,
{
    if hi > lo {
        lemma_holes_nonneg(blocks, lo, hi - 1);
    }
}

/// A wider range has no fewer holes.
pub proof fn lemma_holes_grow(blocks: Seq<u32>, lo: int, mid: int, hi: int)
    requires
        lo <= mid <= hi,
    ensures
        holes(blocks, lo, mid) <= holes(blocks, lo, hi),
    decreases hi - mid,
{
    if mid < hi {
        lemma_holes_grow(blocks, lo, mid, hi - 1);
    }
}

/// The image after the bytes `e` went into block `b` at `within`.
pub open spec fn patched(img: Seq<Seq<u8>>, b: u32, within: int, e: Seq<u8>) -> Seq<Seq<u8>> {
    img.update(b as int, splice(img[b as int], within, e))
}

/// One step of a write. The first `done` bytes of `d` are written and the
/// next `chunk` bytes lie in one block: where that block was a hole it
/// gets the head of the free list, and the bytes are patched into it. Then
/// the first `done + chunk` bytes are written.
pub proof fn lemma_write_step(
    img0: Seq<Seq<u8>>,
    blocks0: Seq<u32>,
    chain: Seq<u32>,
    offset: int,
    d: Seq<u8>,
    done: int,
    chunk: int,
    img1: Seq<Seq<u8>>,
    blocks1: Seq<u32>,
    img2: Seq<Seq<u8>>,
    blocks2: Seq<u32>,
)
    requires
        0 <= offset,
        0 <= done,
        0 < chunk,
        done + chunk <= d.len(),
        blocks0.len() == NDIRECT,
        written(img0, blocks0, chain, offset, d.take(done), img1, blocks1),
        done > 0 ==> (offset + done) % (BLOCKSIZE as int) == 0,
        (offset + done) / (BLOCKSIZE as int) < NDIRECT,
        (offset + done) % (BLOCKSIZE as int) + chunk <= BLOCKSIZE,
        ({
            let index = (offset + done) / (BLOCKSIZE as int);
            let within = (offset + done) % (BLOCKSIZE as int);
            let e = d.subrange(done, done + chunk);
            if blocks1[index] == UNUSED_BLOCKADDR {
                &&& free_head(img1) != UNUSED_BLOCKADDR
                &&& blocks2 == blocks1.update(index, free_head(img1))
                &&& img2 == patched(after_alloc(img1), free_head(img1), within, e)
            } else {
                &&& blocks2 == blocks1
                &&& img2 == patched(img1, blocks1[index], within, e)
            }
        }),
    ensures
        written(img0, blocks0, chain, offset, d.take(done + chunk), img2, blocks2),
{
    let lo = offset / (BLOCKSIZE as int);
    let index = (offset + done) / (BLOCKSIZE as int);
    let within = (offset + done) % (BLOCKSIZE as int);
    let e = d.subrange(done, done + chunk);
    let k = holes(blocks0, lo, index);
    assert(end_block(offset, d.take(done).len() as int) == index);
    assert(end_block(offset, d.take(done + chunk).len() as int) == index + 1);
    lemma_fill_holes_frame(blocks0, lo, index, chain);
    assert(blocks1[index] == blocks0[index]);
    let rest = chain.skip(k);
    let data0 = file_data(img0, blocks0);
    if blocks1[index] == UNUSED_BLOCKADDR {
        assert(rest.len() > 0);
        let mid = after_alloc(img1);
        lemma_alloc_into_hole(img1, blocks1, rest, index);
        assert(rest[0] == chain[k]);
        assert(rest.skip(1) == chain.skip(k + 1));
        lemma_patch_block(mid, blocks2, chain.skip(k + 1), index, within, e);
        lemma_untouched_trans(img1, mid, blocks2, img2, blocks2);
        lemma_untouched_trans(img0, img1, blocks1, img2, blocks2);
    } else {
        lemma_patch_block(img1, blocks1, rest, index, within, e);
        lemma_untouched_trans(img0, img1, blocks1, img2, blocks2);
    }
    lemma_splice_append(data0, offset, d, done, chunk);
}

/// What a write may rely on before its next step, once the first `done`
/// bytes of `d` are written: the pointer of the next block, where it is
/// set, names a block of the device; the head of the free list is a
/// sector of the device; and where the next block is a hole and the free
/// list is empty, the write needs more blocks than the free list had.
pub proof fn lemma_before_step(
    img0: Seq<Seq<u8>>,
    blocks0: Seq<u32>,
    chain: Seq<u32>,
    offset: int,
    d: Seq<u8>,
    done: int,
    top: int,
    img1: Seq<Seq<u8>>,
    blocks1: Seq<u32>,
)
    requires
        0 <= offset,
        0 <= done <= d.len(),
        blocks0.len() == NDIRECT,
        written(img0, blocks0, chain, offset, d.take(done), img1, blocks1),
        done > 0 ==> (offset + done) % (BLOCKSIZE as int) == 0,
        (offset + done) / (BLOCKSIZE as int) < top,
        (offset + done) / (BLOCKSIZE as int) < NDIRECT,
    ensures
        ({
            let lo = offset / (BLOCKSIZE as int);
            let index = (offset + done) / (BLOCKSIZE as int);
            &&& blocks1.len() == NDIRECT
            &&& blocks1[index] != UNUSED_BLOCKADDR ==> blocks1[index] < img1.len()
            &&& free_head(img1) < img1.len()
            &&& blocks1[index] == UNUSED_BLOCKADDR && free_head(img1) == UNUSED_BLOCKADDR
                ==> chain.len() < holes(blocks0, lo, top)
        }),
{
    let lo = offset / (BLOCKSIZE as int);
    let index = (offset + done) / (BLOCKSIZE as int);
    let k = holes(blocks0, lo, index);
    assert(end_block(offset, d.take(done).len() as int) == index);
    lemma_fill_holes_frame(blocks0, lo, index, chain);
    lemma_holes_grow(blocks0, lo, index + 1, top);
    let rest = chain.skip(k);
    if rest.len() > 0 {
        assert(rest[0] < img1.len());
    }
}

} // verus!
