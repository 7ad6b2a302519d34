//! The free list: a stack of blocks threaded through the free blocks
//! themselves.

use vstd::prelude::*;
use crate::bytes::{fill_zero, get_u32, le32, lemma_u32_round_trip, put_u32, splice, u32_at, zeros};
use crate::disk::{wf_image, Disk};
use crate::filesystem::{FileSystem, FsError};
use crate::layout::{BLOCKSIZE, SUPERBLOCK_ADDR, UNUSED_BLOCKADDR};
use crate::superblock::FREE_HEAD_OFFSET;

verus! {

/// The block at the head of the free list, as the superblock records it.
pub open spec fn free_head(img: Seq<Seq<u8>>) -> u32 {
    u32_at(img[SUPERBLOCK_ADDR as int], FREE_HEAD_OFFSET as int)
}

/// The block that follows the free block `b` in the free list: the first
/// word of `b`.
pub open spec fn next_free(img: Seq<Seq<u8>>, b: u32) -> u32 {
    u32_at(img[b as int], 0)
}

/// The image with the free-list head set to `head`.
pub open spec fn with_free_head(img: Seq<Seq<u8>>, head: u32) -> Seq<Seq<u8>> {
    img.update(
        SUPERBLOCK_ADDR as int,
        splice(img[SUPERBLOCK_ADDR as int], FREE_HEAD_OFFSET as int, le32(head)),
    )
}

/// The content `block` of a block once it is free and its successor is
/// `next`: the link in its first word, the rest as it was.
pub open spec fn link_block(block: Seq<u8>, next: u32) -> Seq<u8> {
    splice(block, 0, le32(next))
}

/// The image after the head of the free list was taken: the head moves to
/// its successor and the block that was taken is all zero.
pub open spec fn after_alloc(img: Seq<Seq<u8>>) -> Seq<Seq<u8>> {
    with_free_head(img, next_free(img, free_head(img))).update(
        free_head(img) as int,
        zeros(BLOCKSIZE as int),
    )
}

/// The image after block `b` was put on the free list: `b` links to the
/// old head and is the new head.
pub open spec fn after_free(img: Seq<Seq<u8>>, b: u32) -> Seq<Seq<u8>> {
    img.update(b as int, link_block(img[b as int], free_head(img))).update(
        SUPERBLOCK_ADDR as int,
        splice(img[SUPERBLOCK_ADDR as int], FREE_HEAD_OFFSET as int, le32(b)),
    )
}

/// The block that follows position `i` of the chain `s`, or
/// `UNUSED_BLOCKADDR` behind its last block.
pub open spec fn link_after(s: Seq<u32>, i: int) -> u32 {
    if i + 1 < s.len() {
        s[i + 1]
    } else {
        UNUSED_BLOCKADDR
    }
}

/// `s` is the free list of `img`, from its head to its end: the superblock
/// names the first block, each block names the next, the last names none,
/// and no block comes twice.
pub open spec fn is_free_chain(img: Seq<Seq<u8>>, s: Seq<u32>) -> bool {
    &&& free_head(img) == link_after(s, -1)
    &&& forall|i: int|
        0 <= i < s.len() ==> (#[trigger] s[i]) != UNUSED_BLOCKADDR && s[i] < img.len()
    &&& forall|i: int| 0 <= i < s.len() ==> #[trigger] next_free(img, s[i]) == link_after(s, i)
    &&& forall|i: int, j: int| 0 <= i < j < s.len() ==> s[i] != s[j]
}

/// The image has a free list that ends.
pub open spec fn has_free_list(img: Seq<Seq<u8>>) -> bool {
    exists|s: Seq<u32>| is_free_chain(img, s)
}

/// The free list of the image, from its head to its end.
pub open spec fn free_list(img: Seq<Seq<u8>>) -> Seq<u32> {
    choose|s: Seq<u32>| is_free_chain(img, s)
}

proof fn lemma_chain_agree(img: Seq<Seq<u8>>, a: Seq<u32>, b: Seq<u32>, n: int)
    requires
        is_free_chain(img, a),
        is_free_chain(img, b),
        0 <= n <= a.len(),
        n <= b.len(),
    ensures
        forall|i: int| 0 <= i < n ==> a[i] == b[i],
    decreases n,
{
    if n > 0 {
        lemma_chain_agree(img, a, b, n - 1);
        if n >= 2 {
            assert(next_free(img, a[n - 2]) == link_after(a, n - 2));
            assert(next_free(img, b[n - 2]) == link_after(b, n - 2));
        }
    }
}

/// An image has one free list at most.
pub proof fn lemma_free_chain_unique(img: Seq<Seq<u8>>, a: Seq<u32>, b: Seq<u32>)
    requires
        is_free_chain(img, a),
        is_free_chain(img, b),
    ensures
        a == b,
{
    let n = if a.len() <= b.len() {
        a.len() as int
    } else {
        b.len() as int
    };
    lemma_chain_agree(img, a, b, n);
    if n > 0 {
        assert(next_free(img, a[n - 1]) == link_after(a, n - 1));
        assert(next_free(img, b[n - 1]) == link_after(b, n - 1));
    }
    if a.len() < b.len() {
        assert(b[n] != UNUSED_BLOCKADDR);
    }
    if b.len() < a.len() {
        assert(a[n] != UNUSED_BLOCKADDR);
    }
    assert(a =~= b);
}

/// A chain that fits the image is its free list.
pub proof fn lemma_free_list_is(img: Seq<Seq<u8>>, s: Seq<u32>)
    requires
        is_free_chain(img, s),
    ensures
        has_free_list(img),
        free_list(img) == s,
{
    lemma_free_chain_unique(img, s, free_list(img));
}

/// The free list is where it was as long as the superblock and the free
/// blocks are as they were.
pub proof fn lemma_chain_frame(img0: Seq<Seq<u8>>, img1: Seq<Seq<u8>>, s: Seq<u32>)
    requires
        is_free_chain(img0, s),
        img1.len() == img0.len(),
        free_head(img1) == free_head(img0),
        forall|i: int| 0 <= i < s.len() ==> img1[#[trigger] s[i] as int] == img0[s[i] as int],
    ensures
        is_free_chain(img1, s),
{
    assert forall|i: int| 0 <= i < s.len() implies #[trigger] next_free(img1, s[i]) == link_after(
        s,
        i,
    ) by {
        assert(next_free(img0, s[i]) == link_after(s, i));
    }
}

/// To allocate pops the free list: the block handed out is the first of
/// the list, and the rest of the list stays as it was.
pub proof fn lemma_alloc_pops(img: Seq<Seq<u8>>, s: Seq<u32>)
    requires
        wf_image(img),
        is_free_chain(img, s),
        s.len() > 0,
    ensures
        free_head(img) == s[0],
        is_free_chain(after_alloc(img), s.skip(1)),
{
    let out = after_alloc(img);
    let t = s.skip(1);
    let head = s[0];
    assert(next_free(img, s[0]) == link_after(s, 0));
    lemma_u32_round_trip(img[SUPERBLOCK_ADDR as int], FREE_HEAD_OFFSET as int, next_free(img, head));
    assert(free_head(out) == link_after(t, -1));
    assert forall|i: int| 0 <= i < t.len() implies #[trigger] next_free(out, t[i]) == link_after(
        t,
        i,
    ) by {
        assert(t[i] == s[i + 1]);
        assert(next_free(img, s[i + 1]) == link_after(s, i + 1));
    }
}

/// To free pushes on the free list: the block is the new first of the
/// list, in front of what the list held.
pub proof fn law_free_pushes(img: Seq<Seq<u8>>, s: Seq<u32>, b: u32)
    requires
        wf_image(img),
        is_free_chain(img, s),
        b != UNUSED_BLOCKADDR,
        b < img.len(),
        !s.contains(b),
    ensures
        is_free_chain(after_free(img, b), seq![b] + s),
{
    let out = after_free(img, b);
    let t = seq![b] + s;
    lemma_u32_round_trip(img[SUPERBLOCK_ADDR as int], FREE_HEAD_OFFSET as int, b);
    lemma_u32_round_trip(img[b as int], 0, free_head(img));
    assert(free_head(out) == link_after(t, -1));
    assert forall|i: int| 0 <= i < t.len() implies #[trigger] next_free(out, t[i]) == link_after(
        t,
        i,
    ) by {
        if i > 0 {
            assert(t[i] == s[i - 1]);
            assert(s.contains(s[i - 1]));
            assert(next_free(img, s[i - 1]) == link_after(s, i - 1));
        }
    }
    assert forall|i: int, j: int| 0 <= i < j < t.len() implies t[i] != t[j] by {
        assert(s.contains(s[j - 1]));
        if i > 0 {
            assert(t[i] == s[i - 1]);
        }
    }
}

/// Last in, first out: the block freed last is the block allocated next,
/// and the head of the free list is then what it was before the two
/// calls.
pub proof fn law_free_then_alloc(img: Seq<Seq<u8>>, b: u32)
    requires
        wf_image(img),
        0 < img.len(),
        b != UNUSED_BLOCKADDR,
        b < img.len(),
    ensures
        free_head(after_free(img, b)) == b,
        free_head(after_alloc(after_free(img, b))) == free_head(img),
{
    let mid = after_free(img, b);
    lemma_u32_round_trip(img[SUPERBLOCK_ADDR as int], FREE_HEAD_OFFSET as int, b);
    lemma_u32_round_trip(img[b as int], 0, free_head(img));
    assert(next_free(mid, b) == free_head(img));
    lemma_u32_round_trip(mid[SUPERBLOCK_ADDR as int], FREE_HEAD_OFFSET as int, free_head(img));
}

impl<T: Disk> FileSystem<T> {
    /// Takes the block at the head of the free list, fills it with zero
    /// bytes and returns its number. `device` names the device for the
    /// caller's records; the engine drives the one device it was given.
    ///
    /// With an empty free list the call fails with `OutOfSpace` and the
    /// device is as it was.
    pub fn alloc_block(&mut self, device: u32) -> (r: Result<u32, FsError>)
        ensures
            final(self).image().len() == old(self).image().len(),
            final(self).disk.reliable() == old(self).disk.reliable(),
            match r {
                Ok(b) => {
                    &&& b == free_head(old(self).image())
                    &&& b != UNUSED_BLOCKADDR
                    &&& b < old(self).image().len()
                    &&& final(self).image() == after_alloc(old(self).image())
                },
                Err(FsError::OutOfSpace) => {
                    &&& 0 < old(self).image().len()
                    &&& free_head(old(self).image()) == UNUSED_BLOCKADDR
                    &&& final(self).image() == old(self).image()
                },
                Err(FsError::DeviceError(_)) => !(old(self).disk.reliable() && free_head(
                    old(self).image(),
                ) < old(self).image().len()),
                Err(_) => false,
            },
            old(self).disk.reliable() && SUPERBLOCK_ADDR < old(self).image().len() && free_head(
                old(self).image(),
            ) == UNUSED_BLOCKADDR ==> r == Err::<u32, FsError>(FsError::OutOfSpace),
    {
        let mut sb = self.load(SUPERBLOCK_ADDR)?;
        let head: u32 = get_u32(sb.as_slice(), FREE_HEAD_OFFSET);
        if head == UNUSED_BLOCKADDR {
            return Err(FsError::OutOfSpace);
        }
        let mut block = self.load(head)?;
        let next: u32 = get_u32(block.as_slice(), 0);
        put_u32(&mut sb, FREE_HEAD_OFFSET, next);
        self.store(sb.as_slice(), SUPERBLOCK_ADDR)?;
        fill_zero(&mut block);
        self.store(block.as_slice(), head)?;
        Ok(head)
    }

    /// Puts block `block` on the free list: it becomes the head and links
    /// to the old head. `device` names the device for the caller's
    /// records.
    ///
    /// Nothing checks that `block` was in use: to free a block twice, or
    /// one that a file still holds, breaks the filesystem.
    pub fn free_block(&mut self, device: u32, block: u32) -> (r: Result<(), FsError>)
        ensures
            final(self).image().len() == old(self).image().len(),
            final(self).disk.reliable() == old(self).disk.reliable(),
            match r {
                Ok(()) => {
                    &&& block < old(self).image().len()
                    &&& final(self).image() == after_free(old(self).image(), block)
                },
                Err(FsError::DeviceError(_)) => !(old(self).disk.reliable() && block < old(
                    self,
                ).image().len()),
                Err(_) => false,
            },
    {
        let mut sb = self.load(SUPERBLOCK_ADDR)?;
        let head: u32 = get_u32(sb.as_slice(), FREE_HEAD_OFFSET);
        let mut link = [0u8;4];
        put_u32(&mut link, 0, head);
        assert(link@ == le32(head));
        self.store_front(link.as_slice(), block)?;
        put_u32(&mut sb, FREE_HEAD_OFFSET, block);
        self.store(sb.as_slice(), SUPERBLOCK_ADDR)?;
        Ok(())
    }
}

} // verus!
