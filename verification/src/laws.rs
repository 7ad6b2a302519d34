//! What holds of the engine as a whole, proved from the contracts of its
//! operations.

use vstd::prelude::*;
use crate::bytes::splice;
use crate::directory::{entry_at, first_match, lookup};
use crate::dirent::{dirent_bytes, entry_names, lemma_dirent_round_trip, padded};
use crate::consistency::{consistent, lemma_consistent_owns};
use crate::directory::lemma_first_match;
use crate::disk::wf_image;
use crate::extent::{end_block, holes, lemma_holes_nonneg, owns, written};
use crate::file::{blocks_present, clipped, file_bytes, file_data, read_result, write_result};
use crate::filesystem::FsError;
use crate::format::{
    descending,
    dot,
    dotdot,
    formatted,
    freed_range,
    lemma_freed_range_chain,
};
use crate::freelist::{after_alloc, free_head, free_list, is_free_chain, lemma_alloc_pops};
use crate::inode::Inode;
use crate::inodes::{inode_at, stored_inode};
use crate::layout::{
    BLOCKSIZE,
    DIRENT_SIZE,
    DIRNAME_SIZE,
    MAX_FILE_SIZE,
    NDIRECT,
    NUM_INODES,
    ROOT_DEV,
    ROOT_INUM,
    SUPERBLOCK_ADDR,
    UNUSED_BLOCKADDR,
};
use crate::path::{
    component_end,
    descend,
    descend_present,
    enter,
    enter_present,
    lemma_component_end,
    resolve,
    resolve_present,
    SEPARATOR,
};
use crate::seed::{entry_room, has_root, seed_result, seeded};
use crate::inode::is_unused;
use crate::inodes::{all_in_use, first_free_inode, inode_slot, is_first_free};

verus! {

/// The inode is that of a file with no content and no block.
pub open spec fn is_fresh_file(ino: Inode) -> bool {
    ino.size == 0 && forall|i: int| 0 <= i < NDIRECT ==> ino.blocks@[i] == UNUSED_BLOCKADDR
}

/// Round trip: bytes written at offset 0 into a fresh file, then read from
/// offset 0 into a buffer of the same length, come back as they went,
/// unless the device fails on the read, which a reliable device does not.
/// The bytes are one at least: a file without content reads as
/// `EndOfFile`.
pub proof fn law_round_trip(
    img0: Seq<Seq<u8>>,
    ino0: Inode,
    reliable: bool,
    data: Seq<u8>,
    img1: Seq<Seq<u8>>,
    ino1: Inode,
    buf0: Seq<u8>,
    r: Result<usize, FsError>,
    buf1: Seq<u8>,
)
    requires
        owns(img0, ino0.blocks@, free_list(img0)),
        is_fresh_file(ino0),
        0 < data.len(),
        buf0.len() == data.len(),
        write_result(img0, ino0, reliable, 0, data, Ok(data.len() as usize), img1, ino1),
        read_result(img1, ino1, reliable, 0, buf0, r, buf1),
    ensures
        r matches Err(FsError::DeviceError(_)) || (r == Ok::<usize, FsError>(data.len() as usize)
            && buf1 == data),
        reliable ==> r is Ok,
{
    let chain = free_list(img0);
    let blocks1 = ino1.blocks@;
    assert(written(img0, ino0.blocks@, chain, 0, data, img1, blocks1));
    let before = file_data(img0, ino0.blocks@);
    let after = file_data(img1, blocks1);
    assert(after == splice(before, 0, data));
    assert(after.subrange(0, data.len() as int) =~= data);
    assert(splice(buf0, 0, data) =~= data);
    if reliable {
        assert(blocks_present(img1.len() as int, blocks1, 0, data.len() as int));
    }
}

/// Read back: bytes written anywhere into a file, then read from the same
/// offset into a buffer of the same length, come back as they went,
/// unless the device fails on the read, which a reliable device does not.
pub proof fn law_read_back(
    img0: Seq<Seq<u8>>,
    ino0: Inode,
    reliable: bool,
    offset: u32,
    data: Seq<u8>,
    img1: Seq<Seq<u8>>,
    ino1: Inode,
    buf0: Seq<u8>,
    r: Result<usize, FsError>,
    buf1: Seq<u8>,
)
    requires
        owns(img0, ino0.blocks@, free_list(img0)),
        ino0.wf(),
        0 < data.len(),
        buf0.len() == data.len(),
        write_result(img0, ino0, reliable, offset, data, Ok(data.len() as usize), img1, ino1),
        read_result(img1, ino1, reliable, offset, buf0, r, buf1),
    ensures
        r matches Err(FsError::DeviceError(_)) || (r == Ok::<usize, FsError>(data.len() as usize)
            && buf1 == data),
        reliable ==> r is Ok,
{
    let chain = free_list(img0);
    let blocks1 = ino1.blocks@;
    assert(written(img0, ino0.blocks@, chain, offset as int, data, img1, blocks1));
    let before = file_data(img0, ino0.blocks@);
    let after = file_data(img1, blocks1);
    assert(after == splice(before, offset as int, data));
    assert(after.subrange(offset as int, offset + data.len()) =~= data);
    assert(splice(buf0, 0, data) =~= data);
    if reliable {
        assert(blocks_present(img1.len() as int, blocks1, offset as int, offset + data.len()));
    }
}

/// A write leaves every byte of the file that it does not cover as it
/// was: those before it and those behind it, in the blocks that it
/// touches as in the others.
pub proof fn law_write_keeps_other_bytes(
    img0: Seq<Seq<u8>>,
    ino0: Inode,
    reliable: bool,
    offset: u32,
    data: Seq<u8>,
    img1: Seq<Seq<u8>>,
    ino1: Inode,
    p: int,
)
    requires
        owns(img0, ino0.blocks@, free_list(img0)),
        write_result(img0, ino0, reliable, offset, data, Ok(data.len() as usize), img1, ino1),
        0 <= p < MAX_FILE_SIZE,
        !(offset <= p < offset + data.len()),
    ensures
        file_data(img1, ino1.blocks@)[p] == file_data(img0, ino0.blocks@)[p],
{
    if data.len() > 0 {
        assert(written(
            img0,
            ino0.blocks@,
            free_list(img0),
            offset as int,
            data,
            img1,
            ino1.blocks@,
        ));
    }
}

/// Boundary, lower side: on a reliable device, bytes that fill a file to
/// its last byte are written, as long as the free list has a block for
/// each hole of the file.
pub proof fn law_full_file_fits(
    img0: Seq<Seq<u8>>,
    ino0: Inode,
    data: Seq<u8>,
    r: Result<usize, FsError>,
    img1: Seq<Seq<u8>>,
    ino1: Inode,
)
    requires
        owns(img0, ino0.blocks@, free_list(img0)),
        ino0.size <= MAX_FILE_SIZE,
        data.len() == MAX_FILE_SIZE,
        holes(ino0.blocks@, 0, NDIRECT as int) <= free_list(img0).len(),
        write_result(img0, ino0, true, 0, data, r, img1, ino1),
    ensures
        r == Ok::<usize, FsError>(MAX_FILE_SIZE as usize),
        ino1.size == MAX_FILE_SIZE,
        file_data(img1, ino1.blocks@) == data,
{
    assert(end_block(0, clipped(0, data).len() as int) == NDIRECT);
    assert(written(img0, ino0.blocks@, free_list(img0), 0, data, img1, ino1.blocks@));
    assert(file_data(img1, ino1.blocks@) =~= data);
}

/// Boundary, upper side: one byte more than a file can hold is refused
/// with `FileTooLarge`, on a reliable device whose free list has a block
/// for each hole of the file; the size of the file stays.
pub proof fn law_one_byte_more_is_too_large(
    img0: Seq<Seq<u8>>,
    ino0: Inode,
    data: Seq<u8>,
    r: Result<usize, FsError>,
    img1: Seq<Seq<u8>>,
    ino1: Inode,
)
    requires
        owns(img0, ino0.blocks@, free_list(img0)),
        data.len() == MAX_FILE_SIZE + 1,
        holes(ino0.blocks@, 0, NDIRECT as int) <= free_list(img0).len(),
        write_result(img0, ino0, true, 0, data, r, img1, ino1),
    ensures
        r == Err::<usize, FsError>(FsError::FileTooLarge),
        ino1.size == ino0.size,
{
    assert(clipped(0, data).len() == MAX_FILE_SIZE);
    assert(end_block(0, clipped(0, data).len() as int) == NDIRECT);
}

/// Whatever the device: bytes that end behind the last byte a file can
/// hold are never written whole.
pub proof fn law_too_large_never_succeeds(
    img0: Seq<Seq<u8>>,
    ino0: Inode,
    reliable: bool,
    offset: u32,
    data: Seq<u8>,
    r: Result<usize, FsError>,
    img1: Seq<Seq<u8>>,
    ino1: Inode,
)
    requires
        offset + data.len() > MAX_FILE_SIZE,
        0 < data.len(),
        write_result(img0, ino0, reliable, offset, data, r, img1, ino1),
    ensures
        r is Err,
        ino1.size == ino0.size,
{
}

/// Last in, first out, after formatting the free list: where the blocks
/// from `first` up to `end` were freed in rising order onto an empty free
/// list, the first block handed out is the last that was freed, and the
/// second the one below it.
pub proof fn law_rising_frees_fall_out(img0: Seq<Seq<u8>>, first: u32, end: u32, img1: Seq<Seq<u8>>)
    requires
        wf_image(img0),
        wf_image(img1),
        is_free_chain(img0, Seq::<u32>::empty()),
        SUPERBLOCK_ADDR < first,
        first + 2 <= end,
        end <= img0.len(),
        freed_range(img0, first, end, img1),
    ensures
        free_list(img1) == descending(first, end),
        free_head(img1) == end - 1,
        free_head(after_alloc(img1)) == end - 2,
        free_list(after_alloc(img1)) == descending(first, (end - 1) as u32),
{
    let d = descending(first, end);
    lemma_freed_range_chain(img0, first, end, img1, Seq::<u32>::empty());
    assert(d + Seq::<u32>::empty() == d);
    crate::freelist::lemma_free_list_is(img1, d);
    lemma_alloc_pops(img1, d);
    assert(d.skip(1) == descending(first, (end - 1) as u32));
    crate::freelist::lemma_free_list_is(after_alloc(img1), d.skip(1));
}

/// Directory self-reference: in a fresh filesystem the names `.` and `..`
/// of the root directory both stand for the root itself, in the first and
/// in the second entry, and the path `/` leads to them.
pub proof fn law_root_names_itself(img: Seq<Seq<u8>>)
    requires
        formatted(img),
    ensures
        inode_at(img, ROOT_DEV, ROOT_INUM) == Ok::<Inode, FsError>(stored_inode(img, ROOT_INUM)),
        lookup(img, stored_inode(img, ROOT_INUM), dot()) == Some((ROOT_INUM, 0usize)),
        lookup(img, stored_inode(img, ROOT_INUM), dotdot()) == Some((ROOT_INUM, DIRENT_SIZE)),
        resolve(img, seq![SEPARATOR], dot()) == Ok::<u32, FsError>(ROOT_INUM),
        resolve(img, seq![SEPARATOR], dotdot()) == Ok::<u32, FsError>(ROOT_INUM),
{
    let root = stored_inode(img, ROOT_INUM);
    let data = file_data(img, root.blocks@);
    let e1 = dirent_bytes(dot(), ROOT_INUM);
    let e2 = dirent_bytes(dotdot(), ROOT_INUM);
    lemma_dirent_round_trip(dot(), ROOT_INUM);
    lemma_dirent_round_trip(dotdot(), ROOT_INUM);
    let both = e1 + e2;
    assert(data.take(2 * DIRENT_SIZE as int) == both);
    assert(entry_at(data, 0) =~= e1) by {
        assert forall|j: int| 0 <= j < DIRENT_SIZE implies entry_at(data, 0)[j] == e1[j] by {
            assert(data.take(2 * DIRENT_SIZE as int)[j] == both[j]);
        }
    }
    assert(entry_at(data, 1) =~= e2) by {
        assert forall|j: int| 0 <= j < DIRENT_SIZE implies entry_at(data, 1)[j] == e2[j] by {
            assert(data.take(2 * DIRENT_SIZE as int)[DIRENT_SIZE + j] == both[DIRENT_SIZE + j]);
        }
    }
    assert(!entry_names(e1, dotdot())) by {
        assert(padded(dot())[1] != padded(dotdot())[1]);
    }
    assert(first_match(data, dot(), 0, 2) == 0);
    assert(first_match(data, dotdot(), 1, 2) == 1);
    assert(first_match(data, dotdot(), 0, 2) == 1);
    let path = seq![SEPARATOR];
    assert(descend(img, root, path, 1) == Ok::<Inode, FsError>(root));
    assert(descend(img, root, path, 0) == Ok::<Inode, FsError>(root));
}

/// Where no entry from `k` up to `count` holds the name, the first match
/// among one entry more is that entry or none.
pub proof fn lemma_first_match_behind(data: Seq<u8>, name: Seq<u8>, k: int, count: int)
    requires
        0 <= k <= count,
        forall|j: int| k <= j < count ==> !entry_names(#[trigger] entry_at(data, j), name),
    ensures
        first_match(data, name, k, count + 1) == (if entry_names(entry_at(data, count), name) {
            count
        } else {
            count + 1
        }),
    decreases count - k,
{
    if k < count {
        assert(!entry_names(entry_at(data, k), name));
        lemma_first_match_behind(data, name, k + 1, count);
    } else {
        assert(first_match(data, name, count + 1, count + 1) == count + 1);
    }
}

/// A seeded file is found: on a consistent filesystem whose root directory
/// is a run of whole entries, none of which holds the name, the path `/`
/// and the name resolve to the inode of the file after seeding, the entry
/// stands at the old end of the directory, and the file holds the
/// content.
pub proof fn law_seeded_file_is_found(
    img0: Seq<Seq<u8>>,
    name: Seq<u8>,
    content: Seq<u8>,
    img1: Seq<Seq<u8>>,
)
    requires
        consistent(img0),
        has_root(img0),
        name.len() <= DIRNAME_SIZE,
        stored_inode(img0, ROOT_INUM).size % (DIRENT_SIZE as u32) == 0,
        lookup(img0, stored_inode(img0, ROOT_INUM), name) is None,
        seeded(img0, name, content, img1),
    ensures
        lookup(img1, stored_inode(img1, ROOT_INUM), name) == Some(
            (first_free_inode(img0), stored_inode(img0, ROOT_INUM).size as usize),
        ),
        resolve(img1, seq![SEPARATOR], name) == Ok::<u32, FsError>(first_free_inode(img0)),
        inode_at(img1, ROOT_DEV, first_free_inode(img0)) == Ok::<Inode, FsError>(
            stored_inode(img1, first_free_inode(img0)),
        ),
        file_bytes(img1, stored_inode(img1, first_free_inode(img0))) == content,
{
    let inum = first_free_inode(img0);
    let root0 = stored_inode(img0, ROOT_INUM);
    let root1 = stored_inode(img1, ROOT_INUM);
    let data0 = file_data(img0, root0.blocks@);
    let data1 = file_data(img1, root1.blocks@);
    let count = root0.size as int / (DIRENT_SIZE as int);
    let entry = dirent_bytes(name, inum);
    let size = root0.size as int;
    lemma_dirent_round_trip(name, inum);
    lemma_consistent_owns(img0, ROOT_INUM);
    lemma_consistent_owns(img1, ROOT_INUM);
    lemma_consistent_owns(img1, inum);
    let all = data0.take(size) + entry;
    assert(data1.take(size + DIRENT_SIZE) == all);
    lemma_first_match(data0, name, 0, count);
    assert forall|j: int| 0 <= j < count implies !entry_names(
        #[trigger] entry_at(data1, j),
        name,
    ) by {
        assert(entry_at(data1, j) =~= entry_at(data0, j)) by {
            assert forall|t: int| 0 <= t < DIRENT_SIZE implies entry_at(data1, j)[t] == entry_at(
                data0,
                j,
            )[t] by {
                assert(data1.take(size + DIRENT_SIZE)[j * DIRENT_SIZE + t] == all[j * DIRENT_SIZE
                    + t]);
            }
        }
        assert(!entry_names(entry_at(data0, j), name));
    }
    assert(entry_at(data1, count) =~= entry) by {
        assert forall|t: int| 0 <= t < DIRENT_SIZE implies entry_at(data1, count)[t]
            == entry[t] by {
            assert(data1.take(size + DIRENT_SIZE)[size + t] == all[size + t]);
        }
    }
    lemma_first_match_behind(data1, name, 0, count);
    assert(root1.size as int / (DIRENT_SIZE as int) == count + 1);
    let path = seq![SEPARATOR];
    assert(descend(img1, root1, path, 1) == Ok::<Inode, FsError>(root1));
    assert(descend(img1, root1, path, 0) == Ok::<Inode, FsError>(root1));
}

/// An added name is found: where a directory is a run of whole entries,
/// none of which holds the name, a lookup after the name was added finds
/// the inode that it was added for, in the entry at the old end of the
/// directory.
pub proof fn law_added_name_is_found(
    img0: Seq<Seq<u8>>,
    dir0: Inode,
    reliable: bool,
    name: Seq<u8>,
    inum: u32,
    img1: Seq<Seq<u8>>,
    dir1: Inode,
)
    requires
        owns(img0, dir0.blocks@, free_list(img0)),
        dir0.wf(),
        name.len() <= DIRNAME_SIZE,
        dir0.size % (DIRENT_SIZE as u32) == 0,
        lookup(img0, dir0, name) is None,
        write_result(
            img0,
            dir0,
            reliable,
            dir0.size,
            dirent_bytes(name, inum),
            Ok(DIRENT_SIZE),
            img1,
            dir1,
        ),
    ensures
        dir1.size == dir0.size + DIRENT_SIZE,
        lookup(img1, dir1, name) == Some((inum, dir0.size as usize)),
{
    let data0 = file_data(img0, dir0.blocks@);
    let data1 = file_data(img1, dir1.blocks@);
    let count = dir0.size as int / (DIRENT_SIZE as int);
    let entry = dirent_bytes(name, inum);
    let size = dir0.size as int;
    lemma_dirent_round_trip(name, inum);
    assert(written(img0, dir0.blocks@, free_list(img0), size, entry, img1, dir1.blocks@));
    assert(data1 == splice(data0, size, entry));
    lemma_first_match(data0, name, 0, count);
    assert forall|j: int| 0 <= j < count implies !entry_names(
        #[trigger] entry_at(data1, j),
        name,
    ) by {
        assert(entry_at(data1, j) =~= entry_at(data0, j));
        assert(!entry_names(entry_at(data0, j), name));
    }
    assert(entry_at(data1, count) =~= entry);
    lemma_first_match_behind(data1, name, 0, count);
    assert(dir1.size as int / (DIRENT_SIZE as int) == count + 1);
}

/// The blocks of a seeded file: every pointer under the content is set, no
/// two of them name the same block, and every pointer behind the content
/// is unset. A file of `MAX_FILE_SIZE` bytes has all its pointers set.
pub proof fn law_seeded_file_has_its_blocks(
    img0: Seq<Seq<u8>>,
    name: Seq<u8>,
    content: Seq<u8>,
    img1: Seq<Seq<u8>>,
)
    requires
        consistent(img0),
        content.len() <= MAX_FILE_SIZE,
        seeded(img0, name, content, img1),
    ensures
        ({
            let blocks = stored_inode(img1, first_free_inode(img0)).blocks@;
            let n = end_block(0, content.len() as int);
            &&& 0 <= n <= NDIRECT
            &&& content.len() == MAX_FILE_SIZE ==> n == NDIRECT
            &&& forall|i: int| 0 <= i < n ==> blocks[i] != UNUSED_BLOCKADDR
            &&& forall|i: int, j: int| 0 <= i < j < n ==> blocks[i] != blocks[j]
            &&& forall|i: int| n <= i < NDIRECT ==> blocks[i] == UNUSED_BLOCKADDR
        }),
{
    let chain = free_list(img0);
    let n = end_block(0, content.len() as int);
    lemma_holes_nonneg(
        stored_inode(img0, ROOT_INUM).blocks@,
        stored_inode(img0, ROOT_INUM).size as int / (BLOCKSIZE as int),
        end_block(
            stored_inode(img0, ROOT_INUM).size as int,
            entry_room(stored_inode(img0, ROOT_INUM).size),
        ),
    );
    assert(n <= chain.len());
    assert forall|i: int| 0 <= i < n implies chain[i] != UNUSED_BLOCKADDR by {}
}

/// Content that is too long is refused: on a reliable device, with an
/// inode free and a block on the free list for each pointer of a file,
/// content of more than `MAX_FILE_SIZE` bytes fails with `FileTooLarge`,
/// and the root directory is what it was: no entry was added.
pub proof fn law_too_long_content_is_refused(
    img0: Seq<Seq<u8>>,
    name: Seq<u8>,
    content: Seq<u8>,
    r: Result<(), FsError>,
    img1: Seq<Seq<u8>>,
)
    requires
        consistent(img0),
        has_root(img0),
        !all_in_use(img0, NUM_INODES),
        NDIRECT <= free_list(img0).len(),
        content.len() > MAX_FILE_SIZE,
        seed_result(img0, true, name, content, r, img1),
    ensures
        r == Err::<(), FsError>(FsError::FileTooLarge),
        stored_inode(img1, ROOT_INUM) == stored_inode(img0, ROOT_INUM),
        file_bytes(img1, stored_inode(img1, ROOT_INUM)) == file_bytes(
            img0,
            stored_inode(img0, ROOT_INUM),
        ),
{
    assert(clipped(0, content).len() == MAX_FILE_SIZE);
    assert(end_block(0, clipped(0, content).len() as int) == NDIRECT);
    lemma_root_is_no_free_slot(img0);
    if r is Ok {
        lemma_consistent_owns(img1, first_free_inode(img0));
    }
    assert(r == Err::<(), FsError>(FsError::FileTooLarge));
    assert(inode_slot(img1, ROOT_INUM) == inode_slot(img0, ROOT_INUM));
}

/// The root directory is not the first free inode.
pub proof fn lemma_root_is_no_free_slot(img: Seq<Seq<u8>>)
    requires
        consistent(img),
        has_root(img),
        !all_in_use(img, NUM_INODES),
    ensures
        is_first_free(img, first_free_inode(img)),
        first_free_inode(img) != ROOT_INUM,
{
    lemma_has_first_free(img, 0);
    lemma_consistent_owns(img, ROOT_INUM);
    crate::inode::lemma_decodes_own_bytes(stored_inode(img, ROOT_INUM));
}

/// Where the slots below `n` are in use and not all slots are, a first
/// free slot exists.
pub proof fn lemma_has_first_free(img: Seq<Seq<u8>>, n: u32)
    requires
        n <= NUM_INODES,
        all_in_use(img, n),
        !all_in_use(img, NUM_INODES),
    ensures
        is_first_free(img, first_free_inode(img)),
    decreases NUM_INODES - n,
{
    if n == NUM_INODES {
    } else if is_unused(inode_slot(img, n)) {
        assert(is_first_free(img, n));
    } else {
        assert(all_in_use(img, (n + 1) as u32)) by {
            assert forall|j: u32| j < n + 1 implies !is_unused(#[trigger] inode_slot(img, j)) by {
                if j < n {
                    assert(!is_unused(inode_slot(img, j)));
                }
            }
        }
        lemma_has_first_free(img, (n + 1) as u32);
    }
}

/// Exhaustion: on a reliable device, seeding with no inode free, or with
/// content and an empty free list, fails with `OutOfSpace`, and the root
/// directory and every file that was there are what they were.
pub proof fn law_exhaustion_keeps_files(
    img0: Seq<Seq<u8>>,
    name: Seq<u8>,
    content: Seq<u8>,
    r: Result<(), FsError>,
    img1: Seq<Seq<u8>>,
    a: u32,
)
    requires
        consistent(img0),
        has_root(img0),
        all_in_use(img0, NUM_INODES) || (content.len() > 0 && free_list(img0).len() == 0),
        seed_result(img0, true, name, content, r, img1),
        a < NUM_INODES,
        !is_first_free(img0, a),
    ensures
        r == Err::<(), FsError>(FsError::OutOfSpace),
        inode_slot(img1, a) == inode_slot(img0, a),
        file_bytes(img1, stored_inode(img1, a)) == file_bytes(img0, stored_inode(img0, a)),
{
    let root = stored_inode(img0, ROOT_INUM);
    lemma_holes_nonneg(
        root.blocks@,
        root.size as int / (BLOCKSIZE as int),
        end_block(root.size as int, entry_room(root.size)),
    );
    if !all_in_use(img0, NUM_INODES) {
        lemma_root_is_no_free_slot(img0);
        assert(end_block(0, content.len() as int) >= 1);
        assert(end_block(0, clipped(0, content).len() as int) >= 1);
        assert(a != first_free_inode(img0));
        assert(inode_slot(img1, a) == inode_slot(img0, a));
    }
}

/// Some slot of the inode table holds the inode `ino`.
pub open spec fn in_table(img: Seq<Seq<u8>>, ino: Inode) -> bool {
    exists|a: u32| a < NUM_INODES && ino == #[trigger] stored_inode(img, a)
}

/// On a consistent filesystem all that a walk from an inode of the table
/// comes by is on the device, and the walk ends in an inode of the table.
pub proof fn lemma_walk_present(img: Seq<Seq<u8>>, dir: Inode, path: Seq<u8>, at: int)
    requires
        consistent(img),
        in_table(img, dir),
    ensures
        descend_present(img, dir, path, at),
        descend(img, dir, path, at) matches Ok(end) ==> in_table(img, end),
    decreases path.len() - at,
{
    if at < 0 || at >= path.len() {
    } else if path[at] == SEPARATOR {
        lemma_walk_present(img, dir, path, at + 1);
    } else {
        let end = component_end(path, at);
        lemma_component_end(path, at);
        let name = path.subrange(at, end);
        let a = choose|a: u32| a < NUM_INODES && dir == #[trigger] stored_inode(img, a);
        lemma_consistent_owns(img, a);
        assert(enter_present(img, dir, name));
        match enter(img, dir, name) {
            Ok(next) => {
                let found = lookup(img, dir, name)->0;
                assert(next == stored_inode(img, found.0));
                lemma_walk_present(img, next, path, end);
            },
            Err(_) => {},
        }
    }
}

/// A consistent filesystem has all that a walk needs: on a reliable
/// device `namex` gives what `resolve` says, whatever the path and the
/// name.
pub proof fn law_consistent_walks_present(img: Seq<Seq<u8>>, path: Seq<u8>, final_name: Seq<u8>)
    requires
        consistent(img),
    ensures
        resolve_present(img, path, final_name),
{
    match inode_at(img, ROOT_DEV, ROOT_INUM) {
        Ok(root) => {
            assert(root == stored_inode(img, ROOT_INUM));
            lemma_walk_present(img, root, path, 0);
            match descend(img, root, path, 0) {
                Ok(dir) => {
                    let a = choose|a: u32|
                        a < NUM_INODES && dir == #[trigger] stored_inode(img, a);
                    lemma_consistent_owns(img, a);
                },
                Err(_) => {},
            }
        },
        Err(_) => {},
    }
}

} // verus!
