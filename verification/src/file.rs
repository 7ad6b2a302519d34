//! File content: byte ranges over the direct blocks of an inode.

use vstd::prelude::*;
use vstd::slice::slice_subrange;
use crate::bytes::{put_bytes, splice, zeros};
use crate::disk::Disk;
use crate::extent::{
    end_block,
    holes,
    lemma_before_step,
    lemma_write_step,
    lemma_written_nothing,
    owns,
    patched,
    written,
};
use crate::filesystem::{FileSystem, FsError};
use crate::freelist::{after_alloc, free_head, free_list};
use crate::inode::Inode;
use crate::layout::{BLOCKSIZE, MAX_FILE_SIZE, NDIRECT, UNUSED_BLOCKADDR};

verus! {

/// The content that the block pointer `b` stands for: a block of zero
/// bytes where the pointer is unset, else the block on disk.
pub open spec fn block_bytes(img: Seq<Seq<u8>>, b: u32) -> Seq<u8> {
    if b == UNUSED_BLOCKADDR {
        zeros(BLOCKSIZE as int)
    } else {
        img[b as int]
    }
}

/// All the bytes that the direct pointers `blocks` reach, in order:
/// `MAX_FILE_SIZE` of them, whatever the length of the file.
pub open spec fn file_data(img: Seq<Seq<u8>>, blocks: Seq<u32>) -> Seq<u8> {
    Seq::new(
        MAX_FILE_SIZE as nat,
        |p: int| block_bytes(img, blocks[p / (BLOCKSIZE as int)])[p % (BLOCKSIZE as int)],
    )
}

/// The content of the file of inode `ino`.
pub open spec fn file_bytes(img: Seq<Seq<u8>>, ino: Inode) -> Seq<u8> {
    file_data(img, ino.blocks@).take(ino.size as int)
}

/// Every block that the bytes from `from` up to `to` lie in is a hole or a
/// block of the device.
pub open spec fn blocks_present(sectors: int, blocks: Seq<u32>, from: int, to: int) -> bool {
    forall|i: int|
        0 <= i < NDIRECT && from / (BLOCKSIZE as int) <= i && i * BLOCKSIZE < to ==> #[trigger] blocks[i]
            == UNUSED_BLOCKADDR || blocks[i] < sectors
}

/// How many bytes a read of `len` bytes at `offset` yields from a file of
/// `size` bytes.
pub open spec fn read_len(size: u32, offset: u32, len: int) -> int {
    if len <= size - offset {
        len
    } else {
        size - offset
    }
}

/// What a read at `offset` from the file of `ino` on the image `img` into a
/// buffer that holds `buf0` comes to: the result `r` and the buffer `buf1`.
/// `reliable` says whether the device is reliable.
///
/// An inode that claims more than `MAX_FILE_SIZE` bytes is `Corrupt`; an
/// offset at or behind the end of the file is `EndOfFile`; both leave the
/// buffer as it was. Else the read yields the bytes of the file from
/// `offset` on, as many as the buffer takes and the file has, at the front
/// of the buffer, unless the device fails, which a reliable device does
/// only where a pointer under the bytes names no block of the device.
pub open spec fn read_result(
    img: Seq<Seq<u8>>,
    ino: Inode,
    reliable: bool,
    offset: u32,
    buf0: Seq<u8>,
    r: Result<usize, FsError>,
    buf1: Seq<u8>,
) -> bool {
    &&& buf1.len() == buf0.len()
    &&& match r {
        Ok(n) => {
            &&& ino.size <= MAX_FILE_SIZE
            &&& offset < ino.size
            &&& n == read_len(ino.size, offset, buf0.len() as int)
            &&& buf1 == splice(
                buf0,
                0,
                file_data(img, ino.blocks@).subrange(offset as int, offset + n),
            )
        },
        Err(FsError::Corrupt) => ino.size > MAX_FILE_SIZE && buf1 == buf0,
        Err(FsError::EndOfFile) => ino.size <= MAX_FILE_SIZE && offset >= ino.size && buf1
            == buf0,
        Err(FsError::DeviceError(_)) => {
            &&& ino.size <= MAX_FILE_SIZE
            &&& offset < ino.size
            &&& !(reliable && blocks_present(
                img.len() as int,
                ino.blocks@,
                offset as int,
                offset + read_len(ino.size, offset, buf0.len() as int),
            ))
        },
        Err(_) => false,
    }
}

/// The two inodes differ in size and block pointers at most.
pub open spec fn same_identity(a: Inode, b: Inode) -> bool {
    a.type_ == b.type_ && a.device == b.device && a.major == b.major && a.minor == b.minor
}

/// The leading bytes of `d` that have room in a file when written at
/// `offset`.
pub open spec fn clipped(offset: u32, d: Seq<u8>) -> Seq<u8> {
    if offset >= MAX_FILE_SIZE {
        Seq::empty()
    } else if offset + d.len() <= MAX_FILE_SIZE {
        d
    } else {
        d.take(MAX_FILE_SIZE - offset)
    }
}

/// The size of a file of `size` bytes after `len` bytes were written at
/// `offset`.
pub open spec fn grown(size: u32, offset: u32, len: int) -> int {
    if len > 0 && offset + len > size {
        offset + len
    } else {
        size as int
    }
}

/// From `blocks0` to `blocks1` no pointer changed but holes from position
/// `lo` up to `hi`.
pub open spec fn pointers_kept(blocks0: Seq<u32>, blocks1: Seq<u32>, lo: int, hi: int) -> bool {
    &&& blocks1.len() == blocks0.len()
    &&& forall|i: int|
        0 <= i < blocks0.len() && (blocks0[i] != UNUSED_BLOCKADDR || !(lo <= i < hi))
            ==> #[trigger] blocks1[i] == blocks0[i]
}

/// Every pointer of `blocks` from position `lo` up to `hi` is set.
pub open spec fn pointers_set(blocks: Seq<u32>, lo: int, hi: int) -> bool {
    forall|i: int| lo <= i < hi && 0 <= i < blocks.len() ==> #[trigger] blocks[i] != UNUSED_BLOCKADDR
}

/// The write of the bytes `d` at `offset` ran out of free blocks after `m`
/// bytes: the bytes that were left start a block that the file does not
/// have, nothing changed where `m` is zero, and where the pointers and the
/// free list shared the device without overlap the first `m` bytes are
/// written.
pub open spec fn ran_out_at(
    img0: Seq<Seq<u8>>,
    blocks0: Seq<u32>,
    chain: Seq<u32>,
    offset: u32,
    d: Seq<u8>,
    m: int,
    img1: Seq<Seq<u8>>,
    blocks1: Seq<u32>,
) -> bool {
    &&& 0 <= m < clipped(offset, d).len()
    &&& m == 0 || (offset + m) % (BLOCKSIZE as int) == 0
    &&& m == 0 ==> img1 == img0 && blocks1 == blocks0
    &&& owns(img0, blocks0, chain) ==> written(
        img0,
        blocks0,
        chain,
        offset as int,
        d.take(m),
        img1,
        blocks1,
    )
}

/// What a write of the bytes `d` at `offset` into the file of `ino0` on the
/// image `img0` comes to: the result `r`, the image `img1` and the inode
/// `ino1`. `reliable` says whether the device is reliable.
///
/// The write succeeds where the bytes fit below `MAX_FILE_SIZE`, unless the
/// free list runs out or the device fails. Whatever the state of the
/// filesystem, no pointer changes but holes under the bytes, and after
/// success every pointer under the bytes is set. Where the pointers of the
/// inode and the free list share the device without overlap, the state
/// after the write is pinned by `written`: for all the bytes on success,
/// for those that fit on `FileTooLarge`, for the bytes in front of the
/// block that could not be had on `OutOfSpace`, which comes only where the
/// free list has fewer blocks than the write has holes to fill; and a
/// reliable device does not fail. A write that fails before its first byte
/// changes nothing.
pub open spec fn write_result(
    img0: Seq<Seq<u8>>,
    ino0: Inode,
    reliable: bool,
    offset: u32,
    d: Seq<u8>,
    r: Result<usize, FsError>,
    img1: Seq<Seq<u8>>,
    ino1: Inode,
) -> bool {
    let chain = free_list(img0);
    let sound = owns(img0, ino0.blocks@, chain);
    &&& same_identity(ino1, ino0)
    &&& ino0.wf() ==> ino1.wf()
    &&& ino1.size == (if r is Ok {
        grown(ino0.size, offset, d.len() as int)
    } else {
        ino0.size as int
    })
    &&& d.len() == 0 ==> r == Ok::<usize, FsError>(0) && img1 == img0 && ino1.blocks@
        == ino0.blocks@
    &&& pointers_kept(
        ino0.blocks@,
        ino1.blocks@,
        offset as int / (BLOCKSIZE as int),
        end_block(offset as int, clipped(offset, d).len() as int),
    )
    &&& match r {
        Ok(n) => {
            &&& n == d.len()
            &&& n > 0 ==> offset + n <= MAX_FILE_SIZE
            &&& pointers_set(
                ino1.blocks@,
                offset as int / (BLOCKSIZE as int),
                end_block(offset as int, d.len() as int),
            )
            &&& sound ==> written(img0, ino0.blocks@, chain, offset as int, d, img1, ino1.blocks@)
        },
        Err(FsError::FileTooLarge) => {
            &&& offset + d.len() > MAX_FILE_SIZE
            &&& offset >= MAX_FILE_SIZE ==> img1 == img0 && ino1.blocks@ == ino0.blocks@
            &&& sound ==> written(
                img0,
                ino0.blocks@,
                chain,
                offset as int,
                clipped(offset, d),
                img1,
                ino1.blocks@,
            )
        },
        Err(FsError::OutOfSpace) => {
            &&& sound ==> chain.len() < holes(
                ino0.blocks@,
                offset as int / (BLOCKSIZE as int),
                end_block(offset as int, clipped(offset, d).len() as int),
            )
            &&& exists|m: int|
                #[trigger] ran_out_at(img0, ino0.blocks@, chain, offset, d, m, img1, ino1.blocks@)
        },
        Err(FsError::DeviceError(_)) => !(reliable && sound),
        Err(_) => false,
    }
}

impl<T: Disk> FileSystem<T> {
    /// Block `b` of a file: zero bytes where the pointer is unset.
    pub(crate) fn load_data(&self, b: u32) -> (r: Result<[u8; BLOCKSIZE], FsError>)
        ensures
            match r {
                Ok(block) => block@ == block_bytes(self.image(), b) && (b == UNUSED_BLOCKADDR || b
                    < self.image().len()),
                Err(e) => e is DeviceError && b != UNUSED_BLOCKADDR && !(self.disk.reliable() && b
                    < self.image().len()),
            },
    {
        if b == UNUSED_BLOCKADDR {
            let block = [0u8;512];
            assert(block@ == zeros(BLOCKSIZE as int));
            Ok(block)
        } else {
            self.load(b)
        }
    }

    /// Reads the bytes of the file of `inode` from `offset` on into
    /// `buffer`, as many as the buffer takes and the file has, and returns
    /// their number. The rest of the buffer keeps its content. Where a
    /// direct pointer is unset the file reads as zero bytes.
    ///
    /// Fails with `EndOfFile` when `offset` is at or behind the end of the
    /// file, and with `Corrupt` when the inode claims more bytes than
    /// the direct blocks can hold.
    pub fn read(&self, inode: &Inode, buffer: &mut [u8], offset: u32) -> (r: Result<
        usize,
        FsError,
    >)
        ensures
            read_result(
                self.image(),
                *inode,
                self.disk.reliable(),
                offset,
                old(buffer)@,
                r,
                final(buffer)@,
            ),
    {
        if inode.size > MAX_FILE_SIZE {
            return Err(FsError::Corrupt);
        }
        if offset >= inode.size {
            return Err(FsError::EndOfFile);
        }
        let avail: usize = (inode.size - offset) as usize;
        let len: usize = buffer.len();
        let n: usize = if len <= avail {
            len
        } else {
            avail
        };
        let ghost data = file_data(self.image(), inode.blocks@);
        let mut done: usize = 0;
        assert(buffer@ == splice(old(buffer)@, 0, data.subrange(offset as int, offset + 0)));
        while done < n
            invariant
                done <= n,
                n <= len,
                len == buffer@.len(),
                len == old(buffer)@.len(),
                offset + n <= inode.size,
                inode.size <= MAX_FILE_SIZE,
                data == file_data(self.image(), inode.blocks@),
                buffer@ == splice(old(buffer)@, 0, data.subrange(offset as int, offset + done)),
                n == read_len(inode.size, offset, len as int),
            decreases n - done,
        {
            let pos: usize = offset as usize + done;
            let index: usize = pos / BLOCKSIZE;
            let within: usize = pos % BLOCKSIZE;
            let room: usize = BLOCKSIZE - within;
            let chunk: usize = if n - done <= room {
                n - done
            } else {
                room
            };
            let block = match self.load_data(inode.blocks[index]) {
                Ok(block) => block,
                Err(e) => {
                    assert(index * BLOCKSIZE < offset + n);
                    return Err(e);
                },
            };
            let ghost before = buffer@;
            put_bytes(buffer, done, slice_subrange(block.as_slice(), within, within + chunk));
            assert(buffer@ == splice(
                old(buffer)@,
                0,
                data.subrange(offset as int, offset + done + chunk),
            )) by {
                assert forall|i: int| done <= i < done + chunk implies buffer@[i] == data[offset
                    + i] by {
                    let p = offset + i;
                    assert(p == index * BLOCKSIZE + (within + (i - done)));
                    assert(p / (BLOCKSIZE as int) == index as int);
                    assert(p % (BLOCKSIZE as int) == within + (i - done));
                }
            }
            done = done + chunk;
        }
        Ok(n)
    }

    /// Reads the whole file of `inode`.
    ///
    /// Fails with `Corrupt` when the inode claims more bytes than the
    /// direct blocks can hold; a file without content reads as no bytes.
    pub fn read_all(&self, inode: &Inode) -> (r: Result<Vec<u8>, FsError>)
        ensures
            match r {
                Ok(v) => inode.size <= MAX_FILE_SIZE && v@ == file_bytes(self.image(), *inode),
                Err(FsError::Corrupt) => inode.size > MAX_FILE_SIZE,
                Err(FsError::DeviceError(_)) => inode.size <= MAX_FILE_SIZE && !(
                self.disk.reliable() && blocks_present(
                    self.image().len() as int,
                    inode.blocks@,
                    0,
                    inode.size as int,
                )),
                Err(_) => false,
            },
    {
        if inode.size > MAX_FILE_SIZE {
            return Err(FsError::Corrupt);
        }
        let size: usize = inode.size as usize;
        let mut content: Vec<u8> = Vec::new();
        let mut i: usize = 0;
        while i < size
            invariant
                i <= size,
                content@.len() == i,
            decreases size - i,
        {
            content.push(0u8);
            i = i + 1;
        }
        if size == 0 {
            assert(content@ == file_bytes(self.image(), *inode));
            return Ok(content);
        }
        match self.read(inode, content.as_mut_slice(), 0) {
            Ok(_) => {
                assert(content@ == file_bytes(self.image(), *inode));
                Ok(content)
            },
            Err(e) => Err(e),
        }
    }

    /// The block behind pointer `index` of `inode`. Where the pointer is
    /// unset, the head of the free list is taken and the pointer set to
    /// it.
    pub(crate) fn settle_block(&mut self, inode: &mut Inode, index: usize) -> (r: Result<
        u32,
        FsError,
    >)
        requires
            index < NDIRECT,
        ensures
            final(self).image().len() == old(self).image().len(),
            final(self).disk.reliable() == old(self).disk.reliable(),
            same_identity(*final(inode), *old(inode)),
            final(inode).size == old(inode).size,
            r is Err ==> final(inode).blocks@ == old(inode).blocks@,
            match r {
                Ok(b) => {
                    &&& b != UNUSED_BLOCKADDR
                    &&& final(inode).blocks@[index as int] == b
                    &&& if old(inode).blocks@[index as int] == UNUSED_BLOCKADDR {
                        &&& b == free_head(old(self).image())
                        &&& b < old(self).image().len()
                        &&& final(inode).blocks@ == old(inode).blocks@.update(index as int, b)
                        &&& final(self).image() == after_alloc(old(self).image())
                    } else {
                        &&& final(inode).blocks@ == old(inode).blocks@
                        &&& final(self).image() == old(self).image()
                    }
                },
                Err(FsError::OutOfSpace) => {
                    &&& old(inode).blocks@[index as int] == UNUSED_BLOCKADDR
                    &&& free_head(old(self).image()) == UNUSED_BLOCKADDR
                    &&& final(inode).blocks@ == old(inode).blocks@
                    &&& final(self).image() == old(self).image()
                },
                Err(FsError::DeviceError(_)) => !(old(self).disk.reliable() && free_head(
                    old(self).image(),
                ) < old(self).image().len()),
                Err(_) => false,
            },
    {
        let b: u32 = inode.blocks[index];
        if b != UNUSED_BLOCKADDR {
            return Ok(b);
        }
        let b: u32 = self.alloc_block(inode.device)?;
        inode.blocks[index] = b;
        Ok(b)
    }

    /// Puts the bytes `piece` into block `b` from `within` on. A block
    /// that the bytes cover in part is read first, so that its other bytes
    /// stay.
    pub(crate) fn patch_block(&mut self, b: u32, within: usize, piece: &[u8]) -> (r: Result<
        (),
        FsError,
    >)
        requires
            within + piece@.len() <= BLOCKSIZE,
        ensures
            final(self).image().len() == old(self).image().len(),
            final(self).disk.reliable() == old(self).disk.reliable(),
            match r {
                Ok(()) => b < old(self).image().len() && final(self).image() == patched(
                    old(self).image(),
                    b,
                    within as int,
                    piece@,
                ),
                Err(e) => e is DeviceError && !(old(self).disk.reliable() && b < old(
                    self,
                ).image().len()),
            },
    {
        if piece.len() == BLOCKSIZE {
            self.store(piece, b)?;
            assert(piece@ == splice(old(self).image()[b as int], within as int, piece@));
        } else {
            let mut block = self.load(b)?;
            put_bytes(&mut block, within, piece);
            self.store(block.as_slice(), b)?;
        }
        Ok(())
    }

    /// Writes `buffer` into the file of `inode` from `offset` on and
    /// returns the number of bytes written. A block that the bytes reach
    /// and that the file does not have yet is taken from the free list. A
    /// block that the bytes cover in part keeps its other bytes. The file
    /// grows where the bytes end behind its end. The inode is changed in
    /// memory only: to write it back is the caller's part. An empty
    /// buffer changes nothing.
    ///
    /// Fails with `FileTooLarge` when the bytes reach past the last direct
    /// block, and with `OutOfSpace` when the free list runs out. What was
    /// written before the failure stays written; the size does not
    /// change.
    pub fn write(&mut self, inode: &mut Inode, buffer: &[u8], offset: u32) -> (r: Result<
        usize,
        FsError,
    >)
        ensures
            final(self).image().len() == old(self).image().len(),
            final(self).disk.reliable() == old(self).disk.reliable(),
            write_result(
                old(self).image(),
                *old(inode),
                old(self).disk.reliable(),
                offset,
                buffer@,
                r,
                final(self).image(),
                *final(inode),
            ),
    {
        let n: usize = buffer.len();
        let ghost img0 = self.image();
        let ghost blocks0 = inode.blocks@;
        let ghost chain = free_list(img0);
        let ghost sound = owns(img0, blocks0, chain);
        let ghost top = end_block(offset as int, clipped(offset, buffer@).len() as int);
        let mut done: usize = 0;
        proof {
            assert(buffer@.take(0) == Seq::<u8>::empty());
            if sound {
                lemma_written_nothing(img0, blocks0, chain, offset as int);
            }
        }
        while done < n
            invariant
                done <= n,
                n == buffer@.len(),
                self.image().len() == img0.len(),
                self.disk.reliable() == old(self).disk.reliable(),
                same_identity(*inode, *old(inode)),
                inode.size == old(inode).size,
                img0 == old(self).image(),
                blocks0 == old(inode).blocks@,
                chain == free_list(img0),
                sound == owns(img0, blocks0, chain),
                top == end_block(offset as int, clipped(offset, buffer@).len() as int),
                0 < done < n ==> (offset + done) % (BLOCKSIZE as int) == 0,
                done > 0 ==> offset + done <= MAX_FILE_SIZE,
                done == 0 ==> self.image() == img0 && inode.blocks@ == blocks0,
                pointers_kept(blocks0, inode.blocks@, offset as int / (BLOCKSIZE as int), top),
                pointers_set(
                    inode.blocks@,
                    offset as int / (BLOCKSIZE as int),
                    end_block(offset as int, done as int),
                ),
                sound ==> written(
                    img0,
                    blocks0,
                    chain,
                    offset as int,
                    buffer@.take(done as int),
                    self.image(),
                    inode.blocks@,
                ),
            decreases n - done,
        {
            let pos: u64 = offset as u64 + done as u64;
            if pos >= MAX_FILE_SIZE as u64 {
                assert(buffer@.take(done as int) == clipped(offset, buffer@));
                return Err(FsError::FileTooLarge);
            }
            let index: usize = (pos / BLOCKSIZE as u64) as usize;
            let within: usize = (pos % BLOCKSIZE as u64) as usize;
            let room: usize = BLOCKSIZE - within;
            let chunk: usize = if n - done <= room {
                n - done
            } else {
                room
            };
            let ghost img1 = self.image();
            let ghost blocks1 = inode.blocks@;
            proof {
                assert(index < top);
                if sound {
                    lemma_before_step(
                        img0,
                        blocks0,
                        chain,
                        offset as int,
                        buffer@,
                        done as int,
                        top,
                        img1,
                        blocks1,
                    );
                }
            }
            let b: u32 = match self.settle_block(inode, index) {
                Ok(b) => b,
                Err(e) => {
                    assert(e == FsError::OutOfSpace ==> ran_out_at(
                        img0,
                        blocks0,
                        chain,
                        offset,
                        buffer@,
                        done as int,
                        self.image(),
                        inode.blocks@,
                    ));
                    return Err(e);
                },
            };
            self.patch_block(b, within, slice_subrange(buffer, done, done + chunk))?;
            proof {
                if sound {
                    lemma_write_step(
                        img0,
                        blocks0,
                        chain,
                        offset as int,
                        buffer@,
                        done as int,
                        chunk as int,
                        img1,
                        blocks1,
                        self.image(),
                        inode.blocks@,
                    );
                }
            }
            done = done + chunk;
        }
        assert(buffer@.take(n as int) == buffer@);
        if n > 0 && offset as u64 + n as u64 > inode.size as u64 {
            inode.size = offset + n as u32;
        }
        Ok(n)
    }
}

} // verus!
