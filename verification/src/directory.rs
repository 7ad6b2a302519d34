//! Directories: files whose content is a run of directory entries.

use vstd::prelude::*;
use crate::dirent::{dirent_bytes, entry_inum, entry_names, DirEntry};
use crate::disk::Disk;
use crate::file::{blocks_present, file_data, write_result};
use crate::filesystem::{FileSystem, FsError};
use crate::inode::Inode;
use crate::layout::{DIRENT_SIZE, DIRNAME_SIZE, MAX_FILE_SIZE};

verus! {

/// Entry `k` of the directory whose bytes are `data`.
pub open spec fn entry_at(data: Seq<u8>, k: int) -> Seq<u8> {
    data.subrange(k * DIRENT_SIZE, k * DIRENT_SIZE + DIRENT_SIZE)
}

/// The position of the first entry from `k` on that holds `name`, among
/// the first `count` entries of the directory whose bytes are `data`;
/// `count` when there is none.
pub open spec fn first_match(data: Seq<u8>, name: Seq<u8>, k: int, count: int) -> int
    decreases count - k,
{
    if k >= count {
        count
    } else if entry_names(entry_at(data, k), name) {
        k
    } else {
        first_match(data, name, k + 1, count)
    }
}

/// What a lookup of `name` finds in the directory of `ino`: the inode
/// number and the byte offset of the first entry that holds the name, or
/// `None` when no whole entry below the size of the directory does.
pub open spec fn lookup(img: Seq<Seq<u8>>, ino: Inode, name: Seq<u8>) -> Option<(u32, usize)> {
    let data = file_data(img, ino.blocks@);
    let count = ino.size as int / (DIRENT_SIZE as int);
    let k = first_match(data, name, 0, count);
    if k < count {
        Some((entry_inum(entry_at(data, k)), (k * DIRENT_SIZE) as usize))
    } else {
        None
    }
}

/// The first match is an entry that holds the name, no entry before it
/// does, and where there is no match no entry holds the name.
pub proof fn lemma_first_match(data: Seq<u8>, name: Seq<u8>, k: int, count: int)
    requires
        0 <= k,
    ensures
        k <= count ==> k <= first_match(data, name, k, count) <= count,
        first_match(data, name, k, count) < count ==> entry_names(
            entry_at(data, first_match(data, name, k, count)),
            name,
        ),
        forall|j: int|
            k <= j < first_match(data, name, k, count) && j < count ==> !entry_names(
                #[trigger] entry_at(data, j),
                name,
            ),
    decreases count - k,
{
    if k < count && !entry_names(entry_at(data, k), name) {
        lemma_first_match(data, name, k + 1, count);
    }
}

impl<T: Disk> FileSystem<T> {
    /// Appends the entry that gives `name` to inode `inum` to the directory
    /// of `dir_inode`: the entry is written at the end of the directory,
    /// which grows by one entry. Nothing checks whether the name is there
    /// already.
    ///
    /// Fails with `NameTooLong`, and changes nothing, when the name is
    /// longer than the name field; else as the write of the entry does.
    pub fn dir_add(&mut self, dir_inode: &mut Inode, name: &[u8], inum: u32) -> (r: Result<
        (),
        FsError,
    >)
        ensures
            final(self).image().len() == old(self).image().len(),
            final(self).disk.reliable() == old(self).disk.reliable(),
            name@.len() > DIRNAME_SIZE <==> r == Err::<(), FsError>(FsError::NameTooLong),
            if name@.len() > DIRNAME_SIZE {
                final(self).image() == old(self).image() && *final(dir_inode) == *old(dir_inode)
            } else {
                write_result(
                    old(self).image(),
                    *old(dir_inode),
                    old(self).disk.reliable(),
                    old(dir_inode).size,
                    dirent_bytes(name@, inum),
                    match r {
                        Ok(()) => Ok(DIRENT_SIZE),
                        Err(e) => Err(e),
                    },
                    final(self).image(),
                    *final(dir_inode),
                )
            },
    {
        let entry = match DirEntry::new(name, inum) {
            Some(entry) => entry,
            None => {
                return Err(FsError::NameTooLong);
            },
        };
        let mut record = [0u8;32];
        entry.encode(&mut record);
        assert(record@ == dirent_bytes(name@, inum));
        let at: u32 = dir_inode.size;
        match self.write(dir_inode, record.as_slice(), at) {
            Ok(_) => Ok(()),
            Err(e) => Err(e),
        }
    }

    /// Looks `name` up in the directory of `dir_inode`: the entries are
    /// tried in order, and the first that holds the name gives the inode
    /// number and its own byte offset in the directory.
    ///
    /// Fails with `NotFound` when no entry holds the name, and with
    /// `Corrupt` when the inode claims more bytes than the direct blocks
    /// can hold.
    pub fn dir_lookup(&self, dir_inode: &Inode, name: &[u8]) -> (r: Result<(u32, usize), FsError>)
        ensures
            match r {
                Ok(found) => dir_inode.size <= MAX_FILE_SIZE && lookup(
                    self.image(),
                    *dir_inode,
                    name@,
                ) == Some(found),
                Err(FsError::NotFound) => dir_inode.size <= MAX_FILE_SIZE && lookup(
                    self.image(),
                    *dir_inode,
                    name@,
                ) is None,
                Err(FsError::Corrupt) => dir_inode.size > MAX_FILE_SIZE,
                Err(FsError::DeviceError(_)) => dir_inode.size <= MAX_FILE_SIZE && !(
                self.disk.reliable() && blocks_present(
                    self.image().len() as int,
                    dir_inode.blocks@,
                    0,
                    dir_inode.size as int,
                )),
                Err(_) => false,
            },
    {
        if dir_inode.size > MAX_FILE_SIZE {
            return Err(FsError::Corrupt);
        }
        let count: usize = dir_inode.size as usize / DIRENT_SIZE;
        let ghost data = file_data(self.image(), dir_inode.blocks@);
        let mut k: usize = 0;
        while k < count
            invariant
                k <= count,
                count == dir_inode.size as int / (DIRENT_SIZE as int),
                dir_inode.size <= MAX_FILE_SIZE,
                data == file_data(self.image(), dir_inode.blocks@),
                first_match(data, name@, 0, count as int) == first_match(
                    data,
                    name@,
                    k as int,
                    count as int,
                ),
            decreases count - k,
        {
            let at: usize = k * DIRENT_SIZE;
            let mut record = [0u8;32];
            match self.read(dir_inode, &mut record, at as u32) {
                Ok(_) => {},
                Err(e) => {
                    return Err(e);
                },
            }
            assert(record@ == entry_at(data, k as int));
            let entry = DirEntry::decode(record.as_slice());
            if entry.is_named(name) {
                return Ok((entry.inum, at));
            }
            k = k + 1;
        }
        Err(FsError::NotFound)
    }
}

} // verus!
