//! The engine: a filesystem on top of a storage capability.

use vstd::prelude::*;
use crate::disk::{sectors_of, Disk, DiskError};
use crate::layout::BLOCKSIZE;

verus! {

/// Why an operation of the engine failed.
#[derive(Debug, Clone, Copy, PartialEq, Eq)]
pub enum FsError {
    /// The inode table is full, or the free list is empty.
    OutOfSpace,
    /// No such inode, or no entry of that name.
    NotFound,
    /// A component of a path is no directory.
    NotADirectory,
    /// The write would reach past the last direct block.
    FileTooLarge,
    /// The name is longer than the name field of a directory entry.
    NameTooLong,
    /// The inode lives on another device than the one asked for.
    DeviceMismatch,
    /// A record on disk, or an inode handed in, breaks the format.
    Corrupt,
    /// The read starts at or behind the end of the file.
    EndOfFile,
    /// The device failed; its error is handed on as it came.
    DeviceError(DiskError),
}

/// A filesystem on the device `disk`.
///
/// The engine keeps no state of its own: every operation goes to the
/// device.
pub struct FileSystem<T: Disk> {
    /// The device that holds the filesystem.
    pub disk: T,
}

impl<T: Disk> FileSystem<T> {
    /// The sectors of the device.
    pub open spec fn image(&self) -> Seq<Seq<u8>> {
        sectors_of(self.disk@)
    }

    /// The engine on `disk`.
    pub fn new(disk: T) -> (fs: Self)
        ensures
            fs.disk == disk,
    {
        FileSystem { disk }
    }

    /// Reads block `sector` whole.
    pub(crate) fn load(&self, sector: u32) -> (r: Result<[u8; BLOCKSIZE], FsError>)
        ensures
            match r {
                Ok(block) => sector < self.image().len() && block@ == self.image()[sector as int],
                Err(e) => e is DeviceError && !(self.disk.reliable() && sector
                    < self.image().len()),
            },
    {
        let mut block = [0u8;512];
        match self.disk.read(&mut block, sector) {
            Ok(()) => {
                assert(block@ == self.image()[sector as int]);
                Ok(block)
            },
            Err(e) => Err(FsError::DeviceError(e)),
        }
    }

    /// Overwrites the leading bytes of block `sector`.
    pub(crate) fn store_front(&mut self, bytes: &[u8], sector: u32) -> (r: Result<(), FsError>)
        requires
            bytes@.len() <= BLOCKSIZE,
        ensures
            final(self).image().len() == old(self).image().len(),
            final(self).disk.reliable() == old(self).disk.reliable(),
            match r {
                Ok(()) => sector < old(self).image().len() && final(self).image() == old(
                    self,
                ).image().update(
                    sector as int,
                    crate::bytes::splice(old(self).image()[sector as int], 0, bytes@),
                ),
                Err(e) => e is DeviceError && !(old(self).disk.reliable() && sector < old(
                    self,
                ).image().len()),
            },
    {
        match self.disk.write(bytes, sector) {
            Ok(_) => Ok(()),
            Err(e) => Err(FsError::DeviceError(e)),
        }
    }

    /// Overwrites block `sector` whole.
    pub(crate) fn store(&mut self, block: &[u8], sector: u32) -> (r: Result<(), FsError>)
        requires
            block@.len() == BLOCKSIZE,
        ensures
            final(self).image().len() == old(self).image().len(),
            final(self).disk.reliable() == old(self).disk.reliable(),
            match r {
                Ok(()) => sector < old(self).image().len() && final(self).image() == old(
                    self,
                ).image().update(sector as int, block@),
                Err(e) => e is DeviceError && !(old(self).disk.reliable() && sector < old(
                    self,
                ).image().len()),
            },
    {
        let r = self.store_front(block, sector);
        assert(r is Ok ==> crate::bytes::splice(old(self).image()[sector as int], 0, block@)
            == block@);
        r
    }
}

} // verus!
