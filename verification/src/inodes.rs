//! The inode table: a fixed array of inode records, found by position.

use vstd::prelude::*;
use crate::bytes::{get_u16, splice, u32_at};
use crate::disk::{wf_image, Disk};
use crate::filesystem::{FileSystem, FsError};
use crate::inode::{decodable, decodes, inode_bytes, is_unused, lemma_decodes_unique, Inode};
use crate::layout::{
    inode_offset_in_sector,
    inode_sector,
    spec_inode_offset,
    spec_inode_sector,
    DATA_START,
    INODE_SIZE,
    NUM_INODES,
};

verus! {

/// The record of inode `inum` on disk.
pub open spec fn inode_slot(img: Seq<Seq<u8>>, inum: u32) -> Seq<u8> {
    img[spec_inode_sector(inum)].subrange(
        spec_inode_offset(inum),
        spec_inode_offset(inum) + INODE_SIZE,
    )
}

/// The image with the record of inode `inum` replaced by `rec`.
pub open spec fn with_inode_slot(img: Seq<Seq<u8>>, inum: u32, rec: Seq<u8>) -> Seq<Seq<u8>> {
    img.update(
        spec_inode_sector(inum),
        splice(img[spec_inode_sector(inum)], spec_inode_offset(inum), rec),
    )
}

/// The inode that the record `rec` holds, where it holds one.
pub open spec fn record_inode(rec: Seq<u8>) -> Inode {
    choose|ino: Inode| decodes(rec, ino)
}

/// The inode that the record of inode `inum` holds, where it holds one.
pub open spec fn stored_inode(img: Seq<Seq<u8>>, inum: u32) -> Inode {
    record_inode(inode_slot(img, inum))
}

/// What reading inode `inum` for device `device` gives where the device
/// does not fail.
pub open spec fn inode_at(img: Seq<Seq<u8>>, device: u32, inum: u32) -> Result<Inode, FsError> {
    if inum >= NUM_INODES {
        Err(FsError::NotFound)
    } else if !decodable(inode_slot(img, inum)) {
        Err(FsError::Corrupt)
    } else if stored_inode(img, inum).device != device {
        Err(FsError::DeviceMismatch)
    } else {
        Ok(stored_inode(img, inum))
    }
}

/// The inode that a record decodes to is the inode that the record holds.
pub proof fn lemma_stored_inode(img: Seq<Seq<u8>>, inum: u32, ino: Inode)
    requires
        decodes(inode_slot(img, inum), ino),
    ensures
        stored_inode(img, inum) == ino,
{
    lemma_decodes_unique(inode_slot(img, inum), ino, stored_inode(img, inum));
}

/// To replace the record of inode `inum` changes that record and no other
/// record, and no sector but the one that holds it.
pub proof fn lemma_slot_update(img: Seq<Seq<u8>>, inum: u32, rec: Seq<u8>, other: u32)
    requires
        wf_image(img),
        inum < NUM_INODES,
        other < NUM_INODES,
        spec_inode_sector(inum) < img.len(),
        spec_inode_sector(other) < img.len(),
        rec.len() == INODE_SIZE,
    ensures
        inode_slot(with_inode_slot(img, inum, rec), inum) == rec,
        other != inum ==> inode_slot(with_inode_slot(img, inum, rec), other) == inode_slot(
            img,
            other,
        ),
        wf_image(with_inode_slot(img, inum, rec)),
        forall|x: int|
            0 <= x < img.len() && x != spec_inode_sector(inum) ==> #[trigger] with_inode_slot(
                img,
                inum,
                rec,
            )[x] == img[x],
{
    let out = with_inode_slot(img, inum, rec);
    assert(inode_slot(out, inum) =~= rec);
    if other != inum {
        if spec_inode_sector(other) == spec_inode_sector(inum) {
            let a = spec_inode_offset(inum);
            let b = spec_inode_offset(other);
            assert(inum % 8 != other % 8);
            assert(a + INODE_SIZE <= b || b + INODE_SIZE <= a);
            assert forall|j: int| 0 <= j < INODE_SIZE implies inode_slot(out, other)[j]
                == inode_slot(img, other)[j] by {}
        }
        assert(inode_slot(out, other) =~= inode_slot(img, other));
    }
}

/// Every slot below `n` is in use.
pub open spec fn all_in_use(img: Seq<Seq<u8>>, n: u32) -> bool {
    forall|j: u32| j < n ==> !is_unused(#[trigger] inode_slot(img, j))
}

/// Slot `inum` is the first free slot of the inode table.
pub open spec fn is_first_free(img: Seq<Seq<u8>>, inum: u32) -> bool {
    inum < NUM_INODES && is_unused(inode_slot(img, inum)) && all_in_use(img, inum)
}

/// The first free slot of the inode table, where it has one.
pub open spec fn first_free_inode(img: Seq<Seq<u8>>) -> u32 {
    choose|inum: u32| is_first_free(img, inum)
}

/// The inode table has one first free slot at most, and none where every
/// slot is in use.
pub proof fn lemma_first_free(img: Seq<Seq<u8>>, inum: u32)
    requires
        is_first_free(img, inum),
    ensures
        first_free_inode(img) == inum,
        !all_in_use(img, NUM_INODES),
{
    let other = first_free_inode(img);
    assert(is_first_free(img, other));
    if other < inum {
        assert(!is_unused(inode_slot(img, other)));
    }
    if inum < other {
        assert(!is_unused(inode_slot(img, inum)));
    }
    if all_in_use(img, NUM_INODES) {
        assert(!is_unused(inode_slot(img, inum)));
    }
}

impl<T: Disk> FileSystem<T> {
    /// Overwrites the record of inode `inum` with `inode`, whatever the
    /// slot held. To free an inode, write the unused inode over it.
    ///
    /// An `inum` behind the end of the table is refused with `NotFound`.
    pub fn update_inode(&mut self, inum: u32, inode: &Inode) -> (r: Result<(), FsError>)
        ensures
            final(self).image().len() == old(self).image().len(),
            final(self).disk.reliable() == old(self).disk.reliable(),
            match r {
                Ok(()) => {
                    &&& inum < NUM_INODES
                    &&& spec_inode_sector(inum) < old(self).image().len()
                    &&& final(self).image() == with_inode_slot(
                        old(self).image(),
                        inum,
                        inode_bytes(*inode),
                    )
                },
                Err(FsError::NotFound) => inum >= NUM_INODES && final(self).image() == old(
                    self,
                ).image(),
                Err(FsError::DeviceError(_)) => inum < NUM_INODES && !(old(self).disk.reliable()
                    && spec_inode_sector(inum) < old(self).image().len()),
                Err(_) => false,
            },
    {
        if inum >= NUM_INODES {
            return Err(FsError::NotFound);
        }
        let sector: u32 = inode_sector(inum);
        let mut block = self.load(sector)?;
        inode.encode(&mut block, inode_offset_in_sector(inum));
        self.store(block.as_slice(), sector)?;
        Ok(())
    }

    /// Reads inode `inum`, which the caller expects on device `device`.
    ///
    /// Fails with `NotFound` when `inum` is behind the end of the table,
    /// with `Corrupt` when the record holds no inode, and with
    /// `DeviceMismatch` when the inode is on another device.
    pub fn read_inode(&self, device: u32, inum: u32) -> (r: Result<Inode, FsError>)
        ensures
            match r {
                Ok(ino) => {
                    &&& inum < NUM_INODES
                    &&& spec_inode_sector(inum) < self.image().len()
                    &&& decodes(inode_slot(self.image(), inum), ino)
                    &&& ino.device == device
                },
                Err(FsError::NotFound) => inum >= NUM_INODES,
                Err(FsError::Corrupt) => {
                    &&& inum < NUM_INODES
                    &&& spec_inode_sector(inum) < self.image().len()
                    &&& !decodable(inode_slot(self.image(), inum))
                },
                Err(FsError::DeviceMismatch) => {
                    &&& inum < NUM_INODES
                    &&& spec_inode_sector(inum) < self.image().len()
                    &&& decodable(inode_slot(self.image(), inum))
                    &&& u32_at(inode_slot(self.image(), inum), 8) != device
                },
                Err(FsError::DeviceError(_)) => inum < NUM_INODES && !(self.disk.reliable()
                    && spec_inode_sector(inum) < self.image().len()),
                Err(_) => false,
            },
            !(r matches Err(FsError::DeviceError(_))) ==> r == inode_at(self.image(), device, inum),
    {
        if inum >= NUM_INODES {
            return Err(FsError::NotFound);
        }
        let block = self.load(inode_sector(inum))?;
        match Inode::decode(block.as_slice(), inode_offset_in_sector(inum)) {
            None => Err(FsError::Corrupt),
            Some(ino) => {
                proof {
                    lemma_stored_inode(self.image(), inum, ino);
                }
                if ino.device != device {
                    Err(FsError::DeviceMismatch)
                } else {
                    Ok(ino)
                }
            },
        }
    }

    /// Whether the slot of inode `inum` is free.
    pub(crate) fn slot_is_unused(&self, inum: u32) -> (r: Result<bool, FsError>)
        requires
            inum < NUM_INODES,
        ensures
            match r {
                Ok(free) => spec_inode_sector(inum) < self.image().len() && free == is_unused(
                    inode_slot(self.image(), inum),
                ),
                Err(e) => e is DeviceError && !(self.disk.reliable() && spec_inode_sector(inum)
                    < self.image().len()),
            },
    {
        let block = self.load(inode_sector(inum))?;
        let tag: u16 = get_u16(block.as_slice(), inode_offset_in_sector(inum));
        Ok(tag == 0)
    }

    /// Takes the first free slot of the inode table, writes `template` into
    /// it and returns its number. `device` names the device for the
    /// caller's records. A template of type `Unused` leaves the slot free.
    ///
    /// With every slot in use the call fails with `OutOfSpace` and the
    /// device is as it was.
    pub fn alloc_inode(&mut self, device: u32, template: Inode) -> (r: Result<u32, FsError>)
        ensures
            final(self).image().len() == old(self).image().len(),
            final(self).disk.reliable() == old(self).disk.reliable(),
            match r {
                Ok(inum) => {
                    &&& inum < NUM_INODES
                    &&& spec_inode_sector(inum) < old(self).image().len()
                    &&& is_first_free(old(self).image(), inum)
                    &&& final(self).image() == with_inode_slot(
                        old(self).image(),
                        inum,
                        inode_bytes(template),
                    )
                },
                Err(FsError::OutOfSpace) => {
                    &&& DATA_START <= old(self).image().len()
                    &&& all_in_use(old(self).image(), NUM_INODES)
                    &&& final(self).image() == old(self).image()
                },
                Err(FsError::DeviceError(_)) => !(old(self).disk.reliable() && DATA_START <= old(
                    self,
                ).image().len()),
                Err(_) => false,
            },
            old(self).disk.reliable() && DATA_START <= old(self).image().len() && all_in_use(
                old(self).image(),
                NUM_INODES,
            ) ==> r == Err::<u32, FsError>(FsError::OutOfSpace),
            all_in_use(old(self).image(), NUM_INODES) ==> r is Err && final(self).image() == old(
                self,
            ).image(),
    {
        let mut inum: u32 = 0;
        while inum < NUM_INODES
            invariant
                inum <= NUM_INODES,
                self.image() == old(self).image(),
                self.disk.reliable() == old(self).disk.reliable(),
                all_in_use(self.image(), inum),
                inum > 0 ==> spec_inode_sector((inum - 1) as u32) < self.image().len(),
            decreases NUM_INODES - inum,
        {
            if self.slot_is_unused(inum)? {
                assert(!all_in_use(old(self).image(), NUM_INODES)) by {
                    assert(is_unused(inode_slot(old(self).image(), inum)));
                }
                self.update_inode(inum, &template)?;
                return Ok(inum);
            }
            inum = inum + 1;
        }
        Err(FsError::OutOfSpace)
    }
}

} // verus!
