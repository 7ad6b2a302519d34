//! Path resolution: from the root directory down, one component at a
//! time.

use vstd::prelude::*;
use vstd::slice::slice_subrange;
use crate::directory::lookup;
use crate::disk::Disk;
use crate::file::blocks_present;
use crate::filesystem::{FileSystem, FsError};
use crate::inode::{Inode, InodeType};
use crate::inodes::inode_at;
use crate::layout::{
    spec_inode_sector,
    MAX_FILE_SIZE,
    NUM_INODES,
    ROOT_DEV,
    ROOT_INUM,
};

verus! {

/// The byte that parts the components of a path: `/`.
pub const SEPARATOR: u8 = 47;

/// The end of the component of `path` that `at` lies in: the position of
/// the next separator from `at` on, or the end of the path.
pub open spec fn component_end(path: Seq<u8>, at: int) -> int
    decreases path.len() - at,
{
    if at >= path.len() || path[at] == SEPARATOR {
        at
    } else {
        component_end(path, at + 1)
    }
}

/// A component ends where it starts or behind.
pub proof fn lemma_component_end(path: Seq<u8>, at: int)
    ensures
        at <= component_end(path, at),
        at < path.len() ==> component_end(path, at) <= path.len(),
        0 <= at < path.len() && path[at] != SEPARATOR ==> at < component_end(path, at),
    decreases path.len() - at,
{
    if !(at >= path.len() || path[at] == SEPARATOR) {
        lemma_component_end(path, at + 1);
    }
}

/// One step down: the directory that `name` stands for in the directory
/// `dir`.
pub open spec fn enter(img: Seq<Seq<u8>>, dir: Inode, name: Seq<u8>) -> Result<Inode, FsError> {
    if dir.size > MAX_FILE_SIZE {
        Err(FsError::Corrupt)
    } else {
        match lookup(img, dir, name) {
            None => Err(FsError::NotFound),
            Some(found) => match inode_at(img, ROOT_DEV, found.0) {
                Ok(ino) => if ino.type_ == InodeType::Directory {
                    Ok(ino)
                } else {
                    Err(FsError::NotADirectory)
                },
                Err(e) => Err(e),
            },
        }
    }
}

/// The directory that the components of `path` from `at` on lead to,
/// starting in the directory `dir`. Separators part the components; a
/// component is never empty.
pub open spec fn descend(img: Seq<Seq<u8>>, dir: Inode, path: Seq<u8>, at: int) -> Result<
    Inode,
    FsError,
>
    decreases path.len() - at,
{
    if at < 0 || at >= path.len() {
        Ok(dir)
    } else if path[at] == SEPARATOR {
        descend(img, dir, path, at + 1)
    } else {
        let end = component_end(path, at);
        proof {
            lemma_component_end(path, at);
        }
        match enter(img, dir, path.subrange(at, end)) {
            Ok(next) => descend(img, next, path, end),
            Err(e) => Err(e),
        }
    }
}

/// What `path` and `final_name` resolve to where the device does not fail:
/// the root inode must be a directory, the components of the path lead
/// from it to a directory, and `final_name` is looked up there.
pub open spec fn resolve(img: Seq<Seq<u8>>, path: Seq<u8>, final_name: Seq<u8>) -> Result<
    u32,
    FsError,
> {
    match inode_at(img, ROOT_DEV, ROOT_INUM) {
        Err(e) => Err(e),
        Ok(root) => if root.type_ != InodeType::Directory {
            Err(FsError::NotADirectory)
        } else {
            match descend(img, root, path, 0) {
                Err(e) => Err(e),
                Ok(dir) => if dir.size > MAX_FILE_SIZE {
                    Err(FsError::Corrupt)
                } else {
                    match lookup(img, dir, final_name) {
                        Some(found) => Ok(found.0),
                        None => Err(FsError::NotFound),
                    }
                },
            }
        },
    }
}

/// What one step down needs of the device: the blocks of the directory
/// `dir` below its size, and the sector of the inode that `name` stands for
/// in it.
pub open spec fn enter_present(img: Seq<Seq<u8>>, dir: Inode, name: Seq<u8>) -> bool {
    dir.size <= MAX_FILE_SIZE ==> {
        &&& blocks_present(img.len() as int, dir.blocks@, 0, dir.size as int)
        &&& match lookup(img, dir, name) {
            Some(found) => found.0 < NUM_INODES ==> spec_inode_sector(found.0) < img.len(),
            None => true,
        }
    }
}

/// What the walk along the components of `path` from `at` on needs of the
/// device, starting in the directory `dir`: what each of its steps needs.
pub open spec fn descend_present(img: Seq<Seq<u8>>, dir: Inode, path: Seq<u8>, at: int) -> bool
    decreases path.len() - at,
{
    if at < 0 || at >= path.len() {
        true
    } else if path[at] == SEPARATOR {
        descend_present(img, dir, path, at + 1)
    } else {
        let end = component_end(path, at);
        proof {
            lemma_component_end(path, at);
        }
        enter_present(img, dir, path.subrange(at, end)) && match enter(
            img,
            dir,
            path.subrange(at, end),
        ) {
            Ok(next) => descend_present(img, next, path, end),
            Err(_) => true,
        }
    }
}

/// What resolving `path` and `final_name` needs of the device: the sector
/// of the root inode, what the walk along the path needs, and the blocks
/// of the directory that the walk ends in. Nothing is asked of inodes that
/// the walk does not come by.
pub open spec fn resolve_present(img: Seq<Seq<u8>>, path: Seq<u8>, final_name: Seq<u8>) -> bool {
    &&& spec_inode_sector(ROOT_INUM) < img.len()
    &&& match inode_at(img, ROOT_DEV, ROOT_INUM) {
        Ok(root) => root.type_ == InodeType::Directory ==> descend_present(img, root, path, 0)
            && match descend(img, root, path, 0) {
            Ok(dir) => dir.size <= MAX_FILE_SIZE ==> blocks_present(
                img.len() as int,
                dir.blocks@,
                0,
                dir.size as int,
            ),
            Err(_) => true,
        },
        Err(_) => true,
    }
}

impl<T: Disk> FileSystem<T> {
    /// The directory inode that `name` stands for in the directory `dir`.
    pub(crate) fn step_into(&self, dir: &Inode, name: &[u8]) -> (r: Result<Inode, FsError>)
        ensures
            match r {
                Err(FsError::DeviceError(_)) => !(self.disk.reliable() && enter_present(
                    self.image(),
                    *dir,
                    name@,
                )),
                Err(e) => enter(self.image(), *dir, name@) == Err::<Inode, FsError>(e),
                Ok(next) => enter(self.image(), *dir, name@) == Ok::<Inode, FsError>(next),
            },
    {
        let (inum, _) = self.dir_lookup(dir, name)?;
        let next = self.read_inode(ROOT_DEV, inum)?;
        match next.type_ {
            InodeType::Directory => Ok(next),
            _ => Err(FsError::NotADirectory),
        }
    }

    /// Resolves `final_name` in the directory that `path` leads to, and
    /// returns its inode number. The walk starts at the root directory;
    /// the components of `path` are parted by `/`, and empty components
    /// count for nothing, so that `/` alone is the root directory.
    ///
    /// Fails with `NotFound` when a component or the final name is in no
    /// entry, and with `NotADirectory` when a component, or the root
    /// inode, is no directory. A reliable device fails only where an
    /// inode or a block that the walk comes by is not on the device.
    pub fn namex(&self, path: &[u8], final_name: &[u8]) -> (r: Result<u32, FsError>)
        ensures
            match r {
                Err(FsError::DeviceError(_)) => !(self.disk.reliable() && resolve_present(
                    self.image(),
                    path@,
                    final_name@,
                )),
                _ => r == resolve(self.image(), path@, final_name@),
            },
    {
        let root = self.read_inode(ROOT_DEV, ROOT_INUM)?;
        match root.type_ {
            InodeType::Directory => {},
            _ => {
                return Err(FsError::NotADirectory);
            },
        }
        let n: usize = path.len();
        let mut dir = root;
        let ghost present = resolve_present(self.image(), path@, final_name@);
        let mut at: usize = 0;
        while at < n
            invariant
                at <= n,
                n == path@.len(),
                present == resolve_present(self.image(), path@, final_name@),
                present ==> descend_present(self.image(), dir, path@, at as int),
                inode_at(self.image(), ROOT_DEV, ROOT_INUM) == Ok::<Inode, FsError>(root),
                root.type_ == InodeType::Directory,
                descend(self.image(), root, path@, 0) == descend(
                    self.image(),
                    dir,
                    path@,
                    at as int,
                ),
            decreases n - at,
        {
            if path[at] == SEPARATOR {
                at = at + 1;
            } else {
                let mut end: usize = at + 1;
                while end < n && path[end] != SEPARATOR
                    invariant
                        at < end <= n,
                        n == path@.len(),
                        component_end(path@, at as int) == component_end(path@, end as int),
                    decreases n - end,
                {
                    end = end + 1;
                }
                assert(component_end(path@, at as int) == end);
                let next = match self.step_into(&dir, slice_subrange(path, at, end)) {
                    Ok(next) => next,
                    Err(e) => {
                        return Err(e);
                    },
                };
                dir = next;
                at = end;
            }
        }
        let (inum, _) = self.dir_lookup(&dir, final_name)?;
        Ok(inum)
    }
}

} // verus!
