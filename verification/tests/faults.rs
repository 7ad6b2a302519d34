use cofflos::disk::{DiskError, MemDisk, WornDisk};
use cofflos::filesystem::{FileSystem, FsError};
use cofflos::format::mkfs;
use cofflos::inode::{Inode, InodeType};
use cofflos::layout::{FS_SIZE, NDIRECT, ROOT_DEV, ROOT_INUM};
use cofflos::seed::write_file;

const FAILED: FsError = FsError::DeviceError(DiskError::IoError);

// Writes that formatting takes: one for each inode, one for the superblock,
// two for each data block that is freed, one for the root inode, four for
// the two entries of the root directory, one for the root inode again.
const FORMAT_WRITES: usize = 200 + 1 + 2 * 974 + 1 + 4 + 1;

fn formatted(writes: usize) -> FileSystem<WornDisk> {
    let mut fs = FileSystem::new(MemDisk::new(FS_SIZE));
    assert_eq!(mkfs(&mut fs), Ok(()));
    FileSystem::new(WornDisk::new(fs.disk, writes))
}

#[test]
fn formatting_fails_when_the_device_does() {
    for writes in [0, 1, 199, 200, 201, 1000, FORMAT_WRITES - 1] {
        let mut fs = FileSystem::new(WornDisk::new(MemDisk::new(FS_SIZE), writes));
        assert_eq!(mkfs(&mut fs), Err(FAILED));
    }
    let mut fs = FileSystem::new(WornDisk::new(MemDisk::new(FS_SIZE), FORMAT_WRITES));
    assert_eq!(mkfs(&mut fs), Ok(()));
    assert_eq!(fs.namex(b"/", b"."), Ok(ROOT_INUM));
    assert_eq!(fs.alloc_block(0), Err(FAILED));
}

#[test]
fn allocation_fails_when_the_device_does() {
    let mut fs = formatted(0);
    assert_eq!(fs.alloc_block(0), Err(FAILED));
    assert_eq!(fs.free_block(0, 500), Err(FAILED));
    let template = Inode {
        type_: InodeType::File,
        device: ROOT_DEV,
        major: 0,
        minor: 0,
        size: 0,
        blocks: [0; NDIRECT],
    };
    assert_eq!(fs.alloc_inode(ROOT_DEV, template), Err(FAILED));
    assert_eq!(fs.update_inode(3, &template), Err(FAILED));
    assert_eq!(fs.read_inode(ROOT_DEV, 3), Ok(Inode::unused()));
    assert_eq!(fs.read_superblock().unwrap().freelist_start, FS_SIZE - 2);
}

#[test]
fn allocation_that_fails_half_way_has_moved_the_head() {
    let mut fs = formatted(1);
    assert_eq!(fs.alloc_block(0), Err(FAILED));
    assert_eq!(fs.read_superblock().unwrap().freelist_start, FS_SIZE - 3);
    let block = fs.disk.sector(FS_SIZE - 2).unwrap();
    assert_eq!(&block[..4], &[0xe5, 0x03, 0, 0]);
}

#[test]
fn write_that_fails_half_way_keeps_what_it_wrote() {
    // Two blocks: each takes two writes to allocate and one to fill.
    let mut fs = formatted(4);
    let data: Vec<u8> = (0..1024u32).map(|i| (i % 253) as u8).collect();
    let mut inode = Inode {
        type_: InodeType::File,
        device: ROOT_DEV,
        major: 0,
        minor: 0,
        size: 0,
        blocks: [0; NDIRECT],
    };
    assert_eq!(fs.write(&mut inode, &data, 0), Err(FAILED));
    assert_eq!(inode.size, 0);
    assert_eq!(&inode.blocks[..3], &[FS_SIZE - 2, 0, 0]);
    inode.size = 512;
    let mut back = vec![0u8; 512];
    assert_eq!(fs.read(&inode, &mut back, 0), Ok(512));
    assert_eq!(&back[..], &data[..512]);
}

#[test]
fn seeding_fails_when_the_device_does() {
    // One write for the inode, three for the block, one for the inode, one
    // for the entry, one for the root inode.
    for writes in 0..7 {
        let mut fs = formatted(writes);
        assert_eq!(write_file(&mut fs, b"f", b"content"), Err(FAILED));
    }
    let mut fs = formatted(7);
    assert_eq!(write_file(&mut fs, b"f", b"content"), Ok(()));
    assert_eq!(fs.namex(b"/", b"f"), Ok(1));
}
