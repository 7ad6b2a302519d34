use cofflos::disk::{Disk, DiskError, MemDisk};
use cofflos::filesystem::{FileSystem, FsError};
use cofflos::format::mkfs;
use cofflos::inode::{Inode, InodeType};
use cofflos::layout::{
    BLOCKSIZE, DATA_START, DIRENT_SIZE, DIRNAME_SIZE, FS_SIZE, MAX_FILE_SIZE, NDIRECT,
    NUM_INODES, ROOT_DEV, ROOT_INUM, SUPERBLOCK_ADDR, UNUSED_BLOCKADDR,
};
use cofflos::seed::{link_file, store_file, truncate_name, write_file};
use cofflos::superblock::SuperBlock;

fn fresh() -> FileSystem<MemDisk> {
    let mut fs = FileSystem::new(MemDisk::new(FS_SIZE));
    assert_eq!(mkfs(&mut fs), Ok(()));
    fs
}

fn file_template() -> Inode {
    Inode {
        type_: InodeType::File,
        device: ROOT_DEV,
        major: 0,
        minor: 0,
        size: 0,
        blocks: [0; NDIRECT],
    }
}

fn payload(len: usize) -> Vec<u8> {
    (0..len).map(|i| (i * 7 + i / 251 + 1) as u8).collect()
}

#[test]
fn mem_disk_reads_back_what_was_written() {
    let mut disk = MemDisk::new(4);
    assert_eq!(disk.len(), 4);
    assert_eq!(MemDisk::sector_size(), 512);
    let mut block = [0u8; 512];
    for (i, b) in block.iter_mut().enumerate() {
        *b = (i % 256) as u8;
    }
    assert_eq!(disk.write(&block, 2), Ok(512));
    let mut back = [0u8; 512];
    assert_eq!(disk.read(&mut back, 2), Ok(()));
    assert_eq!(back, block);
    assert_eq!(disk.read(&mut back, 1), Ok(()));
    assert_eq!(back, [0u8; 512]);
    assert_eq!(disk.sector(2), Some(block.to_vec()));
    assert_eq!(disk.sector(4), None);
}

#[test]
fn mem_disk_short_transfers_touch_the_front_of_a_sector() {
    let mut disk = MemDisk::new(2);
    assert_eq!(disk.write(&[9u8; 512], 1), Ok(512));
    assert_eq!(disk.write(&[1, 2, 3], 1), Ok(3));
    let sector = disk.sector(1).unwrap();
    assert_eq!(&sector[..4], &[1, 2, 3, 9]);
    assert_eq!(&sector[4..], &[9u8; 508][..]);
    let mut two = [0u8; 2];
    assert_eq!(disk.read(&mut two, 1), Ok(()));
    assert_eq!(two, [1, 2]);
}

#[test]
fn mem_disk_refuses_sectors_it_does_not_have() {
    let mut disk = MemDisk::new(2);
    let mut buf = [0u8; 512];
    assert_eq!(disk.read(&mut buf, 2), Err(DiskError::IoError));
    assert_eq!(disk.write(&buf, 2), Err(DiskError::IoError));
}

#[test]
fn format_writes_the_superblock() {
    let fs = fresh();
    assert_eq!(
        fs.read_superblock(),
        Ok(SuperBlock {
            size: 0,
            nblocks: FS_SIZE,
            ninodes: NUM_INODES,
            inode_start: 1,
            freelist_start: FS_SIZE - 2,
        })
    );
    let sector = fs.disk.sector(SUPERBLOCK_ADDR).unwrap();
    assert_eq!(&sector[20..], &[0u8; 492][..]);
}

#[test]
fn format_makes_the_root_directory() {
    let fs = fresh();
    let root = fs.read_inode(ROOT_DEV, ROOT_INUM).unwrap();
    assert_eq!(root.type_, InodeType::Directory);
    assert_eq!(root.device, ROOT_DEV);
    assert_eq!(root.size as usize, 2 * DIRENT_SIZE);
    assert_eq!(root.blocks[0], FS_SIZE - 1);
    assert_eq!(&root.blocks[1..], &[0u32; NDIRECT - 1]);
}

#[test]
fn format_leaves_every_other_inode_unused() {
    let fs = fresh();
    for inum in 1..NUM_INODES {
        assert_eq!(fs.read_inode(ROOT_DEV, inum), Ok(Inode::unused()));
    }
}

#[test]
fn root_directory_names_itself() {
    let fs = fresh();
    let root = fs.read_inode(ROOT_DEV, ROOT_INUM).unwrap();
    assert_eq!(fs.dir_lookup(&root, b"."), Ok((0, 0)));
    assert_eq!(fs.dir_lookup(&root, b".."), Ok((0, DIRENT_SIZE)));
    assert_eq!(fs.namex(b"/", b"."), Ok(ROOT_INUM));
    assert_eq!(fs.namex(b"/", b".."), Ok(ROOT_INUM));
}

#[test]
fn directory_grows_by_one_entry_per_name() {
    let mut fs = FileSystem::new(MemDisk::new(FS_SIZE));
    fs.clear_inodes().unwrap();
    fs.write_superblock(&SuperBlock {
        size: 0,
        nblocks: FS_SIZE,
        ninodes: NUM_INODES,
        inode_start: 1,
        freelist_start: UNUSED_BLOCKADDR,
    })
    .unwrap();
    for blockno in DATA_START..FS_SIZE {
        fs.free_block(0, blockno).unwrap();
    }
    let mut inode = Inode {
        type_: InodeType::Directory,
        ..file_template()
    };
    assert_eq!(fs.alloc_inode(0, inode), Ok(ROOT_INUM));
    fs.dir_add(&mut inode, b".", ROOT_INUM).unwrap();
    assert_eq!(inode.size as usize, DIRENT_SIZE);
    fs.dir_add(&mut inode, b"..", ROOT_INUM).unwrap();
    assert_eq!(inode.size as usize, 2 * DIRENT_SIZE);
    fs.update_inode(ROOT_INUM, &inode).unwrap();
    let back = fs.read_inode(ROOT_DEV, ROOT_INUM).unwrap();
    assert_eq!(inode.type_, back.type_);
    assert_eq!(inode.size, back.size);
    assert_eq!(inode.blocks[0], back.blocks[0]);
    assert_eq!(fs.dir_lookup(&inode, b"."), Ok((0, 0)));
    assert_eq!(fs.dir_lookup(&inode, b".."), Ok((0, DIRENT_SIZE)));
}

#[test]
fn free_list_is_last_in_first_out() {
    let mut fs = FileSystem::new(MemDisk::new(FS_SIZE));
    fs.write_superblock(&SuperBlock {
        size: 0,
        nblocks: FS_SIZE,
        ninodes: NUM_INODES,
        inode_start: 1,
        freelist_start: UNUSED_BLOCKADDR,
    })
    .unwrap();
    for block in DATA_START..FS_SIZE {
        fs.free_block(0, block).unwrap();
    }
    assert_eq!(fs.alloc_block(0), Ok(FS_SIZE - 1));
    assert_eq!(fs.alloc_block(0), Ok(FS_SIZE - 2));
    fs.free_block(0, 500).unwrap();
    assert_eq!(fs.alloc_block(0), Ok(500));
    assert_eq!(fs.alloc_block(0), Ok(FS_SIZE - 3));
}

#[test]
fn after_format_the_next_block_is_the_one_below_the_root_directory() {
    let mut fs = fresh();
    assert_eq!(fs.alloc_block(0), Ok(FS_SIZE - 2));
    assert_eq!(fs.alloc_block(0), Ok(FS_SIZE - 3));
}

#[test]
fn freed_block_holds_the_link_and_allocated_block_is_zeroed() {
    let mut fs = FileSystem::new(MemDisk::new(FS_SIZE + 8));
    assert_eq!(mkfs(&mut fs), Ok(()));
    assert_eq!(fs.disk.write(&[0x77u8; 512], 1005), Ok(512));
    assert_eq!(fs.disk.write(&[0x5au8; 512], 1003), Ok(512));
    fs.free_block(0, 1005).unwrap();
    let sector = fs.disk.sector(1005).unwrap();
    assert_eq!(&sector[..4], &[0xe6, 0x03, 0, 0]);
    assert_eq!(&sector[4..], &[0x77u8; 508][..]);
    assert_eq!(fs.read_superblock().unwrap().freelist_start, 1005);
    fs.free_block(0, 1003).unwrap();
    assert_eq!(fs.alloc_block(0), Ok(1003));
    assert_eq!(fs.disk.sector(1003), Some(vec![0u8; 512]));
    assert_eq!(fs.read_superblock().unwrap().freelist_start, 1005);
    assert_eq!(fs.alloc_block(0), Ok(1005));
    assert_eq!(fs.disk.sector(1005), Some(vec![0u8; 512]));
    assert_eq!(fs.alloc_block(0), Ok(FS_SIZE - 2));
}

#[test]
fn blocks_run_out() {
    let mut fs = fresh();
    let free = (FS_SIZE - 1 - DATA_START) as usize;
    let mut seen = Vec::new();
    for _ in 0..free {
        seen.push(fs.alloc_block(0).unwrap());
    }
    let want: Vec<u32> = (DATA_START..FS_SIZE - 1).rev().collect();
    assert_eq!(seen, want);
    let before: Vec<_> = (0..FS_SIZE).map(|s| fs.disk.sector(s)).collect();
    assert_eq!(fs.alloc_block(0), Err(FsError::OutOfSpace));
    assert_eq!(fs.alloc_block(0), Err(FsError::OutOfSpace));
    let after: Vec<_> = (0..FS_SIZE).map(|s| fs.disk.sector(s)).collect();
    assert_eq!(before, after);
}

#[test]
fn inodes_run_out() {
    let mut fs = fresh();
    for want in 1..NUM_INODES {
        let mut template = file_template();
        template.size = want;
        assert_eq!(fs.alloc_inode(ROOT_DEV, template), Ok(want));
    }
    let before: Vec<_> = (0..FS_SIZE).map(|s| fs.disk.sector(s)).collect();
    assert_eq!(fs.alloc_inode(ROOT_DEV, file_template()), Err(FsError::OutOfSpace));
    let after: Vec<_> = (0..FS_SIZE).map(|s| fs.disk.sector(s)).collect();
    assert_eq!(before, after);
    for inum in 1..NUM_INODES {
        assert_eq!(fs.read_inode(ROOT_DEV, inum).unwrap().size, inum);
    }
    fs.update_inode(57, &Inode::unused()).unwrap();
    assert_eq!(fs.alloc_inode(ROOT_DEV, file_template()), Ok(57));
}

#[test]
fn inode_errors() {
    let mut fs = fresh();
    assert_eq!(fs.read_inode(ROOT_DEV, NUM_INODES), Err(FsError::NotFound));
    assert_eq!(fs.update_inode(NUM_INODES, &file_template()), Err(FsError::NotFound));
    assert_eq!(fs.read_inode(1, ROOT_INUM), Err(FsError::DeviceMismatch));
    let mut sector = fs.disk.sector(1).unwrap();
    sector[64] = 9;
    assert_eq!(fs.disk.write(&sector, 1), Ok(512));
    assert_eq!(fs.read_inode(ROOT_DEV, 1), Err(FsError::Corrupt));
    assert_eq!(fs.alloc_inode(ROOT_DEV, file_template()), Ok(2));
}

#[test]
fn device_errors_are_handed_on() {
    let mut fs = FileSystem::new(MemDisk::new(10));
    assert_eq!(mkfs(&mut fs), Err(FsError::DeviceError(DiskError::IoError)));
    assert_eq!(fs.free_block(0, 10), Err(FsError::DeviceError(DiskError::IoError)));
    assert_eq!(
        fs.read_inode(ROOT_DEV, 199),
        Err(FsError::DeviceError(DiskError::IoError))
    );
    let mut inode = file_template();
    inode.size = 10;
    inode.blocks[0] = 64;
    let mut buf = [0u8; 4];
    assert_eq!(
        fs.read(&inode, &mut buf, 0),
        Err(FsError::DeviceError(DiskError::IoError))
    );
}

#[test]
fn round_trip() {
    for len in [1usize, 2, 31, 511, 512, 513, 1024, 5000, 6143, 6144] {
        let mut fs = fresh();
        let data = payload(len);
        let mut inode = file_template();
        assert_eq!(fs.write(&mut inode, &data, 0), Ok(len));
        assert_eq!(inode.size as usize, len);
        let mut back = vec![0u8; len];
        assert_eq!(fs.read(&inode, &mut back, 0), Ok(len));
        assert_eq!(back, data);
    }
}

#[test]
fn write_takes_blocks_from_the_free_list_in_order() {
    let mut fs = fresh();
    let mut inode = file_template();
    fs.write(&mut inode, &payload(1025), 0).unwrap();
    assert_eq!(&inode.blocks[..4], &[FS_SIZE - 2, FS_SIZE - 3, FS_SIZE - 4, 0]);
    assert_eq!(fs.read_superblock().unwrap().freelist_start, FS_SIZE - 5);
    fs.write(&mut inode, &[1, 2, 3], 600).unwrap();
    assert_eq!(&inode.blocks[..4], &[FS_SIZE - 2, FS_SIZE - 3, FS_SIZE - 4, 0]);
    assert_eq!(inode.size, 1025);
    assert_eq!(fs.read_superblock().unwrap().freelist_start, FS_SIZE - 5);
}

#[test]
fn partial_write_keeps_the_bytes_around_it() {
    let mut fs = fresh();
    let data = payload(1500);
    let mut inode = file_template();
    fs.write(&mut inode, &data, 0).unwrap();
    assert_eq!(fs.write(&mut inode, &[0xaa, 0xbb, 0xcc], 700), Ok(3));
    assert_eq!(inode.size, 1500);
    let mut back = vec![0u8; 1500];
    assert_eq!(fs.read(&inode, &mut back, 0), Ok(1500));
    let mut want = data.clone();
    want[700..703].copy_from_slice(&[0xaa, 0xbb, 0xcc]);
    assert_eq!(back, want);
}

#[test]
fn write_across_a_block_boundary_keeps_both_blocks() {
    let mut fs = fresh();
    let data = payload(2048);
    let mut inode = file_template();
    fs.write(&mut inode, &data, 0).unwrap();
    let patch = [0x11u8; 20];
    assert_eq!(fs.write(&mut inode, &patch, 502), Ok(20));
    let mut back = vec![0u8; 2048];
    assert_eq!(fs.read(&inode, &mut back, 0), Ok(2048));
    let mut want = data.clone();
    want[502..522].copy_from_slice(&patch);
    assert_eq!(back, want);
}

#[test]
fn write_behind_the_end_reads_zero_in_between() {
    let mut fs = fresh();
    let mut inode = file_template();
    assert_eq!(fs.write(&mut inode, &[7, 8, 9], 1030), Ok(3));
    assert_eq!(inode.size, 1033);
    assert_eq!(&inode.blocks[..4], &[0, 0, FS_SIZE - 2, 0]);
    let mut back = vec![0xffu8; 1033];
    assert_eq!(fs.read(&inode, &mut back, 0), Ok(1033));
    let mut want = vec![0u8; 1033];
    want[1030..].copy_from_slice(&[7, 8, 9]);
    assert_eq!(back, want);
}

#[test]
fn empty_write_changes_nothing() {
    let mut fs = fresh();
    let mut inode = file_template();
    assert_eq!(fs.write(&mut inode, &[], 100), Ok(0));
    assert_eq!(inode, file_template());
    assert_eq!(fs.write(&mut inode, &[], 7000), Ok(0));
    assert_eq!(inode, file_template());
    assert_eq!(fs.read_superblock().unwrap().freelist_start, FS_SIZE - 2);
}

#[test]
fn file_size_boundary() {
    let mut fs = fresh();
    let full = payload(MAX_FILE_SIZE as usize);
    let mut inode = file_template();
    assert_eq!(fs.write(&mut inode, &full, 0), Ok(MAX_FILE_SIZE as usize));
    assert_eq!(inode.size, MAX_FILE_SIZE);

    let mut fs = fresh();
    let over = payload(MAX_FILE_SIZE as usize + 1);
    let mut inode = file_template();
    assert_eq!(fs.write(&mut inode, &over, 0), Err(FsError::FileTooLarge));
    assert_eq!(inode.size, 0);
    assert!(inode.blocks.iter().all(|b| *b != 0));
    inode.size = MAX_FILE_SIZE;
    let mut back = vec![0u8; MAX_FILE_SIZE as usize];
    assert_eq!(fs.read(&inode, &mut back, 0), Ok(MAX_FILE_SIZE as usize));
    assert_eq!(&back[..], &over[..MAX_FILE_SIZE as usize]);

    let mut inode = file_template();
    assert_eq!(fs.write(&mut inode, &[1], MAX_FILE_SIZE), Err(FsError::FileTooLarge));
    assert_eq!(inode, file_template());
    assert_eq!(fs.write(&mut inode, &[1], MAX_FILE_SIZE - 1), Ok(1));
    assert_eq!(inode.size, MAX_FILE_SIZE);
    assert_eq!(fs.write(&mut inode, &[1, 2], u32::MAX), Err(FsError::FileTooLarge));
}

#[test]
fn write_runs_out_of_blocks() {
    let mut fs = fresh();
    let free = (FS_SIZE - 1 - DATA_START) as usize;
    for _ in 0..free - 2 {
        fs.alloc_block(0).unwrap();
    }
    let data = payload(3 * BLOCKSIZE);
    let mut inode = file_template();
    assert_eq!(fs.write(&mut inode, &data, 0), Err(FsError::OutOfSpace));
    assert_eq!(inode.size, 0);
    assert_eq!(&inode.blocks[..3], &[DATA_START + 1, DATA_START, 0]);
    inode.size = 2 * BLOCKSIZE as u32;
    let mut back = vec![0u8; 2 * BLOCKSIZE];
    assert_eq!(fs.read(&inode, &mut back, 0), Ok(2 * BLOCKSIZE));
    assert_eq!(&back[..], &data[..2 * BLOCKSIZE]);
}

#[test]
fn reads_are_clamped_to_the_size() {
    let mut fs = fresh();
    let data = payload(1000);
    let mut inode = file_template();
    fs.write(&mut inode, &data, 0).unwrap();
    let mut buf = [0xeeu8; 512];
    assert_eq!(fs.read(&inode, &mut buf, 0), Ok(512));
    assert_eq!(&buf[..], &data[..512]);
    let mut buf = [0xeeu8; 512];
    assert_eq!(fs.read(&inode, &mut buf, 512), Ok(488));
    assert_eq!(&buf[..488], &data[512..]);
    assert_eq!(&buf[488..], &[0xeeu8; 24]);
    assert_eq!(fs.read(&inode, &mut buf, 1000), Err(FsError::EndOfFile));
    assert_eq!(fs.read(&inode, &mut buf, 1024), Err(FsError::EndOfFile));
    let mut none = [0u8; 0];
    assert_eq!(fs.read(&inode, &mut none, 5), Ok(0));
    assert_eq!(fs.read(&file_template(), &mut buf, 0), Err(FsError::EndOfFile));
}

#[test]
fn sequential_reads_end_with_end_of_file() {
    let mut fs = fresh();
    let data = payload(1300);
    let mut inode = file_template();
    fs.write(&mut inode, &data, 0).unwrap();
    let mut out = Vec::new();
    let mut buf = [0u8; BLOCKSIZE];
    let mut off: u32 = 0;
    while let Ok(n) = fs.read(&inode, &mut buf, off) {
        out.extend_from_slice(&buf[..n]);
        off += BLOCKSIZE as u32;
    }
    assert_eq!(out, data);
    assert_eq!(off, 1536);
}

#[test]
fn oversized_inode_is_corrupt() {
    let fs = fresh();
    let mut inode = file_template();
    inode.size = MAX_FILE_SIZE + 1;
    let mut buf = [0u8; 8];
    assert_eq!(fs.read(&inode, &mut buf, 0), Err(FsError::Corrupt));
    assert_eq!(fs.dir_lookup(&inode, b"x"), Err(FsError::Corrupt));
}

#[test]
fn directory_names() {
    let mut fs = fresh();
    let mut root = fs.read_inode(ROOT_DEV, ROOT_INUM).unwrap();
    let long = [b'n'; DIRNAME_SIZE + 1];
    let before = root;
    assert_eq!(fs.dir_add(&mut root, &long, 3), Err(FsError::NameTooLong));
    assert_eq!(root, before);
    assert_eq!(fs.dir_add(&mut root, &long[..DIRNAME_SIZE], 3), Ok(()));
    assert_eq!(fs.dir_add(&mut root, b"a", 4), Ok(()));
    assert_eq!(fs.dir_add(&mut root, b"a", 5), Ok(()));
    assert_eq!(root.size as usize, 5 * DIRENT_SIZE);
    assert_eq!(fs.dir_lookup(&root, &long[..DIRNAME_SIZE]), Ok((3, 2 * DIRENT_SIZE)));
    assert_eq!(fs.dir_lookup(&root, b"a"), Ok((4, 3 * DIRENT_SIZE)));
    assert_eq!(fs.dir_lookup(&root, b"b"), Err(FsError::NotFound));
    assert_eq!(fs.dir_lookup(&root, &long), Err(FsError::NotFound));
    assert_eq!(fs.dir_lookup(&root, b""), Err(FsError::NotFound));
}

#[test]
fn directory_fills_up() {
    let mut fs = fresh();
    let mut root = fs.read_inode(ROOT_DEV, ROOT_INUM).unwrap();
    let entries = MAX_FILE_SIZE as usize / DIRENT_SIZE;
    for i in 2..entries {
        let name = format!("f{}", i);
        assert_eq!(fs.dir_add(&mut root, name.as_bytes(), i as u32), Ok(()));
    }
    assert_eq!(root.size, MAX_FILE_SIZE);
    assert_eq!(fs.dir_add(&mut root, b"last", 1), Err(FsError::FileTooLarge));
    assert_eq!(root.size, MAX_FILE_SIZE);
    assert_eq!(fs.dir_lookup(&root, b"f191"), Ok((191, 191 * DIRENT_SIZE)));
    assert_eq!(fs.dir_lookup(&root, b"f100"), Ok((100, 100 * DIRENT_SIZE)));
}

fn make_dir(fs: &mut FileSystem<MemDisk>, parent: u32, name: &[u8]) -> u32 {
    let mut dir = Inode {
        type_: InodeType::Directory,
        ..file_template()
    };
    let inum = fs.alloc_inode(ROOT_DEV, dir).unwrap();
    fs.dir_add(&mut dir, b".", inum).unwrap();
    fs.dir_add(&mut dir, b"..", parent).unwrap();
    fs.update_inode(inum, &dir).unwrap();
    let mut up = fs.read_inode(ROOT_DEV, parent).unwrap();
    fs.dir_add(&mut up, name, inum).unwrap();
    fs.update_inode(parent, &up).unwrap();
    inum
}

#[test]
fn paths_are_walked_from_the_root() {
    let mut fs = fresh();
    let etc = make_dir(&mut fs, ROOT_INUM, b"etc");
    let deep = make_dir(&mut fs, etc, b"deep");
    write_file(&mut fs, b"top", b"hello").unwrap();
    let top = fs.namex(b"/", b"top").unwrap();
    let mut dir = fs.read_inode(ROOT_DEV, deep).unwrap();
    fs.dir_add(&mut dir, b"leaf", top).unwrap();
    fs.update_inode(deep, &dir).unwrap();

    assert_eq!((etc, deep, top), (1, 2, 3));
    assert_eq!(fs.namex(b"/", b"etc"), Ok(etc));
    assert_eq!(fs.namex(b"", b"etc"), Ok(etc));
    assert_eq!(fs.namex(b"/etc", b"deep"), Ok(deep));
    assert_eq!(fs.namex(b"etc", b"deep"), Ok(deep));
    assert_eq!(fs.namex(b"//etc///deep/", b"leaf"), Ok(top));
    assert_eq!(fs.namex(b"/etc/deep", b".."), Ok(etc));
    assert_eq!(fs.namex(b"/etc/deep/../..", b"top"), Ok(top));
    assert_eq!(fs.namex(b"/etc/./deep", b"."), Ok(deep));
    assert_eq!(fs.namex(b"/etc", b"nothing"), Err(FsError::NotFound));
    assert_eq!(fs.namex(b"/nothing", b"deep"), Err(FsError::NotFound));
    assert_eq!(fs.namex(b"/top", b"x"), Err(FsError::NotADirectory));
    assert_eq!(fs.namex(b"/etc/deep/leaf", b"x"), Err(FsError::NotADirectory));
}

#[test]
fn path_walk_needs_a_root_directory() {
    let mut fs = FileSystem::new(MemDisk::new(FS_SIZE));
    assert_eq!(fs.namex(b"/", b"x"), Err(FsError::NotADirectory));
    assert_eq!(write_file(&mut fs, b"x", b"data"), Err(FsError::NotADirectory));
    assert_eq!(fs.read_inode(ROOT_DEV, 0), Ok(Inode::unused()));
}

#[test]
fn names_are_cut_to_the_name_field() {
    assert_eq!(truncate_name(b"short"), b"short");
    let long = b"a-name-that-is-much-longer-than-the-field";
    assert_eq!(truncate_name(long), &long[..DIRNAME_SIZE]);
    assert_eq!(truncate_name(&long[..DIRNAME_SIZE]), &long[..DIRNAME_SIZE]);
    assert_eq!(truncate_name(b""), b"");
}

#[test]
fn seeded_files_are_found_and_read_back() {
    let mut fs = fresh();
    let readme = payload(5000);
    let page = b"<html>${{VERSION}}</html>".to_vec();
    assert_eq!(write_file(&mut fs, b"README", &readme), Ok(()));
    assert_eq!(write_file(&mut fs, b"small.html", &page), Ok(()));
    let long = b"a-name-that-is-much-longer-than-the-field";
    assert_eq!(write_file(&mut fs, long, b"x"), Ok(()));

    assert_eq!(fs.namex(b"/", b"README"), Ok(1));
    assert_eq!(fs.namex(b"/", b"small.html"), Ok(2));
    assert_eq!(fs.namex(b"/", &long[..DIRNAME_SIZE]), Ok(3));
    assert_eq!(fs.namex(b"/", long), Err(FsError::NotFound));

    let inode = fs.read_inode(ROOT_DEV, 1).unwrap();
    assert_eq!(inode.type_, InodeType::File);
    assert_eq!(inode.size, 5000);
    let mut back = vec![0u8; 5000];
    assert_eq!(fs.read(&inode, &mut back, 0), Ok(5000));
    assert_eq!(back, readme);

    let inode = fs.read_inode(ROOT_DEV, 2).unwrap();
    let mut back = vec![0u8; inode.size as usize];
    assert_eq!(fs.read(&inode, &mut back, 0), Ok(page.len()));
    assert_eq!(back, page);

    let root = fs.read_inode(ROOT_DEV, ROOT_INUM).unwrap();
    assert_eq!(root.size as usize, 5 * DIRENT_SIZE);
}

#[test]
fn seeding_refuses_what_does_not_fit() {
    let mut fs = fresh();
    let over = payload(MAX_FILE_SIZE as usize + 1);
    assert_eq!(write_file(&mut fs, b"big", &over), Err(FsError::FileTooLarge));
    assert_eq!(fs.namex(b"/", b"big"), Err(FsError::NotFound));
    let full = payload(MAX_FILE_SIZE as usize);
    assert_eq!(write_file(&mut fs, b"full", &full), Ok(()));
    let inum = fs.namex(b"/", b"full").unwrap();
    let inode = fs.read_inode(ROOT_DEV, inum).unwrap();
    let mut back = vec![0u8; MAX_FILE_SIZE as usize];
    assert_eq!(fs.read(&inode, &mut back, 0), Ok(MAX_FILE_SIZE as usize));
    assert_eq!(back, full);
}

#[test]
fn end_to_end() {
    let mut fs = FileSystem::new(MemDisk::new(FS_SIZE));
    assert_eq!(mkfs(&mut fs), Ok(()));
    let root = fs.read_inode(ROOT_DEV, ROOT_INUM).unwrap();
    assert_eq!(root.type_, InodeType::Directory);
    assert_eq!(root.size as usize, 2 * DIRENT_SIZE);

    let mut inode = file_template();
    let inum = fs.alloc_inode(ROOT_DEV, inode).unwrap();
    assert_ne!(inum, ROOT_INUM);
    let data = payload(5000);
    assert_eq!(fs.write(&mut inode, &data, 0), Ok(5000));
    fs.update_inode(inum, &inode).unwrap();

    let mut root = fs.read_inode(ROOT_DEV, ROOT_INUM).unwrap();
    fs.dir_add(&mut root, b"readme", inum).unwrap();
    fs.update_inode(ROOT_INUM, &root).unwrap();

    assert_eq!(fs.namex(b"/", b"readme"), Ok(inum));
    let stored = fs.read_inode(ROOT_DEV, inum).unwrap();
    assert_eq!(stored.size, 5000);
    let mut back = vec![0u8; 5000];
    assert_eq!(fs.read(&stored, &mut back, 0), Ok(5000));
    assert_eq!(back, data);
    for (i, b) in data.iter().enumerate() {
        let mut one = [0u8; 1];
        assert_eq!(fs.read(&stored, &mut one, i as u32), Ok(1));
        assert_eq!(one[0], *b);
    }
    assert_eq!(fs.dir_lookup(&root, b"."), Ok((ROOT_INUM, 0)));
    assert_eq!(fs.dir_lookup(&root, b"readme"), Ok((inum, 2 * DIRENT_SIZE)));
}

#[test]
fn files_do_not_disturb_each_other() {
    let mut fs = fresh();
    let a = payload(3000);
    let b: Vec<u8> = payload(4000).iter().map(|x| x ^ 0x55).collect();
    write_file(&mut fs, b"a", &a).unwrap();
    write_file(&mut fs, b"b", &b).unwrap();
    let ia = fs.namex(b"/", b"a").unwrap();
    let ib = fs.namex(b"/", b"b").unwrap();
    let mut ino_a = fs.read_inode(ROOT_DEV, ia).unwrap();
    fs.write(&mut ino_a, &[0xffu8; 100], 2950).unwrap();
    fs.update_inode(ia, &ino_a).unwrap();
    let ino_b = fs.read_inode(ROOT_DEV, ib).unwrap();
    let mut back = vec![0u8; 4000];
    assert_eq!(fs.read(&ino_b, &mut back, 0), Ok(4000));
    assert_eq!(back, b);
    let mut back = vec![0u8; 3050];
    assert_eq!(fs.read(&ino_a, &mut back, 0), Ok(3050));
    assert_eq!(&back[..2950], &a[..2950]);
    assert_eq!(&back[2950..], &[0xffu8; 100]);
    let mut all = ino_a.blocks.iter().chain(ino_b.blocks.iter()).filter(|b| **b != 0).collect::<Vec<_>>();
    let n = all.len();
    all.sort();
    all.dedup();
    assert_eq!(all.len(), n);
}

#[test]
fn stored_file_takes_the_first_free_inode_and_the_head_of_the_free_list() {
    let mut fs = fresh();
    let data = payload(1300);
    assert_eq!(store_file(&mut fs, &data), Ok(1));
    let inode = fs.read_inode(ROOT_DEV, 1).unwrap();
    assert_eq!(inode.type_, InodeType::File);
    assert_eq!(inode.size, 1300);
    assert_eq!(&inode.blocks[..4], &[FS_SIZE - 2, FS_SIZE - 3, FS_SIZE - 4, 0]);
    assert_eq!(fs.read_superblock().unwrap().freelist_start, FS_SIZE - 5);
    let mut back = vec![0u8; 1300];
    assert_eq!(fs.read(&inode, &mut back, 0), Ok(1300));
    assert_eq!(back, data);
    assert_eq!(store_file(&mut fs, &[]), Ok(2));
    assert_eq!(fs.read_inode(ROOT_DEV, 2).unwrap().size, 0);
    assert_eq!(fs.read_superblock().unwrap().freelist_start, FS_SIZE - 5);
    assert_eq!(fs.namex(b"/", b"anything"), Err(FsError::NotFound));
}

#[test]
fn stored_file_needs_room() {
    let mut fs = fresh();
    let over = payload(MAX_FILE_SIZE as usize + 1);
    assert_eq!(store_file(&mut fs, &over), Err(FsError::FileTooLarge));
    let mut fs = fresh();
    for _ in 1..NUM_INODES {
        fs.alloc_inode(ROOT_DEV, file_template()).unwrap();
    }
    let before: Vec<_> = (0..FS_SIZE).map(|s| fs.disk.sector(s)).collect();
    assert_eq!(store_file(&mut fs, b"x"), Err(FsError::OutOfSpace));
    let after: Vec<_> = (0..FS_SIZE).map(|s| fs.disk.sector(s)).collect();
    assert_eq!(before, after);
}

#[test]
fn linked_name_stands_behind_the_entries_that_were_there() {
    let mut fs = fresh();
    assert_eq!(link_file(&mut fs, b"seven", 7), Ok(()));
    assert_eq!(link_file(&mut fs, b"eight", 8), Ok(()));
    let root = fs.read_inode(ROOT_DEV, ROOT_INUM).unwrap();
    assert_eq!(root.size as usize, 4 * DIRENT_SIZE);
    assert_eq!(fs.dir_lookup(&root, b"."), Ok((0, 0)));
    assert_eq!(fs.dir_lookup(&root, b"seven"), Ok((7, 2 * DIRENT_SIZE)));
    assert_eq!(fs.dir_lookup(&root, b"eight"), Ok((8, 3 * DIRENT_SIZE)));
    assert_eq!(fs.read_superblock().unwrap().freelist_start, FS_SIZE - 2);
    let long = [b'z'; DIRNAME_SIZE + 1];
    let before: Vec<_> = (0..FS_SIZE).map(|s| fs.disk.sector(s)).collect();
    assert_eq!(link_file(&mut fs, &long, 9), Err(FsError::NameTooLong));
    let after: Vec<_> = (0..FS_SIZE).map(|s| fs.disk.sector(s)).collect();
    assert_eq!(before, after);
}

#[test]
fn seventeenth_entry_takes_a_new_block() {
    let mut fs = fresh();
    for i in 2..16u32 {
        assert_eq!(link_file(&mut fs, format!("n{}", i).as_bytes(), i), Ok(()));
    }
    let root = fs.read_inode(ROOT_DEV, ROOT_INUM).unwrap();
    assert_eq!(root.size as usize, BLOCKSIZE);
    assert_eq!(root.blocks[1], 0);
    assert_eq!(link_file(&mut fs, b"n16", 16), Ok(()));
    let root = fs.read_inode(ROOT_DEV, ROOT_INUM).unwrap();
    assert_eq!(root.blocks[1], FS_SIZE - 2);
    assert_eq!(fs.read_superblock().unwrap().freelist_start, FS_SIZE - 3);
    assert_eq!(fs.dir_lookup(&root, b"n16"), Ok((16, BLOCKSIZE)));
}

#[test]
fn seeding_runs_out_of_blocks() {
    let mut fs = fresh();
    let free = (FS_SIZE - 1 - DATA_START) as usize;
    for _ in 0..free - 1 {
        fs.alloc_block(0).unwrap();
    }
    assert_eq!(write_file(&mut fs, b"two", &payload(513)), Err(FsError::OutOfSpace));
    assert_eq!(fs.namex(b"/", b"two"), Err(FsError::NotFound));
}

#[test]
fn mem_disk_from_and_to_bytes() {
    let bytes: Vec<u8> = (0..700u32).map(|i| (i % 251) as u8 + 1).collect();
    let disk = MemDisk::from_bytes(&bytes, 3);
    assert_eq!(disk.len(), 3);
    assert_eq!(disk.sector(0).unwrap(), bytes[..512].to_vec());
    let mut second = bytes[512..].to_vec();
    second.resize(512, 0);
    assert_eq!(disk.sector(1).unwrap(), second);
    assert_eq!(disk.sector(2).unwrap(), vec![0u8; 512]);
    let mut want = bytes.clone();
    want.resize(3 * 512, 0);
    assert_eq!(disk.to_bytes(), want);
    let short = MemDisk::from_bytes(&bytes, 1);
    assert_eq!(short.to_bytes(), bytes[..512].to_vec());
    assert_eq!(MemDisk::from_bytes(&[], 0).to_bytes(), Vec::<u8>::new());
}

#[test]
fn image_survives_a_round_through_bytes() {
    let mut fs = fresh();
    write_file(&mut fs, b"a", &payload(700)).unwrap();
    let bytes = fs.disk.to_bytes();
    assert_eq!(bytes.len(), FS_SIZE as usize * BLOCKSIZE);
    let again = FileSystem::new(MemDisk::from_bytes(&bytes, FS_SIZE));
    let inum = again.namex(b"/", b"a").unwrap();
    let inode = again.read_inode(ROOT_DEV, inum).unwrap();
    let mut back = vec![0u8; 700];
    assert_eq!(again.read(&inode, &mut back, 0), Ok(700));
    assert_eq!(back, payload(700));
}

#[test]
fn read_all_gives_the_whole_file() {
    let mut fs = fresh();
    for len in [0usize, 1, 512, 513, 5000, 6144] {
        let data = payload(len);
        let mut inode = file_template();
        assert_eq!(fs.write(&mut inode, &data, 0), Ok(len));
        assert_eq!(fs.read_all(&inode), Ok(data));
    }
    let mut holes = file_template();
    fs.write(&mut holes, &[9], 1000).unwrap();
    let mut want = vec![0u8; 1001];
    want[1000] = 9;
    assert_eq!(fs.read_all(&holes), Ok(want));
    let mut big = file_template();
    big.size = MAX_FILE_SIZE + 1;
    assert_eq!(fs.read_all(&big), Err(FsError::Corrupt));
    let mut lost = file_template();
    lost.size = 10;
    lost.blocks[0] = FS_SIZE + 5;
    assert_eq!(
        fs.read_all(&lost),
        Err(FsError::DeviceError(DiskError::IoError))
    );
}

#[test]
fn seeded_file_of_full_size_has_every_pointer_set() {
    let mut fs = fresh();
    let full = payload(MAX_FILE_SIZE as usize);
    assert_eq!(write_file(&mut fs, b"full", &full), Ok(()));
    let inode = fs.read_inode(ROOT_DEV, 1).unwrap();
    assert_eq!(inode.size, MAX_FILE_SIZE);
    assert_eq!((inode.major, inode.minor), (0, 0));
    let want: Vec<u32> = (0..NDIRECT as u32).map(|i| FS_SIZE - 2 - i).collect();
    assert_eq!(inode.blocks.to_vec(), want);
    assert_eq!(fs.read_superblock().unwrap().freelist_start, FS_SIZE - 2 - NDIRECT as u32);
    let small = payload(513);
    assert_eq!(write_file(&mut fs, b"small", &small), Ok(()));
    let inode = fs.read_inode(ROOT_DEV, 2).unwrap();
    assert_eq!(&inode.blocks[..3], &[FS_SIZE - 14, FS_SIZE - 15, 0]);
    assert_eq!(&inode.blocks[3..], &[0u32; NDIRECT - 3]);
}

#[test]
fn content_that_is_too_long_leaves_the_root_directory_alone() {
    let mut fs = fresh();
    write_file(&mut fs, b"kept", &payload(700)).unwrap();
    let root = fs.read_inode(ROOT_DEV, ROOT_INUM).unwrap();
    let entries = fs.read_all(&root).unwrap();
    let over = payload(MAX_FILE_SIZE as usize + 1);
    assert_eq!(write_file(&mut fs, b"big", &over), Err(FsError::FileTooLarge));
    assert_eq!(fs.read_inode(ROOT_DEV, ROOT_INUM), Ok(root));
    assert_eq!(fs.read_all(&root), Ok(entries));
    let kept = fs.read_inode(ROOT_DEV, fs.namex(b"/", b"kept").unwrap()).unwrap();
    assert_eq!(fs.read_all(&kept), Ok(payload(700)));
    assert_eq!(fs.read_inode(ROOT_DEV, 2), Ok(file_template()));
}

#[test]
fn seeding_without_a_free_inode_changes_nothing() {
    let mut fs = fresh();
    write_file(&mut fs, b"kept", &payload(700)).unwrap();
    for _ in 2..NUM_INODES {
        fs.alloc_inode(ROOT_DEV, file_template()).unwrap();
    }
    let before = fs.disk.to_bytes();
    assert_eq!(write_file(&mut fs, b"more", b"x"), Err(FsError::OutOfSpace));
    assert_eq!(
        write_file(&mut fs, b"more", &payload(MAX_FILE_SIZE as usize + 1)),
        Err(FsError::OutOfSpace)
    );
    assert_eq!(fs.disk.to_bytes(), before);
}

#[test]
fn seeding_with_an_empty_free_list_keeps_earlier_files() {
    let mut fs = fresh();
    write_file(&mut fs, b"kept", &payload(700)).unwrap();
    while fs.alloc_block(0).is_ok() {}
    let root = fs.read_inode(ROOT_DEV, ROOT_INUM).unwrap();
    assert_eq!(write_file(&mut fs, b"more", b"x"), Err(FsError::OutOfSpace));
    assert_eq!(fs.read_inode(ROOT_DEV, ROOT_INUM), Ok(root));
    assert_eq!(fs.namex(b"/", b"more"), Err(FsError::NotFound));
    let kept = fs.read_inode(ROOT_DEV, fs.namex(b"/", b"kept").unwrap()).unwrap();
    assert_eq!(fs.read_all(&kept), Ok(payload(700)));
    assert_eq!(write_file(&mut fs, b"empty", b""), Ok(()));
    assert_eq!(fs.namex(b"/", b"empty"), Ok(3));
}

#[test]
fn full_root_directory_refuses_one_more_file() {
    let mut fs = fresh();
    let entries = MAX_FILE_SIZE as usize / DIRENT_SIZE;
    for i in 2..entries {
        assert_eq!(link_file(&mut fs, format!("n{}", i).as_bytes(), 1), Ok(()));
    }
    let before = fs.disk.to_bytes();
    assert_eq!(link_file(&mut fs, b"last", 1), Err(FsError::FileTooLarge));
    assert_eq!(fs.disk.to_bytes(), before);
    let root = fs.read_inode(ROOT_DEV, ROOT_INUM).unwrap();
    assert_eq!(write_file(&mut fs, b"file", b"abc"), Err(FsError::FileTooLarge));
    assert_eq!(fs.read_inode(ROOT_DEV, ROOT_INUM), Ok(root));
    assert_eq!(fs.namex(b"/", b"file"), Err(FsError::NotFound));
}
