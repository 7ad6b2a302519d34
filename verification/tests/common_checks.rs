use cofflos::bytes::{get_u16, get_u32, put_u16, put_u32};
use cofflos::dirent::{name_matches, DirEntry};
use cofflos::inode::{Inode, InodeType};
use cofflos::layout::{
    inode_offset_in_sector, inode_sector, BLOCKSIZE, DATA_START, DIRENT_SIZE, DIRNAME_SIZE,
    FS_SIZE, INODES_PER_BLOCK, INODE_SIZE, INODE_START, MAX_FILE_SIZE, NDIRECT, NUM_INODES,
    ROOT_DEV, ROOT_INUM, SUPERBLOCK_ADDR, UNUSED_BLOCKADDR,
};
use cofflos::logger::{
    enabled, level_color, level_letter, log_line, module_tail, shutdown, LogLevel,
};
use cofflos::paging::{EntryPgDir, BOOT_ENTRY, KERNEL_ENTRY, NPDENTRIES, PTE_P, PTE_PS, PTE_W};
use cofflos::pcibar::{interrupt_line, interrupt_pin, io_base};
use cofflos::superblock::SuperBlock;
use cofflos::uptime::Uptime;

#[test]
fn geometry_is_consistent() {
    assert_eq!(BLOCKSIZE, 512);
    assert_eq!(INODES_PER_BLOCK as usize * INODE_SIZE, BLOCKSIZE);
    assert_eq!(DATA_START, INODE_START + NUM_INODES / INODES_PER_BLOCK);
    assert_eq!(MAX_FILE_SIZE as usize, NDIRECT * BLOCKSIZE);
    assert_eq!(DIRENT_SIZE, DIRNAME_SIZE + 4);
    assert_eq!(SUPERBLOCK_ADDR, 0);
    assert_eq!(UNUSED_BLOCKADDR, 0);
    assert_eq!(ROOT_DEV, 0);
    assert_eq!(ROOT_INUM, 0);
    assert_eq!(FS_SIZE, 1000);
}

#[test]
fn inode_positions() {
    assert_eq!(inode_sector(0), 1);
    assert_eq!(inode_offset_in_sector(0), 0);
    assert_eq!(inode_sector(7), 1);
    assert_eq!(inode_offset_in_sector(7), 448);
    assert_eq!(inode_sector(8), 2);
    assert_eq!(inode_offset_in_sector(8), 0);
    assert_eq!(inode_sector(13), 2);
    assert_eq!(inode_offset_in_sector(13), 320);
    assert_eq!(inode_sector(199), 25);
    assert_eq!(inode_offset_in_sector(199), 448);
}

#[test]
fn integers_are_little_endian() {
    let mut buf = [0xffu8; 8];
    put_u32(&mut buf, 2, 0x1234_5678);
    assert_eq!(buf, [0xff, 0xff, 0x78, 0x56, 0x34, 0x12, 0xff, 0xff]);
    assert_eq!(get_u32(&buf, 2), 0x1234_5678);
    put_u16(&mut buf, 0, 0xbeef);
    assert_eq!(buf, [0xef, 0xbe, 0x78, 0x56, 0x34, 0x12, 0xff, 0xff]);
    assert_eq!(get_u16(&buf, 0), 0xbeef);
    assert_eq!(get_u32(&[0xff, 0xff, 0xff, 0xff], 0), u32::MAX);
}

#[test]
fn inode_record_layout() {
    let mut blocks = [0u32; NDIRECT];
    blocks[0] = 999;
    blocks[11] = 0x0102_0304;
    let ino = Inode {
        type_: InodeType::Directory,
        device: 7,
        major: 0x0a0b,
        minor: 3,
        size: 64,
        blocks,
    };
    let mut buf = [0xeeu8; 80];
    ino.encode(&mut buf, 8);
    assert_eq!(&buf[..8], &[0xee; 8]);
    assert_eq!(&buf[72..], &[0xee; 8]);
    assert_eq!(&buf[8..16], &[2, 0, 0x0b, 0x0a, 3, 0, 0, 0]);
    assert_eq!(&buf[16..24], &[7, 0, 0, 0, 64, 0, 0, 0]);
    assert_eq!(&buf[24..28], &[0xe7, 0x03, 0, 0]);
    assert_eq!(&buf[68..72], &[4, 3, 2, 1]);
    assert_eq!(Inode::decode(&buf, 8), Some(ino));
}

#[test]
fn inode_record_with_unknown_type_is_refused() {
    let mut buf = [0u8; 64];
    buf[0] = 4;
    assert_eq!(Inode::decode(&buf, 0), None);
    buf[0] = 3;
    assert_eq!(Inode::decode(&buf, 0).map(|i| i.type_), Some(InodeType::Device));
    buf[0] = 1;
    assert_eq!(Inode::decode(&buf, 0).map(|i| i.type_), Some(InodeType::File));
    buf[1] = 1;
    assert_eq!(Inode::decode(&buf, 0), None);
}

#[test]
fn unused_inode_is_all_zero() {
    let ino = Inode::unused();
    assert_eq!(ino.type_, InodeType::Unused);
    assert_eq!(ino.blocks, [0u32; NDIRECT]);
    let mut buf = [0xffu8; 64];
    ino.encode(&mut buf, 0);
    assert_eq!(buf, [0u8; 64]);
}

#[test]
fn superblock_record_layout() {
    let sb = SuperBlock {
        size: 1,
        nblocks: 1000,
        ninodes: 200,
        inode_start: 1,
        freelist_start: 998,
    };
    let mut buf = [0xaau8; 24];
    sb.encode(&mut buf);
    assert_eq!(
        buf,
        [
            1, 0, 0, 0, 0xe8, 3, 0, 0, 200, 0, 0, 0, 1, 0, 0, 0, 0xe6, 3, 0, 0, 0xaa, 0xaa, 0xaa,
            0xaa
        ]
    );
    assert_eq!(SuperBlock::decode(&buf), sb);
}

#[test]
fn directory_entry_layout() {
    let e = DirEntry::new(b"readme", 5).unwrap();
    let mut buf = [0xffu8; 34];
    e.encode(&mut buf);
    assert_eq!(&buf[..6], b"readme");
    assert_eq!(&buf[6..28], &[0u8; 22]);
    assert_eq!(&buf[28..32], &[5, 0, 0, 0]);
    assert_eq!(&buf[32..], &[0xff, 0xff]);
    assert_eq!(DirEntry::decode(&buf), e);
    assert!(e.is_named(b"readme"));
    assert!(!e.is_named(b"readm"));
    assert!(!e.is_named(b"readme2"));
}

#[test]
fn directory_entry_names() {
    let full = [b'x'; DIRNAME_SIZE];
    let e = DirEntry::new(&full, 1).unwrap();
    assert!(e.is_named(&full));
    assert!(!e.is_named(&[b'x'; DIRNAME_SIZE + 1]));
    assert!(DirEntry::new(&[b'x'; DIRNAME_SIZE + 1], 1).is_none());
    let field = DirEntry::new(b"a", 0).unwrap().name;
    assert!(name_matches(&field, b"a"));
    assert!(name_matches(&field, b"a\0"));
    assert!(!name_matches(&field, b""));
    assert!(!name_matches(&field, b"b"));
    assert!(!name_matches(&field[..4], b"a"));
    assert!(!name_matches(b"a", b"a"));
}

#[test]
fn boot_page_directory() {
    let dir = EntryPgDir::new();
    assert_eq!(BOOT_ENTRY, PTE_P | PTE_W | PTE_PS);
    assert_eq!(KERNEL_ENTRY, 512);
    for i in 0..NPDENTRIES {
        let want = if i == 0 || i == 512 { 0x83 } else { 0 };
        assert_eq!(dir.entry(i), want);
    }
}

#[test]
fn log_levels() {
    assert!(enabled(LogLevel::Error));
    assert!(enabled(LogLevel::Warn));
    assert!(enabled(LogLevel::Info));
    assert!(enabled(LogLevel::Debug));
    assert!(!enabled(LogLevel::Trace));
    assert_eq!(level_letter(LogLevel::Error), 'E');
    assert_eq!(level_letter(LogLevel::Warn), 'W');
    assert_eq!(level_letter(LogLevel::Info), 'I');
    assert_eq!(level_letter(LogLevel::Debug), 'D');
    assert_eq!(level_letter(LogLevel::Trace), 'T');
    assert_eq!(level_color(LogLevel::Error), "41m");
    assert_eq!(level_color(LogLevel::Warn), "43m");
    assert_eq!(level_color(LogLevel::Info), "42m");
    assert_eq!(level_color(LogLevel::Debug), "44m");
    assert_eq!(level_color(LogLevel::Trace), "47m");
}

#[test]
fn module_tails() {
    assert_eq!(module_tail(b""), 0);
    assert_eq!(module_tail(b"kernel"), 0);
    assert_eq!(module_tail(b"kernel::vm"), 8);
    assert_eq!(module_tail(b"kernel::net::rtl8139"), 13);
    assert_eq!(module_tail(b"::"), 2);
    assert_eq!(module_tail(b":::"), 3);
    assert_eq!(module_tail(b"a:b"), 0);
    assert_eq!(module_tail(b"a::"), 3);
}

#[test]
fn logger_shutdown_succeeds() {
    assert!(shutdown().is_ok());
}

#[test]
fn uptime_splits_ticks() {
    assert_eq!(
        Uptime::from_ticks(0),
        Uptime { days: 0, hours: 0, minutes: 0, seconds: 0 }
    );
    assert_eq!(
        Uptime::from_ticks(99),
        Uptime { days: 0, hours: 0, minutes: 0, seconds: 0 }
    );
    assert_eq!(
        Uptime::from_ticks(100 * (86400 + 2 * 3600 + 3 * 60 + 4) + 57),
        Uptime { days: 1, hours: 2, minutes: 3, seconds: 4 }
    );
    assert_eq!(
        Uptime::from_ticks(100 * 86399),
        Uptime { days: 0, hours: 23, minutes: 59, seconds: 59 }
    );
    assert_eq!(
        Uptime::from_ticks(u32::MAX),
        Uptime { days: 497, hours: 2, minutes: 27, seconds: 52 }
    );
}

#[test]
fn pci_registers() {
    assert_eq!(io_base(0x0000_c001), Some(0xc000));
    assert_eq!(io_base(0x0000_c003), Some(0xc000));
    assert_eq!(io_base(0x1234_c0a1), Some(0xc0a0));
    assert_eq!(io_base(0xffff_ffff), Some(0xfffc));
    assert_eq!(io_base(0x0000_c000), None);
    assert_eq!(io_base(0xfebc_0000), None);
    assert_eq!(interrupt_line(0x010b), 0x0b);
    assert_eq!(interrupt_pin(0x010b), 0x01);
    assert_eq!(interrupt_line(0xffff), 0xff);
    assert_eq!(interrupt_pin(0x00ff), 0);
}

#[test]
fn log_lines() {
    assert_eq!(
        log_line(LogLevel::Info, b"kernel::vm", b"paging on"),
        b"\x1b[42m\x1b[30m I \x1b[0m vm         paging on\n".to_vec()
    );
    assert_eq!(
        log_line(LogLevel::Error, b"kernel", b""),
        b"\x1b[41m\x1b[30m E \x1b[0m kernel     \n".to_vec()
    );
    assert_eq!(
        log_line(LogLevel::Warn, b"a::exactly_10", b"x"),
        b"\x1b[43m\x1b[30m W \x1b[0m exactly_10 x\n".to_vec()
    );
    assert_eq!(
        log_line(LogLevel::Debug, b"a::b::a_longer_module", b"y z"),
        b"\x1b[44m\x1b[30m D \x1b[0m a_longer_module y z\n".to_vec()
    );
    assert_eq!(
        log_line(LogLevel::Trace, b"", b"t"),
        b"\x1b[47m\x1b[30m T \x1b[0m            t\n".to_vec()
    );
}
