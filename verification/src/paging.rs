//! The page directory that the kernel boots on.

use vstd::prelude::*;

verus! {

/// Page directory entry flag: the entry is present.
pub const PTE_P: u32 = 0x001;

/// Page directory entry flag: the page is writeable.
pub const PTE_W: u32 = 0x002;

/// Page directory entry flag: the entry maps one page of 4 MiB.
pub const PTE_PS: u32 = 0x080;

/// The flags of a boot mapping: present, writeable and 4 MiB wide, with
/// the page at physical address 0.
pub const BOOT_ENTRY: u32 = 0x083;

/// Entries in a page directory.
pub const NPDENTRIES: usize = 1024;

/// The entry of the page directory that maps the start of the kernel's
/// half of the address space.
pub const KERNEL_ENTRY: usize = 512;

/// Marks a structure that has to lie on a boundary of 4 KiB. The type
/// itself is a page of 64-bit words and aligns as they do, to 8 bytes: a
/// structure carries an array of none of them in front of its fields as a
/// mark only, and to place the structure on the boundary is the part of
/// whoever embeds it, the linker script or the loader.
pub struct PageAligner4K(pub [u64; 512]);

/// The page directory of the boot sequence.
pub struct EntryPgDir {
    align: [PageAligner4K; 0],
    array: [u32; 1024],
}

/// The entries of the boot page directory: entry 0 and the first entry of
/// the kernel's half both map the first 4 MiB of memory, and no other
/// entry is present.
pub open spec fn boot_entries() -> Seq<u32> {
    Seq::new(
        NPDENTRIES as nat,
        |i: int|
            if i == 0 || i == KERNEL_ENTRY {
                BOOT_ENTRY
            } else {
                0u32
            },
    )
}

/// A boot mapping is the three flags together and nothing else.
pub proof fn law_boot_entry()
    ensures
        BOOT_ENTRY == PTE_P | PTE_W | PTE_PS,
        BOOT_ENTRY & PTE_P != 0,
        BOOT_ENTRY & PTE_W != 0,
        BOOT_ENTRY & PTE_PS != 0,
        BOOT_ENTRY & 0xffc0_0000 == 0,
{
    assert(0x083u32 == 0x001u32 | 0x002u32 | 0x080u32 && 0x083u32 & 0x001u32 != 0 && 0x083u32
        & 0x002u32 != 0 && 0x083u32 & 0x080u32 != 0 && 0x083u32 & 0xffc0_0000u32 == 0)
        by (bit_vector);
}

impl EntryPgDir {
    /// The entries of the directory, in order.
    pub closed spec fn view(&self) -> Seq<u32> {
        self.array@
    }

    /// The boot page directory.
    pub fn new() -> (dir: EntryPgDir)
        ensures
            dir@ == boot_entries(),
    {
        let mut array = [0u32;1024];
        array[0] = BOOT_ENTRY;
        array[KERNEL_ENTRY] = BOOT_ENTRY;
        assert(array@ =~= boot_entries());
        EntryPgDir { align: [], array }
    }

    /// Entry `i` of the directory.
    pub fn entry(&self, i: usize) -> (e: u32)
        requires
            i < NPDENTRIES,
        ensures
            e == self@[i as int],
    {
        self.array[i]
    }
}

} // verus!
