//! The directory entry and its on-disk form.

use vstd::prelude::*;
use crate::bytes::{get_u32, le32, put_bytes, put_u32, splice, u32_at};
use crate::layout::{DIRENT_SIZE, DIRNAME_SIZE};

verus! {

/// One entry of a directory: a name and the inode that it names.
#[derive(Debug, Clone, Copy, PartialEq, Eq)]
pub struct DirEntry {
    /// The name, followed by zero bytes up to the width of the field.
    pub name: [u8; DIRNAME_SIZE],
    /// The inode that the name stands for.
    pub inum: u32,
}

/// `name` followed by zero bytes up to the width of the name field.
pub open spec fn padded(name: Seq<u8>) -> Seq<u8> {
    Seq::new(
        DIRNAME_SIZE as nat,
        |i: int|
            if i < name.len() {
                name[i]
            } else {
                0u8
            },
    )
}

/// The 32 bytes of the entry that gives `name` to inode `inum`: the padded
/// name, then the inode number as a 32-bit integer.
pub open spec fn dirent_bytes(name: Seq<u8>, inum: u32) -> Seq<u8> {
    padded(name) + le32(inum)
}

/// The name field `field` holds `name`: the two agree once the zero
/// padding is left aside.
pub open spec fn names(field: Seq<u8>, name: Seq<u8>) -> bool {
    name.len() <= DIRNAME_SIZE && field == padded(name)
}

/// The entry record `rec` holds `name`.
pub open spec fn entry_names(rec: Seq<u8>, name: Seq<u8>) -> bool {
    names(rec.take(DIRNAME_SIZE as int), name)
}

/// The inode number in the entry record `rec`.
pub open spec fn entry_inum(rec: Seq<u8>) -> u32 {
    u32_at(rec, DIRNAME_SIZE as int)
}

/// An entry record holds the name and the inode number that it was made
/// from.
pub proof fn lemma_dirent_round_trip(name: Seq<u8>, inum: u32)
    requires
        name.len() <= DIRNAME_SIZE,
    ensures
        dirent_bytes(name, inum).len() == DIRENT_SIZE,
        entry_names(dirent_bytes(name, inum), name),
        entry_inum(dirent_bytes(name, inum)) == inum,
{
    let rec = dirent_bytes(name, inum);
    assert(rec.take(DIRNAME_SIZE as int) == padded(name));
    assert(rec[28] == le32(inum)[0]);
    assert(rec[29] == le32(inum)[1]);
    assert(rec[30] == le32(inum)[2]);
    assert(rec[31] == le32(inum)[3]);
}

/// Whether the name field `field` holds `name`.
pub fn name_matches(field: &[u8], name: &[u8]) -> (r: bool)
    ensures
        r == names(field@, name@),
{
    let n: usize = name.len();
    if n > DIRNAME_SIZE || field.len() != DIRNAME_SIZE {
        return false;
    }
    let mut i: usize = 0;
    while i < DIRNAME_SIZE
        invariant
            i <= DIRNAME_SIZE,
            n == name@.len(),
            n <= DIRNAME_SIZE,
            field@.len() == DIRNAME_SIZE,
            forall|k: int| 0 <= k < i ==> field@[k] == padded(name@)[k],
        decreases DIRNAME_SIZE - i,
    {
        let want: u8 = if i < n {
            name[i]
        } else {
            0
        };
        if field[i] != want {
            assert(field@[i as int] != padded(name@)[i as int]);
            return false;
        }
        i = i + 1;
    }
    assert(field@ =~= padded(name@));
    true
}

impl DirEntry {
    /// The entry that gives `name` to inode `inum`, or `None` when the name
    /// is longer than the name field.
    pub fn new(name: &[u8], inum: u32) -> (r: Option<DirEntry>)
        ensures
            name@.len() > DIRNAME_SIZE <==> r is None,
            r matches Some(e) ==> e.name@ == padded(name@) && e.inum == inum,
    {
        let n: usize = name.len();
        if n > DIRNAME_SIZE {
            return None;
        }
        let mut field = [0u8;28];
        let mut i: usize = 0;
        while i < n
            invariant
                i <= n,
                n == name@.len(),
                n <= DIRNAME_SIZE,
                forall|k: int| 0 <= k < i ==> field@[k] == name@[k],
                forall|k: int| i <= k < DIRNAME_SIZE ==> field@[k] == 0,
            decreases n - i,
        {
            field[i] = name[i];
            i = i + 1;
        }
        assert(field@ =~= padded(name@));
        Some(DirEntry { name: field, inum })
    }

    /// Writes the record of this entry at the start of `buf`.
    pub fn encode(&self, buf: &mut [u8])
        requires
            DIRENT_SIZE <= old(buf)@.len(),
        ensures
            final(buf)@ == splice(old(buf)@, 0, self.name@ + le32(self.inum)),
    {
        put_bytes(buf, 0, self.name.as_slice());
        put_u32(buf, DIRNAME_SIZE, self.inum);
        assert(buf@ =~= splice(old(buf)@, 0, self.name@ + le32(self.inum)));
    }

    /// Reads the record at the start of `buf`.
    pub fn decode(buf: &[u8]) -> (e: DirEntry)
        requires
            DIRENT_SIZE <= buf@.len(),
        ensures
            e.name@ == buf@.take(DIRNAME_SIZE as int),
            e.inum == entry_inum(buf@),
    {
        let mut field = [0u8;28];
        let mut i: usize = 0;
        while i < DIRNAME_SIZE
            invariant
                i <= DIRNAME_SIZE,
                DIRENT_SIZE <= buf@.len(),
                forall|k: int| 0 <= k < i ==> field@[k] == buf@[k],
            decreases DIRNAME_SIZE - i,
        {
            field[i] = buf[i];
            i = i + 1;
        }
        assert(field@ =~= buf@.take(DIRNAME_SIZE as int));
        DirEntry { name: field, inum: get_u32(buf, DIRNAME_SIZE) }
    }

    /// Whether this entry holds `name`.
    pub fn is_named(&self, name: &[u8]) -> (r: bool)
        ensures
            r == names(self.name@, name@),
    {
        name_matches(self.name.as_slice(), name)
    }
}

} // verus!
