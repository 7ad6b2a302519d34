//! The storage capability that the engine runs on, and a disk held in
//! memory.

use vstd::prelude::*;
use crate::layout::BLOCKSIZE;
use crate::bytes::{splice, zeros};

verus! {

/// Failure reported by a device.
#[derive(Debug, Clone, Copy, PartialEq, Eq)]
pub enum DiskError {
    /// The device could not carry out the transfer.
    IoError,
}

/// An image is well formed when each of its sectors holds `BLOCKSIZE`
/// bytes.
pub open spec fn wf_image(img: Seq<Seq<u8>>) -> bool {
    forall|s: int| 0 <= s < img.len() ==> (#[trigger] img[s]).len() == BLOCKSIZE
}

/// The sectors of a medium that holds the bytes `bytes`: runs of
/// `BLOCKSIZE` bytes, in order. Bytes behind the last whole sector belong
/// to none.
pub open spec fn sectors_of(bytes: Seq<u8>) -> Seq<Seq<u8>> {
    Seq::new(
        (bytes.len() as int / (BLOCKSIZE as int)) as nat,
        |s: int| bytes.subrange(s * BLOCKSIZE, s * BLOCKSIZE + BLOCKSIZE),
    )
}

/// The sectors of a medium are whole blocks.
pub proof fn law_sectors_are_whole(bytes: Seq<u8>)
    ensures
        wf_image(sectors_of(bytes)),
{
}

/// A block device with sectors of `BLOCKSIZE` bytes.
///
/// Reading needs shared access only; writing needs exclusive access.
pub trait Disk {
    /// The bytes of the device, in order.
    spec fn view(&self) -> Seq<u8>;

    /// A reliable device serves every transfer on a sector that it has.
    /// Of any other device nothing is promised but what a successful
    /// transfer did.
    spec fn reliable(&self) -> bool;

    /// Fills `buffer` with the leading bytes of sector `sector`.
    fn read(&self, buffer: &mut [u8], sector: u32) -> (r: Result<(), DiskError>)
        requires
            old(buffer)@.len() <= BLOCKSIZE,
        ensures
            final(buffer)@.len() == old(buffer)@.len(),
            r is Ok ==> sector < sectors_of(self@).len() && final(buffer)@ == sectors_of(
                self@,
            )[sector as int].take(old(buffer)@.len() as int),
            self.reliable() && sector < sectors_of(self@).len() ==> r is Ok,
    ;

    /// Overwrites the leading bytes of sector `sector` with `buffer` and
    /// returns how many bytes were written. On success no other sector
    /// changes.
    fn write(&mut self, buffer: &[u8], sector: u32) -> (r: Result<usize, DiskError>)
        requires
            buffer@.len() <= BLOCKSIZE,
        ensures
            sectors_of(final(self)@).len() == sectors_of(old(self)@).len(),
            final(self).reliable() == old(self).reliable(),
            r matches Ok(n) ==> n == buffer@.len() && sector < sectors_of(old(self)@).len()
                && sectors_of(final(self)@) == sectors_of(old(self)@).update(
                sector as int,
                splice(sectors_of(old(self)@)[sector as int], 0, buffer@),
            ),
            old(self).reliable() && sector < sectors_of(old(self)@).len() ==> r is Ok,
    ;

    /// Bytes in one sector.
    fn sector_size() -> (n: usize)
        ensures
            n == BLOCKSIZE,
    ;
}

/// Byte `at` of an image that starts with the bytes `bytes` and goes on
/// with zero bytes.
pub open spec fn image_byte(bytes: Seq<u8>, at: int) -> u8 {
    if 0 <= at < bytes.len() {
        bytes[at]
    } else {
        0
    }
}

/// The bytes of a medium of `len` bytes that starts with the bytes `bytes`
/// and goes on with zero bytes.
pub open spec fn image_bytes(bytes: Seq<u8>, len: int) -> Seq<u8> {
    Seq::new(len as nat, |at: int| image_byte(bytes, at))
}

/// A disk held in memory. It never fails on a sector that it has.
pub struct MemDisk {
    sectors: Vec<Vec<u8>>,
}

impl MemDisk {
    #[verifier::type_invariant]
    spec fn whole_sectors(self) -> bool {
        forall|s: int|
            0 <= s < self.sectors@.len() ==> (#[trigger] self.sectors@[s])@.len() == BLOCKSIZE
    }

    /// The bytes of the disk, in order.
    pub closed spec fn bytes(&self) -> Seq<u8> {
        Seq::new(
            (self.sectors@.len() * BLOCKSIZE) as nat,
            |at: int| self.sectors@[at / (BLOCKSIZE as int)]@[at % (BLOCKSIZE as int)],
        )
    }

    /// The sectors of the bytes are the sectors that the disk holds.
    proof fn lemma_sectors(&self)
        requires
            self.whole_sectors(),
        ensures
            sectors_of(self@).len() == self.sectors@.len(),
            self@.len() == self.sectors@.len() * BLOCKSIZE,
            forall|s: int|
                0 <= s < self.sectors@.len() ==> #[trigger] sectors_of(self@)[s]
                    == self.sectors@[s]@,
    {
        let n = self.sectors@.len() as int;
        assert(self@.len() == n * BLOCKSIZE);
        assert forall|s: int| 0 <= s < n implies #[trigger] sectors_of(self@)[s]
            == self.sectors@[s]@ by {
            let got = sectors_of(self@)[s];
            let want = self.sectors@[s]@;
            assert forall|j: int| 0 <= j < BLOCKSIZE implies got[j] == want[j] by {
                let at = s * BLOCKSIZE + j;
                assert(at / (BLOCKSIZE as int) == s);
                assert(at % (BLOCKSIZE as int) == j);
            }
            assert(got =~= want);
        }
    }

    /// A disk of `sectors` sectors, every byte zero.
    pub fn new(sectors: u32) -> (d: MemDisk)
        ensures
            d@ == zeros(sectors * BLOCKSIZE),
            sectors_of(d@).len() == sectors,
    {
        let mut v: Vec<Vec<u8>> = Vec::new();
        let mut i: u32 = 0;
        while i < sectors
            invariant
                i <= sectors,
                v@.len() == i,
                forall|s: int| 0 <= s < i ==> (#[trigger] v@[s])@ == zeros(BLOCKSIZE as int),
            decreases sectors - i,
        {
            let mut block: Vec<u8> = Vec::new();
            let mut j: usize = 0;
            while j < BLOCKSIZE
                invariant
                    j <= BLOCKSIZE,
                    block@.len() == j,
                    forall|k: int| 0 <= k < j ==> block@[k] == 0,
                decreases BLOCKSIZE - j,
            {
                block.push(0u8);
                j = j + 1;
            }
            assert(block@ == zeros(BLOCKSIZE as int));
            v.push(block);
            i = i + 1;
        }
        let d = MemDisk { sectors: v };
        proof {
            d.lemma_sectors();
            assert(d@ =~= zeros(sectors * BLOCKSIZE));
        }
        d
    }

    /// A disk of `sectors` sectors that starts with the bytes `bytes`; the
    /// bytes behind them are zero, and bytes that the disk has no room for
    /// are left out.
    pub fn from_bytes(bytes: &[u8], sectors: u32) -> (d: MemDisk)
        ensures
            d@ == image_bytes(bytes@, sectors * BLOCKSIZE),
            sectors_of(d@).len() == sectors,
    {
        let total: usize = bytes.len();
        let mut v: Vec<Vec<u8>> = Vec::new();
        let mut i: u32 = 0;
        while i < sectors
            invariant
                i <= sectors,
                total == bytes@.len(),
                v@.len() == i,
                forall|s: int| 0 <= s < i ==> (#[trigger] v@[s])@.len() == BLOCKSIZE,
                forall|s: int, j: int|
                    0 <= s < i && 0 <= j < BLOCKSIZE ==> #[trigger] v@[s]@[j] == image_byte(
                        bytes@,
                        s * BLOCKSIZE + j,
                    ),
            decreases sectors - i,
        {
            let mut block: Vec<u8> = Vec::new();
            let mut j: usize = 0;
            while j < BLOCKSIZE
                invariant
                    j <= BLOCKSIZE,
                    i < sectors,
                    total == bytes@.len(),
                    block@.len() == j,
                    forall|k: int|
                        0 <= k < j ==> block@[k] == image_byte(bytes@, i * BLOCKSIZE + k),
                decreases BLOCKSIZE - j,
            {
                let at: u64 = i as u64 * 512 + j as u64;
                let b: u8 = if at < total as u64 {
                    bytes[at as usize]
                } else {
                    0
                };
                block.push(b);
                j = j + 1;
            }
            v.push(block);
            i = i + 1;
        }
        let d = MemDisk { sectors: v };
        proof {
            d.lemma_sectors();
            let want = image_bytes(bytes@, sectors * BLOCKSIZE);
            assert forall|at: int| 0 <= at < sectors * BLOCKSIZE implies d@[at] == want[at] by {
                let s = at / (BLOCKSIZE as int);
                let j = at % (BLOCKSIZE as int);
                assert(d.sectors@[s]@[j] == image_byte(bytes@, s * BLOCKSIZE + j));
            }
            assert(d@ =~= want);
        }
        d
    }

    /// The bytes of the disk, sector by sector.
    pub fn to_bytes(&self) -> (out: Vec<u8>)
        ensures
            out@ == self@,
    {
        proof {
            use_type_invariant(self);
            self.lemma_sectors();
        }
        let n: usize = self.sectors.len();
        let mut out: Vec<u8> = Vec::new();
        let mut i: usize = 0;
        while i < n
            invariant
                i <= n,
                n == self.sectors@.len(),
                self.whole_sectors(),
                out@.len() == i * BLOCKSIZE,
                forall|at: int| 0 <= at < i * BLOCKSIZE ==> out@[at] == self@[at],
            decreases n - i,
        {
            let src = &self.sectors[i];
            let mut j: usize = 0;
            while j < BLOCKSIZE
                invariant
                    j <= BLOCKSIZE,
                    i < n,
                    n == self.sectors@.len(),
                    self.whole_sectors(),
                    src@ == self.sectors@[i as int]@,
                    src@.len() == BLOCKSIZE,
                    out@.len() == i * BLOCKSIZE + j,
                    forall|at: int| 0 <= at < i * BLOCKSIZE + j ==> out@[at] == self@[at],
                decreases BLOCKSIZE - j,
            {
                proof {
                    let at = i * BLOCKSIZE + j;
                    assert(at / (BLOCKSIZE as int) == i as int);
                    assert(at % (BLOCKSIZE as int) == j as int);
                }
                out.push(src[j]);
                j = j + 1;
            }
            i = i + 1;
        }
        assert(out@ =~= self@);
        out
    }

    /// Number of sectors.
    pub fn len(&self) -> (n: usize)
        ensures
            n == sectors_of(self@).len(),
    {
        proof {
            use_type_invariant(self);
            self.lemma_sectors();
        }
        self.sectors.len()
    }

    /// A copy of sector `sector`, or `None` when the disk has no such
    /// sector.
    pub fn sector(&self, sector: u32) -> (r: Option<Vec<u8>>)
        ensures
            sector < sectors_of(self@).len() ==> (r matches Some(v) && v@ == sectors_of(
                self@,
            )[sector as int]),
            sector >= sectors_of(self@).len() ==> r is None,
    {
        proof {
            use_type_invariant(self);
            self.lemma_sectors();
        }
        if sector as usize >= self.sectors.len() {
            return None;
        }
        let src = &self.sectors[sector as usize];
        let n: usize = src.len();
        let mut out: Vec<u8> = Vec::new();
        let mut i: usize = 0;
        while i < n
            invariant
                i <= n,
                n == src@.len(),
                out@ == src@.take(i as int),
            decreases n - i,
        {
            out.push(src[i]);
            i = i + 1;
        }
        assert(src@.take(n as int) == src@);
        Some(out)
    }
}

impl Disk for MemDisk {
    open spec fn view(&self) -> Seq<u8> {
        self.bytes()
    }

    open spec fn reliable(&self) -> bool {
        true
    }

    fn read(&self, buffer: &mut [u8], sector: u32) -> (r: Result<(), DiskError>)
        ensures
            r is Err ==> final(buffer)@ == old(buffer)@,
    {
        proof {
            use_type_invariant(self);
            self.lemma_sectors();
        }
        if sector as usize >= self.sectors.len() {
            return Err(DiskError::IoError);
        }
        let src = &self.sectors[sector as usize];
        let n: usize = buffer.len();
        let mut i: usize = 0;
        while i < n
            invariant
                i <= n,
                n == buffer@.len(),
                n <= src@.len(),
                forall|j: int| 0 <= j < i ==> buffer@[j] == src@[j],
            decreases n - i,
        {
            buffer[i] = src[i];
            i = i + 1;
        }
        assert(buffer@ == src@.take(n as int));
        Ok(())
    }

    fn write(&mut self, buffer: &[u8], sector: u32) -> (r: Result<usize, DiskError>)
        ensures
            r is Err ==> final(self)@ == old(self)@,
    {
        proof {
            use_type_invariant(&*self);
            self.lemma_sectors();
        }
        if sector as usize >= self.sectors.len() {
            return Err(DiskError::IoError);
        }
        let ghost before = sectors_of(self@);
        let n: usize = buffer.len();
        let mut block: Vec<u8> = Vec::new();
        let mut j: usize = 0;
        while j < BLOCKSIZE
            invariant
                j <= BLOCKSIZE,
                n == buffer@.len(),
                n <= BLOCKSIZE,
                sector < self.sectors@.len(),
                self.sectors@[sector as int]@ == before[sector as int],
                before[sector as int].len() == BLOCKSIZE,
                block@.len() == j,
                forall|k: int|
                    0 <= k < j ==> block@[k] == splice(before[sector as int], 0, buffer@)[k],
            decreases BLOCKSIZE - j,
        {
            let b: u8 = if j < n {
                buffer[j]
            } else {
                self.sectors[sector as usize][j]
            };
            block.push(b);
            j = j + 1;
        }
        assert(block@ == splice(before[sector as int], 0, buffer@));
        let mut sectors: Vec<Vec<u8>> = Vec::new();
        std::mem::swap(&mut sectors, &mut self.sectors);
        sectors[sector as usize] = block;
        self.sectors = sectors;
        proof {
            self.lemma_sectors();
            assert(sectors_of(self@) =~= before.update(
                sector as int,
                splice(before[sector as int], 0, buffer@),
            ));
        }
        Ok(buffer.len())
    }

    fn sector_size() -> (n: usize) {
        BLOCKSIZE
    }
}

/// A disk in memory that wears out: it takes a number of writes and
/// fails every write after them. Reads go on working. It serves to see
/// what the engine does when a device fails in the middle of an
/// operation.
pub struct WornDisk {
    disk: MemDisk,
    writes_left: usize,
}

impl WornDisk {
    /// The disk `disk` with `writes` writes left in it.
    pub fn new(disk: MemDisk, writes: usize) -> (d: WornDisk)
        ensures
            d@ == disk@,
            d.writes_left() == writes,
    {
        WornDisk { disk, writes_left: writes }
    }

    /// How many writes the disk still takes.
    pub closed spec fn writes_left(&self) -> usize {
        self.writes_left
    }

    /// The disk in memory that wears out.
    pub closed spec fn inner(&self) -> MemDisk {
        self.disk
    }

    /// A copy of sector `sector`, or `None` when the disk has no such
    /// sector.
    pub fn sector(&self, sector: u32) -> (r: Option<Vec<u8>>)
        ensures
            sector < sectors_of(self@).len() ==> (r matches Some(v) && v@ == sectors_of(
                self@,
            )[sector as int]),
            sector >= sectors_of(self@).len() ==> r is None,
    {
        self.disk.sector(sector)
    }
}

impl Disk for WornDisk {
    open spec fn view(&self) -> Seq<u8> {
        self.inner()@
    }

    open spec fn reliable(&self) -> bool {
        false
    }

    fn read(&self, buffer: &mut [u8], sector: u32) -> (r: Result<(), DiskError>)
        ensures
            sector < sectors_of(self@).len() <==> r is Ok,
    {
        self.disk.read(buffer, sector)
    }

    fn write(&mut self, buffer: &[u8], sector: u32) -> (r: Result<usize, DiskError>)
        ensures
            r is Err ==> final(self)@ == old(self)@ && final(self).writes_left() == old(
                self,
            ).writes_left(),
            r is Ok ==> final(self).writes_left() == old(self).writes_left() - 1,
            r is Ok <==> sector < sectors_of(old(self)@).len() && old(self).writes_left() > 0,
    {
        if self.writes_left == 0 {
            return Err(DiskError::IoError);
        }
        let r = self.disk.write(buffer, sector);
        if r.is_ok() {
            self.writes_left = self.writes_left - 1;
        }
        r
    }

    fn sector_size() -> (n: usize) {
        BLOCKSIZE
    }
}

} // verus!
