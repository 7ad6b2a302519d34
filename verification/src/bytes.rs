//! Little-endian integers inside byte buffers, and the overwrite of a
//! byte range.

use vstd::prelude::*;

verus! {

/// `s` with the bytes from `at` on replaced by `d`. The part of `d` that
/// would fall behind the end of `s` is dropped.
pub open spec fn splice(s: Seq<u8>, at: int, d: Seq<u8>) -> Seq<u8> {
    Seq::new(
        s.len(),
        |i: int|
            if at <= i < at + d.len() {
                d[i - at]
            } else {
                s[i]
            },
    )
}

/// `n` zero bytes.
pub open spec fn zeros(n: int) -> Seq<u8> {
    Seq::new(n as nat, |i: int| 0u8)
}

/// The two bytes of `x`, low byte first.
pub open spec fn le16(x: u16) -> Seq<u8> {
    seq![(x % 256) as u8, (x / 256) as u8]
}

/// The four bytes of `x`, low byte first.
pub open spec fn le32(x: u32) -> Seq<u8> {
    seq![
        (x % 256) as u8,
        (x / 256 % 256) as u8,
        (x / 65536 % 256) as u8,
        (x / 16777216) as u8,
    ]
}

/// The 16-bit integer stored low byte first at `at`.
pub open spec fn u16_at(s: Seq<u8>, at: int) -> u16 {
    (s[at] as int + 256 * (s[at + 1] as int)) as u16
}

/// The 32-bit integer stored low byte first at `at`.
pub open spec fn u32_at(s: Seq<u8>, at: int) -> u32 {
    (s[at] as int + 256 * (s[at + 1] as int) + 65536 * (s[at + 2] as int) + 16777216 * (s[at
        + 3] as int)) as u32
}

/// What `le32` writes, `u32_at` reads back.
pub proof fn lemma_u32_round_trip(s: Seq<u8>, at: int, x: u32)
    requires
        0 <= at,
        at + 4 <= s.len(),
    ensures
        u32_at(splice(s, at, le32(x)), at) == x,
{
}

/// Where the two bytes of `x` stand at `at`, `u16_at` reads `x`.
pub proof fn lemma_u16_at_le16(s: Seq<u8>, at: int, x: u16)
    requires
        s[at] == le16(x)[0],
        s[at + 1] == le16(x)[1],
    ensures
        u16_at(s, at) == x,
{
}

/// Where the four bytes of `x` stand at `at`, `u32_at` reads `x`.
pub proof fn lemma_u32_at_le32(s: Seq<u8>, at: int, x: u32)
    requires
        s[at] == le32(x)[0],
        s[at + 1] == le32(x)[1],
        s[at + 2] == le32(x)[2],
        s[at + 3] == le32(x)[3],
    ensures
        u32_at(s, at) == x,
{
}

/// Reads the 16-bit integer at `at`.
pub fn get_u16(buf: &[u8], at: usize) -> (x: u16)
    requires
        at + 2 <= buf@.len(),
    ensures
        x == u16_at(buf@, at as int),
{
    buf[at] as u16 + 256 * (buf[at + 1] as u16)
}

/// Reads the 32-bit integer at `at`.
pub fn get_u32(buf: &[u8], at: usize) -> (x: u32)
    requires
        at + 4 <= buf@.len(),
    ensures
        x == u32_at(buf@, at as int),
{
    buf[at] as u32 + 256 * (buf[at + 1] as u32) + 65536 * (buf[at + 2] as u32) + 16777216 * (buf[at
        + 3] as u32)
}

/// Writes `x` at `at`, low byte first.
pub fn put_u16(buf: &mut [u8], at: usize, x: u16)
    requires
        at + 2 <= old(buf)@.len(),
    ensures
        final(buf)@ == splice(old(buf)@, at as int, le16(x)),
{
    buf[at] = (x % 256) as u8;
    buf[at + 1] = (x / 256) as u8;
}

/// Writes `x` at `at`, low byte first.
pub fn put_u32(buf: &mut [u8], at: usize, x: u32)
    requires
        at + 4 <= old(buf)@.len(),
    ensures
        final(buf)@ == splice(old(buf)@, at as int, le32(x)),
{
    buf[at] = (x % 256) as u8;
    buf[at + 1] = (x / 256 % 256) as u8;
    buf[at + 2] = (x / 65536 % 256) as u8;
    buf[at + 3] = (x / 16777216) as u8;
}

/// Copies `src` into `dst` from `at` on.
pub fn put_bytes(dst: &mut [u8], at: usize, src: &[u8])
    requires
        at + src@.len() <= old(dst)@.len(),
    ensures
        final(dst)@ == splice(old(dst)@, at as int, src@),
{
    let n: usize = src.len();
    let size: usize = dst.len();
    let mut i: usize = 0;
    while i < n
        invariant
            i <= n,
            n == src@.len(),
            at + n <= size,
            dst@.len() == size,
            old(dst)@.len() == size,
            dst@ == splice(old(dst)@, at as int, src@.take(i as int)),
        decreases n - i,
    {
        dst[at + i] = src[i];
        i = i + 1;
    }
    assert(src@.take(n as int) == src@);
}

/// Sets every byte of `buf` to zero.
pub fn fill_zero(buf: &mut [u8])
    ensures
        final(buf)@ == zeros(old(buf)@.len() as int),
{
    let n: usize = buf.len();
    let mut i: usize = 0;
    while i < n
        invariant
            i <= n,
            n == buf@.len(),
            forall|j: int| 0 <= j < i ==> buf@[j] == 0,
        decreases n - i,
    {
        buf[i] = 0;
        i = i + 1;
    }
}

} // verus!
