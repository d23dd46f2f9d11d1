//! Big-endian integers on the wire.

use vstd::prelude::*;

verus! {

/// The two bytes of `n`, most significant first.
pub open spec fn u16_be(n: u16) -> Seq<u8> {
    seq![(n / 0x100) as u8, (n % 0x100) as u8]
}

/// The four bytes of `n`, most significant first.
pub open spec fn u32_be(n: u32) -> Seq<u8> {
    seq![
        (n / 0x100_0000) as u8,
        (n / 0x1_0000 % 0x100) as u8,
        (n / 0x100 % 0x100) as u8,
        (n % 0x100) as u8,
    ]
}

/// The eight bytes of `n`, most significant first.
pub open spec fn u64_be(n: u64) -> Seq<u8> {
    u32_be((n / 0x1_0000_0000) as u32) + u32_be((n % 0x1_0000_0000) as u32)
}

/// The number that two bytes hold, most significant first.
pub open spec fn u16_of_be(bytes: Seq<u8>) -> u16
    recommends
        bytes.len() == 2,
{
    (bytes[0] as int * 0x100 + bytes[1] as int) as u16
}

/// The number that four bytes hold, most significant first.
pub open spec fn u32_of_be(bytes: Seq<u8>) -> u32
    recommends
        bytes.len() == 4,
{
    (bytes[0] as int * 0x100_0000 + bytes[1] as int * 0x1_0000 + bytes[2] as int * 0x100
        + bytes[3] as int) as u32
}

/// The number that eight bytes hold, most significant first.
pub open spec fn u64_of_be(bytes: Seq<u8>) -> u64
    recommends
        bytes.len() == 8,
{
    (u32_of_be(bytes.subrange(0, 4)) as int * 0x1_0000_0000 + u32_of_be(
        bytes.subrange(4, 8),
    ) as int) as u64
}

/// Two bytes hold the number they were written from, and are written from
/// the number they hold.
pub proof fn lemma_u16_be(n: u16, bytes: Seq<u8>)
    ensures
        u16_be(n).len() == 2,
        u16_of_be(u16_be(n)) == n,
        bytes.len() == 2 ==> u16_be(u16_of_be(bytes)) == bytes,
{
    assert(n / 0x100 < 0x100 && n / 0x100 * 0x100 + n % 0x100 == n) by (bit_vector);
    if bytes.len() == 2 {
        let b0 = bytes[0];
        let b1 = bytes[1];
        let v = u16_of_be(bytes);
        assert(v / 0x100 == b0 && v % 0x100 == b1) by (bit_vector)
            requires
                v == b0 * 0x100 + b1,
        ;
    }
}

/// Four bytes hold the number they were written from, and are written
/// from the number they hold.
pub proof fn lemma_u32_be(n: u32, bytes: Seq<u8>)
    ensures
        u32_be(n).len() == 4,
        u32_of_be(u32_be(n)) == n,
        bytes.len() == 4 ==> u32_be(u32_of_be(bytes)) == bytes,
{
    assert(n / 0x100_0000 < 0x100 && n / 0x100_0000 * 0x100_0000 + (n / 0x1_0000 % 0x100)
        * 0x1_0000 + (n / 0x100 % 0x100) * 0x100 + n % 0x100 == n) by (bit_vector);
    if bytes.len() == 4 {
        let b0 = bytes[0];
        let b1 = bytes[1];
        let b2 = bytes[2];
        let b3 = bytes[3];
        let v = u32_of_be(bytes);
        assert(v / 0x100_0000 == b0 && v / 0x1_0000 % 0x100 == b1 && v / 0x100 % 0x100 == b2 && v
            % 0x100 == b3) by (bit_vector)
            requires
                v == b0 * 0x100_0000 + b1 * 0x1_0000 + b2 * 0x100 + b3,
        ;
    }
}

/// Eight bytes hold the number they were written from, and are written
/// from the number they hold.
pub proof fn lemma_u64_be(n: u64, bytes: Seq<u8>)
    ensures
        u64_be(n).len() == 8,
        u64_of_be(u64_be(n)) == n,
        bytes.len() == 8 ==> u64_be(u64_of_be(bytes)) == bytes,
{
    let high = (n / 0x1_0000_0000) as u32;
    let low = (n % 0x1_0000_0000) as u32;
    assert(n / 0x1_0000_0000 < 0x1_0000_0000 && n / 0x1_0000_0000 * 0x1_0000_0000 + n
        % 0x1_0000_0000 == n) by (bit_vector);
    lemma_u32_be(high, bytes.subrange(0, 4));
    lemma_u32_be(low, bytes.subrange(4, 8));
    if bytes.len() == 8 {
        let h = u32_of_be(bytes.subrange(0, 4));
        let l = u32_of_be(bytes.subrange(4, 8));
        let v = u64_of_be(bytes);
        assert(v / 0x1_0000_0000 == h && v % 0x1_0000_0000 == l) by (bit_vector)
            requires
                v == h * 0x1_0000_0000 + l,
        ;
    }
}

/// Reads the 16-bit number that stands at `at`.
pub fn get_u16(buf: &[u8], at: usize) -> (n: u16)
    requires
        at + 2 <= buf.len(),
    ensures
        n == u16_of_be(buf@.subrange(at as int, at + 2)),
{
    let high: u16 = buf[at] as u16;
    let low: u16 = buf[at + 1] as u16;
    high * 0x100 + low
}

/// Reads the 32-bit number that stands at `at`.
pub fn get_u32(buf: &[u8], at: usize) -> (n: u32)
    requires
        at + 4 <= buf.len(),
    ensures
        n == u32_of_be(buf@.subrange(at as int, at + 4)),
{
    let b0: u32 = buf[at] as u32;
    let b1: u32 = buf[at + 1] as u32;
    let b2: u32 = buf[at + 2] as u32;
    let b3: u32 = buf[at + 3] as u32;
    b0 * 0x100_0000 + b1 * 0x1_0000 + b2 * 0x100 + b3
}

/// Reads the 64-bit number that stands at `at`.
pub fn get_u64(buf: &[u8], at: usize) -> (n: u64)
    requires
        at + 8 <= buf.len(),
    ensures
        n == u64_of_be(buf@.subrange(at as int, at + 8)),
{
    let high: u64 = get_u32(buf, at) as u64;
    let low: u64 = get_u32(buf, at + 4) as u64;
    high * 0x1_0000_0000 + low
}

/// Appends `n` to `buf` with `bytes::BufMut::put_u16`, which writes an
/// unsigned 16-bit integer in big-endian byte order and, on a vector, grows
/// it by those two bytes. The vector must have room for them below the
/// largest length a vector can have.
#[verifier::external_body]
pub(crate) fn put_u16(buf: &mut Vec<u8>, n: u16)
    requires
        old(buf)@.len() + 2 <= isize::MAX,
    ensures
        final(buf)@ == old(buf)@ + u16_be(n),
{
    bytes::BufMut::put_u16(buf, n)
}

/// Appends `n` to `buf` with `bytes::BufMut::put_u32`, which writes an
/// unsigned 32-bit integer in big-endian byte order and, on a vector, grows
/// it by those four bytes. The vector must have room for them below the
/// largest length a vector can have.
#[verifier::external_body]
pub(crate) fn put_u32(buf: &mut Vec<u8>, n: u32)
    requires
        old(buf)@.len() + 4 <= isize::MAX,
    ensures
        final(buf)@ == old(buf)@ + u32_be(n),
{
    bytes::BufMut::put_u32(buf, n)
}

/// Appends `n` to `buf` with `bytes::BufMut::put_u64`, which writes an
/// unsigned 64-bit integer in big-endian byte order and, on a vector, grows
/// it by those eight bytes. The vector must have room for them below the
/// largest length a vector can have.
#[verifier::external_body]
pub(crate) fn put_u64(buf: &mut Vec<u8>, n: u64)
    requires
        old(buf)@.len() + 8 <= isize::MAX,
    ensures
        final(buf)@ == old(buf)@ + u64_be(n),
{
    bytes::BufMut::put_u64(buf, n)
}

} // verus!
