//! Little-endian integers in byte sequences.

use vstd::arithmetic::div_mod::lemma_div_denominator;
use vstd::arithmetic::power::{lemma_pow0, lemma_pow1, lemma_pow_adds, lemma_pow_positive, pow};
use vstd::prelude::*;

verus! {

/// The natural number that `bytes` denotes, least significant byte first.
pub open spec fn le_value(bytes: Seq<u8>) -> nat
    decreases bytes.len(),
{
    if bytes.len() == 0 {
        0
    } else {
        bytes[0] as nat + 256 * le_value(bytes.drop_first())
    }
}

/// The 32-bit integer in the four bytes of `bytes` that start at `at`.
pub open spec fn u32_at(bytes: Seq<u8>, at: int) -> u32 {
    (bytes[at] + 0x100 * bytes[at + 1] + 0x1_0000 * bytes[at + 2] + 0x100_0000 * bytes[at
        + 3]) as u32
}

/// The 64-bit integer in the eight bytes of `bytes` that start at `at`.
pub open spec fn u64_at(bytes: Seq<u8>, at: int) -> u64 {
    (u32_at(bytes, at) + 0x1_0000_0000 * u32_at(bytes, at + 4)) as u64
}

/// The four bytes of `x`, least significant first.
pub open spec fn u32_bytes(x: u32) -> Seq<u8> {
    seq![
        (x % 0x100) as u8,
        (x / 0x100 % 0x100) as u8,
        (x / 0x1_0000 % 0x100) as u8,
        (x / 0x100_0000) as u8,
    ]
}

/// The eight bytes of `x`, least significant first.
pub open spec fn u64_bytes(x: u64) -> Seq<u8> {
    u32_bytes((x % 0x1_0000_0000) as u32) + u32_bytes((x / 0x1_0000_0000) as u32)
}

/// The bytes of an integer are its digits to the base 256, least significant first.
pub proof fn law_little_endian(x: u32, y: u64)
    ensures
        u32_bytes(x).len() == 4,
        u32_bytes(x)[0] + 0x100 * u32_bytes(x)[1] + 0x1_0000 * u32_bytes(x)[2] + 0x100_0000
            * u32_bytes(x)[3] == x,
        u64_bytes(y).len() == 8,
        u64_bytes(y)[0] + 0x100 * u64_bytes(y)[1] + 0x1_0000 * u64_bytes(y)[2] + 0x100_0000
            * u64_bytes(y)[3] + 0x1_0000_0000 * (u64_bytes(y)[4] + 0x100 * u64_bytes(y)[5]
            + 0x1_0000 * u64_bytes(y)[6] + 0x100_0000 * u64_bytes(y)[7]) == y,
{
    let low = (y % 0x1_0000_0000) as u32;
    let high = (y / 0x1_0000_0000) as u32;
    let l = u32_bytes(low);
    let h = u32_bytes(high);
    let c = u64_bytes(y);
    lemma_byte_digits(x);
    lemma_byte_digits(low);
    lemma_byte_digits(high);
    assert(c[0] == l[0] && c[1] == l[1] && c[2] == l[2] && c[3] == l[3]);
    assert(c[4] == h[0] && c[5] == h[1] && c[6] == h[2] && c[7] == h[3]);
}

proof fn lemma_byte_digits(x: u32)
    ensures
        u32_bytes(x)[0] + 0x100 * u32_bytes(x)[1] + 0x1_0000 * u32_bytes(x)[2] + 0x100_0000
            * u32_bytes(x)[3] == x,
{
    assert(x == 0x100 * (x / 0x100) + x % 0x100);
    assert(x / 0x100 == 0x100 * (x / 0x1_0000) + x / 0x100 % 0x100);
    assert(x / 0x1_0000 == 0x100 * (x / 0x100_0000) + x / 0x1_0000 % 0x100);
}

/// The integer that is read has the bytes as its digits to the base 256, least
/// significant first.
pub proof fn law_read_little_endian(bytes: Seq<u8>, at: int)
    ensures
        u32_at(bytes, at) == bytes[at] + 0x100 * bytes[at + 1] + 0x1_0000 * bytes[at + 2]
            + 0x100_0000 * bytes[at + 3],
        u64_at(bytes, at) == bytes[at] + 0x100 * bytes[at + 1] + 0x1_0000 * bytes[at + 2]
            + 0x100_0000 * bytes[at + 3] + 0x1_0000_0000 * (bytes[at + 4] + 0x100 * bytes[at + 5]
            + 0x1_0000 * bytes[at + 6] + 0x100_0000 * bytes[at + 7]),
{
}

/// The number that bytes denote has them as its digits to the base 256, least
/// significant first, and no others.
pub proof fn law_number_of_bytes(bytes: Seq<u8>, i: int)
    requires
        0 <= i < bytes.len(),
    ensures
        bytes[i] == (le_value(bytes) as int / pow(0x100, i as nat)) % 0x100,
        le_value(bytes) < pow(0x100, bytes.len()),
    decreases bytes.len(),
{
    let rest = bytes.drop_first();
    let n = le_value(bytes) as int;
    let m = le_value(rest) as int;
    let first = bytes[0] as int;
    assert(n == first + 0x100 * m);
    assert(n / 0x100 == m && n % 0x100 == first);
    lemma_le_bound(bytes);
    if i == 0 {
        lemma_pow0(0x100);
        assert(n / 1 == n);
    } else {
        let p = pow(0x100, (i - 1) as nat);
        law_number_of_bytes(rest, i - 1);
        lemma_pow1(0x100);
        lemma_pow_adds(0x100, 1, (i - 1) as nat);
        lemma_pow_positive(0x100, (i - 1) as nat);
        lemma_div_denominator(n, 0x100, p);
        assert(n / pow(0x100, i as nat) == m / p);
    }
}

proof fn lemma_le_bound(bytes: Seq<u8>)
    ensures
        le_value(bytes) < pow(0x100, bytes.len()),
    decreases bytes.len(),
{
    if bytes.len() == 0 {
        lemma_pow0(0x100);
    } else {
        let rest = bytes.drop_first();
        lemma_le_bound(rest);
        lemma_pow1(0x100);
        lemma_pow_adds(0x100, 1, rest.len());
        assert(pow(0x100, bytes.len()) == 0x100 * pow(0x100, rest.len()));
    }
}

/// Reading back the four bytes of a 32-bit integer gives the integer, wherever
/// they stand.
pub proof fn law_u32_read_back(bytes: Seq<u8>, at: int, x: u32)
    requires
        0 <= at,
        at + 4 <= bytes.len(),
        bytes.subrange(at, at + 4) == u32_bytes(x),
    ensures
        u32_at(bytes, at) == x,
{
    let s = bytes.subrange(at, at + 4);
    assert(s[0] == bytes[at] && s[1] == bytes[at + 1] && s[2] == bytes[at + 2] && s[3] == bytes[at
        + 3]);
    lemma_byte_digits(x);
}

/// Reading back the eight bytes of a 64-bit integer gives the integer, wherever
/// they stand.
pub proof fn law_u64_read_back(bytes: Seq<u8>, at: int, x: u64)
    requires
        0 <= at,
        at + 8 <= bytes.len(),
        bytes.subrange(at, at + 8) == u64_bytes(x),
    ensures
        u64_at(bytes, at) == x,
{
    let s = bytes.subrange(at, at + 8);
    let low = (x % 0x1_0000_0000) as u32;
    let high = (x / 0x1_0000_0000) as u32;
    assert(bytes.subrange(at, at + 4) =~= s.subrange(0, 4));
    assert(s.subrange(0, 4) =~= u32_bytes(low));
    assert(bytes.subrange(at + 4, at + 8) =~= s.subrange(4, 8));
    assert(s.subrange(4, 8) =~= u32_bytes(high));
    law_u32_read_back(bytes, at, low);
    law_u32_read_back(bytes, at + 4, high);
}

/// The four bytes of the 32-bit integer read from `bytes` are the bytes read.
pub proof fn law_u32_write_back(bytes: Seq<u8>, at: int)
    requires
        0 <= at,
        at + 4 <= bytes.len(),
    ensures
        u32_bytes(u32_at(bytes, at)) == bytes.subrange(at, at + 4),
{
    let b0 = bytes[at] as int;
    let b1 = bytes[at + 1] as int;
    let b2 = bytes[at + 2] as int;
    let b3 = bytes[at + 3] as int;
    let x = b0 + 0x100 * b1 + 0x1_0000 * b2 + 0x100_0000 * b3;
    assert(u32_at(bytes, at) == x);
    assert(x % 0x100 == b0);
    assert(x / 0x100 == b1 + 0x100 * b2 + 0x1_0000 * b3);
    assert(x / 0x100 % 0x100 == b1);
    assert(x / 0x1_0000 == b2 + 0x100 * b3);
    assert(x / 0x1_0000 % 0x100 == b2);
    assert(x / 0x100_0000 == b3);
    assert(u32_bytes(u32_at(bytes, at)) =~= bytes.subrange(at, at + 4));
}

/// Reads the 32-bit little-endian integer at `offset`.
pub fn read_u32(bytes: &[u8], offset: usize) -> (value: u32)
    requires
        offset + 4 <= bytes.len(),
    ensures
        value == u32_at(bytes@, offset as int),
{
    bytes[offset] as u32 + 0x100 * (bytes[offset + 1] as u32) + 0x1_0000 * (bytes[offset
        + 2] as u32) + 0x100_0000 * (bytes[offset + 3] as u32)
}

/// Reads the 64-bit little-endian integer at `offset`.
pub fn read_u64(bytes: &[u8], offset: usize) -> (value: u64)
    requires
        offset + 8 <= bytes.len(),
    ensures
        value == u64_at(bytes@, offset as int),
{
    read_u32(bytes, offset) as u64 + 0x1_0000_0000 * (read_u32(bytes, offset + 4) as u64)
}

/// Appends the four bytes of `x`, least significant first.
pub fn append_u32(buf: &mut Vec<u8>, x: u32)
    ensures
        final(buf)@ == old(buf)@ + u32_bytes(x),
{
    buf.push((x % 0x100) as u8);
    buf.push((x / 0x100 % 0x100) as u8);
    buf.push((x / 0x1_0000 % 0x100) as u8);
    buf.push((x / 0x100_0000) as u8);
    assert(buf@ =~= old(buf)@ + u32_bytes(x));
}

/// Appends the eight bytes of `x`, least significant first.
pub fn append_u64(buf: &mut Vec<u8>, x: u64)
    ensures
        final(buf)@ == old(buf)@ + u64_bytes(x),
{
    append_u32(buf, (x % 0x1_0000_0000) as u32);
    append_u32(buf, (x / 0x1_0000_0000) as u32);
    assert(buf@ =~= old(buf)@ + u64_bytes(x));
}

/// Appends every byte of `bytes`.
pub fn append_bytes(buf: &mut Vec<u8>, bytes: &[u8])
    ensures
        final(buf)@ == old(buf)@ + bytes@,
{
    let mut i: usize = 0;
    while i < bytes.len()
        invariant
            i <= bytes.len(),
            buf@ == old(buf)@ + bytes@.take(i as int),
        decreases bytes.len() - i,
    {
        buf.push(bytes[i]);
        i = i + 1;
        assert(bytes@.take(i as int) =~= bytes@.take(i - 1).push(bytes@[i - 1]));
    }
    assert(bytes@.take(i as int) =~= bytes@);
}

} // verus!
