//! Fixed-width little-endian byte codecs for the numeric leaves.
//!
//! The byte order is a choice internal to one arena: nothing outside this
//! crate reads these bytes, so only self-consistency matters.

use vstd::prelude::*;

verus! {

/// The eight little-endian bytes of `n`.
pub open spec fn u64_le(n: u64) -> Seq<u8> {
    seq![
        (n & 0xff) as u8,
        ((n >> 8) & 0xff) as u8,
        ((n >> 16) & 0xff) as u8,
        ((n >> 24) & 0xff) as u8,
        ((n >> 32) & 0xff) as u8,
        ((n >> 40) & 0xff) as u8,
        ((n >> 48) & 0xff) as u8,
        ((n >> 56) & 0xff) as u8,
    ]
}

/// The value read back from eight little-endian bytes.
pub open spec fn u64_from_le(b: Seq<u8>) -> u64
    recommends
        b.len() == 8,
{
    (b[0] as u64) | ((b[1] as u64) << 8) | ((b[2] as u64) << 16) | ((b[3] as u64) << 24) | ((
    b[4] as u64) << 32) | ((b[5] as u64) << 40) | ((b[6] as u64) << 48) | ((b[7] as u64) << 56)
}

pub proof fn lemma_u64_le_round_trip(n: u64)
    ensures
        u64_from_le(u64_le(n)) == n,
{
    assert((((n & 0xff) as u8) as u64) | ((((n >> 8) & 0xff) as u8) as u64) << 8 | ((((n >> 16)
        & 0xff) as u8) as u64) << 16 | ((((n >> 24) & 0xff) as u8) as u64) << 24 | ((((n >> 32)
        & 0xff) as u8) as u64) << 32 | ((((n >> 40) & 0xff) as u8) as u64) << 40 | ((((n >> 48)
        & 0xff) as u8) as u64) << 48 | ((((n >> 56) & 0xff) as u8) as u64) << 56 == n)
        by (bit_vector);
}

/// The sixteen little-endian bytes of `n`.
pub open spec fn u128_le(n: u128) -> Seq<u8> {
    u64_le(n as u64) + u64_le((n >> 64) as u64)
}

/// The value read back from sixteen little-endian bytes.
pub open spec fn u128_from_le(b: Seq<u8>) -> u128
    recommends
        b.len() == 16,
{
    (u64_from_le(b.subrange(0, 8)) as u128) | ((u64_from_le(b.subrange(8, 16)) as u128) << 64)
}

pub proof fn lemma_u128_le_round_trip(n: u128)
    ensures
        u128_from_le(u128_le(n)) == n,
{
    let lo = n as u64;
    let hi = (n >> 64) as u64;
    assert(u128_le(n).subrange(0, 8) =~= u64_le(lo));
    assert(u128_le(n).subrange(8, 16) =~= u64_le(hi));
    lemma_u64_le_round_trip(lo);
    lemma_u64_le_round_trip(hi);
    assert(((n as u64) as u128) | ((((n >> 64) as u64) as u128) << 64) == n) by (bit_vector);
}

/// The unsigned twin of `n`: two's-complement reinterpretation, written
/// arithmetically.
pub open spec fn i64_to_u64(n: i64) -> u64 {
    if n >= 0 {
        n as u64
    } else {
        (n + 0x1_0000_0000_0000_0000) as u64
    }
}

/// Inverse of `i64_to_u64`.
pub open spec fn u64_to_i64(m: u64) -> i64 {
    if m < 0x8000_0000_0000_0000 {
        m as i64
    } else {
        (m - 0x1_0000_0000_0000_0000) as i64
    }
}

pub proof fn lemma_i64_u64_round_trip(n: i64)
    ensures
        u64_to_i64(i64_to_u64(n)) == n,
{
}

/// Exec twin of `i64_to_u64`.
pub fn i64_to_u64_exec(n: i64) -> (r: u64)
    ensures
        r == i64_to_u64(n),
{
    if n >= 0 {
        n as u64
    } else {
        u64::MAX - ((-(n + 1)) as u64)
    }
}

/// Exec twin of `u64_to_i64`.
pub fn u64_to_i64_exec(m: u64) -> (r: i64)
    ensures
        r == u64_to_i64(m),
{
    if m < 0x8000_0000_0000_0000 {
        m as i64
    } else {
        -(((u64::MAX - m) as i64)) - 1
    }
}

/// Append the eight little-endian bytes of `n` to `out`.
pub fn write_u64_le(out: &mut Vec<u8>, n: u64)
    ensures
        final(out)@ == old(out)@ + u64_le(n),
{
    proof {
        assert(n & 0xff < 256 && (n >> 8) & 0xff < 256 && (n >> 16) & 0xff < 256 && (n >> 24)
            & 0xff < 256 && (n >> 32) & 0xff < 256 && (n >> 40) & 0xff < 256 && (n >> 48) & 0xff
            < 256 && (n >> 56) & 0xff < 256) by (bit_vector);
    }
    out.push((n & 0xff) as u8);
    out.push(((n >> 8) & 0xff) as u8);
    out.push(((n >> 16) & 0xff) as u8);
    out.push(((n >> 24) & 0xff) as u8);
    out.push(((n >> 32) & 0xff) as u8);
    out.push(((n >> 40) & 0xff) as u8);
    out.push(((n >> 48) & 0xff) as u8);
    out.push(((n >> 56) & 0xff) as u8);
    assert(final(out)@ =~= old(out)@ + u64_le(n));
}

/// Append the sixteen little-endian bytes of `n` to `out`.
pub fn write_u128_le(out: &mut Vec<u8>, n: u128)
    ensures
        final(out)@ == old(out)@ + u128_le(n),
{
    proof {
        assert(n >> 64 < 0x1_0000_0000_0000_0000) by (bit_vector);
    }
    write_u64_le(out, n as u64);
    write_u64_le(out, (n >> 64) as u64);
    assert(final(out)@ =~= old(out)@ + u128_le(n));
}

/// Read the `u64` stored at `pos`.
pub fn read_u64_le(data: &Vec<u8>, pos: usize) -> (r: u64)
    requires
        pos + 8 <= data.len(),
    ensures
        r == u64_from_le(data@.subrange(pos as int, pos as int + 8)),
{
    let r = (data[pos] as u64) | ((data[pos + 1] as u64) << 8) | ((data[pos + 2] as u64) << 16) | ((
    data[pos + 3] as u64) << 24) | ((data[pos + 4] as u64) << 32) | ((data[pos + 5] as u64) << 40)
        | ((data[pos + 6] as u64) << 48) | ((data[pos + 7] as u64) << 56);
    r
}

/// Read the `u128` stored at `pos`.
pub fn read_u128_le(data: &Vec<u8>, pos: usize) -> (r: u128)
    requires
        pos + 16 <= data.len(),
    ensures
        r == u128_from_le(data@.subrange(pos as int, pos as int + 16)),
{
    let lo = read_u64_le(data, pos);
    let hi = read_u64_le(data, pos + 8);
    assert(data@.subrange(pos as int, pos as int + 16).subrange(0, 8) =~= data@.subrange(
        pos as int,
        pos as int + 8,
    ));
    assert(data@.subrange(pos as int, pos as int + 16).subrange(8, 16) =~= data@.subrange(
        pos as int + 8,
        pos as int + 16,
    ));
    (lo as u128) | ((hi as u128) << 64)
}

} // verus!
