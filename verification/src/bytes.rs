//! Fixed-width integers read out of a byte sequence, in both byte orders.

use vstd::prelude::*;

verus! {

/// Unsigned little-endian value of the `n` bytes of `d` starting at `p`.
pub open spec fn le_uint(d: Seq<u8>, p: int, n: nat) -> int
    decreases n,
{
    if n == 0 {
        0
    } else {
        d[p] + 256 * le_uint(d, p + 1, (n - 1) as nat)
    }
}

/// Unsigned big-endian value of the `n` bytes of `d` starting at `p`.
pub open spec fn be_uint(d: Seq<u8>, p: int, n: nat) -> int
    decreases n,
{
    if n == 0 {
        0
    } else {
        256 * be_uint(d, p, (n - 1) as nat) + d[p + n - 1]
    }
}

/// The value of `n` bytes at `p` in the selected byte order.
pub open spec fn uint_at(d: Seq<u8>, p: int, n: nat, big_endian: bool) -> int {
    if big_endian {
        be_uint(d, p, n)
    } else {
        le_uint(d, p, n)
    }
}

/// Two's-complement reading of a 32-bit value.
pub open spec fn as_signed32(u: int) -> int {
    if u < 0x8000_0000 {
        u
    } else {
        u - 0x1_0000_0000
    }
}

/// Reads a `u16` at `p`.
pub fn read_u16(d: &[u8], p: usize, big_endian: bool) -> (v: u16)
    requires
        p + 2 <= d@.len(),
    ensures
        v == uint_at(d@, p as int, 2, big_endian),
{
    let b0 = d[p] as u16;
    let b1 = d[p + 1] as u16;
    proof {
        reveal_with_fuel(le_uint, 3);
        reveal_with_fuel(be_uint, 3);
    }
    if big_endian {
        b0 * 256 + b1
    } else {
        b1 * 256 + b0
    }
}

/// Reads a `u32` at `p`.
pub fn read_u32(d: &[u8], p: usize, big_endian: bool) -> (v: u32)
    requires
        p + 4 <= d@.len(),
    ensures
        v == uint_at(d@, p as int, 4, big_endian),
{
    let b0 = d[p] as u32;
    let b1 = d[p + 1] as u32;
    let b2 = d[p + 2] as u32;
    let b3 = d[p + 3] as u32;
    proof {
        reveal_with_fuel(le_uint, 5);
        reveal_with_fuel(be_uint, 5);
    }
    if big_endian {
        ((b0 * 256 + b1) * 256 + b2) * 256 + b3
    } else {
        ((b3 * 256 + b2) * 256 + b1) * 256 + b0
    }
}

/// Reads a `u64` at `p`.
pub fn read_u64(d: &[u8], p: usize, big_endian: bool) -> (v: u64)
    requires
        p + 8 <= d@.len(),
    ensures
        v == uint_at(d@, p as int, 8, big_endian),
{
    assert(d@.len() == d.len());
    let hi = read_u32(d, p, big_endian) as u64;
    let lo = read_u32(d, p + 4, big_endian) as u64;
    proof {
        reveal_with_fuel(le_uint, 9);
        reveal_with_fuel(be_uint, 9);
        let s = d@;
        assert(le_uint(s, p as int, 8) == le_uint(s, p as int, 4) + 0x1_0000_0000 * le_uint(s, p + 4, 4));
        assert(be_uint(s, p as int, 8) == 0x1_0000_0000 * be_uint(s, p as int, 4) + be_uint(s, p + 4, 4));
    }
    if big_endian {
        hi * 0x1_0000_0000 + lo
    } else {
        lo * 0x1_0000_0000 + hi
    }
}

/// Reads an `i32` at `p`.
pub fn read_i32(d: &[u8], p: usize, big_endian: bool) -> (v: i32)
    requires
        p + 4 <= d@.len(),
    ensures
        v == as_signed32(uint_at(d@, p as int, 4, big_endian)),
{
    let u = read_u32(d, p, big_endian);
    if u < 0x8000_0000 {
        u as i32
    } else {
        ((u as i64) - 0x1_0000_0000) as i32
    }
}

} // verus!

verus! {

/// Rust never hands out a slice or vector of more than `isize::MAX` bytes.
pub open spec fn fits_in_memory(len: nat) -> bool {
    len <= isize::MAX
}

} // verus!
