//! Address extraction (absolute u64/u32 or base+relative i32).

use vstd::prelude::*;
use crate::bytes::{as_signed32, read_i32, read_u32, read_u64, uint_at};
use crate::error::{KallsymsError, invalid_format, is_invalid_format};
use crate::helpers::{relax_validate_kernel_addresses, spec_relax_validate_kernel_addresses};
use crate::candidates::sat_sub;

verus! {

/// `base.wrapping_add(off as i64 as u64)`: `base + off` modulo 2^64.
pub open spec fn add_signed_wrapping(base: u64, off: int) -> u64 {
    ((base + off) % 0x1_0000_0000_0000_0000int) as u64
}

/// Addresses of the relative layout: `n` 32-bit signed offsets at `os`, each
/// added to `base`, all read in the same byte order.
pub open spec fn relative_addresses(d: Seq<u8>, os: int, n: nat, base: u64, big_endian: bool) -> Seq<u64> {
    Seq::new(n, |i: int| add_signed_wrapping(base, as_signed32(uint_at(d, os + 4 * i, 4, big_endian))))
}

/// The relative layout with its `u64` base at `base_pos`: the `n` offsets end
/// exactly at the base; little-endian is tried before big-endian, and a
/// table counts when it passes the relaxed address check.
pub open spec fn relative_at(d: Seq<u8>, start: int, base_pos: int, n: nat) -> Option<Seq<u64>> {
    let size = 4 * n;
    let os = if base_pos >= size { base_pos - size } else { 0 };
    let le = relative_addresses(d, os, n, uint_at(d, base_pos, 8, false) as u64, false);
    let be = relative_addresses(d, os, n, uint_at(d, base_pos, 8, true) as u64, true);
    if os < start || os + size > base_pos {
        None
    } else if spec_relax_validate_kernel_addresses(le) {
        Some(le)
    } else if spec_relax_validate_kernel_addresses(be) {
        Some(be)
    } else {
        None
    }
}

/// Tries base positions `start + 4 * j`, `start + 4 * (j + 1)`, ... while the
/// 8-byte base fits before `end`.
pub open spec fn scan_relative(d: Seq<u8>, start: int, end: int, n: nat, j: nat) -> Option<Seq<u64>>
    decreases end - (start + 4 * j),
{
    let bp = start + 4 * j;
    if bp >= end || bp + 8 > end {
        None
    } else {
        match relative_at(d, start, bp, n) {
            Some(a) => Some(a),
            None => scan_relative(d, start, end, n, j + 1),
        }
    }
}

/// The relative search from base position `start + 4 * j` on reads every
/// base it tries inside `d` (it stops at the first table found).
pub open spec fn relative_reads_in_data(d: Seq<u8>, start: int, end: int, n: nat, j: nat) -> bool
    decreases end - (start + 4 * j),
{
    let bp = start + 4 * j;
    if bp >= end || bp + 8 > end {
        true
    } else {
        &&& bp + 8 <= d.len()
        &&& (relative_at(d, start, bp, n) is Some || relative_reads_in_data(d, start, end, n, j + 1))
    }
}

/// The relative search inside `[start, end)` reads only bytes of `d`.
pub open spec fn relative_search_in_data(d: Seq<u8>, start: int, end: int, n: nat) -> bool {
    n == 0 || 4 * n > usize::MAX || relative_reads_in_data(d, start, end, n, 0)
}

/// A window inside the data is searched inside the data.
pub proof fn lemma_relative_search_in_data(d: Seq<u8>, start: int, end: int, n: nat, j: nat)
    requires
        end <= d.len(),
    ensures
        relative_reads_in_data(d, start, end, n, j),
    decreases end - (start + 4 * j),
{
    let bp = start + 4 * j;
    if !(bp >= end || bp + 8 > end) {
        lemma_relative_search_in_data(d, start, end, n, j + 1);
    }
}

/// The relative-offsets table inside `[start, end)`, if any.
pub open spec fn spec_find_relative(d: Seq<u8>, start: int, end: int, n: nat) -> Option<Seq<u64>> {
    if n == 0 || 4 * n > usize::MAX {
        None
    } else {
        scan_relative(d, start, end, n, 0)
    }
}

proof fn lemma_add_signed(base: u64, off: i64)
    requires
        -0x8000_0000 <= off < 0x8000_0000,
    ensures
        vstd::wrapping::u64_specs::wrapping_add_signed(base, off) == add_signed_wrapping(base, off as int),
{
}

fn relative_table(data: &[u8], os: usize, n: usize, base: u64, big_endian: bool) -> (r: Vec<u64>)
    requires
        os + 4 * n <= data@.len(),
    ensures
        r@ == relative_addresses(data@, os as int, n as nat, base, big_endian),
{
    assert(data@.len() == data.len());
    let mut addrs: Vec<u64> = Vec::new();
    let mut i: usize = 0;
    while i < n
        invariant
            os + 4 * n <= data@.len() <= usize::MAX,
            i <= n,
            addrs@ == relative_addresses(data@, os as int, n as nat, base, big_endian).take(i as int),
        decreases n - i,
    {
        let p = os + i * 4;
        let off = read_i32(data, p, big_endian);
        proof {
            lemma_add_signed(base, off as i64);
        }
        addrs.push(base.wrapping_add_signed(off as i64));
        i += 1;
        assert(addrs@ =~= relative_addresses(data@, os as int, n as nat, base, big_endian).take(i as int));
    }
    assert(addrs@ =~= relative_addresses(data@, os as int, n as nat, base, big_endian));
    addrs
}

/// Try base(u64)+relative(i32) layout inside [start, end).
pub fn try_find_relative_in_window(data: &[u8], start: usize, end: usize, num_syms: usize) -> (r:
    Option<Vec<u64>>)
    requires
        relative_search_in_data(data@, start as int, end as int, num_syms as nat),
    ensures
        match r {
            Some(a) => spec_find_relative(data@, start as int, end as int, num_syms as nat) == Some(a@),
            None => spec_find_relative(data@, start as int, end as int, num_syms as nat) is None,
        },
{
    if num_syms == 0 {
        return None;
    }
    let offsets_size = match num_syms.checked_mul(4) {
        Some(v) => v,
        None => return None,
    };
    let mut base_pos = start;
    let ghost mut j: nat = 0;
    loop
        invariant
            relative_reads_in_data(data@, start as int, end as int, num_syms as nat, j),
            num_syms > 0,
            offsets_size == 4 * num_syms,
            base_pos == start + 4 * j,
            spec_find_relative(data@, start as int, end as int, num_syms as nat) == scan_relative(
                data@,
                start as int,
                end as int,
                num_syms as nat,
                j,
            ),
        ensures
            spec_find_relative(data@, start as int, end as int, num_syms as nat) is None,
        decreases end - base_pos,
    {
        if base_pos >= end || 8 > end - base_pos {
            break;
        }
        let base_le = read_u64(data, base_pos, false);
        let base_be = read_u64(data, base_pos, true);
        let max_offsets_start = base_pos.saturating_sub(offsets_size);
        if max_offsets_start >= start && offsets_size <= base_pos - max_offsets_start {
            let le = relative_table(data, max_offsets_start, num_syms, base_le, false);
            if le.len() > 0 && relax_validate_kernel_addresses(le.as_slice()) {
                return Some(le);
            }
            let be = relative_table(data, max_offsets_start, num_syms, base_be, true);
            if be.len() > 0 && relax_validate_kernel_addresses(be.as_slice()) {
                return Some(be);
            }
        }
        base_pos += 4;
        proof {
            j = j + 1;
        }
    }
    None
}

/// Addresses of the absolute layout: `n` unsigned words of `width` bytes at `s`.
pub open spec fn absolute_addresses(d: Seq<u8>, s: int, n: nat, width: nat, big_endian: bool) -> Seq<u64> {
    Seq::new(n, |i: int| uint_at(d, s + width * i, width, big_endian) as u64)
}

/// Tries table starts `s`, `s + width`, ... while `n` words still fit before
/// `end`; little-endian before big-endian at each start. A table that runs
/// past the data does not count.
pub open spec fn scan_absolute(d: Seq<u8>, s: int, end: int, n: nat, width: nat) -> Option<Seq<u64>>
    decreases end + width - s,
{
    let le = absolute_addresses(d, s, n, width, false);
    let be = absolute_addresses(d, s, n, width, true);
    let in_data = n > 0 && s + width * n <= d.len();
    if width == 0 || s >= end || s + width * n > end {
        None
    } else if in_data && spec_relax_validate_kernel_addresses(le) {
        Some(le)
    } else if in_data && spec_relax_validate_kernel_addresses(be) {
        Some(be)
    } else {
        scan_absolute(d, s + width, end, n, width)
    }
}

/// The absolute table inside `[start, end)`: 8-byte words first, then 4-byte
/// words; nothing when the table size overflows `usize`.
pub open spec fn spec_find_absolute(d: Seq<u8>, start: int, end: int, n: nat) -> Option<Seq<u64>> {
    if 8 * n > usize::MAX {
        None
    } else {
        match scan_absolute(d, start, end, n, 8) {
            Some(a) => Some(a),
            None => scan_absolute(d, start, end, n, 4),
        }
    }
}

fn absolute_table(data: &[u8], s: usize, n: usize, width: usize, big_endian: bool) -> (r: Vec<u64>)
    requires
        width == 4 || width == 8,
        s + width * n <= data@.len(),
    ensures
        r@ == absolute_addresses(data@, s as int, n as nat, width as nat, big_endian),
{
    assert(data@.len() == data.len());
    let mut addrs: Vec<u64> = Vec::new();
    let mut i: usize = 0;
    while i < n
        invariant
            width == 4 || width == 8,
            s + width * n <= data@.len() <= usize::MAX,
            i <= n,
            addrs@ == absolute_addresses(data@, s as int, n as nat, width as nat, big_endian).take(i as int),
        decreases n - i,
    {
        assert(width * i + width <= width * n) by (nonlinear_arith)
            requires i < n, width == 4 || width == 8;
        let p = s + width * i;
        let addr = if width == 8 {
            read_u64(data, p, big_endian)
        } else {
            read_u32(data, p, big_endian) as u64
        };
        addrs.push(addr);
        i += 1;
        assert(addrs@ =~= absolute_addresses(data@, s as int, n as nat, width as nat, big_endian).take(i as int));
    }
    assert(addrs@ =~= absolute_addresses(data@, s as int, n as nat, width as nat, big_endian));
    addrs
}

fn scan_absolute_exec(data: &[u8], start: usize, end: usize, num_syms: usize, width: usize) -> (r: Option<Vec<u64>>)
    requires
        width == 4 || width == 8,
        width * num_syms <= usize::MAX,
    ensures
        match r {
            Some(a) => scan_absolute(data@, start as int, end as int, num_syms as nat, width as nat) == Some(a@),
            None => scan_absolute(data@, start as int, end as int, num_syms as nat, width as nat) is None,
        },
{
    let total = num_syms * width;
    let mut s = start;
    loop
        invariant
            width == 4 || width == 8,
            total == width * num_syms,
            scan_absolute(data@, start as int, end as int, num_syms as nat, width as nat) == scan_absolute(
                data@,
                s as int,
                end as int,
                num_syms as nat,
                width as nat,
            ),
        ensures
            scan_absolute(data@, start as int, end as int, num_syms as nat, width as nat) is None,
        decreases end + width - s,
    {
        if s >= end || total > end - s {
            break;
        }
        if num_syms > 0 && s <= data.len() && total <= data.len() - s {
            let le = absolute_table(data, s, num_syms, width, false);
            if relax_validate_kernel_addresses(le.as_slice()) {
                return Some(le);
            }
            let be = absolute_table(data, s, num_syms, width, true);
            if relax_validate_kernel_addresses(be.as_slice()) {
                return Some(be);
            }
        }
        if s > usize::MAX - width {
            assert(scan_absolute(data@, s + width, end as int, num_syms as nat, width as nat) is None);
            break;
        }
        s += width;
    }
    None
}

/// Try absolute u64 array layout inside [start, end).
pub fn try_find_absolute_in_window(data: &[u8], start: usize, end: usize, num_syms: usize) -> (r:
    Option<Vec<u64>>)
    ensures
        match r {
            Some(a) => spec_find_absolute(data@, start as int, end as int, num_syms as nat) == Some(a@),
            None => spec_find_absolute(data@, start as int, end as int, num_syms as nat) is None,
        },
{
    if num_syms > usize::MAX / 8 {
        return None;
    }
    if let Some(a) = scan_absolute_exec(data, start, end, num_syms, 8) {
        return Some(a);
    }
    scan_absolute_exec(data, start, end, num_syms, 4)
}

/// The address table for `n` symbols whose `num_syms` word sits at `nso`:
/// the 1 MiB before it is searched for the relative layout, then for the
/// absolute one.
pub open spec fn spec_find_addresses(d: Seq<u8>, nso: int, n: nat) -> Option<Seq<u64>> {
    let start = if nso >= 1024 * 1024 { nso - 1024 * 1024 } else { 0 };
    match spec_find_relative(d, start, nso, n) {
        Some(a) => Some(a),
        None => spec_find_absolute(d, start, nso, n),
    }
}

/// Find addresses array near num_syms (within a window) and decode it.
/// Supports absolute u64 or base(u64)+relative i32 formats.
pub fn find_and_read_addresses(data: &[u8], num_syms_offset: usize, num_syms: usize) -> (r: Result<
    Vec<u64>,
    KallsymsError,
>)
    requires
        relative_search_in_data(data@, sat_sub(num_syms_offset as int, 1024 * 1024int), num_syms_offset as int, num_syms as nat),
    ensures
        match r {
            Ok(a) => spec_find_addresses(data@, num_syms_offset as int, num_syms as nat) == Some(a@),
            Err(e) => spec_find_addresses(data@, num_syms_offset as int, num_syms as nat) is None
                && is_invalid_format(e, "addresses not found"@),
        },
{
    let window: usize = 1024 * 1024;
    let start = num_syms_offset.saturating_sub(window);
    let end = num_syms_offset;
    if let Some(addrs) = try_find_relative_in_window(data, start, end, num_syms) {
        return Ok(addrs);
    }
    if let Some(addrs) = try_find_absolute_in_window(data, start, end, num_syms) {
        return Ok(addrs);
    }
    Err(invalid_format("addresses not found"))
}

} // verus!

verus! {

/// The address search looks in the 1 MiB before the `num_syms` word: a
/// relative table found there is the result; when there is none, an
/// absolute table found there is the result; with neither, nothing is found.
pub proof fn lemma_addresses_relative_then_absolute(d: Seq<u8>, nso: int, n: nat)
    ensures
        ({
            let start = if nso >= 1024 * 1024 { nso - 1024 * 1024 } else { 0 };
            &&& spec_find_relative(d, start, nso, n) matches Some(a) ==> spec_find_addresses(d, nso, n) == Some(a)
            &&& spec_find_relative(d, start, nso, n) is None ==> (spec_find_absolute(d, start, nso, n) matches Some(a)
                ==> spec_find_addresses(d, nso, n) == Some(a))
            &&& spec_find_relative(d, start, nso, n) is None && spec_find_absolute(d, start, nso, n) is None
                ==> spec_find_addresses(d, nso, n) is None
        }),
{
}

proof fn lemma_scan_absolute_found(d: Seq<u8>, s: int, end: int, n: nat, width: nat)
    ensures
        scan_absolute(d, s, end, n, width) matches Some(a) ==> {
            &&& a.len() == n
            &&& n > 0
            &&& spec_relax_validate_kernel_addresses(a)
            &&& exists|t: int, be: bool| s <= t && t + width * n <= end && t + width * n <= d.len()
                && #[trigger] absolute_addresses(d, t, n, width, be) == a
        },
    decreases end + width - s,
{
    if !(width == 0 || s >= end || s + width * n > end) {
        let in_data = n > 0 && s + width * n <= d.len();
        if in_data && spec_relax_validate_kernel_addresses(absolute_addresses(d, s, n, width, false)) {
            assert(absolute_addresses(d, s, n, width, false).len() == n);
        } else if in_data && spec_relax_validate_kernel_addresses(absolute_addresses(d, s, n, width, true)) {
            assert(absolute_addresses(d, s, n, width, true).len() == n);
        } else {
            lemma_scan_absolute_found(d, s + width, end, n, width);
        }
    }
}

/// An absolute table found in `[start, end)` holds `n` plausible kernel
/// addresses, read as 8- or 4-byte words at some offset of the window, within
/// the window and the data.
pub proof fn lemma_absolute_found(d: Seq<u8>, start: int, end: int, n: nat)
    ensures
        spec_find_absolute(d, start, end, n) matches Some(a) ==> {
            &&& a.len() == n
            &&& spec_relax_validate_kernel_addresses(a)
            &&& exists|t: int, w: nat, be: bool| (w == 8 || w == 4) && start <= t && t + w * n <= end
                && t + w * n <= d.len() && #[trigger] absolute_addresses(d, t, n, w, be) == a
        },
{
    lemma_scan_absolute_found(d, start, end, n, 8);
    lemma_scan_absolute_found(d, start, end, n, 4);
    if let Some(a) = spec_find_absolute(d, start, end, n) {
        if scan_absolute(d, start, end, n, 8) is Some {
            let (t, be) = choose|t: int, be: bool| start <= t && t + 8 * n <= end && t + 8 * n <= d.len()
                && #[trigger] absolute_addresses(d, t, n, 8, be) == a;
            assert(absolute_addresses(d, t, n, 8nat, be) == a);
        } else {
            let (t, be) = choose|t: int, be: bool| start <= t && t + 4 * n <= end && t + 4 * n <= d.len()
                && #[trigger] absolute_addresses(d, t, n, 4, be) == a;
            assert(absolute_addresses(d, t, n, 4nat, be) == a);
        }
    }
}

} // verus!
