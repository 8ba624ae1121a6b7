//! Names area discovery and sampling utilities.

use vstd::prelude::*;
use vstd::slice::slice_subrange;
use crate::bytes::{fits_in_memory, le_uint, read_u32, read_u64};
use crate::error::{KallsymsError, invalid_format, is_invalid_format};

verus! {

/// Walks `k` length-prefixed entries from `pos`: each entry is a length byte
/// that must be non-zero and lie before `hard_end` and the end of `d`,
/// followed by that many bytes, and no entry may run past `hard_end`.
/// Gives the position after the last entry.
pub open spec fn spec_walk_names(d: Seq<u8>, pos: int, k: nat, hard_end: int) -> Option<int>
    decreases k,
{
    if k == 0 {
        Some(pos)
    } else if pos >= hard_end || pos >= d.len() {
        None
    } else if d[pos] == 0 || pos + 1 + d[pos] > hard_end {
        None
    } else {
        spec_walk_names(d, pos + 1 + d[pos], (k - 1) as nat, hard_end)
    }
}

/// A successful walk advances by at least two bytes per entry and ends by
/// the hard end.
pub proof fn lemma_walk_names_advances(d: Seq<u8>, pos: int, k: nat, hard_end: int)
    ensures
        spec_walk_names(d, pos, k, hard_end) matches Some(q) ==> pos + 2 * k <= q && (k > 0 ==> pos
            < hard_end && pos < d.len() && q <= hard_end),
    decreases k,
{
    if k > 0 && !(pos >= hard_end || pos >= d.len()) && d[pos] != 0 && pos + 1 + d[pos] <= hard_end {
        lemma_walk_names_advances(d, pos + 1 + d[pos], (k - 1) as nat, hard_end);
    }
}

/// Walk a length-prefixed names block without decoding, enforcing a hard end.
pub fn walk_names_until_limit(data: &[u8], pos: usize, expected: usize, hard_end: usize) -> (r:
    Option<usize>)
    requires
        fits_in_memory(data@.len()),
    ensures
        r matches Some(q) ==> pos + 2 * expected <= q && (expected > 0 ==> q <= hard_end),
        match r {
            Some(q) => spec_walk_names(data@, pos as int, expected as nat, hard_end as int) == Some(
                q as int,
            ),
            None => spec_walk_names(data@, pos as int, expected as nat, hard_end as int) is None,
        },
{
    let mut cur = pos;
    let ghost pos0 = pos as int;
    let mut i: usize = 0;
    while i < expected
        invariant
            fits_in_memory(data@.len()),
            i <= expected,
            spec_walk_names(data@, pos0, expected as nat, hard_end as int) == spec_walk_names(
                data@,
                cur as int,
                (expected - i) as nat,
                hard_end as int,
            ),
            pos0 == pos,
            cur + 2 * (expected - i) >= pos0 + 2 * expected,
            i > 0 ==> cur <= hard_end,
        decreases expected - i,
    {
        if cur >= hard_end || cur >= data.len() {
            return None;
        }
        let len = data[cur] as usize;
        if len == 0 || len > hard_end - cur - 1 {
            return None;
        }
        cur += 1 + len;
        i += 1;
    }
    Some(cur)
}

/// `n.div_ceil(256)`.
pub open spec fn ceil_div_256(n: int) -> int {
    (n + 255) / 256
}

/// A `num_syms` word at `ns_off` of `width` bytes (4 or 8) fits when it is
/// non-zero, rounds up to `markers_count` blocks of 256 and `n` names can be
/// walked from just after it without reaching `markers_offset`.
pub open spec fn num_syms_fits(d: Seq<u8>, ns_off: int, width: nat, markers_offset: int, markers_count: int) -> bool {
    let n = (le_uint(d, ns_off, width) as usize) as int;
    &&& ns_off + width <= d.len()
    &&& n > 0
    &&& ceil_div_256(n) == markers_count
    &&& spec_walk_names(d, ns_off + width, n as nat, markers_offset) is Some
}

/// The result for the candidate `num_syms` offset `ns_off`: the `u32` reading
/// is tried before the `u64` one.
pub open spec fn names_at(d: Seq<u8>, ns_off: int, markers_offset: int, markers_count: int) -> Option<(usize, usize, usize)> {
    if num_syms_fits(d, ns_off, 4, markers_offset, markers_count) {
        Some(((ns_off + 4) as usize, ns_off as usize, (le_uint(d, ns_off, 4) as usize)))
    } else if num_syms_fits(d, ns_off, 8, markers_offset, markers_count) {
        Some(((ns_off + 8) as usize, ns_off as usize, (le_uint(d, ns_off, 8) as usize)))
    } else {
        None
    }
}

/// Tries the candidate offsets `start + 4 * j` for `j` from `j` up to `count - 1`.
pub open spec fn scan_names(d: Seq<u8>, start: int, j: nat, count: nat, markers_offset: int, markers_count: int) -> Option<(usize, usize, usize)>
    decreases count - j,
{
    if j >= count {
        None
    } else {
        match names_at(d, start + 4 * j, markers_offset, markers_count) {
            Some(r) => Some(r),
            None => scan_names(d, start, j + 1, count, markers_offset, markers_count),
        }
    }
}

/// The names block and `num_syms` found by scanning the 4 MiB before the
/// markers, lowest offset first, every 4th offset.
pub open spec fn spec_find_names(d: Seq<u8>, markers_offset: int, markers_count: int) -> Option<(usize, usize, usize)> {
    let start = if markers_offset >= 4 * 1024 * 1024 { markers_offset - 4 * 1024 * 1024 } else { 0 };
    scan_names(d, start, 0, ((markers_offset - start + 3) / 4) as nat, markers_offset, markers_count)
}

fn ceil_div_256_exec(n: usize) -> (r: usize)
    ensures
        r == ceil_div_256(n as int),
{
    n / 256 + if n % 256 != 0 { 1 } else { 0 }
}

/// Locate the names block and the num_syms value preceding it by scanning
/// back from markers. Supports num_syms stored as u32 or u64.
/// Returns (names_offset, num_syms_offset, num_syms).
pub fn find_names_and_num_syms(
    data: &[u8],
    markers_offset: usize,
    _names_size_hint: usize,
    markers_count: usize,
) -> (r: Result<(usize, usize, usize), KallsymsError>)
    requires
        fits_in_memory(data@.len()),
        markers_offset + 8 <= usize::MAX,
    ensures
        match r {
            Ok(v) => spec_find_names(data@, markers_offset as int, markers_count as int) == Some(v),
            Err(e) => spec_find_names(data@, markers_offset as int, markers_count as int) is None
                && is_invalid_format(e, "names/num_syms not found"@),
        },
{
    let max_back: usize = 4 * 1024 * 1024;
    let search_start = markers_offset.saturating_sub(max_back);
    let search_end = markers_offset;
    let expected_markers = markers_count;
    let count: usize = (search_end - search_start + 3) / 4;
    let mut j: usize = 0;
    while j < count
        invariant
            fits_in_memory(data@.len()),
            markers_offset + 8 <= usize::MAX,
            search_start <= search_end == markers_offset,
            search_start == (if markers_offset >= 4 * 1024 * 1024 { markers_offset - 4 * 1024 * 1024 } else { 0 }),
            count == (search_end - search_start + 3) / 4,
            j <= count,
            expected_markers == markers_count,
            spec_find_names(data@, markers_offset as int, markers_count as int) == scan_names(
                data@,
                search_start as int,
                j as nat,
                count as nat,
                markers_offset as int,
                markers_count as int,
            ),
        decreases count - j,
    {
        let ns_off = search_start + 4 * j;
        assert(ns_off < markers_offset);
        if ns_off + 4 <= data.len() {
            let n = read_u32(data, ns_off, false) as usize;
            if n > 0 && ceil_div_256_exec(n) == expected_markers {
                let names_start = ns_off + 4;
                if walk_names_until_limit(data, names_start, n, search_end).is_some() {
                    return Ok((names_start, ns_off, n));
                }
            }
        }
        if ns_off + 8 <= data.len() {
            let n = read_u64(data, ns_off, false) as usize;
            if n > 0 && ceil_div_256_exec(n) == expected_markers {
                let names_start = ns_off + 8;
                if walk_names_until_limit(data, names_start, n, search_end).is_some() {
                    return Ok((names_start, ns_off, n));
                }
            }
        }
        j += 1;
    }
    Err(invalid_format("names/num_syms not found"))
}

/// The encoded entries of a names block: from `pos`, up to `limit`
/// length-prefixed entries that end by `end`, stopping at a zero length.
pub open spec fn name_entries(d: Seq<u8>, pos: int, end: int, limit: nat) -> Seq<Seq<u8>>
    decreases limit,
{
    if limit == 0 || pos >= end {
        Seq::empty()
    } else {
        let len = d[pos] as int;
        if len == 0 || pos + 1 + len > end {
            Seq::empty()
        } else {
            seq![d.subrange(pos + 1, pos + 1 + len)] + name_entries(d, pos + 1 + len, end, (limit - 1) as nat)
        }
    }
}

/// The walk of `name_entries` reads only bytes of `d`: every length byte it
/// reads, and every entry it takes, lies inside `d`.
pub open spec fn entries_in_data(d: Seq<u8>, pos: int, end: int, limit: nat) -> bool
    decreases limit,
{
    if limit == 0 || pos >= end {
        true
    } else {
        &&& 0 <= pos < d.len()
        &&& {
            let len = d[pos] as int;
            ||| len == 0
            ||| pos + 1 + len > end
            ||| pos + 1 + len <= d.len() && entries_in_data(d, pos + 1 + len, end, (limit - 1) as nat)
        }
    }
}

/// Sampling at most `cap` of the `num_syms` entries of the names block reads
/// only bytes of `d` (and the block's end fits in `usize`).
pub open spec fn samples_in_data(d: Seq<u8>, names_off: int, names_size: int, num_syms: int, cap: int) -> bool {
    &&& names_off + names_size <= usize::MAX
    &&& entries_in_data(d, names_off, names_off + names_size, if num_syms <= cap { num_syms as nat } else { cap as nat })
}

/// A names block inside the data is walked inside the data.
pub proof fn lemma_entries_in_data(d: Seq<u8>, pos: int, end: int, limit: nat)
    requires
        0 <= pos,
        end <= d.len(),
    ensures
        entries_in_data(d, pos, end, limit),
    decreases limit,
{
    if !(limit == 0 || pos >= end) {
        let len = d[pos] as int;
        if !(len == 0 || pos + 1 + len > end) {
            lemma_entries_in_data(d, pos + 1 + len, end, (limit - 1) as nat);
        }
    }
}

pub proof fn lemma_name_entries_nonempty(d: Seq<u8>, pos: int, end: int, limit: nat)
    requires
        entries_in_data(d, pos, end, limit),
    ensures
        forall|i: int| 0 <= i < name_entries(d, pos, end, limit).len() ==> #[trigger] name_entries(d, pos, end, limit)[i].len() >= 1,
        name_entries(d, pos, end, limit).len() <= limit,
    decreases limit,
{
    if !(limit == 0 || pos >= end) {
        let len = d[pos] as int;
        if !(len == 0 || pos + 1 + len > end) {
            let rest = name_entries(d, pos + 1 + len, end, (limit - 1) as nat);
            lemma_name_entries_nonempty(d, pos + 1 + len, end, (limit - 1) as nat);
            let all = name_entries(d, pos, end, limit);
            assert(all == seq![d.subrange(pos + 1, pos + 1 + len)] + rest);
            assert(all[0] == d.subrange(pos + 1, pos + 1 + len));
            assert forall|i: int| 0 <= i < all.len() implies #[trigger] all[i].len() >= 1 by {
                if i > 0 {
                    assert(all[i] == rest[i - 1]);
                    assert(rest[i - 1].len() >= 1);
                }
            }
        }
    }
}

/// Collect up to max_samples encoded name entries for quick scoring.
pub fn collect_name_samples<'a>(
    data: &'a [u8],
    names_off: usize,
    names_size: usize,
    num_syms: usize,
    max_samples: usize,
) -> (r: Vec<&'a [u8]>)
    requires
        names_off + names_size <= usize::MAX,
        entries_in_data(data@, names_off as int, names_off + names_size,
            if max_samples <= num_syms { max_samples as nat } else { num_syms as nat }),
    ensures
        r@.map_values(|s: &[u8]| s@) == name_entries(
            data@,
            names_off as int,
            names_off + names_size,
            if max_samples <= num_syms { max_samples as nat } else { num_syms as nat },
        ),
{
    let limit = if max_samples <= num_syms { max_samples } else { num_syms };
    let mut samples: Vec<&'a [u8]> = Vec::new();
    let mut pos = names_off;
    let end = names_off + names_size;
    let ghost total = name_entries(data@, names_off as int, end as int, limit as nat);
    let mut i: usize = 0;
    while i < limit
        invariant
            end == names_off + names_size,
            pos <= end,
            i <= limit,
            entries_in_data(data@, pos as int, end as int, (limit - i) as nat),
            samples@.map_values(|s: &[u8]| s@) + name_entries(data@, pos as int, end as int, (limit - i) as nat) == total,
        ensures
            samples@.map_values(|s: &[u8]| s@) == total,
        decreases limit - i,
    {
        if pos >= end {
            assert(name_entries(data@, pos as int, end as int, (limit - i) as nat) =~= Seq::<Seq<u8>>::empty());
            assert(samples@.map_values(|s: &[u8]| s@) =~= total);
            break;
        }
        let len = data[pos] as usize;
        if len == 0 || len > end - (pos + 1) {
            assert(name_entries(data@, pos as int, end as int, (limit - i) as nat) =~= Seq::<Seq<u8>>::empty());
            assert(samples@.map_values(|s: &[u8]| s@) =~= total);
            break;
        }
        let enc = slice_subrange(data, pos + 1, pos + 1 + len);
        let ghost before = samples@.map_values(|s: &[u8]| s@);
        let ghost old_pos = pos as int;
        samples.push(enc);
        assert(samples@.map_values(|s: &[u8]| s@) =~= before.push(enc@));
        pos += 1 + len;
        i += 1;
        assert(before + name_entries(data@, old_pos, end as int, (limit - i + 1) as nat)
            =~= before.push(enc@) + name_entries(data@, pos as int, end as int, (limit - i) as nat));
    }
    samples
}

} // verus!
