//! Discovery of the kallsyms "markers" array (ascending u32 offsets that end
//! just before the token table).

use vstd::prelude::*;
use crate::bytes::{le_uint, read_u32};
use crate::error::{KallsymsError, invalid_format, is_invalid_format};

verus! {

/// Little-endian `u32` at `p`.
pub open spec fn le32(d: Seq<u8>, p: int) -> int {
    le_uint(d, p, 4)
}

/// Length of the run of strictly ascending `u32` words that ends at `e`,
/// counted backwards from `c` words already accepted, capped at 4096 words
/// and never reaching below offset 0.
pub open spec fn marker_run(d: Seq<u8>, e: int, c: nat) -> nat
    decreases 4096 - c,
{
    if c < 4096 && e - 4 * c >= 4 && le32(d, e - 4 * c - 4) < le32(d, e - 4 * c) {
        marker_run(d, e, c + 1)
    } else {
        c
    }
}

/// The markers array that ends at `end_pos` (rounded down to a multiple of 4):
/// its start offset and word count, when the run holds at least 8 words and
/// 256 symbols per marker give an estimate between 1000 and 2 000 000.
pub open spec fn spec_markers_ending_at(d: Seq<u8>, end_pos: int) -> Option<(usize, usize)> {
    let e = end_pos - end_pos % 4;
    if e < 40 {
        None
    } else {
        let c = marker_run(d, e, 1);
        if c < 8 || !(1000 <= c * 256 <= 2_000_000) {
            None
        } else {
            Some(((e - 4 * c) as usize, c as usize))
        }
    }
}

pub proof fn lemma_marker_run_bounds(d: Seq<u8>, e: int, c: nat)
    requires
        1 <= c <= 4096,
        e - 4 * c >= 0,
    ensures
        c <= marker_run(d, e, c) <= 4096,
        e - 4 * marker_run(d, e, c) >= 0,
    decreases 4096 - c,
{
    if c < 4096 && e - 4 * c >= 4 && le32(d, e - 4 * c - 4) < le32(d, e - 4 * c) {
        lemma_marker_run_bounds(d, e, c + 1);
    }
}

/// Try to interpret an ascending sequence of u32 offsets ending at end_pos.
pub fn try_read_markers_ending_at(data: &[u8], end_pos: usize) -> (r: Option<(usize, usize)>)
    requires
        end_pos - end_pos % 4 >= 40 ==> end_pos - end_pos % 4 <= data@.len(),
    ensures
        r == spec_markers_ending_at(data@, end_pos as int),
{
    let end_pos = end_pos - end_pos % 4;
    if end_pos < 40 {
        return None;
    }
    let ghost e = end_pos as int;
    let mut pos = end_pos - 4;
    let mut prev = read_u32(data, end_pos - 4, false);
    let mut count: usize = 1;
    loop
        invariant
            e == end_pos,
            40 <= e <= data@.len(),
            1 <= count <= 4096,
            pos == e - 4 * count,
            pos >= 0,
            prev == le32(data@, pos as int),
            marker_run(data@, e, count as nat) == marker_run(data@, e, 1),
        ensures
            count == marker_run(data@, e, 1),
            pos == e - 4 * count,
        decreases 4096 - count,
    {
        if !(pos >= 4 && count < 4096) {
            break;
        }
        let val = read_u32(data, pos - 4, false);
        if val >= prev {
            break;
        }
        pos -= 4;
        prev = val;
        count += 1;
    }
    if count < 8 {
        return None;
    }
    let markers_start = pos;
    let markers_count = count;
    let estimated_syms = markers_count * 256;
    if !(1000 <= estimated_syms && estimated_syms <= 2_000_000) {
        return None;
    }
    Some((markers_start, markers_count))
}

/// Scans candidate end positions `start + 4 * (k - 1)`, `start + 4 * (k - 2)`,
/// ..., `start` in this order and gives the first markers array found.
pub open spec fn scan_markers(d: Seq<u8>, start: int, k: nat) -> Option<(usize, usize)>
    decreases k,
{
    if k == 0 {
        None
    } else {
        match spec_markers_ending_at(d, start + 4 * (k - 1)) {
            Some(r) => Some(r),
            None => scan_markers(d, start, (k - 1) as nat),
        }
    }
}

/// The markers array found before a token table at `tto`: the search tries
/// every 4th offset of the 256 KiB before `tto`, nearest first.
pub open spec fn spec_find_markers(d: Seq<u8>, tto: int) -> Option<(usize, usize)> {
    let start = if tto >= 256 * 1024 { tto - 256 * 1024 } else { 0 };
    scan_markers(d, start, ((tto - start + 3) / 4) as nat)
}

/// The markers search before `tto` reads only bytes of `d`: the highest end
/// position it tries (rounded down to a multiple of 4) lies in `d`, or is
/// too small to be read at all.
pub open spec fn markers_search_in_data(d: Seq<u8>, tto: int) -> bool {
    let start = if tto >= 256 * 1024 { tto - 256 * 1024 } else { 0 };
    let k = (tto - start + 3) / 4;
    let top = start + 4 * (k - 1);
    k <= 0 || top - top % 4 < 40 || top - top % 4 <= d.len()
}

/// Locate the end-aligned markers array before the token table.
/// Returns (markers_start_offset, markers_count).
pub fn find_markers_for_candidate(data: &[u8], token_table_offset: usize) -> (r: Result<
    (usize, usize),
    KallsymsError,
>)
    requires
        token_table_offset >= 64 ==> markers_search_in_data(data@, token_table_offset as int),
    ensures
        token_table_offset < 64 ==> r is Err && is_invalid_format(
            r->Err_0,
            "token_table too early in file"@,
        ),
        token_table_offset >= 64 ==> match r {
            Ok(v) => spec_find_markers(data@, token_table_offset as int) == Some(v),
            Err(e) => spec_find_markers(data@, token_table_offset as int) is None
                && is_invalid_format(e, "markers not found"@),
        },
{
    if token_table_offset < 64 {
        return Err(invalid_format("token_table too early in file"));
    }
    let start_search = token_table_offset.saturating_sub(256 * 1024);
    let ghost total = ((token_table_offset - start_search + 3) / 4) as nat;
    let mut k: usize = (token_table_offset - start_search + 3) / 4;
    while k > 0
        invariant
            k == 0 || start_search + 4 * (k - 1) < token_table_offset,
            k == 0 || ({
                let p = start_search + 4 * (k - 1);
                p - p % 4 < 40 || p - p % 4 <= data@.len()
            }),
            k <= total,
            token_table_offset >= 64,
            total == ((token_table_offset - start_search + 3) / 4) as nat,
            start_search == (if token_table_offset >= 256 * 1024 { token_table_offset - 256 * 1024 } else { 0 }),
            scan_markers(data@, start_search as int, total) == scan_markers(
                data@,
                start_search as int,
                k as nat,
            ),
        decreases k,
    {
        let pos = start_search + 4 * (k - 1);
        if let Some(result) = try_read_markers_ending_at(data, pos) {
            return Ok(result);
        }
        k -= 1;
    }
    Err(invalid_format("markers not found"))
}

} // verus!
