//! Search for token_index candidates and validate a complete kallsyms layout.

use vstd::prelude::*;
use vstd::slice::slice_subrange;
use crate::bytes::{fits_in_memory, le_uint};
use crate::error::KallsymsError;
use crate::helpers::{is_valid_token_table, spec_is_valid_token_table};
use crate::layout::KallsymsLayout;
use crate::markers::{find_markers_for_candidate, markers_search_in_data, scan_markers, spec_find_markers, lemma_marker_run_bounds};
use crate::names::{find_names_and_num_syms, spec_find_names, scan_names, spec_walk_names, ceil_div_256, lemma_walk_names_advances};
use crate::tokens::{non_decreasing, spec_token_index, read_token_index_exact};

verus! {

/// A plausible token table/index pairing location (index bytes are not stored).
#[derive(Debug, Clone, Copy)]
pub struct TokenCandidate {
    pub token_table_offset: usize,
    pub token_table_size: usize,
    pub token_index_offset: usize,
}

/// `a - b`, or 0 when `b > a`.
pub open spec fn sat_sub(a: int, b: int) -> int {
    if a >= b { a - b } else { 0 }
}

/// The paddings tried between the end of the token table and the index.
pub open spec fn paddings() -> Seq<int> {
    seq![0, 4, 8, 16, 32, 64, 128]
}

/// A token table of `last_start + teo + 1` bytes ending `teo` bytes before
/// `padding` bytes before the index at `pos`, when it has a plausible size
/// (64..=8192), lies in the data and passes the token-table check.
pub open spec fn table_try(d: Seq<u8>, pos: int, last_start: int, padding: int, teo: int) -> Option<TokenCandidate> {
    let te = sat_sub(sat_sub(pos, padding), teo);
    let size = last_start + teo + 1;
    let ts = sat_sub(te, size);
    if !(64 <= size <= 8192) || te > d.len() || ts >= te || te - ts != size || last_start >= size
        || !spec_is_valid_token_table(d.subrange(ts, te)) {
        None
    } else {
        Some(TokenCandidate { token_table_offset: ts as usize, token_table_size: size as usize, token_index_offset: pos as usize })
    }
}

/// The first table found for end offsets `teo`, `teo + 1`, ..., 127.
pub open spec fn search_teo(d: Seq<u8>, pos: int, last_start: int, padding: int, teo: nat) -> Option<TokenCandidate>
    decreases 128 - teo,
{
    if teo >= 128 {
        None
    } else {
        match table_try(d, pos, last_start, padding, teo as int) {
            Some(c) => Some(c),
            None => search_teo(d, pos, last_start, padding, teo + 1),
        }
    }
}

/// The first table found for the paddings from the `pi`-th on.
pub open spec fn search_padding(d: Seq<u8>, pos: int, last_start: int, pi: nat) -> Option<TokenCandidate>
    decreases 7 - pi,
{
    if pi >= 7 {
        None
    } else if sat_sub(pos, paddings()[pi as int]) <= last_start + 2 {
        search_padding(d, pos, last_start, pi + 1)
    } else {
        match search_teo(d, pos, last_start, paddings()[pi as int], 0) {
            Some(c) => Some(c),
            None => search_padding(d, pos, last_start, pi + 1),
        }
    }
}

/// The candidate for an index at `pos` read in one byte order: the index
/// must be non-decreasing with its last entry within 64..=8192.
pub open spec fn endian_candidate(d: Seq<u8>, pos: int, big_endian: bool) -> Option<TokenCandidate> {
    let a = spec_token_index(d, pos, big_endian);
    let last = if non_decreasing(a) { a[255] as int } else { 0 };
    if !(64 <= last <= 8192) {
        None
    } else {
        search_padding(d, pos, last, 0)
    }
}

/// The candidate at `pos`: little-endian first.
pub open spec fn candidate_at(d: Seq<u8>, pos: int) -> Option<TokenCandidate> {
    match endian_candidate(d, pos, false) {
        Some(c) => Some(c),
        None => endian_candidate(d, pos, true),
    }
}

/// The candidates at the even positions `pos`, `pos + 2`, ... before `end`.
pub open spec fn candidates_from(d: Seq<u8>, pos: int, end: int) -> Seq<TokenCandidate>
    decreases end + 2 - pos,
{
    if pos >= end {
        Seq::empty()
    } else {
        let here = if pos % 2 == 0 {
            match candidate_at(d, pos) {
                Some(c) => seq![c],
                None => Seq::empty(),
            }
        } else {
            Seq::empty()
        };
        here + candidates_from(d, pos + 2, end)
    }
}

/// All candidates in the latter half of the data, lowest index offset first.
pub open spec fn spec_find_all_token_candidates(d: Seq<u8>) -> Seq<TokenCandidate> {
    candidates_from(d, (d.len() / 2) as int, sat_sub(d.len() as int, 512))
}

/// The candidate's token table lies in the data and ends at or before its
/// index, which lies in the data too.
pub open spec fn candidate_in_bounds(c: TokenCandidate, d_len: int) -> bool {
    &&& 64 <= c.token_table_size <= 8192
    &&& c.token_table_offset + c.token_table_size <= c.token_index_offset
    &&& c.token_index_offset + 512 <= d_len
}

proof fn lemma_search_teo_bounds(d: Seq<u8>, pos: int, last_start: int, padding: int, teo: nat)
    requires
        0 <= pos <= usize::MAX,
        padding >= 0,
    ensures
        search_teo(d, pos, last_start, padding, teo) matches Some(c) ==> c.token_table_offset + c.token_table_size <= pos
            && c.token_index_offset == pos && 64 <= c.token_table_size <= 8192,
    decreases 128 - teo,
{
    if teo < 128 {
        lemma_search_teo_bounds(d, pos, last_start, padding, teo + 1);
    }
}

proof fn lemma_search_padding_bounds(d: Seq<u8>, pos: int, last_start: int, pi: nat)
    requires
        0 <= pos <= usize::MAX,
    ensures
        search_padding(d, pos, last_start, pi) matches Some(c) ==> c.token_table_offset + c.token_table_size <= pos
            && c.token_index_offset == pos && 64 <= c.token_table_size <= 8192,
    decreases 7 - pi,
{
    if pi < 7 {
        lemma_search_padding_bounds(d, pos, last_start, pi + 1);
        if sat_sub(pos, paddings()[pi as int]) > last_start + 2 {
            lemma_search_teo_bounds(d, pos, last_start, paddings()[pi as int], 0);
        }
    }
}

proof fn lemma_candidates_in_bounds(d: Seq<u8>, pos: int, end: int)
    requires
        0 <= pos,
        end + 512 <= d.len() || end <= 0,
        d.len() <= usize::MAX,
    ensures
        forall|i: int| 0 <= i < candidates_from(d, pos, end).len() ==> candidate_in_bounds(#[trigger] candidates_from(d, pos, end)[i], d.len() as int),
    decreases end + 2 - pos,
{
    if pos < end {
        lemma_candidates_in_bounds(d, pos + 2, end);
        lemma_search_padding_bounds(d, pos, 0, 0);
        let a0 = spec_token_index(d, pos, false);
        let a1 = spec_token_index(d, pos, true);
        lemma_search_padding_bounds(d, pos, if non_decreasing(a0) { a0[255] as int } else { 0 }, 0);
        lemma_search_padding_bounds(d, pos, if non_decreasing(a1) { a1[255] as int } else { 0 }, 0);
        let here = if pos % 2 == 0 {
            match candidate_at(d, pos) {
                Some(c) => seq![c],
                None => Seq::<TokenCandidate>::empty(),
            }
        } else {
            Seq::<TokenCandidate>::empty()
        };
        let rest = candidates_from(d, pos + 2, end);
        assert(candidates_from(d, pos, end) == here + rest);
        assert forall|i: int| 0 <= i < candidates_from(d, pos, end).len() implies candidate_in_bounds(#[trigger] candidates_from(d, pos, end)[i], d.len() as int) by {
            if i >= here.len() {
                assert(candidates_from(d, pos, end)[i] == rest[i - here.len()]);
            }
        }
    }
}

fn table_try_exec(data: &[u8], pos: usize, last_start: usize, padding: usize, teo: usize) -> (r: Option<TokenCandidate>)
    requires
        last_start <= 8192,
        teo < 128,
    ensures
        r == table_try(data@, pos as int, last_start as int, padding as int, teo as int),
{
    let table_end_with_padding = pos.saturating_sub(padding);
    let table_end = table_end_with_padding.saturating_sub(teo);
    let table_size = last_start + teo + 1;
    if !(64 <= table_size && table_size <= 8192) {
        return None;
    }
    let table_start = table_end.saturating_sub(table_size);
    if table_end > data.len() || table_start >= table_end {
        return None;
    }
    let table_slice = slice_subrange(data, table_start, table_end);
    if table_slice.len() != table_size {
        return None;
    }
    if last_start >= table_size {
        return None;
    }
    if !is_valid_token_table(table_slice) {
        return None;
    }
    Some(TokenCandidate { token_table_offset: table_start, token_table_size: table_size, token_index_offset: pos })
}

fn endian_candidate_exec(data: &[u8], pos: usize, big_endian: bool) -> (r: Option<TokenCandidate>)
    requires
        pos + 512 <= data@.len(),
    ensures
        r == endian_candidate(data@, pos as int, big_endian),
{
    let index = match read_token_index_exact(data, pos, big_endian) {
        Ok(a) => a,
        Err(_) => return None,
    };
    let mut index_last: u16 = 0;
    let mut i: usize = 0;
    loop
        invariant_except_break
            i <= 256,
            i > 0 ==> index_last == index@[i - 1],
            forall|x: int, y: int| 0 <= x <= y < i ==> index@[x] <= index@[y],
        invariant
            index@ == spec_token_index(data@, pos as int, big_endian),
        ensures
            (non_decreasing(index@) && index_last == index@[255]) || (!non_decreasing(index@) && index_last == 0),
        decreases 256 - i,
    {
        if i >= 256 {
            break;
        }
        let val = index[i];
        if i > 0 && val < index_last {
            assert(index@[i - 1] > index@[i as int]);
            index_last = 0;
            break;
        }
        index_last = val;
        i += 1;
    }
    if !(64 <= index_last && index_last <= 8192) {
        return None;
    }
    let last_start = index_last as usize;
    let pads: [usize; 7] = [0, 4, 8, 16, 32, 64, 128];
    assert(pads@ =~= paddings().map_values(|p: int| p as usize));
    let mut pi: usize = 0;
    while pi < 7
        invariant
            pi <= 7,
            64 <= last_start <= 8192,
            pads@ == paddings().map_values(|p: int| p as usize),
            endian_candidate(data@, pos as int, big_endian) == search_padding(data@, pos as int, last_start as int, pi as nat),
        decreases 7 - pi,
    {
        let padding = pads[pi];
        assert(padding == paddings()[pi as int]);
        let table_end_with_padding = pos.saturating_sub(padding);
        if table_end_with_padding > last_start + 2 {
            let mut teo: usize = 0;
            while teo < 128
                invariant
                    teo <= 128,
                    pi < 7,
                    padding == paddings()[pi as int],
                    sat_sub(pos as int, padding as int) > last_start + 2,
                    endian_candidate(data@, pos as int, big_endian) == search_padding(data@, pos as int, last_start as int, pi as nat),
                    64 <= last_start <= 8192,
                    search_teo(data@, pos as int, last_start as int, padding as int, 0) == search_teo(data@, pos as int, last_start as int, padding as int, teo as nat),
                decreases 128 - teo,
            {
                if let Some(c) = table_try_exec(data, pos, last_start, padding, teo) {
                    return Some(c);
                }
                teo += 1;
            }
        }
        pi += 1;
    }
    None
}

/// Scan the latter half of the file for 256x u16 non-decreasing arrays that
/// could be token_index, and a plausible token_table just before them.
pub fn find_all_token_candidates(data: &[u8]) -> (r: Vec<TokenCandidate>)
    ensures
        r@ == spec_find_all_token_candidates(data@),
        forall|i: int| 0 <= i < r@.len() ==> candidate_in_bounds(#[trigger] r@[i], data@.len() as int),
{
    let start = data.len() / 2;
    let end = data.len().saturating_sub(512);
    let mut out: Vec<TokenCandidate> = Vec::new();
    let mut pos = start;
    while pos < end
        invariant
            data@.len() <= usize::MAX,
            start == data@.len() / 2,
            end == sat_sub(data@.len() as int, 512),
            start <= pos,
            out@ + candidates_from(data@, pos as int, end as int) == spec_find_all_token_candidates(data@),
        decreases end + 2 - pos,
    {
        let ghost before = out@;
        if pos % 2 == 0 {
            let c = match endian_candidate_exec(data, pos, false) {
                Some(c) => Some(c),
                None => endian_candidate_exec(data, pos, true),
            };
            if let Some(c) = c {
                out.push(c);
            }
        }
        assert(candidates_from(data@, pos as int, end as int) == (if pos % 2 == 0 {
            match candidate_at(data@, pos as int) {
                Some(c) => seq![c],
                None => Seq::<TokenCandidate>::empty(),
            }
        } else {
            Seq::<TokenCandidate>::empty()
        }) + candidates_from(data@, pos + 2, end as int));
        assert(out@ + candidates_from(data@, pos + 2, end as int) =~= before + candidates_from(data@, pos as int, end as int));
        pos += 2;
    }
    proof {
        lemma_candidates_in_bounds(data@, (data@.len() / 2) as int, end as int);
    }
    out
}

} // verus!

verus! {

proof fn lemma_scan_markers_bounds(d: Seq<u8>, start: int, k: nat)
    requires
        start >= 0,
    ensures
        scan_markers(d, start, k) matches Some((mo, mc)) ==> k > 0 && mo + 4 * mc <= start + 4 * (k - 1) && 8 <= mc <= 4096,
    decreases k,
{
    if k > 0 {
        let pos = start + 4 * (k - 1);
        let e = pos - pos % 4;
        if e >= 40 {
            lemma_marker_run_bounds(d, e, 1);
        }
        lemma_scan_markers_bounds(d, start, (k - 1) as nat);
    }
}

proof fn lemma_find_markers_bounds(d: Seq<u8>, tto: int)
    requires
        64 <= tto,
    ensures
        spec_find_markers(d, tto) matches Some((mo, mc)) ==> mo + 4 * mc < tto && 8 <= mc <= 4096,
{
    let start = if tto >= 256 * 1024 { tto - 256 * 1024 } else { 0 };
    lemma_scan_markers_bounds(d, start, ((tto - start + 3) / 4) as nat);
}

proof fn lemma_scan_names_props(d: Seq<u8>, start: int, j: nat, count: nat, mo: int, mc: int)
    requires
        start >= 0,
        d.len() <= usize::MAX,
    ensures
        scan_names(d, start, j, count, mo, mc) matches Some((no, nso, n)) ==> {
            &&& n > 0
            &&& ceil_div_256(n as int) == mc
            &&& (no == nso + 4 || no == nso + 8)
            &&& spec_walk_names(d, no as int, n as nat, mo) is Some
            &&& no < mo
        },
    decreases count - j,
{
    if j < count {
        lemma_scan_names_props(d, start, j + 1, count, mo, mc);
        let ns_off = start + 4 * j;
        lemma_walk_names_advances(d, ns_off + 4, (le_uint(d, ns_off, 4) as usize) as nat, mo);
        lemma_walk_names_advances(d, ns_off + 8, (le_uint(d, ns_off, 8) as usize) as nat, mo);
    }
}

/// The layout built around a token candidate: markers before the table,
/// names and `num_syms` before the markers, and the names block size taken
/// from an exact walk when it ends by the markers (else up to the markers).
pub open spec fn spec_build_layout(d: Seq<u8>, c: TokenCandidate) -> Option<KallsymsLayout> {
    if c.token_table_offset < 64 {
        None
    } else {
        match spec_find_markers(d, c.token_table_offset as int) {
            None => None,
            Some((mo, mc)) => match spec_find_names(d, mo as int, mc as int) {
                None => None,
                Some((no, nso, n)) => {
                    let size = match spec_walk_names(d, no as int, n as nat, mo as int) {
                        Some(q) => if q <= mo { q - no } else { mo - no },
                        None => mo - no,
                    };
                    Some(KallsymsLayout {
                        num_syms: n,
                        num_syms_offset: nso,
                        names_offset: no,
                        names_size: size as usize,
                        markers_offset: mo,
                        markers_count: mc,
                        token_table_offset: c.token_table_offset,
                        token_table_size: c.token_table_size,
                        token_index_offset: c.token_index_offset,
                    })
                },
            },
        }
    }
}

/// The pieces of a layout are consistent and lie in order inside data of
/// `d_len` bytes: `num_syms`, names, markers, token table, token index.
pub open spec fn layout_well_formed(l: KallsymsLayout, d_len: int) -> bool {
    &&& l.num_syms > 0
    &&& ceil_div_256(l.num_syms as int) == l.markers_count
    &&& 8 <= l.markers_count <= 4096
    &&& (l.names_offset == l.num_syms_offset + 4 || l.names_offset == l.num_syms_offset + 8)
    &&& l.names_size > 0
    &&& l.names_offset + l.names_size <= l.markers_offset
    &&& l.markers_offset + 4 * l.markers_count <= l.token_table_offset
    &&& 64 <= l.token_table_size <= 8192
    &&& l.token_table_offset + l.token_table_size <= l.token_index_offset
    &&& l.token_index_offset + 512 <= d_len
}

fn try_build_complete_structure(data: &[u8], candidate: &TokenCandidate) -> (r: Result<KallsymsLayout, KallsymsError>)
    requires
        fits_in_memory(data@.len()),
        candidate.token_table_offset >= 64 ==> markers_search_in_data(data@, candidate.token_table_offset as int),
    ensures
        match r {
            Ok(l) => spec_build_layout(data@, *candidate) == Some(l)
                && (candidate_in_bounds(*candidate, data@.len() as int) ==> layout_well_formed(l, data@.len() as int)),
            Err(_) => spec_build_layout(data@, *candidate) is None,
        },
{
    let (markers_offset, markers_count) = match find_markers_for_candidate(data, candidate.token_table_offset) {
        Ok(v) => v,
        Err(e) => return Err(e),
    };
    proof {
        lemma_find_markers_bounds(data@, candidate.token_table_offset as int);
    }
    let (names_offset, num_syms_offset, num_syms) = match find_names_and_num_syms(data, markers_offset, 0, markers_count) {
        Ok(v) => v,
        Err(e) => return Err(e),
    };
    proof {
        let mo = markers_offset as int;
        let start = if mo >= 4 * 1024 * 1024 { mo - 4 * 1024 * 1024 } else { 0 };
        lemma_scan_names_props(data@, start, 0, ((mo - start + 3) / 4) as nat, mo, markers_count as int);
    }
    proof {
        lemma_walk_names_advances(data@, names_offset as int, num_syms as nat, markers_offset as int);
    }
    let mut names_size = markers_offset - names_offset;
    if let Some(test_pos) = crate::names::walk_names_until_limit(data, names_offset, num_syms, markers_offset) {
        if test_pos <= markers_offset {
            names_size = test_pos - names_offset;
        }
    }
    Ok(KallsymsLayout::new(
        num_syms,
        num_syms_offset,
        names_offset,
        names_size,
        markers_offset,
        markers_count,
        candidate.token_table_offset,
        candidate.token_table_size,
        candidate.token_index_offset,
    ))
}

/// The layout of the first candidate (in scan order from `i`) that builds.
pub open spec fn first_layout(d: Seq<u8>, cands: Seq<TokenCandidate>, i: nat) -> Option<KallsymsLayout>
    decreases cands.len() - i,
{
    if i >= cands.len() {
        None
    } else {
        match spec_build_layout(d, cands[i as int]) {
            Some(l) => Some(l),
            None => first_layout(d, cands, i + 1),
        }
    }
}

/// The kallsyms layout of the data: the first token candidate around which
/// a complete layout builds.
pub open spec fn spec_find_layout(d: Seq<u8>) -> Option<KallsymsLayout> {
    first_layout(d, spec_find_all_token_candidates(d), 0)
}

/// Find a complete, internally consistent kallsyms layout by testing candidates.
pub fn find_complete_kallsyms_structure(data: &[u8]) -> (r: Result<KallsymsLayout, KallsymsError>)
    requires
        fits_in_memory(data@.len()),
    ensures
        match r {
            Ok(l) => spec_find_layout(data@) == Some(l) && layout_well_formed(l, data@.len() as int),
            Err(e) => spec_find_layout(data@) is None && e is NotFound,
        },
{
    let candidates = find_all_token_candidates(data);
    let mut i: usize = 0;
    while i < candidates.len()
        invariant
            fits_in_memory(data@.len()),
            candidates@ == spec_find_all_token_candidates(data@),
            forall|k: int| 0 <= k < candidates@.len() ==> candidate_in_bounds(#[trigger] candidates@[k], data@.len() as int),
            i <= candidates@.len(),
            spec_find_layout(data@) == first_layout(data@, candidates@, i as nat),
        decreases candidates@.len() - i,
    {
        assert(candidate_in_bounds(candidates@[i as int], data@.len() as int));
        if let Ok(layout) = try_build_complete_structure(data, &candidates[i]) {
            return Ok(layout);
        }
        i += 1;
    }
    Err(KallsymsError::NotFound)
}

} // verus!

verus! {

/// When the `num_syms` names can be walked from the names offset without
/// reaching the markers, a built layout's names block ends exactly where the
/// last name ends (alignment padding before the markers is not part of it);
/// otherwise it runs up to the markers.
pub proof fn lemma_layout_names_end(d: Seq<u8>, c: TokenCandidate, l: KallsymsLayout)
    requires
        d.len() <= usize::MAX,
        spec_build_layout(d, c) == Some(l),
    ensures
        spec_walk_names(d, l.names_offset as int, l.num_syms as nat, l.markers_offset as int) matches Some(q)
            ==> l.names_offset + l.names_size == q,
        spec_walk_names(d, l.names_offset as int, l.num_syms as nat, l.markers_offset as int) is None
            ==> l.names_offset + l.names_size == l.markers_offset,
{
    let (mo, mc) = spec_find_markers(d, c.token_table_offset as int)->Some_0;
    let (no, nso, n) = spec_find_names(d, mo as int, mc as int)->Some_0;
    lemma_walk_names_advances(d, no as int, n as nat, mo as int);
    let start = if mo >= 4 * 1024 * 1024 { mo - 4 * 1024 * 1024 } else { 0 };
    lemma_scan_names_props(d, start, 0, ((mo - start + 3) / 4) as nat, mo as int, mc as int);
}

proof fn lemma_first_layout_builds(d: Seq<u8>, cands: Seq<TokenCandidate>, i: nat)
    ensures
        first_layout(d, cands, i) matches Some(l) ==> exists|j: int| i <= j < cands.len() && spec_build_layout(d, #[trigger] cands[j]) == Some(l),
    decreases cands.len() - i,
{
    if i < cands.len() {
        lemma_first_layout_builds(d, cands, i + 1);
    }
}

/// The layout found in the data has a names block that ends exactly where
/// walking its `num_syms` names ends, whenever that walk stays before the
/// markers.
pub proof fn lemma_found_layout_names_end(d: Seq<u8>)
    requires
        d.len() <= usize::MAX,
    ensures
        spec_find_layout(d) matches Some(l) ==> (
            spec_walk_names(d, l.names_offset as int, l.num_syms as nat, l.markers_offset as int) matches Some(q)
                ==> l.names_offset + l.names_size == q),
{
    lemma_first_layout_builds(d, spec_find_all_token_candidates(d), 0);
    if let Some(l) = spec_find_layout(d) {
        let cands = spec_find_all_token_candidates(d);
        let j = choose|j: int| 0 <= j < cands.len() && spec_build_layout(d, #[trigger] cands[j]) == Some(l);
        lemma_layout_names_end(d, cands[j], l);
    }
}

} // verus!
