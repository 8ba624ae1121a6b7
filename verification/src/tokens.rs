//! Token index/table alignment and name-plausibility scoring.

use vstd::prelude::*;
use vstd::slice::{slice_subrange, slice_to_vec};
use crate::bytes::{fits_in_memory, read_u16, uint_at};
use crate::decoder::{DecodeVariant, decoded_nonempty, expand_bytes, sample_views, tally_samples};
use crate::error::{KallsymsError, invalid_format, is_invalid_format};
use crate::names::{collect_name_samples, name_entries, samples_in_data};
use crate::score::{Score, light_score, light_score_of, score_gt, score_greater, strict_score, strict_score_of};

verus! {

/// The 256 `u16` entries of a token index read at `off`.
pub open spec fn spec_token_index(d: Seq<u8>, off: int, big_endian: bool) -> Seq<u16> {
    Seq::new(256, |i: int| uint_at(d, off + 2 * i, 2, big_endian) as u16)
}

/// Read exactly 256 u16 entries from the given offset in selected endianness.
pub fn read_token_index_exact(data: &[u8], offset: usize, is_be: bool) -> (r: Result<[u16; 256], KallsymsError>)
    ensures
        match r {
            Ok(a) => offset + 512 <= data@.len() && a@ == spec_token_index(data@, offset as int, is_be),
            Err(e) => offset + 512 > data@.len() && is_invalid_format(e, "token index truncated"@),
        },
{
    if offset >= data.len() || data.len() - offset < 512 {
        return Err(invalid_format("token index truncated"));
    }
    let mut index = [0u16; 256];
    let mut i: usize = 0;
    while i < 256
        invariant
            offset + 512 <= data@.len() <= usize::MAX,
            i <= 256,
            forall|j: int| 0 <= j < i ==> index@[j] == uint_at(data@, offset + 2 * j, 2, is_be) as u16,
        decreases 256 - i,
    {
        index[i] = read_u16(data, offset + i * 2, is_be);
        i += 1;
    }
    assert(index@ =~= spec_token_index(data@, offset as int, is_be));
    Ok(index)
}

/// Position of the first NUL byte at or after `s` (the end of `d` when none).
pub open spec fn nul_from(d: Seq<u8>, s: int) -> int
    decreases d.len() - s,
{
    if s >= d.len() || d[s] == 0 {
        s
    } else {
        nul_from(d, s + 1)
    }
}

pub proof fn lemma_nul_from(d: Seq<u8>, s: int)
    requires
        0 <= s,
    ensures
        s <= nul_from(d, s),
        s < d.len() ==> nul_from(d, s) <= d.len(),
        nul_from(d, s) < d.len() ==> d[nul_from(d, s)] == 0,
        forall|k: int| s <= k < nul_from(d, s) ==> k < d.len() && d[k] != 0,
    decreases d.len() - s,
{
    if !(s >= d.len() || d[s] == 0) {
        lemma_nul_from(d, s + 1);
    }
}

/// The tokens `i..256` of a token table at `base`: each token runs from
/// `base + idx[i]` to its NUL terminator, which must exist and must not
/// pass the start of the next token.
pub open spec fn strict_tokens_from(d: Seq<u8>, base: int, idx: Seq<u16>, i: nat) -> Result<Seq<Seq<u8>>, Seq<char>>
    decreases 256 - i,
{
    if i >= 256 {
        Ok(Seq::empty())
    } else {
        let start = base + idx[i as int];
        let z = nul_from(d, start);
        if start >= d.len() {
            Err("token start OOB or before base"@)
        } else if z >= d.len() {
            Err("token end not found"@)
        } else if i < 255 && z > base + idx[i + 1 as int] {
            Err("token overflows into next"@)
        } else {
            match strict_tokens_from(d, base, idx, i + 1) {
                Ok(rest) => Ok(seq![d.subrange(start, z)] + rest),
                Err(e) => Err(e),
            }
        }
    }
}

/// All 256 tokens at `base` and the table size (through the last token's
/// terminator), or the message of the first violation.
pub open spec fn spec_extract_tokens_strict(d: Seq<u8>, base: int, idx: Seq<u16>) -> Result<(Seq<Seq<u8>>, int), Seq<char>> {
    match strict_tokens_from(d, base, idx, 0) {
        Ok(t) => Ok((t, nul_from(d, base + idx[255]) + 1 - base)),
        Err(e) => Err(e),
    }
}

pub proof fn lemma_strict_tokens_len(d: Seq<u8>, base: int, idx: Seq<u16>, i: nat)
    requires
        i <= 256,
    ensures
        strict_tokens_from(d, base, idx, i) matches Ok(t) ==> t.len() == 256 - i,
    decreases 256 - i,
{
    if i < 256 {
        lemma_strict_tokens_len(d, base, idx, i + 1);
    }
}

/// `r` is `acc` followed by `rest`, or the error of `rest`.
pub open spec fn prepend_tokens(acc: Seq<Seq<u8>>, rest: Result<Seq<Seq<u8>>, Seq<char>>) -> Result<Seq<Seq<u8>>, Seq<char>> {
    match rest {
        Ok(r) => Ok(acc + r),
        Err(e) => Err(e),
    }
}

/// Extract tokens at a fixed base using the index; ensures NUL termination and non-overlap.
pub fn extract_tokens_strict_at_base(data: &[u8], base: usize, index: &[u16; 256]) -> (r: Result<
    (Vec<Vec<u8>>, usize),
    KallsymsError,
>)
    ensures
        match r {
            Ok((toks, size)) => spec_extract_tokens_strict(data@, base as int, index@) == Ok::<(Seq<Seq<u8>>, int), Seq<char>>((toks.deep_view(), size as int)),
            Err(e) => spec_extract_tokens_strict(data@, base as int, index@) matches Err(m) && is_invalid_format(e, m),
        },
{
    let ghost total = strict_tokens_from(data@, base as int, index@, 0);
    let mut tokens: Vec<Vec<u8>> = Vec::new();
    let mut last_end: usize = base;
    let mut i: usize = 0;
    while i < 256
        invariant
            i <= 256,
            total == strict_tokens_from(data@, base as int, index@, 0),
            total == prepend_tokens(tokens.deep_view(), strict_tokens_from(data@, base as int, index@, i as nat)),
            i > 0 ==> last_end == nul_from(data@, base + index@[i - 1]) + 1,
        decreases 256 - i,
    {
        let ghost here = strict_tokens_from(data@, base as int, index@, i as nat);
        let off = index[i] as usize;
        if base >= data.len() || off >= data.len() - base {
            assert(here == Err::<Seq<Seq<u8>>, Seq<char>>("token start OOB or before base"@));
            return Err(invalid_format("token start OOB or before base"));
        }
        let start = base + off;
        proof {
            lemma_nul_from(data@, start as int);
        }
        let mut z = start;
        while z < data.len() && data[z] != 0
            invariant
                start <= z <= data@.len(),
                nul_from(data@, start as int) == nul_from(data@, z as int),
            decreases data@.len() - z,
        {
            z += 1;
        }
        assert(z == nul_from(data@, start as int));
        if z >= data.len() {
            assert(here == Err::<Seq<Seq<u8>>, Seq<char>>("token end not found"@));
            return Err(invalid_format("token end not found"));
        }
        if i < 255 {
            let next = index[i + 1] as usize;
            if z - base > next {
                assert(here == Err::<Seq<Seq<u8>>, Seq<char>>("token overflows into next"@));
                return Err(invalid_format("token overflows into next"));
            }
        }
        let tok = slice_to_vec(slice_subrange(data, start, z));
        let ghost before = tokens.deep_view();
        tokens.push(tok);
        assert(tok.deep_view() =~= tok@);
        assert(tokens.deep_view() =~= before + seq![data@.subrange(start as int, z as int)]);
        last_end = z + 1;
        i += 1;
        proof {
            match strict_tokens_from(data@, base as int, index@, i as nat) {
                Ok(r) => {
                    assert(before + (seq![data@.subrange(start as int, z as int)] + r) =~= (before + seq![data@.subrange(start as int, z as int)]) + r);
                }
                Err(e) => {}
            }
        }
    }
    assert(tokens.deep_view() + Seq::<Seq<u8>>::empty() =~= tokens.deep_view());
    let size = last_end.saturating_sub(base);
    proof {
        lemma_nul_from(data@, base + index@[255]);
    }
    Ok((tokens, size))
}

/// The names block entries sampled for scoring, at most `cap` of them.
pub open spec fn sampled_entries(d: Seq<u8>, names_off: int, names_size: int, num_syms: int, cap: int) -> Seq<Seq<u8>> {
    name_entries(d, names_off, names_off + names_size, if num_syms <= cap { num_syms as nat } else { cap as nat })
}

/// The sampled entries decoded with the raw token table (`tokens[b]`).
pub open spec fn raw_decoded(tokens: Seq<Seq<u8>>, entries: Seq<Seq<u8>>) -> Seq<Seq<u8>> {
    decoded_nonempty(DecodeVariant::V1TokensRaw, tokens, Seq::empty(), Seq::empty(), entries)
}

/// Strict plausibility of the first 256 names decoded with `tokens[b]`.
pub open spec fn spec_score_strict(d: Seq<u8>, names_off: int, names_size: int, num_syms: int, tokens: Seq<Seq<u8>>) -> Score {
    let e = sampled_entries(d, names_off, names_size, num_syms, 256);
    strict_score(e.len() as int, raw_decoded(tokens, e))
}

/// Light plausibility of the first 96 names decoded with `tokens[b]`.
pub open spec fn spec_score_light(d: Seq<u8>, names_off: int, names_size: int, num_syms: int, tokens: Seq<Seq<u8>>) -> Score {
    let e = sampled_entries(d, names_off, names_size, num_syms, 96);
    light_score(e.len() as int, raw_decoded(tokens, e))
}

proof fn lemma_raw_expand_independent(tokens: Seq<Seq<u8>>, i1: Seq<u16>, r1: Seq<u8>, i2: Seq<u16>, r2: Seq<u8>, b: Seq<u8>)
    ensures
        expand_bytes(DecodeVariant::V1TokensRaw, tokens, i1, r1, b) == expand_bytes(DecodeVariant::V1TokensRaw, tokens, i2, r2, b),
    decreases b.len(),
{
    if b.len() > 0 {
        lemma_raw_expand_independent(tokens, i1, r1, i2, r2, b.drop_last());
    }
}

proof fn lemma_raw_decoded_independent(tokens: Seq<Seq<u8>>, i1: Seq<u16>, r1: Seq<u8>, e: Seq<Seq<u8>>)
    ensures
        decoded_nonempty(DecodeVariant::V1TokensRaw, tokens, i1, r1, e) == raw_decoded(tokens, e),
    decreases e.len(),
{
    if e.len() > 0 {
        lemma_raw_decoded_independent(tokens, i1, r1, e.drop_last());
        lemma_raw_expand_independent(tokens, i1, r1, Seq::empty(), Seq::empty(), e.last().skip(1));
    }
}

/// Strict plausibility scoring with larger sample size and stronger penalties.
pub fn score_names_with_tokens_raw_strict(
    data: &[u8],
    names_off: usize,
    names_size: usize,
    num_syms: usize,
    tokens: &[Vec<u8>],
) -> (s: Score)
    requires
        samples_in_data(data@, names_off as int, names_size as int, num_syms as int, 256),
    ensures
        s == spec_score_strict(data@, names_off as int, names_size as int, num_syms as int, tokens.deep_view()),
        s.den > 0,
        s.num <= s.den <= 0x64_0000_0000,
{
    let samples = collect_name_samples(data, names_off, names_size, num_syms, 256);
    let zero_index = [0u16; 256];
    let no_remap: Vec<u8> = Vec::new();
    let c = tally_samples(samples.as_slice(), 256, DecodeVariant::V1TokensRaw, tokens, &zero_index, no_remap.as_slice());
    let ghost e = sample_views(samples@);
    proof {
        crate::names::lemma_name_entries_nonempty(data@, names_off as int, names_off + names_size, if num_syms <= 256 { num_syms as nat } else { 256 });
        assert(e.take(e.len() as int) =~= e);
        lemma_raw_decoded_independent(tokens.deep_view(), zero_index@, no_remap@, e);
    }
    strict_score_of(&c, Ghost(e.len() as int), Ghost(raw_decoded(tokens.deep_view(), e)))
}

/// Lightweight plausibility scoring with smaller sample and softer penalties.
pub fn score_names_with_tokens_raw(
    data: &[u8],
    names_off: usize,
    names_size: usize,
    num_syms: usize,
    tokens: &[Vec<u8>],
) -> (s: Score)
    requires
        samples_in_data(data@, names_off as int, names_size as int, num_syms as int, 96),
    ensures
        s == spec_score_light(data@, names_off as int, names_size as int, num_syms as int, tokens.deep_view()),
        s.den > 0,
        s.num <= s.den <= 0x64_0000_0000,
{
    let samples = collect_name_samples(data, names_off, names_size, num_syms, 96);
    let zero_index = [0u16; 256];
    let no_remap: Vec<u8> = Vec::new();
    let c = tally_samples(samples.as_slice(), 96, DecodeVariant::V1TokensRaw, tokens, &zero_index, no_remap.as_slice());
    let ghost e = sample_views(samples@);
    proof {
        crate::names::lemma_name_entries_nonempty(data@, names_off as int, names_off + names_size, if num_syms <= 96 { num_syms as nat } else { 96 });
        assert(e.take(e.len() as int) =~= e);
        lemma_raw_decoded_independent(tokens.deep_view(), zero_index@, no_remap@, e);
    }
    light_score_of(&c, Ghost(e.len() as int), Ghost(raw_decoded(tokens.deep_view(), e)))
}

} // verus!

verus! {

/// The `k`-th probed offset around `hint`: `hint + k - radius`, saturating
/// at `0` and `usize::MAX`.
pub open spec fn probe_offset(hint: int, k: int, radius: int) -> int {
    let o = hint + k - radius;
    if o < 0 {
        0
    } else if o > usize::MAX {
        usize::MAX as int
    } else {
        o
    }
}

fn probe_offset_exec(hint: usize, k: usize, radius: usize) -> (o: usize)
    requires
        k <= 2 * radius,
        radius <= 1024,
    ensures
        o == probe_offset(hint as int, k as int, radius as int),
{
    if k < radius {
        hint.saturating_sub(radius - k)
    } else {
        hint.saturating_add(k - radius)
    }
}

/// The entries never decrease.
pub open spec fn non_decreasing(a: Seq<u16>) -> bool {
    forall|i: int, j: int| 0 <= i <= j < a.len() ==> a[i] <= a[j]
}

/// A plausible token index: non-decreasing, its last entry within 64..=8192.
pub open spec fn index_plausible(a: Seq<u16>) -> bool {
    non_decreasing(a) && 64 <= a[255] <= 8192
}

/// Alignment bonus of an offset: 2 when 8-aligned, 1 when 4-aligned, else 0.
pub open spec fn alignment_bonus(off: int) -> int {
    if off % 8 == 0 {
        2
    } else if off % 4 == 0 {
        1
    } else {
        0
    }
}

/// `|a - b|`.
pub open spec fn abs_diff(a: int, b: int) -> int {
    if a >= b { a - b } else { b - a }
}

/// Score of a token index candidate:
/// `0.7 name + 0.2 bonus + 0.1 / (1 + dist) + (0.02 when little-endian)`.
pub open spec fn align_score(ns: Score, bonus: int, dist: int, little_endian: bool) -> Score {
    let f = 1 + dist;
    let df = ns.den * f;
    let le = if little_endian { 2 * df } else { 0 };
    Score {
        num: (70 * (ns.num * f) + 20 * bonus * df + 10 * ns.den + le) as u64,
        den: (100 * df) as u64,
    }
}

fn align_score_exec(ns: Score, bonus: u64, dist: u64, little_endian: bool) -> (s: Score)
    requires
        ns.num <= ns.den <= 0x64_0000_0000,
        ns.den > 0,
        bonus <= 2,
        dist <= 32,
    ensures
        s == align_score(ns, bonus as int, dist as int, little_endian),
        s.den > 0,
{
    let f = 1 + dist;
    assert(ns.den * f <= 0x64_0000_0000 * 33) by (nonlinear_arith)
        requires ns.den <= 0x64_0000_0000, f <= 33;
    assert(ns.num * f <= ns.den * f) by (nonlinear_arith)
        requires ns.num <= ns.den;
    assert(ns.den * f > 0) by (nonlinear_arith)
        requires ns.den > 0, f >= 1;
    let df = ns.den * f;
    let nf = ns.num * f;
    let le = if little_endian { 2 * df } else { 0 };
    assert(20 * bonus * df <= 40 * df) by (nonlinear_arith)
        requires bonus <= 2;
    let bd = 20 * bonus * df;
    Score { num: 70 * nf + bd + 10 * ns.den + le, den: 100 * df }
}

/// Plausibility of the names decoded with the tokens that `index` selects
/// in the table at `table_off` (zero when the tokens cannot be extracted).
pub open spec fn index_name_score(d: Seq<u8>, table_off: int, names_off: int, names_size: int, num_syms: int, index: Seq<u16>) -> Score {
    match spec_extract_tokens_strict(d, table_off, index) {
        Ok((t, _)) => spec_score_light(d, names_off, names_size, num_syms, t),
        Err(_) => Score { num: 0, den: 1 },
    }
}

/// The token index read at `off` in one byte order, with its score, when plausible.
pub open spec fn index_candidate(
    d: Seq<u8>, off: int, big_endian: bool, index_hint: int, table_off: int, names_off: int, names_size: int, num_syms: int,
) -> Option<(Seq<u16>, Score)> {
    let a = spec_token_index(d, off, big_endian);
    if !index_plausible(a) {
        None
    } else {
        Some((a, align_score(index_name_score(d, table_off, names_off, names_size, num_syms, a), alignment_bonus(off),
            abs_diff(off, index_hint), !big_endian)))
    }
}

/// The better of two scored candidates; `second` wins ties when
/// `second_wins_ties`.
pub open spec fn better_of<T>(first: Option<(T, Score)>, second: Option<(T, Score)>, second_wins_ties: bool) -> Option<(T, Score)> {
    match first {
        None => second,
        Some(a) => match second {
            None => Some(a),
            Some(b) => if score_gt(b.1, a.1) || (second_wins_ties && !score_gt(a.1, b.1)) { Some(b) } else { Some(a) },
        },
    }
}

/// The candidate at an even offset whose full index lies in the data:
/// little-endian unless big-endian scores strictly higher.
pub open spec fn offset_candidate(
    d: Seq<u8>, off: int, index_hint: int, table_off: int, names_off: int, names_size: int, num_syms: int,
) -> Option<(Seq<u16>, Score)> {
    if !(off % 2 == 0 && off + 512 <= d.len()) {
        None
    } else {
        better_of(
            index_candidate(d, off, false, index_hint, table_off, names_off, names_size, num_syms),
            index_candidate(d, off, true, index_hint, table_off, names_off, names_size, num_syms),
            false,
        )
    }
}

/// The best candidate over the first `k` probed offsets (the later one wins ties).
pub open spec fn best_index_candidate(
    d: Seq<u8>, k: nat, index_hint: int, table_off: int, names_off: int, names_size: int, num_syms: int,
) -> Option<(Seq<u16>, Score)>
    decreases k,
{
    if k == 0 {
        None
    } else {
        better_of(
            best_index_candidate(d, (k - 1) as nat, index_hint, table_off, names_off, names_size, num_syms),
            offset_candidate(d, probe_offset(index_hint, k - 1, 32), index_hint, table_off, names_off, names_size, num_syms),
            true,
        )
    }
}

/// The token index chosen among the 65 offsets within 32 bytes of the hint.
pub open spec fn spec_align_token_index(
    d: Seq<u8>, index_hint: int, table_off: int, names_off: int, names_size: int, num_syms: int,
) -> Option<(Seq<u16>, Score)> {
    best_index_candidate(d, 65, index_hint, table_off, names_off, names_size, num_syms)
}

/// At `off`, in one byte order, a plausible token index is read whose
/// tokens extract at `table_off`: the candidate's names get scored.
pub open spec fn index_scored_at(d: Seq<u8>, off: int, big_endian: bool, table_off: int) -> bool {
    let a = spec_token_index(d, off, big_endian);
    &&& off % 2 == 0
    &&& off + 512 <= d.len()
    &&& index_plausible(a)
    &&& spec_extract_tokens_strict(d, table_off, a) is Ok
}

/// Some probed offset within 32 bytes of the hint gets its names scored.
pub open spec fn index_scoring_reached(d: Seq<u8>, index_hint: int, table_off: int) -> bool {
    exists|k: int, big_endian: bool| 0 <= k < 65 && #[trigger] index_scored_at(d, probe_offset(index_hint, k, 32), big_endian, table_off)
}

fn is_non_decreasing(a: &[u16; 256]) -> (r: bool)
    ensures
        r == non_decreasing(a@),
{
    let mut i: usize = 1;
    while i < 256
        invariant
            1 <= i <= 256,
            forall|x: int, y: int| 0 <= x <= y < i ==> a@[x] <= a@[y],
        decreases 256 - i,
    {
        if a[i - 1] > a[i] {
            return false;
        }
        i += 1;
    }
    true
}

fn index_candidate_exec(
    data: &[u8], off: usize, big_endian: bool, index_hint: usize, table_off: usize, names_off: usize, names_size: usize, num_syms: usize,
) -> (r: Option<([u16; 256], Score)>)
    requires
        off % 2 == 0,
        off + 512 <= data@.len(),
        index_scored_at(data@, off as int, big_endian, table_off as int)
            ==> samples_in_data(data@, names_off as int, names_size as int, num_syms as int, 96),
        abs_diff(off as int, index_hint as int) <= 32,
    ensures
        match r {
            Some((a, s)) => index_candidate(data@, off as int, big_endian, index_hint as int, table_off as int, names_off as int, names_size as int, num_syms as int) == Some((a@, s)),
            None => index_candidate(data@, off as int, big_endian, index_hint as int, table_off as int, names_off as int, names_size as int, num_syms as int) is None,
        },
{
    let arr = match read_token_index_exact(data, off, big_endian) {
        Ok(v) => v,
        Err(_) => return None,
    };
    if !is_non_decreasing(&arr) || arr[255] < 64 || arr[255] > 8192 {
        return None;
    }
    assert(index_plausible(arr@));
    let name_score = match extract_tokens_strict_at_base(data, table_off, &arr) {
        Ok((toks, _)) => score_names_with_tokens_raw(data, names_off, names_size, num_syms, toks.as_slice()),
        Err(_) => Score { num: 0, den: 1 },
    };
    let bonus: u64 = if off % 8 == 0 { 2 } else if off % 4 == 0 { 1 } else { 0 };
    let dist: u64 = if off >= index_hint { (off - index_hint) as u64 } else { (index_hint - off) as u64 };
    Some((arr, align_score_exec(name_score, bonus, dist, !big_endian)))
}

/// Align and read the 256x u16 token_index array within ±32 bytes of the hint.
/// Uses name plausibility to break ties and prefers 8-byte alignment.
pub fn align_and_read_token_index(
    data: &[u8],
    index_off_hint: usize,
    table_off_hint: usize,
    names_off: usize,
    names_size: usize,
    num_syms: usize,
) -> (r: Result<[u16; 256], KallsymsError>)
    requires
        index_scoring_reached(data@, index_off_hint as int, table_off_hint as int)
            ==> samples_in_data(data@, names_off as int, names_size as int, num_syms as int, 96),
    ensures
        match r {
            Ok(a) => spec_align_token_index(data@, index_off_hint as int, table_off_hint as int, names_off as int, names_size as int, num_syms as int) matches Some(c) && a@ == c.0,
            Err(e) => spec_align_token_index(data@, index_off_hint as int, table_off_hint as int, names_off as int, names_size as int, num_syms as int) is None
                && is_invalid_format(e, "token index alignment failed"@),
        },
{
    let ghost hint = index_off_hint as int;
    let ghost toff = table_off_hint as int;
    let mut best: Option<([u16; 256], Score)> = None;
    let mut k: usize = 0;
    while k < 65
        invariant
            k <= 65,
            hint == index_off_hint,
            toff == table_off_hint,
            index_scoring_reached(data@, hint, toff)
                ==> samples_in_data(data@, names_off as int, names_size as int, num_syms as int, 96),
            match best {
                Some((a, s)) => best_index_candidate(data@, k as nat, hint, toff, names_off as int, names_size as int, num_syms as int) == Some((a@, s)),
                None => best_index_candidate(data@, k as nat, hint, toff, names_off as int, names_size as int, num_syms as int) is None,
            },
        decreases 65 - k,
    {
        let off = probe_offset_exec(index_off_hint, k, 32);
        let mut here: Option<([u16; 256], Score)> = None;
        if off % 2 == 0 && data.len() >= 512 && off <= data.len() - 512 {
            proof {
                if index_scored_at(data@, off as int, false, toff) {
                    assert(index_scored_at(data@, probe_offset(hint, k as int, 32), false, toff));
                }
                if index_scored_at(data@, off as int, true, toff) {
                    assert(index_scored_at(data@, probe_offset(hint, k as int, 32), true, toff));
                }
            }
            let le = index_candidate_exec(data, off, false, index_off_hint, table_off_hint, names_off, names_size, num_syms);
            let be = index_candidate_exec(data, off, true, index_off_hint, table_off_hint, names_off, names_size, num_syms);
            here = match le {
                None => be,
                Some(l) => match be {
                    None => Some(l),
                    Some(b) => if score_greater(b.1, l.1) { Some(b) } else { Some(l) },
                },
            };
        }
        best = match best {
            None => here,
            Some(p) => match here {
                None => Some(p),
                Some(h) => if score_greater(h.1, p.1) || !score_greater(p.1, h.1) { Some(h) } else { Some(p) },
            },
        };
        k += 1;
    }
    match best {
        Some((arr, _)) => Ok(arr),
        None => Err(invalid_format("token index alignment failed")),
    }
}

} // verus!

verus! {

/// `(off + 3) & !3`: `off` rounded up to a multiple of 4.
pub open spec fn round_up4(off: int) -> int {
    (off + 3) - (off + 3) % 4
}

/// Score of a token table candidate holding all 256 tokens:
/// `0.2 + 0.7 name + 0.1 * 1.5 / (1 + delta)`.
pub open spec fn extract_score(ns: Score, delta: int) -> Score {
    let f = 1 + delta;
    let df = ns.den * f;
    Score { num: (20 * df + 70 * (ns.num * f) + 15 * ns.den) as u64, den: (100 * df) as u64 }
}

fn extract_score_exec(ns: Score, delta: u64) -> (s: Score)
    requires
        ns.num <= ns.den <= 0x64_0000_0000,
        ns.den > 0,
        delta <= 1024,
    ensures
        s == extract_score(ns, delta as int),
        s.den > 0,
{
    let f = 1 + delta;
    assert(ns.den * f <= 0x64_0000_0000 * 1025) by (nonlinear_arith)
        requires ns.den <= 0x64_0000_0000, f <= 1025;
    assert(ns.num * f <= ns.den * f) by (nonlinear_arith)
        requires ns.num <= ns.den;
    assert(ns.den * f > 0) by (nonlinear_arith)
        requires ns.den > 0, f >= 1;
    let df = ns.den * f;
    let nf = ns.num * f;
    Score { num: 20 * df + 70 * nf + 15 * ns.den, den: 100 * df }
}

/// The tokens at table base `off` (inside the data), with the base, the
/// table size and the candidate's score.
pub open spec fn table_candidate(
    d: Seq<u8>, off: int, table_hint: int, index: Seq<u16>, names_off: int, names_size: int, num_syms: int,
) -> Option<((Seq<Seq<u8>>, int, int), Score)> {
    if off >= d.len() {
        None
    } else {
        match spec_extract_tokens_strict(d, off, index) {
            Err(_) => None,
            Ok((t, size)) => Some((
                (t, off, size),
                extract_score(spec_score_strict(d, names_off, names_size, num_syms, t), abs_diff(round_up4(off), table_hint)),
            )),
        }
    }
}

/// The best table candidate over the first `k` probed bases (the later one
/// wins ties).
pub open spec fn best_table_candidate(
    d: Seq<u8>, k: nat, table_hint: int, index: Seq<u16>, names_off: int, names_size: int, num_syms: int,
) -> Option<((Seq<Seq<u8>>, int, int), Score)>
    decreases k,
{
    if k == 0 {
        None
    } else {
        better_of(
            best_table_candidate(d, (k - 1) as nat, table_hint, index, names_off, names_size, num_syms),
            table_candidate(d, probe_offset(table_hint, k - 1, 512), table_hint, index, names_off, names_size, num_syms),
            true,
        )
    }
}

proof fn lemma_best_table_in_data(
    d: Seq<u8>, k: nat, table_hint: int, index: Seq<u16>, names_off: int, names_size: int, num_syms: int,
)
    ensures
        best_table_candidate(d, k, table_hint, index, names_off, names_size, num_syms) matches Some(c) ==> 0 <= c.0.1 < d.len(),
    decreases k,
{
    if k > 0 {
        lemma_best_table_in_data(d, (k - 1) as nat, table_hint, index, names_off, names_size, num_syms);
    }
}

/// Some base within 512 bytes of the hint yields all 256 tokens, so that
/// the names get scored.
pub open spec fn table_scoring_reached(d: Seq<u8>, table_hint: int, index: Seq<u16>) -> bool {
    exists|k: int| 0 <= k < 1025 && #[trigger] table_scored_at(d, probe_offset(table_hint, k, 512), index)
}

/// The tokens extract at base `off` inside the data.
pub open spec fn table_scored_at(d: Seq<u8>, off: int, index: Seq<u16>) -> bool {
    off < d.len() && spec_extract_tokens_strict(d, off, index) is Ok
}

/// The token table chosen among the 1025 bases within 512 bytes of the hint.
pub open spec fn spec_extract_tokens_validated(
    d: Seq<u8>, table_hint: int, index: Seq<u16>, names_off: int, names_size: int, num_syms: int,
) -> Option<((Seq<Seq<u8>>, int, int), Score)> {
    best_table_candidate(d, 1025, table_hint, index, names_off, names_size, num_syms)
}

/// Locate the correct token_table base near the hint and extract all 256 tokens.
/// Validates token boundary ordering and scores name plausibility.
/// Returns (tokens, table base, table size).
pub fn extract_tokens_with_name_validation(
    data: &[u8],
    table_off_hint: usize,
    index: &[u16; 256],
    names_off: usize,
    names_size: usize,
    num_syms: usize,
) -> (r: Result<(Vec<Vec<u8>>, usize, usize), KallsymsError>)
    requires
        fits_in_memory(data@.len()),
        table_scoring_reached(data@, table_off_hint as int, index@)
            ==> samples_in_data(data@, names_off as int, names_size as int, num_syms as int, 256),
    ensures
        match r {
            Ok((toks, off, size)) => spec_extract_tokens_validated(data@, table_off_hint as int, index@, names_off as int, names_size as int, num_syms as int) matches Some(c)
                && toks.deep_view() == c.0.0 && off == c.0.1 && size == c.0.2 && off < data@.len(),
            Err(e) => spec_extract_tokens_validated(data@, table_off_hint as int, index@, names_off as int, names_size as int, num_syms as int) is None
                && is_invalid_format(e, "token table alignment not found"@),
        },
{
    let ghost hint = table_off_hint as int;
    let mut best: Option<((Vec<Vec<u8>>, usize, usize), Score)> = None;
    let mut k: usize = 0;
    while k < 1025
        invariant
            k <= 1025,
            hint == table_off_hint,
            fits_in_memory(data@.len()),
            table_scoring_reached(data@, hint, index@)
                ==> samples_in_data(data@, names_off as int, names_size as int, num_syms as int, 256),
            match best {
                Some((c, s)) => best_table_candidate(data@, k as nat, hint, index@, names_off as int, names_size as int, num_syms as int)
                    == Some(((c.0.deep_view(), c.1 as int, c.2 as int), s)),
                None => best_table_candidate(data@, k as nat, hint, index@, names_off as int, names_size as int, num_syms as int) is None,
            },
        decreases 1025 - k,
    {
        let off = probe_offset_exec(table_off_hint, k, 512);
        let mut here: Option<((Vec<Vec<u8>>, usize, usize), Score)> = None;
        if off < data.len() {
            match extract_tokens_strict_at_base(data, off, index) {
                Ok((tokens, size)) => {
                    assert(table_scored_at(data@, probe_offset(hint, k as int, 512), index@));
                    let name_score = score_names_with_tokens_raw_strict(data, names_off, names_size, num_syms, tokens.as_slice());
                    let off4 = off + 3 - (off + 3) % 4;
                    let delta: u64 = if off4 >= table_off_hint { (off4 - table_off_hint) as u64 } else { (table_off_hint - off4) as u64 };
                    let score = extract_score_exec(name_score, delta);
                    here = Some(((tokens, off, size), score));
                },
                Err(_) => {},
            }
        }
        best = match best {
            None => here,
            Some(p) => match here {
                None => Some(p),
                Some(h) => if score_greater(h.1, p.1) || !score_greater(p.1, h.1) { Some(h) } else { Some(p) },
            },
        };
        k += 1;
    }
    proof {
        lemma_best_table_in_data(data@, 1025, hint, index@, names_off as int, names_size as int, num_syms as int);
    }
    match best {
        Some((c, _)) => Ok(c),
        None => Err(invalid_format("token table alignment not found")),
    }
}

} // verus!
