//! Name decoder selection (V1..V4) and full name decoding.

use vstd::prelude::*;
use vstd::slice::slice_subrange;
use crate::names::{collect_name_samples, entries_in_data, name_entries, samples_in_data};
use crate::error::{KallsymsError, invalid_format, is_invalid_format};
use crate::helpers::{is_valid_symbol_name_bytes, lemma_count_where_step, starts_with_any};
use crate::score::{NameCounts, Score, counts_of, score_gt, score_greater, score_lt_frac, strategy_score, strategy_score_of, lemma_counts_bounded, out_is_ok, out_prefix_hit, out_short_bad_light, out_short_bad_strict, out_very_short, spec_common_prefixes, common_prefixes, prefix_slices};

verus! {

/// Supported decode variants:
/// - V1: tokens[b]
/// - V2: tokens[token_index[b]]
/// - V3: tokens[remap[b]]
/// - V4: tokens[token_index[remap[b]]]
#[derive(Clone, Copy, Debug, PartialEq, Eq, Structural)]
pub enum DecodeVariant {
    V1TokensRaw,
    V2TokensViaIndex,
    V3TokensViaRemap,
    V4TokensViaIndexRemap,
}

/// The variant reads a remap table.
pub open spec fn uses_remap(v: DecodeVariant) -> bool {
    v is V3TokensViaRemap || v is V4TokensViaIndexRemap
}

/// The token number that an encoded byte `b` selects.
pub open spec fn token_slot(v: DecodeVariant, index: Seq<u16>, remap: Seq<u8>, b: u8) -> int {
    match v {
        DecodeVariant::V1TokensRaw => b as int,
        DecodeVariant::V2TokensViaIndex => index[b as int] as int,
        DecodeVariant::V3TokensViaRemap => remap[b as int] as int,
        DecodeVariant::V4TokensViaIndexRemap => index[remap[b as int] as int] as int,
    }
}

/// The token in `slot`, or nothing when there is no such token.
pub open spec fn token_or_empty(tokens: Seq<Seq<u8>>, slot: int) -> Seq<u8> {
    if 0 <= slot < tokens.len() {
        tokens[slot]
    } else {
        Seq::empty()
    }
}

/// The concatenation of the tokens that `bytes` select.
pub open spec fn expand_bytes(
    v: DecodeVariant,
    tokens: Seq<Seq<u8>>,
    index: Seq<u16>,
    remap: Seq<u8>,
    bytes: Seq<u8>,
) -> Seq<u8>
    decreases bytes.len(),
{
    if bytes.len() == 0 {
        Seq::empty()
    } else {
        expand_bytes(v, tokens, index, remap, bytes.drop_last()) + token_or_empty(
            tokens,
            token_slot(v, index, remap, bytes.last()),
        )
    }
}

/// A decoded entry: its first (type) byte kept as is, followed by the
/// expansion of the remaining bytes.
pub open spec fn decode_entry(
    v: DecodeVariant,
    tokens: Seq<Seq<u8>>,
    index: Seq<u16>,
    remap: Seq<u8>,
    enc: Seq<u8>,
) -> Seq<u8> {
    seq![enc[0]] + expand_bytes(v, tokens, index, remap, enc.skip(1))
}

/// The decoded non-empty samples, in order.
pub open spec fn decoded_nonempty(
    v: DecodeVariant,
    tokens: Seq<Seq<u8>>,
    index: Seq<u16>,
    remap: Seq<u8>,
    samples: Seq<Seq<u8>>,
) -> Seq<Seq<u8>>
    decreases samples.len(),
{
    if samples.len() == 0 {
        Seq::empty()
    } else {
        let rest = decoded_nonempty(v, tokens, index, remap, samples.drop_last());
        if samples.last().len() == 0 {
            rest
        } else {
            rest.push(decode_entry(v, tokens, index, remap, samples.last()))
        }
    }
}

pub proof fn lemma_decoded_nonempty_len(
    v: DecodeVariant,
    tokens: Seq<Seq<u8>>,
    index: Seq<u16>,
    remap: Seq<u8>,
    samples: Seq<Seq<u8>>,
)
    ensures
        decoded_nonempty(v, tokens, index, remap, samples).len() <= samples.len(),
    decreases samples.len(),
{
    if samples.len() > 0 {
        lemma_decoded_nonempty_len(v, tokens, index, remap, samples.drop_last());
    }
}

/// Every byte after the type byte of every entry is below `n`: a remap
/// table of `n` bytes covers them.
pub open spec fn bytes_below(entries: Seq<Seq<u8>>, n: int) -> bool {
    forall|i: int, j: int| 0 <= i < entries.len() && 1 <= j < entries[i].len() ==> (#[trigger] entries[i][j]) < n
}

/// Appends `src` to `out`.
pub fn append_bytes(out: &mut Vec<u8>, src: &[u8])
    ensures
        final(out)@ == old(out)@ + src@,
{
    let ghost start = out@;
    let mut i: usize = 0;
    while i < src.len()
        invariant
            i <= src@.len(),
            out@ == start + src@.take(i as int),
        decreases src@.len() - i,
    {
        out.push(src[i]);
        i += 1;
        assert(out@ =~= start + src@.take(i as int));
    }
    assert(src@.take(i as int) =~= src@);
}

/// Decodes one encoded entry with the given variant.
pub fn decode_entry_exec(
    variant: DecodeVariant,
    tokens: &[Vec<u8>],
    token_index: &[u16; 256],
    remap: &[u8],
    enc: &[u8],
) -> (out: Vec<u8>)
    requires
        enc@.len() >= 1,
        uses_remap(variant) ==> bytes_below(seq![enc@], remap@.len() as int),
    ensures
        out@ == decode_entry(variant, tokens.deep_view(), token_index@, remap@, enc@),
{
    let ghost toks = tokens.deep_view();
    let mut out: Vec<u8> = Vec::new();
    out.push(enc[0]);
    let mut k: usize = 1;
    while k < enc.len()
        invariant
            1 <= k <= enc@.len(),
            uses_remap(variant) ==> bytes_below(seq![enc@], remap@.len() as int),
            toks == tokens.deep_view(),
            out@ == seq![enc@[0]] + expand_bytes(variant, toks, token_index@, remap@, enc@.subrange(1, k as int)),
        decreases enc@.len() - k,
    {
        let b = enc[k];
        proof {
            if uses_remap(variant) {
                assert(seq![enc@][0][k as int] < remap@.len());
            }
        }
        let slot: usize = match variant {
            DecodeVariant::V1TokensRaw => b as usize,
            DecodeVariant::V2TokensViaIndex => token_index[b as usize] as usize,
            DecodeVariant::V3TokensViaRemap => remap[b as usize] as usize,
            DecodeVariant::V4TokensViaIndexRemap => token_index[remap[b as usize] as usize] as usize,
        };
        assert(slot == token_slot(variant, token_index@, remap@, b));
        if slot < tokens.len() {
            append_bytes(&mut out, tokens[slot].as_slice());
            assert(toks[slot as int] == tokens@[slot as int]@);
        }
        k += 1;
        assert(enc@.subrange(1, k as int).drop_last() =~= enc@.subrange(1, k - 1));
        assert(enc@.subrange(1, k as int).last() == b);
        assert(out@ =~= seq![enc@[0]] + expand_bytes(variant, toks, token_index@, remap@, enc@.subrange(1, k as int)));
    }
    assert(enc@.subrange(1, enc@.len() as int) =~= enc@.skip(1));
    out
}

/// The samples, viewed as byte sequences.
pub open spec fn sample_views(samples: Seq<&[u8]>) -> Seq<Seq<u8>> {
    samples.map_values(|s: &[u8]| s@)
}

/// Counts the decoded classes of the first `limit` samples.
pub fn tally_samples(
    samples: &[&[u8]],
    limit: usize,
    variant: DecodeVariant,
    tokens: &[Vec<u8>],
    token_index: &[u16; 256],
    remap: &[u8],
) -> (c: NameCounts)
    requires
        uses_remap(variant) ==> bytes_below(
            sample_views(samples@).take(if limit <= samples@.len() { limit as int } else { samples@.len() as int }),
            remap@.len() as int,
        ),
        limit <= 0x1_0000_0000,
    ensures
        ({
            let taken = sample_views(samples@).take(if limit <= samples@.len() { limit as int } else { samples@.len() as int });
            counts_of(c, taken.len() as int, decoded_nonempty(variant, tokens.deep_view(), token_index@, remap@, taken))
        }),
{
    let n = if limit <= samples.len() { limit } else { samples.len() };
    let ghost all = sample_views(samples@);
    let ghost toks = tokens.deep_view();
    let prefix_store = common_prefixes();
    let prefixes = prefix_slices(&prefix_store);
    let mut c = NameCounts { total: 0, ok: 0, prefix_hits: 0, very_short: 0, short_bad_strict: 0, short_bad_light: 0 };
    let mut i: usize = 0;
    while i < n
        invariant
            n <= samples@.len(),
            n <= 0x1_0000_0000,
            i <= n,
            all == sample_views(samples@),
            toks == tokens.deep_view(),
            uses_remap(variant) ==> bytes_below(all.take(n as int), remap@.len() as int),
            prefixes@.map_values(|p: &[u8]| p@) == spec_common_prefixes(),
            counts_of(c, i as int, decoded_nonempty(variant, toks, token_index@, remap@, all.take(i as int))),
        decreases n - i,
    {
        let enc = samples[i];
        let ghost outs0 = decoded_nonempty(variant, toks, token_index@, remap@, all.take(i as int));
        assert(all.take(i + 1).drop_last() =~= all.take(i as int));
        assert(all.take(i + 1).last() == enc@);
        proof {
            lemma_decoded_nonempty_len(variant, toks, token_index@, remap@, all.take(i as int));
            lemma_counts_bounded(outs0);
        }
        c.total = c.total + 1;
        if enc.len() > 0 {
            proof {
                if uses_remap(variant) {
                    assert forall|a: int, j: int| 0 <= a < 1 && 1 <= j < seq![enc@][a].len()
                        implies (#[trigger] seq![enc@][a][j]) < remap@.len() by {
                        assert(all.take(n as int)[i as int] == enc@);
                        assert(all.take(n as int)[i as int][j] < remap@.len());
                    }
                }
            }
            let out = decode_entry_exec(variant, tokens, token_index, remap, enc);
            let ghost outs1 = outs0.push(out@);
            assert(outs1.drop_last() =~= outs0);
            proof {
                lemma_count_where_step(outs1, |o: Seq<u8>| out_is_ok(o), outs0.len() as int);
                lemma_count_where_step(outs1, |o: Seq<u8>| out_prefix_hit(o), outs0.len() as int);
                lemma_count_where_step(outs1, |o: Seq<u8>| out_very_short(o), outs0.len() as int);
                lemma_count_where_step(outs1, |o: Seq<u8>| out_short_bad_strict(o), outs0.len() as int);
                lemma_count_where_step(outs1, |o: Seq<u8>| out_short_bad_light(o), outs0.len() as int);
                assert(outs1.take(outs0.len() as int) =~= outs0);
                assert(outs1.take(outs1.len() as int) =~= outs1);
            }
            if out.len() < 3 {
                c.very_short = c.very_short + 1;
                c.short_bad_light = c.short_bad_light + 1;
            } else {
                let name = slice_subrange(out.as_slice(), 1, out.len());
                assert(name@ =~= out@.skip(1));
                if out.len() == 3 {
                    c.very_short = c.very_short + 1;
                }
                if is_valid_symbol_name_bytes(name) {
                    c.ok = c.ok + 1;
                    if starts_with_any(name, prefixes.as_slice()) {
                        c.prefix_hits = c.prefix_hits + 1;
                    }
                } else if out.len() <= 6 {
                    c.short_bad_strict = c.short_bad_strict + 1;
                    c.short_bad_light = c.short_bad_light + 1;
                }
            }
        }
        i += 1;
    }
    c
}

} // verus!

verus! {

/// No byte occurs twice in `s`.
pub open spec fn all_distinct(s: Seq<u8>) -> bool {
    forall|i: int, j: int| 0 <= i < j < s.len() ==> s[i] != s[j]
}

/// A remap table: exactly 256 bytes, each value once.
pub open spec fn is_permutation_256(s: Seq<u8>) -> bool {
    s.len() == 256 && all_distinct(s)
}

/// Validate that a 256-byte slice is a proper permutation (each value unique).
pub fn try_read_permutation(slice: &[u8]) -> (r: Option<[u8; 256]>)
    ensures
        match r {
            Some(a) => is_permutation_256(slice@) && a@ == slice@,
            None => !is_permutation_256(slice@),
        },
{
    if slice.len() != 256 {
        return None;
    }
    let mut seen = [false; 256];
    let mut i: usize = 0;
    while i < 256
        invariant
            slice@.len() == 256,
            0 <= i <= 256,
            all_distinct(slice@.take(i as int)),
            forall|v: int| 0 <= v < 256 ==> (#[trigger] seen@[v] <==> exists|j: int| 0 <= j < i && slice@[j] == v),
        decreases 256 - i,
    {
        let b = slice[i];
        if seen[b as usize] {
            proof {
                let j = choose|j: int| 0 <= j < i && slice@[j] == b;
                assert(slice@[j] == slice@[i as int]);
            }
            return None;
        }
        seen[b as usize] = true;
        proof {
            assert forall|v: int| 0 <= v < 256 implies (#[trigger] seen@[v] <==> exists|j: int| 0 <= j < i + 1 && slice@[j] == v) by {
                if v == b {
                    assert(slice@[i as int] == v);
                }
            }
            assert forall|x: int, y: int| 0 <= x < y < i + 1 implies #[trigger] slice@.take(i + 1)[x] != #[trigger] slice@.take(i + 1)[y] by {
                if y == i {
                    if slice@[x] == slice@[y] {
                        assert(seen@[b as int]);
                    }
                } else {
                    assert(slice@.take(i as int)[x] != slice@.take(i as int)[y]);
                }
            }
        }
        i += 1;
    }
    assert(slice@.take(256) =~= slice@);
    let mut rem = [0u8; 256];
    let mut k: usize = 0;
    while k < 256
        invariant
            slice@.len() == 256,
            0 <= k <= 256,
            forall|j: int| 0 <= j < k ==> rem@[j] == slice@[j],
        decreases 256 - k,
    {
        rem[k] = slice[k];
        k += 1;
    }
    assert(rem@ =~= slice@);
    Some(rem)
}

/// Up to `budget` remap tables found at `off`, `off + 1`, ... while a table
/// still fits before `end`.
pub open spec fn scan_permutations(d: Seq<u8>, off: int, end: int, budget: nat) -> Seq<(usize, Seq<u8>)>
    decreases end - off,
{
    if budget == 0 || off + 256 > end {
        Seq::empty()
    } else if is_permutation_256(d.subrange(off, off + 256)) {
        seq![(off as usize, d.subrange(off, off + 256))] + scan_permutations(d, off + 1, end, (budget - 1) as nat)
    } else {
        scan_permutations(d, off + 1, end, budget)
    }
}

/// Remap tables within `window` bytes of `center` (clipped to the data).
pub open spec fn permutations_near(d: Seq<u8>, center: int, window: int) -> Seq<(usize, Seq<u8>)> {
    let start = if center >= window { center - window } else { 0 };
    let end = if center + window <= d.len() { center + window } else { d.len() as int };
    scan_permutations(d, start, end, 4)
}

/// The remap candidates: up to four near the token table, or, when there
/// are none there, up to four near the names.
pub open spec fn spec_detect_remaps(d: Seq<u8>, token_table_off: int, names_off: int, window: int) -> Seq<(usize, Seq<u8>)> {
    let near_table = permutations_near(d, token_table_off, window);
    if near_table.len() > 0 {
        near_table
    } else {
        permutations_near(d, names_off, window)
    }
}

/// The remap candidates with each table viewed as a sequence.
pub open spec fn remap_views(r: Seq<(usize, [u8; 256])>) -> Seq<(usize, Seq<u8>)> {
    r.map_values(|p: (usize, [u8; 256])| (p.0, p.1@))
}

pub proof fn lemma_scan_permutations_len(d: Seq<u8>, off: int, end: int, budget: nat)
    ensures
        scan_permutations(d, off, end, budget).len() <= budget,
    decreases end - off,
{
    if !(budget == 0 || off + 256 > end) {
        if is_permutation_256(d.subrange(off, off + 256)) {
            lemma_scan_permutations_len(d, off + 1, end, (budget - 1) as nat);
        } else {
            lemma_scan_permutations_len(d, off + 1, end, budget);
        }
    }
}

fn scan_permutations_exec(data: &[u8], start: usize, end: usize, out: &mut Vec<(usize, [u8; 256])>)
    requires
        end <= data@.len(),
        old(out)@.len() == 0,
    ensures
        remap_views(final(out)@) == scan_permutations(data@, start as int, end as int, 4),
{
    let mut off = start;
    let ghost mut budget: nat = 4;
    loop
        invariant_except_break
            out@.len() < 4,
        invariant
            end <= data@.len(),
            budget == 4 - out@.len(),
            remap_views(out@) + scan_permutations(data@, off as int, end as int, budget)
                == scan_permutations(data@, start as int, end as int, 4),
        ensures
            remap_views(out@) == scan_permutations(data@, start as int, end as int, 4),
        decreases end - off,
    {
        if off > end || 256 > end - off {
            assert(remap_views(out@) =~= scan_permutations(data@, start as int, end as int, 4));
            break;
        }
        if let Some(rem) = try_read_permutation(slice_subrange(data, off, off + 256)) {
            let ghost before = remap_views(out@);
            let ghost old_budget = budget;
            out.push((off, rem));
            assert(remap_views(out@) =~= before + seq![(off as usize, data@.subrange(off as int, off + 256))]);
            proof {
                budget = (budget - 1) as nat;
                assert(scan_permutations(data@, off as int, end as int, old_budget) == seq![(off as usize, data@.subrange(off as int, off + 256))]
                    + scan_permutations(data@, off + 1, end as int, budget));
                assert(before + seq![(off as usize, data@.subrange(off as int, off + 256))]
                    + scan_permutations(data@, off + 1, end as int, budget)
                    =~= before + (seq![(off as usize, data@.subrange(off as int, off + 256))]
                    + scan_permutations(data@, off + 1, end as int, budget)));
            }
            if out.len() >= 4 {
                assert(scan_permutations(data@, off + 1, end as int, budget) =~= Seq::<(usize, Seq<u8>)>::empty());
                assert(remap_views(out@) =~= scan_permutations(data@, start as int, end as int, 4));
                break;
            }
        }
        off += 1;
    }
}

/// Search for 256-byte permutations near token_table or names that may act as remap tables.
pub fn detect_remap_candidates(data: &[u8], token_table_off: usize, names_off: usize, window: usize) -> (r: Vec<
    (usize, [u8; 256]),
>)
    requires
        token_table_off + window <= usize::MAX,
        names_off + window <= usize::MAX,
    ensures
        remap_views(r@) == spec_detect_remaps(data@, token_table_off as int, names_off as int, window as int),
{
    let mut out: Vec<(usize, [u8; 256])> = Vec::new();
    let start = token_table_off.saturating_sub(window);
    let end = if token_table_off + window <= data.len() { token_table_off + window } else { data.len() };
    scan_permutations_exec(data, start, end, &mut out);
    if out.len() > 0 {
        return out;
    }
    let start = names_off.saturating_sub(window);
    let end = if names_off + window <= data.len() { names_off + window } else { data.len() };
    scan_permutations_exec(data, start, end, &mut out);
    out
}

} // verus!

verus! {

/// The optional remap slice, viewed as a sequence.
pub open spec fn opt_slice_view(o: Option<&[u8]>) -> Option<Seq<u8>> {
    match o {
        Some(r) => Some(r@),
        None => None,
    }
}

/// The remap table to decode with (nothing when absent).
pub open spec fn remap_or_empty(o: Option<Seq<u8>>) -> Seq<u8> {
    match o {
        Some(r) => r,
        None => Seq::empty(),
    }
}

/// The first 192 samples (all of them when fewer).
pub open spec fn first_192(samples: Seq<Seq<u8>>) -> Seq<Seq<u8>> {
    samples.take(if samples.len() <= 192 { samples.len() as int } else { 192 })
}

/// Score of a decode strategy over the first 192 samples: zero without
/// samples, and zero for a remap variant without a remap table as soon as a
/// non-empty sample is met.
pub open spec fn spec_score_strategy(
    v: DecodeVariant,
    remap: Option<Seq<u8>>,
    tokens: Seq<Seq<u8>>,
    index: Seq<u16>,
    samples: Seq<Seq<u8>>,
) -> Score {
    let taken = first_192(samples);
    if samples.len() == 0 {
        Score { num: 0, den: 1 }
    } else if uses_remap(v) && remap is None && (exists|i: int| 0 <= i < taken.len() && #[trigger] taken[i].len() > 0) {
        Score { num: 0, den: 1 }
    } else {
        strategy_score(taken.len() as int, decoded_nonempty(v, tokens, index, remap_or_empty(remap), taken))
    }
}

pub proof fn lemma_decoded_all_empty(
    v: DecodeVariant,
    tokens: Seq<Seq<u8>>,
    index: Seq<u16>,
    remap: Seq<u8>,
    samples: Seq<Seq<u8>>,
)
    requires
        forall|i: int| 0 <= i < samples.len() ==> #[trigger] samples[i].len() == 0,
    ensures
        decoded_nonempty(v, tokens, index, remap, samples) == Seq::<Seq<u8>>::empty(),
    decreases samples.len(),
{
    if samples.len() > 0 {
        lemma_decoded_all_empty(v, tokens, index, remap, samples.drop_last());
    }
}

/// Score a strategy using sample names decoded with the provided tokens/index/remap.
pub fn score_strategy_names(
    variant: DecodeVariant,
    remap: Option<&[u8]>,
    tokens: &[Vec<u8>],
    token_index: &[u16; 256],
    samples: &[&[u8]],
) -> (s: Score)
    requires
        uses_remap(variant) && remap is Some ==> bytes_below(first_192(sample_views(samples@)), remap.unwrap()@.len() as int),
    ensures
        s == spec_score_strategy(variant, opt_slice_view(remap), tokens.deep_view(), token_index@, sample_views(samples@)),
        s.den > 0,
        s.num <= s.den <= 0x64_0000_0000,
{
    if samples.len() == 0 {
        return Score { num: 0, den: 1 };
    }
    let ghost all = sample_views(samples@);
    let ghost taken = first_192(all);
    let n: usize = if samples.len() <= 192 { samples.len() } else { 192 };
    let no_remap: Vec<u8> = Vec::new();
    let rem: &[u8] = match remap {
        Some(r) => r,
        None => {
            if variant == DecodeVariant::V3TokensViaRemap || variant == DecodeVariant::V4TokensViaIndexRemap {
                let mut i: usize = 0;
                while i < n
                    invariant
                        remap is None,
                        uses_remap(variant),
                        samples@.len() > 0,
                        n == taken.len(),
                        taken == first_192(all),
                        all == sample_views(samples@),
                        n <= samples@.len(),
                        i <= n,
                        forall|j: int| 0 <= j < i ==> #[trigger] taken[j].len() == 0,
                    decreases n - i,
                {
                    assert(taken[i as int] == samples@[i as int]@);
                    if samples[i].len() > 0 {
                        assert(taken[i as int].len() > 0);
                        return Score { num: 0, den: 1 };
                    }
                    i += 1;
                }
                proof {
                    lemma_decoded_all_empty(variant, tokens.deep_view(), token_index@, Seq::empty(), taken);
                    lemma_counts_bounded(Seq::empty());
                }
                let c = NameCounts { total: n as u64, ok: 0, prefix_hits: 0, very_short: 0, short_bad_strict: 0, short_bad_light: 0 };
                return strategy_score_of(&c, Ghost(n as int), Ghost(Seq::empty()));
            }
            no_remap.as_slice()
        },
    };
    let c = tally_samples(samples, 192, variant, tokens, token_index, rem);
    strategy_score_of(&c, Ghost(taken.len() as int), Ghost(decoded_nonempty(variant, tokens.deep_view(), token_index@, rem@, taken)))
}

} // verus!

verus! {

/// Selected decoding strategy and score.
#[derive(Clone, Copy, Debug)]
pub struct DecodeStrategy {
    pub variant: DecodeVariant,
    pub name: &'static str,
    pub remap: Option<[u8; 256]>,
    pub remap_offset: Option<usize>,
    pub score: Score,
}

/// How many remap candidates the strategy search uses (at most two).
pub open spec fn used_remaps(remaps: Seq<(usize, Seq<u8>)>) -> int {
    if remaps.len() <= 2 { remaps.len() as int } else { 2 }
}

/// Number of strategies tried: V1, V2, then V3 and V4 for each used remap.
pub open spec fn candidate_count(remaps: Seq<(usize, Seq<u8>)>) -> int {
    2 + 2 * used_remaps(remaps)
}

/// The variant of the `k`-th strategy tried.
pub open spec fn candidate_variant(remaps: Seq<(usize, Seq<u8>)>, k: int) -> DecodeVariant {
    if k == 0 {
        DecodeVariant::V1TokensRaw
    } else if k == 1 {
        DecodeVariant::V2TokensViaIndex
    } else if k < 2 + used_remaps(remaps) {
        DecodeVariant::V3TokensViaRemap
    } else {
        DecodeVariant::V4TokensViaIndexRemap
    }
}

/// Which remap candidate the `k`-th strategy uses (-1 for none).
pub open spec fn candidate_remap_index(remaps: Seq<(usize, Seq<u8>)>, k: int) -> int {
    if k < 2 {
        -1
    } else if k < 2 + used_remaps(remaps) {
        k - 2
    } else {
        k - 2 - used_remaps(remaps)
    }
}

/// The label of the `k`-th strategy tried.
pub open spec fn candidate_label(remaps: Seq<(usize, Seq<u8>)>, k: int) -> Seq<char> {
    let v = candidate_variant(remaps, k);
    let second = candidate_remap_index(remaps, k) == 1;
    match v {
        DecodeVariant::V1TokensRaw => "V1(tokens[b])"@,
        DecodeVariant::V2TokensViaIndex => "V2(tokens[token_index[b]])"@,
        DecodeVariant::V3TokensViaRemap => if second { "V3(tokens[remap[b]])#2"@ } else { "V3(tokens[remap[b]])"@ },
        DecodeVariant::V4TokensViaIndexRemap => if second {
            "V4(tokens[token_index[remap[b]]])#2"@
        } else {
            "V4(tokens[token_index[remap[b]]])"@
        },
    }
}

/// The remap table of the `k`-th strategy tried.
pub open spec fn candidate_remap(remaps: Seq<(usize, Seq<u8>)>, k: int) -> Option<Seq<u8>> {
    let i = candidate_remap_index(remaps, k);
    if i >= 0 { Some(remaps[i].1) } else { None }
}

/// The remap offset of the `k`-th strategy tried.
pub open spec fn candidate_remap_offset(remaps: Seq<(usize, Seq<u8>)>, k: int) -> Option<usize> {
    let i = candidate_remap_index(remaps, k);
    if i >= 0 { Some(remaps[i].0) } else { None }
}

/// The remap table viewed as a sequence.
pub open spec fn opt_array_view(o: Option<[u8; 256]>) -> Option<Seq<u8>> {
    match o {
        Some(a) => Some(a@),
        None => None,
    }
}

/// Scores of all strategies tried, in order.
pub open spec fn candidate_scores(
    remaps: Seq<(usize, Seq<u8>)>,
    tokens: Seq<Seq<u8>>,
    index: Seq<u16>,
    samples: Seq<Seq<u8>>,
) -> Seq<Score> {
    Seq::new(
        candidate_count(remaps) as nat,
        |k: int|
            spec_score_strategy(
                candidate_variant(remaps, k),
                candidate_remap(remaps, k),
                tokens,
                index,
                samples,
            ),
    )
}

/// Index of the best of the first `n` scores; among equal best scores the
/// last one wins.
pub open spec fn best_index(scores: Seq<Score>, n: nat) -> int
    decreases n,
{
    if n <= 1 {
        0
    } else {
        let b = best_index(scores, (n - 1) as nat);
        if score_gt(scores[b], scores[n - 1]) {
            b
        } else {
            n - 1
        }
    }
}

pub proof fn lemma_best_index_bounds(scores: Seq<Score>, n: nat)
    requires
        n >= 1,
    ensures
        0 <= best_index(scores, n) < n,
    decreases n,
{
    if n > 1 {
        lemma_best_index_bounds(scores, (n - 1) as nat);
    }
}

/// `s` is the `k`-th strategy tried, with score `score`.
pub open spec fn is_candidate(s: DecodeStrategy, remaps: Seq<(usize, Seq<u8>)>, k: int, score: Score) -> bool {
    &&& s.variant == candidate_variant(remaps, k)
    &&& s.name@ == candidate_label(remaps, k)
    &&& opt_array_view(s.remap) == candidate_remap(remaps, k)
    &&& s.remap_offset == candidate_remap_offset(remaps, k)
    &&& s.score == score
}

fn make_candidate(remaps: &[(usize, [u8; 256])], k: usize) -> (s: DecodeStrategy)
    requires
        k < candidate_count(remap_views(remaps@)),
    ensures
        is_candidate(s, remap_views(remaps@), k as int, Score { num: 0, den: 1 }),
{
    let m: usize = if remaps.len() <= 2 { remaps.len() } else { 2 };
    let zero = Score { num: 0, den: 1 };
    if k == 0 {
        DecodeStrategy { variant: DecodeVariant::V1TokensRaw, name: "V1(tokens[b])", remap: None, remap_offset: None, score: zero }
    } else if k == 1 {
        DecodeStrategy { variant: DecodeVariant::V2TokensViaIndex, name: "V2(tokens[token_index[b]])", remap: None, remap_offset: None, score: zero }
    } else if k < 2 + m {
        let i = k - 2;
        let (off, rem) = remaps[i];
        let name = if i == 0 { "V3(tokens[remap[b]])" } else { "V3(tokens[remap[b]])#2" };
        DecodeStrategy { variant: DecodeVariant::V3TokensViaRemap, name, remap: Some(rem), remap_offset: Some(off), score: zero }
    } else {
        let i = k - 2 - m;
        let (off, rem) = remaps[i];
        let name = if i == 0 { "V4(tokens[token_index[remap[b]]])" } else { "V4(tokens[token_index[remap[b]]])#2" };
        DecodeStrategy { variant: DecodeVariant::V4TokensViaIndexRemap, name, remap: Some(rem), remap_offset: Some(off), score: zero }
    }
}

/// The strategy chosen for the given samples: the best scoring candidate
/// (last among equals), replaced by plain V1 (keeping the score) when the
/// best score is below 0.35.
pub open spec fn is_selected_strategy(
    s: DecodeStrategy,
    remaps: Seq<(usize, Seq<u8>)>,
    tokens: Seq<Seq<u8>>,
    index: Seq<u16>,
    samples: Seq<Seq<u8>>,
) -> bool {
    let scores = candidate_scores(remaps, tokens, index, samples);
    let b = best_index(scores, candidate_count(remaps) as nat);
    &&& (s.variant, opt_array_view(s.remap)) == selected_decoding(remaps, tokens, index, samples)
    &&& if score_lt_frac(scores[b], 35, 100) {
        &&& s.variant == DecodeVariant::V1TokensRaw
        &&& s.name@ == "V1(tokens[b])"@
        &&& s.remap is None
        &&& s.remap_offset is None
        &&& s.score == scores[b]
    } else {
        is_candidate(s, remaps, b, scores[b])
    }
}

/// The decoding that strategy selection settles on: the variant and remap
/// table of the best candidate, or plain V1 when its score is below 0.35.
pub open spec fn selected_decoding(
    remaps: Seq<(usize, Seq<u8>)>,
    tokens: Seq<Seq<u8>>,
    index: Seq<u16>,
    samples: Seq<Seq<u8>>,
) -> (DecodeVariant, Option<Seq<u8>>) {
    let scores = candidate_scores(remaps, tokens, index, samples);
    let b = best_index(scores, candidate_count(remaps) as nat);
    if score_lt_frac(scores[b], 35, 100) {
        (DecodeVariant::V1TokensRaw, None)
    } else {
        (candidate_variant(remaps, b), candidate_remap(remaps, b))
    }
}

/// Score all decode variants and pick the highest-scoring one.
pub fn select_decode_strategy(
    data: &[u8],
    names_off: usize,
    names_size: usize,
    num_syms: usize,
    tokens: &[Vec<u8>],
    token_index: &[u16; 256],
    remap_candidates: &[(usize, [u8; 256])],
) -> (s: DecodeStrategy)
    requires
        samples_in_data(data@, names_off as int, names_size as int, num_syms as int, 192),
    ensures
        is_selected_strategy(
            s,
            remap_views(remap_candidates@),
            tokens.deep_view(),
            token_index@,
            name_entries(data@, names_off as int, names_off + names_size, if num_syms <= 192 { num_syms as nat } else { 192 }),
        ),
{
    let samples = collect_name_samples(data, names_off, names_size, num_syms, 192);
    let ghost sv = sample_views(samples@);
    let ghost remaps = remap_views(remap_candidates@);
    let ghost scores = candidate_scores(remaps, tokens.deep_view(), token_index@, sv);
    let m: usize = if remap_candidates.len() <= 2 { remap_candidates.len() } else { 2 };
    let count: usize = 2 + 2 * m;
    let mut best = make_candidate(remap_candidates, 0);
    best.score = score_strategy_names(best.variant, None, tokens, token_index, samples.as_slice());
    let mut k: usize = 1;
    while k < count
        invariant
            count == candidate_count(remaps),
            remaps == remap_views(remap_candidates@),
            sv == sample_views(samples@),
            scores == candidate_scores(remaps, tokens.deep_view(), token_index@, sv),
            1 <= k <= count,
            is_candidate(best, remaps, best_index(scores, k as nat), scores[best_index(scores, k as nat)]),
        decreases count - k,
    {
        let mut cand = make_candidate(remap_candidates, k);
        let rem_view: Option<&[u8]> = match &cand.remap {
            Some(a) => Some(a.as_slice()),
            None => None,
        };
        cand.score = score_strategy_names(cand.variant, rem_view, tokens, token_index, samples.as_slice());
        assert(cand.score == scores[k as int]);
        if !score_greater(best.score, cand.score) {
            best = cand;
        }
        k += 1;
    }
    proof {
        lemma_best_index_bounds(scores, count as nat);
    }
    if (best.score.num as u128) * 100 < 35 * (best.score.den as u128) {
        return DecodeStrategy {
            variant: DecodeVariant::V1TokensRaw,
            name: "V1(tokens[b])",
            remap: None,
            remap_offset: None,
            score: best.score,
        };
    }
    best
}

} // verus!

verus! {

/// Decoding of `k` entries of the names block from `pos` (`end` is the end
/// of the block): the decoded entries, or the message of the first error.
pub open spec fn spec_decode_names(
    d: Seq<u8>,
    pos: int,
    end: int,
    k: nat,
    v: DecodeVariant,
    tokens: Seq<Seq<u8>>,
    index: Seq<u16>,
    remap: Option<Seq<u8>>,
) -> Result<Seq<Seq<u8>>, Seq<char>>
    decreases k,
{
    if k == 0 {
        if pos != end {
            Err("names block size mismatch"@)
        } else {
            Ok(Seq::empty())
        }
    } else if pos >= end {
        Err("names overflow"@)
    } else {
        let len = d[pos] as int;
        if pos + 1 + len > end {
            Err("name length overflow"@)
        } else if len == 0 {
            Err("empty encoded name"@)
        } else if uses_remap(v) && remap is None {
            Err("remap missing for selected strategy"@)
        } else {
            let entry = decode_entry(v, tokens, index, remap_or_empty(remap), d.subrange(pos + 1, pos + 1 + len));
            match spec_decode_names(d, pos + 1 + len, end, (k - 1) as nat, v, tokens, index, remap) {
                Ok(rest) => Ok(seq![entry] + rest),
                Err(e) => Err(e),
            }
        }
    }
}

/// How many entries decoding reads from the names block before it stops:
/// all `k`, but only the first when a remap variant has no remap table.
pub open spec fn decode_read_limit(v: DecodeVariant, remap: Option<&[u8]>, k: nat) -> nat {
    if uses_remap(v) && remap is None && k > 0 { 1 } else { k }
}

/// `r` is `acc` followed by `rest`, or the error of `rest`.
pub open spec fn prepend_ok(acc: Seq<Seq<u8>>, rest: Result<Seq<Seq<u8>>, Seq<char>>) -> Result<Seq<Seq<u8>>, Seq<char>> {
    match rest {
        Ok(r) => Ok(acc + r),
        Err(e) => Err(e),
    }
}

/// Decode all names using the chosen decoding variant. Returns each entry as
/// [type_byte | symbol bytes].
pub fn decode_all_names_with_strategy(
    data: &[u8],
    names_off: usize,
    names_size: usize,
    num_syms: usize,
    tokens: &[Vec<u8>],
    token_index: &[u16; 256],
    remap: Option<&[u8]>,
    variant: DecodeVariant,
) -> (r: Result<Vec<Vec<u8>>, KallsymsError>)
    requires
        names_off + names_size <= usize::MAX,
        entries_in_data(data@, names_off as int, names_off + names_size, decode_read_limit(variant, remap, num_syms as nat)),
        uses_remap(variant) && remap is Some ==> bytes_below(
            name_entries(data@, names_off as int, names_off + names_size, num_syms as nat),
            remap.unwrap()@.len() as int,
        ),
    ensures
        match r {
            Ok(names) => spec_decode_names(data@, names_off as int, names_off + names_size, num_syms as nat,
                variant, tokens.deep_view(), token_index@, opt_slice_view(remap)) == Ok::<Seq<Seq<u8>>, Seq<char>>(names.deep_view()),
            Err(e) => spec_decode_names(data@, names_off as int, names_off + names_size, num_syms as nat,
                variant, tokens.deep_view(), token_index@, opt_slice_view(remap)) matches Err(m) && is_invalid_format(e, m),
        },
{
    let ghost toks = tokens.deep_view();
    let ghost rv = opt_slice_view(remap);
    let ghost total = spec_decode_names(data@, names_off as int, names_off + names_size, num_syms as nat,
        variant, toks, token_index@, rv);
    let no_remap: Vec<u8> = Vec::new();
    let rem: &[u8] = match remap {
        Some(m) => m,
        None => no_remap.as_slice(),
    };
    let mut result: Vec<Vec<u8>> = Vec::new();
    let mut pos = names_off;
    let end = names_off + names_size;
    let mut i: usize = 0;
    while i < num_syms
        invariant
            end == names_off + names_size,
            entries_in_data(data@, pos as int, end as int, decode_read_limit(variant, remap, (num_syms - i) as nat)),
            uses_remap(variant) && remap is Some ==> bytes_below(
                name_entries(data@, pos as int, end as int, (num_syms - i) as nat),
                remap.unwrap()@.len() as int,
            ),
            pos <= end,
            i <= num_syms,
            toks == tokens.deep_view(),
            rv == opt_slice_view(remap),
            rem@ == remap_or_empty(rv),
            total == spec_decode_names(data@, names_off as int, names_off + names_size, num_syms as nat,
                variant, toks, token_index@, rv),
            total == prepend_ok(result.deep_view(), spec_decode_names(data@, pos as int, end as int, (num_syms - i) as nat,
                variant, toks, token_index@, rv)),
        decreases num_syms - i,
    {
        let ghost here = spec_decode_names(data@, pos as int, end as int, (num_syms - i) as nat, variant, toks, token_index@, rv);
        if pos >= end {
            assert(here == Err::<Seq<Seq<u8>>, Seq<char>>("names overflow"@));
            assert(total == Err::<Seq<Seq<u8>>, Seq<char>>("names overflow"@));
            return Err(invalid_format("names overflow"));
        }
        let len = data[pos] as usize;
        if len > end - (pos + 1) {
            assert(here == Err::<Seq<Seq<u8>>, Seq<char>>("name length overflow"@));
            assert(total == Err::<Seq<Seq<u8>>, Seq<char>>("name length overflow"@));
            return Err(invalid_format("name length overflow"));
        }
        let enc = slice_subrange(data, pos + 1, pos + 1 + len);
        if len == 0 {
            assert(here == Err::<Seq<Seq<u8>>, Seq<char>>("empty encoded name"@));
            assert(total == Err::<Seq<Seq<u8>>, Seq<char>>("empty encoded name"@));
            return Err(invalid_format("empty encoded name"));
        }
        if remap.is_none() && (variant == DecodeVariant::V3TokensViaRemap || variant == DecodeVariant::V4TokensViaIndexRemap) {
            assert(here == Err::<Seq<Seq<u8>>, Seq<char>>("remap missing for selected strategy"@));
            assert(total == Err::<Seq<Seq<u8>>, Seq<char>>("remap missing for selected strategy"@));
            return Err(invalid_format("remap missing for selected strategy"));
        }
        let ghost entries = name_entries(data@, pos as int, end as int, (num_syms - i) as nat);
        let ghost next = name_entries(data@, pos + 1 + len, end as int, (num_syms - i - 1) as nat);
        assert(entries == seq![enc@] + next);
        proof {
            if uses_remap(variant) && remap is Some {
                assert forall|a: int, j: int| 0 <= a < 1 && 1 <= j < seq![enc@][a].len()
                    implies (#[trigger] seq![enc@][a][j]) < rem@.len() by {
                    assert(entries[0] == enc@);
                    assert(entries[0][j] < rem@.len());
                }
                assert forall|a: int, j: int| 0 <= a < next.len() && 1 <= j < next[a].len()
                    implies (#[trigger] next[a][j]) < rem@.len() by {
                    assert(entries[a + 1] == next[a]);
                    assert(entries[a + 1][j] < rem@.len());
                }
            }
        }
        let out = decode_entry_exec(variant, tokens, token_index, rem, enc);
        let ghost before = result.deep_view();
        result.push(out);
        assert(out.deep_view() =~= out@);
        assert(result.deep_view() =~= before + seq![out@]);
        pos = pos + 1 + len;
        i += 1;
        proof {
            let rest = spec_decode_names(data@, pos as int, end as int, (num_syms - i) as nat, variant, toks, token_index@, rv);
            match rest {
                Ok(r) => {
                    assert(before + (seq![out@] + r) =~= (before + seq![out@]) + r);
                }
                Err(e) => {}
            }
        }
    }
    if pos != end {
        return Err(invalid_format("names block size mismatch"));
    }
    assert(result.deep_view() + Seq::<Seq<u8>>::empty() =~= result.deep_view());
    Ok(result)
}

} // verus!

verus! {

/// A remap table that maps each byte to itself.
pub open spec fn is_identity_remap(r: Seq<u8>) -> bool {
    r.len() >= 256 && forall|b: int| 0 <= b < 256 ==> #[trigger] r[b] == b
}

/// A token index that maps each byte to itself.
pub open spec fn is_identity_index(x: Seq<u16>) -> bool {
    x.len() >= 256 && forall|b: int| 0 <= b < 256 ==> #[trigger] x[b] == b
}

/// The variant reduces to raw token decoding with this index and remap.
pub open spec fn acts_as_raw(v: DecodeVariant, index: Seq<u16>, remap: Seq<u8>) -> bool {
    match v {
        DecodeVariant::V1TokensRaw => true,
        DecodeVariant::V2TokensViaIndex => is_identity_index(index),
        DecodeVariant::V3TokensViaRemap => is_identity_remap(remap),
        DecodeVariant::V4TokensViaIndexRemap => is_identity_index(index) && is_identity_remap(remap),
    }
}

proof fn lemma_identity_expands_raw(v: DecodeVariant, tokens: Seq<Seq<u8>>, index: Seq<u16>, remap: Seq<u8>, bytes: Seq<u8>)
    requires
        acts_as_raw(v, index, remap),
    ensures
        expand_bytes(v, tokens, index, remap, bytes) == expand_bytes(DecodeVariant::V1TokensRaw, tokens, index, remap, bytes),
    decreases bytes.len(),
{
    if bytes.len() > 0 {
        lemma_identity_expands_raw(v, tokens, index, remap, bytes.drop_last());
        let b = bytes.last();
        assert(token_slot(v, index, remap, b) == b as int);
    }
}

/// With an identity index, an identity remap table, or both, the index,
/// remap and index-remap variants decode every entry exactly as the raw
/// variant does.
pub proof fn lemma_identity_decodes_raw(v: DecodeVariant, tokens: Seq<Seq<u8>>, index: Seq<u16>, remap: Seq<u8>, enc: Seq<u8>)
    requires
        acts_as_raw(v, index, remap),
    ensures
        decode_entry(v, tokens, index, remap, enc) == decode_entry(DecodeVariant::V1TokensRaw, tokens, index, remap, enc),
{
    lemma_identity_expands_raw(v, tokens, index, remap, enc.skip(1));
}

proof fn lemma_raw_expand_ignores_tables(tokens: Seq<Seq<u8>>, i1: Seq<u16>, r1: Seq<u8>, i2: Seq<u16>, r2: Seq<u8>, bytes: Seq<u8>)
    ensures
        expand_bytes(DecodeVariant::V1TokensRaw, tokens, i1, r1, bytes) == expand_bytes(DecodeVariant::V1TokensRaw, tokens, i2, r2, bytes),
    decreases bytes.len(),
{
    if bytes.len() > 0 {
        lemma_raw_expand_ignores_tables(tokens, i1, r1, i2, r2, bytes.drop_last());
    }
}

/// Raw decoding of a names block does not read the token index or the remap
/// table: with any index and with or without a remap table it gives the same
/// names, or the same error.
pub proof fn lemma_raw_decode_ignores_tables(
    d: Seq<u8>,
    pos: int,
    end: int,
    k: nat,
    tokens: Seq<Seq<u8>>,
    i1: Seq<u16>,
    r1: Option<Seq<u8>>,
    i2: Seq<u16>,
    r2: Option<Seq<u8>>,
)
    ensures
        spec_decode_names(d, pos, end, k, DecodeVariant::V1TokensRaw, tokens, i1, r1)
            == spec_decode_names(d, pos, end, k, DecodeVariant::V1TokensRaw, tokens, i2, r2),
    decreases k,
{
    if k > 0 && pos < end {
        let len = d[pos] as int;
        if !(pos + 1 + len > end || len == 0) {
            lemma_raw_expand_ignores_tables(tokens, i1, remap_or_empty(r1), i2, remap_or_empty(r2),
                d.subrange(pos + 1, pos + 1 + len).skip(1));
            lemma_raw_decode_ignores_tables(d, pos + 1 + len, end, (k - 1) as nat, tokens, i1, r1, i2, r2);
        }
    }
}

/// Decoding a whole names block with an identity index and/or identity remap
/// table (for the variants that use them) gives the same names, or the same
/// error, as decoding it with the raw variant (which uses neither table).
pub proof fn lemma_identity_decodes_block_raw(
    d: Seq<u8>,
    pos: int,
    end: int,
    k: nat,
    v: DecodeVariant,
    tokens: Seq<Seq<u8>>,
    index: Seq<u16>,
    remap: Option<Seq<u8>>,
    raw_index: Seq<u16>,
    raw_remap: Option<Seq<u8>>,
)
    requires
        acts_as_raw(v, index, remap_or_empty(remap)),
        uses_remap(v) ==> remap is Some,
    ensures
        spec_decode_names(d, pos, end, k, v, tokens, index, remap)
            == spec_decode_names(d, pos, end, k, DecodeVariant::V1TokensRaw, tokens, raw_index, raw_remap),
{
    lemma_raw_decode_ignores_tables(d, pos, end, k, tokens, index, remap, raw_index, raw_remap);
    lemma_identity_decodes_block_same_tables(d, pos, end, k, v, tokens, index, remap);
}

proof fn lemma_identity_decodes_block_same_tables(
    d: Seq<u8>,
    pos: int,
    end: int,
    k: nat,
    v: DecodeVariant,
    tokens: Seq<Seq<u8>>,
    index: Seq<u16>,
    remap: Option<Seq<u8>>,
)
    requires
        acts_as_raw(v, index, remap_or_empty(remap)),
        uses_remap(v) ==> remap is Some,
    ensures
        spec_decode_names(d, pos, end, k, v, tokens, index, remap)
            == spec_decode_names(d, pos, end, k, DecodeVariant::V1TokensRaw, tokens, index, remap),
    decreases k,
{
    if k > 0 && pos < end {
        let len = d[pos] as int;
        if !(pos + 1 + len > end || len == 0) {
            lemma_identity_decodes_raw(v, tokens, index, remap_or_empty(remap), d.subrange(pos + 1, pos + 1 + len));
            lemma_identity_decodes_block_same_tables(d, pos + 1 + len, end, (k - 1) as nat, v, tokens, index, remap);
        }
    }
}

} // verus!

verus! {

/// Expanding encoded bytes distributes over concatenation: the expansion of
/// `b1 ++ b2` is the expansion of `b1` followed by that of `b2`.
pub proof fn lemma_expand_concat(v: DecodeVariant, tokens: Seq<Seq<u8>>, index: Seq<u16>, remap: Seq<u8>, b1: Seq<u8>, b2: Seq<u8>)
    ensures
        expand_bytes(v, tokens, index, remap, b1 + b2)
            == expand_bytes(v, tokens, index, remap, b1) + expand_bytes(v, tokens, index, remap, b2),
    decreases b2.len(),
{
    if b2.len() == 0 {
        assert(b1 + b2 =~= b1);
        assert(expand_bytes(v, tokens, index, remap, b1) + Seq::<u8>::empty() =~= expand_bytes(v, tokens, index, remap, b1));
    } else {
        lemma_expand_concat(v, tokens, index, remap, b1, b2.drop_last());
        assert((b1 + b2).drop_last() =~= b1 + b2.drop_last());
        assert((b1 + b2).last() == b2.last());
        let t = token_or_empty(tokens, token_slot(v, index, remap, b2.last()));
        assert(expand_bytes(v, tokens, index, remap, b1) + expand_bytes(v, tokens, index, remap, b2.drop_last()) + t
            =~= expand_bytes(v, tokens, index, remap, b1) + (expand_bytes(v, tokens, index, remap, b2.drop_last()) + t));
    }
}

/// A single encoded byte expands to the token it selects (nothing when the
/// slot has no token).
pub proof fn lemma_expand_one(v: DecodeVariant, tokens: Seq<Seq<u8>>, index: Seq<u16>, remap: Seq<u8>, b: u8)
    ensures
        expand_bytes(v, tokens, index, remap, seq![b]) == token_or_empty(tokens, token_slot(v, index, remap, b)),
{
    assert(seq![b].drop_last() =~= Seq::<u8>::empty());
    assert(seq![b].last() == b);
    assert(expand_bytes(v, tokens, index, remap, Seq::<u8>::empty()) == Seq::<u8>::empty());
    assert(expand_bytes(v, tokens, index, remap, seq![b]) == expand_bytes(v, tokens, index, remap, Seq::<u8>::empty())
        + token_or_empty(tokens, token_slot(v, index, remap, b)));
    assert(Seq::<u8>::empty() + token_or_empty(tokens, token_slot(v, index, remap, b)) =~= token_or_empty(tokens, token_slot(v, index, remap, b)));
}

/// A decoded entry is its type byte followed, in order, by the tokens that
/// each remaining encoded byte selects: decoding `enc ++ [b]` appends the
/// token of `b` to the decoding of `enc`, and a lone type byte decodes to
/// itself.
pub proof fn lemma_decode_entry_layout(v: DecodeVariant, tokens: Seq<Seq<u8>>, index: Seq<u16>, remap: Seq<u8>, enc: Seq<u8>, b: u8)
    requires
        enc.len() >= 1,
    ensures
        decode_entry(v, tokens, index, remap, seq![enc[0]]) == seq![enc[0]],
        decode_entry(v, tokens, index, remap, enc.push(b))
            == decode_entry(v, tokens, index, remap, enc) + token_or_empty(tokens, token_slot(v, index, remap, b)),
        decode_entry(v, tokens, index, remap, enc)[0] == enc[0],
{
    assert(seq![enc[0]].skip(1) =~= Seq::<u8>::empty());
    assert(seq![enc[0]] + Seq::<u8>::empty() =~= seq![enc[0]]);
    assert(enc.push(b).skip(1) =~= enc.skip(1) + seq![b]);
    assert(enc.push(b)[0] == enc[0]);
    lemma_expand_concat(v, tokens, index, remap, enc.skip(1), seq![b]);
    lemma_expand_one(v, tokens, index, remap, b);
    let e = expand_bytes(v, tokens, index, remap, enc.skip(1));
    let t = token_or_empty(tokens, token_slot(v, index, remap, b));
    assert(seq![enc[0]] + (e + t) =~= (seq![enc[0]] + e) + t);
}

/// The decoded length is one (the type byte) plus the lengths of the tokens
/// selected by the encoded bytes.
pub open spec fn selected_len(v: DecodeVariant, tokens: Seq<Seq<u8>>, index: Seq<u16>, remap: Seq<u8>, bytes: Seq<u8>) -> int
    decreases bytes.len(),
{
    if bytes.len() == 0 {
        0
    } else {
        selected_len(v, tokens, index, remap, bytes.drop_last())
            + token_or_empty(tokens, token_slot(v, index, remap, bytes.last())).len()
    }
}

pub proof fn lemma_decoded_len(v: DecodeVariant, tokens: Seq<Seq<u8>>, index: Seq<u16>, remap: Seq<u8>, bytes: Seq<u8>)
    ensures
        expand_bytes(v, tokens, index, remap, bytes).len() == selected_len(v, tokens, index, remap, bytes),
    decreases bytes.len(),
{
    if bytes.len() > 0 {
        lemma_expand_concat(v, tokens, index, remap, bytes.drop_last(), seq![bytes.last()]);
        lemma_expand_one(v, tokens, index, remap, bytes.last());
        assert(bytes.drop_last() + seq![bytes.last()] =~= bytes);
        lemma_decoded_len(v, tokens, index, remap, bytes.drop_last());
    }
}

} // verus!

verus! {

proof fn lemma_not_gt_trans(a: Score, b: Score, c: Score)
    requires
        !score_gt(a, b),
        !score_gt(b, c),
        b.den > 0,
    ensures
        !score_gt(a, c),
{
    let (an, ad, bn, bd, cn, cd) = (a.num as int, a.den as int, b.num as int, b.den as int, c.num as int, c.den as int);
    assert(an * cd <= cn * ad) by (nonlinear_arith)
        requires
            an * bd <= bn * ad,
            bn * cd <= cn * bd,
            bd > 0, an >= 0, ad >= 0, bn >= 0, cn >= 0, cd >= 0,
    {
        assert(an * bd * cd <= bn * ad * cd);
        assert(bn * cd * ad <= cn * bd * ad);
        assert(an * cd * bd <= cn * ad * bd);
    }
}

proof fn lemma_best_index_is_max(scores: Seq<Score>, n: nat)
    requires
        1 <= n <= scores.len(),
        forall|j: int| 0 <= j < n ==> (#[trigger] scores[j]).den > 0,
    ensures
        forall|j: int| 0 <= j < n ==> !score_gt(#[trigger] scores[j], scores[best_index(scores, n)]),
    decreases n,
{
    if n > 1 {
        lemma_best_index_is_max(scores, (n - 1) as nat);
        lemma_best_index_bounds(scores, (n - 1) as nat);
        let b = best_index(scores, (n - 1) as nat);
        if !score_gt(scores[b], scores[n - 1]) {
            assert forall|j: int| 0 <= j < n implies !score_gt(#[trigger] scores[j], scores[n - 1]) by {
                if j < n - 1 {
                    lemma_not_gt_trans(scores[j], scores[b], scores[n - 1]);
                }
            }
        }
    }
}

proof fn lemma_strategy_score_den(v: DecodeVariant, remap: Option<Seq<u8>>, tokens: Seq<Seq<u8>>, index: Seq<u16>, samples: Seq<Seq<u8>>)
    ensures
        spec_score_strategy(v, remap, tokens, index, samples).den > 0,
{
}

/// Strategy selection takes the best of all strategies it may use: the
/// selected score is at least the score of V1 and V2, and of V3 and V4 with
/// each of the first two remap candidates; when one of these reaches 0.35
/// the selection is not the low-score fallback; below 0.35 it is plain V1
/// without a remap table; otherwise its score is that of its own variant
/// and remap table.
pub proof fn lemma_selected_is_best(
    s: DecodeStrategy,
    remaps: Seq<(usize, Seq<u8>)>,
    tokens: Seq<Seq<u8>>,
    index: Seq<u16>,
    samples: Seq<Seq<u8>>,
)
    requires
        is_selected_strategy(s, remaps, tokens, index, samples),
    ensures
        !score_gt(spec_score_strategy(DecodeVariant::V1TokensRaw, None, tokens, index, samples), s.score),
        !score_gt(spec_score_strategy(DecodeVariant::V2TokensViaIndex, None, tokens, index, samples), s.score),
        forall|i: int| 0 <= i < remaps.len() && i < 2 ==>
            !score_gt(#[trigger] spec_score_strategy(DecodeVariant::V3TokensViaRemap, Some(remaps[i].1), tokens, index, samples), s.score),
        forall|i: int| 0 <= i < remaps.len() && i < 2 ==>
            !score_gt(#[trigger] spec_score_strategy(DecodeVariant::V4TokensViaIndexRemap, Some(remaps[i].1), tokens, index, samples), s.score),
        forall|i: int| 0 <= i < remaps.len() && i < 2 ==> (
            !score_lt_frac(#[trigger] spec_score_strategy(DecodeVariant::V4TokensViaIndexRemap, Some(remaps[i].1), tokens, index, samples), 35, 100)
                ==> !score_lt_frac(s.score, 35, 100)),
        forall|i: int| 0 <= i < remaps.len() && i < 2 ==> (
            !score_lt_frac(#[trigger] spec_score_strategy(DecodeVariant::V3TokensViaRemap, Some(remaps[i].1), tokens, index, samples), 35, 100)
                ==> !score_lt_frac(s.score, 35, 100)),
        score_lt_frac(s.score, 35, 100) ==> s.variant == DecodeVariant::V1TokensRaw && s.remap is None,
        !score_lt_frac(s.score, 35, 100) ==> s.score == spec_score_strategy(s.variant, opt_array_view(s.remap), tokens, index, samples),
{
    let scores = candidate_scores(remaps, tokens, index, samples);
    let n = candidate_count(remaps);
    let m = used_remaps(remaps);
    assert forall|j: int| 0 <= j < n implies (#[trigger] scores[j]).den > 0 by {
        lemma_strategy_score_den(candidate_variant(remaps, j), candidate_remap(remaps, j), tokens, index, samples);
    }
    lemma_best_index_is_max(scores, n as nat);
    lemma_best_index_bounds(scores, n as nat);
    let b = best_index(scores, n as nat);
    assert(s.score == scores[b]);
    assert(scores[0] == spec_score_strategy(DecodeVariant::V1TokensRaw, None, tokens, index, samples));
    assert(scores[1] == spec_score_strategy(DecodeVariant::V2TokensViaIndex, None, tokens, index, samples));
    assert forall|i: int| 0 <= i < remaps.len() && i < 2 implies
        !score_gt(#[trigger] spec_score_strategy(DecodeVariant::V3TokensViaRemap, Some(remaps[i].1), tokens, index, samples), s.score)
        && (!score_lt_frac(spec_score_strategy(DecodeVariant::V3TokensViaRemap, Some(remaps[i].1), tokens, index, samples), 35, 100)
            ==> !score_lt_frac(s.score, 35, 100)) by {
        assert(scores[2 + i] == spec_score_strategy(DecodeVariant::V3TokensViaRemap, Some(remaps[i].1), tokens, index, samples));
        assert(!score_gt(scores[2 + i], scores[b]));
        let x = scores[2 + i];
        let y = scores[b];
        assert((x.num as int) * 100 >= 35 * (x.den as int) && (x.num as int) * (y.den as int) <= (y.num as int) * (x.den as int)
            && x.den > 0 && y.den > 0 ==> (y.num as int) * 100 >= 35 * (y.den as int)) by (nonlinear_arith);
    }
    assert forall|i: int| 0 <= i < remaps.len() && i < 2 implies
        !score_gt(#[trigger] spec_score_strategy(DecodeVariant::V4TokensViaIndexRemap, Some(remaps[i].1), tokens, index, samples), s.score)
        && (!score_lt_frac(spec_score_strategy(DecodeVariant::V4TokensViaIndexRemap, Some(remaps[i].1), tokens, index, samples), 35, 100)
            ==> !score_lt_frac(s.score, 35, 100)) by {
        assert(scores[2 + m + i] == spec_score_strategy(DecodeVariant::V4TokensViaIndexRemap, Some(remaps[i].1), tokens, index, samples));
        assert(!score_gt(scores[2 + m + i], scores[b]));
        let x = scores[2 + m + i];
        let y = scores[b];
        assert((x.num as int) * 100 >= 35 * (x.den as int) && (x.num as int) * (y.den as int) <= (y.num as int) * (x.den as int)
            && x.den > 0 && y.den > 0 ==> (y.num as int) * 100 >= 35 * (y.den as int)) by (nonlinear_arith);
    }
    assert(scores[b] == spec_score_strategy(candidate_variant(remaps, b), candidate_remap(remaps, b), tokens, index, samples));
}

} // verus!

verus! {

/// Number of offsets `o` in `[a, b)` where a 256-byte permutation starts.
pub open spec fn permutations_between(d: Seq<u8>, a: int, b: int) -> nat
    decreases b - a,
{
    if a >= b {
        0
    } else {
        permutations_between(d, a + 1, b) + if a + 256 <= d.len() && is_permutation_256(d.subrange(a, a + 256)) {
            1nat
        } else {
            0nat
        }
    }
}

proof fn lemma_scan_finds(d: Seq<u8>, off: int, end: int, budget: nat, o: int)
    requires
        off <= o,
        o + 256 <= end <= d.len(),
        is_permutation_256(d.subrange(o, o + 256)),
        permutations_between(d, off, o) < budget,
    ensures
        scan_permutations(d, off, end, budget).contains((o as usize, d.subrange(o, o + 256))),
    decreases o - off,
{
    if off == o {
        assert(scan_permutations(d, off, end, budget)[0] == (o as usize, d.subrange(o, o + 256)));
    } else {
        if is_permutation_256(d.subrange(off, off + 256)) {
            lemma_scan_finds(d, off + 1, end, (budget - 1) as nat, o);
            let rest = scan_permutations(d, off + 1, end, (budget - 1) as nat);
            let j = choose|j: int| 0 <= j < rest.len() && rest[j] == (o as usize, d.subrange(o, o + 256));
            assert(scan_permutations(d, off, end, budget)[j + 1] == rest[j]);
        } else {
            lemma_scan_finds(d, off + 1, end, budget, o);
        }
    }
}

/// A remap table is found wherever it lies: a 256-byte permutation starting
/// within `window` bytes before or after the token table offset (and ending
/// within `window` bytes after it, inside the data) is among the detected
/// candidates, unless four permutations start before it in that window;
/// likewise around the names when none lies around the token table.
pub proof fn lemma_remap_candidate_found(d: Seq<u8>, token_table_off: int, names_off: int, window: int, o: int)
    requires
        window >= 0,
        is_permutation_256(d.subrange(o, o + 256)),
        o + 256 <= d.len(),
    ensures
        ({
            let lo = if token_table_off >= window { token_table_off - window } else { 0 };
            lo <= o && o + 256 <= token_table_off + window && permutations_between(d, lo, o) < 4
                ==> spec_detect_remaps(d, token_table_off, names_off, window).contains((o as usize, d.subrange(o, o + 256)))
        }),
        ({
            let lo_t = if token_table_off >= window { token_table_off - window } else { 0 };
            let hi_t = if token_table_off + window <= d.len() { token_table_off + window } else { d.len() as int };
            let lo = if names_off >= window { names_off - window } else { 0 };
            permutations_between(d, lo_t, hi_t) == 0 && lo <= o && o + 256 <= names_off + window
                && permutations_between(d, lo, o) < 4
                ==> spec_detect_remaps(d, token_table_off, names_off, window).contains((o as usize, d.subrange(o, o + 256)))
        }),
{
    let lo_t = if token_table_off >= window { token_table_off - window } else { 0 };
    let hi_t = if token_table_off + window <= d.len() { token_table_off + window } else { d.len() as int };
    if lo_t <= o && o + 256 <= token_table_off + window && permutations_between(d, lo_t, o) < 4 {
        lemma_scan_finds(d, lo_t, hi_t, 4, o);
        assert(permutations_near(d, token_table_off, window).len() > 0);
    }
    let lo = if names_off >= window { names_off - window } else { 0 };
    let hi = if names_off + window <= d.len() { names_off + window } else { d.len() as int };
    if permutations_between(d, lo_t, hi_t) == 0 && lo <= o && o + 256 <= names_off + window && permutations_between(d, lo, o) < 4 {
        lemma_scan_none(d, lo_t, hi_t, 4);
        lemma_scan_finds(d, lo, hi, 4, o);
    }
}

proof fn lemma_scan_none(d: Seq<u8>, off: int, end: int, budget: nat)
    requires
        end <= d.len(),
        permutations_between(d, off, end) == 0,
    ensures
        scan_permutations(d, off, end, budget).len() == 0,
    decreases end - off,
{
    if !(budget == 0 || off + 256 > end) {
        lemma_scan_none(d, off + 1, end, budget);
    }
}

} // verus!
