//! Plausibility scores of decoded names, as exact fractions.

use vstd::prelude::*;
use crate::helpers::{count_where, lemma_count_where_le, spec_is_valid_symbol_name, spec_starts_with_any};

verus! {

/// A non-negative score `num / den` (with `den > 0`), kept as an exact fraction.
#[derive(Clone, Copy, Debug, PartialEq, Eq, Structural)]
pub struct Score {
    pub num: u64,
    pub den: u64,
}

/// `a` is strictly greater than `b`.
pub open spec fn score_gt(a: Score, b: Score) -> bool {
    (a.num as int) * (b.den as int) > (b.num as int) * (a.den as int)
}

/// `a` is strictly less than the fraction `n / d`.
pub open spec fn score_lt_frac(a: Score, n: int, d: int) -> bool {
    (a.num as int) * d < n * (a.den as int)
}

/// The fraction `num / den` clamped to `[0, 1]`; zero when `den` is not positive.
pub open spec fn mk_score(num: int, den: int) -> Score {
    if den <= 0 {
        Score { num: 0, den: 1 }
    } else if num < 0 {
        Score { num: 0, den: den as u64 }
    } else if num > den {
        Score { num: den as u64, den: den as u64 }
    } else {
        Score { num: num as u64, den: den as u64 }
    }
}

pub fn make_score(num: i64, den: u64) -> (s: Score)
    requires
        den <= i64::MAX,
    ensures
        s == mk_score(num as int, den as int),
{
    if den == 0 {
        Score { num: 0, den: 1 }
    } else if num < 0 {
        Score { num: 0, den }
    } else if num as u64 > den {
        Score { num: den, den }
    } else {
        Score { num: num as u64, den }
    }
}

/// Compares two scores exactly.
pub fn score_greater(a: Score, b: Score) -> (r: bool)
    ensures
        r == score_gt(a, b),
{
    let an = a.num as u128;
    let ad = a.den as u128;
    let bn = b.num as u128;
    let bd = b.den as u128;
    assert(an * bd <= 0xffff_ffff_ffff_ffff * 0xffff_ffff_ffff_ffff) by (nonlinear_arith)
        requires an <= 0xffff_ffff_ffff_ffff, bd <= 0xffff_ffff_ffff_ffff;
    assert(bn * ad <= 0xffff_ffff_ffff_ffff * 0xffff_ffff_ffff_ffff) by (nonlinear_arith)
        requires bn <= 0xffff_ffff_ffff_ffff, ad <= 0xffff_ffff_ffff_ffff;
    let x = an * bd;
    let y = bn * ad;
    x > y
}

/// The common kernel symbol prefixes that raise a name's score:
///   `__`
///   `_s`
///   `_t`
///   `init`
///   `ext`
///   `drm_`
///   `clk_`
///   `devm_`
///   `trace`
///   `cpu_`
///   `arm_`
///   `arch_`
///   `mm_`
///   `vm_`
///   `kmem`
///   `mem`
///   `usb_`
///   `pcie_`
///   `nvme_`
///   `scsi_`
///   `ufs_`
///   `f2fs_`
///   `ext4_`
///   `proc_`
///   `rcu_`
///   `sched_`
///   `ioremap`
///   `module_`
///   `security_`
///   `debug_`
pub open spec fn spec_common_prefixes() -> Seq<Seq<u8>> {
    seq![
        seq![0x5fu8, 0x5fu8],
        seq![0x5fu8, 0x73u8],
        seq![0x5fu8, 0x74u8],
        seq![0x69u8, 0x6eu8, 0x69u8, 0x74u8],
        seq![0x65u8, 0x78u8, 0x74u8],
        seq![0x64u8, 0x72u8, 0x6du8, 0x5fu8],
        seq![0x63u8, 0x6cu8, 0x6bu8, 0x5fu8],
        seq![0x64u8, 0x65u8, 0x76u8, 0x6du8, 0x5fu8],
        seq![0x74u8, 0x72u8, 0x61u8, 0x63u8, 0x65u8],
        seq![0x63u8, 0x70u8, 0x75u8, 0x5fu8],
        seq![0x61u8, 0x72u8, 0x6du8, 0x5fu8],
        seq![0x61u8, 0x72u8, 0x63u8, 0x68u8, 0x5fu8],
        seq![0x6du8, 0x6du8, 0x5fu8],
        seq![0x76u8, 0x6du8, 0x5fu8],
        seq![0x6bu8, 0x6du8, 0x65u8, 0x6du8],
        seq![0x6du8, 0x65u8, 0x6du8],
        seq![0x75u8, 0x73u8, 0x62u8, 0x5fu8],
        seq![0x70u8, 0x63u8, 0x69u8, 0x65u8, 0x5fu8],
        seq![0x6eu8, 0x76u8, 0x6du8, 0x65u8, 0x5fu8],
        seq![0x73u8, 0x63u8, 0x73u8, 0x69u8, 0x5fu8],
        seq![0x75u8, 0x66u8, 0x73u8, 0x5fu8],
        seq![0x66u8, 0x32u8, 0x66u8, 0x73u8, 0x5fu8],
        seq![0x65u8, 0x78u8, 0x74u8, 0x34u8, 0x5fu8],
        seq![0x70u8, 0x72u8, 0x6fu8, 0x63u8, 0x5fu8],
        seq![0x72u8, 0x63u8, 0x75u8, 0x5fu8],
        seq![0x73u8, 0x63u8, 0x68u8, 0x65u8, 0x64u8, 0x5fu8],
        seq![0x69u8, 0x6fu8, 0x72u8, 0x65u8, 0x6du8, 0x61u8, 0x70u8],
        seq![0x6du8, 0x6fu8, 0x64u8, 0x75u8, 0x6cu8, 0x65u8, 0x5fu8],
        seq![0x73u8, 0x65u8, 0x63u8, 0x75u8, 0x72u8, 0x69u8, 0x74u8, 0x79u8, 0x5fu8],
        seq![0x64u8, 0x65u8, 0x62u8, 0x75u8, 0x67u8, 0x5fu8]
    ]
}

/// Common kernel prefixes to score plausible decoded names.
pub fn common_prefixes() -> (r: Vec<Vec<u8>>)
    ensures
        r.deep_view() == spec_common_prefixes(),
{
    let r = vec![
        vec![0x5fu8, 0x5fu8],
        vec![0x5fu8, 0x73u8],
        vec![0x5fu8, 0x74u8],
        vec![0x69u8, 0x6eu8, 0x69u8, 0x74u8],
        vec![0x65u8, 0x78u8, 0x74u8],
        vec![0x64u8, 0x72u8, 0x6du8, 0x5fu8],
        vec![0x63u8, 0x6cu8, 0x6bu8, 0x5fu8],
        vec![0x64u8, 0x65u8, 0x76u8, 0x6du8, 0x5fu8],
        vec![0x74u8, 0x72u8, 0x61u8, 0x63u8, 0x65u8],
        vec![0x63u8, 0x70u8, 0x75u8, 0x5fu8],
        vec![0x61u8, 0x72u8, 0x6du8, 0x5fu8],
        vec![0x61u8, 0x72u8, 0x63u8, 0x68u8, 0x5fu8],
        vec![0x6du8, 0x6du8, 0x5fu8],
        vec![0x76u8, 0x6du8, 0x5fu8],
        vec![0x6bu8, 0x6du8, 0x65u8, 0x6du8],
        vec![0x6du8, 0x65u8, 0x6du8],
        vec![0x75u8, 0x73u8, 0x62u8, 0x5fu8],
        vec![0x70u8, 0x63u8, 0x69u8, 0x65u8, 0x5fu8],
        vec![0x6eu8, 0x76u8, 0x6du8, 0x65u8, 0x5fu8],
        vec![0x73u8, 0x63u8, 0x73u8, 0x69u8, 0x5fu8],
        vec![0x75u8, 0x66u8, 0x73u8, 0x5fu8],
        vec![0x66u8, 0x32u8, 0x66u8, 0x73u8, 0x5fu8],
        vec![0x65u8, 0x78u8, 0x74u8, 0x34u8, 0x5fu8],
        vec![0x70u8, 0x72u8, 0x6fu8, 0x63u8, 0x5fu8],
        vec![0x72u8, 0x63u8, 0x75u8, 0x5fu8],
        vec![0x73u8, 0x63u8, 0x68u8, 0x65u8, 0x64u8, 0x5fu8],
        vec![0x69u8, 0x6fu8, 0x72u8, 0x65u8, 0x6du8, 0x61u8, 0x70u8],
        vec![0x6du8, 0x6fu8, 0x64u8, 0x75u8, 0x6cu8, 0x65u8, 0x5fu8],
        vec![0x73u8, 0x65u8, 0x63u8, 0x75u8, 0x72u8, 0x69u8, 0x74u8, 0x79u8, 0x5fu8],
        vec![0x64u8, 0x65u8, 0x62u8, 0x75u8, 0x67u8, 0x5fu8]
    ];
    assert(r.deep_view()[0] =~= spec_common_prefixes()[0]);
    assert(r.deep_view()[1] =~= spec_common_prefixes()[1]);
    assert(r.deep_view()[2] =~= spec_common_prefixes()[2]);
    assert(r.deep_view()[3] =~= spec_common_prefixes()[3]);
    assert(r.deep_view()[4] =~= spec_common_prefixes()[4]);
    assert(r.deep_view()[5] =~= spec_common_prefixes()[5]);
    assert(r.deep_view()[6] =~= spec_common_prefixes()[6]);
    assert(r.deep_view()[7] =~= spec_common_prefixes()[7]);
    assert(r.deep_view()[8] =~= spec_common_prefixes()[8]);
    assert(r.deep_view()[9] =~= spec_common_prefixes()[9]);
    assert(r.deep_view()[10] =~= spec_common_prefixes()[10]);
    assert(r.deep_view()[11] =~= spec_common_prefixes()[11]);
    assert(r.deep_view()[12] =~= spec_common_prefixes()[12]);
    assert(r.deep_view()[13] =~= spec_common_prefixes()[13]);
    assert(r.deep_view()[14] =~= spec_common_prefixes()[14]);
    assert(r.deep_view()[15] =~= spec_common_prefixes()[15]);
    assert(r.deep_view()[16] =~= spec_common_prefixes()[16]);
    assert(r.deep_view()[17] =~= spec_common_prefixes()[17]);
    assert(r.deep_view()[18] =~= spec_common_prefixes()[18]);
    assert(r.deep_view()[19] =~= spec_common_prefixes()[19]);
    assert(r.deep_view()[20] =~= spec_common_prefixes()[20]);
    assert(r.deep_view()[21] =~= spec_common_prefixes()[21]);
    assert(r.deep_view()[22] =~= spec_common_prefixes()[22]);
    assert(r.deep_view()[23] =~= spec_common_prefixes()[23]);
    assert(r.deep_view()[24] =~= spec_common_prefixes()[24]);
    assert(r.deep_view()[25] =~= spec_common_prefixes()[25]);
    assert(r.deep_view()[26] =~= spec_common_prefixes()[26]);
    assert(r.deep_view()[27] =~= spec_common_prefixes()[27]);
    assert(r.deep_view()[28] =~= spec_common_prefixes()[28]);
    assert(r.deep_view()[29] =~= spec_common_prefixes()[29]);
    assert(r.deep_view() =~= spec_common_prefixes());
    r
}

/// Borrows each prefix as a slice.
pub fn prefix_slices(store: &Vec<Vec<u8>>) -> (r: Vec<&[u8]>)
    ensures
        r@.map_values(|p: &[u8]| p@) == store.deep_view(),
{
    let mut r: Vec<&[u8]> = Vec::new();
    let mut i: usize = 0;
    while i < store.len()
        invariant
            i <= store@.len(),
            r@.map_values(|p: &[u8]| p@) == store.deep_view().take(i as int),
        decreases store@.len() - i,
    {
        let ghost before = r@.map_values(|p: &[u8]| p@);
        r.push(store[i].as_slice());
        assert(store.deep_view()[i as int] == store@[i as int]@);
        assert(r@.map_values(|p: &[u8]| p@) =~= before.push(store@[i as int]@));
        i += 1;
        assert(r@.map_values(|p: &[u8]| p@) =~= store.deep_view().take(i as int));
    }
    assert(store.deep_view().take(i as int) =~= store.deep_view());
    r
}

/// A decoded entry (type byte followed by the name) whose name is plausible.
pub open spec fn out_is_ok(out: Seq<u8>) -> bool {
    out.len() >= 3 && spec_is_valid_symbol_name(out.skip(1))
}

/// A plausible name that starts with a common kernel prefix.
pub open spec fn out_prefix_hit(out: Seq<u8>) -> bool {
    out_is_ok(out) && spec_starts_with_any(out.skip(1), spec_common_prefixes())
}

/// A decoded entry whose name has at most two bytes.
pub open spec fn out_very_short(out: Seq<u8>) -> bool {
    out.len() <= 3
}

/// A short implausible name, as the strict scores count them.
pub open spec fn out_short_bad_strict(out: Seq<u8>) -> bool {
    out.len() >= 3 && !spec_is_valid_symbol_name(out.skip(1)) && out.len() <= 6
}

/// A short implausible name, as the light score counts them (names under
/// two bytes included).
pub open spec fn out_short_bad_light(out: Seq<u8>) -> bool {
    out.len() < 3 || (!spec_is_valid_symbol_name(out.skip(1)) && out.len() <= 6)
}

pub open spec fn ok_count(outs: Seq<Seq<u8>>) -> int {
    count_where(outs, |o: Seq<u8>| out_is_ok(o)) as int
}

pub open spec fn prefix_count(outs: Seq<Seq<u8>>) -> int {
    count_where(outs, |o: Seq<u8>| out_prefix_hit(o)) as int
}

pub open spec fn very_short_count(outs: Seq<Seq<u8>>) -> int {
    count_where(outs, |o: Seq<u8>| out_very_short(o)) as int
}

pub open spec fn short_bad_strict_count(outs: Seq<Seq<u8>>) -> int {
    count_where(outs, |o: Seq<u8>| out_short_bad_strict(o)) as int
}

pub open spec fn short_bad_light_count(outs: Seq<Seq<u8>>) -> int {
    count_where(outs, |o: Seq<u8>| out_short_bad_light(o)) as int
}

/// Strict plausibility: `ok - 0.7 short_bad - 0.9 very_short + 0.35 prefix`
/// over the number of samples, clamped to `[0, 1]`; zero for no samples.
pub open spec fn strict_score(t: int, outs: Seq<Seq<u8>>) -> Score {
    if t == 0 {
        Score { num: 0, den: 1 }
    } else {
        mk_score(100 * ok_count(outs) - 70 * short_bad_strict_count(outs) - 90 * very_short_count(outs)
            + 35 * prefix_count(outs), 100 * t)
    }
}

/// Light plausibility: `ok - 0.4 short_bad + 0.25 prefix` over the number of
/// names, clamped to `[0, 1]`; zero for no samples.
pub open spec fn light_score(t: int, outs: Seq<Seq<u8>>) -> Score {
    if t == 0 {
        Score { num: 0, den: 1 }
    } else {
        mk_score(20 * ok_count(outs) - 8 * short_bad_light_count(outs) + 5 * prefix_count(outs), 20 * t)
    }
}

/// Strategy plausibility: `ok - 0.5 short_bad - 0.7 very_short + 0.3 prefix`
/// over the number of samples, clamped to `[0, 1]`; zero for no samples.
pub open spec fn strategy_score(t: int, outs: Seq<Seq<u8>>) -> Score {
    if t == 0 {
        Score { num: 0, den: 1 }
    } else {
        mk_score(10 * ok_count(outs) - 5 * short_bad_strict_count(outs) - 7 * very_short_count(outs)
            + 3 * prefix_count(outs), 10 * t)
    }
}

/// Per-class counts of a run of decoded names.
pub struct NameCounts {
    pub total: u64,
    pub ok: u64,
    pub prefix_hits: u64,
    pub very_short: u64,
    pub short_bad_strict: u64,
    pub short_bad_light: u64,
}

/// `c` holds the counts of `outs`, out of `total` samples (empty samples are
/// counted in `total` but decode to nothing).
pub open spec fn counts_of(c: NameCounts, total: int, outs: Seq<Seq<u8>>) -> bool {
    &&& c.total == total
    &&& outs.len() <= total
    &&& c.ok == ok_count(outs)
    &&& c.prefix_hits == prefix_count(outs)
    &&& c.very_short == very_short_count(outs)
    &&& c.short_bad_strict == short_bad_strict_count(outs)
    &&& c.short_bad_light == short_bad_light_count(outs)
}

pub proof fn lemma_counts_bounded(outs: Seq<Seq<u8>>)
    ensures
        0 <= ok_count(outs) <= outs.len(),
        0 <= prefix_count(outs) <= outs.len(),
        0 <= very_short_count(outs) <= outs.len(),
        0 <= short_bad_strict_count(outs) <= outs.len(),
        0 <= short_bad_light_count(outs) <= outs.len(),
{
    lemma_count_where_le(outs, |o: Seq<u8>| out_is_ok(o));
    lemma_count_where_le(outs, |o: Seq<u8>| out_prefix_hit(o));
    lemma_count_where_le(outs, |o: Seq<u8>| out_very_short(o));
    lemma_count_where_le(outs, |o: Seq<u8>| out_short_bad_strict(o));
    lemma_count_where_le(outs, |o: Seq<u8>| out_short_bad_light(o));
}

pub fn strict_score_of(c: &NameCounts, Ghost(total): Ghost<int>, Ghost(outs): Ghost<Seq<Seq<u8>>>) -> (s: Score)
    requires
        counts_of(*c, total, outs),
        total <= 0x1_0000_0000,
    ensures
        s == strict_score(total, outs),
        s.den > 0,
        s.num <= s.den <= 0x64_0000_0000,
{
    proof { lemma_counts_bounded(outs); }
    if c.total == 0 {
        return Score { num: 0, den: 1 };
    }
    let num = 100 * (c.ok as i64) - 70 * (c.short_bad_strict as i64) - 90 * (c.very_short as i64) + 35 * (c.prefix_hits as i64);
    make_score(num, 100 * c.total)
}

pub fn light_score_of(c: &NameCounts, Ghost(total): Ghost<int>, Ghost(outs): Ghost<Seq<Seq<u8>>>) -> (s: Score)
    requires
        counts_of(*c, total, outs),
        total <= 0x1_0000_0000,
    ensures
        s == light_score(total, outs),
        s.den > 0,
        s.num <= s.den <= 0x64_0000_0000,
{
    proof { lemma_counts_bounded(outs); }
    if c.total == 0 {
        return Score { num: 0, den: 1 };
    }
    let num = 20 * (c.ok as i64) - 8 * (c.short_bad_light as i64) + 5 * (c.prefix_hits as i64);
    make_score(num, 20 * c.total)
}

pub fn strategy_score_of(c: &NameCounts, Ghost(total): Ghost<int>, Ghost(outs): Ghost<Seq<Seq<u8>>>) -> (s: Score)
    requires
        counts_of(*c, total, outs),
        total <= 0x1_0000_0000,
    ensures
        s == strategy_score(total, outs),
        s.den > 0,
        s.num <= s.den <= 0x64_0000_0000,
{
    proof { lemma_counts_bounded(outs); }
    if c.total == 0 {
        return Score { num: 0, den: 1 };
    }
    let num = 10 * (c.ok as i64) - 5 * (c.short_bad_strict as i64) - 7 * (c.very_short as i64) + 3 * (c.prefix_hits as i64);
    make_score(num, 10 * c.total)
}

} // verus!
