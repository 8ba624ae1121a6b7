//! Samsung-specific kallsyms extractor.
//!
//! Samsung kernels often have stripped kallsyms tables or use custom formats.
//! When the standard parser fails, symbols are synthesized from function
//! prologue signatures found by scanning the image.

use std::collections::HashSet;
use vstd::prelude::*;
use vstd::string::StringExecFns;
use crate::bytes::{fits_in_memory, le_uint, read_u32};
use crate::candidates::sat_sub;
use crate::decompress::{decompress_kernel_if_needed, spec_decompress};
use crate::error::KallsymsError;
use crate::parser::{Kallsyms, lemma_tables_of_same_list_agree, parse_outcome, build_indexes, indexes_match, is_stable_address_sort, is_symbol_table_of, sort_symbols_by_address, spec_parse_symbols, symbol_triple, symbol_triples};
use crate::text::{hex_lower, push_hex_lower};
use crate::types::{Symbol, SymbolType};

verus! {

/// Name prefix of the `k`-th function signature.
pub open spec fn sig_prefix(k: int) -> Seq<char> {
    if k == 0 {
        "__do_sys"@
    } else if k == 1 {
        "__arm64_"@
    } else if k == 2 {
        "sys_"@
    } else if k == 3 {
        "do_syscall_"@
    } else if k == 4 {
        "_text"@
    } else if k == 5 {
        "stext"@
    } else {
        "start_kernel"@
    }
}

/// The four starting bytes of the `k`-th function signature.
pub open spec fn sig_pattern(k: int) -> Seq<u8> {
    if k == 0 {
        seq![0x48u8, 0x89, 0x5c, 0x24]
    } else if k == 1 || k == 3 || k == 5 {
        seq![0xd5u8, 0x3b, 0xbf, 0xa9]
    } else {
        seq![0xa9u8, 0xbf, 0x7b, 0xfd]
    }
}

/// The `k`-th ARM64 function prologue (STP forms).
pub open spec fn prologue_pattern(k: int) -> Seq<u8> {
    if k == 0 {
        seq![0xf8u8, 0x5f, 0xbc, 0xa9]
    } else if k == 1 {
        seq![0xf8u8, 0x57, 0xbd, 0xa9]
    } else if k == 2 {
        seq![0xf7u8, 0x5b, 0xbc, 0xa9]
    } else if k == 3 {
        seq![0xf7u8, 0x53, 0xbd, 0xa9]
    } else if k == 4 {
        seq![0xfdu8, 0x7b, 0xbc, 0xa9]
    } else {
        seq![0xfdu8, 0x7b, 0xbd, 0xa9]
    }
}

fn signature(k: usize) -> (r: (&'static str, [u8; 4]))
    requires
        k < 7,
    ensures
        r.0@ == sig_prefix(k as int),
        r.1@ == sig_pattern(k as int),
{
    let r: (&'static str, [u8; 4]) = if k == 0 {
        ("__do_sys", [0x48, 0x89, 0x5c, 0x24])
    } else if k == 1 {
        ("__arm64_", [0xd5, 0x3b, 0xbf, 0xa9])
    } else if k == 2 {
        ("sys_", [0xa9, 0xbf, 0x7b, 0xfd])
    } else if k == 3 {
        ("do_syscall_", [0xd5, 0x3b, 0xbf, 0xa9])
    } else if k == 4 {
        ("_text", [0xa9, 0xbf, 0x7b, 0xfd])
    } else if k == 5 {
        ("stext", [0xd5, 0x3b, 0xbf, 0xa9])
    } else {
        ("start_kernel", [0xa9, 0xbf, 0x7b, 0xfd])
    };
    assert(r.1@ =~= sig_pattern(k as int));
    r
}

fn prologue(k: usize) -> (r: [u8; 4])
    requires
        k < 6,
    ensures
        r@ == prologue_pattern(k as int),
{
    let r: [u8; 4] = if k == 0 {
        [0xf8, 0x5f, 0xbc, 0xa9]
    } else if k == 1 {
        [0xf8, 0x57, 0xbd, 0xa9]
    } else if k == 2 {
        [0xf7, 0x5b, 0xbc, 0xa9]
    } else if k == 3 {
        [0xf7, 0x53, 0xbd, 0xa9]
    } else if k == 4 {
        [0xfd, 0x7b, 0xbc, 0xa9]
    } else {
        [0xfd, 0x7b, 0xbd, 0xa9]
    };
    assert(r@ =~= prologue_pattern(k as int));
    r
}

/// A synthesized symbol name: `prefix`, `_0x` and the lowercase hex address.
pub open spec fn name_for(prefix: Seq<char>, addr: u64) -> Seq<char> {
    prefix + "_0x"@ + hex_lower(addr as int)
}

/// Some symbol of `list` is at `a`.
pub open spec fn has_address(list: Seq<(u64, SymbolType, Seq<char>)>, a: u64) -> bool {
    exists|j: int| 0 <= j < list.len() && (#[trigger] list[j]).0 == a
}

/// Scans positions `i..end` for `pat` (only 4-aligned positions when
/// `aligned_only`); each hit at a new 4-aligned address adds a text symbol
/// named after `prefix`.
pub open spec fn scan_pattern(
    d: Seq<u8>, pat: Seq<u8>, prefix: Seq<char>, aligned_only: bool, list: Seq<(u64, SymbolType, Seq<char>)>, i: int, end: int,
) -> Seq<(u64, SymbolType, Seq<char>)>
    decreases end - i,
{
    if i >= end {
        list
    } else {
        let a = (i - i % 4) as u64;
        let hit = (!aligned_only || i % 4 == 0) && d.subrange(i, i + 4) == pat;
        let next = if hit && !has_address(list, a) {
            list.push((a, SymbolType::Text, name_for(prefix, a)))
        } else {
            list
        };
        scan_pattern(d, pat, prefix, aligned_only, next, i + 1, end)
    }
}

/// Symbols from the first `k` function signatures, in discovery order.
pub open spec fn signature_hits(d: Seq<u8>, k: nat) -> Seq<(u64, SymbolType, Seq<char>)>
    decreases k,
{
    if k == 0 {
        Seq::empty()
    } else {
        scan_pattern(d, sig_pattern(k - 1), sig_prefix(k - 1), false, signature_hits(d, (k - 1) as nat), 0, d.len() - 4)
    }
}

/// Symbols from all signatures and the first `k` prologues, in discovery
/// order; on images over 10 000 000 bytes prologues count at 4-aligned
/// positions only.
pub open spec fn prologue_hits(d: Seq<u8>, k: nat) -> Seq<(u64, SymbolType, Seq<char>)>
    decreases k,
{
    if k == 0 {
        signature_hits(d, 7)
    } else {
        scan_pattern(d, prologue_pattern(k - 1), "function"@, d.len() > 10_000_000, prologue_hits(d, (k - 1) as nat), 0, d.len() - 4)
    }
}

/// All pattern-found symbols, in discovery order (first name per address).
pub open spec fn samsung_found(d: Seq<u8>) -> Seq<(u64, SymbolType, Seq<char>)> {
    prologue_hits(d, 6)
}

/// ARM64 STP (`a9..`) or STR (`f9..`) store word.
pub open spec fn is_store_instruction(instr: u32) -> bool {
    (instr & 0xFFC0_0000u32) == 0xA900_0000u32 || (instr & 0xFFC0_0000u32) == 0xF900_0000u32
}

/// Appends a text symbol for each 4-aligned store instruction at
/// `i, i + 4, ...` before `end` whose address no symbol has yet.
pub open spec fn fallback_scan(d: Seq<u8>, list: Seq<(u64, SymbolType, Seq<char>)>, i: int, end: int) -> Seq<(u64, SymbolType, Seq<char>)>
    decreases end + 4 - i,
{
    if i >= end {
        list
    } else {
        let next = if is_store_instruction(le_uint(d, i, 4) as u32) && !has_address(list, i as u64) {
            list.push((i as u64, SymbolType::Text, name_for("func"@, i as u64)))
        } else {
            list
        };
        fallback_scan(d, next, i + 4, end)
    }
}

proof fn lemma_fallback_grows(d: Seq<u8>, list: Seq<(u64, SymbolType, Seq<char>)>, i: int, end: int)
    ensures
        fallback_scan(d, list, i, end).len() >= list.len(),
    decreases end + 4 - i,
{
    if i < end {
        let next = if is_store_instruction(le_uint(d, i, 4) as u32) && !has_address(list, i as u64) {
            list.push((i as u64, SymbolType::Text, name_for("func"@, i as u64)))
        } else {
            list
        };
        lemma_fallback_grows(d, next, i + 4, end);
    }
}

/// The symbols extracted from `d`, given the sorted pattern-found symbols:
/// fewer than 100 of them are completed by the store-instruction scan.
pub open spec fn samsung_symbols(d: Seq<u8>, sorted: Seq<(u64, SymbolType, Seq<char>)>) -> Seq<(u64, SymbolType, Seq<char>)> {
    if sorted.len() < 100 {
        fallback_scan(d, sorted, 0, sat_sub(d.len() as int, 8))
    } else {
        sorted
    }
}

/// `k` holds the symbols that pattern scanning extracts from `d`.
pub open spec fn is_samsung_table_of(k: Kallsyms, d: Seq<u8>) -> bool {
    &&& exists|s: Seq<(u64, SymbolType, Seq<char>)>|
        is_stable_address_sort(samsung_found(d), s) && #[trigger] samsung_symbols(d, s) == symbol_triples(k.symbols@)
    &&& k.symbols@.len() > 0
    &&& indexes_match(k)
}

/// `seen` holds exactly the addresses of `list`.
pub open spec fn seen_matches(seen: Set<u64>, list: Seq<(u64, SymbolType, Seq<char>)>) -> bool {
    forall|a: u64| #[trigger] seen.contains(a) <==> has_address(list, a)
}

fn make_name(prefix: &str, addr: u64) -> (s: String)
    ensures
        s@ == name_for(prefix@, addr),
{
    let mut s = String::new();
    s.append(prefix);
    s.append("_0x");
    push_hex_lower(&mut s, addr);
    s
}

fn matches_at(data: &[u8], i: usize, pat: &[u8; 4]) -> (r: bool)
    requires
        i + 4 <= data@.len(),
    ensures
        r == (data@.subrange(i as int, i + 4) == pat@),
{
    let r = data[i] == pat[0] && data[i + 1] == pat[1] && data[i + 2] == pat[2] && data[i + 3] == pat[3];
    proof {
        let w = data@.subrange(i as int, i + 4);
        if r {
            assert(w =~= pat@);
        } else if w == pat@ {
            assert(w[0] == pat@[0] && w[1] == pat@[1] && w[2] == pat@[2] && w[3] == pat@[3]);
        }
    }
    r
}

fn scan_pattern_exec(
    data: &[u8], pat: &[u8; 4], prefix: &str, aligned_only: bool, symbols: &mut Vec<Symbol>, seen: &mut HashSet<u64>,
)
    requires
        data@.len() >= 4,
        seen_matches(old(seen)@, symbol_triples(old(symbols)@)),
    ensures
        symbol_triples(final(symbols)@) == scan_pattern(data@, pat@, prefix@, aligned_only, symbol_triples(old(symbols)@), 0, data@.len() - 4),
        seen_matches(final(seen)@, symbol_triples(final(symbols)@)),
{
    broadcast use vstd::std_specs::hash::group_hash_axioms;
    let ghost target = scan_pattern(data@, pat@, prefix@, aligned_only, symbol_triples(symbols@), 0, data@.len() - 4);
    let end = data.len() - 4;
    let mut i: usize = 0;
    while i < end
        invariant
            end == data@.len() - 4,
            i <= end,
            seen_matches(seen@, symbol_triples(symbols@)),
            scan_pattern(data@, pat@, prefix@, aligned_only, symbol_triples(symbols@), i as int, end as int) == target,
        decreases end - i,
    {
        if (!aligned_only || i % 4 == 0) && matches_at(data, i, pat) {
            let addr = (i - i % 4) as u64;
            if !seen.contains(&addr) {
                let name = make_name(prefix, addr);
                let sym = Symbol { address: addr, symbol_type: SymbolType::Text, name };
                let ghost before = symbol_triples(symbols@);
                symbols.push(sym);
                seen.insert(addr);
                proof {
                    let after = symbol_triples(symbols@);
                    assert(after =~= before.push(symbol_triple(sym)));
                    assert forall|a: u64| #[trigger] seen@.contains(a) <==> has_address(after, a) by {
                        if has_address(before, a) {
                            let j = choose|j: int| 0 <= j < before.len() && (#[trigger] before[j]).0 == a;
                            assert(after[j] == before[j]);
                        }
                        if a == addr {
                            assert(after[before.len() as int].0 == a);
                        }
                        if has_address(after, a) && a != addr {
                            let j = choose|j: int| 0 <= j < after.len() && (#[trigger] after[j]).0 == a;
                            assert(before[j] == after[j]);
                        }
                    }
                }
            }
        }
        i += 1;
    }
}

fn fallback_scan_exec(data: &[u8], symbols: &mut Vec<Symbol>, seen: &mut HashSet<u64>)
    requires
        seen_matches(old(seen)@, symbol_triples(old(symbols)@)),
    ensures
        symbol_triples(final(symbols)@) == fallback_scan(data@, symbol_triples(old(symbols)@), 0, sat_sub(data@.len() as int, 8)),
{
    broadcast use vstd::std_specs::hash::group_hash_axioms;
    let ghost target = fallback_scan(data@, symbol_triples(symbols@), 0, sat_sub(data@.len() as int, 8));
    let end = data.len().saturating_sub(8);
    let mut i: usize = 0;
    loop
        invariant_except_break
            fallback_scan(data@, symbol_triples(symbols@), i as int, end as int) == target,
        invariant
            end == sat_sub(data@.len() as int, 8),
            end + 8 <= data@.len() || end == 0,
            seen_matches(seen@, symbol_triples(symbols@)),
        ensures
            symbol_triples(symbols@) == target,
        decreases end + 4 - i,
    {
        if i >= end {
            break;
        }
        let ghost list0 = symbol_triples(symbols@);
        let instr = read_u32(data, i, false);
        let is_stp = (instr & 0xFFC0_0000) == 0xA900_0000;
        let is_str = (instr & 0xFFC0_0000) == 0xF900_0000;
        let addr = i as u64;
        if (is_stp || is_str) && !seen.contains(&addr) {
            let name = make_name("func", addr);
            let sym = Symbol { address: addr, symbol_type: SymbolType::Text, name };
            let ghost before = symbol_triples(symbols@);
            symbols.push(sym);
            seen.insert(addr);
            proof {
                let after = symbol_triples(symbols@);
                assert(after =~= before.push(symbol_triple(sym)));
                assert forall|a: u64| #[trigger] seen@.contains(a) <==> has_address(after, a) by {
                    if has_address(before, a) {
                        let j = choose|j: int| 0 <= j < before.len() && (#[trigger] before[j]).0 == a;
                        assert(after[j] == before[j]);
                    }
                    if a == addr {
                        assert(after[before.len() as int].0 == a);
                    }
                    if has_address(after, a) && a != addr {
                        let j = choose|j: int| 0 <= j < after.len() && (#[trigger] after[j]).0 == a;
                        assert(before[j] == after[j]);
                    }
                }
            }
        }
        assert(fallback_scan(data@, list0, i as int, end as int) == fallback_scan(data@, symbol_triples(symbols@), i + 4, end as int));
        if end - i < 4 {
            assert(fallback_scan(data@, symbol_triples(symbols@), i + 4, end as int) == symbol_triples(symbols@));
            break;
        }
        i += 4;
    }
}

} // verus!

verus! {

fn scan_patterns(data: &[u8]) -> (r: (Vec<Symbol>, HashSet<u64>))
    requires
        data@.len() >= 4,
    ensures
        symbol_triples(r.0@) == samsung_found(data@),
        seen_matches(r.1@, symbol_triples(r.0@)),
{
    broadcast use vstd::std_specs::hash::group_hash_axioms;
    let mut symbols: Vec<Symbol> = Vec::new();
    let mut seen: HashSet<u64> = HashSet::new();
    assert(symbol_triples(symbols@) =~= Seq::<(u64, SymbolType, Seq<char>)>::empty());
    let mut k: usize = 0;
    while k < 7
        invariant
            data@.len() >= 4,
            k <= 7,
            symbol_triples(symbols@) == signature_hits(data@, k as nat),
            seen_matches(seen@, symbol_triples(symbols@)),
        decreases 7 - k,
    {
        let (prefix, pattern) = signature(k);
        scan_pattern_exec(data, &pattern, prefix, false, &mut symbols, &mut seen);
        k += 1;
    }
    let aligned_only = data.len() > 10_000_000;
    let mut k: usize = 0;
    while k < 6
        invariant
            data@.len() >= 4,
            k <= 6,
            aligned_only == (data@.len() > 10_000_000),
            symbol_triples(symbols@) == prologue_hits(data@, k as nat),
            seen_matches(seen@, symbol_triples(symbols@)),
        decreases 6 - k,
    {
        let pattern = prologue(k);
        scan_pattern_exec(data, &pattern, "function", aligned_only, &mut symbols, &mut seen);
        k += 1;
    }
    (symbols, seen)
}

fn address_set(symbols: &Vec<Symbol>) -> (seen: HashSet<u64>)
    ensures
        seen_matches(seen@, symbol_triples(symbols@)),
{
    broadcast use vstd::std_specs::hash::group_hash_axioms;
    let mut seen: HashSet<u64> = HashSet::new();
    let mut i: usize = 0;
    while i < symbols.len()
        invariant
            i <= symbols@.len(),
            seen_matches(seen@, symbol_triples(symbols@.take(i as int))),
        decreases symbols@.len() - i,
    {
        seen.insert(symbols[i].address);
        proof {
            let before = symbol_triples(symbols@.take(i as int));
            let after = symbol_triples(symbols@.take(i + 1));
            assert(after =~= before.push(symbol_triple(symbols@[i as int])));
            let addr = symbols@[i as int].address;
            assert forall|a: u64| #[trigger] seen@.contains(a) <==> has_address(after, a) by {
                if has_address(before, a) {
                    let j = choose|j: int| 0 <= j < before.len() && (#[trigger] before[j]).0 == a;
                    assert(after[j] == before[j]);
                }
                if a == addr {
                    assert(after[before.len() as int].0 == a);
                }
                if has_address(after, a) && a != addr {
                    let j = choose|j: int| 0 <= j < after.len() && (#[trigger] after[j]).0 == a;
                    assert(before[j] == after[j]);
                }
            }
        }
        i += 1;
    }
    assert(symbols@.take(i as int) =~= symbols@);
    seen
}

/// The outcome of the Samsung extractor on `kernel`: the standard parse when
/// it succeeds, else the pattern-scanned symbols (not found when there are
/// none), or the decompression error.
pub open spec fn samsung_outcome(kernel: Seq<u8>, r: Result<Kallsyms, KallsymsError>) -> bool {
    match spec_decompress(kernel) {
        Err(m) => r matches Err(e) && e matches KallsymsError::Decompression(s) && s@ == m,
        Ok(d) => match spec_parse_symbols(d) {
            Ok(list) => r matches Ok(k) && is_symbol_table_of(k, list),
            Err(_) => match r {
                Ok(k) => is_samsung_table_of(k, d),
                Err(e) => e is NotFound && samsung_found(d).len() == 0
                    && fallback_scan(d, Seq::empty(), 0, sat_sub(d.len() as int, 8)).len() == 0,
            },
        },
    }
}

/// Extract kallsyms directly from Samsung kernel using signature scanning.
pub fn extract_samsung_kallsyms(kernel_data: &[u8]) -> (r: Result<Kallsyms, KallsymsError>)
    requires
        fits_in_memory(kernel_data@.len()),
        spec_decompress(kernel_data@) matches Ok(d) ==> d.len() >= 4,
    ensures
        samsung_outcome(kernel_data@, r),
{
    match Kallsyms::parse(kernel_data) {
        Ok(k) => return Ok(k),
        Err(_) => {},
    }
    let data = match decompress_kernel_if_needed(kernel_data) {
        Ok(d) => d,
        Err(e) => return Err(e),
    };
    let (mut symbols, _) = scan_patterns(data.as_slice());
    let ghost found = symbol_triples(symbols@);
    sort_symbols_by_address(&mut symbols);
    let ghost sorted = symbol_triples(symbols@);
    let mut seen = address_set(&symbols);
    if symbols.len() < 100 {
        fallback_scan_exec(data.as_slice(), &mut symbols, &mut seen);
    }
    assert(symbol_triples(symbols@) == samsung_symbols(data@, sorted));
    if symbols.len() == 0 {
        proof {
            lemma_fallback_grows(data@, sorted, 0, sat_sub(data@.len() as int, 8));
            assert(sorted.len() == found.len());
            assert(sorted =~= Seq::<(u64, SymbolType, Seq<char>)>::empty());
        }
        return Err(KallsymsError::NotFound);
    }
    let (by_name, by_address) = build_indexes(&symbols);
    let k = Kallsyms { symbols, by_name, by_address };
    assert(is_stable_address_sort(samsung_found(data@), sorted) && samsung_symbols(data@, sorted) == symbol_triples(k.symbols@));
    Ok(k)
}

/// Runs the Samsung extractor when the kernel decompresses (or is kept) to
/// at least four bytes; gives `None` for shorter images.
pub fn try_extract_samsung_kallsyms(kernel_data: &[u8]) -> (r: Option<Result<Kallsyms, KallsymsError>>)
    requires
        fits_in_memory(kernel_data@.len()),
    ensures
        match r {
            None => spec_decompress(kernel_data@) matches Ok(d) && d.len() < 4,
            Some(res) => !(spec_decompress(kernel_data@) matches Ok(d) && d.len() < 4) && samsung_outcome(kernel_data@, res),
        },
{
    match decompress_kernel_if_needed(kernel_data) {
        Ok(d) => {
            if d.len() < 4 {
                return None;
            }
        },
        Err(_) => {},
    }
    Some(extract_samsung_kallsyms(kernel_data))
}

} // verus!

verus! {

/// When the standard parser succeeds on a kernel image, the Samsung
/// extractor returns the same table: the same symbols in the same order, the
/// same address index and the same name index.
pub proof fn lemma_samsung_keeps_standard_parse(kernel: Seq<u8>, k0: Kallsyms, r: Result<Kallsyms, KallsymsError>)
    requires
        parse_outcome(kernel, Ok(k0)),
        samsung_outcome(kernel, r),
    ensures
        r matches Ok(k) && symbol_triples(k.symbols@) == symbol_triples(k0.symbols@) && k.by_address@ == k0.by_address@
            && k.by_name@.dom() == k0.by_name@.dom()
            && forall|name: Seq<char>| #[trigger] k.by_name@.contains_key(name) ==> k.by_name@[name]@ == k0.by_name@[name]@,
{
    let d = spec_decompress(kernel)->Ok_0;
    let list = spec_parse_symbols(d)->Ok_0;
    let k = r->Ok_0;
    lemma_tables_of_same_list_agree(k, k0, list);
}

} // verus!
