//! High-level parser: orchestrates discovery, decoding, and final assembly.

use std::collections::HashMap;
use vstd::hash_map::StringHashMap;
use vstd::prelude::*;
use vstd::slice::{slice_subrange, slice_to_vec};
use vstd::utf8::{decode_utf8, valid_utf8};
use crate::addresses::{find_and_read_addresses, spec_find_addresses};
use crate::bytes::fits_in_memory;
use crate::candidates::{find_complete_kallsyms_structure, spec_find_layout};
use crate::decoder::{decode_all_names_with_strategy, detect_remap_candidates, opt_array_view, select_decode_strategy, selected_decoding, spec_decode_names, spec_detect_remaps};
use crate::decompress::{decompress_kernel_if_needed, spec_decompress};
use crate::error::{KallsymsError, is_invalid_format};
use crate::names::{lemma_entries_in_data, name_entries};
use crate::tokens::{align_and_read_token_index, extract_tokens_with_name_validation, spec_align_token_index, spec_extract_tokens_validated};
use crate::types::{KallsymsStats, Symbol, SymbolType, spec_from_char, spec_to_char};
use crate::helpers::{count_where, lemma_count_where_step};
use crate::text::{hex_fixed, push_char, push_hex_fixed};
use vstd::string::StringExecFns;

verus! {

/// The characters that `String::from_utf8_lossy` makes of `bytes` (invalid
/// sequences replaced by U+FFFD).
pub uninterp spec fn utf8_lossy(bytes: Seq<u8>) -> Seq<char>;

/// `String::from_utf8`. Trusted: it succeeds exactly on valid UTF-8 and then
/// holds the decoded characters.
#[verifier::external_body]
fn string_from_utf8(bytes: Vec<u8>) -> (r: Option<String>)
    ensures
        r is Some <==> valid_utf8(bytes@),
        r matches Some(s) ==> s@ == decode_utf8(bytes@),
{
    String::from_utf8(bytes).ok()
}

/// `String::from_utf8_lossy`, made an owned `String`. Trusted: its
/// characters are the named `utf8_lossy` of the bytes.
#[verifier::external_body]
fn string_from_utf8_lossy(bytes: &[u8]) -> (s: String)
    ensures
        s@ == utf8_lossy(bytes@),
{
    String::from_utf8_lossy(bytes).to_string()
}

/// A symbol as plain values: address, type and name characters.
pub open spec fn symbol_triple(s: Symbol) -> (u64, SymbolType, Seq<char>) {
    (s.address, s.symbol_type, s.name@)
}

pub open spec fn symbol_triples(s: Seq<Symbol>) -> Seq<(u64, SymbolType, Seq<char>)> {
    s.map_values(|x: Symbol| symbol_triple(x))
}

/// `p` reorders `n` positions: each of `0..n` exactly once.
pub open spec fn is_index_permutation(p: Seq<int>, n: int) -> bool {
    &&& p.len() == n
    &&& forall|k: int| 0 <= k < n ==> 0 <= #[trigger] p[k] < n
    &&& forall|k: int, l: int| 0 <= k < l < n ==> #[trigger] p[k] != #[trigger] p[l]
}

/// `output` is `input` sorted by address, keeping the input order of equal
/// addresses.
pub open spec fn is_stable_address_sort(input: Seq<(u64, SymbolType, Seq<char>)>, output: Seq<(u64, SymbolType, Seq<char>)>) -> bool {
    exists|p: Seq<int>|
        #![trigger is_index_permutation(p, input.len() as int)]
        {
            &&& is_index_permutation(p, input.len() as int)
            &&& output.len() == input.len()
            &&& forall|k: int| 0 <= k < output.len() ==> #[trigger] output[k] == input[p[k]]
            &&& forall|k: int, l: int| 0 <= k < l < output.len() ==> (#[trigger] output[k]).0 <= (#[trigger] output[l]).0
            &&& forall|k: int, l: int| 0 <= k < l < output.len() && (#[trigger] output[k]).0 == (#[trigger] output[l]).0 ==> p[k] < p[l]
        }
}

/// `<[Symbol]>::sort_by_key` with the address as key. Trusted: the sort is
/// stable (std documents it so), so the result is the input ordered by
/// address with equal addresses in input order.
#[verifier::external_body]
pub(crate) fn sort_symbols_by_address(v: &mut Vec<Symbol>)
    ensures
        is_stable_address_sort(symbol_triples(old(v)@), symbol_triples(final(v)@)),
{
    v.sort_by_key(|s| s.address);
}

/// Characters of a decoded name: the UTF-8 decoding when valid, else the
/// lossy conversion.
pub open spec fn name_text(bytes: Seq<u8>) -> Seq<char> {
    if valid_utf8(bytes) {
        decode_utf8(bytes)
    } else {
        utf8_lossy(bytes)
    }
}

/// The symbol of a decoded entry `[type byte | name bytes]` at `addr`.
pub open spec fn entry_symbol(addr: u64, entry: Seq<u8>) -> (u64, SymbolType, Seq<char>) {
    (addr, spec_from_char(entry[0] as char), name_text(entry.skip(1)))
}

/// Symbols of decoded names paired with addresses by position, while both last.
pub open spec fn assemble_symbols(names: Seq<Seq<u8>>, addrs: Seq<u64>) -> Seq<(u64, SymbolType, Seq<char>)> {
    let n = if names.len() <= addrs.len() { names.len() } else { addrs.len() };
    Seq::new(n, |i: int| entry_symbol(addrs[i], names[i]))
}

/// Unsorted symbols of (decompressed) kernel bytes, or the error: `None`
/// for "not found", `Some(message)` for an invalid format.
pub open spec fn spec_parse_symbols(d: Seq<u8>) -> Result<Seq<(u64, SymbolType, Seq<char>)>, Option<Seq<char>>> {
    match spec_find_layout(d) {
        None => Err(None),
        Some(l) => match spec_align_token_index(d, l.token_index_offset as int, l.token_table_offset as int,
            l.names_offset as int, l.names_size as int, l.num_syms as int) {
            None => Err(Some("token index alignment failed"@)),
            Some((index, _)) => match spec_extract_tokens_validated(d, l.token_table_offset as int, index,
                l.names_offset as int, l.names_size as int, l.num_syms as int) {
                None => Err(Some("token table alignment not found"@)),
                Some(((tokens, table_off, _), _)) => {
                    let remaps = spec_detect_remaps(d, table_off, l.names_offset as int, 128 * 1024int);
                    let samples = name_entries(d, l.names_offset as int, l.names_offset + l.names_size,
                        if l.num_syms <= 192 { l.num_syms as nat } else { 192 });
                    let (variant, remap) = selected_decoding(remaps, tokens, index, samples);
                    match spec_decode_names(d, l.names_offset as int, l.names_offset + l.names_size, l.num_syms as nat,
                        variant, tokens, index, remap) {
                        Err(m) => Err(Some(m)),
                        Ok(names) => match spec_find_addresses(d, l.num_syms_offset as int, l.num_syms as nat) {
                            None => Err(Some("addresses not found"@)),
                            Some(addrs) => Ok(assemble_symbols(names, addrs)),
                        },
                    }
                },
            },
        },
    }
}

/// `e` is the error that the spec outcome `m` describes.
pub open spec fn error_matches(e: KallsymsError, m: Option<Seq<char>>) -> bool {
    match m {
        None => e is NotFound,
        Some(msg) => is_invalid_format(e, msg),
    }
}

/// Index of the last symbol at each address among the first `n` symbols.
pub open spec fn address_index(s: Seq<Symbol>, n: nat) -> Map<u64, usize>
    decreases n,
{
    if n == 0 || n > s.len() {
        Map::empty()
    } else {
        address_index(s, (n - 1) as nat).insert(s[n - 1].address, (n - 1) as usize)
    }
}

/// Indices of the symbols named `name` among the first `n` symbols, ascending.
pub open spec fn name_indices(s: Seq<Symbol>, name: Seq<char>, n: nat) -> Seq<usize>
    decreases n,
{
    if n == 0 || n > s.len() {
        Seq::empty()
    } else if s[n - 1].name@ == name {
        name_indices(s, name, (n - 1) as nat).push((n - 1) as usize)
    } else {
        name_indices(s, name, (n - 1) as nat)
    }
}

/// `by_name` maps each symbol name among the first `n` symbols to the
/// ascending indices of the symbols with that name, and nothing else.
pub open spec fn name_index_matches(by_name: Map<Seq<char>, Vec<usize>>, s: Seq<Symbol>, n: nat) -> bool {
    &&& forall|name: Seq<char>| #[trigger] by_name.contains_key(name) <==> name_indices(s, name, n).len() > 0
    &&& forall|name: Seq<char>| #[trigger] by_name.contains_key(name) ==> by_name[name]@ == name_indices(s, name, n)
}

/// Parsed kallsyms and indexes for quick lookups.
pub struct Kallsyms {
    pub symbols: Vec<Symbol>,
    pub by_name: StringHashMap<Vec<usize>>,
    pub by_address: HashMap<u64, usize>,
}

/// The lookup maps of `k` index its symbols: `by_address` maps each address
/// to the last symbol there; `by_name` maps each name to the ascending
/// indices of its symbols.
pub open spec fn indexes_match(k: Kallsyms) -> bool {
    &&& k.by_address@ == address_index(k.symbols@, k.symbols@.len())
    &&& name_index_matches(k.by_name@, k.symbols@, k.symbols@.len())
}

/// `k` is the symbol table of the unsorted symbols `list`.
pub open spec fn is_symbol_table_of(k: Kallsyms, list: Seq<(u64, SymbolType, Seq<char>)>) -> bool {
    &&& is_stable_address_sort(list, symbol_triples(k.symbols@))
    &&& indexes_match(k)
}

/// The outcome of parsing the kernel image `kernel`: the decompression
/// error, or the symbol table of the symbols found in the decompressed
/// bytes, or the error that their discovery reports.
pub open spec fn parse_outcome(kernel: Seq<u8>, r: Result<Kallsyms, KallsymsError>) -> bool {
    match spec_decompress(kernel) {
        Err(m) => r matches Err(e) && e matches KallsymsError::Decompression(s) && s@ == m,
        Ok(d) => match r {
            Ok(k) => spec_parse_symbols(d) matches Ok(list) && is_symbol_table_of(k, list),
            Err(e) => spec_parse_symbols(d) matches Err(m) && error_matches(e, m),
        },
    }
}

/// A symbol table lists its symbols in ascending address order.
pub proof fn lemma_table_sorted(k: Kallsyms, list: Seq<(u64, SymbolType, Seq<char>)>)
    requires
        is_symbol_table_of(k, list),
    ensures
        forall|i: int, j: int| 0 <= i < j < k.symbols@.len() ==> k.symbols@[i].address <= k.symbols@[j].address,
{
    let out = symbol_triples(k.symbols@);
    assert forall|i: int, j: int| 0 <= i < j < k.symbols@.len() implies k.symbols@[i].address <= k.symbols@[j].address by {
        assert(out[i].0 == k.symbols@[i].address);
        assert(out[j].0 == k.symbols@[j].address);
    }
}

/// A symbol table holds each symbol of `list` exactly once: its symbols are
/// those of `list`, reordered.
pub proof fn lemma_table_permutes_list(k: Kallsyms, list: Seq<(u64, SymbolType, Seq<char>)>)
    requires
        is_symbol_table_of(k, list),
    ensures
        k.symbols@.len() == list.len(),
        exists|p: Seq<int>| #[trigger] is_index_permutation(p, list.len() as int)
            && forall|i: int| 0 <= i < list.len() ==> symbol_triple(#[trigger] k.symbols@[i]) == list[p[i]],
{
    let out = symbol_triples(k.symbols@);
    let p = choose|p: Seq<int>| #![trigger is_index_permutation(p, list.len() as int)]
        {
            &&& is_index_permutation(p, list.len() as int)
            &&& out.len() == list.len()
            &&& forall|k: int| 0 <= k < out.len() ==> #[trigger] out[k] == list[p[k]]
            &&& forall|k: int, l: int| 0 <= k < l < out.len() ==> (#[trigger] out[k]).0 <= (#[trigger] out[l]).0
            &&& forall|k: int, l: int| 0 <= k < l < out.len() && (#[trigger] out[k]).0 == (#[trigger] out[l]).0 ==> p[k] < p[l]
        };
    assert forall|i: int| 0 <= i < list.len() implies symbol_triple(#[trigger] k.symbols@[i]) == list[p[i]] by {
        assert(out[i] == symbol_triple(k.symbols@[i]));
    }
}

proof fn lemma_address_index(s: Seq<Symbol>, n: nat, i: int)
    requires
        n <= s.len(),
        n <= usize::MAX,
        0 <= i < n,
    ensures
        address_index(s, n).contains_key(s[i].address),
        i <= address_index(s, n)[s[i].address] < n,
        s[address_index(s, n)[s[i].address] as int].address == s[i].address,
        forall|m: int| address_index(s, n)[s[i].address] < m < n ==> #[trigger] s[m].address != s[i].address,
    decreases n,
{
    let a = s[i].address;
    assert(address_index(s, n) == address_index(s, (n - 1) as nat).insert(s[n - 1].address, (n - 1) as usize));
    if i < n - 1 {
        lemma_address_index(s, (n - 1) as nat, i);
        if s[n - 1].address != a {
            assert(address_index(s, n)[a] == address_index(s, (n - 1) as nat)[a]);
        }
    }
}

proof fn lemma_address_index_sound(s: Seq<Symbol>, n: nat, a: u64)
    requires
        n <= s.len(),
        n <= usize::MAX,
        address_index(s, n).contains_key(a),
    ensures
        address_index(s, n)[a] < n,
        s[address_index(s, n)[a] as int].address == a,
    decreases n,
{
    if n > 0 {
        assert(address_index(s, n) == address_index(s, (n - 1) as nat).insert(s[n - 1].address, (n - 1) as usize));
        if s[n - 1].address != a {
            lemma_address_index_sound(s, (n - 1) as nat, a);
        }
    }
}

/// Looking up the address of any symbol of a table gives the last symbol
/// at that address.
pub proof fn lemma_address_lookup(k: Kallsyms, i: int)
    requires
        indexes_match(k),
        0 <= i < k.symbols@.len(),
    ensures
        k.by_address@.contains_key(k.symbols@[i].address),
        i <= k.by_address@[k.symbols@[i].address] < k.symbols@.len(),
        k.symbols@[k.by_address@[k.symbols@[i].address] as int].address == k.symbols@[i].address,
        forall|m: int| k.by_address@[k.symbols@[i].address] < m < k.symbols@.len()
            ==> #[trigger] k.symbols@[m].address != k.symbols@[i].address,
{
    assert(k.symbols.len() == k.symbols@.len());
    lemma_address_index(k.symbols@, k.symbols@.len(), i);
}

/// Every address in the lookup map belongs to a symbol of the table.
pub proof fn lemma_address_lookup_sound(k: Kallsyms, a: u64)
    requires
        indexes_match(k),
        k.by_address@.contains_key(a),
    ensures
        k.by_address@[a] < k.symbols@.len(),
        k.symbols@[k.by_address@[a] as int].address == a,
{
    assert(k.symbols.len() == k.symbols@.len());
    lemma_address_index_sound(k.symbols@, k.symbols@.len(), a);
}

proof fn lemma_name_indices(s: Seq<Symbol>, name: Seq<char>, n: nat)
    requires
        n <= s.len(),
        n <= usize::MAX,
    ensures
        forall|j: int| 0 <= j < name_indices(s, name, n).len() ==> {
            let m = #[trigger] name_indices(s, name, n)[j];
            m < n && s[m as int].name@ == name
        },
        forall|j1: int, j2: int| 0 <= j1 < j2 < name_indices(s, name, n).len()
            ==> #[trigger] name_indices(s, name, n)[j1] < #[trigger] name_indices(s, name, n)[j2],
        forall|m: int| 0 <= m < n && #[trigger] s[m].name@ == name ==> name_indices(s, name, n).contains(m as usize),
    decreases n,
{
    if n > 0 {
        lemma_name_indices(s, name, (n - 1) as nat);
        let prev = name_indices(s, name, (n - 1) as nat);
        if s[n - 1].name@ == name {
            let cur = name_indices(s, name, n);
            assert(cur == prev.push((n - 1) as usize));
            assert forall|j: int| 0 <= j < cur.len() implies {
                let m = #[trigger] cur[j];
                m < n && s[m as int].name@ == name
            } by {
                if j < prev.len() {
                    assert(cur[j] == prev[j]);
                }
            }
            assert forall|j1: int, j2: int| 0 <= j1 < j2 < cur.len() implies #[trigger] cur[j1] < #[trigger] cur[j2] by {
                assert(cur[j1] == prev[j1]);
                if j2 < prev.len() {
                    assert(cur[j2] == prev[j2]);
                }
            }
            assert forall|m: int| 0 <= m < n && #[trigger] s[m].name@ == name implies cur.contains(m as usize) by {
                if m < n - 1 {
                    let j = choose|j: int| 0 <= j < prev.len() && prev[j] == m as usize;
                    assert(cur[j] == m as usize);
                } else {
                    assert(cur[prev.len() as int] == m as usize);
                }
            }
        }
    }
}

/// Looking up a name gives exactly the indices of the symbols with that
/// name, in ascending order: every listed index holds that name, and every
/// symbol's index is listed under its name.
pub proof fn lemma_name_lookup(k: Kallsyms, name: Seq<char>)
    requires
        indexes_match(k),
    ensures
        k.by_name@.contains_key(name) ==> forall|j: int| 0 <= j < k.by_name@[name]@.len() ==> {
            let m = #[trigger] k.by_name@[name]@[j];
            m < k.symbols@.len() && k.symbols@[m as int].name@ == name
        },
        k.by_name@.contains_key(name) ==> forall|j1: int, j2: int| 0 <= j1 < j2 < k.by_name@[name]@.len()
            ==> #[trigger] k.by_name@[name]@[j1] < #[trigger] k.by_name@[name]@[j2],
        forall|i: int| 0 <= i < k.symbols@.len() && #[trigger] k.symbols@[i].name@ == name
            ==> k.by_name@.contains_key(name) && k.by_name@[name]@.contains(i as usize),
{
    assert(k.symbols.len() == k.symbols@.len());
    lemma_name_indices(k.symbols@, name, k.symbols@.len());
    let l = name_indices(k.symbols@, name, k.symbols@.len());
    assert(name_index_matches(k.by_name@, k.symbols@, k.symbols@.len()));
    assert forall|i: int| 0 <= i < k.symbols@.len() && #[trigger] k.symbols@[i].name@ == name
        implies k.by_name@.contains_key(name) && k.by_name@[name]@.contains(i as usize) by {
        assert(l.contains(i as usize));
        assert(k.by_name@.contains_key(name));
        assert(k.by_name@[name]@ == l);
    }
}

} // verus!

verus! {

proof fn lemma_decoded_names_nonempty(
    d: Seq<u8>, pos: int, end: int, k: nat, v: crate::decoder::DecodeVariant, tokens: Seq<Seq<u8>>, index: Seq<u16>, remap: Option<Seq<u8>>,
)
    ensures
        spec_decode_names(d, pos, end, k, v, tokens, index, remap) matches Ok(names) ==> forall|i: int| 0 <= i < names.len() ==> #[trigger] names[i].len() >= 1,
    decreases k,
{
    if k > 0 && pos < end {
        let len = d[pos] as int;
        lemma_decoded_names_nonempty(d, pos + 1 + len, end, (k - 1) as nat, v, tokens, index, remap);
        if let Ok(names) = spec_decode_names(d, pos, end, k, v, tokens, index, remap) {
            if let Ok(rest) = spec_decode_names(d, pos + 1 + len, end, (k - 1) as nat, v, tokens, index, remap) {
                assert forall|i: int| 0 <= i < names.len() implies #[trigger] names[i].len() >= 1 by {
                    if i > 0 {
                        assert(names[i] == rest[i - 1]);
                    }
                }
            }
        }
    }
}

/// Pairs decoded names with addresses by position and makes the symbols.
fn assemble(names_bytes: &Vec<Vec<u8>>, addresses: &Vec<u64>) -> (r: Vec<Symbol>)
    requires
        forall|i: int| 0 <= i < names_bytes@.len() ==> #[trigger] names_bytes@[i]@.len() >= 1,
    ensures
        symbol_triples(r@) == assemble_symbols(names_bytes.deep_view(), addresses@),
{
    let mut symbols: Vec<Symbol> = Vec::new();
    let n = if names_bytes.len() <= addresses.len() { names_bytes.len() } else { addresses.len() };
    let ghost target = assemble_symbols(names_bytes.deep_view(), addresses@);
    let mut i: usize = 0;
    while i < names_bytes.len()
        invariant
            i <= names_bytes@.len(),
            n == (if names_bytes@.len() <= addresses@.len() { names_bytes@.len() } else { addresses@.len() }),
            target == assemble_symbols(names_bytes.deep_view(), addresses@),
            forall|j: int| 0 <= j < names_bytes@.len() ==> #[trigger] names_bytes@[j]@.len() >= 1,
            symbol_triples(symbols@) == target.take(if i <= n { i as int } else { n as int }),
        decreases names_bytes@.len() - i,
    {
        let name_with_type = &names_bytes[i];
        if i >= addresses.len() || name_with_type.len() == 0 {
            i += 1;
            continue;
        }
        let type_byte = name_with_type[0];
        let type_char = type_byte as char;
        let name_bytes = slice_subrange(name_with_type.as_slice(), 1, name_with_type.len());
        let name = match string_from_utf8(slice_to_vec(name_bytes)) {
            Some(s) => s,
            None => string_from_utf8_lossy(name_bytes),
        };
        let sym = Symbol { address: addresses[i], symbol_type: SymbolType::from_char(type_char), name };
        let ghost before = symbol_triples(symbols@);
        symbols.push(sym);
        proof {
            assert(names_bytes.deep_view()[i as int] == names_bytes@[i as int]@);
            assert(name_bytes@ =~= names_bytes@[i as int]@.skip(1));
            assert(symbol_triple(sym) == target[i as int]);
            assert(symbol_triples(symbols@) =~= before.push(symbol_triple(sym)));
            assert(target.take(i + 1) =~= target.take(i as int).push(target[i as int]));
        }
        i += 1;
    }
    assert(target.take(n as int) =~= target);
    symbols
}

/// A copy of a list of indices.
fn copy_indices(v: &Vec<usize>) -> (r: Vec<usize>)
    ensures
        r@ == v@,
{
    let mut r: Vec<usize> = Vec::new();
    let mut i: usize = 0;
    while i < v.len()
        invariant
            i <= v@.len(),
            r@ == v@.take(i as int),
        decreases v@.len() - i,
    {
        r.push(v[i]);
        i += 1;
        assert(r@ =~= v@.take(i as int));
    }
    assert(v@.take(i as int) =~= v@);
    r
}

/// Builds the name and address lookup maps of sorted symbols.
pub(crate) fn build_indexes(symbols: &Vec<Symbol>) -> (r: (StringHashMap<Vec<usize>>, HashMap<u64, usize>))
    ensures
        r.1@ == address_index(symbols@, symbols@.len()),
        name_index_matches(r.0@, symbols@, symbols@.len()),
{
    broadcast use vstd::std_specs::hash::group_hash_axioms;
    let mut by_name: StringHashMap<Vec<usize>> = StringHashMap::new();
    let mut by_address: HashMap<u64, usize> = HashMap::new();
    let mut i: usize = 0;
    while i < symbols.len()
        invariant
            i <= symbols@.len(),
            by_address@ == address_index(symbols@, i as nat),
            name_index_matches(by_name@, symbols@, i as nat),
        decreases symbols@.len() - i,
    {
        let sym = &symbols[i];
        let ghost key = sym.name@;
        let ghost old_names = by_name@;
        let mut list = match by_name.get(sym.name.as_str()) {
            Some(v) => copy_indices(v),
            None => Vec::new(),
        };
        list.push(i);
        let ghost new_list = list@;
        by_name.insert(sym.name.clone(), list);
        by_address.insert(sym.address, i);
        proof {
            assert(by_name@ == old_names.insert(key, by_name@[key]));
            assert forall|name: Seq<char>| #[trigger] by_name@.contains_key(name) <==> name_indices(symbols@, name, (i + 1) as nat).len() > 0 by {
                if name == key {
                    assert(name_indices(symbols@, name, (i + 1) as nat) == name_indices(symbols@, name, i as nat).push(i));
                } else {
                    assert(name_indices(symbols@, name, (i + 1) as nat) == name_indices(symbols@, name, i as nat));
                }
            }
            assert forall|name: Seq<char>| #[trigger] by_name@.contains_key(name) implies by_name@[name]@ == name_indices(symbols@, name, (i + 1) as nat) by {
                if name == key {
                    assert(name_indices(symbols@, name, (i + 1) as nat) == name_indices(symbols@, name, i as nat).push(i));
                    if old_names.contains_key(name) {
                        assert(new_list == old_names[name]@.push(i));
                    } else {
                        assert(name_indices(symbols@, name, i as nat).len() == 0);
                        assert(new_list =~= name_indices(symbols@, name, (i + 1) as nat));
                    }
                } else {
                    assert(name_indices(symbols@, name, (i + 1) as nat) == name_indices(symbols@, name, i as nat));
                }
            }
        }
        i += 1;
    }
    (by_name, by_address)
}

impl Kallsyms {
    /// Parse already decompressed kernel bytes: discovers the layout, aligns
    /// the token index and table, selects a decode variant, decodes names,
    /// reads addresses and returns the symbol table sorted by address.
    pub fn parse_decompressed(data: &[u8]) -> (r: Result<Self, KallsymsError>)
        requires
            fits_in_memory(data@.len()),
        ensures
            match r {
                Ok(k) => spec_parse_symbols(data@) matches Ok(list) && is_symbol_table_of(k, list),
                Err(e) => spec_parse_symbols(data@) matches Err(m) && error_matches(e, m),
            },
    {
        let layout = match find_complete_kallsyms_structure(data) {
            Ok(l) => l,
            Err(e) => return Err(e),
        };
        proof {
            let no = layout.names_offset as int;
            let end = layout.names_offset + layout.names_size;
            lemma_entries_in_data(data@, no, end, if layout.num_syms <= 96 { layout.num_syms as nat } else { 96 });
            lemma_entries_in_data(data@, no, end, if layout.num_syms <= 192 { layout.num_syms as nat } else { 192 });
            lemma_entries_in_data(data@, no, end, if layout.num_syms <= 256 { layout.num_syms as nat } else { 256 });
            lemma_entries_in_data(data@, no, end, layout.num_syms as nat);
            lemma_entries_in_data(data@, no, end, 1);
        }
        let token_index_arr = match align_and_read_token_index(
            data,
            layout.token_index_offset,
            layout.token_table_offset,
            layout.names_offset,
            layout.names_size,
            layout.num_syms,
        ) {
            Ok(a) => a,
            Err(e) => return Err(e),
        };
        let (tokens, aligned_table_off, _table_size) = match extract_tokens_with_name_validation(
            data,
            layout.token_table_offset,
            &token_index_arr,
            layout.names_offset,
            layout.names_size,
            layout.num_syms,
        ) {
            Ok(v) => v,
            Err(e) => return Err(e),
        };
        let tokens_slice = tokens.as_slice();
        assert(tokens_slice.deep_view() =~= tokens.deep_view());
        let remap_candidates = detect_remap_candidates(data, aligned_table_off, layout.names_offset, 128 * 1024);
        let strategy = select_decode_strategy(
            data,
            layout.names_offset,
            layout.names_size,
            layout.num_syms,
            tokens_slice,
            &token_index_arr,
            remap_candidates.as_slice(),
        );
        let remap_slice: Option<&[u8]> = match &strategy.remap {
            Some(a) => Some(a.as_slice()),
            None => None,
        };
        assert(crate::decoder::opt_slice_view(remap_slice) == opt_array_view(strategy.remap));
        let names_bytes = match decode_all_names_with_strategy(
            data,
            layout.names_offset,
            layout.names_size,
            layout.num_syms,
            tokens_slice,
            &token_index_arr,
            remap_slice,
            strategy.variant,
        ) {
            Ok(v) => v,
            Err(e) => return Err(e),
        };
        proof {
            let nso = layout.num_syms_offset as int;
            crate::addresses::lemma_relative_search_in_data(data@, if nso >= 1024 * 1024 { nso - 1024 * 1024 } else { 0 },
                nso, layout.num_syms as nat, 0);
        }
        let addresses = match find_and_read_addresses(data, layout.num_syms_offset, layout.num_syms) {
            Ok(a) => a,
            Err(e) => return Err(e),
        };
        proof {
            lemma_decoded_names_nonempty(data@, layout.names_offset as int, layout.names_offset + layout.names_size,
                layout.num_syms as nat, strategy.variant, tokens.deep_view(), token_index_arr@, opt_array_view(strategy.remap));
            assert forall|i: int| 0 <= i < names_bytes@.len() implies #[trigger] names_bytes@[i]@.len() >= 1 by {
                assert(names_bytes.deep_view()[i] == names_bytes@[i]@);
            }
        }
        let mut symbols = assemble(&names_bytes, &addresses);
        sort_symbols_by_address(&mut symbols);
        let (by_name, by_address) = build_indexes(&symbols);
        Ok(Kallsyms { symbols, by_name, by_address })
    }

    /// Parse from a kernel image buffer. Automatically handles gzip/LZ4,
    /// discovers structure pieces, selects a decode variant, and returns
    /// a sorted symbol table.
    pub fn parse(kernel_data: &[u8]) -> (r: Result<Self, KallsymsError>)
        requires
            fits_in_memory(kernel_data@.len()),
        ensures
            parse_outcome(kernel_data@, r),
    {
        let data = match decompress_kernel_if_needed(kernel_data) {
            Ok(d) => d,
            Err(e) => return Err(e),
        };
        Self::parse_decompressed(data.as_slice())
    }

    /// All symbols, sorted by address.
    pub fn symbols(&self) -> (r: &[Symbol])
        ensures
            r@ == self.symbols@,
    {
        self.symbols.as_slice()
    }
}

} // verus!

verus! {

/// One line of the text form: 16 hex digits of the address, the type
/// letter and the name, separated by spaces.
pub open spec fn symbol_line(s: (u64, SymbolType, Seq<char>)) -> Seq<char> {
    hex_fixed(s.0 as int, 16) + seq![' ', spec_to_char(s.1), ' '] + s.2 + seq!['\n']
}

/// The text form of symbols: one line each, in order.
pub open spec fn symbols_text(syms: Seq<(u64, SymbolType, Seq<char>)>) -> Seq<char>
    decreases syms.len(),
{
    if syms.len() == 0 {
        Seq::empty()
    } else {
        symbols_text(syms.drop_last()) + symbol_line(syms.last())
    }
}

pub open spec fn is_text_type(t: SymbolType) -> bool {
    t is Text
}

pub open spec fn is_data_type(t: SymbolType) -> bool {
    t is Data
}

pub open spec fn is_bss_type(t: SymbolType) -> bool {
    t is Bss
}

pub open spec fn is_rodata_type(t: SymbolType) -> bool {
    t is Rodata
}

/// Any type but text, data, bss and rodata.
pub open spec fn is_other_type(t: SymbolType) -> bool {
    !(t is Text || t is Data || t is Bss || t is Rodata)
}

/// The types of the symbols, in order.
pub open spec fn symbol_types(s: Seq<Symbol>) -> Seq<SymbolType> {
    s.map_values(|x: Symbol| x.symbol_type)
}

/// Every symbol falls in exactly one of the five counted classes.
pub proof fn lemma_type_classes_partition(t: Seq<SymbolType>)
    ensures
        count_where(t, |x: SymbolType| is_text_type(x)) + count_where(t, |x: SymbolType| is_data_type(x))
            + count_where(t, |x: SymbolType| is_bss_type(x)) + count_where(t, |x: SymbolType| is_rodata_type(x))
            + count_where(t, |x: SymbolType| is_other_type(x)) == t.len(),
    decreases t.len(),
{
    if t.len() > 0 {
        lemma_type_classes_partition(t.drop_last());
    }
}

impl Kallsyms {
    /// Format each symbol as "addr type name".
    pub fn to_text(&self) -> (r: String)
        ensures
            r@ == symbols_text(symbol_triples(self.symbols@)),
    {
        let mut out = String::new();
        let mut i: usize = 0;
        while i < self.symbols.len()
            invariant
                i <= self.symbols@.len(),
                out@ == symbols_text(symbol_triples(self.symbols@).take(i as int)),
            decreases self.symbols@.len() - i,
        {
            let s = &self.symbols[i];
            let ghost before = out@;
            push_hex_fixed(&mut out, s.address, 16);
            push_char(&mut out, ' ');
            push_char(&mut out, s.symbol_type.to_char());
            push_char(&mut out, ' ');
            out.append(s.name.as_str());
            push_char(&mut out, '\n');
            proof {
                let t = symbol_triples(self.symbols@);
                assert(t.take(i + 1).drop_last() =~= t.take(i as int));
                assert(t.take(i + 1).last() == symbol_triple(*s));
                assert(out@ =~= before + symbol_line(symbol_triple(*s)));
            }
            i += 1;
        }
        assert(symbol_triples(self.symbols@).take(i as int) =~= symbol_triples(self.symbols@));
        out
    }

    /// Quick summary statistics.
    pub fn stats(&self) -> (st: KallsymsStats)
        ensures
            st.total_symbols == self.symbols@.len(),
            st.text_symbols == count_where(symbol_types(self.symbols@), |x: SymbolType| is_text_type(x)),
            st.data_symbols == count_where(symbol_types(self.symbols@), |x: SymbolType| is_data_type(x)),
            st.bss_symbols == count_where(symbol_types(self.symbols@), |x: SymbolType| is_bss_type(x)),
            st.rodata_symbols == count_where(symbol_types(self.symbols@), |x: SymbolType| is_rodata_type(x)),
            st.other_symbols == count_where(symbol_types(self.symbols@), |x: SymbolType| is_other_type(x)),
            st.text_symbols + st.data_symbols + st.bss_symbols + st.rodata_symbols + st.other_symbols == st.total_symbols,
    {
        let ghost types = symbol_types(self.symbols@);
        let mut st = KallsymsStats::default();
        st.total_symbols = self.symbols.len();
        let mut i: usize = 0;
        while i < self.symbols.len()
            invariant
                i <= self.symbols@.len(),
                types == symbol_types(self.symbols@),
                st.total_symbols == self.symbols@.len(),
                st.text_symbols == count_where(types.take(i as int), |x: SymbolType| is_text_type(x)),
                st.data_symbols == count_where(types.take(i as int), |x: SymbolType| is_data_type(x)),
                st.bss_symbols == count_where(types.take(i as int), |x: SymbolType| is_bss_type(x)),
                st.rodata_symbols == count_where(types.take(i as int), |x: SymbolType| is_rodata_type(x)),
                st.other_symbols == count_where(types.take(i as int), |x: SymbolType| is_other_type(x)),
            decreases self.symbols@.len() - i,
        {
            proof {
                lemma_count_where_step(types, |x: SymbolType| is_text_type(x), i as int);
                lemma_count_where_step(types, |x: SymbolType| is_data_type(x), i as int);
                lemma_count_where_step(types, |x: SymbolType| is_bss_type(x), i as int);
                lemma_count_where_step(types, |x: SymbolType| is_rodata_type(x), i as int);
                lemma_count_where_step(types, |x: SymbolType| is_other_type(x), i as int);
                lemma_type_classes_partition(types.take(i as int));
            }
            match self.symbols[i].symbol_type {
                SymbolType::Text => st.text_symbols += 1,
                SymbolType::Data => st.data_symbols += 1,
                SymbolType::Bss => st.bss_symbols += 1,
                SymbolType::Rodata => st.rodata_symbols += 1,
                _ => st.other_symbols += 1,
            }
            i += 1;
        }
        proof {
            assert(types.take(i as int) =~= types);
            lemma_type_classes_partition(types);
        }
        st
    }
}

} // verus!

verus! {

/// Index `i` of `input` comes before index `j` in a stable sort by address.
pub open spec fn sorts_before(input: Seq<(u64, SymbolType, Seq<char>)>, i: int, j: int) -> bool {
    input[i].0 < input[j].0 || (input[i].0 == input[j].0 && i < j)
}

/// `p` lists the indices of `input` in stable address order.
pub open spec fn stable_order(input: Seq<(u64, SymbolType, Seq<char>)>, p: Seq<int>) -> bool {
    &&& is_index_permutation(p, input.len() as int)
    &&& forall|k: int, l: int| 0 <= k < l < input.len() ==> sorts_before(input, #[trigger] p[k], #[trigger] p[l])
}

proof fn lemma_permutation_onto(p: Seq<int>, n: int, v: int)
    requires
        is_index_permutation(p, n),
        0 <= v < n,
    ensures
        exists|k: int| 0 <= k < n && p[k] == v,
{
    broadcast use vstd::seq_lib::seq_to_set_is_finite;
    assert(p.no_duplicates()) by {
        assert forall|i: int, j: int| 0 <= i < p.len() && 0 <= j < p.len() && i != j implies p[i] != p[j] by {
            if i < j {
                assert(p[i] != p[j]);
            } else {
                assert(p[j] != p[i]);
            }
        }
    }
    p.unique_seq_to_set();
    vstd::set_lib::lemma_int_range(0, n);
    let r = vstd::set_lib::set_int_range(0, n);
    assert(p.to_set().subset_of(r)) by {
        assert forall|a: int| p.to_set().contains(a) implies r.contains(a) by {
            let k = choose|k: int| 0 <= k < p.len() && p[k] == a;
        }
    }
    vstd::set_lib::lemma_subset_equality(p.to_set(), r);
    assert(r.contains(v));
    assert(p.to_set().contains(v));
    assert(p.contains(v));
}

proof fn lemma_stable_orders_agree(input: Seq<(u64, SymbolType, Seq<char>)>, p: Seq<int>, q: Seq<int>, k: int)
    requires
        stable_order(input, p),
        stable_order(input, q),
        0 <= k <= input.len(),
    ensures
        forall|j: int| 0 <= j < k ==> p[j] == q[j],
    decreases k,
{
    let n = input.len() as int;
    if k > 0 {
        lemma_stable_orders_agree(input, p, q, k - 1);
        let a = p[k - 1];
        let b = q[k - 1];
        if a != b {
            if sorts_before(input, a, b) {
                lemma_permutation_onto(q, n, a);
                let m = choose|m: int| 0 <= m < n && q[m] == a;
                if m < k - 1 {
                    assert(p[m] == q[m]);
                    assert(p[m] != p[k - 1]);
                }
                assert(m > k - 1);
                assert(sorts_before(input, q[k - 1], q[m]));
            } else {
                lemma_permutation_onto(p, n, b);
                let m = choose|m: int| 0 <= m < n && p[m] == b;
                if m < k - 1 {
                    assert(q[m] == p[m]);
                    assert(q[m] != q[k - 1]);
                }
                assert(m > k - 1);
                assert(sorts_before(input, p[k - 1], p[m]));
            }
        }
    }
}

/// A stable sort by address has exactly one result.
pub proof fn lemma_stable_sort_unique(
    input: Seq<(u64, SymbolType, Seq<char>)>,
    out1: Seq<(u64, SymbolType, Seq<char>)>,
    out2: Seq<(u64, SymbolType, Seq<char>)>,
)
    requires
        is_stable_address_sort(input, out1),
        is_stable_address_sort(input, out2),
    ensures
        out1 == out2,
{
    let n = input.len() as int;
    let p = choose|p: Seq<int>| #![trigger is_index_permutation(p, input.len() as int)]
        {
            &&& is_index_permutation(p, input.len() as int)
            &&& out1.len() == input.len()
            &&& forall|k: int| 0 <= k < out1.len() ==> #[trigger] out1[k] == input[p[k]]
            &&& forall|k: int, l: int| 0 <= k < l < out1.len() ==> (#[trigger] out1[k]).0 <= (#[trigger] out1[l]).0
            &&& forall|k: int, l: int| 0 <= k < l < out1.len() && (#[trigger] out1[k]).0 == (#[trigger] out1[l]).0 ==> p[k] < p[l]
        };
    let q = choose|q: Seq<int>| #![trigger is_index_permutation(q, input.len() as int)]
        {
            &&& is_index_permutation(q, input.len() as int)
            &&& out2.len() == input.len()
            &&& forall|k: int| 0 <= k < out2.len() ==> #[trigger] out2[k] == input[q[k]]
            &&& forall|k: int, l: int| 0 <= k < l < out2.len() ==> (#[trigger] out2[k]).0 <= (#[trigger] out2[l]).0
            &&& forall|k: int, l: int| 0 <= k < l < out2.len() && (#[trigger] out2[k]).0 == (#[trigger] out2[l]).0 ==> q[k] < q[l]
        };
    assert(stable_order(input, p)) by {
        assert forall|k: int, l: int| 0 <= k < l < input.len() implies sorts_before(input, #[trigger] p[k], #[trigger] p[l]) by {
            assert(out1[k] == input[p[k]] && out1[l] == input[p[l]]);
        }
    }
    assert(stable_order(input, q)) by {
        assert forall|k: int, l: int| 0 <= k < l < input.len() implies sorts_before(input, #[trigger] q[k], #[trigger] q[l]) by {
            assert(out2[k] == input[q[k]] && out2[l] == input[q[l]]);
        }
    }
    lemma_stable_orders_agree(input, p, q, n);
    assert forall|k: int| 0 <= k < out1.len() implies out1[k] == out2[k] by {
        assert(p[k] == q[k]);
    }
    assert(out1 =~= out2);
}

proof fn lemma_address_index_same_addresses(s1: Seq<Symbol>, s2: Seq<Symbol>, n: nat)
    requires
        s1.len() == s2.len(),
        n <= s1.len(),
        forall|i: int| 0 <= i < s1.len() ==> #[trigger] s1[i].address == s2[i].address,
    ensures
        address_index(s1, n) == address_index(s2, n),
    decreases n,
{
    if n > 0 {
        lemma_address_index_same_addresses(s1, s2, (n - 1) as nat);
    }
}

proof fn lemma_name_indices_same_names(s1: Seq<Symbol>, s2: Seq<Symbol>, name: Seq<char>, n: nat)
    requires
        s1.len() == s2.len(),
        n <= s1.len(),
        forall|i: int| 0 <= i < s1.len() ==> #[trigger] s1[i].name@ == s2[i].name@,
    ensures
        name_indices(s1, name, n) == name_indices(s2, name, n),
    decreases n,
{
    if n > 0 {
        lemma_name_indices_same_names(s1, s2, name, (n - 1) as nat);
        assert(s1[n - 1].name@ == s2[n - 1].name@);
    }
}

/// Two symbol tables of the same symbols hold the same symbols in the same
/// order, the same address index, and the same name index (the same names,
/// each with the same list of indices): a table is determined by its symbols.
pub proof fn lemma_tables_of_same_list_agree(k1: Kallsyms, k2: Kallsyms, list: Seq<(u64, SymbolType, Seq<char>)>)
    requires
        is_symbol_table_of(k1, list),
        is_symbol_table_of(k2, list),
    ensures
        symbol_triples(k1.symbols@) == symbol_triples(k2.symbols@),
        k1.by_address@ == k2.by_address@,
        k1.by_name@.dom() == k2.by_name@.dom(),
        forall|name: Seq<char>| #[trigger] k1.by_name@.contains_key(name) ==> k1.by_name@[name]@ == k2.by_name@[name]@,
{
    lemma_stable_sort_unique(list, symbol_triples(k1.symbols@), symbol_triples(k2.symbols@));
    let t1 = symbol_triples(k1.symbols@);
    let t2 = symbol_triples(k2.symbols@);
    assert forall|i: int| 0 <= i < k1.symbols@.len() implies #[trigger] k1.symbols@[i].address == k2.symbols@[i].address by {
        assert(t1[i] == t2[i]);
    }
    lemma_address_index_same_addresses(k1.symbols@, k2.symbols@, k1.symbols@.len());
    assert forall|i: int| 0 <= i < k1.symbols@.len() implies #[trigger] k1.symbols@[i].name@ == k2.symbols@[i].name@ by {
        assert(t1[i] == t2[i]);
    }
    assert forall|name: Seq<char>| k1.by_name@.contains_key(name) <==> k2.by_name@.contains_key(name) by {
        lemma_name_indices_same_names(k1.symbols@, k2.symbols@, name, k1.symbols@.len());
    }
    assert(k1.by_name@.dom() =~= k2.by_name@.dom());
    assert forall|name: Seq<char>| #[trigger] k1.by_name@.contains_key(name) implies k1.by_name@[name]@ == k2.by_name@[name]@ by {
        lemma_name_indices_same_names(k1.symbols@, k2.symbols@, name, k1.symbols@.len());
    }
}

} // verus!
