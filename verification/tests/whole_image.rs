use std::io::Write;

use kallsyms::candidates::{find_all_token_candidates, find_complete_kallsyms_structure};
use kallsyms::decoder::{select_decode_strategy, DecodeVariant};
use kallsyms::score::Score;
use kallsyms::tokens::{align_and_read_token_index, extract_tokens_with_name_validation};
use kallsyms::{extract_samsung_kallsyms, Kallsyms, KallsymsError, SymbolType};

const N: usize = 1800;
const BASE: u64 = 0xffff_ffc0_1000_0000;
const TYPES: &[u8] = b"TtDdBbRrWUAVu?";

// Offsets of the parts of the synthetic image built below.
const NUM_SYMS_OFF: usize = 7208;
const NAMES_OFF: usize = 7212;
const NAMES_SIZE: usize = 7200;
const MARKERS_OFF: usize = 14412;
const TABLE_OFF: usize = 14448;
const TABLE_SIZE: usize = 1408;
const INDEX_OFF: usize = 15856;

/// Token `k` is "s" and two hex digits, then `k % 4` times 'z'; token 0
/// carries five extra bytes, token 255 is empty.
fn tokens() -> Vec<Vec<u8>> {
    let mut t = Vec::new();
    for k in 0..255usize {
        let mut s = format!("s{:02x}", k).into_bytes();
        for _ in 0..(k % 4) {
            s.push(b'z');
        }
        if k == 0 {
            s.extend_from_slice(b"xxxxx");
        }
        t.push(s);
    }
    t.push(Vec::new());
    t
}

fn entry_tokens(i: usize) -> (usize, usize) {
    (100 + i / 155, 100 + i % 155)
}

/// A little-endian kernel image with relative addresses, a u32 symbol
/// count, 1800 two-token names, eight markers, the token table and the
/// token index.
fn image() -> (Vec<u8>, [u16; 256]) {
    build(&tokens(), None)
}

/// The image with the given tokens; `last_b` replaces the second token of
/// the last entry.
fn build(toks: &[Vec<u8>], last_b: Option<u8>) -> (Vec<u8>, [u16; 256]) {
    let mut d = Vec::new();
    for i in 0..N {
        let off = 4096 + 16 * (N - 1 - i) as i32;
        d.extend_from_slice(&off.to_le_bytes());
    }
    d.extend_from_slice(&BASE.to_le_bytes());
    d.extend_from_slice(&(N as u32).to_le_bytes());
    for i in 0..N {
        let (a, b) = entry_tokens(i);
        let b = match last_b {
            Some(x) if i == N - 1 => x,
            _ => b as u8,
        };
        d.extend_from_slice(&[3, TYPES[i % TYPES.len()], a as u8, b]);
    }
    for k in 0..(N + 255) / 256 {
        d.extend_from_slice(&(1024 * k as u32).to_le_bytes());
    }
    d.extend_from_slice(&[0u8; 4]);
    let table = d.len();
    let mut index = [0u16; 256];
    for (k, t) in toks.iter().enumerate() {
        if k == 255 {
            d.push(b'Q');
        }
        index[k] = (d.len() - table) as u16;
        d.extend_from_slice(t);
        d.push(0);
    }
    for v in index.iter() {
        d.extend_from_slice(&v.to_le_bytes());
    }
    d.extend_from_slice(&[0u8; 64]);
    (d, index)
}

/// (address, type byte, name) of every symbol, sorted by address.
fn expected() -> Vec<(u64, u8, String)> {
    let toks = tokens();
    let mut v = Vec::new();
    for i in 0..N {
        let (a, b) = entry_tokens(i);
        let mut name = toks[a].clone();
        name.extend_from_slice(&toks[b]);
        let addr = BASE + 4096 + 16 * (N - 1 - i) as u64;
        v.push((addr, TYPES[i % TYPES.len()], String::from_utf8(name).unwrap()));
    }
    v.sort();
    v
}

fn check_symbols(k: &Kallsyms) {
    let exp = expected();
    let syms = k.symbols();
    assert_eq!(syms.len(), N);
    for (s, e) in syms.iter().zip(exp.iter()) {
        assert_eq!(s.address, e.0);
        assert_eq!(s.symbol_type, SymbolType::from_char(e.1 as char));
        assert_eq!(s.name, e.2);
    }
}

fn gzip(d: &[u8]) -> Vec<u8> {
    let mut enc = flate2::write::GzEncoder::new(Vec::new(), flate2::Compression::default());
    enc.write_all(d).unwrap();
    enc.finish().unwrap()
}

fn lz4(d: &[u8]) -> Vec<u8> {
    let mut enc = lz4_flex::frame::FrameEncoder::new(Vec::new());
    enc.write_all(d).unwrap();
    enc.finish().unwrap()
}

#[test]
fn image_layout_offsets() {
    let (d, index) = image();
    assert_eq!(d.len(), 16432);
    assert_eq!(index[0], 0);
    assert_eq!(index[1], 9);
    assert_eq!(index[255] as usize, TABLE_SIZE - 1);
    assert_eq!(u32::from_le_bytes([d[NUM_SYMS_OFF], d[NUM_SYMS_OFF + 1], d[NUM_SYMS_OFF + 2], d[NUM_SYMS_OFF + 3]]), N as u32);
    assert_eq!(d[NAMES_OFF], 3);
    assert_eq!(&d[TABLE_OFF..TABLE_OFF + 9], b"s00xxxxx\0");
    assert_eq!(&d[INDEX_OFF..INDEX_OFF + 4], &[0, 0, 9, 0]);
}

#[test]
fn image_single_token_candidate() {
    let (d, _) = image();
    let c = find_all_token_candidates(&d);
    assert_eq!(c.len(), 1);
    assert_eq!(c[0].token_table_offset, TABLE_OFF);
    assert_eq!(c[0].token_table_size, TABLE_SIZE);
    assert_eq!(c[0].token_index_offset, INDEX_OFF);
}

#[test]
fn image_complete_structure() {
    let (d, _) = image();
    let l = find_complete_kallsyms_structure(&d).unwrap();
    assert_eq!(l.num_syms, N);
    assert_eq!(l.num_syms_offset, NUM_SYMS_OFF);
    assert_eq!(l.names_offset, NAMES_OFF);
    assert_eq!(l.names_size, NAMES_SIZE);
    assert_eq!(l.markers_offset, MARKERS_OFF);
    assert_eq!(l.markers_count, 8);
    assert_eq!(l.token_table_offset, TABLE_OFF);
    assert_eq!(l.token_table_size, TABLE_SIZE);
    assert_eq!(l.token_index_offset, INDEX_OFF);
}

#[test]
fn no_structure_in_zeros() {
    let d = vec![0u8; 4096];
    assert!(find_all_token_candidates(&d).is_empty());
    assert!(matches!(find_complete_kallsyms_structure(&d), Err(KallsymsError::NotFound)));
}

#[test]
fn image_token_index_aligned() {
    let (d, index) = image();
    let got = align_and_read_token_index(&d, INDEX_OFF, TABLE_OFF, NAMES_OFF, NAMES_SIZE, N).unwrap();
    assert_eq!(got, index);
    // A hint a few bytes off still finds the 8-aligned index.
    let got = align_and_read_token_index(&d, INDEX_OFF + 6, TABLE_OFF, NAMES_OFF, NAMES_SIZE, N).unwrap();
    assert_eq!(got, index);
}

#[test]
fn alignment_without_candidates_ignores_names_block() {
    // No offset yields a plausible index or table, so the oversized names
    // block is never read.
    let d = vec![0u8; 2048];
    assert!(align_and_read_token_index(&d, 1024, 0, 0, 100_000, 10).is_err());
    let mut index = [0u16; 256];
    index[255] = 60000;
    assert!(extract_tokens_with_name_validation(&d, 1024, &index, 0, 100_000, 10).is_err());
}

#[test]
fn token_index_alignment_fails_on_zeros() {
    let d = vec![0u8; 2048];
    match align_and_read_token_index(&d, 1024, 0, 0, 0, 0) {
        Err(KallsymsError::InvalidFormat(m)) => assert_eq!(m, "token index alignment failed"),
        other => panic!("unexpected {:?}", other),
    }
}

#[test]
fn image_token_table_aligned() {
    let (d, index) = image();
    let (toks, off, size) =
        extract_tokens_with_name_validation(&d, TABLE_OFF, &index, NAMES_OFF, NAMES_SIZE, N).unwrap();
    assert_eq!(toks, tokens());
    assert_eq!(off, TABLE_OFF);
    assert_eq!(size, TABLE_SIZE);
}

#[test]
fn token_table_alignment_fails() {
    let d = vec![0u8; 2048];
    let mut index = [0u16; 256];
    index[255] = 60000;
    match extract_tokens_with_name_validation(&d, 1024, &index, 0, 0, 0) {
        Err(KallsymsError::InvalidFormat(m)) => assert_eq!(m, "token table alignment not found"),
        other => panic!("unexpected {:?}", other),
    }
}

#[test]
fn image_decode_strategy() {
    let (d, index) = image();
    let s = select_decode_strategy(&d, NAMES_OFF, NAMES_SIZE, N, &tokens(), &index, &[]);
    assert_eq!(s.variant, DecodeVariant::V1TokensRaw);
    assert_eq!(s.name, "V1(tokens[b])");
    assert_eq!(s.remap_offset, None);
    assert_eq!(s.score, Score { num: 1920, den: 1920 });
}

#[test]
fn parse_plain_image() {
    let (d, _) = image();
    let k = Kallsyms::parse(&d).unwrap();
    check_symbols(&k);
}

#[test]
fn parse_symbols_sorted_by_address() {
    let (d, _) = image();
    let k = Kallsyms::parse(&d).unwrap();
    let s = k.symbols();
    for w in s.windows(2) {
        assert!(w[0].address <= w[1].address);
    }
    assert_eq!(s[0].address, 0xffff_ffc0_1000_1000);
    assert_eq!(s[0].name, "s6fzzzsc2zz");
    assert_eq!(s[0].symbol_type, SymbolType::Rodata);
    assert_eq!(s[N - 1].address, BASE + 4096 + 16 * (N as u64 - 1));
    assert_eq!(s[N - 1].name, "s64s64");
    assert_eq!(s[N - 1].symbol_type, SymbolType::Text);
}

#[test]
fn parse_lookup_maps() {
    let (d, _) = image();
    let k = Kallsyms::parse(&d).unwrap();
    assert_eq!(k.by_address.len(), N);
    assert_eq!(k.by_name.len(), N);
    for (i, s) in k.symbols().iter().enumerate() {
        assert_eq!(k.by_address.get(&s.address), Some(&i));
        assert_eq!(k.by_name.get(&s.name), Some(&vec![i]));
    }
}

#[test]
fn parse_gzip_image() {
    let (d, _) = image();
    let k = Kallsyms::parse(&gzip(&d)).unwrap();
    check_symbols(&k);
}

#[test]
fn parse_lz4_image() {
    let (d, _) = image();
    let k = Kallsyms::parse(&lz4(&d)).unwrap();
    check_symbols(&k);
}

#[test]
fn parse_decompressed_image() {
    let (d, _) = image();
    let k = Kallsyms::parse_decompressed(&d).unwrap();
    check_symbols(&k);
}

#[test]
fn parse_without_kallsyms() {
    assert!(matches!(Kallsyms::parse(&vec![0u8; 4096]), Err(KallsymsError::NotFound)));
    assert!(matches!(Kallsyms::parse(&[1, 2, 3]), Err(KallsymsError::NotFound)));
    assert!(matches!(Kallsyms::parse(&[]), Err(KallsymsError::NotFound)));
}

#[test]
fn parse_broken_gzip() {
    let d = [0x1fu8, 0x8b, 0, 0, 0, 0];
    assert!(matches!(Kallsyms::parse(&d), Err(KallsymsError::Decompression(_))));
}

#[test]
fn image_text_listing() {
    let (d, _) = image();
    let k = Kallsyms::parse(&d).unwrap();
    let text = k.to_text();
    let mut exp = String::new();
    for (a, t, n) in expected() {
        exp.push_str(&format!("{:016x} {} {}\n", a, SymbolType::from_char(t as char).to_char(), n));
    }
    assert_eq!(text, exp);
    assert!(text.starts_with("ffffffc010001000 R s6fzzzsc2zz\nffffffc010001010 R s6fzzzsc1z\n"));
    assert_eq!(text.lines().count(), N);
}

#[test]
fn image_stats() {
    let (d, _) = image();
    let k = Kallsyms::parse(&d).unwrap();
    let st = k.stats();
    assert_eq!(st.total_symbols, N);
    assert_eq!(st.text_symbols, 258);
    assert_eq!(st.data_symbols, 258);
    assert_eq!(st.bss_symbols, 258);
    assert_eq!(st.rodata_symbols, 258);
    assert_eq!(st.other_symbols, 768);
    assert_eq!(
        st.text_symbols + st.data_symbols + st.bss_symbols + st.rodata_symbols + st.other_symbols,
        st.total_symbols
    );
}

#[test]
fn samsung_uses_standard_parser_first() {
    let (d, _) = image();
    let k = extract_samsung_kallsyms(&d).unwrap();
    check_symbols(&k);
    let k0 = Kallsyms::parse(&d).unwrap();
    assert_eq!(k.by_address, k0.by_address);
    assert_eq!(k.by_name.len(), k0.by_name.len());
    for s in k0.symbols() {
        assert_eq!(k.by_name.get(&s.name), k0.by_name.get(&s.name));
    }
}

#[test]
fn invalid_utf8_name_converted_lossily() {
    let mut toks = tokens();
    toks[99] = b"s63\xffzz".to_vec();
    let (d, _) = build(&toks, Some(99));
    let k = Kallsyms::parse(&d).unwrap();
    let s = k.symbols();
    assert_eq!(s.len(), N);
    assert_eq!(s[0].address, 0xffff_ffc0_1000_1000);
    assert_eq!(s[0].name, "s6fzzzs63\u{FFFD}zz");
    assert_eq!(s[1].name, "s6fzzzsc1z");
}
