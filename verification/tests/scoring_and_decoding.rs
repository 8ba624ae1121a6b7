use kallsyms::decoder::{
    decode_all_names_with_strategy, detect_remap_candidates, score_strategy_names, select_decode_strategy,
    try_read_permutation, DecodeVariant,
};
use kallsyms::score::{common_prefixes, make_score, score_greater, Score};
use kallsyms::tokens::{
    extract_tokens_strict_at_base, read_token_index_exact, score_names_with_tokens_raw,
    score_names_with_tokens_raw_strict,
};
use kallsyms::KallsymsError;

fn invalid_format_message(e: KallsymsError) -> String {
    match e {
        KallsymsError::InvalidFormat(m) => m,
        other => panic!("unexpected error {:?}", other),
    }
}

/// 256 tokens, all empty but: 1 "init_", 2 "task", 3 "a", 4 "bad name", 6 "a b".
fn sample_tokens() -> Vec<Vec<u8>> {
    let mut t = vec![Vec::new(); 256];
    t[1] = b"init_".to_vec();
    t[2] = b"task".to_vec();
    t[3] = b"a".to_vec();
    t[4] = b"bad name".to_vec();
    t[6] = b"a b".to_vec();
    t
}

fn names_block(entries: &[&[u8]]) -> Vec<u8> {
    let mut d = Vec::new();
    for e in entries {
        d.push(e.len() as u8);
        d.extend_from_slice(e);
    }
    d
}

const E1: &[u8] = &[b'T', 1, 2]; // "init_task": plausible, prefix
const E2: &[u8] = &[b't', 3]; // "a": too short
const E3: &[u8] = &[b'D', 4]; // "bad name": implausible, long
const E4: &[u8] = &[b'd', 3, 3]; // "aa": plausible, very short
const E5: &[u8] = &[b'B', 6]; // "a b": implausible, short
const E6: &[u8] = &[b'T', 1, 1]; // "init_init_": plausible, prefix

fn token_table() -> (Vec<u8>, [u16; 256], Vec<Vec<u8>>) {
    let mut table = Vec::new();
    let mut index = [0u16; 256];
    let mut toks = Vec::new();
    for k in 0..256usize {
        index[k] = table.len() as u16;
        let t = format!("k{}", k).into_bytes();
        table.extend_from_slice(&t);
        table.push(0);
        toks.push(t);
    }
    (table, index, toks)
}

#[test]
fn make_score_clamps() {
    assert_eq!(make_score(5, 10), Score { num: 5, den: 10 });
    assert_eq!(make_score(-3, 10), Score { num: 0, den: 10 });
    assert_eq!(make_score(15, 10), Score { num: 10, den: 10 });
    assert_eq!(make_score(1, 0), Score { num: 0, den: 1 });
}

#[test]
fn score_comparison_is_exact() {
    assert!(score_greater(Score { num: 1, den: 2 }, Score { num: 1, den: 3 }));
    assert!(!score_greater(Score { num: 2, den: 4 }, Score { num: 1, den: 2 }));
    assert!(!score_greater(Score { num: 1, den: 3 }, Score { num: 1, den: 2 }));
}

#[test]
fn common_prefix_list() {
    let p = common_prefixes();
    assert_eq!(p.len(), 30);
    assert_eq!(p[0], b"__".to_vec());
    assert_eq!(p[3], b"init".to_vec());
    assert_eq!(p[29], b"debug_".to_vec());
}

#[test]
fn token_index_read_both_orders() {
    let mut d = Vec::new();
    for i in 0..256u16 {
        d.extend_from_slice(&i.to_le_bytes());
    }
    let le = read_token_index_exact(&d, 0, false).unwrap();
    let be = read_token_index_exact(&d, 0, true).unwrap();
    for i in 0..256usize {
        assert_eq!(le[i], i as u16);
        assert_eq!(be[i], (i as u16) << 8);
    }
}

#[test]
fn token_index_truncated() {
    let d = vec![0u8; 512];
    let e = read_token_index_exact(&d[..511], 0, false).unwrap_err();
    assert_eq!(invalid_format_message(e), "token index truncated");
    let e = read_token_index_exact(&d, 1, true).unwrap_err();
    assert_eq!(invalid_format_message(e), "token index truncated");
}

#[test]
fn tokens_extracted_at_base() {
    let (table, index, toks) = token_table();
    let mut d = vec![b'J'; 8];
    d.extend_from_slice(&table);
    d.extend_from_slice(&[0u8; 8]);
    let (got, size) = extract_tokens_strict_at_base(&d, 8, &index).unwrap();
    assert_eq!(got, toks);
    assert_eq!(size, table.len());
    assert_eq!(got[0], b"k0".to_vec());
    assert_eq!(got[255], b"k255".to_vec());
}

#[test]
fn tokens_start_out_of_bounds() {
    let (table, mut index, _) = token_table();
    index[255] = 60000;
    let e = extract_tokens_strict_at_base(&table, 0, &index).unwrap_err();
    assert_eq!(invalid_format_message(e), "token start OOB or before base");
}

#[test]
fn tokens_missing_terminator() {
    let (table, index, _) = token_table();
    let e = extract_tokens_strict_at_base(&table[..table.len() - 1], 0, &index).unwrap_err();
    assert_eq!(invalid_format_message(e), "token end not found");
}

#[test]
fn tokens_overflow_into_next() {
    let (table, mut index, _) = token_table();
    index[1] = 1;
    let e = extract_tokens_strict_at_base(&table, 0, &index).unwrap_err();
    assert_eq!(invalid_format_message(e), "token overflows into next");
}

#[test]
fn light_name_score_exact() {
    let d = names_block(&[E1, E2, E3, E4, E5]);
    let toks = sample_tokens();
    // ok 2, short 2, prefix 1 of 5: 0.4 - 0.16 + 0.05 = 0.29
    assert_eq!(score_names_with_tokens_raw(&d, 0, d.len(), 5, &toks), Score { num: 29, den: 100 });
    // Only the first name: clamped to 1.
    assert_eq!(score_names_with_tokens_raw(&d, 0, d.len(), 1, &toks), Score { num: 20, den: 20 });
    assert_eq!(score_names_with_tokens_raw(&d, 0, d.len(), 0, &toks), Score { num: 0, den: 1 });
}

#[test]
fn strict_name_score_exact() {
    let toks = sample_tokens();
    let d = names_block(&[E1, E2, E3, E4, E5]);
    // ok 2, short 1, very short 2, prefix 1 of 5: below zero, clamped.
    assert_eq!(score_names_with_tokens_raw_strict(&d, 0, d.len(), 5, &toks), Score { num: 0, den: 500 });
    let d = names_block(&[E1, E3, E5, E6]);
    // ok 2, short 1, prefix 2 of 4: 0.5 - 0.175 + 0.175 = 0.5
    assert_eq!(score_names_with_tokens_raw_strict(&d, 0, d.len(), 4, &toks), Score { num: 200, den: 400 });
    assert_eq!(score_names_with_tokens_raw_strict(&d, 0, d.len(), 1, &toks), Score { num: 100, den: 100 });
}

#[test]
fn permutation_detection() {
    let id: Vec<u8> = (0..=255u8).collect();
    let arr = try_read_permutation(&id).unwrap();
    assert_eq!(arr.to_vec(), id);
    let mut dup = id.clone();
    dup[10] = 11;
    assert_eq!(try_read_permutation(&dup), None);
    assert_eq!(try_read_permutation(&id[..255]), None);
}

fn rotated_permutation() -> Vec<u8> {
    let mut p: Vec<u8> = (128..=255u8).collect();
    p.extend(0..128u8);
    p
}

#[test]
fn remap_candidate_found_near_table() {
    let p = rotated_permutation();
    let mut d = vec![0u8; 300];
    d.extend_from_slice(&p);
    d.extend_from_slice(&[0u8; 300]);
    let r = detect_remap_candidates(&d, 300, 0, 512);
    assert_eq!(r.len(), 1);
    assert_eq!(r[0].0, 300);
    assert_eq!(r[0].1.to_vec(), p);
    // The names area is searched when the table area has none.
    let r = detect_remap_candidates(&d, 856, 300, 300);
    assert_eq!(r.len(), 1);
    assert_eq!(r[0].0, 300);
    assert_eq!(detect_remap_candidates(&d, 856, 856, 100).len(), 0);
}

#[test]
fn remap_candidates_at_most_four() {
    let p = rotated_permutation();
    let mut d = vec![0u8; 16];
    for _ in 0..5 {
        d.extend_from_slice(&p);
        d.extend_from_slice(&[0u8; 16]);
    }
    let r = detect_remap_candidates(&d, 0, 0, d.len());
    let offs: Vec<usize> = r.iter().map(|x| x.0).collect();
    assert_eq!(offs, vec![16, 288, 560, 832]);
}

#[test]
fn strategy_score_per_variant() {
    let toks = sample_tokens();
    let index = [0u16; 256];
    let samples: Vec<&[u8]> = vec![E1, E3, E5, E6];
    // ok 2, short 1, prefix 2 of 4: 0.5 - 0.125 + 0.15 = 0.525
    assert_eq!(
        score_strategy_names(DecodeVariant::V1TokensRaw, None, &toks, &index, &samples),
        Score { num: 21, den: 40 }
    );
    let none: Vec<&[u8]> = vec![];
    assert_eq!(
        score_strategy_names(DecodeVariant::V1TokensRaw, None, &toks, &index, &none),
        Score { num: 0, den: 1 }
    );
    assert_eq!(
        score_strategy_names(DecodeVariant::V3TokensViaRemap, None, &toks, &index, &samples),
        Score { num: 0, den: 1 }
    );
    let empty: Vec<&[u8]> = vec![&[]];
    assert_eq!(
        score_strategy_names(DecodeVariant::V4TokensViaIndexRemap, None, &toks, &index, &empty),
        Score { num: 0, den: 10 }
    );
}

#[test]
fn strategy_score_through_index_and_remap() {
    let toks = sample_tokens();
    let mut index = [0u16; 256];
    index[5] = 1;
    let mut remap: Vec<u8> = (0..=255u8).collect();
    remap[7] = 1;
    let s2: Vec<&[u8]> = vec![&[b'T', 5, 5]];
    assert_eq!(
        score_strategy_names(DecodeVariant::V2TokensViaIndex, None, &toks, &index, &s2),
        Score { num: 10, den: 10 }
    );
    let s3: Vec<&[u8]> = vec![&[b'T', 7]];
    assert_eq!(
        score_strategy_names(DecodeVariant::V3TokensViaRemap, Some(&remap), &toks, &index, &s3),
        Score { num: 10, den: 10 }
    );
    remap[7] = 5;
    assert_eq!(
        score_strategy_names(DecodeVariant::V4TokensViaIndexRemap, Some(&remap), &toks, &index, &s3),
        Score { num: 10, den: 10 }
    );
    assert_eq!(
        score_strategy_names(DecodeVariant::V1TokensRaw, Some(&remap), &toks, &index, &s3),
        Score { num: 0, den: 10 }
    );
}

#[test]
fn strategy_selects_raw_tokens() {
    let toks = sample_tokens();
    let index = [0u16; 256];
    let d = names_block(&[E1, E6]);
    let s = select_decode_strategy(&d, 0, d.len(), 2, &toks, &index, &[]);
    assert_eq!(s.variant, DecodeVariant::V1TokensRaw);
    assert_eq!(s.name, "V1(tokens[b])");
    assert!(s.remap.is_none());
    assert_eq!(s.remap_offset, None);
    assert_eq!(s.score, Score { num: 20, den: 20 });
}

#[test]
fn strategy_falls_back_on_low_score() {
    let toks = vec![Vec::new(); 256];
    let index = [0u16; 256];
    let d = names_block(&[E1, E6]);
    let s = select_decode_strategy(&d, 0, d.len(), 2, &toks, &index, &[]);
    assert_eq!(s.variant, DecodeVariant::V1TokensRaw);
    assert_eq!(s.name, "V1(tokens[b])");
    assert_eq!(s.remap_offset, None);
    assert_eq!(s.score, Score { num: 0, den: 20 });
}

fn swap_remap(a: u8, b: u8) -> [u8; 256] {
    let mut r = [0u8; 256];
    for i in 0..256usize {
        r[i] = i as u8;
    }
    r[a as usize] = b;
    r[b as usize] = a;
    r
}

#[test]
fn strategy_selects_remap() {
    let toks = sample_tokens();
    let index = [0u16; 256];
    let d = names_block(&[&[b'T', 9, 9]]);
    let rem = swap_remap(1, 9);
    let s = select_decode_strategy(&d, 0, d.len(), 1, &toks, &index, &[(4096, rem)]);
    assert_eq!(s.variant, DecodeVariant::V3TokensViaRemap);
    assert_eq!(s.name, "V3(tokens[remap[b]])");
    assert_eq!(s.remap.map(|r| r.to_vec()), Some(rem.to_vec()));
    assert_eq!(s.remap_offset, Some(4096));
    assert_eq!(s.score, Score { num: 10, den: 10 });
}

#[test]
fn strategy_selects_second_remap() {
    let toks = sample_tokens();
    let index = [0u16; 256];
    let d = names_block(&[&[b'T', 9, 9]]);
    let first = swap_remap(2, 3);
    let second = swap_remap(1, 9);
    let s = select_decode_strategy(&d, 0, d.len(), 1, &toks, &index, &[(100, first), (200, second), (300, second)]);
    assert_eq!(s.variant, DecodeVariant::V3TokensViaRemap);
    assert_eq!(s.name, "V3(tokens[remap[b]])#2");
    assert_eq!(s.remap_offset, Some(200));
}

#[test]
fn decode_all_variants() {
    let toks = sample_tokens();
    let d = names_block(&[E1, E2]);
    let names = decode_all_names_with_strategy(&d, 0, d.len(), 2, &toks, &[0u16; 256], None, DecodeVariant::V1TokensRaw)
        .unwrap();
    assert_eq!(names, vec![b"Tinit_task".to_vec(), b"ta".to_vec()]);

    let mut index = [0u16; 256];
    index[5] = 2;
    let d = names_block(&[&[b'D', 5, 5]]);
    let names = decode_all_names_with_strategy(&d, 0, d.len(), 1, &toks, &index, None, DecodeVariant::V2TokensViaIndex)
        .unwrap();
    assert_eq!(names, vec![b"Dtasktask".to_vec()]);

    let rem = swap_remap(1, 9);
    let d = names_block(&[&[b'R', 9, 2]]);
    let names = decode_all_names_with_strategy(&d, 0, d.len(), 1, &toks, &index, Some(&rem), DecodeVariant::V3TokensViaRemap)
        .unwrap();
    assert_eq!(names, vec![b"Rinit_task".to_vec()]);

    let d = names_block(&[&[b'B', 5]]);
    let rem = swap_remap(5, 9);
    let mut index = [0u16; 256];
    index[9] = 3;
    let names = decode_all_names_with_strategy(&d, 0, d.len(), 1, &toks, &index, Some(&rem), DecodeVariant::V4TokensViaIndexRemap)
        .unwrap();
    assert_eq!(names, vec![b"Ba".to_vec()]);
}

#[test]
fn decode_all_errors() {
    let toks = sample_tokens();
    let index = [0u16; 256];
    let v1 = DecodeVariant::V1TokensRaw;
    let d = names_block(&[E1, E2]);
    let e = decode_all_names_with_strategy(&d, 0, d.len(), 3, &toks, &index, None, v1).unwrap_err();
    assert_eq!(invalid_format_message(e), "names overflow");
    let d = [5u8, b'T', 1];
    let e = decode_all_names_with_strategy(&d, 0, 3, 1, &toks, &index, None, v1).unwrap_err();
    assert_eq!(invalid_format_message(e), "name length overflow");
    let d = [0u8, 0, 0];
    let e = decode_all_names_with_strategy(&d, 0, 3, 1, &toks, &index, None, v1).unwrap_err();
    assert_eq!(invalid_format_message(e), "empty encoded name");
    let d = [2u8, b'T', 1];
    let e = decode_all_names_with_strategy(&d, 0, 3, 1, &toks, &index, None, DecodeVariant::V3TokensViaRemap)
        .unwrap_err();
    assert_eq!(invalid_format_message(e), "remap missing for selected strategy");
    let d = [2u8, b'T', 1, 9];
    let e = decode_all_names_with_strategy(&d, 0, 4, 1, &toks, &index, None, v1).unwrap_err();
    assert_eq!(invalid_format_message(e), "names block size mismatch");
}

#[test]
fn sampling_stops_before_oversized_block_end() {
    let toks = sample_tokens();
    let index = [0u16; 256];
    let mut d = names_block(&[E6]);
    d.push(0);
    let s = select_decode_strategy(&d, 0, 1000, 2, &toks, &index, &[]);
    assert_eq!(s.variant, DecodeVariant::V1TokensRaw);
    assert_eq!(s.score, Score { num: 10, den: 10 });
    assert_eq!(score_names_with_tokens_raw(&d, 0, 1000, 2, &toks), Score { num: 20, den: 20 });
}

#[test]
fn short_remap_tables() {
    let toks = sample_tokens();
    let index = [0u16; 256];
    let remap: Vec<u8> = (0..10u8).collect();
    let d = names_block(&[&[b'T', 1, 2]]);
    let names = decode_all_names_with_strategy(&d, 0, d.len(), 1, &toks, &index, Some(&remap), DecodeVariant::V3TokensViaRemap)
        .unwrap();
    assert_eq!(names, vec![b"Tinit_task".to_vec()]);
    let names = decode_all_names_with_strategy(&d, 0, d.len(), 1, &toks, &index, Some(&[]), DecodeVariant::V1TokensRaw)
        .unwrap();
    assert_eq!(names, vec![b"Tinit_task".to_vec()]);
    let none: Vec<&[u8]> = vec![];
    assert_eq!(
        score_strategy_names(DecodeVariant::V3TokensViaRemap, Some(&[]), &toks, &index, &none),
        Score { num: 0, den: 1 }
    );
}

#[test]
fn identity_remap_and_index_decode_as_raw() {
    let toks = sample_tokens();
    let d = names_block(&[E1, E2, E3, E4, E5, E6]);
    let id_remap: Vec<u8> = (0..=255u8).collect();
    let mut id_index = [0u16; 256];
    for b in 0..256usize {
        id_index[b] = b as u16;
    }
    let raw = decode_all_names_with_strategy(&d, 0, d.len(), 6, &toks, &id_index, None, DecodeVariant::V1TokensRaw).unwrap();
    for v in [DecodeVariant::V2TokensViaIndex, DecodeVariant::V3TokensViaRemap, DecodeVariant::V4TokensViaIndexRemap] {
        let got = decode_all_names_with_strategy(&d, 0, d.len(), 6, &toks, &id_index, Some(&id_remap), v).unwrap();
        assert_eq!(got, raw);
    }
}

#[test]
fn identity_tables_match_raw_without_tables() {
    let toks = sample_tokens();
    let d = names_block(&[E1, E2, E3, E4, E5, E6]);
    let id8: Vec<u8> = (0..=255u8).collect();
    let mut id16 = [0u16; 256];
    for b in 0..256usize {
        id16[b] = b as u16;
    }
    let ti = [7u16; 256];
    let raw = decode_all_names_with_strategy(&d, 0, d.len(), 6, &toks, &ti, None, DecodeVariant::V1TokensRaw).unwrap();
    let v3 = decode_all_names_with_strategy(&d, 0, d.len(), 6, &toks, &ti, Some(&id8), DecodeVariant::V3TokensViaRemap).unwrap();
    assert_eq!(v3, raw);
    let raw16 = decode_all_names_with_strategy(&d, 0, d.len(), 6, &toks, &id16, None, DecodeVariant::V1TokensRaw).unwrap();
    let v2 = decode_all_names_with_strategy(&d, 0, d.len(), 6, &toks, &id16, None, DecodeVariant::V2TokensViaIndex).unwrap();
    assert_eq!(v2, raw16);
    assert_eq!(raw16, raw);
}
