use std::io::Write;

use kallsyms::decompress::decompress_kernel_if_needed;
use kallsyms::samsung::try_extract_samsung_kallsyms;
use kallsyms::{extract_samsung_kallsyms, KallsymsError, SymbolType};

fn gzip(d: &[u8]) -> Vec<u8> {
    let mut enc = flate2::write::GzEncoder::new(Vec::new(), flate2::Compression::default());
    enc.write_all(d).unwrap();
    enc.finish().unwrap()
}

fn lz4(d: &[u8]) -> Vec<u8> {
    let mut enc = lz4_flex::frame::FrameEncoder::new(Vec::new());
    enc.write_all(d).unwrap();
    enc.finish().unwrap()
}

#[test]
fn short_input_kept() {
    assert_eq!(decompress_kernel_if_needed(&[0x1f, 0x8b, 8]).unwrap(), vec![0x1f, 0x8b, 8]);
    assert_eq!(decompress_kernel_if_needed(&[]).unwrap(), Vec::<u8>::new());
}

#[test]
fn plain_input_kept() {
    let d = b"plain kernel bytes".to_vec();
    assert_eq!(decompress_kernel_if_needed(&d).unwrap(), d);
}

#[test]
fn gzip_input_decompressed() {
    let d = b"hello kallsyms, hello kallsyms".to_vec();
    let z = gzip(&d);
    assert_ne!(z, d);
    assert_eq!(decompress_kernel_if_needed(&z).unwrap(), d);
}

#[test]
fn lz4_input_decompressed() {
    let d = b"hello kallsyms, hello kallsyms".to_vec();
    let z = lz4(&d);
    assert_eq!(&z[..4], &[0x04, 0x22, 0x4d, 0x18]);
    assert_eq!(decompress_kernel_if_needed(&z).unwrap(), d);
}

#[test]
fn broken_gzip_reported() {
    let r = decompress_kernel_if_needed(&[0x1f, 0x8b, 0, 0, 0, 0, 0, 0]);
    assert!(matches!(r, Err(KallsymsError::Decompression(_))));
}

#[test]
fn broken_lz4_reported() {
    let r = decompress_kernel_if_needed(&[0x04, 0x22, 0x4d, 0x18, 0xff, 0xff, 0xff]);
    assert!(matches!(r, Err(KallsymsError::Decompression(_))));
}

/// 64 bytes: a "sys_" signature at 8, a frame-setup prologue at 20, an
/// STP word at 32 and an STR word at 40.
fn pattern_data() -> Vec<u8> {
    let mut d = vec![0u8; 64];
    d[8..12].copy_from_slice(&[0xa9, 0xbf, 0x7b, 0xfd]);
    d[20..24].copy_from_slice(&[0xfd, 0x7b, 0xbc, 0xa9]);
    d[32..36].copy_from_slice(&[0xfd, 0x7b, 0x01, 0xa9]);
    d[40..44].copy_from_slice(&[0x00, 0x00, 0x00, 0xf9]);
    d
}

#[test]
fn samsung_pattern_scan() {
    let k = extract_samsung_kallsyms(&pattern_data()).unwrap();
    let got: Vec<(u64, SymbolType, String)> =
        k.symbols().iter().map(|s| (s.address, s.symbol_type, s.name.clone())).collect();
    assert_eq!(
        got,
        vec![
            (8, SymbolType::Text, "sys__0x8".to_string()),
            (20, SymbolType::Text, "function_0x14".to_string()),
            (32, SymbolType::Text, "func_0x20".to_string()),
            (40, SymbolType::Text, "func_0x28".to_string()),
        ]
    );
    assert_eq!(k.by_address.get(&20), Some(&1));
    assert_eq!(k.by_name.get("func_0x28"), Some(&vec![3]));
    assert_eq!(k.by_address.len(), 4);
    assert_eq!(k.by_name.len(), 4);
}

#[test]
fn samsung_unaligned_pattern() {
    let mut d = vec![0u8; 64];
    d[13..17].copy_from_slice(&[0xd5, 0x3b, 0xbf, 0xa9]);
    let k = extract_samsung_kallsyms(&d).unwrap();
    assert_eq!(k.symbols().len(), 1);
    assert_eq!(k.symbols()[0].address, 12);
    assert_eq!(k.symbols()[0].name, "__arm64__0xc");
}

#[test]
fn samsung_gzip_input() {
    let k = extract_samsung_kallsyms(&gzip(&pattern_data())).unwrap();
    assert_eq!(k.symbols().len(), 4);
    assert_eq!(k.symbols()[0].name, "sys__0x8");
}

#[test]
fn samsung_nothing_found() {
    assert!(matches!(extract_samsung_kallsyms(&vec![0u8; 64]), Err(KallsymsError::NotFound)));
}

#[test]
fn samsung_checked_entry() {
    assert!(try_extract_samsung_kallsyms(&[1, 2, 3]).is_none());
    match try_extract_samsung_kallsyms(&pattern_data()) {
        Some(Ok(k)) => assert_eq!(k.symbols().len(), 4),
        _ => panic!("expected symbols"),
    }
    assert!(matches!(try_extract_samsung_kallsyms(&vec![0u8; 64]), Some(Err(KallsymsError::NotFound))));
}
