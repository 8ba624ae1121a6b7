use kallsyms::helpers::{
    is_likely_symbol_type_byte, is_valid_symbol_name_bytes, is_valid_token_table,
    relax_validate_kernel_addresses, starts_with, starts_with_any,
};
use kallsyms::layout::KallsymsLayout;
use kallsyms::{KallsymsStats, SymbolType};

fn table_with(nuls: usize, printable: usize, control: usize, high: usize) -> Vec<u8> {
    let mut v = Vec::new();
    v.extend(std::iter::repeat(0u8).take(nuls));
    v.extend(std::iter::repeat(b'a').take(printable));
    v.extend(std::iter::repeat(1u8).take(control));
    v.extend(std::iter::repeat(0x80u8).take(high));
    v
}

#[test]
fn token_table_too_short_is_rejected() {
    assert!(!is_valid_token_table(&table_with(16, 47, 0, 0)));
}

#[test]
fn token_table_plain_tokens_accepted() {
    let mut t = Vec::new();
    for _ in 0..16 {
        t.extend_from_slice(b"abc\0");
    }
    assert_eq!(t.len(), 64);
    assert!(is_valid_token_table(&t));
}

#[test]
fn token_table_needs_sixteen_nuls() {
    assert!(!is_valid_token_table(&table_with(15, 49, 0, 0)));
    assert!(is_valid_token_table(&table_with(16, 48, 0, 0)));
}

#[test]
fn token_table_control_character_limit() {
    // 3 of 64 control bytes is 4%, accepted; 4 of 64 is 6%, rejected.
    assert!(is_valid_token_table(&table_with(16, 45, 3, 0)));
    assert!(!is_valid_token_table(&table_with(16, 44, 4, 0)));
}

#[test]
fn token_table_printable_ratio_limit() {
    // 57 of 64 NUL-or-printable bytes is 89%, rejected; 58 of 64 is 90%.
    assert!(!is_valid_token_table(&table_with(16, 41, 0, 7)));
    assert!(is_valid_token_table(&table_with(16, 42, 0, 6)));
    // The underscore counts as printable.
    let mut t = table_with(16, 48, 0, 0);
    for b in t.iter_mut().skip(16) {
        *b = b'_';
    }
    assert!(is_valid_token_table(&t));
}

#[test]
fn symbol_name_charset() {
    assert!(is_valid_symbol_name_bytes(b"do_sys_open"));
    assert!(is_valid_symbol_name_bytes(b"a.b$c/d-e:f[0]"));
    assert!(!is_valid_symbol_name_bytes(b""));
    assert!(!is_valid_symbol_name_bytes(b"bad name"));
    assert!(!is_valid_symbol_name_bytes(b"caf\xc3\xa9"));
    assert!(!is_valid_symbol_name_bytes(b"x@y"));
}

#[test]
fn symbol_name_length_limit() {
    let ok = vec![b'a'; 512];
    let too_long = vec![b'a'; 513];
    assert!(is_valid_symbol_name_bytes(&ok));
    assert!(!is_valid_symbol_name_bytes(&too_long));
}

#[test]
fn symbol_type_bytes() {
    for b in b"AaBbCcDdGgIiNnPpRrSsTtUuVvWw-?".iter() {
        assert!(is_likely_symbol_type_byte(*b), "byte {}", *b as char);
    }
    for b in b"EeFfHhxXzZ0 _\0".iter() {
        assert!(!is_likely_symbol_type_byte(*b), "byte {}", *b);
    }
}

#[test]
fn prefix_matching() {
    let prefixes: Vec<&[u8]> = vec![b"__", b"init"];
    assert!(starts_with_any(b"init_task", &prefixes));
    assert!(starts_with_any(b"__schedule", &prefixes));
    assert!(!starts_with_any(b"in", &prefixes));
    assert!(!starts_with_any(b"do_init", &prefixes));
    assert!(!starts_with_any(b"init_task", &[]));
    assert!(starts_with_any(b"", &[b"" as &[u8]]));
    assert!(starts_with(b"abc", b"ab"));
    assert!(!starts_with(b"ab", b"abc"));
}

#[test]
fn kernel_addresses_empty_rejected() {
    assert!(!relax_validate_kernel_addresses(&[]));
}

#[test]
fn kernel_addresses_high_64_bit() {
    assert!(relax_validate_kernel_addresses(&[0xffff_ffc0_1000_0000; 10]));
    assert!(relax_validate_kernel_addresses(&[0xffff_0000_0000_0000]));
    assert!(!relax_validate_kernel_addresses(&[0xfffe_ffff_ffff_ffff]));
}

#[test]
fn kernel_addresses_32_bit_range() {
    assert!(relax_validate_kernel_addresses(&[0x8000_0000, 0xc000_8000, 0xffff_ffff]));
    assert!(!relax_validate_kernel_addresses(&[0x7fff_ffff]));
    assert!(!relax_validate_kernel_addresses(&[0x1_0000_0000]));
}

#[test]
fn kernel_addresses_nonzero_threshold() {
    let mut a = vec![0xffff_ffc0_1000_0000u64; 95];
    a.extend(vec![0u64; 5]);
    assert!(relax_validate_kernel_addresses(&a));
    let mut b = vec![0xffff_ffc0_1000_0000u64; 94];
    b.extend(vec![0u64; 6]);
    assert!(!relax_validate_kernel_addresses(&b));
}

#[test]
fn kernel_addresses_high_threshold() {
    let mut a = vec![0xffff_ffc0_1000_0000u64; 70];
    a.extend(vec![0x1000u64; 30]);
    assert!(relax_validate_kernel_addresses(&a));
    let mut b = vec![0xffff_ffc0_1000_0000u64; 69];
    b.extend(vec![0x1000u64; 31]);
    assert!(!relax_validate_kernel_addresses(&b));
}

#[test]
fn symbol_type_from_char_table() {
    assert_eq!(SymbolType::from_char('T'), SymbolType::Text);
    assert_eq!(SymbolType::from_char('t'), SymbolType::Text);
    assert_eq!(SymbolType::from_char('D'), SymbolType::Data);
    assert_eq!(SymbolType::from_char('d'), SymbolType::Data);
    assert_eq!(SymbolType::from_char('B'), SymbolType::Bss);
    assert_eq!(SymbolType::from_char('b'), SymbolType::Bss);
    assert_eq!(SymbolType::from_char('R'), SymbolType::Rodata);
    assert_eq!(SymbolType::from_char('r'), SymbolType::Rodata);
    assert_eq!(SymbolType::from_char('W'), SymbolType::Weak);
    assert_eq!(SymbolType::from_char('w'), SymbolType::Weak);
    assert_eq!(SymbolType::from_char('U'), SymbolType::Undefined);
    assert_eq!(SymbolType::from_char('u'), SymbolType::Other('u'));
    assert_eq!(SymbolType::from_char('A'), SymbolType::Absolute);
    assert_eq!(SymbolType::from_char('a'), SymbolType::Absolute);
    assert_eq!(SymbolType::from_char('V'), SymbolType::Other('V'));
    assert_eq!(SymbolType::from_char('?'), SymbolType::Other('?'));
}

#[test]
fn symbol_type_to_char_table() {
    assert_eq!(SymbolType::Text.to_char(), 'T');
    assert_eq!(SymbolType::Data.to_char(), 'D');
    assert_eq!(SymbolType::Bss.to_char(), 'B');
    assert_eq!(SymbolType::Rodata.to_char(), 'R');
    assert_eq!(SymbolType::Weak.to_char(), 'W');
    assert_eq!(SymbolType::Undefined.to_char(), 'U');
    assert_eq!(SymbolType::Absolute.to_char(), 'A');
    assert_eq!(SymbolType::Other('x').to_char(), 'x');
}

#[test]
fn symbol_type_round_trip() {
    for c in "TDBRWUA".chars() {
        assert_eq!(SymbolType::from_char(c).to_char(), c);
    }
    for c in "tdbrwa".chars() {
        assert_eq!(SymbolType::from_char(c).to_char(), c.to_ascii_uppercase());
    }
    for t in [SymbolType::Text, SymbolType::Data, SymbolType::Bss, SymbolType::Rodata,
              SymbolType::Weak, SymbolType::Undefined, SymbolType::Absolute,
              SymbolType::Other('V'), SymbolType::Other('?')] {
        assert_eq!(SymbolType::from_char(t.to_char()), t);
    }
}

#[test]
fn stats_default_is_zero() {
    let s = KallsymsStats::default();
    assert_eq!(s.total_symbols, 0);
    assert_eq!(s.text_symbols, 0);
    assert_eq!(s.data_symbols, 0);
    assert_eq!(s.bss_symbols, 0);
    assert_eq!(s.rodata_symbols, 0);
    assert_eq!(s.other_symbols, 0);
}

#[test]
fn layout_new_keeps_fields() {
    let l = KallsymsLayout::new(1, 2, 3, 4, 5, 6, 7, 8, 9);
    assert_eq!(l.num_syms, 1);
    assert_eq!(l.num_syms_offset, 2);
    assert_eq!(l.names_offset, 3);
    assert_eq!(l.names_size, 4);
    assert_eq!(l.markers_offset, 5);
    assert_eq!(l.markers_count, 6);
    assert_eq!(l.token_table_offset, 7);
    assert_eq!(l.token_table_size, 8);
    assert_eq!(l.token_index_offset, 9);
}
