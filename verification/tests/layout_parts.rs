use kallsyms::addresses::{find_and_read_addresses, try_find_absolute_in_window, try_find_relative_in_window};
use kallsyms::markers::{find_markers_for_candidate, try_read_markers_ending_at};
use kallsyms::names::{collect_name_samples, find_names_and_num_syms, walk_names_until_limit};
use kallsyms::KallsymsError;

const BASE: u64 = 0xffff_ffc0_1000_0000;

fn invalid_format_message(e: KallsymsError) -> String {
    match e {
        KallsymsError::InvalidFormat(m) => m,
        other => panic!("unexpected error {:?}", other),
    }
}

/// 40 bytes of 0xff, then eight ascending u32 markers (0, 100, .., 700).
fn markers_data() -> Vec<u8> {
    let mut d = vec![0xffu8; 40];
    for k in 0..8u32 {
        d.extend_from_slice(&(100 * k).to_le_bytes());
    }
    d
}

#[test]
fn markers_run_found() {
    let d = markers_data();
    assert_eq!(d.len(), 72);
    assert_eq!(try_read_markers_ending_at(&d, 72), Some((40, 8)));
    // The end position is rounded down to a multiple of four.
    assert_eq!(try_read_markers_ending_at(&d, 75), Some((40, 8)));
}

#[test]
fn markers_run_too_short() {
    let d = markers_data();
    assert_eq!(try_read_markers_ending_at(&d, 68), None);
    assert_eq!(try_read_markers_ending_at(&d, 39), None);
    assert_eq!(try_read_markers_ending_at(&d, 0), None);
}

#[test]
fn markers_run_stops_at_zero_prefix() {
    let mut d = vec![0u8; 40];
    for k in 0..9u32 {
        d.extend_from_slice(&(10 * k).to_le_bytes());
    }
    assert_eq!(try_read_markers_ending_at(&d, d.len()), Some((40, 9)));
}

#[test]
fn markers_found_before_token_table() {
    let mut d = markers_data();
    d.extend_from_slice(&[0u8; 4]);
    d.extend_from_slice(&[b'a'; 64]);
    assert_eq!(find_markers_for_candidate(&d, 76).unwrap(), (40, 8));
}

#[test]
fn markers_token_table_too_early() {
    let d = vec![0u8; 128];
    let e = find_markers_for_candidate(&d, 63).unwrap_err();
    assert_eq!(invalid_format_message(e), "token_table too early in file");
}

#[test]
fn markers_not_found_in_zeros() {
    let d = vec![0u8; 128];
    let e = find_markers_for_candidate(&d, 100).unwrap_err();
    assert_eq!(invalid_format_message(e), "markers not found");
}

#[test]
fn walk_names_counts_entries() {
    let d = [3u8, b'a', b'b', b'c', 2, b'x', b'y', 1, b'z'];
    assert_eq!(walk_names_until_limit(&d, 0, 3, 9), Some(9));
    assert_eq!(walk_names_until_limit(&d, 0, 2, 9), Some(7));
    assert_eq!(walk_names_until_limit(&d, 4, 0, 9), Some(4));
    assert_eq!(walk_names_until_limit(&d, 0, 4, 9), None);
    assert_eq!(walk_names_until_limit(&d, 0, 3, 7), None);
    assert_eq!(walk_names_until_limit(&d, 0, 3, 100), Some(9));
}

#[test]
fn walk_names_rejects_empty_entry() {
    let d = [1u8, b'a', 0, b'b'];
    assert_eq!(walk_names_until_limit(&d, 0, 1, 4), Some(2));
    assert_eq!(walk_names_until_limit(&d, 0, 2, 4), None);
}

#[test]
fn names_with_u32_count() {
    let d = [3u8, 0, 0, 0, 1, b'a', 1, b'b', 2, b'c', b'd'];
    assert_eq!(find_names_and_num_syms(&d, 11, 0, 1).unwrap(), (4, 0, 3));
}

#[test]
fn names_with_u64_count() {
    let d = [3u8, 0, 0, 0, 0, 0, 0, 0, 1, b'a', 1, b'b', 2, b'c', b'd'];
    assert_eq!(find_names_and_num_syms(&d, 15, 0, 1).unwrap(), (8, 0, 3));
}

#[test]
fn names_marker_count_mismatch() {
    let d = [3u8, 0, 0, 0, 1, b'a', 1, b'b', 2, b'c', b'd'];
    let e = find_names_and_num_syms(&d, 11, 0, 2).unwrap_err();
    assert_eq!(invalid_format_message(e), "names/num_syms not found");
}

#[test]
fn name_samples_collected() {
    let d = [1u8, b'a', 2, b'b', b'c', 3, b'd', b'e', b'f'];
    let s = collect_name_samples(&d, 0, 9, 10, 10);
    assert_eq!(s, vec![&b"a"[..], &b"bc"[..], &b"def"[..]]);
    let s = collect_name_samples(&d, 0, 9, 2, 10);
    assert_eq!(s, vec![&b"a"[..], &b"bc"[..]]);
    let s = collect_name_samples(&d, 0, 9, 10, 1);
    assert_eq!(s, vec![&b"a"[..]]);
}

#[test]
fn name_samples_stop_at_bad_entry() {
    let d = [1u8, b'a', 0, b'b', b'c'];
    assert_eq!(collect_name_samples(&d, 0, 5, 10, 10), vec![&b"a"[..]]);
    let d = [1u8, b'a', 4, b'b', b'c'];
    assert_eq!(collect_name_samples(&d, 0, 5, 10, 10), vec![&b"a"[..]]);
    assert_eq!(collect_name_samples(&d, 0, 0, 10, 10), Vec::<&[u8]>::new());
}

fn relative_data() -> Vec<u8> {
    let mut d = Vec::new();
    for off in [0x10i32, -0x10, 0x30] {
        d.extend_from_slice(&off.to_le_bytes());
    }
    d.extend_from_slice(&BASE.to_le_bytes());
    d
}

#[test]
fn relative_addresses_little_endian() {
    let d = relative_data();
    assert_eq!(
        try_find_relative_in_window(&d, 0, d.len(), 3),
        Some(vec![BASE + 0x10, BASE - 0x10, BASE + 0x30])
    );
}

#[test]
fn relative_addresses_big_endian() {
    let mut d = Vec::new();
    for off in [0x10i32, -0x10, 0x30] {
        d.extend_from_slice(&off.to_be_bytes());
    }
    d.extend_from_slice(&BASE.to_be_bytes());
    assert_eq!(
        try_find_relative_in_window(&d, 0, d.len(), 3),
        Some(vec![BASE + 0x10, BASE - 0x10, BASE + 0x30])
    );
}

#[test]
fn relative_addresses_none() {
    let d = relative_data();
    assert_eq!(try_find_relative_in_window(&d, 0, d.len(), 0), None);
    assert_eq!(try_find_relative_in_window(&d, 0, 19, 3), None);
    assert_eq!(try_find_relative_in_window(&[0u8; 64], 0, 64, 3), None);
}

#[test]
fn absolute_addresses_u64() {
    let mut d = Vec::new();
    for a in [BASE, BASE + 0x100, BASE + 0x200] {
        d.extend_from_slice(&a.to_le_bytes());
    }
    assert_eq!(
        try_find_absolute_in_window(&d, 0, d.len(), 3),
        Some(vec![BASE, BASE + 0x100, BASE + 0x200])
    );
    let mut b = Vec::new();
    for a in [BASE, BASE + 0x100, BASE + 0x200] {
        b.extend_from_slice(&a.to_be_bytes());
    }
    assert_eq!(
        try_find_absolute_in_window(&b, 0, b.len(), 3),
        Some(vec![BASE, BASE + 0x100, BASE + 0x200])
    );
}

#[test]
fn absolute_addresses_u32() {
    let mut d = Vec::new();
    for a in [0xc000_8000u32, 0xc000_8100, 0xc000_8200] {
        d.extend_from_slice(&a.to_le_bytes());
    }
    assert_eq!(
        try_find_absolute_in_window(&d, 0, d.len(), 3),
        Some(vec![0xc000_8000, 0xc000_8100, 0xc000_8200])
    );
    assert_eq!(try_find_absolute_in_window(&[0u8; 12], 0, 12, 3), None);
}

#[test]
fn addresses_found_before_count() {
    let mut d = relative_data();
    d.extend_from_slice(&3u32.to_le_bytes());
    assert_eq!(
        find_and_read_addresses(&d, 20, 3).unwrap(),
        vec![BASE + 0x10, BASE - 0x10, BASE + 0x30]
    );
}

#[test]
fn addresses_not_found() {
    let d = vec![0u8; 64];
    let e = find_and_read_addresses(&d, 60, 3).unwrap_err();
    assert_eq!(invalid_format_message(e), "addresses not found");
}

#[test]
fn walk_names_enforces_hard_end() {
    assert_eq!(walk_names_until_limit(&[5u8], 0, 1, 1), None);
    let d = [5u8, b'a', b'b', b'c', b'd', b'e'];
    assert_eq!(walk_names_until_limit(&d, 0, 1, 6), Some(6));
    assert_eq!(walk_names_until_limit(&d, 0, 1, 5), None);
}

#[test]
fn names_entry_may_not_cross_markers() {
    // The third entry would end one byte past the markers at offset 10.
    let d = [3u8, 0, 0, 0, 1, b'a', 1, b'b', 2, b'c', b'd'];
    assert!(find_names_and_num_syms(&d, 10, 0, 1).is_err());
}

#[test]
fn absolute_window_past_data() {
    let mut d = Vec::new();
    for a in [BASE, BASE + 0x100, BASE + 0x200] {
        d.extend_from_slice(&a.to_le_bytes());
    }
    assert_eq!(
        try_find_absolute_in_window(&d, 0, 1000, 3),
        Some(vec![BASE, BASE + 0x100, BASE + 0x200])
    );
    assert_eq!(try_find_absolute_in_window(&[0u8; 16], 0, 1000, 3), None);
}

#[test]
fn relative_found_before_window_end() {
    let d = relative_data();
    assert_eq!(
        try_find_relative_in_window(&d, 0, 1000, 3),
        Some(vec![BASE + 0x10, BASE - 0x10, BASE + 0x30])
    );
    assert_eq!(
        find_and_read_addresses(&d, 1000, 3).unwrap(),
        vec![BASE + 0x10, BASE - 0x10, BASE + 0x30]
    );
}

#[test]
fn markers_too_early_for_short_data() {
    let e = find_markers_for_candidate(&[0u8; 10], 63).unwrap_err();
    assert_eq!(invalid_format_message(e), "token_table too early in file");
}

#[test]
fn relaxed_check_ignores_order() {
    let mut a = vec![0xffff_ffc0_1000_0000u64; 70];
    a.extend(vec![0x1000u64; 25]);
    a.extend(vec![0u64; 5]);
    let mut b = a.clone();
    b.reverse();
    assert_eq!(
        kallsyms::helpers::relax_validate_kernel_addresses(&a),
        kallsyms::helpers::relax_validate_kernel_addresses(&b)
    );
    assert!(kallsyms::helpers::relax_validate_kernel_addresses(&b));
}
