//! Helpers for plausibility checks.

use vstd::prelude::*;

verus! {

/// Number of elements of `s` that satisfy `p`.
pub open spec fn count_where<T>(s: Seq<T>, p: spec_fn(T) -> bool) -> nat
    decreases s.len(),
{
    if s.len() == 0 {
        0
    } else {
        count_where(s.drop_last(), p) + if p(s.last()) {
            1nat
        } else {
            0nat
        }
    }
}

pub proof fn lemma_count_where_step<T>(s: Seq<T>, p: spec_fn(T) -> bool, i: int)
    requires
        0 <= i < s.len(),
    ensures
        count_where(s.take(i + 1), p) == count_where(s.take(i), p) + if p(s[i]) {
            1nat
        } else {
            0nat
        },
{
    assert(s.take(i + 1).drop_last() =~= s.take(i));
}

pub proof fn lemma_count_where_le<T>(s: Seq<T>, p: spec_fn(T) -> bool)
    ensures
        count_where(s, p) <= s.len(),
    decreases s.len(),
{
    if s.len() > 0 {
        lemma_count_where_le(s.drop_last(), p);
    }
}

/// `u8::is_ascii_graphic`: a printable ASCII byte other than space.
pub open spec fn is_graphic(b: u8) -> bool {
    0x21 <= b <= 0x7e
}

pub open spec fn is_nul(b: u8) -> bool {
    b == 0
}

/// A byte that the token-table check counts as printable.
pub open spec fn is_table_printable(b: u8) -> bool {
    b != 0 && (is_graphic(b) || b == 0x5f)
}

/// A byte that the token-table check counts as a control character.
pub open spec fn is_table_control(b: u8) -> bool {
    b != 0 && !is_table_printable(b) && b < 32
}

/// Token table plausibility: at least 64 bytes, at least 16 NUL terminators,
/// at least 90% NUL or printable bytes and under 5% control bytes
/// (percentages rounded down).
pub open spec fn spec_is_valid_token_table(d: Seq<u8>) -> bool {
    let nul = count_where(d, |b: u8| is_nul(b));
    let printable = count_where(d, |b: u8| is_table_printable(b));
    let control = count_where(d, |b: u8| is_table_control(b));
    &&& d.len() >= 64
    &&& nul >= 16
    &&& ((printable + nul) as int) * 100 / (d.len() as int) >= 90
    &&& (control as int) * 100 / (d.len() as int) < 5
}

/// Basic sanity check for a token table region: lots of NUL terminators,
/// mostly printable tokens, very few control characters.
pub fn is_valid_token_table(data: &[u8]) -> (r: bool)
    ensures
        r == spec_is_valid_token_table(data@),
{
    if data.len() < 64 {
        return false;
    }
    let mut null_count: usize = 0;
    let mut non_null_printable: usize = 0;
    let mut control_chars: usize = 0;
    let mut i: usize = 0;
    while i < data.len()
        invariant
            i <= data@.len(),
            null_count == count_where(data@.take(i as int), |b: u8| is_nul(b)),
            non_null_printable == count_where(data@.take(i as int), |b: u8| is_table_printable(b)),
            control_chars == count_where(data@.take(i as int), |b: u8| is_table_control(b)),
        decreases data@.len() - i,
    {
        let b = data[i];
        proof {
            lemma_count_where_step(data@, |b: u8| is_nul(b), i as int);
            lemma_count_where_step(data@, |b: u8| is_table_printable(b), i as int);
            lemma_count_where_step(data@, |b: u8| is_table_control(b), i as int);
            lemma_count_where_le(data@.take(i as int), |b: u8| is_nul(b));
            lemma_count_where_le(data@.take(i as int), |b: u8| is_table_printable(b));
            lemma_count_where_le(data@.take(i as int), |b: u8| is_table_control(b));
        }
        if b == 0 {
            null_count += 1;
        } else if (b >= 0x21 && b <= 0x7e) || b == 0x5f {
            non_null_printable += 1;
        } else if b < 32 {
            control_chars += 1;
        }
        i += 1;
    }
    assert(data@.take(data@.len() as int) =~= data@);
    let len = data.len() as u128;
    let printable_pct = ((non_null_printable as u128) + (null_count as u128)) * 100 / len;
    let control_pct = (control_chars as u128) * 100 / len;
    null_count >= 16 && printable_pct >= 90 && control_pct < 5
}

/// A byte that may appear in a symbol name.
pub open spec fn is_name_byte(b: u8) -> bool {
    ||| 0x30 <= b <= 0x39
    ||| 0x41 <= b <= 0x5a
    ||| 0x61 <= b <= 0x7a
    ||| b == 0x5f  // '_'
    ||| b == 0x2e  // '.'
    ||| b == 0x24  // '$'
    ||| b == 0x2f  // '/'
    ||| b == 0x2d  // '-'
    ||| b == 0x3a  // ':'
    ||| b == 0x5b  // '['
    ||| b == 0x5d  // ']'
}

/// A plausible decoded symbol name: 1 to 512 bytes, each an ASCII letter,
/// digit or one of `_ . $ / - : [ ]`.
pub open spec fn spec_is_valid_symbol_name(name: Seq<u8>) -> bool {
    &&& 1 <= name.len() <= 512
    &&& forall|i: int| 0 <= i < name.len() ==> is_name_byte(#[trigger] name[i])
}

/// Check if a decoded name is reasonable for kallsyms (ASCII-ish identifier).
pub fn is_valid_symbol_name_bytes(name: &[u8]) -> (r: bool)
    ensures
        r == spec_is_valid_symbol_name(name@),
{
    if name.len() == 0 || name.len() > 512 {
        return false;
    }
    let mut i: usize = 0;
    while i < name.len()
        invariant
            i <= name@.len(),
            forall|j: int| 0 <= j < i ==> is_name_byte(#[trigger] name@[j]),
        decreases name@.len() - i,
    {
        let b = name[i];
        let ok = (b >= 0x30 && b <= 0x39) || (b >= 0x41 && b <= 0x5a) || (b >= 0x61 && b <= 0x7a)
            || b == 0x5f || b == 0x2e || b == 0x24 || b == 0x2f || b == 0x2d || b == 0x3a
            || b == 0x5b || b == 0x5d;
        if !ok {
            return false;
        }
        i += 1;
    }
    true
}

/// The nm-like one-byte type codes: `A B C D G I N P R S T U V W` in either
/// case, plus `-` and `?`.
pub open spec fn spec_is_likely_symbol_type_byte(b: u8) -> bool {
    let upper = if 0x61 <= b <= 0x7a { (b - 32) as u8 } else { b };
    ||| b == 0x2d  // '-'
    ||| b == 0x3f  // '?'
    ||| upper == 0x41 || upper == 0x42 || upper == 0x43 || upper == 0x44 || upper == 0x47
    ||| upper == 0x49 || upper == 0x4e || upper == 0x50 || upper == 0x52 || upper == 0x53
    ||| upper == 0x54 || upper == 0x55 || upper == 0x56 || upper == 0x57
}

/// Kallsyms symbol types follow nm-like one-byte type codes.
pub fn is_likely_symbol_type_byte(b: u8) -> (r: bool)
    ensures
        r == spec_is_likely_symbol_type_byte(b),
{
    let upper = if b >= 0x61 && b <= 0x7a { b - 32 } else { b };
    b == 0x2d || b == 0x3f || upper == 0x41 || upper == 0x42 || upper == 0x43 || upper == 0x44
        || upper == 0x47 || upper == 0x49 || upper == 0x4e || upper == 0x50 || upper == 0x52
        || upper == 0x53 || upper == 0x54 || upper == 0x55 || upper == 0x56 || upper == 0x57
}

/// `p` is a prefix of `s`.
pub open spec fn is_prefix_of(p: Seq<u8>, s: Seq<u8>) -> bool {
    p.len() <= s.len() && s.take(p.len() as int) == p
}

/// Some prefix in the list is a prefix of `s`.
pub open spec fn spec_starts_with_any(s: Seq<u8>, prefixes: Seq<Seq<u8>>) -> bool {
    exists|i: int| 0 <= i < prefixes.len() && is_prefix_of(#[trigger] prefixes[i], s)
}

/// `<[u8]>::starts_with`.
pub fn starts_with(s: &[u8], p: &[u8]) -> (r: bool)
    ensures
        r == is_prefix_of(p@, s@),
{
    if p.len() > s.len() {
        return false;
    }
    let mut i: usize = 0;
    while i < p.len()
        invariant
            p@.len() <= s@.len(),
            i <= p@.len(),
            forall|j: int| 0 <= j < i ==> s@[j] == p@[j],
        decreases p@.len() - i,
    {
        if s[i] != p[i] {
            assert(s@.take(p@.len() as int)[i as int] != p@[i as int]);
            return false;
        }
        i += 1;
    }
    assert(s@.take(p@.len() as int) =~= p@);
    true
}

/// Return true if s starts with any of the given byte prefixes.
pub fn starts_with_any(s: &[u8], prefixes: &[&[u8]]) -> (r: bool)
    ensures
        r == spec_starts_with_any(s@, prefixes@.map_values(|p: &[u8]| p@)),
{
    let ghost ps = prefixes@.map_values(|p: &[u8]| p@);
    let mut i: usize = 0;
    while i < prefixes.len()
        invariant
            i <= prefixes@.len(),
            ps == prefixes@.map_values(|p: &[u8]| p@),
            forall|j: int| 0 <= j < i ==> !is_prefix_of(#[trigger] ps[j], s@),
        decreases prefixes@.len() - i,
    {
        if starts_with(s, prefixes[i]) {
            assert(is_prefix_of(ps[i as int], s@));
            return true;
        }
        i += 1;
    }
    false
}

pub open spec fn is_nonzero(a: u64) -> bool {
    a != 0
}

/// At or above the start of the canonical upper half on 64-bit kernels.
pub open spec fn is_high64(a: u64) -> bool {
    a >= 0xffff_0000_0000_0000
}

/// In the typical 32-bit kernel virtual address range.
pub open spec fn is_high32(a: u64) -> bool {
    0x8000_0000 <= a <= 0xffff_ffff
}

/// Relaxed plausibility of an address table: non-empty, at least 95% non-zero,
/// and at least 70% high 64-bit or at least 70% high 32-bit kernel addresses
/// (percentages rounded down).
pub open spec fn spec_relax_validate_kernel_addresses(a: Seq<u64>) -> bool {
    let n = a.len() as int;
    &&& n > 0
    &&& (count_where(a, |x: u64| is_nonzero(x)) as int) * 100 / n >= 95
    &&& ((count_where(a, |x: u64| is_high64(x)) as int) * 100 / n >= 70
        || (count_where(a, |x: u64| is_high32(x)) as int) * 100 / n >= 70)
}

/// Relaxed kernel-address plausibility check: mostly non-zero and high VA.
pub fn relax_validate_kernel_addresses(addrs: &[u64]) -> (r: bool)
    ensures
        r == spec_relax_validate_kernel_addresses(addrs@),
{
    if addrs.len() == 0 {
        return false;
    }
    let mut high64: usize = 0;
    let mut high32: usize = 0;
    let mut nonzero: usize = 0;
    let mut i: usize = 0;
    while i < addrs.len()
        invariant
            i <= addrs@.len(),
            nonzero == count_where(addrs@.take(i as int), |x: u64| is_nonzero(x)),
            high64 == count_where(addrs@.take(i as int), |x: u64| is_high64(x)),
            high32 == count_where(addrs@.take(i as int), |x: u64| is_high32(x)),
        decreases addrs@.len() - i,
    {
        let a = addrs[i];
        proof {
            lemma_count_where_step(addrs@, |x: u64| is_nonzero(x), i as int);
            lemma_count_where_step(addrs@, |x: u64| is_high64(x), i as int);
            lemma_count_where_step(addrs@, |x: u64| is_high32(x), i as int);
            lemma_count_where_le(addrs@.take(i as int), |x: u64| is_nonzero(x));
            lemma_count_where_le(addrs@.take(i as int), |x: u64| is_high64(x));
            lemma_count_where_le(addrs@.take(i as int), |x: u64| is_high32(x));
        }
        if a != 0 {
            nonzero += 1;
        }
        if a >= 0xffff_0000_0000_0000 || a >= 0xffff_8000_0000_0000 || a >= 0xffffff80_00000000 {
            high64 += 1;
        }
        if a >= 0x8000_0000 && a <= 0xffff_ffff {
            high32 += 1;
        }
        i += 1;
    }
    assert(addrs@.take(addrs@.len() as int) =~= addrs@);
    let n = addrs.len() as u128;
    let mostly_nonzero = (nonzero as u128) * 100 / n >= 95;
    let plausible64 = (high64 as u128) * 100 / n >= 70;
    let plausible32 = (high32 as u128) * 100 / n >= 70;
    mostly_nonzero && (plausible64 || plausible32)
}

} // verus!

verus! {

/// Removing the element at `i` removes its contribution to the count.
pub proof fn lemma_count_where_remove<T>(s: Seq<T>, p: spec_fn(T) -> bool, i: int)
    requires
        0 <= i < s.len(),
    ensures
        count_where(s, p) == count_where(s.remove(i), p) + if p(s[i]) {
            1nat
        } else {
            0nat
        },
    decreases s.len(),
{
    if i == s.len() - 1 {
        assert(s.remove(i) =~= s.drop_last());
    } else {
        lemma_count_where_remove(s.drop_last(), p, i);
        assert(s.remove(i).drop_last() =~= s.drop_last().remove(i));
        assert(s.remove(i).last() == s.last());
    }
}

/// Counts do not depend on the order of the elements: sequences with the
/// same elements (as multisets) have the same counts.
pub proof fn lemma_count_where_reorder<T>(a: Seq<T>, b: Seq<T>, p: spec_fn(T) -> bool)
    requires
        a.to_multiset() == b.to_multiset(),
    ensures
        count_where(a, p) == count_where(b, p),
    decreases a.len(),
{
    broadcast use vstd::seq_lib::group_to_multiset_ensures;
    broadcast use vstd::multiset::group_multiset_axioms;
    a.to_multiset_ensures();
    b.to_multiset_ensures();
    if a.len() == 0 {
        assert(b.len() == 0);
    } else {
        let x = a.last();
        let a1 = a.drop_last();
        a1.to_multiset_ensures();
        assert(a1.push(x) =~= a);
        assert(a.to_multiset() =~= a1.to_multiset().insert(x));
        assert(b.to_multiset().count(x) > 0);
        assert(b.contains(x));
        let i = choose|i: int| 0 <= i < b.len() && b[i] == x;
        let b1 = b.remove(i);
        assert(b1.to_multiset() =~= b.to_multiset().remove(x));
        assert(a1.to_multiset() =~= a1.to_multiset().insert(x).remove(x));
        lemma_count_where_reorder(a1, b1, p);
        lemma_count_where_remove(b, p, i);
    }
}

/// The relaxed address check does not depend on the order of the addresses.
pub proof fn lemma_relax_validate_order_independent(a: Seq<u64>, b: Seq<u64>)
    requires
        a.to_multiset() == b.to_multiset(),
    ensures
        spec_relax_validate_kernel_addresses(a) == spec_relax_validate_kernel_addresses(b),
{
    broadcast use vstd::seq_lib::group_to_multiset_ensures;
    a.to_multiset_ensures();
    b.to_multiset_ensures();
    lemma_count_where_reorder(a, b, |x: u64| is_nonzero(x));
    lemma_count_where_reorder(a, b, |x: u64| is_high64(x));
    lemma_count_where_reorder(a, b, |x: u64| is_high32(x));
}

} // verus!
