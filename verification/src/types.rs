//! Public data types: symbol type, symbol, and simple statistics.

use vstd::prelude::*;

verus! {

/// nm-like symbol type commonly used in kallsyms.
#[derive(Debug, Clone, Copy, PartialEq, Eq, Structural)]
pub enum SymbolType {
    Text,
    Data,
    Bss,
    Rodata,
    Weak,
    Undefined,
    Absolute,
    Other(char),
}

/// The symbol type that a single-letter type code denotes.
pub open spec fn spec_from_char(c: char) -> SymbolType {
    if c == 'T' || c == 't' {
        SymbolType::Text
    } else if c == 'D' || c == 'd' {
        SymbolType::Data
    } else if c == 'B' || c == 'b' {
        SymbolType::Bss
    } else if c == 'R' || c == 'r' {
        SymbolType::Rodata
    } else if c == 'W' || c == 'w' {
        SymbolType::Weak
    } else if c == 'U' {
        SymbolType::Undefined
    } else if c == 'A' || c == 'a' {
        SymbolType::Absolute
    } else {
        SymbolType::Other(c)
    }
}

/// The canonical letter of a symbol type.
pub open spec fn spec_to_char(t: SymbolType) -> char {
    match t {
        SymbolType::Text => 'T',
        SymbolType::Data => 'D',
        SymbolType::Bss => 'B',
        SymbolType::Rodata => 'R',
        SymbolType::Weak => 'W',
        SymbolType::Undefined => 'U',
        SymbolType::Absolute => 'A',
        SymbolType::Other(c) => c,
    }
}

impl SymbolType {
    /// Convert a single-letter type code to SymbolType.
    pub fn from_char(c: char) -> (t: Self)
        ensures
            t == spec_from_char(c),
    {
        match c {
            'T' | 't' => Self::Text,
            'D' | 'd' => Self::Data,
            'B' | 'b' => Self::Bss,
            'R' | 'r' => Self::Rodata,
            'W' | 'w' => Self::Weak,
            'U' => Self::Undefined,
            'A' | 'a' => Self::Absolute,
            _ => Self::Other(c),
        }
    }

    /// Convert SymbolType back to its canonical uppercase letter.
    pub fn to_char(self) -> (c: char)
        ensures
            c == spec_to_char(self),
    {
        match self {
            Self::Text => 'T',
            Self::Data => 'D',
            Self::Bss => 'B',
            Self::Rodata => 'R',
            Self::Weak => 'W',
            Self::Undefined => 'U',
            Self::Absolute => 'A',
            Self::Other(c) => c,
        }
    }
}

/// Reading back the letter of a decoded type gives the same type: every
/// type that `from_char` produces survives `to_char` followed by `from_char`.
pub proof fn lemma_type_char_roundtrip(c: char)
    ensures
        spec_from_char(spec_to_char(spec_from_char(c))) == spec_from_char(c),
{
}

/// A known letter is written back in its uppercase form.
pub proof fn lemma_to_char_uppercases(c: char)
    requires
        spec_from_char(c) !is Other,
    ensures
        spec_to_char(spec_from_char(c)) == (if 'a' <= c <= 'z' { ((c as u32) - 32) as char } else { c }),
{
}

/// A single kallsyms entry: address, type, and name.
#[derive(Debug, Clone)]
pub struct Symbol {
    pub address: u64,
    pub symbol_type: SymbolType,
    pub name: String,
}

/// Aggregate statistics over the parsed symbol table.
#[derive(Debug)]
pub struct KallsymsStats {
    pub total_symbols: usize,
    pub text_symbols: usize,
    pub data_symbols: usize,
    pub bss_symbols: usize,
    pub rodata_symbols: usize,
    pub other_symbols: usize,
}

impl Default for KallsymsStats {
    fn default() -> (s: Self)
        ensures
            s.total_symbols == 0,
            s.text_symbols == 0,
            s.data_symbols == 0,
            s.bss_symbols == 0,
            s.rodata_symbols == 0,
            s.other_symbols == 0,
    {
        KallsymsStats {
            total_symbols: 0,
            text_symbols: 0,
            data_symbols: 0,
            bss_symbols: 0,
            rodata_symbols: 0,
            other_symbols: 0,
        }
    }
}

} // verus!
