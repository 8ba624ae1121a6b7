//! Kallsyms parser: discovers the kallsyms tables inside a kernel image
//! (optionally gzip/LZ4 compressed), aligns the token index and token table,
//! selects a name decoding variant (V1..V4), decodes the symbol names and
//! the address table, and assembles a symbol table sorted by address.
//!
//! Entry point: `Kallsyms::parse(bytes)`.

pub mod addresses;
pub mod bytes;
pub mod candidates;
pub mod decoder;
pub mod decompress;
pub mod error;
pub mod helpers;
pub mod layout;
pub mod markers;
pub mod names;
pub mod parser;
pub mod samsung;
pub mod score;
pub mod text;
pub mod tokens;
pub mod types;

pub use error::KallsymsError;
pub use parser::Kallsyms;
pub use samsung::extract_samsung_kallsyms;
pub use types::{KallsymsStats, Symbol, SymbolType};
