//! Error type for kallsyms parsing.

use vstd::prelude::*;

verus! {

#[verifier::external_type_specification]
#[verifier::external_body]
pub struct ExIoError(std::io::Error);

/// All errors that can occur while parsing kallsyms.
#[derive(Debug)]
pub enum KallsymsError {
    /// No compatible kallsyms structure was found.
    NotFound,
    /// The layout or decoded data violated format expectations.
    InvalidFormat(String),
    /// Input was compressed but decompression failed.
    Decompression(String),
    /// I/O error surfaced while reading a compressed stream.
    Io(std::io::Error),
}

/// `e` is `InvalidFormat` carrying exactly the message `msg`.
pub open spec fn is_invalid_format(e: KallsymsError, msg: Seq<char>) -> bool {
    e matches KallsymsError::InvalidFormat(m) && m@ == msg
}

pub fn invalid_format(msg: &str) -> (e: KallsymsError)
    ensures
        is_invalid_format(e, msg@),
{
    KallsymsError::InvalidFormat(msg.to_owned())
}

} // verus!
