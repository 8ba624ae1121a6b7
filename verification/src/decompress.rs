//! Transparent input decompression when the buffer is gzip or LZ4.

use vstd::prelude::*;
use vstd::slice::slice_to_vec;
use crate::bytes::fits_in_memory;
use crate::error::KallsymsError;

verus! {

/// What a `flate2::read::GzDecoder` over `input`, read to the end, yields:
/// the decompressed bytes, or the text of the I/O error it reports.
pub uninterp spec fn gzip_read_to_end(input: Seq<u8>) -> Result<Seq<u8>, Seq<char>>;

/// What a `lz4_flex::frame::FrameDecoder` over `input`, read to the end,
/// yields: the decompressed bytes, or the text of the I/O error it reports.
pub uninterp spec fn lz4_frame_read_to_end(input: Seq<u8>) -> Result<Seq<u8>, Seq<char>>;

/// Decompresses a gzip stream with `flate2::read::GzDecoder` and
/// `std::io::Read::read_to_end`. Trusted: the outcome is the named
/// `gzip_read_to_end` of the input, and a decompressed vector holds at most
/// `isize::MAX` bytes, as every `Vec<u8>` does.
#[verifier::external_body]
fn gunzip(data: &[u8]) -> (r: Result<Vec<u8>, String>)
    ensures
        match r {
            Ok(v) => gzip_read_to_end(data@) == Ok::<Seq<u8>, Seq<char>>(v@) && fits_in_memory(v@.len()),
            Err(m) => gzip_read_to_end(data@) == Err::<Seq<u8>, Seq<char>>(m@),
        },
{
    let mut dec = flate2::read::GzDecoder::new(data);
    let mut out = Vec::new();
    match std::io::Read::read_to_end(&mut dec, &mut out) {
        Ok(_) => Ok(out),
        Err(e) => Err(e.to_string()),
    }
}

/// Decompresses an LZ4 frame with `lz4_flex::frame::FrameDecoder` and
/// `std::io::Read::read_to_end`. Trusted: the outcome is the named
/// `lz4_frame_read_to_end` of the input, and a decompressed vector holds at
/// most `isize::MAX` bytes, as every `Vec<u8>` does.
#[verifier::external_body]
fn unlz4(data: &[u8]) -> (r: Result<Vec<u8>, String>)
    ensures
        match r {
            Ok(v) => lz4_frame_read_to_end(data@) == Ok::<Seq<u8>, Seq<char>>(v@) && fits_in_memory(v@.len()),
            Err(m) => lz4_frame_read_to_end(data@) == Err::<Seq<u8>, Seq<char>>(m@),
        },
{
    let mut dec = lz4_flex::frame::FrameDecoder::new(std::io::Cursor::new(data));
    let mut out = Vec::new();
    match std::io::Read::read_to_end(&mut dec, &mut out) {
        Ok(_) => Ok(out),
        Err(e) => Err(e.to_string()),
    }
}

/// The data starts with the gzip magic `1f 8b`.
pub open spec fn is_gzip(d: Seq<u8>) -> bool {
    d.len() >= 2 && d[0] == 0x1f && d[1] == 0x8b
}

/// The data starts with the LZ4 frame magic `04 22 4d 18`.
pub open spec fn is_lz4_frame(d: Seq<u8>) -> bool {
    d.len() >= 4 && d[0] == 0x04 && d[1] == 0x22 && d[2] == 0x4d && d[3] == 0x18
}

/// The kernel bytes after transparent decompression: inputs of at least four
/// bytes that start with the gzip or LZ4 frame magic are decompressed,
/// everything else is kept as is.
pub open spec fn spec_decompress(d: Seq<u8>) -> Result<Seq<u8>, Seq<char>> {
    if d.len() < 4 {
        Ok(d)
    } else if is_gzip(d) {
        gzip_read_to_end(d)
    } else if is_lz4_frame(d) {
        lz4_frame_read_to_end(d)
    } else {
        Ok(d)
    }
}

/// If the input looks like gzip or LZ4, decompress it; otherwise return it as-is.
pub fn decompress_kernel_if_needed(data: &[u8]) -> (r: Result<Vec<u8>, KallsymsError>)
    requires
        fits_in_memory(data@.len()),
    ensures
        match r {
            Ok(v) => spec_decompress(data@) == Ok::<Seq<u8>, Seq<char>>(v@) && fits_in_memory(v@.len()),
            Err(e) => spec_decompress(data@) matches Err(m) && e matches KallsymsError::Decompression(s) && s@ == m,
        },
{
    if data.len() < 4 {
        return Ok(slice_to_vec(data));
    }
    if data[0] == 0x1f && data[1] == 0x8b {
        return match gunzip(data) {
            Ok(v) => Ok(v),
            Err(m) => Err(KallsymsError::Decompression(m)),
        };
    }
    if data[0] == 0x04 && data[1] == 0x22 && data[2] == 0x4d && data[3] == 0x18 {
        return match unlz4(data) {
            Ok(v) => Ok(v),
            Err(m) => Err(KallsymsError::Decompression(m)),
        };
    }
    Ok(slice_to_vec(data))
}

} // verus!
