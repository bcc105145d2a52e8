//! The definition store: a gzip-compressed blob decompressed into one
//! flat UTF-8 byte buffer, addressed by (offset, length) ranges from the
//! index. Bounds are checked lazily at extraction time, so an index entry
//! pointing past the end of a truncated blob costs only that entry.

use vstd::prelude::*;

verus! {

use vstd::utf8::{decode_utf8, valid_utf8};
use crate::text::{trim_of, trim_text, utf8_text};

/// What gzip decompression yields on a byte string, or nothing where the
/// stream is malformed: a function of the input bytes alone.
pub uninterp spec fn gunzip_of(bytes: Seq<u8>) -> Option<Seq<u8>>;

/// Why a definition blob could not be read.
#[derive(Debug, Clone, Copy, PartialEq, Eq, Structural)]
pub enum StoreError {
    /// The byte stream is not well-formed gzip.
    DecompressionError,
    /// The decompressed bytes are not valid UTF-8.
    EncodingError,
}

/// Relies on flate2::read::GzDecoder over an in-memory slice: gzip
/// decompression, a function of the input bytes alone.
#[verifier::external_body]
fn gunzip(bytes: &[u8]) -> (r: Option<Vec<u8>>)
    ensures
        (r matches Some(v) ==> gunzip_of(bytes@) == Some(v@)),
        (r is None ==> gunzip_of(bytes@) is None),
{
    let mut decoder = flate2::read::GzDecoder::new(bytes);
    let mut plain: Vec<u8> = Vec::new();
    match std::io::Read::read_to_end(&mut decoder, &mut plain) {
        Ok(_) => Some(plain),
        Err(_) => None,
    }
}

/// The text a compressed blob decompresses to, or the error that stops it.
pub open spec fn decompressed_text(bytes: Seq<u8>) -> Result<Seq<u8>, StoreError> {
    match gunzip_of(bytes) {
        Option::None => Err(StoreError::DecompressionError),
        Option::Some(p) => if valid_utf8(p) {
            Ok(p)
        } else {
            Err(StoreError::EncodingError)
        },
    }
}

/// Decompresses a gzip blob into the flat definition text buffer. Fails
/// with `DecompressionError` on malformed gzip and with `EncodingError`
/// where the decompressed bytes are not valid UTF-8.
pub fn decompress(bytes: &[u8]) -> (r: Result<Vec<u8>, StoreError>)
    ensures
        r matches Ok(v) ==> decompressed_text(bytes@) == Ok::<Seq<u8>, StoreError>(v@),
        r matches Err(e) ==> decompressed_text(bytes@) == Err::<Seq<u8>, StoreError>(e),
{
    match gunzip(bytes) {
        None => Err(StoreError::DecompressionError),
        Some(plain) => {
            if utf8_text(plain.as_slice()).is_some() {
                Ok(plain)
            } else {
                Err(StoreError::EncodingError)
            }
        },
    }
}

/// The text a byte range of the blob stands for: the range decoded and
/// trimmed, or nothing where the range leaves the blob or cuts a
/// character.
pub open spec fn extract_spec(blob: Seq<u8>, offset: u64, length: u64) -> Option<Seq<char>> {
    if offset + length <= blob.len() {
        let piece = blob.subrange(offset as int, offset + length);
        if valid_utf8(piece) {
            Some(trim_of(decode_utf8(piece)))
        } else {
            None
        }
    } else {
        None
    }
}

/// Materializes one definition from the blob, trimmed of surrounding
/// whitespace; `None` where the range is out of bounds or not text.
pub fn extract(blob: &Vec<u8>, offset: u64, length: u64) -> (r: Option<String>)
    ensures
        r matches Some(s) ==> extract_spec(blob@, offset, length) == Some(s@),
        r is None ==> extract_spec(blob@, offset, length) is None,
{
    let n = blob.len();
    let end = match offset.checked_add(length) {
        Some(e) => e,
        None => {
            return None;
        },
    };
    if end > n as u64 {
        return None;
    }
    let piece = vstd::slice::slice_subrange(blob.as_slice(), offset as usize, end as usize);
    match utf8_text(piece) {
        Some(t) => Some(trim_text(t).to_owned()),
        None => None,
    }
}

} // verus!
