//! The error taxonomy shared by the codecs, and the raw fixed-width token
//! reader that underlies both the encoder and the decoder.

use vstd::prelude::*;

verus! {

/// Errors surfaced by an encode or decode run.
#[derive(Clone, Copy, Debug, PartialEq, Eq, Structural)]
pub enum CodecError {
    /// The next code to assign would exceed the range of a 16-bit code.
    DictionaryFull,
    /// The code stream ended in the middle of a fixed-width code word.
    TruncatedToken,
    /// A code referenced a dictionary entry that cannot exist at that point
    /// of the stream and is not the legal self-referential case.
    CorruptStream,
}

/// The numeric value of two bytes read in big-endian order.
pub open spec fn be_u16(hi: u8, lo: u8) -> u16 {
    (hi * 256 + lo) as u16
}

/// Reads one byte at position `pos`, or reports clean end-of-stream.
pub fn read_u8(src: &Vec<u8>, pos: usize) -> (r: Option<u8>)
    ensures
        pos < src@.len() ==> r == Some(src@[pos as int]),
        pos >= src@.len() ==> r is None,
{
    if pos < src.len() {
        Some(src[pos])
    } else {
        None
    }
}

/// Reads one big-endian 16-bit code word starting at `pos`.
///
/// A token that is missing entirely is clean end-of-stream (`Ok(None)`); a
/// token that starts but does not complete is an error.
pub fn read_u16(src: &Vec<u8>, pos: usize) -> (r: Result<Option<u16>, CodecError>)
    ensures
        pos + 2 <= src@.len() ==> r == Ok::<Option<u16>, CodecError>(
            Some(be_u16(src@[pos as int], src@[pos + 1])),
        ),
        pos + 1 == src@.len() ==> r == Err::<Option<u16>, CodecError>(CodecError::TruncatedToken),
        pos >= src@.len() ==> r == Ok::<Option<u16>, CodecError>(None),
{
    if pos >= src.len() {
        Ok(None)
    } else if pos + 1 >= src.len() {
        Err(CodecError::TruncatedToken)
    } else {
        let hi = src[pos];
        let lo = src[pos + 1];
        Ok(Some((hi as u16) * 256 + (lo as u16)))
    }
}

} // verus!
