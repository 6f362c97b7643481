//! Compression tags and the gzip codec.
//!
//! A payload is stored either verbatim or as a gzip stream. Decoding a byte
//! sequence is a function of the bytes alone, named by [`gunzip_of`]; the
//! encoder promises only that whatever bytes it produces decode back to its
//! input, which is all the round-trip contracts need.

use std::io::Read;
use std::io::Write;
use vstd::prelude::*;

verus! {

/// Which codec produced a stored payload.
#[derive(Clone, Copy, Debug, PartialEq, Eq, Structural)]
pub enum Compression {
    Plain,
    Gzip,
}

/// The runtime failure taxonomy: a key that is not in the table, or a stored
/// payload that does not decode under its declared tag.
#[derive(Clone, Copy, Debug, PartialEq, Eq, Structural)]
pub enum FilesError {
    NotFound,
    DecodeFailure,
}

/// What gzip decoding yields on a byte sequence: the decoded bytes of its
/// leading gzip member when decoding succeeds, nothing otherwise. Decoding
/// is a function of the bytes alone.
pub uninterp spec fn gunzip_of(data: Seq<u8>) -> Option<Seq<u8>>;

/// Relies on flate2's `write::GzEncoder` at best compression: the bytes it
/// produces are a gzip stream that decodes back to exactly its input.
#[verifier::external_body]
pub(crate) fn gzip_bytes(data: &Vec<u8>) -> (r: Vec<u8>)
    ensures
        gunzip_of(r@) == Some(data@),
{
    let mut enc = flate2::write::GzEncoder::new(Vec::new(), flate2::Compression::best());
    // Writing into a Vec sink cannot fail.
    enc.write_all(data.as_slice()).unwrap();
    enc.finish().unwrap()
}

/// Relies on flate2's `read::GzDecoder`: reading it to the end yields the
/// decoded bytes of a well-formed gzip stream, and an error otherwise.
#[verifier::external_body]
pub(crate) fn gunzip_bytes(data: &Vec<u8>) -> (r: Option<Vec<u8>>)
    ensures
        r matches Some(v) ==> gunzip_of(data@) == Some(v@),
        r is None ==> gunzip_of(data@) is None,
{
    let mut dec = flate2::read::GzDecoder::new(data.as_slice());
    let mut out = Vec::new();
    match dec.read_to_end(&mut out) {
        Ok(_) => Some(out),
        Err(_) => None,
    }
}

/// What decoding a stored (tag, payload) pair yields: the payload unchanged
/// for [`Compression::Plain`], its gzip decoding for [`Compression::Gzip`],
/// or [`FilesError::DecodeFailure`] when the payload is not a well-formed
/// gzip stream.
pub open spec fn decode_spec(c: Compression, data: Seq<u8>) -> Result<Seq<u8>, FilesError> {
    match c {
        Compression::Plain => Ok(data),
        Compression::Gzip => match gunzip_of(data) {
            Some(v) => Ok(v),
            None => Err(FilesError::DecodeFailure),
        },
    }
}

/// The stored payload encodes `content` under tag `c`: decoding it gives
/// back exactly `content`.
pub open spec fn entry_encodes(c: Compression, payload: Seq<u8>, content: Seq<u8>) -> bool {
    decode_spec(c, payload) == Ok::<Seq<u8>, FilesError>(content)
}

/// Copies a byte vector.
pub(crate) fn copy_bytes(data: &Vec<u8>) -> (r: Vec<u8>)
    ensures
        r@ == data@,
{
    let mut out: Vec<u8> = Vec::new();
    let mut i: usize = 0;
    while i < data.len()
        invariant
            i <= data@.len(),
            out@ == data@.take(i as int),
        decreases data@.len() - i,
    {
        out.push(data[i]);
        i += 1;
    }
    proof {
        assert(data@.take(data@.len() as int) =~= data@);
    }
    out
}

/// Decodes a stored payload under its compression tag.
pub(crate) fn decode_payload(c: Compression, data: &Vec<u8>) -> (r: Result<Vec<u8>, FilesError>)
    ensures
        r matches Ok(v) ==> decode_spec(c, data@) == Ok::<Seq<u8>, FilesError>(v@),
        r matches Err(e) ==> decode_spec(c, data@) == Err::<Seq<u8>, FilesError>(e),
{
    match c {
        Compression::Plain => Ok(copy_bytes(data)),
        Compression::Gzip => match gunzip_bytes(data) {
            Some(v) => Ok(v),
            None => Err(FilesError::DecodeFailure),
        },
    }
}

} // verus!
