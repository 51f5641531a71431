//! The compression codec.
//!
//! Bundles are compressed as whole byte streams by an outside codec. The
//! codec's output is named, not spelled out: what matters to the archive is
//! that decoding gives back exactly what was encoded.

use vstd::prelude::*;

verus! {

/// What the codec produces for given input bytes at the default level: the
/// output depends on the input alone.
pub uninterp spec fn compress_of(data: Seq<u8>) -> Seq<u8>;

/// What the codec's decoder produces for given stored bytes: the output
/// depends on those bytes alone. Of bytes the decoder rejects this says
/// nothing; the decoding wrapper fails on them.
pub uninterp spec fn decompress_of(data: Seq<u8>) -> Seq<u8>;

/// Relies on zstd `stream::encode_all` at level 0 (the default level):
/// encoding is a function of the input bytes, and the codec is lossless, so
/// `stream::decode_all` restores the input exactly.
#[verifier::external_body]
pub(crate) fn compress(data: &Vec<u8>) -> (r: Result<Vec<u8>, crate::Error>)
    ensures
        r matches Ok(out) ==> {
            &&& out@ == compress_of(data@)
            &&& decompress_of(compress_of(data@)) == data@
        },
{
    match zstd::stream::encode_all(data.as_slice(), 0) {
        Ok(out) => Ok(out),
        Err(e) => Err(crate::Error::IOError(e.to_string())),
    }
}

/// Relies on zstd `stream::decode_all`: decoding is a function of the stored
/// bytes alone.
#[verifier::external_body]
pub(crate) fn decompress(data: &Vec<u8>) -> (r: Result<Vec<u8>, crate::Error>)
    ensures
        r matches Ok(out) ==> out@ == decompress_of(data@),
{
    match zstd::stream::decode_all(data.as_slice()) {
        Ok(out) => Ok(out),
        Err(e) => Err(crate::Error::IOError(e.to_string())),
    }
}

} // verus!
