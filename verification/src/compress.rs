use vstd::prelude::*;

use crate::errors::WorldError;

verus! {

/// The Snappy compression of a byte string. Compression is a function of
/// the input bytes alone; nothing more is assumed of its shape.
pub uninterp spec fn snap_compressed(b: Seq<u8>) -> Seq<u8>;

/// The byte string a Snappy block decompresses to, `None` for input that
/// is not a valid block.
pub uninterp spec fn snap_decompressed(b: Seq<u8>) -> Option<Seq<u8>>;

/// Relies on `snap::raw::Encoder::compress_vec`: Snappy compression is
/// deterministic in the input bytes, fails only when the input exceeds
/// the format's size limit, and is lossless, so its output decompresses
/// back to the input.
#[verifier::external_body]
pub(crate) fn snap_compress(input: &Vec<u8>) -> (r: Result<Vec<u8>, WorldError>)
    ensures
        input@.len() < 3000000000 ==> r is Ok,
        r matches Ok(v) ==> v@ == snap_compressed(input@) && snap_decompressed(v@) == Some(
            input@,
        ),
{
    match snap::raw::Encoder::new().compress_vec(input.as_slice()) {
        Ok(v) => Ok(v),
        Err(_) => Err(WorldError::SerializationFailure),
    }
}

/// Relies on `snap::raw::Decoder::decompress_vec`: decompression is
/// deterministic in the input bytes, recovers the decompressed block of a
/// valid input, and reports an error on any other input.
#[verifier::external_body]
pub(crate) fn snap_decompress(input: &[u8]) -> (r: Result<Vec<u8>, WorldError>)
    ensures
        match snap_decompressed(input@) {
            Some(s) => r matches Ok(v) && v@ == s,
            None => r == Result::<Vec<u8>, WorldError>::Err(WorldError::SerializationFailure),
        },
{
    match snap::raw::Decoder::new().decompress_vec(input) {
        Ok(v) => Ok(v),
        Err(_) => Err(WorldError::SerializationFailure),
    }
}

} // verus!
