use vstd::prelude::*;

verus! {

/// What whole-buffer zlib decompression yields for a given compressed
/// byte string, or nothing when the stream is malformed. The result is a
/// function of the bytes alone.
pub uninterp spec fn inflate_of(s: Seq<u8>) -> Option<Seq<u8>>;

/// Relies on flate2's ZlibDecoder: decompressing a complete in-memory
/// buffer either yields the full decoded bytes or fails; the outcome
/// depends on the compressed bytes alone.
#[verifier::external_body]
pub(crate) fn zlib_decompress(data: &[u8]) -> (r: Result<Vec<u8>, ()>)
    ensures
        r matches Ok(v) ==> inflate_of(data@) == Some(v@),
        r is Err ==> inflate_of(data@) is None,
{
    let mut decoder = flate2::read::ZlibDecoder::new(data);
    let mut out: Vec<u8> = Vec::new();
    match std::io::Read::read_to_end(&mut decoder, &mut out) {
        Ok(_) => Ok(out),
        Err(_) => Err(()),
    }
}

} // verus!
