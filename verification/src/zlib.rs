//! The compressed wire form of stored objects. Inflation is a function
//! of the compressed bytes alone, so it carries the store's corruption
//! detection: bytes that do not inflate are rejected.
use vstd::prelude::*;
use crate::GitError;

verus! {

/// What a zlib stream inflates to, if it inflates at all: a fixed
/// function of the compressed bytes alone, left uninterpreted here.
pub uninterp spec fn inflate_of(b: Seq<u8>) -> Option<Seq<u8>>;

/// Relies on flate2::write::ZlibEncoder: inflating its output yields
/// the bytes that were compressed.
#[verifier::external_body]
pub(crate) fn zlib_compress(b: &[u8]) -> (r: Vec<u8>)
    ensures
        inflate_of(r@) == Some(b@),
{
    let mut enc = flate2::write::ZlibEncoder::new(Vec::new(), flate2::Compression::default());
    std::io::Write::write_all(&mut enc, b).expect("writing to a Vec cannot fail");
    enc.finish().expect("writing to a Vec cannot fail")
}

/// Relies on flate2::read::ZlibDecoder: inflation succeeds or fails as
/// a function of the compressed bytes alone and yields the stream they
/// compress.
#[verifier::external_body]
pub(crate) fn zlib_decompress(b: &[u8]) -> (r: Result<Vec<u8>, GitError>)
    ensures
        r is Ok <==> inflate_of(b@) is Some,
        r is Ok ==> r.unwrap()@ == inflate_of(b@).unwrap(),
        r is Err ==> r.unwrap_err() == GitError::CorruptObject,
{
    let mut dec = flate2::read::ZlibDecoder::new(b);
    let mut out = Vec::new();
    match std::io::Read::read_to_end(&mut dec, &mut out) {
        Ok(_) => Ok(out),
        Err(_) => Err(GitError::CorruptObject),
    }
}

} // verus!
