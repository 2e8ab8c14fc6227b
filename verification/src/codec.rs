use vstd::prelude::*;

verus! {

/// What zlib compression, at the fixed level this library uses, returns as
/// a function of the input bytes alone.
pub uninterp spec fn deflate_of(data: Seq<u8>) -> Seq<u8>;

/// What zlib decompression returns: the decoded bytes, or nothing when the
/// input is not a valid zlib stream.
pub uninterp spec fn inflate_of(data: Seq<u8>) -> Option<Seq<u8>>;

/// Relies on `miniz_oxide::deflate::compress_to_vec_zlib` at level 6: the
/// result is a function of the input alone, and — zlib being lossless —
/// `miniz_oxide::inflate::decompress_to_vec_zlib` decodes it back to
/// exactly the input.
#[verifier::external_body]
pub(crate) fn compress(data: &Vec<u8>) -> (r: Vec<u8>)
    ensures
        r@ == deflate_of(data@),
        inflate_of(r@) == Some(data@),
{
    miniz_oxide::deflate::compress_to_vec_zlib(data.as_slice(), 6)
}

/// Relies on `miniz_oxide::inflate::decompress_to_vec_zlib`: decoding is a
/// function of the input bytes alone, and a rejected stream yields nothing.
#[verifier::external_body]
pub(crate) fn decompress(data: &Vec<u8>) -> (r: Option<Vec<u8>>)
    ensures
        match r {
            Some(out) => inflate_of(data@) == Some(out@),
            None => inflate_of(data@) is None,
        },
{
    match miniz_oxide::inflate::decompress_to_vec_zlib(data.as_slice()) {
        Ok(v) => Some(v),
        Err(_) => None,
    }
}

} // verus!
