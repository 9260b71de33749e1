//! Lossless compression of the payload, through miniz_oxide's raw deflate.
use vstd::prelude::*;

verus! {

/// The raw deflate stream that miniz_oxide makes of a payload at its default level.
pub uninterp spec fn deflate_of(data: Seq<u8>) -> Seq<u8>;

/// What miniz_oxide's inflater gives back for a stream, complete or not.
pub uninterp spec fn inflate_of(data: Seq<u8>) -> Seq<u8>;

/// Every byte of `s` is zero.
pub open spec fn zero_bytes(s: Seq<u8>) -> bool {
    forall|i: int| 0 <= i < s.len() ==> #[trigger] s[i] == 0
}

/// Relies on miniz_oxide::deflate::compress_to_vec at the default level: a
/// complete raw deflate stream that depends on the input alone, never empty
/// since it holds at least the final block's header.
#[verifier::external_body]
pub(crate) fn compress(data: &[u8]) -> (r: Vec<u8>)
    ensures
        r@ == deflate_of(data@),
        r@.len() > 0,
{
    miniz_oxide::deflate::compress_to_vec(data, miniz_oxide::deflate::CompressionLevel::DefaultLevel as u8)
}

/// Relies on miniz_oxide::inflate::decompress_to_vec, taking on failure the
/// output buffer that its error carries. It stops at the end of the final
/// block, so a complete stream gives back its payload whatever follows it. The
/// output buffer starts zero-filled, and zero bytes form no block that writes
/// output (a stored block's length check fails), so zero input gives zero bytes.
#[verifier::external_body]
pub(crate) fn decompress(data: &[u8]) -> (r: Vec<u8>)
    ensures
        r@ == inflate_of(data@),
        forall|p: Seq<u8>| #[trigger] deflate_of(p).is_prefix_of(data@) ==> r@ == p,
        zero_bytes(data@) ==> zero_bytes(r@),
{
    match miniz_oxide::inflate::decompress_to_vec(data) {
        Ok(v) => v,
        Err(e) => e.output,
    }
}

} // verus!
