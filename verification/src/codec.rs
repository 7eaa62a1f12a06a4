//! Zstandard frames, as the `zstd` crate writes and reads them.

use vstd::prelude::*;

verus! {

/// What `zstd::stream::Decoder::with_dictionary` yields for `compressed` and
/// `dictionary` when at most `limit` decoded bytes are read, or `None` when
/// the decoder reports an error first.
pub uninterp spec fn zstd_decode_prefix(compressed: Seq<u8>, dictionary: Seq<u8>, limit: u64) -> Option<Seq<u8>>;

/// The frame `zstd::stream::encode_all` writes for `data` at `level`, or
/// `None` when it reports an error.
pub uninterp spec fn zstd_frame(data: Seq<u8>, level: i32) -> Option<Seq<u8>>;

/// `zstd::stream::Decoder::with_dictionary` over `compressed`, read to the end
/// through `Read::take(limit)`: at most `limit` bytes come out.
#[verifier::external_body]
pub(crate) fn zstd_decode_limited(compressed: &[u8], dictionary: &[u8], limit: u64) -> (r: Option<Vec<u8>>)
    ensures
        match r {
            Some(d) => zstd_decode_prefix(compressed@, dictionary@, limit) == Some(d@) && d@.len() <= limit,
            None => zstd_decode_prefix(compressed@, dictionary@, limit) is None,
        },
{
    let decoder = match zstd::stream::Decoder::with_dictionary(compressed, dictionary) {
        Ok(decoder) => decoder,
        Err(_) => return None,
    };
    let mut decoded = Vec::new();
    match std::io::Read::read_to_end(&mut std::io::Read::take(decoder, limit), &mut decoded) {
        Ok(_) => Some(decoded),
        Err(_) => None,
    }
}

/// `zstd::stream::encode_all` at `level`. A frame it writes decodes, without
/// a dictionary, back to `data`.
#[verifier::external_body]
pub(crate) fn zstd_encode_all(data: &[u8], level: i32) -> (r: Option<Vec<u8>>)
    ensures
        match r {
            Some(c) => zstd_frame(data@, level) == Some(c@),
            None => zstd_frame(data@, level) is None,
        },
        r matches Some(c) ==> forall|limit: u64| limit >= data@.len() ==> #[trigger] zstd_decode_prefix(
            c@,
            Seq::<u8>::empty(),
            limit,
        ) == Some(data@),
{
    zstd::stream::encode_all(data, level).ok()
}

} // verus!
