//! A Snappy-style compressor and decompressor with verified contracts.
//!
//! A compressed stream is a varint holding the uncompressed length, followed by a
//! stream of elements: literals (raw bytes) and copies (back-references into what
//! has already been produced).

pub mod compress;
pub mod decompress;
pub mod varint;

use vstd::prelude::*;
use crate::compress::{max_compressed_len_spec, spec_compress};
use crate::decompress::{DecompressError, spec_decompress};

verus! {

/// Compresses `input`. Decompressing the result gives `input` back, and the result
/// is no longer than a five-byte header, the input, and one byte per 64 input bytes.
pub fn compress(input: &[u8]) -> (compressed: Vec<u8>)
    requires
        input.len() <= u32::MAX,
    ensures
        compressed@ == spec_compress(input@),
        spec_decompress(compressed@) == Ok::<Seq<u8>, DecompressError>(input@),
        compressed@.len() <= max_compressed_len_spec(input.len() as nat),
{
    proof {
        compress::lemma_compress_roundtrip(input@);
    }
    compress::compress(input)
}

/// Decompresses a stream made by `compress`, or says why `compressed` is not one.
pub fn decompress(compressed: &[u8]) -> (res: Result<Vec<u8>, DecompressError>)
    ensures
        match res {
            Ok(v) => spec_decompress(compressed@) == Ok::<Seq<u8>, DecompressError>(v@),
            Err(e) => spec_decompress(compressed@) == Err::<Seq<u8>, DecompressError>(e),
        },
{
    decompress::decompress(compressed)
}

} // verus!
