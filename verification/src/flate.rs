//! Raw DEFLATE streams, made and read by the `flate2` crate.
//!
//! Both calls write into a vector whose capacity bounds the output; the
//! capacity that the allocator hands out may exceed the one asked for, so
//! what comes back is stated only where that capacity does not matter: a
//! finished stream is the whole compressed stream, and reading a stream
//! back gives a prefix of what was compressed, as long as it fits.

use vstd::prelude::*;
use flate2::{Compress, CompressError, Compression, Decompress, DecompressError, FlushCompress, FlushDecompress, Status};

verus! {

#[verifier::external_type_specification]
#[verifier::external_body]
pub struct ExCompressError(CompressError);

#[verifier::external_type_specification]
#[verifier::external_body]
pub struct ExDecompressError(DecompressError);

/// The raw DEFLATE stream, without header, that `flate2` makes of `input`
/// at its best compression level.
pub uninterp spec fn deflated(input: Seq<u8>) -> Seq<u8>;

/// `Compress::new(Compression::best(), false)` then `compress_vec` with
/// `FlushCompress::Finish` into a vector made with capacity `capacity`,
/// with whether the stream was finished (`Status::StreamEnd`) rather than
/// cut off at the capacity. A finished stream is the whole of
/// `deflated(input)`. `compress_vec` writes into all the spare capacity of
/// the vector, at least `capacity` bytes, and `miniz_oxide`'s stream
/// compressor, called with `Finish`, goes on until the stream is done or
/// that space is full; its errors come only from a compressor used before,
/// bad parameters or an output callback, none of which arise here. So a
/// stream that fits in `capacity` (a non-empty space) comes back finished.
/// Of a stream that does not fit, what comes back is not stated.
#[verifier::external_body]
pub(crate) fn deflate_raw(input: &[u8], capacity: usize) -> (r: Result<(Vec<u8>, bool), CompressError>)
    ensures
        r matches Ok((out, true)) ==> out@ == deflated(input@),
        0 < capacity && deflated(input@).len() <= capacity ==> r matches Ok((out, true)),
{
    let mut output = Vec::with_capacity(capacity);
    let mut compressor = Compress::new(Compression::best(), false);
    let status = compressor.compress_vec(input, &mut output, FlushCompress::Finish)?;
    let finished = match status {
        Status::StreamEnd => true,
        Status::Ok => false,
        Status::BufError => false,
    };
    Ok((output, finished))
}

/// `Decompress::new(false)` then `decompress_vec` with
/// `FlushDecompress::Finish` into a vector made with capacity `capacity`.
/// A stream that `deflate_raw` finished decompresses without error: to the
/// bytes that were compressed, or, when they do not fit, to as many of
/// their first bytes as fit (at least `capacity`). Of any other input,
/// nothing is stated. Where this comes from, in the sources brought:
/// - `decompress_vec` (flate2 `mem.rs`) hands the decoder all the spare
///   capacity of the vector, at least `capacity` bytes, and keeps what it
///   wrote.
/// - With `Finish` on a fresh decoder, `miniz_oxide`'s
///   `inflate::stream::inflate` decodes straight into that space; it
///   returns `MZError::Data` only for a negative decoder status (a corrupt
///   stream), and `MZError::Buf` when the stream did not end in the space,
///   which flate2 (`ffi/rust.rs`, `decompress`) turns into
///   `Ok(Status::BufError)`, not an error.
/// - The decoder (`inflate/core.rs`) ends with `HasMoreOutput` only when
///   the space has no byte left, and copies literals and the bytes of a
///   match up to the last byte of the space, so a stream that does not
///   fit fills the whole space with its first bytes.
#[verifier::external_body]
pub(crate) fn inflate_raw(input: &[u8], capacity: usize) -> (r: Result<Vec<u8>, DecompressError>)
    ensures
        (exists|x: Seq<u8>| #[trigger] deflated(x) == input@) ==> r is Ok,
        r matches Ok(out) ==> forall|x: Seq<u8>| #[trigger] deflated(x) == input@ ==> {
            &&& out@.len() <= x.len()
            &&& out@ == x.take(out@.len() as int)
            &&& (x.len() <= capacity ==> out@.len() == x.len())
            &&& (x.len() > capacity ==> out@.len() >= capacity)
        },
{
    let mut output = Vec::with_capacity(capacity);
    let mut decompressor = Decompress::new(false);
    decompressor.decompress_vec(input, &mut output, FlushDecompress::Finish)?;
    Ok(output)
}

} // verus!
