use vstd::prelude::*;

verus! {

use crate::error::Error;

/// Identity of a compression codec applied to a buffer payload.
#[derive(Clone, Copy, Debug, PartialEq, Eq, Structural)]
pub enum Compression {
    /// LZ4 block compression.
    LZ4,
    /// ZSTD bulk compression.
    ZSTD,
}

/// Largest buffer either codec is asked to handle; beyond it the LZ4 block
/// format cannot represent the input, so the library reports a codec failure.
pub const MAX_CODEC_INPUT: usize = 0x7E00_0000;

/// The bytes LZ4 block compression produces for the given input.
pub uninterp spec fn lz4_compressed(s: Seq<u8>) -> Seq<u8>;

/// The stream the LZ4 block decoder yields for the given compressed bytes.
pub uninterp spec fn lz4_decoded(c: Seq<u8>) -> Seq<u8>;

/// The bytes ZSTD bulk compression produces for the given input.
pub uninterp spec fn zstd_compressed(s: Seq<u8>) -> Seq<u8>;

/// The frame content the ZSTD decoder yields for the given compressed bytes.
pub uninterp spec fn zstd_decoded(c: Seq<u8>) -> Seq<u8>;

/// Relies on lz4::block::compress_bound and lz4::block::compress_to_buffer:
/// compression is a deterministic function of the input bytes, the block
/// format is lossless (its decoder maps the output back to the input), the
/// output never exceeds the documented compress bound, and compression into
/// a bound-sized buffer succeeds exactly for inputs within the block
/// format's input cap.
#[verifier::external_body]
fn lz4_compress_raw(input: &[u8]) -> (r: Result<Vec<u8>, Error>)
    ensures
        r matches Ok(v) ==> v@ == lz4_compressed(input@) && lz4_decoded(v@) == input@
            && v@.len() <= input@.len() + input@.len() / 255 + 16,
        r is Ok <==> input@.len() <= MAX_CODEC_INPUT,
{
    let bound = match lz4::block::compress_bound(input.len()) {
        Ok(b) => b,
        Err(_) => return Err(Error::CodecFailure),
    };
    let mut buf = vec![0u8; bound];
    match lz4::block::compress_to_buffer(input, None, false, buf.as_mut_slice()) {
        Ok(n) => {
            buf.truncate(n);
            Ok(buf)
        }
        Err(_) => Err(Error::CodecFailure),
    }
}

/// Relies on lz4::block::decompress_to_buffer: decoding is a deterministic
/// function of the compressed bytes; it succeeds whenever the whole decoded
/// stream fits in the destination and the destination length fits the API.
#[verifier::external_body]
fn lz4_decompress_raw(input: &[u8], out: &mut Vec<u8>) -> (r: Result<usize, Error>)
    ensures
        final(out)@.len() == old(out)@.len(),
        r matches Ok(n) ==> n <= old(out)@.len() && n as int == lz4_decoded(input@).len()
            && final(out)@.subrange(0, n as int) == lz4_decoded(input@),
        lz4_decoded(input@).len() <= old(out)@.len() && old(out)@.len() <= MAX_CODEC_INPUT
            ==> r is Ok,
{
    let len = out.len() as i32;
    match lz4::block::decompress_to_buffer(input, Some(len), out.as_mut_slice()) {
        Ok(n) => Ok(n),
        Err(_) => Err(Error::CodecFailure),
    }
}

/// Relies on zstd::zstd_safe::compress_bound and zstd::bulk::compress_to_buffer:
/// compression at the default level is a deterministic function of the input
/// bytes, the frame format is lossless (its decoder maps the output back to
/// the input), the output never exceeds the documented compress bound, and
/// compression into a bound-sized buffer succeeds for any input this library
/// admits.
#[verifier::external_body]
fn zstd_compress_raw(input: &[u8]) -> (r: Result<Vec<u8>, Error>)
    ensures
        r matches Ok(v) ==> v@ == zstd_compressed(input@) && zstd_decoded(v@) == input@
            && v@.len() <= input@.len() + input@.len() / 256 + 64,
        input@.len() <= MAX_CODEC_INPUT ==> r is Ok,
{
    let bound = zstd::zstd_safe::compress_bound(input.len());
    let mut buf = vec![0u8; bound];
    match zstd::bulk::compress_to_buffer(input, buf.as_mut_slice(), 0) {
        Ok(n) => {
            buf.truncate(n);
            Ok(buf)
        }
        Err(_) => Err(Error::CodecFailure),
    }
}

/// Relies on zstd::bulk::decompress_to_buffer: decoding is a deterministic
/// function of the compressed bytes; it succeeds whenever the whole frame
/// content fits in the destination.
#[verifier::external_body]
fn zstd_decompress_raw(input: &[u8], out: &mut Vec<u8>) -> (r: Result<usize, Error>)
    ensures
        final(out)@.len() == old(out)@.len(),
        r matches Ok(n) ==> n <= old(out)@.len() && n as int == zstd_decoded(input@).len()
            && final(out)@.subrange(0, n as int) == zstd_decoded(input@),
        zstd_decoded(input@).len() <= old(out)@.len() ==> r is Ok,
{
    match zstd::bulk::decompress_to_buffer(input, out.as_mut_slice()) {
        Ok(n) => Ok(n),
        Err(_) => Err(Error::CodecFailure),
    }
}

/// Compresses `input_buf` with LZ4, leaving exactly the compressed bytes in
/// `output_buf` and returning their count; succeeds exactly for inputs within
/// the block format's cap. The compressed bytes decode back to `input_buf`
/// and stay within the compress bound.
pub fn compress_lz4(input_buf: &[u8], output_buf: &mut Vec<u8>) -> (r: Result<usize, Error>)
    ensures
        r matches Ok(n) ==> final(output_buf)@ == lz4_compressed(input_buf@)
            && n == lz4_compressed(input_buf@).len()
            && lz4_decoded(final(output_buf)@) == input_buf@
            && n <= input_buf@.len() + input_buf@.len() / 255 + 16,
        r is Ok <==> input_buf@.len() <= MAX_CODEC_INPUT,
        r is Err ==> final(output_buf)@ == old(output_buf)@,
{
    match lz4_compress_raw(input_buf) {
        Ok(v) => {
            let n = v.len();
            *output_buf = v;
            Ok(n)
        }
        Err(e) => Err(e),
    }
}

/// Compresses `input_buf` with ZSTD, leaving exactly the compressed bytes in
/// `output_buf` and returning their count; success is owed for every input
/// within this library's buffer cap. The compressed bytes decode back to
/// `input_buf` and stay within the compress bound.
pub fn compress_zstd(input_buf: &[u8], output_buf: &mut Vec<u8>) -> (r: Result<usize, Error>)
    ensures
        r matches Ok(n) ==> final(output_buf)@ == zstd_compressed(input_buf@)
            && n == zstd_compressed(input_buf@).len()
            && zstd_decoded(final(output_buf)@) == input_buf@
            && n <= input_buf@.len() + input_buf@.len() / 256 + 64,
        input_buf@.len() <= MAX_CODEC_INPUT ==> r is Ok,
        r is Err ==> final(output_buf)@ == old(output_buf)@,
{
    match zstd_compress_raw(input_buf) {
        Ok(v) => {
            let n = v.len();
            *output_buf = v;
            Ok(n)
        }
        Err(e) => Err(e),
    }
}

/// Decompresses LZ4 bytes into `output_buf`, whose length states the expected
/// decoded size; succeeds exactly when the decoded stream has that length.
pub fn decompress_lz4(input_buf: &[u8], output_buf: &mut Vec<u8>) -> (r: Result<(), Error>)
    ensures
        final(output_buf)@.len() == old(output_buf)@.len(),
        r is Ok <==> lz4_decoded(input_buf@).len() == old(output_buf)@.len()
            && old(output_buf)@.len() <= MAX_CODEC_INPUT,
        r is Ok ==> final(output_buf)@ == lz4_decoded(input_buf@),
{
    if output_buf.len() > MAX_CODEC_INPUT {
        return Err(Error::CodecFailure);
    }
    match lz4_decompress_raw(input_buf, output_buf) {
        Ok(n) => {
            if n == output_buf.len() {
                proof {
                    assert(final(output_buf)@ =~= lz4_decoded(input_buf@));
                }
                Ok(())
            } else {
                Err(Error::CodecFailure)
            }
        }
        Err(e) => Err(e),
    }
}

/// Decompresses ZSTD bytes into `output_buf`, whose length states the expected
/// decoded size; succeeds exactly when the frame content has that length.
pub fn decompress_zstd(input_buf: &[u8], output_buf: &mut Vec<u8>) -> (r: Result<(), Error>)
    ensures
        final(output_buf)@.len() == old(output_buf)@.len(),
        r is Ok <==> zstd_decoded(input_buf@).len() == old(output_buf)@.len(),
        r is Ok ==> final(output_buf)@ == zstd_decoded(input_buf@),
{
    match zstd_decompress_raw(input_buf, output_buf) {
        Ok(n) => {
            if n == output_buf.len() {
                proof {
                    assert(final(output_buf)@ =~= zstd_decoded(input_buf@));
                }
                Ok(())
            } else {
                Err(Error::CodecFailure)
            }
        }
        Err(e) => Err(e),
    }
}

} // verus!
