use vstd::prelude::*;
use crate::config::CompressionAlgorithm;
use crate::error::StowrError;

verus! {

/// `std::io::Error`, as the gzip and zstd encoders and decoders report failure.
#[verifier::external_type_specification]
#[verifier::external_body]
pub struct ExIoError(std::io::Error);

/// `lz4_flex::block::DecompressError`, as the LZ4 decoder reports a malformed block.
#[verifier::external_type_specification]
#[verifier::external_body]
pub struct ExDecompressError(lz4_flex::block::DecompressError);

/// The gzip stream that flate2 writes for `data` at `level` (no header time stamp).
pub uninterp spec fn gzip_encoded(level: u32, data: Seq<u8>) -> Seq<u8>;

/// What flate2's gzip decoder reads from `data`: the bytes, or `None` for a malformed stream.
pub uninterp spec fn gzip_decoded(data: Seq<u8>) -> Option<Seq<u8>>;

/// The zstd frame that zstd writes for `data` at `level`.
pub uninterp spec fn zstd_encoded(level: i32, data: Seq<u8>) -> Seq<u8>;

/// What zstd's decoder reads from `data`: the bytes, or `None` for a malformed frame.
pub uninterp spec fn zstd_decoded(data: Seq<u8>) -> Option<Seq<u8>>;

/// The size-prefixed LZ4 block that lz4_flex writes for `data`.
pub uninterp spec fn lz4_encoded(data: Seq<u8>) -> Seq<u8>;

/// What lz4_flex's size-prefixed decoder reads from `data`: the bytes, or `None` for a
/// malformed block.
pub uninterp spec fn lz4_decoded(data: Seq<u8>) -> Option<Seq<u8>>;

/// Relies on `flate2::write::GzEncoder` (new, write_all, finish) over a `Vec`, which
/// cannot fail: the gzip stream of `data` at `level`, which flate2's decoder reads back
/// as `data`.
#[verifier::external_body]
fn gzip_encode(data: &[u8], level: u32) -> (r: Result<Vec<u8>, std::io::Error>)
    requires
        level <= 9,
    ensures
        r is Ok,
        r matches Ok(v) ==> v@ == gzip_encoded(level, data@) && gzip_decoded(v@) == Some(data@),
{
    let mut e = flate2::write::GzEncoder::new(Vec::new(), flate2::Compression::new(level));
    std::io::Write::write_all(&mut e, data)?;
    e.finish()
}

/// Relies on `flate2::read::GzDecoder` with `read_to_end`: the bytes a gzip stream holds.
#[verifier::external_body]
fn gzip_decode(data: &[u8]) -> (r: Result<Vec<u8>, std::io::Error>)
    ensures
        match gzip_decoded(data@) {
            Some(p) => r is Ok && r->Ok_0@ == p,
            None => r is Err,
        },
{
    let mut d = flate2::read::GzDecoder::new(data);
    let mut out = Vec::new();
    std::io::Read::read_to_end(&mut d, &mut out)?;
    Ok(out)
}

/// Relies on `zstd::encode_all` over a byte slice, which fails only on a level outside
/// 1 to 22: the zstd frame of `data` at `level`, which zstd's decoder reads back as `data`.
#[verifier::external_body]
fn zstd_encode(data: &[u8], level: i32) -> (r: Result<Vec<u8>, std::io::Error>)
    ensures
        1 <= level <= 22 ==> r is Ok,
        r matches Ok(v) ==> v@ == zstd_encoded(level, data@) && zstd_decoded(v@) == Some(data@),
{
    zstd::encode_all(data, level)
}

/// Relies on `zstd::decode_all`: the bytes a zstd frame holds.
#[verifier::external_body]
fn zstd_decode(data: &[u8]) -> (r: Result<Vec<u8>, std::io::Error>)
    ensures
        match zstd_decoded(data@) {
            Some(p) => r is Ok && r->Ok_0@ == p,
            None => r is Err,
        },
{
    zstd::decode_all(data)
}

/// Relies on `lz4_flex::compress_prepend_size`: the size-prefixed LZ4 block of `data`,
/// which lz4_flex reads back as `data` when its length fits the 32-bit prefix.
#[verifier::external_body]
fn lz4_encode(data: &[u8]) -> (r: Vec<u8>)
    ensures
        r@ == lz4_encoded(data@),
        data@.len() <= u32::MAX ==> lz4_decoded(r@) == Some(data@),
{
    lz4_flex::compress_prepend_size(data)
}

/// Relies on `lz4_flex::decompress_size_prepended`: the bytes a size-prefixed block holds.
#[verifier::external_body]
fn lz4_decode(data: &[u8]) -> (r: Result<Vec<u8>, lz4_flex::block::DecompressError>)
    ensures
        match lz4_decoded(data@) {
            Some(p) => r is Ok && r->Ok_0@ == p,
            None => r is Err,
        },
{
    lz4_flex::decompress_size_prepended(data)
}

/// Whether `level` is one that `alg` accepts.
pub open spec fn level_fits(alg: CompressionAlgorithm, level: u32) -> bool {
    alg.spec_validate_level(level) == Ok::<u32, StowrError>(level)
}

/// The bytes that encoding `data` with `alg` at `level` produces.
pub open spec fn compressed_form(alg: CompressionAlgorithm, level: u32, data: Seq<u8>) -> Seq<u8> {
    match alg {
        CompressionAlgorithm::Gzip => gzip_encoded(level, data),
        CompressionAlgorithm::Zstd => zstd_encoded(level as i32, data),
        CompressionAlgorithm::Lz4 => lz4_encoded(data),
    }
}

/// What decoding `data` with `alg` gives: the bytes, or `None` for a malformed payload.
pub open spec fn decoded_form(alg: CompressionAlgorithm, data: Seq<u8>) -> Option<Seq<u8>> {
    match alg {
        CompressionAlgorithm::Gzip => gzip_decoded(data),
        CompressionAlgorithm::Zstd => zstd_decoded(data),
        CompressionAlgorithm::Lz4 => lz4_decoded(data),
    }
}

/// Encodes `data` with `alg` at `level`. The result decodes back to `data` whenever
/// `data` fits the 32-bit length that lz4 records.
pub fn compress(alg: CompressionAlgorithm, level: u32, data: &[u8]) -> (r: Result<Vec<u8>, StowrError>)
    requires
        level_fits(alg, level),
    ensures
        r is Ok,
        r matches Ok(v) ==> v@ == compressed_form(alg, level, data@),
        r matches Ok(v) ==> (data@.len() <= u32::MAX ==> decoded_form(alg, v@) == Some(data@)),
{
    match alg {
        CompressionAlgorithm::Gzip => match gzip_encode(data, level) {
            Ok(v) => Ok(v),
            Err(_) => Err(StowrError::IoError),
        },
        CompressionAlgorithm::Zstd => match zstd_encode(data, level as i32) {
            Ok(v) => Ok(v),
            Err(_) => Err(StowrError::IoError),
        },
        CompressionAlgorithm::Lz4 => Ok(lz4_encode(data)),
    }
}

/// Decodes a payload written with `alg`; a malformed payload is `DecodeCorrupt`.
pub fn decompress(alg: CompressionAlgorithm, data: &[u8]) -> (r: Result<Vec<u8>, StowrError>)
    ensures
        match decoded_form(alg, data@) {
            Some(p) => r is Ok && r->Ok_0@ == p,
            None => r == Err::<Vec<u8>, StowrError>(StowrError::DecodeCorrupt),
        },
{
    match alg {
        CompressionAlgorithm::Gzip => match gzip_decode(data) {
            Ok(v) => Ok(v),
            Err(_) => Err(StowrError::DecodeCorrupt),
        },
        CompressionAlgorithm::Zstd => match zstd_decode(data) {
            Ok(v) => Ok(v),
            Err(_) => Err(StowrError::DecodeCorrupt),
        },
        CompressionAlgorithm::Lz4 => match lz4_decode(data) {
            Ok(v) => Ok(v),
            Err(_) => Err(StowrError::DecodeCorrupt),
        },
    }
}

} // verus!
