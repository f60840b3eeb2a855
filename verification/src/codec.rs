//! Section codecs and the error type of every reader in this crate.
use vstd::prelude::*;

use std::io::Read;

use crate::header::HeaderError;

verus! {

/// No compression.
pub const CODEC_NONE: u8 = 0;

/// zstd compression (per section).
pub const CODEC_ZSTD: u8 = 1;

/// Why a file image, or a part of one, could not be read.
#[derive(Debug, Clone, PartialEq, Eq)]
#[non_exhaustive]
pub enum FileError {
    /// The header is malformed.
    Header(HeaderError),
    /// A container or section is malformed; the text says which check failed.
    Container(&'static str),
    /// The header names a codec this reader does not know.
    UnknownCodec(u8),
    /// A zstd payload does not decode.
    Decompress,
    /// A range read failed.
    Io,
}

impl FileError {
    /// The error of a malformed header.
    pub fn from_header(e: HeaderError) -> (r: FileError)
        ensures
            r == FileError::Header(e),
    {
        FileError::Header(e)
    }
}

/// The codec the writer uses. This build carries no zstd encoder, so sections
/// are written uncompressed; readers still accept zstd sections.
pub fn writer_codec() -> (r: u8)
    ensures
        r == CODEC_NONE,
{
    CODEC_NONE
}

/// Compress one section with `codec`. Without an encoder every codec writes
/// the bytes unchanged.
pub fn compress(codec: u8, bytes: &[u8]) -> (r: Vec<u8>)
    ensures
        r@ == bytes@,
{
    vstd::slice::slice_to_vec(bytes)
}

/// What the zstd frame decoder yields on `data`: the decompressed bytes, or
/// `None` when `data` is not a decodable zstd stream.
pub uninterp spec fn zstd_decoded(data: Seq<u8>) -> Option<Seq<u8>>;

/// Runs `ruzstd::StreamingDecoder` over `data` to its end. Claimed: the result
/// is a function of the input bytes alone (`zstd_decoded`); `None` exactly when
/// the decoder reports an error. What the decoded bytes are is not stated.
#[verifier::external_body]
fn zstd_decode(data: &[u8]) -> (r: Option<Vec<u8>>)
    ensures
        match zstd_decoded(data@) {
            Some(v) => r matches Some(x) && x@ == v,
            None => r is None,
        },
{
    let mut decoder = ruzstd::StreamingDecoder::new(data).ok()?;
    let mut out = Vec::new();
    decoder.read_to_end(&mut out).ok()?;
    Some(out)
}

/// What `ruzstd::frame::read_frame_header` reads from the front of `data`
/// followed by the header's `window_size` and `frame_content_size`: the
/// frame's window size and its declared content size (zero when the frame
/// does not declare one), or `None` when either read reports an error.
pub uninterp spec fn zstd_frame_limits(data: Seq<u8>) -> Option<(u64, u64)>;

/// Calls `ruzstd::frame::read_frame_header` on `data`, then `window_size` and
/// `frame_content_size` on the header it returns. Claimed: the result is a
/// function of the bytes alone (`zstd_frame_limits`). Nothing is stated of
/// the numbers themselves.
#[verifier::external_body]
pub(crate) fn zstd_frame_header(data: &[u8]) -> (r: Option<(u64, u64)>)
    ensures
        r == zstd_frame_limits(data@),
{
    let (frame, _) = ruzstd::frame::read_frame_header(data).ok()?;
    let window = frame.header.window_size().ok()?;
    Some((window, frame.header.frame_content_size()))
}

/// What a `ruzstd::StreamingDecoder` over `data`, read to its end through a
/// reader limited to `limit` bytes, yields: the bytes it produced and the
/// number of source bytes its frame decoder consumed, or `None` when
/// constructing or reading reports an error.
pub uninterp spec fn zstd_decoded_bounded(data: Seq<u8>, limit: u64) -> Option<(Seq<u8>, u64)>;

/// Builds a `ruzstd::StreamingDecoder` over `data`, reads it to the end
/// through `Read::take(limit)`, and reports the frame decoder's
/// `bytes_read_from_source`. Claimed: the result is a function of `data` and
/// `limit` (`zstd_decoded_bounded`), and, as `Read::take` documents, no more
/// than `limit` bytes come out.
#[verifier::external_body]
pub(crate) fn zstd_decode_bounded(data: &[u8], limit: u64) -> (r: Option<(Vec<u8>, u64)>)
    ensures
        match zstd_decoded_bounded(data@, limit) {
            Some((v, c)) => r matches Some((x, c2)) && x@ == v && c2 == c,
            None => r is None,
        },
        r matches Some((x, _)) ==> x@.len() <= limit,
{
    let mut decoder = ruzstd::StreamingDecoder::new(data).ok()?;
    let mut out = Vec::new();
    (&mut decoder).take(limit).read_to_end(&mut out).ok()?;
    let consumed = decoder.decoder.bytes_read_from_source();
    Some((out, consumed))
}

/// What [`decompress`] yields: `Ok` with the bytes for a known codec that
/// decodes, else the error.
pub open spec fn spec_decompress(codec: u8, bytes: Seq<u8>) -> Result<Seq<u8>, FileError> {
    if codec == CODEC_NONE {
        Ok(bytes)
    } else if codec == CODEC_ZSTD {
        match zstd_decoded(bytes) {
            Some(v) => Ok(v),
            None => Err(FileError::Decompress),
        }
    } else {
        Err(FileError::UnknownCodec(codec))
    }
}

/// Decompress one section written with `codec`.
pub fn decompress(codec: u8, bytes: &[u8]) -> (r: Result<Vec<u8>, FileError>)
    ensures
        match spec_decompress(codec, bytes@) {
            Ok(v) => r matches Ok(x) && x@ == v,
            Err(e) => r == Err::<Vec<u8>, FileError>(e),
        },
{
    if codec == CODEC_NONE {
        Ok(vstd::slice::slice_to_vec(bytes))
    } else if codec == CODEC_ZSTD {
        match zstd_decode(bytes) {
            Some(v) => Ok(v),
            None => Err(FileError::Decompress),
        }
    } else {
        Err(FileError::UnknownCodec(codec))
    }
}

} // verus!
