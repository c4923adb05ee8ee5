//! The codec adapter: a uniform compress/decompress interface over the named
//! codec set {LZMA, LZ4, ZSTD, NONE}.  The three real codecs are outside
//! libraries reached through trusted wrappers; NONE is a verified pass-through.
//!
//! Each decompressor is a pure function of its input bytes, so its result is
//! given a name (`lzma_unpack`, `lz4_unpack`, `zstd_unpack`); a compressor's
//! contract states only that decompressing its output restores the input,
//! which is the one fact callers need.

use crate::errors::ArchiveError;
use vstd::prelude::*;
use vstd::slice::slice_to_vec;
use vstd::string::StringExecFns;

verus! {

/// A compression codec from the supported set.
#[derive(Clone, Copy, Debug, PartialEq, Eq, Structural)]
pub enum Codec {
    Lzma,
    Lz4,
    Zstd,
    /// The `NONE` label: a pure pass-through.
    Plain,
}

/// The codec a label string names, if any.  Labels are the exact uppercase
/// strings `"LZMA"`, `"LZ4"`, `"ZSTD"`, `"NONE"`.
pub open spec fn spec_codec_of_label(s: Seq<char>) -> Option<Codec> {
    if s == "LZMA"@ {
        Some(Codec::Lzma)
    } else if s == "LZ4"@ {
        Some(Codec::Lz4)
    } else if s == "ZSTD"@ {
        Some(Codec::Zstd)
    } else if s == "NONE"@ {
        Some(Codec::Plain)
    } else {
        None
    }
}

/// The label string of a codec.
pub open spec fn spec_label_of_codec(c: Codec) -> Seq<char> {
    match c {
        Codec::Lzma => "LZMA"@,
        Codec::Lz4 => "LZ4"@,
        Codec::Zstd => "ZSTD"@,
        Codec::Plain => "NONE"@,
    }
}

/// What `lzma::decompress` yields on the given bytes; `None` means failure.
pub uninterp spec fn lzma_unpack(b: Seq<u8>) -> Option<Seq<u8>>;

/// What an `lz4_flex` frame decode yields on the given bytes; `None` means failure.
pub uninterp spec fn lz4_unpack(b: Seq<u8>) -> Option<Seq<u8>>;

/// What `zstd::stream::decode_all` yields on the given bytes; `None` means failure.
pub uninterp spec fn zstd_unpack(b: Seq<u8>) -> Option<Seq<u8>>;

/// What decompressing `b` with codec `c` yields; `None` means failure.
pub open spec fn spec_unpack(c: Codec, b: Seq<u8>) -> Option<Seq<u8>> {
    match c {
        Codec::Lzma => lzma_unpack(b),
        Codec::Lz4 => lz4_unpack(b),
        Codec::Zstd => zstd_unpack(b),
        Codec::Plain => Some(b),
    }
}

/// Parses a codec label.
pub fn parse_codec(label: &str) -> (r: Option<Codec>)
    ensures
        r == spec_codec_of_label(label@),
{
    let l = String::from_str(label);
    if l == String::from_str("LZMA") {
        Some(Codec::Lzma)
    } else if l == String::from_str("LZ4") {
        Some(Codec::Lz4)
    } else if l == String::from_str("ZSTD") {
        Some(Codec::Zstd)
    } else if l == String::from_str("NONE") {
        Some(Codec::Plain)
    } else {
        None
    }
}

/// The label string of a codec, as an owned string.
pub fn label_of_codec(c: Codec) -> (r: String)
    ensures
        r@ == spec_label_of_codec(c),
{
    match c {
        Codec::Lzma => String::from_str("LZMA"),
        Codec::Lz4 => String::from_str("LZ4"),
        Codec::Zstd => String::from_str("ZSTD"),
        Codec::Plain => String::from_str("NONE"),
    }
}

/// Relies on `lzma::compress` at preset 9 (the xz format): the preset is
/// valid, so the call succeeds, and `lzma::decompress` restores its output
/// to the input.
#[verifier::external_body]
fn lzma_compress_raw(data: &[u8]) -> (r: Result<Vec<u8>, String>)
    ensures
        r is Ok,
        r matches Ok(out) ==> lzma_unpack(out@) == Some(data@),
{
    lzma::compress(data, 9).map_err(|e| format!("{:?}", e))
}

/// Relies on `lzma::decompress`: a pure function of the input bytes that
/// fails exactly on malformed xz streams (its reader sets the decoder's
/// memory limit to `u64::MAX`).
#[verifier::external_body]
fn lzma_decompress_raw(data: &[u8]) -> (r: Result<Vec<u8>, String>)
    ensures
        r matches Ok(out) ==> lzma_unpack(data@) == Some(out@),
        r is Err ==> lzma_unpack(data@) is None,
{
    lzma::decompress(data).map_err(|e| format!("{:?}", e))
}

/// Relies on `lz4_flex::frame::FrameEncoder`: encoding into a vector cannot
/// fail, and `lz4_flex::frame::FrameDecoder` restores its output to the
/// input.
#[verifier::external_body]
fn lz4_compress_raw(data: &[u8]) -> (r: Result<Vec<u8>, String>)
    ensures
        r is Ok,
        r matches Ok(out) ==> lz4_unpack(out@) == Some(data@),
{
    let mut enc = lz4_flex::frame::FrameEncoder::new(Vec::new());
    if let Err(e) = std::io::Write::write_all(&mut enc, data) {
        return Err(format!("{}", e));
    }
    enc.finish().map_err(|e| format!("{:?}", e))
}

/// Relies on `lz4_flex::frame::FrameDecoder`: a pure function of the input
/// bytes that fails exactly on malformed frames (it reads from a slice and
/// writes to a vector, so no other failure source exists).
#[verifier::external_body]
fn lz4_decompress_raw(data: &[u8]) -> (r: Result<Vec<u8>, String>)
    ensures
        r matches Ok(out) ==> lz4_unpack(data@) == Some(out@),
        r is Err ==> lz4_unpack(data@) is None,
{
    let mut dec = lz4_flex::frame::FrameDecoder::new(data);
    let mut out = Vec::new();
    match std::io::Read::read_to_end(&mut dec, &mut out) {
        Ok(_) => Ok(out),
        Err(e) => Err(format!("{}", e)),
    }
}

/// Relies on `zstd::stream::encode_all` at level 6: the level is valid, so
/// the call succeeds, and `zstd::stream::decode_all` restores its output to
/// the input.
#[verifier::external_body]
fn zstd_compress_raw(data: &[u8]) -> (r: Result<Vec<u8>, String>)
    ensures
        r is Ok,
        r matches Ok(out) ==> zstd_unpack(out@) == Some(data@),
{
    zstd::stream::encode_all(data, 6).map_err(|e| format!("{}", e))
}

/// Relies on `zstd::stream::decode_all`: a pure function of the input bytes
/// that fails exactly on malformed zstd frames.
#[verifier::external_body]
fn zstd_decompress_raw(data: &[u8]) -> (r: Result<Vec<u8>, String>)
    ensures
        r matches Ok(out) ==> zstd_unpack(data@) == Some(out@),
        r is Err ==> zstd_unpack(data@) is None,
{
    zstd::stream::decode_all(data).map_err(|e| format!("{}", e))
}

fn codec_failure(stage: &str, c: Codec, cause: String) -> (r: ArchiveError)
    ensures
        r matches ArchiveError::CodecFailure { stage: st, codec, cause: cs } && st@ == stage@
            && codec@ == spec_label_of_codec(c),
{
    ArchiveError::CodecFailure { stage: String::from_str(stage), codec: label_of_codec(c), cause }
}

/// Compresses `data` with codec `c`: always succeeds, and decompressing the
/// result with the same codec restores `data` exactly.
pub fn compress_with(data: &[u8], c: Codec) -> (r: Result<Vec<u8>, ArchiveError>)
    ensures
        r matches Ok(out) && spec_unpack(c, out@) == Some(data@),
        c is Plain ==> (r matches Ok(out) && out@ == data@),
{
    match c {
        Codec::Lzma => match lzma_compress_raw(data) {
            Ok(out) => Ok(out),
            Err(cause) => Err(codec_failure("transform", c, cause)),
        },
        Codec::Lz4 => match lz4_compress_raw(data) {
            Ok(out) => Ok(out),
            Err(cause) => Err(codec_failure("transform", c, cause)),
        },
        Codec::Zstd => match zstd_compress_raw(data) {
            Ok(out) => Ok(out),
            Err(cause) => Err(codec_failure("transform", c, cause)),
        },
        Codec::Plain => Ok(slice_to_vec(data)),
    }
}

/// Decompresses `data` with codec `c`: succeeds exactly when the bytes are a
/// well-formed stream of the codec, and then yields exactly the decoding
/// `spec_unpack` names.
pub fn decompress_with(data: &[u8], c: Codec) -> (r: Result<Vec<u8>, ArchiveError>)
    ensures
        r matches Ok(out) ==> spec_unpack(c, data@) == Some(out@),
        r is Err ==> spec_unpack(c, data@) is None,
        r matches Err(e) ==> e matches ArchiveError::CodecFailure { .. },
        c is Plain ==> (r matches Ok(out) && out@ == data@),
{
    match c {
        Codec::Lzma => match lzma_decompress_raw(data) {
            Ok(out) => Ok(out),
            Err(cause) => Err(codec_failure("transform", c, cause)),
        },
        Codec::Lz4 => match lz4_decompress_raw(data) {
            Ok(out) => Ok(out),
            Err(cause) => Err(codec_failure("transform", c, cause)),
        },
        Codec::Zstd => match zstd_decompress_raw(data) {
            Ok(out) => Ok(out),
            Err(cause) => Err(codec_failure("transform", c, cause)),
        },
        Codec::Plain => Ok(slice_to_vec(data)),
    }
}

/// Compresses `data` under a codec label: succeeds exactly on the supported
/// labels, and then decompressing the result restores `data`; an unsupported
/// label yields `UnknownCodec`.
pub fn compress_data(data: &[u8], compression: &str) -> (r: Result<Vec<u8>, ArchiveError>)
    ensures
        spec_codec_of_label(compression@) is None ==> (r matches Err(e) && (e matches ArchiveError::UnknownCodec { label } && label@ == compression@)),
        spec_codec_of_label(compression@) matches Some(c) ==> (r matches Ok(out) && spec_unpack(
            c,
            out@,
        ) == Some(data@)),
        spec_codec_of_label(compression@) == Some(Codec::Plain) ==> (r matches Ok(out) && out@
            == data@),
{
    match parse_codec(compression) {
        None => Err(ArchiveError::UnknownCodec { label: String::from_str(compression) }),
        Some(c) => compress_with(data, c),
    }
}

/// Decompresses `data` under a codec label: with a supported label it
/// succeeds exactly on well-formed streams and yields their decoding; an
/// unsupported label yields `UnknownCodec`.
pub fn decompress_data(data: &[u8], compression: &str) -> (r: Result<Vec<u8>, ArchiveError>)
    ensures
        spec_codec_of_label(compression@) is None ==> (r matches Err(e) && (e matches ArchiveError::UnknownCodec { label } && label@ == compression@)),
        spec_codec_of_label(compression@) matches Some(c) ==> {
            &&& r matches Ok(out) ==> spec_unpack(c, data@) == Some(out@)
            &&& r is Err ==> spec_unpack(c, data@) is None
            &&& r matches Err(e) ==> e matches ArchiveError::CodecFailure { .. }
        },
        spec_codec_of_label(compression@) == Some(Codec::Plain) ==> (r matches Ok(out) && out@
            == data@),
{
    match parse_codec(compression) {
        None => Err(ArchiveError::UnknownCodec { label: String::from_str(compression) }),
        Some(c) => decompress_with(data, c),
    }
}

} // verus!
