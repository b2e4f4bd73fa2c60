//! Compression of record values: the algorithm tag stored on disk and the
//! calls into the gzip, snappy and lz4 implementations.
use vstd::prelude::*;
use crate::error::{GaffaError, Result};
use crate::text::{u64_decimal, decimal_text};

verus! {

/// Compression algorithm applied to a record's value.
#[derive(Debug, Clone, Copy, PartialEq, Eq, Structural)]
pub enum CompressionType {
    /// No compression
    Uncompressed,
    /// Gzip compression (good balance of speed and ratio)
    Gzip,
    /// Snappy compression (very fast, lower ratio)
    Snappy,
    /// LZ4 compression (extremely fast, good ratio)
    Lz4,
}

/// The one-byte tag under which each algorithm is stored on disk.
pub open spec fn compression_tag(c: CompressionType) -> u8 {
    match c {
        CompressionType::Uncompressed => 0,
        CompressionType::Gzip => 1,
        CompressionType::Snappy => 2,
        CompressionType::Lz4 => 3,
    }
}

/// The algorithm stored under `tag`, if any.
pub open spec fn compression_from_tag(tag: u8) -> Option<CompressionType> {
    if tag == 0 {
        Some(CompressionType::Uncompressed)
    } else if tag == 1 {
        Some(CompressionType::Gzip)
    } else if tag == 2 {
        Some(CompressionType::Snappy)
    } else if tag == 3 {
        Some(CompressionType::Lz4)
    } else {
        None
    }
}

/// The text of the error for an unknown tag.
pub open spec fn unknown_compression_text(tag: u8) -> Seq<char> {
    "Unknown compression type: "@ + decimal_text(tag as nat)
}

impl CompressionType {
    /// Parses a compression type from its on-disk tag.
    pub fn from_u8(value: u8) -> (r: Result<Self>)
        ensures
            compression_from_tag(value) matches Some(c) ==> r == Ok::<Self, GaffaError>(c),
            compression_from_tag(value) is None ==> (r matches Err(GaffaError::InvalidMessage(m))
                && m@ == unknown_compression_text(value)),
    {
        match value {
            0 => Ok(CompressionType::Uncompressed),
            1 => Ok(CompressionType::Gzip),
            2 => Ok(CompressionType::Snappy),
            3 => Ok(CompressionType::Lz4),
            _ => {
                let mut m = String::from_str("Unknown compression type: ");
                let d = u64_decimal(value as u64);
                m.append(d.as_str());
                proof {
                    reveal_strlit("Unknown compression type: ");
                }
                Err(GaffaError::InvalidMessage(m))
            },
        }
    }

    /// The on-disk tag of this compression type.
    pub fn to_u8(self) -> (r: u8)
        ensures
            r == compression_tag(self),
    {
        match self {
            CompressionType::Uncompressed => 0,
            CompressionType::Gzip => 1,
            CompressionType::Snappy => 2,
            CompressionType::Lz4 => 3,
        }
    }
}

/// Reading back the tag of a compression type gives the same type.
pub proof fn lemma_compression_tag_roundtrip(c: CompressionType)
    ensures
        compression_from_tag(compression_tag(c)) == Some(c),
        compression_tag(c) <= 3,
{
}

/// A tag is known exactly when it is the tag of some compression type.
pub proof fn lemma_compression_tag_known(tag: u8)
    ensures
        compression_from_tag(tag) matches Some(c) ==> compression_tag(c) == tag,
        compression_from_tag(tag) is Some <==> tag <= 3,
{
}

/// The bytes of a successful result, `None` for an error.
pub open spec fn ok_bytes(r: core::result::Result<Vec<u8>, String>) -> Option<Seq<u8>> {
    match r {
        Ok(v) => Some(v@),
        Err(_) => None,
    }
}

/// What flate2's gzip encoder (default level) produces from `data`, or
/// `None` when it reports an error.
pub uninterp spec fn gzip_encoding(data: Seq<u8>) -> Option<Seq<u8>>;

/// What flate2's gzip decoder produces from `data`, or `None` when it
/// reports an error.
pub uninterp spec fn gzip_decoding(data: Seq<u8>) -> Option<Seq<u8>>;

/// What snap's frame encoder produces from `data`, or `None` when it
/// reports an error.
pub uninterp spec fn snappy_encoding(data: Seq<u8>) -> Option<Seq<u8>>;

/// What snap's frame decoder produces from `data`, or `None` when it
/// reports an error.
pub uninterp spec fn snappy_decoding(data: Seq<u8>) -> Option<Seq<u8>>;

/// What `lz4_flex::compress_prepend_size` produces from `data`.
pub uninterp spec fn lz4_encoding(data: Seq<u8>) -> Seq<u8>;

/// What `lz4_flex::decompress_size_prepended` produces from `data`, or
/// `None` when it reports an error.
pub uninterp spec fn lz4_decoding(data: Seq<u8>) -> Option<Seq<u8>>;

/// Calls flate2's `read::GzEncoder` (default level) on `data` and reads
/// the whole output. Claimed: the output is a function of `data`, and the
/// gzip decoder gives `data` back from it.
/// On failure the error's text is handed back; nothing is claimed of it.
#[verifier::external_body]
fn gzip_compress(data: &[u8]) -> (r: core::result::Result<Vec<u8>, String>)
    ensures
        ok_bytes(r) == gzip_encoding(data@),
        r matches Ok(c) ==> gzip_decoding(c@) == Some(data@),
{
    let mut encoder = flate2::read::GzEncoder::new(data, flate2::Compression::default());
    let mut compressed = Vec::new();
    match std::io::Read::read_to_end(&mut encoder, &mut compressed) {
        Ok(_) => Ok(compressed),
        Err(e) => Err(e.to_string()),
    }
}

/// Calls flate2's `read::GzDecoder` on `data` and reads the whole output.
/// Claimed: the output is a function of `data`, and the decoder fails on
/// input without a ten-byte header that starts with the magic bytes
/// 0x1f 0x8b (its header parser reads ten bytes and checks the magic).
/// On failure the error's text is handed back; nothing is claimed of it.
#[verifier::external_body]
fn gzip_decompress(data: &[u8]) -> (r: core::result::Result<Vec<u8>, String>)
    ensures
        ok_bytes(r) == gzip_decoding(data@),
        !gzip_header_start(data@) ==> r is Err,
{
    let mut decoder = flate2::read::GzDecoder::new(data);
    let mut decompressed = Vec::new();
    match std::io::Read::read_to_end(&mut decoder, &mut decompressed) {
        Ok(_) => Ok(decompressed),
        Err(e) => Err(e.to_string()),
    }
}

/// Writes `data` through snap's `write::FrameEncoder` into a vector.
/// Claimed: the output is a function of `data`, and the frame decoder
/// gives `data` back from it; and the call succeeds (the encoder compresses
/// blocks of at most 64 KiB into a buffer sized for them, and writing into
/// a vector does not fail).
/// On failure the error's text is handed back; nothing is claimed of it.
#[verifier::external_body]
fn snappy_compress(data: &[u8]) -> (r: core::result::Result<Vec<u8>, String>)
    ensures
        ok_bytes(r) == snappy_encoding(data@),
        r is Ok,
        r matches Ok(c) ==> snappy_decoding(c@) == Some(data@),
{
    let mut encoder = snap::write::FrameEncoder::new(Vec::new());
    match std::io::Write::write_all(&mut encoder, data) {
        Ok(()) => match encoder.into_inner() {
            Ok(v) => Ok(v),
            Err(e) => Err(e.to_string()),
        },
        Err(e) => Err(e.to_string()),
    }
}

/// Reads `data` through snap's `read::FrameDecoder`. Claimed: the output
/// is a function of `data`, and the decoder fails on non-empty input that
/// does not start with a whole four-byte chunk header of type 0xff (the
/// stream identifier).
/// On failure the error's text is handed back; nothing is claimed of it.
#[verifier::external_body]
fn snappy_decompress(data: &[u8]) -> (r: core::result::Result<Vec<u8>, String>)
    ensures
        ok_bytes(r) == snappy_decoding(data@),
        data@.len() > 0 && !snappy_stream_start(data@) ==> r is Err,
{
    let mut decoder = snap::read::FrameDecoder::new(data);
    let mut decompressed = Vec::new();
    match std::io::Read::read_to_end(&mut decoder, &mut decompressed) {
        Ok(_) => Ok(decompressed),
        Err(e) => Err(e.to_string()),
    }
}

/// Calls `lz4_flex::compress_prepend_size`. Claimed: the output is a
/// function of `data`, and `decompress_size_prepended` gives `data` back
/// from it when the length fits the four-byte size prefix. The function
/// sizes its buffer as `len * 110 / 100`, which must not overflow.
#[verifier::external_body]
fn lz4_compress(data: &[u8]) -> (r: Vec<u8>)
    requires
        data@.len() * 110 <= usize::MAX,
    ensures
        r@ == lz4_encoding(data@),
        data@.len() <= u32::MAX ==> lz4_decoding(r@) == Some(data@),
{
    lz4_flex::compress_prepend_size(data)
}

/// Calls `lz4_flex::decompress_size_prepended`. Claimed: the output is a
/// function of `data`, and the call fails on input shorter than its
/// four-byte size prefix.
/// On failure the error, as `Debug` shows it, is handed back; nothing is
/// claimed of its text.
#[verifier::external_body]
fn lz4_decompress(data: &[u8]) -> (r: core::result::Result<Vec<u8>, String>)
    ensures
        ok_bytes(r) == lz4_decoding(data@),
        data@.len() < 4 ==> r is Err,
{
    match lz4_flex::decompress_size_prepended(data) {
        Ok(v) => Ok(v),
        Err(e) => Err(format!("{:?}", e)),
    }
}

/// Whether `data` starts with a gzip header: ten bytes, the first two the
/// magic bytes 0x1f 0x8b.
pub open spec fn gzip_header_start(data: Seq<u8>) -> bool {
    data.len() >= 10 && data[0] == 0x1fu8 && data[1] == 0x8bu8
}

/// Whether `data` starts with a snappy frame stream's first chunk header:
/// four bytes, the first the stream identifier's type 0xff.
pub open spec fn snappy_stream_start(data: Seq<u8>) -> bool {
    data.len() >= 4 && data[0] == 0xffu8
}

/// Input that an algorithm refuses from its first bytes: gzip without its
/// header, a non-empty snappy stream without its identifier chunk, lz4
/// without its four-byte size prefix.
pub open spec fn malformed_start(data: Seq<u8>, c: CompressionType) -> bool {
    match c {
        CompressionType::Uncompressed => false,
        CompressionType::Gzip => !gzip_header_start(data),
        CompressionType::Snappy => data.len() > 0 && !snappy_stream_start(data),
        CompressionType::Lz4 => data.len() < 4,
    }
}

/// The compressed form of `data`, or `None` when the algorithm fails.
pub open spec fn compressed_bytes(data: Seq<u8>, c: CompressionType) -> Option<Seq<u8>> {
    match c {
        CompressionType::Uncompressed => Some(data),
        CompressionType::Gzip => gzip_encoding(data),
        CompressionType::Snappy => snappy_encoding(data),
        CompressionType::Lz4 => Some(lz4_encoding(data)),
    }
}

/// The decompressed form of `data`, or `None` when the algorithm fails.
pub open spec fn decompressed_bytes(data: Seq<u8>, c: CompressionType) -> Option<Seq<u8>> {
    match c {
        CompressionType::Uncompressed => Some(data),
        CompressionType::Gzip => gzip_decoding(data),
        CompressionType::Snappy => snappy_decoding(data),
        CompressionType::Lz4 => lz4_decoding(data),
    }
}

/// The inputs that an algorithm can take: lz4 sizes its output buffer
/// from the input length.
pub open spec fn compressible_len(len: nat, c: CompressionType) -> bool {
    c == CompressionType::Lz4 ==> len * 110 <= usize::MAX
}

/// The inputs whose compressed form decompresses back: lz4 stores the
/// length in four bytes.
pub open spec fn restorable_len(len: nat, c: CompressionType) -> bool {
    c == CompressionType::Lz4 ==> len <= u32::MAX
}

/// A compression error: `what`, then the cause the algorithm gave.
fn failure_text(what: &str, cause: String) -> (r: GaffaError)
    ensures
        r is Compression,
{
    let mut m = String::from_str(what);
    m.append(cause.as_str());
    GaffaError::Compression(m)
}

/// Compresses `data` with the given algorithm.
///
/// Succeeds exactly when the algorithm does; the result, decompressed with
/// the same algorithm, gives `data` back (for lz4, when its length fits
/// four bytes).
pub fn compress(data: &[u8], compression: CompressionType) -> (r: Result<Vec<u8>>)
    requires
        compressible_len(data@.len(), compression),
    ensures
        r is Ok <==> compressed_bytes(data@, compression) is Some,
        compression != CompressionType::Gzip ==> r is Ok,
        r matches Ok(v) ==> Some(v@) == compressed_bytes(data@, compression),
        r matches Ok(v) ==> restorable_len(data@.len(), compression) ==> decompressed_bytes(
            v@,
            compression,
        ) == Some(data@),
        r matches Err(e) ==> e is Compression,
{
    match compression {
        CompressionType::Uncompressed => Ok(vstd::slice::slice_to_vec(data)),
        CompressionType::Gzip => match gzip_compress(data) {
            Ok(v) => Ok(v),
            Err(cause) => Err(failure_text("Gzip compression failed: ", cause)),
        },
        CompressionType::Snappy => match snappy_compress(data) {
            Ok(v) => Ok(v),
            Err(cause) => Err(failure_text("Snappy compression failed: ", cause)),
        },
        CompressionType::Lz4 => Ok(lz4_compress(data)),
    }
}

/// Decompresses `data` with the given algorithm; succeeds exactly when the
/// algorithm does, and fails on input malformed from its first bytes.
pub fn decompress(data: &[u8], compression: CompressionType) -> (r: Result<Vec<u8>>)
    ensures
        r is Ok <==> decompressed_bytes(data@, compression) is Some,
        r matches Ok(v) ==> Some(v@) == decompressed_bytes(data@, compression),
        r matches Err(e) ==> e is Compression,
        malformed_start(data@, compression) ==> r is Err,
{
    match compression {
        CompressionType::Uncompressed => Ok(vstd::slice::slice_to_vec(data)),
        CompressionType::Gzip => match gzip_decompress(data) {
            Ok(v) => Ok(v),
            Err(cause) => Err(failure_text("Gzip decompression failed: ", cause)),
        },
        CompressionType::Snappy => match snappy_decompress(data) {
            Ok(v) => Ok(v),
            Err(cause) => Err(failure_text("Snappy decompression failed: ", cause)),
        },
        CompressionType::Lz4 => match lz4_decompress(data) {
            Ok(v) => Ok(v),
            Err(cause) => Err(failure_text("LZ4 decompression failed: ", cause)),
        },
    }
}

} // verus!
