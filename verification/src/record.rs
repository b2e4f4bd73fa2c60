//! The on-disk record format, with CRC32 checksums and optional
//! compression of the value.
//!
//! ```text
//! [8 bytes: offset]
//! [4 bytes: length of everything after this field]
//! [4 bytes: CRC32 of everything after this field]
//! [1 byte: compression type (0=None, 1=Gzip, 2=Snappy, 3=Lz4)]
//! [8 bytes: timestamp]
//! [4 bytes: key length (0xFFFFFFFF, that is -1, if there is no key)]
//! [N bytes: key (if present)]
//! [4 bytes: value length]
//! [N bytes: value (possibly compressed)]
//! ```
//! All integers are big-endian.
use vstd::prelude::*;
use crate::bytes_be::{
    u64_be_bytes, u32_be_bytes, u64_from_be, u32_from_be, lemma_u64_be_roundtrip,
    lemma_u32_be_roundtrip, lemma_u64_from_be_prefix, lemma_u32_from_be_prefix, push_u64_be,
    push_u32_be, read_u64_be, read_u32_be, extend_bytes, copy_range,
};
use crate::compression::{
    CompressionType, compression_tag, compression_from_tag, lemma_compression_tag_roundtrip,
    unknown_compression_text, compressed_bytes, decompressed_bytes, compressible_len,
    restorable_len, compress, decompress,
};
use crate::error::{GaffaError, Result};
use crate::messages::{Message, opt_seq};
use crate::text::u64_decimal;

verus! {

/// The CRC32 (IEEE) checksum that crc32fast computes over `data`.
pub uninterp spec fn crc32_hash(data: Seq<u8>) -> u32;

/// Calls `crc32fast::hash`. Claimed: the checksum is a function of the
/// bytes.
#[verifier::external_body]
fn crc32(data: &[u8]) -> (r: u32)
    ensures
        r == crc32_hash(data@),
{
    crc32fast::hash(data)
}

/// A record as it is stored in a log segment.
#[derive(Debug, Clone, PartialEq)]
pub struct DiskRecord {
    pub offset: u64,
    pub timestamp: u64,
    pub key: Option<Vec<u8>>,
    pub value: Vec<u8>,
    pub compression: CompressionType,
}

/// The abstract content of a record.
pub struct RecordView {
    pub offset: u64,
    pub timestamp: u64,
    pub key: Option<Seq<u8>>,
    pub value: Seq<u8>,
    pub compression: CompressionType,
}

impl View for DiskRecord {
    type V = RecordView;

    open spec fn view(&self) -> RecordView {
        RecordView {
            offset: self.offset,
            timestamp: self.timestamp,
            key: opt_seq(self.key),
            value: self.value@,
            compression: self.compression,
        }
    }
}

/// The key-length field marking an absent key.
pub open spec fn no_key_field() -> u32 {
    0xFFFF_FFFFu32
}

/// The key field: its length, then its bytes.
pub open spec fn key_field(key: Option<Seq<u8>>) -> Seq<u8> {
    match key {
        Some(k) => u32_be_bytes(k.len() as u32) + k,
        None => u32_be_bytes(no_key_field()),
    }
}

/// The checksummed part of a record: everything after the CRC field.
/// `stored` is the value as stored, that is after compression.
pub open spec fn record_body(
    c: CompressionType,
    timestamp: u64,
    key: Option<Seq<u8>>,
    stored: Seq<u8>,
) -> Seq<u8> {
    seq![compression_tag(c)] + u64_be_bytes(timestamp) + key_field(key) + u32_be_bytes(
        stored.len() as u32,
    ) + stored
}

/// A whole record: offset, length, checksum, then the body.
pub open spec fn record_frame(offset: u64, body: Seq<u8>) -> Seq<u8> {
    u64_be_bytes(offset) + u32_be_bytes((body.len() + 4) as u32) + u32_be_bytes(crc32_hash(body))
        + body
}

/// The bytes that `encode` writes for a record whose value is stored as
/// `stored`.
pub open spec fn encoded_record(r: RecordView, stored: Seq<u8>) -> Seq<u8> {
    record_frame(r.offset, record_body(r.compression, r.timestamp, r.key, stored))
}

/// Why decoding failed.
pub enum DecodeFailure {
    /// The bytes end before a field does
    Truncated,
    /// The checksum does not match the body
    BadChecksum,
    /// The compression tag is unknown
    UnknownCompression(u8),
    /// The value does not decompress
    Decompression,
}

/// The fields of a record body.
pub struct BodyFields {
    pub compression: CompressionType,
    pub timestamp: u64,
    pub key: Option<Seq<u8>>,
    pub stored: Seq<u8>,
}

/// Where the value-length field starts, for a body whose key-length field
/// reads `kl`.
pub open spec fn value_field_start(kl: u32) -> int {
    if kl < 0x8000_0000u32 {
        13 + kl
    } else {
        13
    }
}

/// Parses a record body; trailing bytes after the value are ignored.
pub open spec fn parse_body(d: Seq<u8>) -> core::result::Result<BodyFields, DecodeFailure> {
    if d.len() < 1 {
        Err(DecodeFailure::Truncated)
    } else {
        match compression_from_tag(d[0]) {
            None => Err(DecodeFailure::UnknownCompression(d[0])),
            Some(c) => {
                if d.len() < 17 {
                    Err(DecodeFailure::Truncated)
                } else {
                    let ts = u64_from_be(d.subrange(1, d.len() as int));
                    let kl = u32_from_be(d.subrange(9, d.len() as int));
                    let p = value_field_start(kl);
                    if p + 4 > d.len() {
                        Err(DecodeFailure::Truncated)
                    } else {
                        let vl = u32_from_be(d.subrange(p, d.len() as int));
                        if p + 4 + vl > d.len() {
                            Err(DecodeFailure::Truncated)
                        } else {
                            Ok(
                                BodyFields {
                                    compression: c,
                                    timestamp: ts,
                                    key: if kl < 0x8000_0000u32 {
                                        Some(d.subrange(13, 13 + kl))
                                    } else {
                                        None
                                    },
                                    stored: d.subrange(p + 4, p + 4 + vl),
                                },
                            )
                        }
                    }
                }
            },
        }
    }
}

/// The value of the length field of a record that starts `s`.
pub open spec fn length_field(s: Seq<u8>) -> u32 {
    u32_from_be(s.subrange(8, s.len() as int))
}

/// The inputs that decoding accepts: when the header can be read, its
/// length field counts at least the checksum.
pub open spec fn decodable(s: Seq<u8>) -> bool {
    s.len() >= 16 ==> length_field(s) >= 4
}

/// Decodes the record at the start of `s`: the record and the number of
/// bytes it takes.
pub open spec fn decode_spec(s: Seq<u8>) -> core::result::Result<(RecordView, nat), DecodeFailure> {
    if s.len() < 16 {
        Err(DecodeFailure::Truncated)
    } else {
        let offset = u64_from_be(s);
        let dl = length_field(s) - 4;
        let crc = u32_from_be(s.subrange(12, s.len() as int));
        if s.len() < 16 + dl {
            Err(DecodeFailure::Truncated)
        } else {
            let d = s.subrange(16, 16 + dl);
            if crc32_hash(d) != crc {
                Err(DecodeFailure::BadChecksum)
            } else {
                match parse_body(d) {
                    Err(e) => Err(e),
                    Ok(b) => match decompressed_bytes(b.stored, b.compression) {
                        None => Err(DecodeFailure::Decompression),
                        Some(v) => Ok(
                            (
                                RecordView {
                                    offset,
                                    timestamp: b.timestamp,
                                    key: b.key,
                                    value: v,
                                    compression: b.compression,
                                },
                                (16 + dl) as nat,
                            ),
                        ),
                    },
                }
            }
        }
    }
}

/// The error that `decode` reports for a failure.
pub open spec fn reports(e: GaffaError, f: DecodeFailure) -> bool {
    match f {
        DecodeFailure::Truncated => e is Storage,
        DecodeFailure::BadChecksum => e is Corruption,
        DecodeFailure::UnknownCompression(tag) => e matches GaffaError::InvalidMessage(m)
            && m@ == unknown_compression_text(tag),
        DecodeFailure::Decompression => e is Compression,
    }
}

/// The serialized size of an uncompressed record.
pub open spec fn record_size(key: Option<Seq<u8>>, value_len: nat) -> nat {
    33 + value_len + match key {
        Some(k) => k.len(),
        None => 0,
    }
}

/// The length of a value as a record stores it: compressed with `c`, or
/// as it is when the algorithm fails.
pub open spec fn stored_len(value: Seq<u8>, c: CompressionType) -> nat {
    match compressed_bytes(value, c) {
        Some(z) => z.len(),
        None => value.len(),
    }
}

/// `n`, or `usize::MAX` when it is larger.
pub open spec fn clamp_usize(n: nat) -> usize {
    if n <= usize::MAX {
        n as usize
    } else {
        usize::MAX
    }
}

/// The sizes for which the record's length fields hold their values
/// exactly: the key length stays below 2^31 (it is stored as an `i32`),
/// and the length of everything after the length field fits 32 bits.
pub open spec fn fits_format(key: Option<Seq<u8>>, stored_len: nat) -> bool {
    &&& key matches Some(k) ==> k.len() < 0x8000_0000
    &&& record_size(key, stored_len) - 12 <= u32::MAX
}

proof fn lemma_key_field_len(key: Option<Seq<u8>>)
    ensures
        key_field(key).len() == 4 + match key {
            Some(k) => k.len(),
            None => 0,
        },
{
    match key {
        Some(k) => lemma_u32_be_roundtrip(k.len() as u32),
        None => lemma_u32_be_roundtrip(no_key_field()),
    }
}

/// The length of an encoded record.
pub proof fn lemma_encoded_len(r: RecordView, stored: Seq<u8>)
    ensures
        encoded_record(r, stored).len() == record_size(r.key, stored.len()),
{
    lemma_key_field_len(r.key);
    lemma_u64_be_roundtrip(r.timestamp);
    lemma_u64_be_roundtrip(r.offset);
    lemma_u32_be_roundtrip(stored.len() as u32);
    let body = record_body(r.compression, r.timestamp, r.key, stored);
    lemma_u32_be_roundtrip((body.len() + 4) as u32);
    lemma_u32_be_roundtrip(crc32_hash(body));
}

/// Parsing the body of a record gives back its fields.
proof fn lemma_parse_body(r: RecordView, stored: Seq<u8>)
    requires
        fits_format(r.key, stored.len()),
    ensures
        parse_body(record_body(r.compression, r.timestamp, r.key, stored)) == Ok::<
            BodyFields,
            DecodeFailure,
        >(BodyFields { compression: r.compression, timestamp: r.timestamp, key: r.key, stored }),
{
    let d = record_body(r.compression, r.timestamp, r.key, stored);
    lemma_compression_tag_roundtrip(r.compression);
    lemma_u64_be_roundtrip(r.timestamp);
    lemma_key_field_len(r.key);
    lemma_u32_be_roundtrip(stored.len() as u32);
    let tsb = u64_be_bytes(r.timestamp);
    let kf = key_field(r.key);
    let vlb = u32_be_bytes(stored.len() as u32);
    assert(d == seq![compression_tag(r.compression)] + tsb + kf + vlb + stored);
    assert(d[0] == compression_tag(r.compression));
    assert(d.subrange(1, d.len() as int).subrange(0, 8) =~= tsb);
    assert(tsb.subrange(0, 8) =~= tsb);
    lemma_u64_from_be_prefix(d.subrange(1, d.len() as int), tsb);
    let klen: u32 = match r.key {
        Some(k) => k.len() as u32,
        None => no_key_field(),
    };
    let klb = u32_be_bytes(klen);
    lemma_u32_be_roundtrip(klen);
    assert(kf.subrange(0, 4) =~= klb);
    assert(d.subrange(9, d.len() as int).subrange(0, 4) =~= klb);
    assert(klb.subrange(0, 4) =~= klb);
    lemma_u32_from_be_prefix(d.subrange(9, d.len() as int), klb);
    let p = value_field_start(klen);
    match r.key {
        Some(k) => {
            assert(p == 13 + k.len());
            assert(d.subrange(13, 13 + klen) =~= k);
        },
        None => {
            assert(p == 13);
        },
    }
    assert(d.subrange(p, d.len() as int).subrange(0, 4) =~= vlb);
    assert(vlb.subrange(0, 4) =~= vlb);
    lemma_u32_from_be_prefix(d.subrange(p, d.len() as int), vlb);
    assert(d.subrange(p + 4, p + 4 + stored.len()) =~= stored);
}

/// Decoding the bytes of an encoded record whose fields fit the format,
/// followed by anything, reads back its fields and the length of its
/// encoding; the value is what the stored bytes decompress to.
pub proof fn lemma_decode_frame(r: RecordView, stored: Seq<u8>, rest: Seq<u8>)
    requires
        fits_format(r.key, stored.len()),
    ensures
        decodable(encoded_record(r, stored) + rest),
        decode_spec(encoded_record(r, stored) + rest) == match decompressed_bytes(stored, r.compression) {
            None => Err::<(RecordView, nat), DecodeFailure>(DecodeFailure::Decompression),
            Some(v) => Ok::<(RecordView, nat), DecodeFailure>(
                (RecordView { value: v, ..r }, encoded_record(r, stored).len()),
            ),
        },
{
    let body = record_body(r.compression, r.timestamp, r.key, stored);
    let e = encoded_record(r, stored);
    let s = e + rest;
    lemma_encoded_len(r, stored);
    lemma_parse_body(r, stored);
    lemma_u64_be_roundtrip(r.offset);
    let lenf = (body.len() + 4) as u32;
    lemma_u32_be_roundtrip(lenf);
    lemma_u32_be_roundtrip(crc32_hash(body));
    let ob = u64_be_bytes(r.offset);
    let lb = u32_be_bytes(lenf);
    let cb = u32_be_bytes(crc32_hash(body));
    assert(e == ob + lb + cb + body);
    assert(s.subrange(0, 8) =~= ob.subrange(0, 8));
    lemma_u64_from_be_prefix(s, ob);
    assert(s.subrange(8, s.len() as int).subrange(0, 4) =~= lb.subrange(0, 4));
    lemma_u32_from_be_prefix(s.subrange(8, s.len() as int), lb);
    assert(s.subrange(12, s.len() as int).subrange(0, 4) =~= cb.subrange(0, 4));
    lemma_u32_from_be_prefix(s.subrange(12, s.len() as int), cb);
    assert(body.len() + 4 <= u32::MAX);
    assert(length_field(s) == body.len() + 4);
    assert(s.subrange(16, 16 + body.len() as int) =~= body);
}

/// Decoding the bytes of an encoded record, followed by anything, gives
/// back the record and the length of its encoding, when its fields fit the
/// format and the stored value decompresses to the record's value.
pub proof fn lemma_decode_encoded(r: RecordView, stored: Seq<u8>, rest: Seq<u8>)
    requires
        fits_format(r.key, stored.len()),
        decompressed_bytes(stored, r.compression) == Some(r.value),
    ensures
        decodable(encoded_record(r, stored) + rest),
        decode_spec(encoded_record(r, stored) + rest) == Ok::<(RecordView, nat), DecodeFailure>(
            (r, encoded_record(r, stored).len()),
        ),
{
    lemma_decode_frame(r, stored, rest);
}

/// The serialized size of a record is the length of its encoding: when the
/// record's algorithm compresses its value to `z`, the bytes that `encode`
/// writes, `encoded_record(r, z)`, are as long as `record_size` counts with
/// the stored length, and `serialized_size` returns that count (as a
/// `usize`, which every encoding held in memory fits).
pub proof fn lemma_serialized_size_is_encoding_len(r: RecordView, z: Seq<u8>)
    requires
        compressed_bytes(r.value, r.compression) == Some(z),
    ensures
        encoded_record(r, z).len() == record_size(r.key, stored_len(r.value, r.compression)),
        encoded_record(r, z).len() <= usize::MAX ==> clamp_usize(
            record_size(r.key, stored_len(r.value, r.compression)),
        ) == encoded_record(r, z).len(),
{
    lemma_encoded_len(r, z);
}

impl DiskRecord {
    /// A record of `message` at `offset`, stored without compression.
    pub fn new(offset: u64, message: Message) -> (r: Self)
        ensures
            r.offset == offset,
            r.timestamp == message.timestamp,
            opt_seq(r.key) == opt_seq(message.key),
            r.value@ == message.value@,
            r.compression == CompressionType::Uncompressed,
    {
        DiskRecord {
            offset,
            timestamp: message.timestamp,
            key: message.key,
            value: message.value,
            compression: CompressionType::Uncompressed,
        }
    }

    /// A record of `message` at `offset`, whose value is stored compressed.
    pub fn new_with_compression(offset: u64, message: Message, compression: CompressionType) -> (r:
        Self)
        ensures
            r.offset == offset,
            r.timestamp == message.timestamp,
            opt_seq(r.key) == opt_seq(message.key),
            r.value@ == message.value@,
            r.compression == compression,
    {
        DiskRecord {
            offset,
            timestamp: message.timestamp,
            key: message.key,
            value: message.value,
            compression,
        }
    }

    /// The size of the record once serialized: its encoding's length, with
    /// the value as stored (compressed with the record's algorithm). When
    /// the algorithm fails, the value is counted as it is. Sizes beyond
    /// `usize::MAX` give `usize::MAX`.
    pub fn serialized_size(&self) -> (r: usize)
        requires
            compressible_len(self.value@.len(), self.compression),
        ensures
            r == clamp_usize(record_size(opt_seq(self.key), stored_len(self.value@, self.compression))),
            compressed_bytes(self.value@, self.compression) matches Some(z) ==> (encoded_record(self@, z).len()
                <= usize::MAX ==> r == encoded_record(self@, z).len()),
    {
        let stored: usize = match compress(self.value.as_slice(), self.compression) {
            Ok(v) => v.len(),
            Err(_) => self.value.len(),
        };
        let mut size: usize = 8 + 4 + 4 + 1 + 8 + 4;
        match &self.key {
            Some(key) => {
                size = size.saturating_add(key.len());
            },
            None => {},
        }
        size = size.saturating_add(4);
        size = size.saturating_add(stored);
        proof {
            if let Some(z) = compressed_bytes(self.value@, self.compression) {
                lemma_encoded_len(self@, z);
            }
        }
        size
    }

    /// Encodes the record, compressing its value with the record's
    /// algorithm and checksumming the body.
    ///
    /// Fails only when compression fails. Lengths are written truncated to
    /// their field widths; when they fit (`fits_format`), decoding the
    /// result gives the record back.
    pub fn encode(&self) -> (r: Result<Vec<u8>>)
        requires
            compressible_len(self.value@.len(), self.compression),
        ensures
            r is Ok <==> compressed_bytes(self.value@, self.compression) is Some,
            r matches Ok(bytes) ==> bytes@ == encoded_record(
                self@,
                compressed_bytes(self.value@, self.compression)->0,
            ),
            r matches Ok(bytes) ==> (fits_format(
                self@.key,
                compressed_bytes(self.value@, self.compression)->0.len(),
            ) && restorable_len(self.value@.len(), self.compression)) ==> decode_spec(bytes@)
                == Ok::<(RecordView, nat), DecodeFailure>((self@, bytes@.len())),
            r matches Err(e) ==> e is Compression,
    {
        let value_data = compress(self.value.as_slice(), self.compression)?;
        let ghost stored = value_data@;
        let mut body: Vec<u8> = Vec::new();
        body.push(self.compression.to_u8());
        push_u64_be(&mut body, self.timestamp);
        match &self.key {
            Some(key) => {
                push_u32_be(&mut body, key.len() as u32);
                extend_bytes(&mut body, key.as_slice());
            },
            None => {
                push_u32_be(&mut body, 0xFFFF_FFFFu32);
            },
        }
        push_u32_be(&mut body, value_data.len() as u32);
        extend_bytes(&mut body, value_data.as_slice());
        assert(body@ =~= record_body(self.compression, self.timestamp, opt_seq(self.key), stored));
        let crc = crc32(body.as_slice());
        let mut buffer: Vec<u8> = Vec::new();
        push_u64_be(&mut buffer, self.offset);
        push_u32_be(&mut buffer, (body.len() as u128 + 4) as u32);
        push_u32_be(&mut buffer, crc);
        extend_bytes(&mut buffer, body.as_slice());
        assert(buffer@ =~= encoded_record(self@, stored));
        proof {
            if fits_format(self@.key, stored.len()) && restorable_len(
                self.value@.len(),
                self.compression,
            ) {
                lemma_decode_encoded(self@, stored, Seq::empty());
                assert(buffer@ + Seq::<u8>::empty() =~= buffer@);
            }
        }
        Ok(buffer)
    }

    /// Decodes the record at the start of `bytes` and checks its checksum;
    /// returns it with the number of bytes it takes.
    pub fn decode_prefix(bytes: &[u8]) -> (r: Result<(DiskRecord, usize)>)
        requires
            decodable(bytes@),
        ensures
            decode_spec(bytes@) matches Ok((v, n)) ==> (r matches Ok((rec, m)) && rec@ == v && m
                == n),
            decode_spec(bytes@) matches Err(f) ==> (r matches Err(e) && reports(e, f)),
    {
        if bytes.len() < 8 {
            return Err(GaffaError::Storage(String::from_str("Failed to read offset: failed to fill whole buffer")));
        }
        let offset = read_u64_be(bytes, 0);
        proof {
            assert(bytes@.subrange(0, bytes@.len() as int).subrange(0, 8) =~= bytes@.subrange(0, 8));
            lemma_u64_from_be_prefix(bytes@.subrange(0, bytes@.len() as int), bytes@);
            assert(bytes@.subrange(0, bytes@.len() as int) =~= bytes@);
        }
        if bytes.len() < 12 {
            return Err(GaffaError::Storage(String::from_str("Failed to read length: failed to fill whole buffer")));
        }
        let length = read_u32_be(bytes, 8);
        if bytes.len() < 16 {
            return Err(GaffaError::Storage(String::from_str("Failed to read CRC: failed to fill whole buffer")));
        }
        let expected_crc = read_u32_be(bytes, 12);
        let data_length = length - 4;
        if bytes.len() - 16 < data_length as usize {
            return Err(GaffaError::Storage(String::from_str("Failed to read record data: failed to fill whole buffer")));
        }
        let data = copy_range(bytes, 16, 16 + data_length as usize);
        let actual_crc = crc32(data.as_slice());
        if actual_crc != expected_crc {
            let mut m = String::from_str("CRC mismatch at offset ");
            m.append(u64_decimal(offset).as_str());
            m.append(": expected ");
            m.append(u64_decimal(expected_crc as u64).as_str());
            m.append(", got ");
            m.append(u64_decimal(actual_crc as u64).as_str());
            return Err(GaffaError::Corruption(m));
        }
        let d = data.as_slice();
        if d.len() < 1 {
            return Err(GaffaError::Storage(String::from_str("Failed to read compression type: failed to fill whole buffer")));
        }
        let compression = CompressionType::from_u8(d[0])?;
        if d.len() < 9 {
            return Err(GaffaError::Storage(String::from_str("Failed to read timestamp: failed to fill whole buffer")));
        }
        let timestamp = read_u64_be(d, 1);
        if d.len() < 13 {
            return Err(GaffaError::Storage(String::from_str("Failed to read key length: failed to fill whole buffer")));
        }
        let key_len = read_u32_be(d, 9);
        let mut p: usize = 13;
        let key = if key_len < 0x8000_0000u32 {
            if d.len() - 13 < key_len as usize {
                return Err(GaffaError::Storage(String::from_str("Failed to read key: failed to fill whole buffer")));
            }
            p = 13 + key_len as usize;
            Some(copy_range(d, 13, p))
        } else {
            None
        };
        if d.len() - p < 4 {
            return Err(GaffaError::Storage(String::from_str("Failed to read value length: failed to fill whole buffer")));
        }
        let value_len = read_u32_be(d, p);
        if d.len() - p - 4 < value_len as usize {
            return Err(GaffaError::Storage(String::from_str("Failed to read value: failed to fill whole buffer")));
        }
        let value_data = copy_range(d, p + 4, p + 4 + value_len as usize);
        let value = decompress(value_data.as_slice(), compression)?;
        Ok((DiskRecord { offset, timestamp, key, value, compression }, 16 + data_length as usize))
    }

    /// Decodes the record at the start of `bytes` and checks its checksum.
    pub fn decode(bytes: &[u8]) -> (r: Result<DiskRecord>)
        requires
            decodable(bytes@),
        ensures
            decode_spec(bytes@) matches Ok((v, n)) ==> (r matches Ok(rec) && rec@ == v),
            decode_spec(bytes@) matches Err(f) ==> (r matches Err(e) && reports(e, f)),
    {
        match DiskRecord::decode_prefix(bytes) {
            Ok((rec, _)) => Ok(rec),
            Err(e) => Err(e),
        }
    }

    /// The message held by the record.
    pub fn to_message(&self) -> (r: Message)
        ensures
            opt_seq(r.key) == opt_seq(self.key),
            r.value@ == self.value@,
            r.timestamp == self.timestamp,
    {
        Message { key: self.key.clone(), value: self.value.clone(), timestamp: self.timestamp }
    }
}

} // verus!
