//! Log segments: the bytes of a segment's log file, with the sparse
//! offset index that points into them.
use vstd::prelude::*;
use crate::compression::{
    CompressionType, compressed_bytes, decompressed_bytes, compressible_len, restorable_len,
};
use crate::error::{GaffaError, Result};
use crate::index::{OffsetIndex, index_sorted, parse_entries};
use crate::messages::{Message, opt_seq};
use crate::record::{
    DiskRecord, RecordView, encoded_record, fits_format, decode_spec, decodable,
    lemma_decode_encoded, lemma_decode_frame, lemma_encoded_len, DecodeFailure,
};
use crate::retention::RetentionConfig;

verus! {

/// Default maximum segment size (1GB).
pub const DEFAULT_MAX_SEGMENT_SIZE: u64 = 1073741824;

/// Configuration of log segments.
#[derive(Debug, Clone, Copy)]
pub struct SegmentConfig {
    /// Maximum size in bytes before rotation
    pub max_size: u64,
    /// Interval for indexing (index every N records)
    pub index_interval: u32,
    /// Compression for new records
    pub compression: CompressionType,
    /// Retention of old segments
    pub retention: RetentionConfig,
}

impl SegmentConfig {
    /// 1GB segments, an index entry every ten records, no compression,
    /// default retention.
    pub fn default() -> (r: Self)
        ensures
            r.max_size == DEFAULT_MAX_SEGMENT_SIZE,
            r.index_interval == 10,
            r.compression == CompressionType::Uncompressed,
            r.retention.min_segments == 1,
    {
        SegmentConfig {
            max_size: DEFAULT_MAX_SEGMENT_SIZE,
            index_interval: 10,
            compression: CompressionType::Uncompressed,
            retention: RetentionConfig::default(),
        }
    }

    /// The same configuration with another compression.
    pub fn with_compression(self, compression: CompressionType) -> (r: Self)
        ensures
            r == (SegmentConfig { compression, ..self }),
    {
        SegmentConfig { compression, ..self }
    }

    /// The same configuration with another retention.
    pub fn with_retention(self, retention: RetentionConfig) -> (r: Self)
        ensures
            r == (SegmentConfig { retention, ..self }),
    {
        SegmentConfig { retention, ..self }
    }
}

/// The value of a record as a segment stores it: compressed with the
/// record's algorithm.
pub open spec fn stored_form(r: RecordView) -> Seq<u8> {
    match compressed_bytes(r.value, r.compression) {
        Some(z) => z,
        None => r.value,
    }
}

/// The bytes of a record in a segment's log.
pub open spec fn record_bytes(r: RecordView) -> Seq<u8> {
    encoded_record(r, stored_form(r))
}

/// The bytes of a sequence of records, one after the other.
pub open spec fn encode_all(rs: Seq<RecordView>) -> Seq<u8>
    decreases rs.len(),
{
    if rs.len() == 0 {
        Seq::empty()
    } else {
        encode_all(rs.drop_last()) + record_bytes(rs.last())
    }
}

/// Where record `k` starts in the bytes of `rs`.
pub open spec fn record_start(rs: Seq<RecordView>, k: int) -> int {
    encode_all(rs.subrange(0, k)).len() as int
}

/// A record as a segment stores it: its algorithm compresses the value,
/// the fields fit the format, and the stored value decompresses back.
#[verifier::opaque]
pub open spec fn stored_record(r: RecordView) -> bool {
    &&& compressible_len(r.value.len(), r.compression)
    &&& compressed_bytes(r.value, r.compression) is Some
    &&& fits_format(r.key, stored_form(r).len())
    &&& decompressed_bytes(stored_form(r), r.compression) == Some(r.value)
}

/// The record a segment holds for a message at `offset`, compressed with
/// `compression`.
pub open spec fn record_of(offset: u64, m: Message, compression: CompressionType) -> RecordView {
    RecordView { offset, timestamp: m.timestamp, key: opt_seq(m.key), value: m.value@, compression }
}

/// Messages a segment stores with `compression`: the algorithm succeeds,
/// the record's length fields hold its sizes, and (for lz4) the value's
/// length fits the four-byte size prefix.
pub open spec fn storable(m: Message, compression: CompressionType) -> bool {
    &&& compressed_bytes(m.value@, compression) matches Some(z) && fits_format(opt_seq(m.key), z.len())
    &&& restorable_len(m.value@.len(), compression)
}

/// Whether a segment stores each of `ms` with `compression`.
pub open spec fn all_storable(ms: Seq<Message>, compression: CompressionType) -> bool {
    forall|i: int| 0 <= i < ms.len() ==> storable(#[trigger] ms[i], compression)
}

proof fn lemma_encode_all_append(a: Seq<RecordView>, b: Seq<RecordView>)
    ensures
        encode_all(a + b) == encode_all(a) + encode_all(b),
    decreases b.len(),
{
    if b.len() == 0 {
        assert(a + b =~= a);
        assert(encode_all(a) + Seq::<u8>::empty() =~= encode_all(a));
    } else {
        lemma_encode_all_append(a, b.drop_last());
        assert((a + b).drop_last() =~= a + b.drop_last());
        assert((a + b).last() == b.last());
        assert(encode_all(a) + encode_all(b.drop_last()) + record_bytes(b.last())
            =~= encode_all(a) + (encode_all(b.drop_last()) + record_bytes(b.last())));
    }
}

/// The bytes of the records from `k` on are those of record `k`, then
/// those of the records after it.
proof fn lemma_encode_all_at(rs: Seq<RecordView>, k: int)
    requires
        0 <= k < rs.len(),
    ensures
        encode_all(rs).subrange(record_start(rs, k), encode_all(rs).len() as int)
            == record_bytes(rs[k]) + encode_all(rs.subrange(k + 1, rs.len() as int)),
        record_start(rs, k + 1) == record_start(rs, k) + record_bytes(rs[k]).len(),
        record_start(rs, k) + record_bytes(rs[k]).len() <= encode_all(rs).len(),
{
    let a = rs.subrange(0, k);
    let b = rs.subrange(k, rs.len() as int);
    let c = rs.subrange(k + 1, rs.len() as int);
    assert(rs =~= a + b);
    lemma_encode_all_append(a, b);
    assert(b =~= seq![rs[k]] + c);
    lemma_encode_all_append(seq![rs[k]], c);
    assert(seq![rs[k]].drop_last() =~= Seq::<RecordView>::empty());
    assert(encode_all(seq![rs[k]]) == encode_all(Seq::<RecordView>::empty()) + record_bytes(rs[k]));
    assert(encode_all(seq![rs[k]]) =~= record_bytes(rs[k]));
    let ab = rs.subrange(0, k + 1);
    assert(ab =~= a + seq![rs[k]]);
    lemma_encode_all_append(a, seq![rs[k]]);
    let e = encode_all(rs);
    assert(e == encode_all(a) + (record_bytes(rs[k]) + encode_all(c)));
    assert(e.subrange(encode_all(a).len() as int, e.len() as int) =~= record_bytes(rs[k]) + encode_all(c));
}

/// Decoding the log at the start of record `k` gives record `k` and the
/// length of its encoding.
proof fn lemma_decode_at(rs: Seq<RecordView>, k: int)
    requires
        0 <= k < rs.len(),
        stored_record(rs[k]),
    ensures
        decodable(encode_all(rs).subrange(record_start(rs, k), encode_all(rs).len() as int)),
        decode_spec(encode_all(rs).subrange(record_start(rs, k), encode_all(rs).len() as int))
            == Ok::<(RecordView, nat), DecodeFailure>(
            (rs[k], (record_start(rs, k + 1) - record_start(rs, k)) as nat),
        ),
        record_start(rs, k) < record_start(rs, k + 1) <= encode_all(rs).len(),
{
    reveal(stored_record);
    lemma_encode_all_at(rs, k);
    lemma_decode_encoded(rs[k], stored_form(rs[k]), encode_all(rs.subrange(k + 1, rs.len() as int)));
    lemma_encoded_len(rs[k], stored_form(rs[k]));
}

/// At the end of the log there is nothing to decode.
proof fn lemma_decode_at_end(rs: Seq<RecordView>)
    ensures
        decodable(encode_all(rs).subrange(record_start(rs, rs.len() as int), encode_all(rs).len() as int)),
        decode_spec(encode_all(rs).subrange(record_start(rs, rs.len() as int), encode_all(rs).len() as int)) is Err,
        record_start(rs, rs.len() as int) == encode_all(rs).len(),
{
    assert(rs.subrange(0, rs.len() as int) =~= rs);
}

proof fn lemma_record_start_mono(rs: Seq<RecordView>, j: int, k: int)
    requires
        0 <= j <= k <= rs.len(),
    ensures
        record_start(rs, j) <= record_start(rs, k),
        record_start(rs, k) <= encode_all(rs).len(),
{
    let a = rs.subrange(0, j);
    let b = rs.subrange(j, k);
    assert(rs.subrange(0, k) =~= a + b);
    lemma_encode_all_append(a, b);
    let c = rs.subrange(k, rs.len() as int);
    assert(rs =~= rs.subrange(0, k) + c);
    lemma_encode_all_append(rs.subrange(0, k), c);
}

/// Records as a segment holds them from `base` on: stored records with
/// consecutive offsets, the next offset still fitting 64 bits.
pub open spec fn segment_shaped(rs: Seq<RecordView>, base: u64) -> bool {
    &&& base + rs.len() <= u64::MAX
    &&& forall|i: int| 0 <= i < rs.len() ==> (#[trigger] rs[i]).offset == base + i && stored_record(rs[i])
}

/// When the bytes of stored records `qs` begin the bytes of stored records
/// `rs`, the two agree on their first `k` records.
#[verifier::rlimit(40)]
proof fn lemma_prefix_agree(qs: Seq<RecordView>, rs: Seq<RecordView>, k: int)
    requires
        forall|i: int| 0 <= i < qs.len() ==> stored_record(#[trigger] qs[i]),
        forall|i: int| 0 <= i < rs.len() ==> stored_record(#[trigger] rs[i]),
        encode_all(qs).len() <= encode_all(rs).len(),
        encode_all(rs).subrange(0, encode_all(qs).len() as int) == encode_all(qs),
        0 <= k <= qs.len(),
        k <= rs.len(),
    ensures
        qs.subrange(0, k) == rs.subrange(0, k),
    decreases k,
{
    if k > 0 {
        let j = k - 1;
        lemma_prefix_agree(qs, rs, j);
        let q_enc = encode_all(qs);
        let r_enc = encode_all(rs);
        let p = record_start(qs, j);
        assert(p == record_start(rs, j));
        lemma_encode_all_at(qs, j);
        let e = record_bytes(qs[j]);
        let tail_q = encode_all(qs.subrange(k, qs.len() as int));
        let more = r_enc.subrange(q_enc.len() as int, r_enc.len() as int);
        assert(r_enc =~= q_enc + more);
        assert(q_enc.subrange(p, q_enc.len() as int) == e + tail_q);
        assert(r_enc.subrange(p, r_enc.len() as int) =~= q_enc.subrange(p, q_enc.len() as int) + more);
        assert(r_enc.subrange(p, r_enc.len() as int) =~= e + (tail_q + more));
        assert(fits_format(qs[j].key, stored_form(qs[j]).len()) && decompressed_bytes(
            stored_form(qs[j]),
            qs[j].compression,
        ) == Some(qs[j].value)) by {
            reveal(stored_record);
        }
        lemma_decode_encoded(qs[j], stored_form(qs[j]), tail_q + more);
        lemma_decode_at(rs, j);
        assert(qs[j] == rs[j]);
        assert(qs.subrange(0, k) =~= rs.subrange(0, j).push(rs[j]));
        assert(rs.subrange(0, k) =~= rs.subrange(0, j).push(rs[j]));
    }
}

/// What reopening recovers from the bytes of segment-shaped records
/// `all`: recovery of `got` stopped at `pos`, either where no stored record
/// with the next offset starts, or at the end of the bytes, or where the
/// offsets ran out; `got` is then all of `all`.
proof fn lemma_recovered(got: Seq<RecordView>, all: Seq<RecordView>, base: u64, log: Seq<u8>, pos: int, done: bool)
    requires
        encode_all(all) == log,
        segment_shaped(all, base),
        0 <= pos <= log.len(),
        encode_all(got) == log.subrange(0, pos),
        base + got.len() <= u64::MAX,
        forall|i: int| 0 <= i < got.len() ==> (#[trigger] got[i]).offset == base + i && stored_record(got[i]),
        done ==> !starts_with_stored_record(log.subrange(pos, log.len() as int), (base + got.len()) as u64),
        !(!done && pos < log.len() && got.len() < u64::MAX - base),
    ensures
        got == all,
{
    assert forall|i: int| 0 <= i < all.len() implies stored_record(#[trigger] all[i]) by {
        assert(all[i].offset == base + i && stored_record(all[i]));
    }
    assert(encode_all(got).len() == pos);
    assert(encode_all(all).subrange(0, encode_all(got).len() as int) == encode_all(got));
    let n = got.len() as int;
    if n > all.len() {
        lemma_prefix_agree(got, all, all.len() as int);
        assert(all.subrange(0, all.len() as int) =~= all);
        assert(record_start(got, all.len() as int) == log.len());
        lemma_decode_at(got, all.len() as int);
        lemma_record_start_mono(got, all.len() as int + 1, n);
        assert(got.subrange(0, n) =~= got);
        assert(false);
    } else if n < all.len() {
        lemma_prefix_agree(got, all, n);
        assert(got.subrange(0, n) =~= got);
        assert(record_start(all, n) == pos);
        lemma_encode_all_at(all, n);
        let w = all[n];
        let e = record_bytes(w);
        let rest = log.subrange(pos, log.len() as int);
        assert(rest.subrange(0, e.len() as int) =~= e);
        assert(w.offset == base + n && stored_record(w));
        assert(starts_with_stored_record(rest, (base + got.len()) as u64));
        assert(false);
    } else {
        lemma_prefix_agree(got, all, n);
        assert(got.subrange(0, n) =~= got);
        assert(all.subrange(0, n) =~= all);
    }
}

/// Whether `s` starts with the encoding of a stored record at `offset`.
pub open spec fn starts_with_stored_record(s: Seq<u8>, offset: u64) -> bool {
    exists|r: RecordView|
        #![trigger record_bytes(r)]
        stored_record(r) && r.offset == offset && s.len() >= record_bytes(r).len()
            && s.subrange(0, record_bytes(r).len() as int) == record_bytes(r)
}

/// A stored record found at the start of `s` is what decoding `s` gives.
proof fn lemma_stored_record_witness(s: Seq<u8>, offset: u64) -> (w: RecordView)
    requires
        starts_with_stored_record(s, offset),
    ensures
        stored_record(w),
        w.offset == offset,
        decodable(s),
        decode_spec(s) == Ok::<(RecordView, nat), DecodeFailure>((w, record_bytes(w).len())),
        record_bytes(w).len() <= s.len(),
        s.subrange(0, record_bytes(w).len() as int) == record_bytes(w),
{
    let w = choose|w: RecordView|
        #![trigger record_bytes(w)]
        stored_record(w) && w.offset == offset && s.len() >= record_bytes(w).len()
            && s.subrange(0, record_bytes(w).len() as int) == record_bytes(w);
    let e = record_bytes(w);
    let tail = s.subrange(e.len() as int, s.len() as int);
    assert(s =~= e + tail);
    reveal(stored_record);
    lemma_decode_encoded(w, stored_form(w), tail);
    w
}

/// Whether two byte slices are equal.
fn bytes_equal(a: &[u8], b: &[u8]) -> (r: bool)
    ensures
        r == (a@ == b@),
{
    if a.len() != b.len() {
        return false;
    }
    let mut i: usize = 0;
    while i < a.len()
        invariant
            a@.len() == b@.len(),
            i <= a@.len(),
            forall|j: int| 0 <= j < i ==> a@[j] == b@[j],
        decreases a@.len() - i,
    {
        if a[i] != b[i] {
            return false;
        }
        i = i + 1;
    }
    assert(a@ =~= b@);
    true
}

/// Whether a key's length fits the format's key field.
fn key_fits(key: &Option<Vec<u8>>) -> (r: bool)
    ensures
        r == (opt_seq(*key) matches Some(k) ==> k.len() < 0x8000_0000),
{
    match key {
        Some(k) => k.len() < 0x8000_0000usize,
        None => true,
    }
}

/// Recognizes, at the start of `s`, the bytes of a stored record at
/// `offset`: returns the record and the length of its bytes.
#[verifier::rlimit(50)]
fn recognize_record(s: &[u8], offset: u64) -> (r: Option<(DiskRecord, usize)>)
    ensures
        r matches Some((rec, used)) ==> {
            &&& stored_record(rec@)
            &&& rec@.offset == offset
            &&& used == record_bytes(rec@).len()
            &&& used <= s@.len()
            &&& s@.subrange(0, used as int) == record_bytes(rec@)
        },
        r is None ==> !starts_with_stored_record(s@, offset),
{
    if s.len() >= 16 && crate::bytes_be::read_u32_be(s, 8) < 4 {
        proof {
            if starts_with_stored_record(s@, offset) {
                lemma_stored_record_witness(s@, offset);
            }
        }
        return None;
    }
    let ghost witness_exists = starts_with_stored_record(s@, offset);
    let decoded = DiskRecord::decode_prefix(s);
    let ghost w: RecordView;
    proof {
        if witness_exists {
            w = lemma_stored_record_witness(s@, offset);
            lemma_encoded_len(w, stored_form(w));
            reveal(stored_record);
        }
    }
    match decoded {
        Ok((rec, _)) => {
            if rec.offset == offset && key_fits(&rec.key) && (rec.compression
                != CompressionType::Lz4 || rec.value.len().checked_mul(110).is_some()) {
                match rec.encode() {
                    Ok(bytes) => {
                        let ghost z = stored_form(rec@);
                        proof {
                            lemma_encoded_len(rec@, z);
                        }
                        if (bytes.len() as u128) <= 0xFFFF_FFFFu128 + 12 && bytes.len() <= s.len()
                            && bytes_equal(
                            bytes.as_slice(),
                            vstd::slice::slice_subrange(s, 0, bytes.len()),
                        ) {
                            proof {
                                let rest = s@.subrange(bytes@.len() as int, s@.len() as int);
                                assert(s@ =~= bytes@ + rest);
                                lemma_decode_frame(rec@, z, rest);
                                reveal(stored_record);
                            }
                            return Some((rec, bytes.len()));
                        }
                    },
                    Err(_) => {},
                }
            }
            None
        },
        Err(_) => None,
    }
}

/// A log segment: the bytes of its log file, its offset index, and the
/// offsets it holds, from `base_offset` up to `next_offset`.
pub struct LogSegment {
    base_offset: u64,
    log: Vec<u8>,
    index: OffsetIndex,
    size: u64,
    next_offset: u64,
    config: SegmentConfig,
    records_since_index: u32,
    records: Ghost<Seq<RecordView>>,
}

impl LogSegment {
    /// The records the segment holds, in offset order.
    pub closed spec fn records(&self) -> Seq<RecordView> {
        self.records@
    }

    /// The offset of the first record.
    pub closed spec fn spec_base_offset(&self) -> u64 {
        self.base_offset
    }

    /// The bytes of the log file.
    pub closed spec fn log_bytes(&self) -> Seq<u8> {
        self.log@
    }

    /// The entries of the index file.
    pub closed spec fn index_entries(&self) -> Seq<(u64, u64)> {
        self.index@
    }

    /// The configuration of the segment.
    pub closed spec fn spec_config(&self) -> SegmentConfig {
        self.config
    }

    /// The offset the next record will get.
    pub open spec fn spec_next_offset(&self) -> int {
        self.spec_base_offset() + self.records().len()
    }

    /// The segment's invariant: the log holds the encoding of its records,
    /// whose offsets run from the base offset on; each index entry names
    /// a record and the position where it starts.
    pub closed spec fn wf(&self) -> bool {
        &&& self.log@ == encode_all(self.records@)
        &&& self.size == self.log@.len()
        &&& self.next_offset == self.base_offset + self.records@.len()
        &&& forall|i: int|
            0 <= i < self.records@.len() ==> (#[trigger] self.records@[i]).offset
                == self.base_offset + i && stored_record(self.records@[i])
        &&& index_sorted(self.index@)
        &&& forall|j: int|
            0 <= j < self.index@.len() ==> {
                &&& self.base_offset <= (#[trigger] self.index@[j]).0 < self.next_offset
                &&& self.index@[j].1 == record_start(
                    self.records@,
                    self.index@[j].0 - self.base_offset,
                )
            }
        &&& self.index@.len() > 0 ==> self.index@.last().0 < self.next_offset
        &&& self.records_since_index <= self.config.index_interval || self.records_since_index <= 1
    }

    /// A new, empty segment starting at `base_offset`.
    pub fn create(base_offset: u64, config: SegmentConfig) -> (r: Self)
        ensures
            r.wf(),
            r.records() == Seq::<RecordView>::empty(),
            r.spec_base_offset() == base_offset,
            r.spec_config() == config,
            r.log_bytes() == Seq::<u8>::empty(),
    {
        LogSegment {
            base_offset,
            log: Vec::new(),
            index: OffsetIndex::create(),
            size: 0,
            next_offset: base_offset,
            config,
            records_since_index: 0,
            records: Ghost(Seq::empty()),
        }
    }

    /// Reopens a segment from the bytes of its log and index files.
    ///
    /// The log is recovered up to the first place where the bytes are not
    /// the encoding of a stored record with the next offset (a truncated or
    /// corrupted tail, or a foreign encoding); what follows is dropped. The
    /// index keeps its entries up to the first one that does not name the
    /// start of a recovered record in offset order. Reopening the log bytes
    /// of records a segment holds from `base_offset` on gives back exactly
    /// those records.
    pub fn open(base_offset: u64, log: &[u8], index_bytes: &[u8], config: SegmentConfig) -> (r: Self)
        ensures
            r.wf(),
            r.spec_base_offset() == base_offset,
            r.spec_config() == config,
            r.log_bytes() == log@.subrange(0, r.log_bytes().len() as int),
            r.log_bytes().len() < log@.len() && r.spec_next_offset() < u64::MAX
                ==> !starts_with_stored_record(
                log@.subrange(r.log_bytes().len() as int, log@.len() as int),
                r.spec_next_offset() as u64,
            ),
            r.index_entries() == parse_entries(index_bytes@).subrange(
                0,
                r.index_entries().len() as int,
            ),
            forall|rs: Seq<RecordView>| #[trigger] encode_all(rs) == log@ && segment_shaped(rs, base_offset)
                ==> r.records() == rs,
    {
        let mut pos: usize = 0;
        let mut count: u64 = 0;
        let ghost mut rs: Seq<RecordView> = Seq::empty();
        let mut done = false;
        let mut kept: Vec<u8> = Vec::new();
        let mut starts: Vec<u64> = Vec::new();
        while !done && pos < log.len() && count < u64::MAX - base_offset
            invariant
                pos <= log@.len(),
                kept@ == log@.subrange(0, pos as int),
                kept@ == encode_all(rs),
                count == rs.len(),
                base_offset + count <= u64::MAX,
                starts@.len() == count,
                forall|i: int| 0 <= i < count ==> #[trigger] starts@[i] == record_start(rs, i),
                forall|i: int|
                    0 <= i < rs.len() ==> (#[trigger] rs[i]).offset == base_offset + i
                        && stored_record(rs[i]),
                done ==> !starts_with_stored_record(
                    log@.subrange(pos as int, log@.len() as int),
                    (base_offset + count) as u64,
                ),
            decreases log@.len() - pos + (if done { 0int } else { 1int }),
        {
            let rest = vstd::slice::slice_subrange(log, pos, log.len());
            match recognize_record(rest, base_offset + count) {
                Some((rec, used)) => {
                    let piece = crate::bytes_be::copy_range(rest, 0, used);
                    starts.push(pos as u64);
                    let ghost old_rs = rs;
                    proof {
                        rs = rs.push(rec@);
                        assert(rs.drop_last() =~= old_rs);
                        assert(rest@.subrange(0, used as int) =~= log@.subrange(
                            pos as int,
                            pos + used,
                        ));
                        assert(rs.subrange(0, count as int) =~= old_rs);
                        assert forall|i: int| 0 <= i < count implies #[trigger] starts@[i]
                            == record_start(rs, i) by {
                            assert(rs.subrange(0, i) =~= old_rs.subrange(0, i));
                        }
                        assert(old_rs.subrange(0, old_rs.len() as int) =~= old_rs);
                    }
                    crate::bytes_be::extend_bytes(&mut kept, piece.as_slice());
                    pos = pos + used;
                    proof {
                        assert(kept@ =~= log@.subrange(0, pos as int));
                    }
                    count = count + 1;
                },
                None => {
                    done = true;
                },
            }
        }
        let size = kept.len() as u64;
        let parsed = OffsetIndex::open(index_bytes);
        let entries = parsed.entries();
        let mut index = OffsetIndex::create();
        let mut j: usize = 0;
        let mut stop = false;
        let mut last: u64 = 0;
        while j < entries.len() && !stop
            invariant
                j <= entries@.len(),
                entries@ == parse_entries(index_bytes@),
                index@ == entries@.subrange(0, j as int),
                index@.len() > 0 ==> last == index@.last().0,
                index_sorted(index@),
                index@.len() > 0 ==> index@.last().0 < base_offset + count,
                forall|x: int|
                    0 <= x < index@.len() ==> {
                        &&& base_offset <= (#[trigger] index@[x]).0 < base_offset + count
                        &&& index@[x].1 == record_start(rs, index@[x].0 - base_offset)
                    },
                starts@.len() == count,
                forall|i: int| 0 <= i < count ==> #[trigger] starts@[i] == record_start(rs, i),
            decreases entries@.len() - j + (if stop { 0int } else { 1int }),
        {
            let (o, p) = entries[j];
            if (index.size() == 0 || last < o) && base_offset <= o && o - base_offset < count
                && p == starts[(o - base_offset) as usize] {
                let ghost before = index@;
                proof {
                    let idx = (o - base_offset) as int;
                    assert(starts@.len() == starts.len());
                    assert(idx < starts@.len());
                    assert(starts@[idx] == record_start(rs, idx));
                }
                index.append(o, p);
                last = o;
                j = j + 1;
                proof {
                    assert(index@ =~= entries@.subrange(0, j as int));
                    assert(p == record_start(rs, o - base_offset));
                    assert forall|x: int| 0 <= x < index@.len() implies {
                        &&& base_offset <= (#[trigger] index@[x]).0 < base_offset + count
                        &&& index@[x].1 == record_start(rs, index@[x].0 - base_offset)
                    } by {
                        if x < before.len() {
                            assert(index@[x] == before[x]);
                        }
                    }
                }
            } else {
                stop = true;
            }
        }
        proof {
            assert forall|all: Seq<RecordView>| #[trigger] encode_all(all) == log@ && segment_shaped(all, base_offset)
                implies rs == all by {
                lemma_recovered(rs, all, base_offset, log@, pos as int, done);
            }
        }
        LogSegment {
            base_offset,
            log: kept,
            index,
            size,
            next_offset: base_offset + count,
            config,
            records_since_index: 0,
            records: Ghost(rs),
        }
    }

    /// The position in the log where the record at `offset` starts,
    /// according to the index (0 when no entry is at or before it).
    fn start_position(&self, offset: u64) -> (r: usize)
        requires
            self.wf(),
            self.base_offset <= offset < self.next_offset,
        ensures
            exists|k: int|
                0 <= k <= offset - self.base_offset && r == record_start(self.records@, k),
    {
        let p = self.index.lookup(offset);
        let loglen = self.log.len();
        proof {
            if let Some(pos) = p {
                let j = choose|j: int|
                    0 <= j < self.index@.len() && #[trigger] self.index@[j].0 <= offset
                        && self.index@[j].1 == pos;
                let k = self.index@[j].0 - self.base_offset;
                lemma_record_start_mono(self.records@, k, self.records@.len() as int);
                assert(self.records@.subrange(0, self.records@.len() as int) =~= self.records@);
                assert(0 <= k <= offset - self.base_offset && pos == record_start(self.records@, k));
            } else {
                assert(self.records@.subrange(0, 0) =~= Seq::<RecordView>::empty());
                assert(0 == record_start(self.records@, 0));
            }
        }
        match p {
            Some(pos) => {
                assert(pos <= loglen);
                pos as usize
            },
            None => 0,
        }
    }

    /// Appends messages; returns the offset given to the first one.
    ///
    /// Each message becomes a record at the next offset, its value
    /// compressed with the configured algorithm; an index entry is added
    /// for a record whenever `index_interval` records have gone by since
    /// the last one. Refuses an empty batch. A batch is written whole or not
    /// at all: at the first message the segment cannot store, the result is
    /// a compression error when the algorithm fails on it, and an
    /// invalid-message error when its record would not fit the format.
    pub fn append(&mut self, messages: Vec<Message>) -> (r: Result<u64>)
        requires
            old(self).wf(),
            old(self).spec_next_offset() + messages@.len() <= u64::MAX,
            forall|i: int|
                0 <= i < messages@.len() ==> compressible_len(
                    (#[trigger] messages@[i]).value@.len(),
                    old(self).spec_config().compression,
                ),
        ensures
            final(self).wf(),
            final(self).spec_base_offset() == old(self).spec_base_offset(),
            final(self).spec_config() == old(self).spec_config(),
            messages@.len() == 0 ==> r matches Err(GaffaError::InvalidMessage(_)),
            r is Err ==> final(self).records() == old(self).records(),
            messages@.len() > 0 ==> (r is Ok <==> all_storable(
                messages@,
                old(self).spec_config().compression,
            )),
            r is Ok ==> r == Ok::<u64, GaffaError>(old(self).spec_next_offset() as u64),
            r is Ok ==> final(self).records() == old(self).records() + Seq::new(
                messages@.len(),
                |i: int|
                    record_of(
                        (old(self).spec_next_offset() + i) as u64,
                        messages@[i],
                        old(self).spec_config().compression,
                    ),
            ),
            messages@.len() > 0 ==> (r matches Err(e) ==> exists|i: int|
                #![trigger messages@[i]]
                {
                    let c = old(self).spec_config().compression;
                    &&& 0 <= i < messages@.len()
                    &&& !storable(messages@[i], c)
                    &&& all_storable(messages@.subrange(0, i), c)
                    &&& compressed_bytes(messages@[i].value@, c) is None ==> e is Compression
                    &&& compressed_bytes(messages@[i].value@, c) is Some ==> e is InvalidMessage
                }),
    {
        if messages.len() == 0 {
            return Err(GaffaError::InvalidMessage(String::from_str("No messages to append")));
        }
        let compression = self.config.compression;
        let base_offset = self.next_offset;
        let ghost old_records = self.records@;
        let ghost new_records = Seq::new(
            messages@.len(),
            |i: int| record_of((base_offset + i) as u64, messages@[i], compression),
        );
        let n = messages.len();
        let mut msgs = messages;
        let ghost all = msgs@;
        let mut pending: Vec<Message> = Vec::new();
        while msgs.len() > 0
            invariant
                msgs@ == all.subrange(0, msgs@.len() as int),
                msgs@.len() <= all.len(),
                pending@.len() == all.len() - msgs@.len(),
                forall|j: int| 0 <= j < pending@.len() ==> #[trigger] pending@[j] == all[all.len() - 1 - j],
            decreases msgs@.len(),
        {
            let m = msgs.pop().unwrap();
            pending.push(m);
        }
        let mut encodings: Vec<Vec<u8>> = Vec::new();
        let mut i: usize = 0;
        while i < n
            invariant
                pending@.len() == n - i,
                forall|j: int| 0 <= j < pending@.len() ==> #[trigger] pending@[j] == all[n - 1 - j],
                n == all.len(),
                all == messages@,
                i <= n,
                encodings@.len() == i,
                forall|j: int|
                    0 <= j < i ==> (#[trigger] encodings@[j])@ == record_bytes(new_records[j])
                        && stored_record(new_records[j]),
                all_storable(all.subrange(0, i as int), compression),
                self.wf(),
                self.records@ == old_records,
                self.base_offset == old(self).base_offset,
                self.config == old(self).config,
                compression == self.config.compression,
                base_offset == old(self).spec_next_offset(),
                base_offset + n <= u64::MAX,
                forall|j: int| 0 <= j < n ==> compressible_len((#[trigger] all[j]).value@.len(), compression),
                new_records == Seq::new(n as nat, |j: int| record_of((base_offset + j) as u64, all[j], compression)),
            decreases n - i,
        {
            let message = pending.pop().unwrap();
            assert(message == all[i as int]);
            let record = DiskRecord::new_with_compression(base_offset + i as u64, message, compression);
            let ghost rv = new_records[i as int];
            assert(record@ == rv) by {
                assert(record@.key == opt_seq(all[i as int].key));
            }
            let encoded = match record.encode() {
                Ok(e) => e,
                Err(e) => {
                    proof {
                        assert(!storable(all[i as int], compression));
                        assert(!all_storable(all, compression));
                    }
                    return Err(e);
                },
            };
            let ghost z = stored_form(rv);
            proof {
                lemma_encoded_len(rv, z);
            }
            if !(key_fits(&record.key) && (encoded.len() as u128) <= 0xFFFF_FFFFu128 + 12 && (
            compression != CompressionType::Lz4 || record.value.len() <= 0xFFFF_FFFFusize)) {
                proof {
                    assert(!storable(all[i as int], compression));
                    assert(!all_storable(all, compression));
                }
                return Err(GaffaError::InvalidMessage(String::from_str("Record too large for the log format")));
            }
            proof {
                lemma_decode_frame(rv, z, Seq::empty());
                assert(encoded@ + Seq::<u8>::empty() =~= encoded@);
                reveal(stored_record);
                assert(stored_record(rv));
                assert(storable(all[i as int], compression));
                assert(all.subrange(0, i + 1) =~= all.subrange(0, i as int).push(all[i as int]));
            }
            encodings.push(encoded);
            i = i + 1;
        }
        let mut current_position: u64 = self.size;
        let mut k: usize = 0;
        while k < n
            invariant
                n == all.len(),
                k <= n,
                encodings@.len() == n,
                forall|j: int|
                    0 <= j < n ==> (#[trigger] encodings@[j])@ == record_bytes(new_records[j])
                        && stored_record(new_records[j]),
                self.wf(),
                self.base_offset == old(self).base_offset,
                self.config == old(self).config,
                self.records@ == old_records + new_records.subrange(0, k as int),
                self.next_offset == base_offset + k,
                current_position == self.size,
                base_offset == old(self).spec_next_offset(),
                base_offset + n <= u64::MAX,
                new_records == Seq::new(n as nat, |j: int| record_of((base_offset + j) as u64, all[j], compression)),
            decreases n - k,
        {
            let ghost rv = new_records[k as int];
            assert(rv.offset == self.next_offset);
            if self.records_since_index >= self.config.index_interval {
                proof {
                    lemma_record_start_mono(self.records@, 0, self.records@.len() as int);
                    assert(self.records@.subrange(0, self.records@.len() as int) =~= self.records@);
                }
                self.index.append(self.next_offset, current_position);
                self.records_since_index = 0;
            }
            let ghost prev = self.records@;
            crate::bytes_be::extend_bytes(&mut self.log, encodings[k].as_slice());
            proof {
                assert(prev.subrange(0, prev.len() as int) =~= prev);
                let nr = prev.push(rv);
                assert(nr.drop_last() =~= prev);
                self.records = Ghost(nr);
                assert(new_records.subrange(0, k + 1) =~= new_records.subrange(0, k as int).push(rv));
                assert(self.records@ =~= old_records + new_records.subrange(0, k + 1));
                assert forall|j: int| 0 <= j < self.index@.len() implies #[trigger] self.index@[j].1
                    == record_start(self.records@, self.index@[j].0 - self.base_offset) by {
                    let x = self.index@[j].0 - self.base_offset;
                    assert(self.records@.subrange(0, x) =~= prev.subrange(0, x));
                }
            }
            current_position = self.log.len() as u64;
            self.size = current_position;
            self.next_offset = self.next_offset + 1;
            self.records_since_index = self.records_since_index + 1;
            k = k + 1;
        }
        proof {
            assert(new_records.subrange(0, n as int) =~= new_records);
            assert(all.subrange(0, n as int) =~= all);
        }
        Ok(base_offset)
    }

    /// Reads the record at `offset`: from the indexed position at or before
    /// it, scans the log forward.
    #[verifier::rlimit(40)]
    pub fn read(&self, offset: u64) -> (r: Result<DiskRecord>)
        requires
            self.wf(),
        ensures
            self.spec_base_offset() <= offset < self.spec_next_offset() ==> (r matches Ok(rec)
                && rec@ == self.records()[offset - self.spec_base_offset()]),
            !(self.spec_base_offset() <= offset < self.spec_next_offset()) ==> r == Err::<
                DiskRecord,
                GaffaError,
            >(GaffaError::InvalidOffset(offset)),
    {
        if offset < self.base_offset {
            return Err(GaffaError::InvalidOffset(offset));
        }
        if offset >= self.next_offset {
            return Err(GaffaError::InvalidOffset(offset));
        }
        let target = Ghost((offset - self.base_offset) as int);
        let mut position = self.start_position(offset);
        let ghost mut k: int = choose|k: int|
            0 <= k <= offset - self.base_offset && position == record_start(self.records@, k);
        let log = self.log.as_slice();
        let ghost rs = self.records@;
        let ghost base = self.base_offset;
        assert forall|i: int| 0 <= i < rs.len() implies (#[trigger] rs[i]).offset == base + i && stored_record(rs[i]) by {
            assert(self.records@[i].offset == self.base_offset + i);
        }
        loop
            invariant
                log@ == encode_all(rs),
                rs == self.records@,
                base == self.base_offset,
                forall|i: int| 0 <= i < rs.len() ==> (#[trigger] rs[i]).offset == base + i && stored_record(rs[i]),
                target@ == offset - self.base_offset,
                0 <= target@ < self.records@.len(),
                0 <= k <= target@,
                position == record_start(self.records@, k),
            decreases target@ - k,
        {
            proof {
                lemma_decode_at(rs, k);
            }
            let rest = vstd::slice::slice_subrange(log, position, log.len());
            let (record, used) = match DiskRecord::decode_prefix(rest) {
                Ok(x) => x,
                Err(e) => {
                    assert(false);
                    return Err(e);
                },
            };
            if record.offset == offset {
                return Ok(record);
            }
            if record.offset > offset {
                assert(false);
                return Err(GaffaError::InvalidOffset(offset));
            }
            position = position + used;
            proof {
                k = k + 1;
            }
        }
    }

    /// Reads up to `max_count` records, starting at `start_offset`.
    #[verifier::rlimit(100)]
    pub fn read_batch(&self, start_offset: u64, max_count: u32) -> (r: Result<Vec<DiskRecord>>)
        requires
            self.wf(),
        ensures
            start_offset < self.spec_base_offset() ==> r == Err::<Vec<DiskRecord>, GaffaError>(
                GaffaError::InvalidOffset(start_offset),
            ),
            start_offset >= self.spec_base_offset() ==> (r matches Ok(v) && ({
                let from = start_offset - self.spec_base_offset();
                let n = self.records().len();
                let to = if from + max_count < n { from + max_count } else { n as int };
                &&& from >= n ==> v@.len() == 0
                &&& from < n ==> v@.len() == to - from && forall|i: int|
                    0 <= i < v@.len() ==> (#[trigger] v@[i])@ == self.records()[from + i]
            })),
    {
        if start_offset < self.base_offset {
            return Err(GaffaError::InvalidOffset(start_offset));
        }
        let mut records: Vec<DiskRecord> = Vec::new();
        if start_offset >= self.next_offset {
            return Ok(records);
        }
        let ghost from = (start_offset - self.base_offset) as int;
        let ghost n = self.records@.len() as int;
        let mut position = self.start_position(start_offset);
        let ghost mut k: int = choose|k: int|
            0 <= k <= start_offset - self.base_offset && position == record_start(self.records@, k);
        let log = self.log.as_slice();
        let ghost rs = self.records@;
        let ghost base = self.base_offset;
        assert forall|i: int| 0 <= i < rs.len() implies (#[trigger] rs[i]).offset == base + i && stored_record(rs[i]) by {
            assert(self.records@[i].offset == self.base_offset + i);
        }
        let mut found_start = false;
        let mut at_end = false;
        while records.len() < max_count as usize && !at_end
            invariant
                log@ == encode_all(rs),
                rs == self.records@,
                base == self.base_offset,
                forall|i: int| 0 <= i < rs.len() ==> (#[trigger] rs[i]).offset == base + i && stored_record(rs[i]),
                from == start_offset - self.base_offset,
                n == self.records@.len(),
                0 <= from < n,
                0 <= k <= n,
                !at_end ==> position == record_start(self.records@, k),
                at_end ==> k == n,
                k <= from ==> records@.len() == 0,
                k > from ==> records@.len() == k - from,
                forall|i: int| 0 <= i < records@.len() ==> (#[trigger] records@[i])@ == self.records@[from + i],
                records@.len() <= max_count,
            decreases n - k + (if at_end { 0int } else { 1int }),
        {
            proof {
                if k < n {
                    lemma_decode_at(rs, k);
                } else {
                    lemma_decode_at_end(rs);
                }
            }
            let rest = vstd::slice::slice_subrange(log, position, log.len());
            match DiskRecord::decode_prefix(rest) {
                Ok((record, used)) => {
                    position = position + used;
                    if record.offset >= start_offset {
                        found_start = true;
                        records.push(record);
                    }
                    proof {
                        k = k + 1;
                    }
                },
                Err(_) => {
                    at_end = true;
                },
            }
        }
        Ok(records)
    }

    /// The offset of the first record.
    pub fn base_offset(&self) -> (r: u64)
        ensures
            r == self.spec_base_offset(),
    {
        self.base_offset
    }

    /// The offset the next record will get.
    pub fn next_offset(&self) -> (r: u64)
        requires
            self.wf(),
        ensures
            r == self.spec_next_offset(),
    {
        self.next_offset
    }

    /// The size of the log in bytes.
    pub fn size(&self) -> (r: u64)
        requires
            self.wf(),
        ensures
            r == self.log_bytes().len(),
    {
        self.size
    }

    /// Whether the segment has reached its maximum size.
    pub fn should_rotate(&self) -> (r: bool)
        requires
            self.wf(),
        ensures
            r == (self.log_bytes().len() >= self.spec_config().max_size),
    {
        self.size >= self.config.max_size
    }

    /// The bytes of the log file.
    pub fn log_contents(&self) -> (r: &[u8])
        ensures
            r@ == self.log_bytes(),
    {
        self.log.as_slice()
    }

    /// The bytes of the index file.
    pub fn index_contents(&self) -> (r: Vec<u8>)
        ensures
            parse_entries(r@) == self.index_entries(),
    {
        let r = self.index.to_bytes();
        proof {
            crate::index::lemma_parse_index_bytes(self.index@);
        }
        r
    }
}

} // verus!
