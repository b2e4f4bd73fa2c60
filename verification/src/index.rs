//! The sparse offset index of a log segment: `(offset, position)` pairs,
//! each stored as sixteen big-endian bytes.
use vstd::prelude::*;
use crate::bytes_be::{u64_be_bytes, u64_from_be, push_u64_be, read_u64_be, lemma_u64_be_roundtrip,
    lemma_u64_from_be_prefix};

verus! {

/// Size of each index entry (8 bytes offset + 8 bytes position).
pub const INDEX_ENTRY_SIZE: usize = 16;

/// An offset index: the logical offset of some records of a segment,
/// each with the byte position of the record in the segment.
#[derive(Debug, Clone)]
pub struct OffsetIndex {
    entries: Vec<(u64, u64)>,
}

/// Offsets never decrease along the index.
pub open spec fn index_sorted(e: Seq<(u64, u64)>) -> bool {
    forall|i: int, j: int| 0 <= i <= j < e.len() ==> #[trigger] e[i].0 <= #[trigger] e[j].0
}

/// The position of the last entry whose offset is at most `target`.
pub open spec fn floor_position(e: Seq<(u64, u64)>, target: u64) -> Option<u64>
    decreases e.len(),
{
    if e.len() == 0 {
        None
    } else if e.last().0 <= target {
        Some(e.last().1)
    } else {
        floor_position(e.drop_last(), target)
    }
}

/// The bytes of one entry.
pub open spec fn entry_bytes(e: (u64, u64)) -> Seq<u8> {
    u64_be_bytes(e.0) + u64_be_bytes(e.1)
}

/// The bytes of a whole index file.
pub open spec fn index_bytes(e: Seq<(u64, u64)>) -> Seq<u8>
    decreases e.len(),
{
    if e.len() == 0 {
        Seq::empty()
    } else {
        index_bytes(e.drop_last()) + entry_bytes(e.last())
    }
}

/// The entries stored in the bytes of an index file; a partial entry at
/// the end is ignored.
pub open spec fn parse_entries(b: Seq<u8>) -> Seq<(u64, u64)> {
    Seq::new(
        b.len() / 16,
        |i: int|
            (
                u64_from_be(b.subrange(16 * i, b.len() as int)),
                u64_from_be(b.subrange(16 * i + 8, b.len() as int)),
            ),
    )
}

/// When every entry from `k` on is past `target` and the entry before `k`
/// (if any) is not, the floor is the entry before `k`.
proof fn lemma_floor_at(e: Seq<(u64, u64)>, target: u64, k: int)
    requires
        0 <= k <= e.len(),
        forall|i: int| k <= i < e.len() ==> #[trigger] e[i].0 > target,
        k > 0 ==> e[k - 1].0 <= target,
    ensures
        floor_position(e, target) == if k == 0 {
            None::<u64>
        } else {
            Some(e[k - 1].1)
        },
    decreases e.len(),
{
    if e.len() == 0 {
    } else if e.len() == k {
    } else {
        assert(e.last().0 > target);
        let d = e.drop_last();
        assert forall|i: int| k <= i < d.len() implies #[trigger] d[i].0 > target by {
            assert(d[i] == e[i]);
        }
        if k > 0 {
            assert(d[k - 1] == e[k - 1]);
        }
        lemma_floor_at(d, target, k);
    }
}

/// The floor position, when there is one, belongs to an entry at or
/// before `target`.
proof fn lemma_floor_is_entry(e: Seq<(u64, u64)>, target: u64)
    ensures
        floor_position(e, target) matches Some(p) ==> exists|i: int|
            0 <= i < e.len() && #[trigger] e[i].0 <= target && e[i].1 == p,
    decreases e.len(),
{
    if e.len() > 0 && e.last().0 > target {
        let d = e.drop_last();
        lemma_floor_is_entry(d, target);
        if let Some(p) = floor_position(d, target) {
            let i = choose|i: int| 0 <= i < d.len() && #[trigger] d[i].0 <= target && d[i].1 == p;
            assert(e[i] == d[i]);
        }
    } else if e.len() > 0 {
        assert(e[e.len() - 1].0 <= target);
    }
}

proof fn lemma_index_bytes_len(e: Seq<(u64, u64)>)
    ensures
        index_bytes(e).len() == 16 * e.len(),
    decreases e.len(),
{
    if e.len() > 0 {
        lemma_index_bytes_len(e.drop_last());
        lemma_u64_be_roundtrip(e.last().0);
        lemma_u64_be_roundtrip(e.last().1);
    }
}

/// Reading back the bytes of an index gives its entries.
pub proof fn lemma_parse_index_bytes(e: Seq<(u64, u64)>)
    ensures
        parse_entries(index_bytes(e)) =~= e,
    decreases e.len(),
{
    lemma_index_bytes_len(e);
    if e.len() > 0 {
        let d = e.drop_last();
        lemma_parse_index_bytes(d);
        lemma_index_bytes_len(d);
        let b = index_bytes(e);
        let bd = index_bytes(d);
        let last = entry_bytes(e.last());
        lemma_u64_be_roundtrip(e.last().0);
        lemma_u64_be_roundtrip(e.last().1);
        assert(b == bd + last);
        assert forall|i: int| 0 <= i < e.len() implies #[trigger] parse_entries(b)[i] == e[i] by {
            if i < d.len() {
                assert(b.subrange(16 * i, b.len() as int).subrange(0, 8) =~= bd.subrange(
                    16 * i,
                    bd.len() as int,
                ).subrange(0, 8));
                lemma_u64_from_be_prefix(
                    b.subrange(16 * i, b.len() as int),
                    bd.subrange(16 * i, bd.len() as int),
                );
                assert(b.subrange(16 * i + 8, b.len() as int).subrange(0, 8) =~= bd.subrange(
                    16 * i + 8,
                    bd.len() as int,
                ).subrange(0, 8));
                lemma_u64_from_be_prefix(
                    b.subrange(16 * i + 8, b.len() as int),
                    bd.subrange(16 * i + 8, bd.len() as int),
                );
                assert(parse_entries(bd)[i] == d[i]);
            } else {
                let x = u64_be_bytes(e.last().0);
                let y = u64_be_bytes(e.last().1);
                assert(b.subrange(16 * i, b.len() as int).subrange(0, 8) =~= x.subrange(0, 8));
                lemma_u64_from_be_prefix(b.subrange(16 * i, b.len() as int), x);
                assert(b.subrange(16 * i + 8, b.len() as int).subrange(0, 8) =~= y.subrange(0, 8));
                lemma_u64_from_be_prefix(b.subrange(16 * i + 8, b.len() as int), y);
            }
        }
    }
}

impl View for OffsetIndex {
    type V = Seq<(u64, u64)>;

    closed spec fn view(&self) -> Seq<(u64, u64)> {
        self.entries@
    }
}

impl OffsetIndex {
    /// A new, empty index.
    pub fn create() -> (r: Self)
        ensures
            r@ == Seq::<(u64, u64)>::empty(),
    {
        OffsetIndex { entries: Vec::new() }
    }

    /// The index stored in the bytes of an index file.
    pub fn open(bytes: &[u8]) -> (r: Self)
        ensures
            r@ == parse_entries(bytes@),
    {
        let size = bytes.len() / INDEX_ENTRY_SIZE;
        let mut entries: Vec<(u64, u64)> = Vec::new();
        let mut i: usize = 0;
        while i < size
            invariant
                size == bytes@.len() / 16,
                i <= size,
                entries@ =~= parse_entries(bytes@).subrange(0, i as int),
            decreases size - i,
        {
            assert(i * 16 + 16 <= bytes@.len()) by (nonlinear_arith)
                requires
                    i < size,
                    size == bytes@.len() / 16,
            ;
            assert(bytes@.len() == bytes.len());
            let pos: usize = i * 16;
            let offset = read_u64_be(bytes, pos);
            let position = read_u64_be(bytes, pos + 8);
            entries.push((offset, position));
            i = i + 1;
        }
        OffsetIndex { entries }
    }

    /// Adds an entry at the end of the index.
    pub fn append(&mut self, offset: u64, position: u64)
        ensures
            final(self)@ == old(self)@.push((offset, position)),
    {
        self.entries.push((offset, position));
    }

    /// The bytes to add to the index file for an entry.
    pub fn entry_to_bytes(offset: u64, position: u64) -> (r: Vec<u8>)
        ensures
            r@ == entry_bytes((offset, position)),
    {
        let mut r: Vec<u8> = Vec::new();
        push_u64_be(&mut r, offset);
        push_u64_be(&mut r, position);
        r
    }

    /// The bytes of the whole index file.
    pub fn to_bytes(&self) -> (r: Vec<u8>)
        ensures
            r@ == index_bytes(self@),
    {
        let mut r: Vec<u8> = Vec::new();
        let mut i: usize = 0;
        while i < self.entries.len()
            invariant
                i <= self@.len(),
                r@ == index_bytes(self@.subrange(0, i as int)),
            decreases self@.len() - i,
        {
            let (o, p) = self.entries[i];
            push_u64_be(&mut r, o);
            push_u64_be(&mut r, p);
            proof {
                let s = self@.subrange(0, i + 1);
                assert(s.drop_last() =~= self@.subrange(0, i as int));
            }
            i = i + 1;
        }
        assert(self@.subrange(0, self@.len() as int) =~= self@);
        r
    }

    /// Looks up the position for `target_offset`: by binary search, the
    /// position of the last entry whose offset is at most the target.
    ///
    /// On an index whose offsets never decrease this is `floor_position`;
    /// on any index the position found belongs to an entry at or before the
    /// target.
    pub fn lookup(&self, target_offset: u64) -> (r: Option<u64>)
        ensures
            index_sorted(self@) ==> r == floor_position(self@, target_offset),
            r matches Some(p) ==> exists|i: int|
                0 <= i < self@.len() && #[trigger] self@[i].0 <= target_offset && self@[i].1 == p,
    {
        let size = self.entries.len();
        if size == 0 {
            return None;
        }
        let mut left: usize = 0;
        let mut right: usize = size;
        let mut result_position: Option<u64> = None;
        while left < right
            invariant
                size == self@.len(),
                0 <= left <= right <= size,
                index_sorted(self@) ==> forall|i: int| 0 <= i < left ==> #[trigger] self@[i].0
                    <= target_offset,
                index_sorted(self@) ==> forall|i: int| right <= i < size ==> #[trigger] self@[i].0
                    > target_offset,
                index_sorted(self@) ==> result_position == if left == 0 {
                    None::<u64>
                } else {
                    Some(self@[left - 1].1)
                },
                result_position matches Some(p) ==> exists|i: int|
                    0 <= i < self@.len() && #[trigger] self@[i].0 <= target_offset && self@[i].1
                        == p,
            decreases right - left,
        {
            let mid = left + (right - left) / 2;
            let entry_offset = self.entries[mid].0;
            if entry_offset <= target_offset {
                result_position = Some(self.entries[mid].1);
                left = mid + 1;
            } else {
                right = mid;
            }
        }
        proof {
            if index_sorted(self@) {
                lemma_floor_at(self@, target_offset, left as int);
            }
        }
        result_position
    }

    /// The number of entries.
    pub fn size(&self) -> (r: usize)
        ensures
            r == self@.len(),
    {
        self.entries.len()
    }

    /// All entries, in order.
    pub fn entries(&self) -> (r: Vec<(u64, u64)>)
        ensures
            r@ == self@,
    {
        let mut r: Vec<(u64, u64)> = Vec::new();
        let mut i: usize = 0;
        while i < self.entries.len()
            invariant
                i <= self@.len(),
                r@ == self@.subrange(0, i as int),
            decreases self@.len() - i,
        {
            r.push(self.entries[i]);
            i = i + 1;
            assert(r@ =~= self@.subrange(0, i as int));
        }
        assert(self@.subrange(0, self@.len() as int) =~= self@);
        r
    }
}

} // verus!
