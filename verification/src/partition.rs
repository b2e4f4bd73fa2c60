//! An in-memory partition: the records of one partition of a topic.
use vstd::prelude::*;
use crate::error::{GaffaError, Result};
use crate::messages::{Message, MessageView, Record, RecordEntry};

verus! {

/// The records of one partition of a topic, held in memory.
#[derive(Debug)]
pub struct Partition {
    partition_id: u32,
    topic_name: String,
    messages: Vec<Record>,
}

/// The entry a partition stores for a message at `offset`.
pub open spec fn entry_of(topic: Seq<char>, partition: u32, offset: u64, m: MessageView) -> RecordEntry {
    RecordEntry { topic, partition, offset, message: m }
}

/// Everything a partition holds: its number, its topic and its records.
pub struct PartitionState {
    pub id: u32,
    pub topic: Seq<char>,
    pub records: Seq<RecordEntry>,
}

/// A well-formed partition state: each record carries the topic, the
/// partition and its own position as offset.
pub open spec fn partition_state_wf(s: PartitionState) -> bool {
    forall|i: int|
        0 <= i < s.records.len() ==> #[trigger] s.records[i] == entry_of(s.topic, s.id, i as u64, s.records[i].message)
            && i <= u64::MAX
}

/// The messages of a partition state, in offset order.
pub open spec fn state_messages(s: PartitionState) -> Seq<MessageView> {
    Seq::new(s.records.len(), |i: int| s.records[i].message)
}

impl Partition {
    /// The messages stored, in offset order.
    pub closed spec fn stored(&self) -> Seq<MessageView> {
        Seq::new(self.messages@.len(), |i: int| self.messages@[i]@.message)
    }

    /// The partition number.
    pub closed spec fn spec_partition_id(&self) -> u32 {
        self.partition_id
    }

    /// The topic name.
    pub closed spec fn spec_topic(&self) -> Seq<char> {
        self.topic_name@
    }

    /// The record that the partition hands out for offset `i`.
    pub open spec fn entry(&self, i: int) -> RecordEntry {
        entry_of(self.spec_topic(), self.spec_partition_id(), i as u64, self.stored()[i])
    }

    /// The partition's invariant: each record carries the topic, the
    /// partition and its own position as offset.
    pub closed spec fn wf(&self) -> bool {
        forall|i: int|
            0 <= i < self.messages@.len() ==> (#[trigger] self.messages@[i])@ == entry_of(
                self.topic_name@,
                self.partition_id,
                i as u64,
                self.messages@[i]@.message,
            ) && i <= u64::MAX
    }

    /// Everything the partition holds.
    pub closed spec fn state(&self) -> PartitionState {
        PartitionState {
            id: self.partition_id,
            topic: self.topic_name@,
            records: self.messages@.map_values(|r: Record| r@),
        }
    }

    /// The partition's invariant and contents, read off its state.
    pub proof fn lemma_state(&self)
        ensures
            self.wf() <==> partition_state_wf(self.state()),
            state_messages(self.state()) == self.stored(),
            self.state().id == self.spec_partition_id(),
            self.state().topic == self.spec_topic(),
    {
        let s = self.state();
        assert(state_messages(s) =~= self.stored());
        if self.wf() {
            assert forall|i: int| 0 <= i < s.records.len() implies #[trigger] s.records[i] == entry_of(
                s.topic,
                s.id,
                i as u64,
                s.records[i].message,
            ) && i <= u64::MAX by {
                assert(s.records[i] == self.messages@[i]@);
            }
        }
        if partition_state_wf(s) {
            assert forall|i: int| 0 <= i < self.messages@.len() implies (#[trigger] self.messages@[i])@ == entry_of(
                self.topic_name@,
                self.partition_id,
                i as u64,
                self.messages@[i]@.message,
            ) && i <= u64::MAX by {
                assert(s.records[i] == self.messages@[i]@);
            }
        }
    }

    /// A copy of the partition.
    pub fn duplicate(&self) -> (r: Self)
        ensures
            r.state() == self.state(),
    {
        let mut messages: Vec<Record> = Vec::new();
        let mut i: usize = 0;
        while i < self.messages.len()
            invariant
                i <= self.messages@.len(),
                messages@.len() == i,
                forall|j: int| 0 <= j < i ==> (#[trigger] messages@[j])@ == self.messages@[j]@,
            decreases self.messages@.len() - i,
        {
            messages.push(self.messages[i].duplicate());
            i = i + 1;
        }
        let r = Partition { partition_id: self.partition_id, topic_name: self.topic_name.clone(), messages };
        assert(r.state().records =~= self.state().records);
        r
    }

    /// An empty partition.
    pub fn new(topic_name: String, partition_id: u32) -> (r: Self)
        ensures
            r.wf(),
            r.stored() == Seq::<MessageView>::empty(),
            r.spec_partition_id() == partition_id,
            r.spec_topic() == topic_name@,
    {
        let r = Partition { partition_id, topic_name, messages: Vec::new() };
        assert(r.stored() =~= Seq::<MessageView>::empty());
        r
    }

    /// Appends messages; returns the offset given to the first one.
    /// Refuses an empty batch, and a batch whose offsets would not fit 64
    /// bits.
    pub fn append(&mut self, messages: Vec<Message>) -> (r: Result<u64>)
        requires
            old(self).wf(),
        ensures
            final(self).wf(),
            final(self).spec_partition_id() == old(self).spec_partition_id(),
            final(self).spec_topic() == old(self).spec_topic(),
            messages@.len() == 0 ==> r matches Err(GaffaError::InvalidMessage(_)),
            messages@.len() == 0 ==> final(self).stored() == old(self).stored(),
            old(self).stored().len() + messages@.len() > u64::MAX + 1 ==> r matches Err(
                GaffaError::InvalidMessage(_),
            ),
            old(self).stored().len() + messages@.len() > u64::MAX + 1 ==> final(self).stored()
                == old(self).stored(),
            0 < messages@.len() && old(self).stored().len() + messages@.len() <= u64::MAX + 1
                ==> r == Ok::<u64, GaffaError>(old(self).stored().len() as u64),
            0 < messages@.len() && old(self).stored().len() + messages@.len() <= u64::MAX + 1
                ==> final(self).stored() == old(self).stored() + Seq::new(
                messages@.len(),
                |i: int| messages@[i]@,
            ),
    {
        if messages.len() == 0 {
            return Err(GaffaError::InvalidMessage(String::from_str("No messages to append")));
        }
        proof {
            if self.messages@.len() > 0 {
                let k = self.messages@.len() - 1;
                assert(self.messages@[k]@ == entry_of(
                    self.topic_name@,
                    self.partition_id,
                    k as u64,
                    self.messages@[k]@.message,
                ));
            }
        }
        if self.messages.len() as u128 + messages.len() as u128 > 0x1_0000_0000_0000_0000u128 {
            return Err(GaffaError::InvalidMessage(String::from_str("Partition offsets exhausted")));
        }
        let base_offset = self.messages.len() as u64;
        let ghost before = self.stored();
        let mut i: usize = 0;
        while i < messages.len()
            invariant
                i <= messages@.len(),
                self.wf(),
                self.partition_id == old(self).partition_id,
                self.topic_name@ == old(self).topic_name@,
                base_offset == before.len(),
                before.len() + messages@.len() <= u64::MAX + 1,
                self.stored() == before + Seq::new(i as nat, |j: int| messages@[j]@),
                self.messages@.len() == before.len() + i,
            decreases messages@.len() - i,
        {
            let record = Record {
                topic: self.topic_name.clone(),
                partition: self.partition_id,
                offset: base_offset + i as u64,
                message: messages[i].duplicate(),
            };
            let ghost prev = self.messages@;
            let ghost prev_stored = self.stored();
            self.messages.push(record);
            i = i + 1;
            proof {
                let expected = before + Seq::new(i as nat, |j: int| messages@[j]@);
                assert forall|k: int| 0 <= k < self.messages@.len() implies #[trigger] self.stored()[k] == expected[k] by {
                    if k < prev.len() {
                        assert(self.messages@[k] == prev[k]);
                        assert(self.stored()[k] == prev[k]@.message);
                        assert(prev_stored[k] == prev[k]@.message);
                        let old_expected = before + Seq::new((i - 1) as nat, |j: int| messages@[j]@);
                        assert(prev_stored == old_expected);
                        assert(old_expected[k] == expected[k]);
                    } else {
                        assert(self.messages@[k]@.message == messages@[i - 1]@);
                    }
                }
                assert(self.stored() =~= expected);
                assert forall|k: int| 0 <= k < self.messages@.len() implies (#[trigger] self.messages@[k])@ == entry_of(
                    self.topic_name@,
                    self.partition_id,
                    k as u64,
                    self.messages@[k]@.message,
                ) && k <= u64::MAX by {
                    if k < prev.len() {
                        assert(self.messages@[k] == prev[k]);
                    }
                }
            }
        }
        Ok(base_offset)
    }

    /// Fetches up to `max_messages` records from `offset` on; refuses an
    /// offset past the end.
    pub fn fetch(&self, offset: u64, max_messages: u32) -> (r: Result<Vec<Record>>)
        requires
            self.wf(),
        ensures
            offset > self.stored().len() ==> r == Err::<Vec<Record>, GaffaError>(
                GaffaError::InvalidOffset(offset),
            ),
            offset <= self.stored().len() ==> (r matches Ok(v) && {
                let end = if offset + max_messages < self.stored().len() {
                    offset + max_messages
                } else {
                    self.stored().len() as int
                };
                &&& v@.len() == end - offset
                &&& forall|i: int| 0 <= i < v@.len() ==> (#[trigger] v@[i])@ == self.entry(offset + i)
            }),
    {
        if offset > self.messages.len() as u64 {
            return Err(GaffaError::InvalidOffset(offset));
        }
        let start = offset as usize;
        let len = self.messages.len();
        let end = if len - start > max_messages as usize {
            start + max_messages as usize
        } else {
            len
        };
        let mut records: Vec<Record> = Vec::new();
        let mut i = start;
        while i < end
            invariant
                start <= i <= end <= len,
                len == self.messages@.len(),
                self.wf(),
                start == offset,
                records@.len() == i - start,
                forall|j: int| 0 <= j < records@.len() ==> (#[trigger] records@[j])@ == self.entry(start + j),
            decreases end - i,
        {
            let rec = self.messages[i].duplicate();
            proof {
                assert(self.messages@[i as int]@ == entry_of(
                    self.topic_name@,
                    self.partition_id,
                    i as u64,
                    self.messages@[i as int]@.message,
                ));
            }
            records.push(rec);
            i = i + 1;
        }
        Ok(records)
    }

    /// The next offset to be written: the number of records.
    pub fn next_offset(&self) -> (r: u64)
        requires
            self.wf(),
        ensures
            r == self.stored().len(),
    {
        proof {
            if self.messages@.len() > 0 {
                let k = self.messages@.len() - 1;
                assert(self.messages@[k]@ == entry_of(
                    self.topic_name@,
                    self.partition_id,
                    k as u64,
                    self.messages@[k]@.message,
                ));
            }
        }
        self.messages.len() as u64
    }

    /// The partition number.
    pub fn partition_id(&self) -> (r: u32)
        ensures
            r == self.spec_partition_id(),
    {
        self.partition_id
    }
}

} // verus!
