//! Messages, records and the request/response vocabulary of the protocol.
use vstd::prelude::*;
use crate::clock::now_millis;

verus! {

/// A message to be stored in the queue.
#[derive(Debug, Clone, PartialEq)]
pub struct Message {
    /// Optional message key, used for partitioning
    pub key: Option<Vec<u8>>,
    /// Message payload
    pub value: Vec<u8>,
    /// Creation time, in milliseconds since the Unix epoch
    pub timestamp: u64,
}

/// The bytes of an optional byte vector.
pub open spec fn opt_seq(o: Option<Vec<u8>>) -> Option<Seq<u8>> {
    match o {
        Some(v) => Some(v@),
        None => None,
    }
}

/// The content of a message.
pub struct MessageView {
    pub key: Option<Seq<u8>>,
    pub value: Seq<u8>,
    pub timestamp: u64,
}

impl View for Message {
    type V = MessageView;

    open spec fn view(&self) -> MessageView {
        MessageView { key: opt_seq(self.key), value: self.value@, timestamp: self.timestamp }
    }
}

/// A copy of a byte vector.
pub fn copy_bytes(v: &Vec<u8>) -> (r: Vec<u8>)
    ensures
        r@ == v@,
{
    crate::bytes_be::copy_range(v.as_slice(), 0, v.len())
}

impl Message {
    /// A copy of the message.
    pub fn duplicate(&self) -> (r: Self)
        ensures
            r@ == self@,
    {
        let key = match &self.key {
            Some(k) => Some(copy_bytes(k)),
            None => None,
        };
        Message { key, value: copy_bytes(&self.value), timestamp: self.timestamp }
    }

    /// A message with the given value, no key, stamped with the current
    /// wall-clock time.
    pub fn new(value: Vec<u8>) -> (r: Self)
        ensures
            r.key is None,
            r.value@ == value@,
    {
        Message { key: None, value, timestamp: now_millis() }
    }

    /// The same message with the given key.
    pub fn with_key(self, key: Vec<u8>) -> (r: Self)
        ensures
            opt_seq(r.key) == Some(key@),
            r.value@ == self.value@,
            r.timestamp == self.timestamp,
    {
        Message { key: Some(key), ..self }
    }

    /// The same message with the given timestamp.
    pub fn with_timestamp(self, timestamp: u64) -> (r: Self)
        ensures
            opt_seq(r.key) == opt_seq(self.key),
            r.value@ == self.value@,
            r.timestamp == timestamp,
    {
        Message { timestamp, ..self }
    }
}

/// A stored message, with its place in the log.
#[derive(Debug, Clone, PartialEq)]
pub struct Record {
    /// Topic name
    pub topic: String,
    /// Partition number
    pub partition: u32,
    /// Offset within the partition
    pub offset: u64,
    /// The message
    pub message: Message,
}

/// The content of a stored record.
pub struct RecordEntry {
    pub topic: Seq<char>,
    pub partition: u32,
    pub offset: u64,
    pub message: MessageView,
}

impl View for Record {
    type V = RecordEntry;

    open spec fn view(&self) -> RecordEntry {
        RecordEntry {
            topic: self.topic@,
            partition: self.partition,
            offset: self.offset,
            message: self.message@,
        }
    }
}

impl Record {
    /// A copy of the record.
    pub fn duplicate(&self) -> (r: Self)
        ensures
            r@ == self@,
    {
        Record {
            topic: self.topic.clone(),
            partition: self.partition,
            offset: self.offset,
            message: self.message.duplicate(),
        }
    }
}

/// Metadata about a single partition.
#[derive(Debug, Clone, PartialEq)]
pub struct PartitionMetadata {
    /// Partition ID
    pub id: u32,
    /// Leader broker
    pub leader: u32,
    /// Replica brokers
    pub replicas: Vec<u32>,
}

impl PartitionMetadata {
    /// Metadata of a partition on a single broker (broker 0).
    pub fn new(id: u32) -> (r: Self)
        ensures
            r.id == id,
            r.leader == 0,
            r.replicas@ == seq![0u32],
    {
        let mut replicas = Vec::new();
        replicas.push(0u32);
        PartitionMetadata { id, leader: 0, replicas }
    }
}

/// Metadata about a topic.
#[derive(Debug, Clone, PartialEq)]
pub struct TopicMetadata {
    /// Topic name
    pub name: String,
    /// Its partitions
    pub partitions: Vec<PartitionMetadata>,
}

impl TopicMetadata {
    /// Metadata of a topic whose partitions are numbered `0..partition_count`,
    /// all on broker 0.
    pub fn new(name: String, partition_count: u32) -> (r: Self)
        ensures
            r.name@ == name@,
            r.partitions@.len() == partition_count,
            forall|i: int|
                0 <= i < partition_count ==> {
                    &&& #[trigger] r.partitions@[i].id == i
                    &&& r.partitions@[i].leader == 0
                    &&& r.partitions@[i].replicas@ == seq![0u32]
                },
    {
        let mut partitions: Vec<PartitionMetadata> = Vec::new();
        let mut i: u32 = 0;
        while i < partition_count
            invariant
                i <= partition_count,
                partitions@.len() == i,
                forall|j: int|
                    0 <= j < i ==> {
                        &&& #[trigger] partitions@[j].id == j
                        &&& partitions@[j].leader == 0
                        &&& partitions@[j].replicas@ == seq![0u32]
                    },
            decreases partition_count - i,
        {
            partitions.push(PartitionMetadata::new(i));
            i = i + 1;
        }
        TopicMetadata { name, partitions }
    }
}

/// A partition handed to a consumer-group member.
#[derive(Debug, Clone, PartialEq, Eq)]
pub struct PartitionAssignment {
    pub topic: String,
    pub partition: u32,
}

impl PartitionAssignment {
    pub fn new(topic: String, partition: u32) -> (r: Self)
        ensures
            r.topic@ == topic@,
            r.partition == partition,
    {
        PartitionAssignment { topic, partition }
    }
}

/// Requests that clients send to the broker.
#[allow(inconsistent_fields)]
#[derive(Debug, Clone)]
pub enum Request {
    /// Create a new topic
    CreateTopic { name: String, partitions: u32 },
    /// Produce messages to a topic partition
    Produce { topic: String, partition: u32, messages: Vec<Message> },
    /// Fetch messages from a topic partition starting at an offset
    Fetch { topic: String, partition: u32, offset: u64, max_messages: u32 },
    /// Get metadata for specific topics (empty = all topics)
    GetMetadata { topics: Vec<String> },
    /// Get the partition count of a topic
    GetPartitions { topic: String },
    /// List all topics
    ListTopics,
    /// Join a consumer group
    JoinGroup { group_id: String, member_id: Option<String>, topics: Vec<String> },
    /// Leave a consumer group
    LeaveGroup { group_id: String, member_id: String },
    /// Heartbeat of a consumer-group member
    Heartbeat { group_id: String, member_id: String },
    /// Commit a consumer group's offset
    CommitOffset { group_id: String, topic: String, partition: u32, offset: u64 },
    /// Fetch a consumer group's committed offset
    FetchOffset { group_id: String, topic: String, partition: u32 },
}

/// Responses that the broker sends back.
#[allow(inconsistent_fields)]
#[derive(Debug, Clone)]
pub enum Response {
    CreateTopicSuccess { name: String, partitions: u32 },
    CreateTopicError { error: String },
    ProduceSuccess { topic: String, partition: u32, base_offset: u64, count: u32 },
    ProduceError { error: String },
    FetchSuccess { topic: String, partition: u32, records: Vec<Record> },
    FetchError { error: String },
    Metadata { topics: Vec<TopicMetadata> },
    MetadataError { error: String },
    Partitions { topic: String, count: u32 },
    PartitionsError { error: String },
    Topics { topics: Vec<String> },
    TopicsError { error: String },
    JoinGroupSuccess { group_id: String, member_id: String, assignments: Vec<PartitionAssignment> },
    JoinGroupError { error: String },
    LeaveGroupSuccess { group_id: String },
    LeaveGroupError { error: String },
    HeartbeatSuccess,
    HeartbeatError { error: String, needs_rejoin: bool },
    CommitOffsetSuccess { group_id: String, topic: String, partition: u32 },
    CommitOffsetError { error: String },
    FetchOffsetSuccess { group_id: String, topic: String, partition: u32, offset: u64 },
    FetchOffsetError { error: String },
}

} // verus!
