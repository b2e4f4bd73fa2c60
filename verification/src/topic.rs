//! Topics and the registry of all topics of a broker.
use vstd::prelude::*;
use crate::error::{GaffaError, Result};
use crate::messages::{Message, MessageView, Record, RecordEntry};
use crate::partition::{Partition, PartitionState, entry_of, partition_state_wf, state_messages};
use crate::text::{parse_unsigned, parse_decimal};
use crate::offsets::chars_of;
use dashmap::DashMap;

verus! {

/// A topic with its partitions.
#[derive(Debug)]
pub struct Topic {
    name: String,
    partitions: Vec<Partition>,
}

impl Topic {
    /// The topic name.
    pub closed spec fn spec_name(&self) -> Seq<char> {
        self.name@
    }

    /// The messages of each partition, by partition number.
    pub closed spec fn contents(&self) -> Seq<Seq<MessageView>> {
        Seq::new(self.partitions@.len(), |i: int| self.partitions@[i].stored())
    }

    /// The topic's invariant: partition `i` is a well-formed partition of
    /// this topic numbered `i`, and the partition count fits 32 bits.
    pub closed spec fn wf(&self) -> bool {
        &&& self.partitions@.len() <= u32::MAX
        &&& forall|i: int|
            0 <= i < self.partitions@.len() ==> {
                &&& (#[trigger] self.partitions@[i]).wf()
                &&& self.partitions@[i].spec_partition_id() == i
                &&& self.partitions@[i].spec_topic() == self.name@
            }
    }

    /// A topic with `num_partitions` empty partitions.
    pub fn new(name: String, num_partitions: u32) -> (r: Self)
        ensures
            r.wf(),
            r.spec_name() == name@,
            r.contents() == empty_partitions(num_partitions as nat),
    {
        let mut partitions: Vec<Partition> = Vec::new();
        let mut i: u32 = 0;
        while i < num_partitions
            invariant
                i <= num_partitions,
                partitions@.len() == i,
                forall|j: int|
                    0 <= j < i ==> {
                        &&& (#[trigger] partitions@[j]).wf()
                        &&& partitions@[j].spec_partition_id() == j
                        &&& partitions@[j].spec_topic() == name@
                        &&& partitions@[j].stored() == Seq::<MessageView>::empty()
                    },
            decreases num_partitions - i,
        {
            partitions.push(Partition::new(name.clone(), i));
            i = i + 1;
        }
        let r = Topic { name, partitions };
        assert(r.contents() =~= empty_partitions(num_partitions as nat));
        r
    }

    /// The topic name.
    pub fn name(&self) -> (r: &str)
        ensures
            r@ == self.spec_name(),
    {
        self.name.as_str()
    }

    /// The number of partitions.
    pub fn num_partitions(&self) -> (r: u32)
        requires
            self.wf(),
        ensures
            r == self.contents().len(),
    {
        self.partitions.len() as u32
    }

    /// The partition numbered `partition_id`.
    pub fn get_partition(&self, partition_id: u32) -> (r: Result<&Partition>)
        requires
            self.wf(),
        ensures
            partition_id < self.contents().len() ==> (r matches Ok(p) && p.wf()
                && p.stored() == self.contents()[partition_id as int]
                && p.spec_partition_id() == partition_id && p.spec_topic() == self.spec_name()),
            partition_id >= self.contents().len() ==> (r matches Err(
                GaffaError::PartitionNotFound(t, p),
            ) && t@ == self.spec_name() && p == partition_id),
    {
        if (partition_id as usize) < self.partitions.len() {
            Ok(&self.partitions[partition_id as usize])
        } else {
            Err(GaffaError::PartitionNotFound(self.name.clone(), partition_id))
        }
    }

    /// Appends messages to a partition; returns the offset given to the
    /// first one.
    pub fn append(&mut self, partition_id: u32, messages: Vec<Message>) -> (r: Result<u64>)
        requires
            old(self).wf(),
        ensures
            final(self).wf(),
            final(self).spec_name() == old(self).spec_name(),
            final(self).contents().len() == old(self).contents().len(),
            forall|i: int|
                0 <= i < old(self).contents().len() && i != partition_id ==> #[trigger] final(self).contents()[i] == old(self).contents()[i],
            partition_id >= old(self).contents().len() ==> (r matches Err(
                GaffaError::PartitionNotFound(t, p),
            ) && t@ == old(self).spec_name() && p == partition_id),
            partition_id >= old(self).contents().len() ==> final(self).contents() == old(self).contents(),
            partition_id < old(self).contents().len() ==> appended(
                old(self).contents()[partition_id as int],
                messages@,
                r,
                final(self).contents()[partition_id as int],
            ),
    {
        if (partition_id as usize) >= self.partitions.len() {
            return Err(GaffaError::PartitionNotFound(self.name.clone(), partition_id));
        }
        let idx = partition_id as usize;
        let ghost before = self.contents();
        let mut partition = self.partitions.remove(idx);
        let r = partition.append(messages);
        self.partitions.insert(idx, partition);
        proof {
            assert forall|i: int| 0 <= i < self.partitions@.len() implies {
                &&& (#[trigger] self.partitions@[i]).wf()
                &&& self.partitions@[i].spec_partition_id() == i
                &&& self.partitions@[i].spec_topic() == self.name@
            } by {
                if i != idx {
                    assert(self.partitions@[i] == old(self).partitions@[i]);
                }
            }
            assert forall|i: int| 0 <= i < before.len() && i != partition_id implies #[trigger] self.contents()[i] == before[i] by {
                assert(self.partitions@[i] == old(self).partitions@[i]);
            }
        }
        r
    }

    /// Fetches up to `max_messages` records of a partition, from `offset` on.
    pub fn fetch(&self, partition_id: u32, offset: u64, max_messages: u32) -> (r: Result<Vec<Record>>)
        requires
            self.wf(),
        ensures
            partition_id >= self.contents().len() ==> (r matches Err(
                GaffaError::PartitionNotFound(t, p),
            ) && t@ == self.spec_name() && p == partition_id),
            partition_id < self.contents().len() ==> fetched(
                self.spec_name(),
                partition_id,
                self.contents()[partition_id as int],
                offset,
                max_messages,
                r,
            ),
    {
        let partition = self.get_partition(partition_id)?;
        partition.fetch(offset, max_messages)
    }
}

/// What appending `msgs` to a partition holding `before` gives: `r` and
/// the partition's contents `after`.
pub open spec fn appended(before: Seq<MessageView>, msgs: Seq<Message>, r: Result<u64>, after: Seq<MessageView>) -> bool {
    if msgs.len() == 0 {
        r matches Err(GaffaError::InvalidMessage(_)) && after == before
    } else if before.len() + msgs.len() > u64::MAX + 1 {
        r matches Err(GaffaError::InvalidMessage(_)) && after == before
    } else {
        r == Ok::<u64, GaffaError>(before.len() as u64) && after == before + Seq::new(
            msgs.len(),
            |i: int| msgs[i]@,
        )
    }
}

/// What fetching from a partition holding `stored` gives.
pub open spec fn fetched(topic: Seq<char>, partition: u32, stored: Seq<MessageView>, offset: u64, max: u32, r: Result<Vec<Record>>) -> bool {
    if offset > stored.len() {
        r == Err::<Vec<Record>, GaffaError>(GaffaError::InvalidOffset(offset))
    } else {
        r matches Ok(v) && {
            let end = if offset + max < stored.len() {
                offset + max
            } else {
                stored.len() as int
            };
            &&& v@.len() == end - offset
            &&& forall|i: int|
                0 <= i < v@.len() ==> (#[trigger] v@[i])@ == entry_of(
                    topic,
                    partition,
                    (offset + i) as u64,
                    stored[offset + i],
                )
        }
    }
}

/// What a fetch gives back of an append: after messages are appended at
/// base offset `b`, a fetch from `b` of at least as many records returns
/// them, in order, each at its own offset `b + i`.
pub proof fn lemma_append_then_fetch(
    topic: Seq<char>,
    partition: u32,
    before: Seq<MessageView>,
    msgs: Seq<Message>,
    b: u64,
    after: Seq<MessageView>,
    max: u32,
    res: Result<Vec<Record>>,
)
    requires
        appended(before, msgs, Ok(b), after),
        fetched(topic, partition, after, b, max, res),
        max >= msgs.len(),
    ensures
        res matches Ok(v) && v@.len() == msgs.len() && forall|i: int|
            0 <= i < msgs.len() ==> (#[trigger] v@[i])@ == entry_of(topic, partition, (b + i) as u64, msgs[i]@),
{
    assert(b == before.len());
    assert(after.len() == before.len() + msgs.len());
    assert forall|i: int| 0 <= i < msgs.len() implies after[b + i] == msgs[i]@ by {
        assert(after[before.len() + i] == msgs[i]@);
    }
}

/// The content of a topic.
pub struct TopicView {
    pub name: Seq<char>,
    pub partitions: Seq<Seq<MessageView>>,
}

/// Everything a topic holds: its name and its partitions' states.
pub struct TopicState {
    pub name: Seq<char>,
    pub partitions: Seq<PartitionState>,
}

/// A well-formed topic state: partition `i` is a well-formed partition of
/// this topic numbered `i`, and the partition count fits 32 bits.
pub open spec fn topic_state_wf(s: TopicState) -> bool {
    &&& s.partitions.len() <= u32::MAX
    &&& forall|i: int|
        0 <= i < s.partitions.len() ==> {
            &&& partition_state_wf(#[trigger] s.partitions[i])
            &&& s.partitions[i].id == i
            &&& s.partitions[i].topic == s.name
        }
}

/// The messages of each partition of a topic state.
pub open spec fn state_contents(s: TopicState) -> Seq<Seq<MessageView>> {
    Seq::new(s.partitions.len(), |i: int| state_messages(s.partitions[i]))
}

impl Topic {
    /// Everything the topic holds.
    pub closed spec fn state(&self) -> TopicState {
        TopicState { name: self.name@, partitions: self.partitions@.map_values(|p: Partition| p.state()) }
    }

    /// The topic's invariant, name and contents, read off its state.
    pub proof fn lemma_state(&self)
        ensures
            self.wf() <==> topic_state_wf(self.state()),
            self.state().name == self.spec_name(),
            state_contents(self.state()) == self.contents(),
    {
        let s = self.state();
        assert forall|i: int| 0 <= i < self.partitions@.len() implies {
            &&& (#[trigger] self.partitions@[i]).wf() == partition_state_wf(s.partitions[i])
            &&& self.partitions@[i].spec_partition_id() == s.partitions[i].id
            &&& self.partitions@[i].spec_topic() == s.partitions[i].topic
            &&& self.partitions@[i].stored() == state_messages(s.partitions[i])
        } by {
            self.partitions@[i].lemma_state();
        }
        assert(state_contents(s) =~= self.contents());
    }

    /// A copy of the topic.
    pub fn duplicate(&self) -> (r: Self)
        ensures
            r.state() == self.state(),
    {
        let mut partitions: Vec<Partition> = Vec::new();
        let mut i: usize = 0;
        while i < self.partitions.len()
            invariant
                i <= self.partitions@.len(),
                partitions@.len() == i,
                forall|j: int| 0 <= j < i ==> (#[trigger] partitions@[j]).state() == self.partitions@[j].state(),
            decreases self.partitions@.len() - i,
        {
            partitions.push(self.partitions[i].duplicate());
            i = i + 1;
        }
        let r = Topic { name: self.name.clone(), partitions };
        assert(r.state().partitions =~= self.state().partitions);
        r
    }
}

/// What a table of topics holds, by name.
pub uninterp spec fn topic_table(m: DashMap<String, Topic>) -> Map<Seq<char>, TopicState>;

/// `DashMap::new`: an empty table.
#[verifier::external_body]
fn new_topic_table() -> (r: DashMap<String, Topic>)
    ensures
        topic_table(r).dom().is_empty(),
{
    DashMap::new()
}

/// `DashMap::contains_key`: whether `name` has an entry.
#[verifier::external_body]
fn holds_topic(m: &DashMap<String, Topic>, name: &str) -> (r: bool)
    ensures
        r == topic_table(*m).contains_key(name@),
{
    m.contains_key(name)
}

/// `DashMap::insert`: afterwards `name` maps to `t`.
#[verifier::external_body]
fn put_topic(m: &mut DashMap<String, Topic>, name: String, t: Topic)
    ensures
        topic_table(*final(m)) == topic_table(*old(m)).insert(name@, t.state()),
{
    m.insert(name, t);
}

/// `DashMap::remove`: takes the entry of `name` out, and hands back its
/// value.
#[verifier::external_body]
fn take_topic(m: &mut DashMap<String, Topic>, name: &str) -> (r: Option<Topic>)
    ensures
        topic_table(*final(m)) == topic_table(*old(m)).remove(name@),
        match r {
            Some(t) => topic_table(*old(m)).contains_key(name@) && t.state() == topic_table(*old(m))[name@],
            None => !topic_table(*old(m)).contains_key(name@),
        },
{
    m.remove(name).map(|(_, t)| t)
}

/// `DashMap::get`: a copy of the value of `name`, if it has one.
#[verifier::external_body]
fn find_topic(m: &DashMap<String, Topic>, name: &str) -> (r: Option<Topic>)
    ensures
        match r {
            Some(t) => topic_table(*m).contains_key(name@) && t.state() == topic_table(*m)[name@],
            None => !topic_table(*m).contains_key(name@),
        },
{
    m.get(name).map(|e| e.value().duplicate())
}

/// `DashMap::iter`: every key once, in an order that the table decides.
#[verifier::external_body]
fn topic_names(m: &DashMap<String, Topic>) -> (r: Vec<String>)
    ensures
        forall|i: int| 0 <= i < r.len() ==> #[trigger] topic_table(*m).contains_key(r@[i]@),
        forall|i: int, j: int| 0 <= i < j < r.len() ==> r@[i]@ != r@[j]@,
        forall|n: Seq<char>| #[trigger] topic_table(*m).contains_key(n) ==> exists|i: int| 0 <= i < r.len() && r@[i]@ == n,
{
    m.iter().map(|e| e.key().clone()).collect()
}

/// `DashMap::len`: the number of entries.
#[verifier::external_body]
fn topic_table_len(m: &DashMap<String, Topic>) -> (r: usize)
    ensures
        r == topic_table(*m).dom().len(),
{
    m.len()
}

/// All topics of a broker, by name.
#[derive(Debug)]
pub struct TopicManager {
    topics: DashMap<String, Topic>,
    data_dir: String,
}

impl TopicManager {
    /// The topics: each name's partitions' messages.
    pub closed spec fn spec_topics(&self) -> Map<Seq<char>, Seq<Seq<MessageView>>> {
        topic_table(self.topics).map_values(|s: TopicState| state_contents(s))
    }

    /// The directory where topic data lives.
    pub closed spec fn spec_data_dir(&self) -> Seq<char> {
        self.data_dir@
    }

    /// The invariant: each topic is well formed and filed under its name.
    pub closed spec fn wf(&self) -> bool {
        forall|n: Seq<char>| #[trigger] topic_table(self.topics).contains_key(n) ==> topic_state_wf(
            topic_table(self.topics)[n],
        ) && topic_table(self.topics)[n].name == n
    }

    /// A manager without topics.
    pub fn new(data_dir: String) -> (r: Self)
        ensures
            r.wf(),
            r.spec_topics() == Map::<Seq<char>, Seq<Seq<MessageView>>>::empty(),
            r.spec_data_dir() == data_dir@,
    {
        let r = TopicManager { topics: new_topic_table(), data_dir };
        assert(r.spec_topics() =~= Map::<Seq<char>, Seq<Seq<MessageView>>>::empty());
        r
    }

    /// The directory where topic data lives.
    pub fn data_dir(&self) -> (r: &str)
        ensures
            r@ == self.spec_data_dir(),
    {
        self.data_dir.as_str()
    }

    /// Creates a topic with `num_partitions` empty partitions; refuses a
    /// name already taken.
    pub fn create_topic(&mut self, name: String, num_partitions: u32) -> (r: Result<()>)
        requires
            old(self).wf(),
        ensures
            final(self).wf(),
            final(self).spec_data_dir() == old(self).spec_data_dir(),
            has_topic(old(self).spec_topics(), name@) ==> (r matches Err(
                GaffaError::InvalidMessage(m),
            ) && m@ == "Topic '"@ + name@ + "' already exists"@) && final(self).spec_topics()
                == old(self).spec_topics(),
            !has_topic(old(self).spec_topics(), name@) ==> r is Ok && final(self).spec_topics()
                == old(self).spec_topics().insert(
                name@,
                empty_partitions(num_partitions as nat),
            ),
    {
        proof {
            reveal_strlit("Topic '");
            reveal_strlit("' already exists");
        }
        if holds_topic(&self.topics, name.as_str()) {
            let mut m = String::from_str("Topic '");
            m.append(name.as_str());
            m.append("' already exists");
            return Err(GaffaError::InvalidMessage(m));
        }
        let topic = Topic::new(name.clone(), num_partitions);
        proof {
            topic.lemma_state();
        }
        let ghost before = self.spec_topics();
        put_topic(&mut self.topics, name, topic);
        proof {
            assert(self.spec_topics() =~= before.insert(
                name@,
                empty_partitions(num_partitions as nat),
            ));
        }
        Ok(())
    }

    /// A copy of the topic named `name`.
    pub fn get_topic(&self, name: &str) -> (r: Result<Topic>)
        requires
            self.wf(),
        ensures
            has_topic(self.spec_topics(), name@) ==> (r matches Ok(t) && t.wf() && t.spec_name()
                == name@ && t.contents() == self.spec_topics()[name@]),
            !has_topic(self.spec_topics(), name@) ==> (r matches Err(GaffaError::TopicNotFound(n))
                && n@ == name@),
    {
        match find_topic(&self.topics, name) {
            Some(t) => {
                proof {
                    t.lemma_state();
                }
                Ok(t)
            },
            None => Err(GaffaError::TopicNotFound(name.to_owned())),
        }
    }

    /// Appends messages to a partition of the topic named `topic`.
    pub fn append(&mut self, topic: &str, partition_id: u32, messages: Vec<Message>) -> (r: Result<u64>)
        requires
            old(self).wf(),
        ensures
            final(self).wf(),
            final(self).spec_data_dir() == old(self).spec_data_dir(),
            !has_topic(old(self).spec_topics(), topic@) ==> (r matches Err(
                GaffaError::TopicNotFound(n),
            ) && n@ == topic@) && final(self).spec_topics() == old(self).spec_topics(),
            has_topic(old(self).spec_topics(), topic@) ==> {
                let before = old(self).spec_topics()[topic@];
                let after = final(self).spec_topics()[topic@];
                &&& final(self).spec_topics() == old(self).spec_topics().insert(topic@, after)
                &&& after.len() == before.len()
                &&& forall|i: int|
                    0 <= i < before.len() && i != partition_id ==> #[trigger] after[i] == before[i]
                &&& partition_id >= before.len() ==> (r matches Err(
                    GaffaError::PartitionNotFound(t, p),
                ) && t@ == topic@ && p == partition_id) && after == before
                &&& partition_id < before.len() ==> appended(
                    before[partition_id as int],
                    messages@,
                    r,
                    after[partition_id as int],
                )
            },
    {
        let ghost before = self.spec_topics();
        match take_topic(&mut self.topics, topic) {
            None => {
                proof {
                    assert(self.spec_topics() =~= before);
                }
                Err(GaffaError::TopicNotFound(topic.to_owned()))
            },
            Some(mut t) => {
                proof {
                    t.lemma_state();
                }
                let r = t.append(partition_id, messages);
                proof {
                    t.lemma_state();
                }
                put_topic(&mut self.topics, topic.to_owned(), t);
                proof {
                    assert(self.spec_topics() =~= before.insert(topic@, self.spec_topics()[topic@]));
                }
                r
            },
        }
    }

    /// Fetches records from a partition of the topic named `topic`.
    pub fn fetch(&self, topic: &str, partition_id: u32, offset: u64, max_messages: u32) -> (r: Result<Vec<Record>>)
        requires
            self.wf(),
        ensures
            !has_topic(self.spec_topics(), topic@) ==> (r matches Err(GaffaError::TopicNotFound(n))
                && n@ == topic@),
            has_topic(self.spec_topics(), topic@) ==> {
                let parts = self.spec_topics()[topic@];
                &&& partition_id >= parts.len() ==> (r matches Err(
                    GaffaError::PartitionNotFound(t, p),
                ) && t@ == topic@ && p == partition_id)
                &&& partition_id < parts.len() ==> fetched(
                    topic@,
                    partition_id,
                    parts[partition_id as int],
                    offset,
                    max_messages,
                    r,
                )
            },
    {
        let t = self.get_topic(topic)?;
        t.fetch(partition_id, offset, max_messages)
    }

    /// The names of all topics, each once.
    pub fn list_topics(&self) -> (r: Vec<String>)
        ensures
            forall|i: int| 0 <= i < r.len() ==> #[trigger] has_topic(self.spec_topics(), r@[i]@),
            forall|i: int, j: int| 0 <= i < j < r.len() ==> r@[i]@ != r@[j]@,
            forall|n: Seq<char>| #[trigger] has_topic(self.spec_topics(), n) ==> name_listed(r@, n),
    {
        let r = topic_names(&self.topics);
        proof {
            assert forall|n: Seq<char>| #[trigger] has_topic(self.spec_topics(), n) implies name_listed(r@, n) by {
                assert(topic_table(self.topics).contains_key(n));
            }
        }
        r
    }

    /// The number of topics.
    pub fn topic_count(&self) -> (r: usize)
        ensures
            r == self.spec_topics().dom().len(),
    {
        let r = topic_table_len(&self.topics);
        assert(self.spec_topics().dom() =~= topic_table(self.topics).dom());
        r
    }
}

/// Whether `names` holds the name `n`.
pub open spec fn name_listed(names: Seq<String>, n: Seq<char>) -> bool {
    exists|i: int| 0 <= i < names.len() && names[i]@ == n
}

/// The contents of `n` empty partitions.
pub open spec fn empty_partitions(n: nat) -> Seq<Seq<MessageView>> {
    Seq::new(n, |i: int| Seq::<MessageView>::empty())
}

/// Whether a topic of that name exists.
pub open spec fn has_topic(topics: Map<Seq<char>, Seq<Seq<MessageView>>>, name: Seq<char>) -> bool {
    topics.contains_key(name)
}

/// The topic of that name (meaningful when there is one).
pub open spec fn topic_named(topics: Map<Seq<char>, Seq<Seq<MessageView>>>, name: Seq<char>) -> TopicView {
    TopicView { name, partitions: topics[name] }
}

/// The start of a partition directory's name.
pub open spec fn partition_dir_prefix() -> Seq<char> {
    seq!['p', 'a', 'r', 't', 'i', 't', 'i', 'o', 'n', '-']
}

/// The partition that a directory named `name` holds: `partition-`, then
/// the partition's number as `str::parse` reads a `u32`.
pub open spec fn partition_dir_id(name: Seq<char>) -> Option<u32> {
    if name.len() >= 10 && name.subrange(0, 10) == partition_dir_prefix() {
        match parse_unsigned(name.subrange(10, name.len() as int), u32::MAX as nat) {
            Some(v) => Some(v as u32),
            None => None,
        }
    } else {
        None
    }
}

/// The partitions that the directories named `names` hold, in the order of
/// the names.
pub open spec fn dir_partition_ids(names: Seq<String>) -> Seq<u32>
    decreases names.len(),
{
    if names.len() == 0 {
        Seq::empty()
    } else {
        let rest = dir_partition_ids(names.drop_last());
        match partition_dir_id(names.last()@) {
            Some(id) => rest.push(id),
            None => rest,
        }
    }
}

/// Whether the numbers are in increasing order.
pub open spec fn ascending(s: Seq<u32>) -> bool {
    forall|i: int, j: int| 0 <= i <= j < s.len() ==> s[i] <= s[j]
}

/// The partition that a directory named `chars` holds.
fn partition_dir_number(chars: &Vec<char>) -> (r: Option<u32>)
    ensures
        r == partition_dir_id(chars@),
{
    let prefix: Vec<char> = vec!['p', 'a', 'r', 't', 'i', 't', 'i', 'o', 'n', '-'];
    assert(prefix@ =~= partition_dir_prefix());
    if chars.len() < 10 {
        return None;
    }
    let mut k: usize = 0;
    while k < 10
        invariant
            k <= 10 <= chars@.len(),
            prefix@ == partition_dir_prefix(),
            forall|j: int| 0 <= j < k ==> chars@[j] == prefix@[j],
        decreases 10 - k,
    {
        if chars[k] != prefix[k] {
            proof {
                assert(chars@.subrange(0, 10)[k as int] != partition_dir_prefix()[k as int]);
            }
            return None;
        }
        k = k + 1;
    }
    assert(chars@.subrange(0, 10) =~= partition_dir_prefix());
    match parse_decimal(chars, 10, chars.len(), 0xFFFF_FFFFu64) {
        Some(v) => Some(v as u32),
        None => None,
    }
}

/// Puts `id` into the ascending `ids` at its place.
fn insert_ascending(ids: &mut Vec<u32>, id: u32)
    requires
        ascending(old(ids)@),
    ensures
        ascending(final(ids)@),
        final(ids)@.to_multiset() == old(ids)@.to_multiset().insert(id),
{
    let mut pos: usize = 0;
    while pos < ids.len() && ids[pos] <= id
        invariant
            pos <= ids@.len(),
            forall|j: int| 0 <= j < pos ==> ids@[j] <= id,
        decreases ids@.len() - pos,
    {
        pos = pos + 1;
    }
    let ghost before = ids@;
    ids.insert(pos, id);
    proof {
        vstd::seq_lib::to_multiset_insert(before, pos as int, id);
        assert forall|i: int, j: int| 0 <= i <= j < ids@.len() implies ids@[i] <= ids@[j] by {
            if i < pos && j > pos {
                assert(ids@[i] == before[i]);
                assert(ids@[j] == before[j - 1]);
            } else if i < pos && j < pos {
                assert(ids@[i] == before[i] && ids@[j] == before[j]);
            } else if i > pos {
                assert(ids@[i] == before[i - 1] && ids@[j] == before[j - 1]);
            } else if i < pos && j == pos {
            } else if i == pos && j > pos {
                assert(ids@[j] == before[j - 1]);
                assert(before[pos as int] > id);
            }
        }
    }
}

/// The partitions of topic `topic_name`, read from the names of the
/// directories in the topic's directory: the numbers of those named
/// `partition-N`, in increasing order. Fails with a storage error when no
/// directory is a partition's.
pub fn partition_ids(topic_name: &str, dir_names: &Vec<String>) -> (r: Result<Vec<u32>>)
    ensures
        r is Ok <==> dir_partition_ids(dir_names@).len() > 0,
        r matches Ok(ids) ==> ascending(ids@) && ids@.to_multiset() == dir_partition_ids(
            dir_names@,
        ).to_multiset(),
        r matches Err(e) ==> e matches GaffaError::Storage(m) && m@
            == "No partitions found for topic: "@ + topic_name@,
{
    let mut ids: Vec<u32> = Vec::new();
    let mut i: usize = 0;
    while i < dir_names.len()
        invariant
            i <= dir_names@.len(),
            ascending(ids@),
            ids@.to_multiset() == dir_partition_ids(dir_names@.subrange(0, i as int)).to_multiset(),
        decreases dir_names@.len() - i,
    {
        let chars = chars_of(dir_names[i].as_str());
        let ghost before = ids@;
        match partition_dir_number(&chars) {
            Some(id) => insert_ascending(&mut ids, id),
            None => {},
        }
        proof {
            let pre = dir_names@.subrange(0, i + 1);
            assert(pre.drop_last() =~= dir_names@.subrange(0, i as int));
            assert(pre.last() == dir_names@[i as int]);
            if let Some(id) = partition_dir_id(dir_names@[i as int]@) {
                vstd::seq_lib::to_multiset_build(dir_partition_ids(dir_names@.subrange(0, i as int)), id);
            }
        }
        i = i + 1;
    }
    proof {
        assert(dir_names@.subrange(0, dir_names@.len() as int) =~= dir_names@);
        vstd::seq_lib::to_multiset_len(ids@);
        vstd::seq_lib::to_multiset_len(dir_partition_ids(dir_names@));
    }
    if ids.len() == 0 {
        let mut m = String::from_str("No partitions found for topic: ");
        m.append(topic_name);
        return Err(GaffaError::Storage(m));
    }
    Ok(ids)
}

} // verus!
