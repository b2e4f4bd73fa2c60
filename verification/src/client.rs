//! The clients' side of the protocol: the requests that producers and
//! consumers send, what they make of the broker's answers, and the
//! consumer's offset tracking and group membership.
use vstd::prelude::*;
use crate::error::{GaffaError, Result};
use crate::messages::{Message, MessageView, Record, Request, Response, TopicMetadata, PartitionAssignment};
use crate::partitioner::{Partitioner, key_bytes, picks_from};
use crate::coordinator::{texts, assignment_views};
use crate::text::same_text;
use crate::time::Duration;

verus! {

/// Whether `e` is the error for a response of the wrong kind.
pub open spec fn is_unexpected(e: GaffaError) -> bool {
    e matches GaffaError::Protocol(s) && s@ == "Unexpected response"@
}

/// Whether `e` is the protocol error that carries the broker's `error`.
pub open spec fn is_refusal(e: GaffaError, error: String) -> bool {
    e matches GaffaError::Protocol(s) && s@ == error@
}

fn unexpected() -> (r: GaffaError)
    ensures
        is_unexpected(r),
{
    GaffaError::Protocol(String::from_str("Unexpected response"))
}

/// What a create-topic answer says.
pub fn topic_created(response: Response) -> (r: Result<()>)
    ensures
        match response {
            Response::CreateTopicSuccess { .. } => r is Ok,
            Response::CreateTopicError { error } => r matches Err(e) && is_refusal(e, error),
            _ => r matches Err(e) && is_unexpected(e),
        },
{
    match response {
        Response::CreateTopicSuccess { .. } => Ok(()),
        Response::CreateTopicError { error } => Err(GaffaError::Protocol(error)),
        _ => Err(unexpected()),
    }
}

/// What a produce answer says: the base offset of the stored messages.
pub fn produced_offset(response: Response) -> (r: Result<u64>)
    ensures
        match response {
            Response::ProduceSuccess { base_offset, .. } => r == Ok::<u64, GaffaError>(base_offset),
            Response::ProduceError { error } => r matches Err(e) && is_refusal(e, error),
            _ => r matches Err(e) && is_unexpected(e),
        },
{
    match response {
        Response::ProduceSuccess { base_offset, .. } => Ok(base_offset),
        Response::ProduceError { error } => Err(GaffaError::Protocol(error)),
        _ => Err(unexpected()),
    }
}

/// What a fetch answer says: the records fetched.
pub fn fetched_records(response: Response) -> (r: Result<Vec<Record>>)
    ensures
        match response {
            Response::FetchSuccess { records, .. } => r matches Ok(v) && v@ == records@,
            Response::FetchError { error } => r matches Err(e) && is_refusal(e, error),
            _ => r matches Err(e) && is_unexpected(e),
        },
{
    match response {
        Response::FetchSuccess { records, .. } => Ok(records),
        Response::FetchError { error } => Err(GaffaError::Protocol(error)),
        _ => Err(unexpected()),
    }
}

/// What a list-topics answer says: the topic names.
pub fn listed_topics(response: Response) -> (r: Result<Vec<String>>)
    ensures
        match response {
            Response::Topics { topics } => r matches Ok(v) && v@ == topics@,
            Response::TopicsError { error } => r matches Err(e) && is_refusal(e, error),
            _ => r matches Err(e) && is_unexpected(e),
        },
{
    match response {
        Response::Topics { topics } => Ok(topics),
        Response::TopicsError { error } => Err(GaffaError::Protocol(error)),
        _ => Err(unexpected()),
    }
}

/// What a fetch-offset answer says: the committed offset.
pub fn committed_offset_from(response: Response) -> (r: Result<u64>)
    ensures
        match response {
            Response::FetchOffsetSuccess { offset, .. } => r == Ok::<u64, GaffaError>(offset),
            Response::FetchOffsetError { error } => r matches Err(e) && is_refusal(e, error),
            _ => r matches Err(e) && is_unexpected(e),
        },
{
    match response {
        Response::FetchOffsetSuccess { offset, .. } => Ok(offset),
        Response::FetchOffsetError { error } => Err(GaffaError::Protocol(error)),
        _ => Err(unexpected()),
    }
}

/// What a commit-offset answer says.
pub fn commit_acknowledged(response: Response) -> (r: Result<()>)
    ensures
        match response {
            Response::CommitOffsetSuccess { .. } => r is Ok,
            Response::CommitOffsetError { error } => r matches Err(e) && is_refusal(e, error),
            _ => r matches Err(e) && is_unexpected(e),
        },
{
    match response {
        Response::CommitOffsetSuccess { .. } => Ok(()),
        Response::CommitOffsetError { error } => Err(GaffaError::Protocol(error)),
        _ => Err(unexpected()),
    }
}

/// What a metadata answer for one topic says: the topic's metadata, the
/// first of the answer; a topic missing from it is not found.
pub fn topic_metadata_from(topic: &str, response: Response) -> (r: Result<TopicMetadata>)
    ensures
        match response {
            Response::Metadata { topics } => if topics@.len() == 0 {
                r matches Err(GaffaError::TopicNotFound(t)) && t@ == topic@
            } else {
                r == Ok::<TopicMetadata, GaffaError>(topics@[0])
            },
            Response::MetadataError { error } => r matches Err(e) && is_refusal(e, error),
            _ => r matches Err(e) && is_unexpected(e),
        },
{
    match response {
        Response::Metadata { mut topics } => {
            if topics.len() == 0 {
                return Err(GaffaError::TopicNotFound(topic.to_owned()));
            }
            Ok(topics.remove(0))
        },
        Response::MetadataError { error } => Err(GaffaError::Protocol(error)),
        _ => Err(unexpected()),
    }
}

/// What the heartbeat loop makes of a reply.
#[derive(Debug)]
pub enum HeartbeatOutcome {
    /// The broker acknowledged the heartbeat
    Acknowledged,
    /// The broker refused it; a rejoin may be needed
    Refused { error: String, needs_rejoin: bool },
    /// The broker answered something else
    Unexpected,
    /// The connection failed or closed: the loop stops
    Stop,
}

/// What a heartbeat reply means: `None` is a closed connection, `Some(Err)`
/// a failed one.
pub fn heartbeat_outcome(reply: Option<Result<Response>>) -> (r: HeartbeatOutcome)
    ensures
        match reply {
            Some(Ok(Response::HeartbeatSuccess)) => r is Acknowledged,
            Some(Ok(Response::HeartbeatError { error, needs_rejoin })) => r matches HeartbeatOutcome::Refused {
                error: e,
                needs_rejoin: n,
            } && e@ == error@ && n == needs_rejoin,
            Some(Ok(_)) => r is Unexpected,
            _ => r is Stop,
        },
{
    match reply {
        Some(Ok(Response::HeartbeatSuccess)) => HeartbeatOutcome::Acknowledged,
        Some(Ok(Response::HeartbeatError { error, needs_rejoin })) => HeartbeatOutcome::Refused { error, needs_rejoin },
        Some(Ok(_)) => HeartbeatOutcome::Unexpected,
        _ => HeartbeatOutcome::Stop,
    }
}

/// A consumer's offset for a topic partition.
pub type OffsetView = ((Seq<char>, u32), u64);

/// The position of the offset of (`t`, `p`), if there is one.
pub open spec fn offset_pos(offs: Seq<OffsetView>, t: Seq<char>, p: u32) -> Option<int> {
    if exists|i: int| 0 <= i < offs.len() && (#[trigger] offs[i]).0 == (t, p) {
        Some(choose|i: int| 0 <= i < offs.len() && (#[trigger] offs[i]).0 == (t, p))
    } else {
        None
    }
}

/// The offset of (`t`, `p`), if there is one.
pub open spec fn offset_of(offs: Seq<OffsetView>, t: Seq<char>, p: u32) -> Option<u64> {
    match offset_pos(offs, t, p) {
        Some(i) => Some(offs[i].1),
        None => None,
    }
}

/// The offsets once (`t`, `p`) is at `o`: in place of its offset before,
/// or added last.
pub open spec fn with_offset(offs: Seq<OffsetView>, t: Seq<char>, p: u32, o: u64) -> Seq<OffsetView> {
    match offset_pos(offs, t, p) {
        Some(i) => offs.update(i, ((t, p), o)),
        None => offs.push(((t, p), o)),
    }
}

/// Whether no two offsets are for the same topic partition.
pub open spec fn unique_offset_keys(offs: Seq<OffsetView>) -> bool {
    forall|i: int, j: int| 0 <= i < j < offs.len() ==> (#[trigger] offs[i]).0 != (#[trigger] offs[j]).0
}

/// The subscriptions once topic `t` has partitions `ps`: in place of its
/// subscription before, or added last.
pub open spec fn with_subscription(subs: Seq<(Seq<char>, Seq<u32>)>, t: Seq<char>, ps: Seq<u32>) -> Seq<(Seq<char>, Seq<u32>)> {
    if exists|i: int| 0 <= i < subs.len() && (#[trigger] subs[i]).0 == t {
        let i = choose|i: int| 0 <= i < subs.len() && (#[trigger] subs[i]).0 == t;
        subs.update(i, (t, ps))
    } else {
        subs.push((t, ps))
    }
}

/// Whether no two subscriptions are for the same topic.
pub open spec fn unique_topics(subs: Seq<(Seq<char>, Seq<u32>)>) -> bool {
    forall|i: int, j: int| 0 <= i < j < subs.len() ==> (#[trigger] subs[i]).0 != (#[trigger] subs[j]).0
}

/// The offsets once each partition `p` of `ps` of topic `t` is at 0.
pub open spec fn with_zero_offsets(offs: Seq<OffsetView>, t: Seq<char>, ps: Seq<u32>) -> Seq<OffsetView>
    decreases ps.len(),
{
    if ps.len() == 0 {
        offs
    } else {
        with_offset(with_zero_offsets(offs, t, ps.drop_last()), t, ps.last(), 0)
    }
}

/// What a consumer knows.
pub struct ConsumerView {
    pub subscriptions: Seq<(Seq<char>, Seq<u32>)>,
    pub offsets: Seq<OffsetView>,
    pub group_id: Option<Seq<char>>,
    pub member_id: Option<Seq<char>>,
    pub assignments: Seq<(Seq<char>, u32)>,
    pub auto_commit: bool,
    pub auto_commit_interval: Duration,
}

/// The text of an optional string.
pub open spec fn opt_text(o: Option<String>) -> Option<Seq<char>> {
    match o {
        Some(s) => Some(s@),
        None => None,
    }
}

/// A consumer's state: its subscriptions, the offset it has reached in
/// each partition, and its consumer-group membership.
pub struct ConsumerState {
    subscriptions: Vec<(String, Vec<u32>)>,
    offsets: Vec<((String, u32), u64)>,
    group_id: Option<String>,
    member_id: Option<String>,
    assignments: Vec<PartitionAssignment>,
    auto_commit: bool,
    auto_commit_interval: Duration,
}

impl View for ConsumerState {
    type V = ConsumerView;

    closed spec fn view(&self) -> ConsumerView {
        ConsumerView {
            subscriptions: self.subscriptions@.map_values(|e: (String, Vec<u32>)| (e.0@, e.1@)),
            offsets: self.offsets@.map_values(|e: ((String, u32), u64)| ((e.0.0@, e.0.1), e.1)),
            group_id: opt_text(self.group_id),
            member_id: opt_text(self.member_id),
            assignments: assignment_views(self.assignments@),
            auto_commit: self.auto_commit,
            auto_commit_interval: self.auto_commit_interval,
        }
    }
}

/// A copy of an optional string.
fn copy_opt(o: &Option<String>) -> (r: Option<String>)
    ensures
        opt_text(r) == opt_text(*o),
{
    match o {
        Some(s) => Some(s.clone()),
        None => None,
    }
}

/// A copy of a list of strings.
fn copy_strings(v: &Vec<String>) -> (r: Vec<String>)
    ensures
        texts(r@) == texts(v@),
{
    let mut r: Vec<String> = Vec::new();
    let mut i: usize = 0;
    while i < v.len()
        invariant
            i <= v.len(),
            texts(r@) =~= texts(v@).subrange(0, i as int),
        decreases v.len() - i,
    {
        let ghost prev = r@;
        let s = v[i].clone();
        r.push(s);
        proof {
            assert(r@ =~= prev.push(s));
            assert(texts(r@) =~= texts(prev).push(s@));
        }
        i = i + 1;
    }
    r
}

impl ConsumerState {
    /// Well-formedness: one offset per partition, one subscription per
    /// topic.
    pub closed spec fn wf(&self) -> bool {
        &&& unique_offset_keys(self@.offsets)
        &&& unique_topics(self@.subscriptions)
    }

    /// A consumer with no subscription, offset or group, and auto-commit
    /// off (every 5 seconds once on).
    pub fn new() -> (r: Self)
        ensures
            r.wf(),
            r@.subscriptions == Seq::<(Seq<char>, Seq<u32>)>::empty(),
            r@.offsets == Seq::<OffsetView>::empty(),
            r@.group_id is None,
            r@.member_id is None,
            r@.assignments == Seq::<(Seq<char>, u32)>::empty(),
            !r@.auto_commit,
            r@.auto_commit_interval.spec_secs() == 5 && r@.auto_commit_interval.spec_subsec_nanos() == 0,
    {
        let r = ConsumerState {
            subscriptions: Vec::new(),
            offsets: Vec::new(),
            group_id: None,
            member_id: None,
            assignments: Vec::new(),
            auto_commit: false,
            auto_commit_interval: Duration::from_secs(5),
        };
        assert(r@.subscriptions =~= Seq::<(Seq<char>, Seq<u32>)>::empty());
        assert(r@.offsets =~= Seq::<OffsetView>::empty());
        assert(r@.assignments =~= Seq::<(Seq<char>, u32)>::empty());
        r
    }

    /// The same consumer, in consumer group `group_id`.
    pub fn with_group_id(self, group_id: String) -> (r: Self)
        requires
            self.wf(),
        ensures
            r.wf(),
            r@ == (ConsumerView { group_id: Some(group_id@), ..self@ }),
    {
        ConsumerState { group_id: Some(group_id), ..self }
    }

    /// The same consumer with auto-commit on, every `interval` when given.
    pub fn with_auto_commit(self, interval: Option<Duration>) -> (r: Self)
        requires
            self.wf(),
        ensures
            r.wf(),
            r@ == (ConsumerView {
                auto_commit: true,
                auto_commit_interval: match interval {
                    Some(d) => d,
                    None => self@.auto_commit_interval,
                },
                ..self@
            }),
    {
        let auto_commit_interval = match interval {
            Some(d) => d,
            None => self.auto_commit_interval,
        };
        ConsumerState { auto_commit: true, auto_commit_interval, ..self }
    }

    /// The consumer group, if any.
    pub fn group_id(&self) -> (r: Option<&String>)
        ensures
            match r {
                Some(s) => self@.group_id == Some(s@),
                None => self@.group_id is None,
            },
    {
        self.group_id.as_ref()
    }

    /// The member id in the group, once joined.
    pub fn member_id(&self) -> (r: Option<&String>)
        ensures
            match r {
                Some(s) => self@.member_id == Some(s@),
                None => self@.member_id is None,
            },
    {
        self.member_id.as_ref()
    }

    /// The partitions assigned in the group.
    pub fn assignments(&self) -> (r: &Vec<PartitionAssignment>)
        ensures
            assignment_views(r@) == self@.assignments,
    {
        &self.assignments
    }

    /// How often offsets are committed automatically, when that is on.
    pub fn auto_commit_interval(&self) -> (r: Duration)
        ensures
            r == self@.auto_commit_interval,
    {
        self.auto_commit_interval
    }

    /// The request to join the group, interested in `topics`; refused
    /// when no group is set.
    pub fn join_group_request(&self, topics: Vec<String>) -> (r: Result<Request>)
        ensures
            match self@.group_id {
                Some(g) => r matches Ok(Request::JoinGroup { group_id, member_id, topics: ts }) && group_id@ == g
                    && opt_text(member_id) == self@.member_id && ts@ == topics@,
                None => r matches Err(GaffaError::Protocol(s)) && s@ == "Group ID not set"@,
            },
    {
        match &self.group_id {
            Some(g) => Ok(Request::JoinGroup { group_id: g.clone(), member_id: copy_opt(&self.member_id), topics }),
            None => Err(GaffaError::Protocol(String::from_str("Group ID not set"))),
        }
    }

    /// Takes in the answer to a join request: on success the member id and
    /// the assignments become the consumer's, and the assignments are
    /// returned.
    pub fn finish_join(&mut self, response: Response) -> (r: Result<Vec<PartitionAssignment>>)
        requires
            old(self).wf(),
        ensures
            final(self).wf(),
            match response {
                Response::JoinGroupSuccess { member_id, assignments, .. } => r matches Ok(a) && assignment_views(a@)
                    == assignment_views(assignments@) && final(self)@ == (ConsumerView {
                    member_id: Some(member_id@),
                    assignments: assignment_views(assignments@),
                    ..old(self)@
                }),
                Response::JoinGroupError { error } => (r matches Err(e) && is_refusal(e, error)) && final(self)@ == old(self)@,
                _ => (r matches Err(e) && is_unexpected(e)) && final(self)@ == old(self)@,
            },
    {
        match response {
            Response::JoinGroupSuccess { member_id, assignments, .. } => {
                let copy = crate::coordinator::copy_assignments(&assignments);
                self.member_id = Some(member_id);
                self.assignments = assignments;
                Ok(copy)
            },
            Response::JoinGroupError { error } => Err(GaffaError::Protocol(error)),
            _ => Err(unexpected()),
        }
    }

    /// The request for the committed offset of a partition of the group.
    pub fn fetch_offset_request(&self, topic: &str, partition: u32) -> (r: Request)
        requires
            self@.group_id is Some,
        ensures
            r matches Request::FetchOffset { group_id, topic: t, partition: p } && Some(group_id@) == self@.group_id
                && t@ == topic@ && p == partition,
    {
        let g = match &self.group_id {
            Some(g) => g.clone(),
            None => String::new(),
        };
        Request::FetchOffset { group_id: g, topic: topic.to_owned(), partition }
    }

    /// The request to leave the group; refused when not in a group, or not
    /// yet a member.
    pub fn leave_group_request(&self) -> (r: Result<Request>)
        ensures
            match (self@.group_id, self@.member_id) {
                (Some(g), Some(m)) => r matches Ok(Request::LeaveGroup { group_id, member_id }) && group_id@ == g
                    && member_id@ == m,
                (None, _) => r matches Err(GaffaError::Protocol(s)) && s@ == "Not in a group"@,
                (Some(_), None) => r matches Err(GaffaError::Protocol(s)) && s@ == "Member ID not set"@,
            },
    {
        let g = match &self.group_id {
            Some(g) => g.clone(),
            None => return Err(GaffaError::Protocol(String::from_str("Not in a group"))),
        };
        let m = match &self.member_id {
            Some(m) => m.clone(),
            None => return Err(GaffaError::Protocol(String::from_str("Member ID not set"))),
        };
        Ok(Request::LeaveGroup { group_id: g, member_id: m })
    }

    /// Takes in the answer to a leave request: on success the consumer is
    /// no longer a member and has no assignments.
    pub fn finish_leave(&mut self, response: Response) -> (r: Result<()>)
        requires
            old(self).wf(),
        ensures
            final(self).wf(),
            match response {
                Response::LeaveGroupSuccess { .. } => r is Ok && final(self)@ == (ConsumerView {
                    member_id: None,
                    assignments: Seq::empty(),
                    ..old(self)@
                }),
                Response::LeaveGroupError { error } => (r matches Err(e) && is_refusal(e, error)) && final(self)@ == old(self)@,
                _ => (r matches Err(e) && is_unexpected(e)) && final(self)@ == old(self)@,
            },
    {
        match response {
            Response::LeaveGroupSuccess { .. } => {
                self.member_id = None;
                self.assignments = Vec::new();
                assert(self@.assignments =~= Seq::<(Seq<char>, u32)>::empty());
                Ok(())
            },
            Response::LeaveGroupError { error } => Err(GaffaError::Protocol(error)),
            _ => Err(unexpected()),
        }
    }

    /// The heartbeat request of a member of the group.
    pub fn heartbeat_request(&self) -> (r: Request)
        requires
            self@.group_id is Some,
            self@.member_id is Some,
        ensures
            r matches Request::Heartbeat { group_id, member_id } && Some(group_id@) == self@.group_id
                && Some(member_id@) == self@.member_id,
    {
        let g = match &self.group_id {
            Some(g) => g.clone(),
            None => String::new(),
        };
        let m = match &self.member_id {
            Some(m) => m.clone(),
            None => String::new(),
        };
        Request::Heartbeat { group_id: g, member_id: m }
    }

    /// The position of the offset of (`topic`, `partition`).
    fn find_offset(&self, topic: &str, partition: u32) -> (r: Option<usize>)
        requires
            self.wf(),
        ensures
            match r {
                Some(i) => i < self.offsets.len() && offset_pos(self@.offsets, topic@, partition) == Some(i as int),
                None => offset_pos(self@.offsets, topic@, partition) is None,
            },
    {
        let ghost offs = self@.offsets;
        let mut i: usize = 0;
        while i < self.offsets.len()
            invariant
                i <= self.offsets.len(),
                offs == self@.offsets,
                offs.len() == self.offsets.len(),
                unique_offset_keys(offs),
                forall|k: int| 0 <= k < i ==> (#[trigger] offs[k]).0 != (topic@, partition),
            decreases self.offsets.len() - i,
        {
            let e = &self.offsets[i];
            proof {
                assert(offs[i as int] == ((e.0.0@, e.0.1), e.1));
            }
            if e.0.1 == partition && same_text(topic, &e.0.0) {
                proof {
                    assert(offs[i as int].0 == (topic@, partition));
                    let c = choose|k: int| 0 <= k < offs.len() && (#[trigger] offs[k]).0 == (topic@, partition);
                    if c < i {
                        assert(offs[c].0 != offs[i as int].0);
                    } else if c > i {
                        assert(offs[i as int].0 != offs[c].0);
                    }
                }
                return Some(i);
            }
            i = i + 1;
        }
        None
    }

    /// Sets the offset of (`topic`, `partition`) to `offset`.
    fn set_offset(&mut self, topic: &str, partition: u32, offset: u64)
        requires
            old(self).wf(),
        ensures
            final(self).wf(),
            final(self)@ == (ConsumerView { offsets: with_offset(old(self)@.offsets, topic@, partition, offset), ..old(self)@ }),
    {
        let ghost offs = self@.offsets;
        let e = ((topic.to_owned(), partition), offset);
        match self.find_offset(topic, partition) {
            Some(i) => {
                self.offsets.set(i, e);
                proof {
                    assert(self@.offsets =~= offs.update(i as int, ((topic@, partition), offset)));
                    let ns = self@.offsets;
                    assert forall|a: int, b: int| 0 <= a < b < ns.len() implies (#[trigger] ns[a]).0 != (#[trigger] ns[b]).0 by {
                        assert(offs[a].0 != offs[b].0);
                    }
                }
            },
            None => {
                self.offsets.push(e);
                proof {
                    assert(self@.offsets =~= offs.push(((topic@, partition), offset)));
                    let ns = self@.offsets;
                    assert forall|a: int, b: int| 0 <= a < b < ns.len() implies (#[trigger] ns[a]).0 != (#[trigger] ns[b]).0 by {
                        if b == offs.len() {
                            assert(ns[a] == offs[a]);
                        }
                    }
                }
            },
        }
    }

    /// Sets the offset of a partition by hand: the next fetch from it starts
    /// there.
    pub fn commit_offset(&mut self, topic: &str, partition: u32, offset: u64)
        requires
            old(self).wf(),
        ensures
            final(self).wf(),
            final(self)@ == (ConsumerView { offsets: with_offset(old(self)@.offsets, topic@, partition, offset), ..old(self)@ }),
    {
        self.set_offset(topic, partition, offset);
    }

    /// Moves to `offset` in a partition.
    pub fn seek(&mut self, topic: &str, partition: u32, offset: u64)
        requires
            old(self).wf(),
        ensures
            final(self).wf(),
            final(self)@ == (ConsumerView { offsets: with_offset(old(self)@.offsets, topic@, partition, offset), ..old(self)@ }),
    {
        self.set_offset(topic, partition, offset);
    }

    /// The offset reached in a partition, if the consumer has one there.
    pub fn get_offset(&self, topic: &str, partition: u32) -> (r: Option<u64>)
        requires
            self.wf(),
        ensures
            r == offset_of(self@.offsets, topic@, partition),
    {
        match self.find_offset(topic, partition) {
            Some(i) => Some(self.offsets[i].1),
            None => None,
        }
    }

    /// The offset to fetch from next in a partition: the one reached, or 0.
    fn next_offset(&self, topic: &str, partition: u32) -> (r: u64)
        requires
            self.wf(),
        ensures
            r == (match offset_of(self@.offsets, topic@, partition) {
                Some(o) => o,
                None => 0,
            }),
    {
        match self.get_offset(topic, partition) {
            Some(o) => o,
            None => 0,
        }
    }

    /// The position of the subscription to `topic`.
    fn find_subscription(&self, topic: &str) -> (r: Option<usize>)
        ensures
            match r {
                Some(i) => i < self.subscriptions.len() && self@.subscriptions[i as int].0 == topic@,
                None => forall|k: int| 0 <= k < self@.subscriptions.len() ==> (#[trigger] self@.subscriptions[k]).0 != topic@,
            },
            self@.subscriptions.len() == self.subscriptions.len(),
    {
        let mut i: usize = 0;
        while i < self.subscriptions.len()
            invariant
                i <= self.subscriptions.len(),
                self@.subscriptions.len() == self.subscriptions.len(),
                forall|k: int| 0 <= k < i ==> (#[trigger] self@.subscriptions[k]).0 != topic@,
            decreases self.subscriptions.len() - i,
        {
            proof {
                assert(self@.subscriptions[i as int] == (self.subscriptions@[i as int].0@, self.subscriptions@[i as int].1@));
            }
            if same_text(topic, &self.subscriptions[i].0) {
                return Some(i);
            }
            i = i + 1;
        }
        None
    }

    /// Subscribes to every partition (`0..partition_count`) of `topic`,
    /// each at offset 0.
    pub fn subscribe_topic(&mut self, topic: &str, partition_count: u32)
        requires
            old(self).wf(),
        ensures
            final(self).wf(),
            final(self)@ == (ConsumerView {
                subscriptions: with_subscription(
                    old(self)@.subscriptions,
                    topic@,
                    Seq::new(partition_count as nat, |p: int| p as u32),
                ),
                offsets: with_zero_offsets(old(self)@.offsets, topic@, Seq::new(partition_count as nat, |p: int| p as u32)),
                ..old(self)@
            }),
    {
        let ghost subs = self@.subscriptions;
        let ghost all = Seq::new(partition_count as nat, |p: int| p as u32);
        let mut ids: Vec<u32> = Vec::new();
        let mut p: u32 = 0;
        while p < partition_count
            invariant
                p <= partition_count,
                ids@ =~= all.subrange(0, p as int),
                all == Seq::new(partition_count as nat, |q: int| q as u32),
            decreases partition_count - p,
        {
            ids.push(p);
            p = p + 1;
        }
        assert(all.subrange(0, partition_count as int) =~= all);
        // subscriptions: replace or add
        let pos = self.find_subscription(topic);
        let ghost before = self@;
        if let Some(i) = pos {
            proof {
                assert(subs[i as int].0 == topic@);
                let c = choose|k: int| 0 <= k < subs.len() && (#[trigger] subs[k]).0 == topic@;
                if c < i {
                    assert(subs[c].0 != subs[i as int].0);
                } else if c > i {
                    assert(subs[i as int].0 != subs[c].0);
                }
            }
            self.subscriptions.set(i, (topic.to_owned(), ids));
            proof {
                assert(self@.subscriptions =~= subs.update(i as int, (topic@, all)));
                let ns = self@.subscriptions;
                assert forall|a: int, b: int| 0 <= a < b < ns.len() implies (#[trigger] ns[a]).0 != (#[trigger] ns[b]).0 by {
                    assert(subs[a].0 != subs[b].0);
                }
            }
        } else {
            self.subscriptions.push((topic.to_owned(), ids));
            proof {
                assert(self@.subscriptions =~= subs.push((topic@, all)));
                let ns = self@.subscriptions;
                assert forall|a: int, b: int| 0 <= a < b < ns.len() implies (#[trigger] ns[a]).0 != (#[trigger] ns[b]).0 by {
                    if b == subs.len() {
                        assert(ns[a] == subs[a]);
                    }
                }
            }
        }
        proof {
            assert(self@.subscriptions == with_subscription(subs, topic@, all));
            assert(self@ == (ConsumerView { subscriptions: self@.subscriptions, ..before }));
        }
        // offsets: each partition at 0
        let ghost offs0 = self@.offsets;
        let ghost mid = self@;
        let mut q: u32 = 0;
        proof {
            assert(all.subrange(0, 0) =~= Seq::<u32>::empty());
        }
        while q < partition_count
            invariant
                q <= partition_count,
                self.wf(),
                all == Seq::new(partition_count as nat, |k: int| k as u32),
                self@ == (ConsumerView { offsets: with_zero_offsets(offs0, topic@, all.subrange(0, q as int)), ..mid }),
            decreases partition_count - q,
        {
            self.set_offset(topic, q, 0);
            proof {
                assert(all.subrange(0, q + 1).drop_last() =~= all.subrange(0, q as int));
                assert(all.subrange(0, q + 1).last() == q);
            }
            q = q + 1;
        }
        assert(all.subrange(0, partition_count as int) =~= all);
    }

    /// Where to fetch from in each subscribed partition, topic by topic:
    /// topic, partition and the offset reached there (or 0).
    pub fn poll_plan(&self) -> (r: Vec<(String, u32, u64)>)
        requires
            self.wf(),
        ensures
            forall|i: int| 0 <= i < r@.len() ==> {
                let e = #[trigger] r@[i];
                e.2 == (match offset_of(self@.offsets, e.0@, e.1) {
                    Some(o) => o,
                    None => 0,
                })
            },
            r@.map_values(|e: (String, u32, u64)| (e.0@, e.1)) == subscribed_partitions(self@.subscriptions),
    {
        let mut r: Vec<(String, u32, u64)> = Vec::new();
        let ghost subs = self@.subscriptions;
        let mut i: usize = 0;
        proof {
            assert(subs.subrange(0, 0) =~= Seq::<(Seq<char>, Seq<u32>)>::empty());
            assert(r@.map_values(|e: (String, u32, u64)| (e.0@, e.1)) =~= subscribed_partitions(subs.subrange(0, 0)));
        }
        while i < self.subscriptions.len()
            invariant
                i <= self.subscriptions.len(),
                self.wf(),
                subs == self@.subscriptions,
                subs.len() == self.subscriptions.len(),
                forall|k: int| 0 <= k < r@.len() ==> {
                    let e = #[trigger] r@[k];
                    e.2 == (match offset_of(self@.offsets, e.0@, e.1) {
                        Some(o) => o,
                        None => 0,
                    })
                },
                r@.map_values(|e: (String, u32, u64)| (e.0@, e.1)) == subscribed_partitions(subs.subrange(0, i as int)),
            decreases self.subscriptions.len() - i,
        {
            let topic = &self.subscriptions[i].0;
            let parts = &self.subscriptions[i].1;
            proof {
                assert(subs[i as int] == (topic@, parts@));
                assert(subs.subrange(0, i + 1).drop_last() =~= subs.subrange(0, i as int));
            }
            let ghost start = r@.map_values(|e: (String, u32, u64)| (e.0@, e.1));
            let mut j: usize = 0;
            while j < parts.len()
                invariant
                    j <= parts.len(),
                    self.wf(),
                    forall|k: int| 0 <= k < r@.len() ==> {
                        let e = #[trigger] r@[k];
                        e.2 == (match offset_of(self@.offsets, e.0@, e.1) {
                            Some(o) => o,
                            None => 0,
                        })
                    },
                    r@.map_values(|e: (String, u32, u64)| (e.0@, e.1)) =~= start + parts@.subrange(0, j as int).map_values(|p: u32| (topic@, p)),
                decreases parts.len() - j,
            {
                let p = parts[j];
                let o = self.next_offset(topic.as_str(), p);
                let ghost prev = r@;
                let e = (topic.clone(), p, o);
                r.push(e);
                proof {
                    assert(r@ =~= prev.push(e));
                    assert(r@.map_values(|x: (String, u32, u64)| (x.0@, x.1)) =~= prev.map_values(|x: (String, u32, u64)| (x.0@, x.1)).push((topic@, p)));
                    assert(parts@.subrange(0, j + 1).map_values(|q: u32| (topic@, q)) =~= parts@.subrange(0, j as int).map_values(|q: u32| (topic@, q)).push((topic@, p)));
                }
                j = j + 1;
            }
            proof {
                assert(parts@.subrange(0, parts.len() as int) =~= parts@);
            }
            i = i + 1;
        }
        proof {
            assert(subs.subrange(0, subs.len() as int) =~= subs);
        }
        r
    }

    /// Where to fetch from in each assigned partition, in assignment order:
    /// topic, partition and the offset reached there (or 0).
    pub fn group_poll_plan(&self) -> (r: Vec<(String, u32, u64)>)
        requires
            self.wf(),
        ensures
            r@.map_values(|e: (String, u32, u64)| (e.0@, e.1)) == self@.assignments,
            forall|i: int| 0 <= i < r@.len() ==> {
                let e = #[trigger] r@[i];
                e.2 == (match offset_of(self@.offsets, e.0@, e.1) {
                    Some(o) => o,
                    None => 0,
                })
            },
    {
        let mut r: Vec<(String, u32, u64)> = Vec::new();
        let mut i: usize = 0;
        while i < self.assignments.len()
            invariant
                i <= self.assignments.len(),
                self.wf(),
                r@.map_values(|e: (String, u32, u64)| (e.0@, e.1)) =~= self@.assignments.subrange(0, i as int),
                forall|k: int| 0 <= k < r@.len() ==> {
                    let e = #[trigger] r@[k];
                    e.2 == (match offset_of(self@.offsets, e.0@, e.1) {
                        Some(o) => o,
                        None => 0,
                    })
                },
            decreases self.assignments.len() - i,
        {
            let a = &self.assignments[i];
            let o = self.next_offset(a.topic.as_str(), a.partition);
            let ghost prev = r@;
            let e = (a.topic.clone(), a.partition, o);
            r.push(e);
            proof {
                assert(r@ =~= prev.push(e));
                assert(r@.map_values(|x: (String, u32, u64)| (x.0@, x.1)) =~= prev.map_values(|x: (String, u32, u64)| (x.0@, x.1)).push((a.topic@, a.partition)));
                assert(self@.assignments[i as int] == (a.topic@, a.partition));
            }
            i = i + 1;
        }
        r
    }

    /// Takes in records fetched from a partition: the offset there moves
    /// past the last of them; with no records nothing changes.
    pub fn advance(&mut self, topic: &str, partition: u32, records: &Vec<Record>)
        requires
            old(self).wf(),
            records.len() > 0 ==> records@.last().offset < u64::MAX,
        ensures
            final(self).wf(),
            records.len() == 0 ==> final(self)@ == old(self)@,
            records.len() > 0 ==> final(self)@ == (ConsumerView {
                offsets: with_offset(old(self)@.offsets, topic@, partition, (records@.last().offset + 1) as u64),
                ..old(self)@
            }),
    {
        if records.len() > 0 {
            let last = records[records.len() - 1].offset;
            self.set_offset(topic, partition, last + 1);
        }
    }

    /// Whether offsets are to be committed after a group poll that fetched
    /// `fetched` records: auto-commit is on and something was fetched.
    pub fn should_auto_commit(&self, fetched: usize) -> (r: bool)
        ensures
            r == (self@.auto_commit && fetched > 0),
    {
        self.auto_commit && fetched > 0
    }

    /// The requests that commit every offset reached, one per partition, in
    /// order; refused when not in a consumer group.
    pub fn commit_requests(&self) -> (r: Result<Vec<Request>>)
        ensures
            match self@.group_id {
                Some(g) => r matches Ok(v) && v@.len() == self@.offsets.len() && forall|i: int| 0 <= i < v@.len() ==> commits(
                    #[trigger] v@[i],
                    g,
                    self@.offsets[i],
                ),
                None => r matches Err(GaffaError::Protocol(s)) && s@ == "Not in a consumer group"@,
            },
    {
        let g = match &self.group_id {
            Some(g) => g,
            None => return Err(GaffaError::Protocol(String::from_str("Not in a consumer group"))),
        };
        let mut v: Vec<Request> = Vec::new();
        let mut i: usize = 0;
        while i < self.offsets.len()
            invariant
                i <= self.offsets.len(),
                self@.group_id == Some(g@),
                self@.offsets.len() == self.offsets.len(),
                v@.len() == i,
                forall|k: int| 0 <= k < i ==> commits(#[trigger] v@[k], g@, self@.offsets[k]),
            decreases self.offsets.len() - i,
        {
            let e = &self.offsets[i];
            proof {
                assert(self@.offsets[i as int] == ((e.0.0@, e.0.1), e.1));
            }
            v.push(Request::CommitOffset { group_id: g.clone(), topic: e.0.0.clone(), partition: e.0.1, offset: e.1 });
            i = i + 1;
        }
        Ok(v)
    }
}

/// Whether `req` commits offset `e` for group `g`.
pub open spec fn commits(req: Request, g: Seq<char>, e: OffsetView) -> bool {
    req matches Request::CommitOffset { group_id, topic, partition, offset } && group_id@ == g && (topic@, partition)
        == e.0 && offset == e.1
}

/// Each partition of each subscription, topic by topic.
pub open spec fn subscribed_partitions(subs: Seq<(Seq<char>, Seq<u32>)>) -> Seq<(Seq<char>, u32)>
    decreases subs.len(),
{
    if subs.len() == 0 {
        Seq::empty()
    } else {
        subscribed_partitions(subs.drop_last()) + subs.last().1.map_values(|p: u32| (subs.last().0, p))
    }
}

/// The request for `max_messages` messages of a partition from `offset`.
pub fn fetch_request(topic: &str, partition: u32, offset: u64, max_messages: u32) -> (r: Request)
    ensures
        r matches Request::Fetch { topic: t, partition: p, offset: o, max_messages: m } && t@ == topic@ && p == partition
            && o == offset && m == max_messages,
{
    Request::Fetch { topic: topic.to_owned(), partition, offset, max_messages }
}

/// The request for the metadata of one topic.
pub fn topic_metadata_request(topic: &str) -> (r: Request)
    ensures
        r matches Request::GetMetadata { topics } && topics@.len() == 1 && topics@[0]@ == topic@,
{
    let mut topics: Vec<String> = Vec::new();
    topics.push(topic.to_owned());
    Request::GetMetadata { topics }
}

/// The request to create topic `name` with `partitions` partitions.
pub fn create_topic_request(name: &str, partitions: u32) -> (r: Request)
    ensures
        r matches Request::CreateTopic { name: n, partitions: p } && n@ == name@ && p == partitions,
{
    Request::CreateTopic { name: name.to_owned(), partitions }
}

/// The request to store `messages` in a partition.
pub fn produce_request(topic: &str, partition: u32, messages: Vec<Message>) -> (r: Request)
    ensures
        r matches Request::Produce { topic: t, partition: p, messages: m } && t@ == topic@ && p == partition
            && m@ == messages@,
{
    Request::Produce { topic: topic.to_owned(), partition, messages }
}

/// The request for the partition count of a topic.
pub fn partitions_request(topic: &str) -> (r: Request)
    ensures
        r matches Request::GetPartitions { topic: t } && t@ == topic@,
{
    Request::GetPartitions { topic: topic.to_owned() }
}

/// The base offset to report for a batched send: the first nonzero base
/// offset of the partitions' answers.
pub fn first_base_offset(so_far: u64, offset: u64) -> (r: u64)
    ensures
        r == (if so_far == 0 {
            offset
        } else {
            so_far
        }),
{
    if so_far == 0 {
        offset
    } else {
        so_far
    }
}

/// The content of each message.
pub open spec fn message_views(v: Seq<Message>) -> Seq<MessageView> {
    v.map_values(|m: Message| m@)
}

/// The position of the batch of partition `p`, if there is one.
pub open spec fn batch_pos(batches: Seq<(u32, Seq<MessageView>)>, p: u32) -> Option<int> {
    if exists|i: int| 0 <= i < batches.len() && (#[trigger] batches[i]).0 == p {
        Some(choose|i: int| 0 <= i < batches.len() && (#[trigger] batches[i]).0 == p)
    } else {
        None
    }
}

/// The messages grouped by partition, each message going to partition
/// `picks[i]`: one batch per partition, in order of first use, each
/// holding its messages in order.
pub open spec fn grouped(msgs: Seq<MessageView>, picks: Seq<u32>) -> Seq<(u32, Seq<MessageView>)>
    decreases msgs.len(),
{
    if msgs.len() == 0 || picks.len() == 0 {
        Seq::empty()
    } else {
        let g = grouped(msgs.drop_last(), picks.drop_last());
        let p = picks.last();
        match batch_pos(g, p) {
            Some(i) => g.update(i, (p, g[i].1.push(msgs.last()))),
            None => g.push((p, seq![msgs.last()])),
        }
    }
}

/// Whether `picks` are partitions that a partitioner may give for `len`
/// messages of a topic with `n` partitions.
pub open spec fn valid_picks(picks: Seq<u32>, n: u32, len: nat) -> bool {
    &&& picks.len() == len
    &&& forall|i: int| 0 <= i < picks.len() ==> if n == 0 {
        #[trigger] picks[i] == 0
    } else {
        picks[i] < n
    }
}

/// Whether no two batches are for the same partition.
pub open spec fn distinct_batches(batches: Seq<(u32, Seq<MessageView>)>) -> bool {
    forall|i: int, j: int| 0 <= i < j < batches.len() ==> (#[trigger] batches[i]).0 != (#[trigger] batches[j]).0
}

/// What a producer knows: the partition count of each topic it has asked
/// about.
pub struct ProducerState<P: Partitioner> {
    partitioner: P,
    metadata_cache: Vec<(String, u32)>,
}

/// The keys of the messages, in order.
pub open spec fn message_keys(msgs: Seq<MessageView>) -> Seq<Option<Seq<u8>>> {
    msgs.map_values(|m: MessageView| m.key)
}

impl<P: Partitioner> ProducerState<P> {
    /// The partitioner, in its current state.
    pub closed spec fn spec_partitioner(&self) -> P {
        self.partitioner
    }

    /// The partition counts known, by topic.
    pub closed spec fn cache(&self) -> Seq<(Seq<char>, u32)> {
        self.metadata_cache@.map_values(|e: (String, u32)| (e.0@, e.1))
    }

    /// Well-formedness: one count per topic.
    pub closed spec fn wf(&self) -> bool {
        crate::coordinator::unique_topics(self.cache())
    }

    /// A producer that picks partitions with `partitioner` and knows no
    /// topic yet.
    pub fn new(partitioner: P) -> (r: Self)
        ensures
            r.wf(),
            r.cache() == Seq::<(Seq<char>, u32)>::empty(),
    {
        let r = ProducerState { partitioner, metadata_cache: Vec::new() };
        assert(r.cache() =~= Seq::<(Seq<char>, u32)>::empty());
        r
    }

    /// The known partition count of `topic`.
    pub fn cached_partition_count(&self, topic: &str) -> (r: Option<u32>)
        requires
            self.wf(),
        ensures
            r == crate::coordinator::partition_count_at(self.cache(), topic@),
    {
        let mut i: usize = 0;
        while i < self.metadata_cache.len()
            invariant
                i <= self.metadata_cache.len(),
                self.cache().len() == self.metadata_cache.len(),
                crate::coordinator::unique_topics(self.cache()),
                forall|k: int| 0 <= k < i ==> (#[trigger] self.cache()[k]).0 != topic@,
            decreases self.metadata_cache.len() - i,
        {
            proof {
                assert(self.cache()[i as int] == (self.metadata_cache@[i as int].0@, self.metadata_cache@[i as int].1));
            }
            if same_text(topic, &self.metadata_cache[i].0) {
                proof {
                    crate::coordinator::lemma_count_index(self.cache(), i as int);
                }
                return Some(self.metadata_cache[i].1);
            }
            i = i + 1;
        }
        None
    }

    /// The known partition count of `topic`; a topic not known is not
    /// found.
    pub fn partition_count_or_not_found(&self, topic: &str) -> (r: Result<u32>)
        requires
            self.wf(),
        ensures
            match crate::coordinator::partition_count_at(self.cache(), topic@) {
                Some(n) => r == Ok::<u32, GaffaError>(n),
                None => r matches Err(GaffaError::TopicNotFound(t)) && t@ == topic@,
            },
    {
        match self.cached_partition_count(topic) {
            Some(n) => Ok(n),
            None => Err(GaffaError::TopicNotFound(topic.to_owned())),
        }
    }

    /// Records that `topic` has `count` partitions.
    fn remember(&mut self, topic: String, count: u32)
        requires
            old(self).wf(),
        ensures
            final(self).wf(),
            final(self).cache() == crate::coordinator::counts_after(old(self).cache(), topic@, count),
    {
        let ghost tp = self.cache();
        let mut i: usize = 0;
        while i < self.metadata_cache.len()
            invariant
                i <= self.metadata_cache.len(),
                tp == self.cache(),
                tp == old(self).cache(),
                tp.len() == self.metadata_cache.len(),
                crate::coordinator::unique_topics(tp),
                forall|k: int| 0 <= k < i ==> (#[trigger] tp[k]).0 != topic@,
            decreases self.metadata_cache.len() - i,
        {
            proof {
                assert(tp[i as int] == (self.metadata_cache@[i as int].0@, self.metadata_cache@[i as int].1));
            }
            if same_text(topic.as_str(), &self.metadata_cache[i].0) {
                proof {
                    assert(tp[i as int].0 == topic@);
                    crate::coordinator::lemma_count_index(tp, i as int);
                }
                self.metadata_cache.set(i, (topic, count));
                proof {
                    assert(self.cache() =~= tp.update(i as int, (tp[i as int].0, count)));
                    let t2 = self.cache();
                    assert forall|a: int, b: int| 0 <= a < b < t2.len() implies (#[trigger] t2[a]).0 != (#[trigger] t2[b]).0 by {
                        assert(tp[a].0 != tp[b].0);
                    }
                }
                return;
            }
            i = i + 1;
        }
        self.metadata_cache.push((topic, count));
        proof {
            assert(crate::coordinator::count_index(tp, topic@) is None);
            assert(self.cache() =~= tp.push((topic@, count)));
            let t2 = self.cache();
            assert forall|a: int, b: int| 0 <= a < b < t2.len() implies (#[trigger] t2[a]).0 != (#[trigger] t2[b]).0 by {
                if b == tp.len() {
                    assert(t2[a] == tp[a]);
                }
            }
        }
    }

    /// Takes in the answer to a partition-count request: the count is
    /// remembered.
    pub fn record_partitions(&mut self, response: Response) -> (r: Result<()>)
        requires
            old(self).wf(),
        ensures
            final(self).wf(),
            match response {
                Response::Partitions { topic, count } => r is Ok && final(self).cache() == crate::coordinator::counts_after(
                    old(self).cache(),
                    topic@,
                    count,
                ),
                Response::PartitionsError { error } => (r matches Err(e) && is_refusal(e, error)) && final(self).cache()
                    == old(self).cache(),
                _ => (r matches Err(e) && is_unexpected(e)) && final(self).cache() == old(self).cache(),
            },
    {
        match response {
            Response::Partitions { topic, count } => {
                self.remember(topic, count);
                Ok(())
            },
            Response::PartitionsError { error } => Err(GaffaError::Protocol(error)),
            _ => Err(unexpected()),
        }
    }

    /// Takes in a metadata answer: the partition count of each topic in it
    /// is remembered, and the metadata returned.
    pub fn record_metadata(&mut self, response: Response) -> (r: Result<Vec<TopicMetadata>>)
        requires
            old(self).wf(),
        ensures
            final(self).wf(),
            match response {
                Response::Metadata { topics } => (r matches Ok(v) && v@ == topics@) && final(self).cache()
                    == metadata_counts(old(self).cache(), topics@),
                Response::MetadataError { error } => (r matches Err(e) && is_refusal(e, error)) && final(self).cache()
                    == old(self).cache(),
                _ => (r matches Err(e) && is_unexpected(e)) && final(self).cache() == old(self).cache(),
            },
    {
        match response {
            Response::Metadata { topics } => {
                let mut i: usize = 0;
                let ghost start = self.cache();
                proof {
                    assert(topics@.subrange(0, 0) =~= Seq::<TopicMetadata>::empty());
                }
                while i < topics.len()
                    invariant
                        i <= topics.len(),
                        self.wf(),
                        self.cache() == metadata_counts(start, topics@.subrange(0, i as int)),
                    decreases topics.len() - i,
                {
                    let t = &topics[i];
                    proof {
                        assert(topics@.subrange(0, i + 1).drop_last() =~= topics@.subrange(0, i as int));
                        assert(topics@.subrange(0, i + 1).last() == topics@[i as int]);
                    }
                    #[verifier::truncate]
                    let count = t.partitions.len() as u32;
                    self.remember(t.name.clone(), count);
                    i = i + 1;
                }
                proof {
                    assert(topics@.subrange(0, topics.len() as int) =~= topics@);
                }
                Ok(topics)
            },
            Response::MetadataError { error } => Err(GaffaError::Protocol(error)),
            _ => Err(unexpected()),
        }
    }

    /// Groups `messages` by the partition that the partitioner picks for
    /// each, asking it once per message, in order: one batch per partition,
    /// in order of first use. The partitioner ends in the state those
    /// picks leave it in.
    pub fn batch_messages(&mut self, messages: Vec<Message>, num_partitions: u32) -> (r: Vec<(u32, Vec<Message>)>)
        ensures
            distinct_batches(r@.map_values(|b: (u32, Vec<Message>)| (b.0, message_views(b.1@)))),
            valid_picks(
                picks_from(old(self).spec_partitioner(), message_keys(message_views(messages@)), num_partitions).0,
                num_partitions,
                messages@.len(),
            ),
            r@.map_values(|b: (u32, Vec<Message>)| (b.0, message_views(b.1@))) == grouped(
                message_views(messages@),
                picks_from(old(self).spec_partitioner(), message_keys(message_views(messages@)), num_partitions).0,
            ),
            final(self).spec_partitioner() == picks_from(
                old(self).spec_partitioner(),
                message_keys(message_views(messages@)),
                num_partitions,
            ).1,
            final(self).cache() == old(self).cache(),
    {
        let ghost msgs = message_views(messages@);
        let ghost keys = message_keys(msgs);
        let ghost start = self.partitioner;
        let ghost mut picks: Seq<u32> = Seq::empty();
        let mut rest = messages;
        let ghost n = rest.len();
        let mut r: Vec<(u32, Vec<Message>)> = Vec::new();
        let mut i: usize = 0;
        proof {
            assert(message_views(rest@) =~= msgs.subrange(0, n as int));
            assert(msgs.subrange(0, 0) =~= Seq::<MessageView>::empty());
            assert(r@.map_values(|b: (u32, Vec<Message>)| (b.0, message_views(b.1@))) =~= Seq::<(u32, Seq<MessageView>)>::empty());
        }
        while rest.len() > 0
            invariant
                i <= n,
                n == msgs.len(),
                message_views(rest@) =~= msgs.subrange(i as int, n as int),
                valid_picks(picks, num_partitions, i as nat),
                keys == message_keys(msgs),
                picks == picks_from(start, keys.subrange(0, i as int), num_partitions).0,
                self.partitioner == picks_from(start, keys.subrange(0, i as int), num_partitions).1,
                self.metadata_cache@ == old(self).metadata_cache@,
                r@.map_values(|b: (u32, Vec<Message>)| (b.0, message_views(b.1@))) == grouped(msgs.subrange(0, i as int), picks),
                distinct_batches(r@.map_values(|b: (u32, Vec<Message>)| (b.0, message_views(b.1@)))),
            decreases rest.len(),
        {
            let ghost before = rest@;
            let m = rest.remove(0);
            proof {
                assert(message_views(before).len() == before.len());
                assert(message_views(before)[0] == before[0]@);
                assert(msgs.subrange(i as int, n as int)[0] == msgs[i as int]);
                assert(m@ == msgs[i as int]);
                assert forall|q: int| 0 <= q < rest@.len() implies #[trigger] message_views(rest@)[q] == msgs.subrange(i + 1, n as int)[q] by {
                    assert(rest@[q] == before[q + 1]);
                    assert(message_views(before)[q + 1] == before[q + 1]@);
                    assert(msgs.subrange(i as int, n as int)[q + 1] == msgs[i + 1 + q]);
                }
            }
            let key: Option<&[u8]> = match &m.key {
                Some(k) => Some(k.as_slice()),
                None => None,
            };
            proof {
                assert(key_bytes(key) == keys[i as int]);
                let ks = keys.subrange(0, i + 1);
                assert(ks.drop_last() =~= keys.subrange(0, i as int));
                assert(ks.last() == keys[i as int]);
            }
            let p = self.partitioner.partition(key, num_partitions);
            let ghost gv = r@.map_values(|b: (u32, Vec<Message>)| (b.0, message_views(b.1@)));
            let ghost mv = m@;
            // the batch of partition p
            let mut j: usize = 0;
            while j < r.len()
                invariant
                    j <= r.len(),
                    gv == r@.map_values(|b: (u32, Vec<Message>)| (b.0, message_views(b.1@))),
                    forall|k: int| 0 <= k < j ==> (#[trigger] gv[k]).0 != p,
                ensures
                    j <= r.len(),
                    gv == r@.map_values(|b: (u32, Vec<Message>)| (b.0, message_views(b.1@))),
                    forall|k: int| 0 <= k < j ==> (#[trigger] gv[k]).0 != p,
                    j < r.len() ==> gv[j as int].0 == p,
                decreases r.len() - j,
            {
                proof {
                    assert(gv[j as int].0 == r@[j as int].0);
                }
                if r[j].0 == p {
                    break;
                }
                j = j + 1;
            }
            proof {
                let sub = msgs.subrange(0, i + 1);
                assert(sub.drop_last() =~= msgs.subrange(0, i as int));
                assert(sub.last() == mv);
                assert(picks.push(p).drop_last() =~= picks);
                assert(picks.push(p).last() == p);
                picks = picks.push(p);
            }
            if j < r.len() {
                proof {
                    assert(gv[j as int].0 == p);
                    let c = choose|k: int| 0 <= k < gv.len() && (#[trigger] gv[k]).0 == p;
                    if c < j {
                        assert(false);
                    } else if c > j {
                        assert(gv[j as int].0 != gv[c].0);
                    }
                    assert(batch_pos(gv, p) == Some(j as int));
                }
                let mut batch = r.remove(j);
                let ghost old_msgs = batch.1@;
                batch.1.push(m);
                r.insert(j, batch);
                proof {
                    assert(message_views(batch.1@) =~= message_views(old_msgs).push(mv));
                    assert(r@.map_values(|b: (u32, Vec<Message>)| (b.0, message_views(b.1@))) =~= gv.update(j as int, (p, gv[j as int].1.push(mv))));
                    let g2 = r@.map_values(|b: (u32, Vec<Message>)| (b.0, message_views(b.1@)));
                    assert forall|a: int, b: int| 0 <= a < b < g2.len() implies (#[trigger] g2[a]).0 != (#[trigger] g2[b]).0 by {
                        assert(gv[a].0 != gv[b].0);
                    }
                }
            } else {
                proof {
                    assert(batch_pos(gv, p) is None);
                }
                let mut batch: Vec<Message> = Vec::new();
                batch.push(m);
                let ghost prev = r@;
                r.push((p, batch));
                proof {
                    assert(message_views(batch@) =~= seq![mv]);
                    assert(r@ =~= prev.push((p, batch)));
                    assert(r@.map_values(|b: (u32, Vec<Message>)| (b.0, message_views(b.1@))) =~= gv.push((p, seq![mv])));
                    let g2 = r@.map_values(|b: (u32, Vec<Message>)| (b.0, message_views(b.1@)));
                    assert forall|a: int, b: int| 0 <= a < b < g2.len() implies (#[trigger] g2[a]).0 != (#[trigger] g2[b]).0 by {
                        if b == gv.len() {
                            assert(g2[a] == gv[a]);
                        } else {
                            assert(gv[a].0 != gv[b].0);
                        }
                    }
                }
            }
            i = i + 1;
        }
        proof {
            assert(msgs.subrange(0, n as int) =~= msgs);
            assert(keys.subrange(0, n as int) =~= keys);
        }
        r
    }
}

/// The partition counts once each topic of a metadata answer is
/// remembered with its number of partitions, in order.
pub open spec fn metadata_counts(cache: Seq<(Seq<char>, u32)>, topics: Seq<TopicMetadata>) -> Seq<(Seq<char>, u32)>
    decreases topics.len(),
{
    if topics.len() == 0 {
        cache
    } else {
        crate::coordinator::counts_after(
            metadata_counts(cache, topics.drop_last()),
            topics.last().name@,
            topics.last().partitions@.len() as u32,
        )
    }
}

/// The request for the metadata of `topics` (all topics when empty).
pub fn metadata_request(topics: Vec<String>) -> (r: Request)
    ensures
        r matches Request::GetMetadata { topics: t } && t@ == topics@,
{
    Request::GetMetadata { topics }
}

/// The request for the list of topics.
pub fn list_topics_request() -> (r: Request)
    ensures
        r is ListTopics,
{
    Request::ListTopics
}

} // verus!
