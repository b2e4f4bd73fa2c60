//! The broker's handling of requests: the decision from a request and
//! the broker's state (topics, consumer groups, committed offsets) to a
//! response and the new state.
use vstd::prelude::*;
use crate::error::{GaffaError, error_text};
use crate::text::decimal_text;
use crate::messages::{Request, Response, TopicMetadata, PartitionMetadata, Record};
use crate::messages::MessageView;
use crate::topic::{TopicManager, has_topic, topic_named, appended, fetched, empty_partitions, name_listed};
use crate::coordinator::{
    GroupCoordinator, CoordinatorView, texts, assignment_views, assignments_in, joined_at, generation_of,
    generated_member_id, counts_after, leave_outcome, coordinator_heartbeat,
};
use crate::offsets::{OffsetManager, with_commit, committed_offset};

verus! {

/// Whether `request` is one that `process_request` handles.
pub open spec fn is_topic_request(request: Request) -> bool {
    ||| request is CreateTopic
    ||| request is Produce
    ||| request is Fetch
    ||| request is GetMetadata
    ||| request is GetPartitions
    ||| request is ListTopics
}

/// Metadata of a topic with `count` partitions on broker 0.
pub open spec fn metadata_of(m: TopicMetadata, name: Seq<char>, count: nat) -> bool {
    &&& m.name@ == name
    &&& m.partitions@.len() == count
    &&& forall|i: int|
        0 <= i < count ==> {
            &&& #[trigger] m.partitions@[i].id == i
            &&& m.partitions@[i].leader == 0
            &&& m.partitions@[i].replicas@ == seq![0u32]
        }
}

fn metadata_for(topics: &TopicManager, name: &str) -> (r: Option<TopicMetadata>)
    requires
        topics.wf(),
    ensures
        has_topic(topics.spec_topics(), name@) ==> (r matches Some(m) && metadata_of(
            m,
            name@,
            topic_named(topics.spec_topics(), name@).partitions.len(),
        )),
        !has_topic(topics.spec_topics(), name@) ==> r is None,
{
    match topics.get_topic(name) {
        Ok(t) => Some(TopicMetadata::new(name.to_owned(), t.num_partitions())),
        Err(_) => None,
    }
}

/// The response and topics after a create request.
pub open spec fn create_outcome(before: Map<Seq<char>, Seq<Seq<MessageView>>>, after: Map<Seq<char>, Seq<Seq<MessageView>>>, name: Seq<char>, partitions: u32, r: Response) -> bool {
    if has_topic(before, name) {
        &&& r matches Response::CreateTopicError { error } && error@ == "Invalid message: "@ + (
        "Topic '"@ + name + "' already exists"@)
        &&& after =~= before
    } else {
        &&& r matches Response::CreateTopicSuccess { name: n, partitions: p } && n@ == name && p
            == partitions
        &&& after =~= before.insert(name, empty_partitions(partitions as nat))
    }
}

/// The response and topics after a produce request.
pub open spec fn produce_outcome(before_topics: Map<Seq<char>, Seq<Seq<MessageView>>>, after_topics: Map<Seq<char>, Seq<Seq<MessageView>>>, topic: Seq<char>, partition: u32, messages: Seq<crate::messages::Message>, r: Response) -> bool {
    if !has_topic(before_topics, topic) {
        &&& r matches Response::ProduceError { error } && error@ == "Topic not found: "@ + topic
        &&& after_topics =~= before_topics
    } else {
        let before = topic_named(before_topics, topic).partitions;
        let after = topic_named(after_topics, topic).partitions;
        &&& after_topics =~= before_topics.insert(topic, after)
        &&& after.len() == before.len()
        &&& forall|i: int| 0 <= i < before.len() && i != partition ==> #[trigger] after[i] == before[i]
        &&& partition >= before.len() ==> (r matches Response::ProduceError { error } && error@
            == "Partition not found: topic="@ + topic + ", partition="@ + decimal_text(partition as nat))
        &&& partition >= before.len() ==> after == before
        &&& partition < before.len() ==> exists|res: crate::error::Result<u64>|
            #[trigger] appended(before[partition as int], messages, res, after[partition as int])
                && produce_response(topic, partition, messages.len(), res, r)
    }
}

/// The response to a produce request whose append gave `res`.
pub open spec fn produce_response(topic: Seq<char>, partition: u32, count: nat, res: crate::error::Result<u64>, r: Response) -> bool {
    match res {
        Ok(b) => r matches Response::ProduceSuccess { topic: t, partition: p, base_offset, count: c }
            && t@ == topic && p == partition && base_offset == b && c == count as u32,
        Err(e) => r matches Response::ProduceError { error } && error@ == error_text(e),
    }
}

/// The response to a fetch request.
pub open spec fn fetch_outcome(topics: Map<Seq<char>, Seq<Seq<MessageView>>>, topic: Seq<char>, partition: u32, offset: u64, max_messages: u32, r: Response) -> bool {
    if !has_topic(topics, topic) {
        r matches Response::FetchError { error } && error@ == "Topic not found: "@ + topic
    } else {
        let parts = topic_named(topics, topic).partitions;
        if partition >= parts.len() {
            r matches Response::FetchError { error } && error@ == "Partition not found: topic="@
                + topic + ", partition="@ + decimal_text(partition as nat)
        } else {
            exists|res: crate::error::Result<Vec<Record>>|
                #[trigger] fetched(topic, partition, parts[partition as int], offset, max_messages, res)
                    && fetch_response(topic, partition, res, r)
        }
    }
}

/// The response to a fetch request whose read gave `res`.
pub open spec fn fetch_response(topic: Seq<char>, partition: u32, res: crate::error::Result<Vec<Record>>, r: Response) -> bool {
    match res {
        Ok(v) => r matches Response::FetchSuccess { topic: t, partition: p, records } && t@ == topic
            && p == partition && records@ == v@,
        Err(e) => r matches Response::FetchError { error } && error@ == error_text(e),
    }
}

/// Whether `metas` holds metadata named `n`.
pub open spec fn has_metadata_for(metas: Seq<TopicMetadata>, n: Seq<char>) -> bool {
    exists|i: int| 0 <= i < metas.len() && metas[i].name@ == n
}

/// The response to a metadata request: with no names, the metadata of
/// every topic, each once; otherwise that of each named topic that exists.
pub open spec fn metadata_outcome(all: Map<Seq<char>, Seq<Seq<MessageView>>>, names: Seq<String>, r: Response) -> bool {
    r matches Response::Metadata { topics: metas } && {
        &&& forall|i: int|
            0 <= i < metas@.len() ==> has_topic(all, (#[trigger] metas@[i]).name@) && metadata_of(
                metas@[i],
                metas@[i].name@,
                all[metas@[i].name@].len(),
            )
        &&& if names.len() == 0 {
            &&& forall|i: int, j: int| 0 <= i < j < metas@.len() ==> metas@[i].name@ != metas@[j].name@
            &&& forall|n: Seq<char>| #[trigger] has_topic(all, n) ==> has_metadata_for(metas@, n)
        } else {
            &&& metas@.len() <= names.len()
            &&& forall|j: int|
                0 <= j < names.len() && has_topic(all, (#[trigger] names[j])@) ==> exists|i: int|
                    0 <= i < metas@.len() && #[trigger] metas@[i].name@ == names[j]@
        }
    }
}

/// The response to a partition-count request.
pub open spec fn partitions_outcome(all: Map<Seq<char>, Seq<Seq<MessageView>>>, topic: Seq<char>, r: Response) -> bool {
    if has_topic(all, topic) {
        r matches Response::Partitions { topic: t, count } && t@ == topic && count == topic_named(
            all,
            topic,
        ).partitions.len()
    } else {
        r matches Response::PartitionsError { error } && error@ == "Topic not found: "@ + topic
    }
}

/// The response to a topic-list request: every topic's name, each once.
pub open spec fn list_outcome(all: Map<Seq<char>, Seq<Seq<MessageView>>>, r: Response) -> bool {
    r matches Response::Topics { topics: names } && {
        &&& forall|i: int| 0 <= i < names@.len() ==> #[trigger] has_topic(all, names@[i]@)
        &&& forall|i: int, j: int| 0 <= i < j < names@.len() ==> names@[i]@ != names@[j]@
        &&& forall|n: Seq<char>| #[trigger] has_topic(all, n) ==> name_listed(names@, n)
    }
}

fn handle_create(name: String, partitions: u32, topics: &mut TopicManager) -> (r: Response)
    requires
        old(topics).wf(),
    ensures
        final(topics).wf(),
        final(topics).spec_data_dir() == old(topics).spec_data_dir(),
        create_outcome(old(topics).spec_topics(), final(topics).spec_topics(), name@, partitions, r),
{
    proof {
        reveal_strlit("Invalid message: ");
    }
    let n = name.clone();
    match topics.create_topic(name, partitions) {
        Ok(()) => Response::CreateTopicSuccess { name: n, partitions },
        Err(e) => Response::CreateTopicError { error: e.to_message() },
    }
}

fn handle_produce(topic: String, partition: u32, messages: Vec<crate::messages::Message>, topics: &mut TopicManager) -> (r: Response)
    requires
        old(topics).wf(),
    ensures
        final(topics).wf(),
        final(topics).spec_data_dir() == old(topics).spec_data_dir(),
        produce_outcome(old(topics).spec_topics(), final(topics).spec_topics(), topic@, partition, messages@, r),
{
    proof {
        reveal_strlit("Topic not found: ");
    }
    let count = messages.len() as u32;
    let ghost msgs = messages@;
    let ghost before = topics.spec_topics();
    let res = topics.append(topic.as_str(), partition, messages);
    let resp = match &res {
        Ok(base_offset) => Response::ProduceSuccess { topic, partition, base_offset: *base_offset, count },
        Err(e) => Response::ProduceError { error: e.to_message() },
    };
    proof {
        assert(produce_response(topic@, partition, msgs.len(), res, resp));
        if has_topic(before, topic@) && partition < before[topic@].len() {
            assert(appended(before[topic@][partition as int], msgs, res, topics.spec_topics()[topic@][partition as int]));
        }
        if has_topic(before, topic@) {
            let a = topic_named(topics.spec_topics(), topic@).partitions;
            assert(topics.spec_topics() =~= before.insert(topic@, a));
        }
    }
    resp
}

fn handle_fetch(topic: String, partition: u32, offset: u64, max_messages: u32, topics: &TopicManager) -> (r: Response)
    requires
        topics.wf(),
    ensures
        fetch_outcome(topics.spec_topics(), topic@, partition, offset, max_messages, r),
{
    proof {
        reveal_strlit("Topic not found: ");
    }
    let ghost tname = topic@;
    let res = topics.fetch(topic.as_str(), partition, offset, max_messages);
    let ghost res_copy = res;
    let resp = match res {
        Ok(records) => Response::FetchSuccess { topic, partition, records },
        Err(e) => Response::FetchError { error: e.to_message() },
    };
    proof {
        assert(fetch_response(tname, partition, res_copy, resp));
    }
    resp
}

fn handle_partitions(topic: String, topics: &TopicManager) -> (r: Response)
    requires
        topics.wf(),
    ensures
        partitions_outcome(topics.spec_topics(), topic@, r),
{
    proof {
        reveal_strlit("Topic not found: ");
    }
    match topics.get_topic(topic.as_str()) {
        Ok(t) => {
            let count = t.num_partitions();
            Response::Partitions { topic, count }
        },
        Err(e) => Response::PartitionsError { error: e.to_message() },
    }
}

/// Handles a topic request: creates topics, appends produced messages,
/// serves fetches and metadata. Errors are reported in the response with
/// the error's description.
pub fn process_request(request: Request, topics: &mut TopicManager) -> (r: Response)
    requires
        old(topics).wf(),
        is_topic_request(request),
    ensures
        final(topics).wf(),
        final(topics).spec_data_dir() == old(topics).spec_data_dir(),
        !(request is CreateTopic || request is Produce) ==> final(topics).spec_topics() == old(topics).spec_topics(),
        request matches Request::CreateTopic { name, partitions } ==> create_outcome(
            old(topics).spec_topics(),
            final(topics).spec_topics(),
            name@,
            partitions,
            r,
        ),
        request matches Request::Produce { topic, partition, messages } ==> produce_outcome(
            old(topics).spec_topics(),
            final(topics).spec_topics(),
            topic@,
            partition,
            messages@,
            r,
        ),
        request matches Request::Fetch { topic, partition, offset, max_messages } ==> fetch_outcome(
            old(topics).spec_topics(),
            topic@,
            partition,
            offset,
            max_messages,
            r,
        ),
        request matches Request::GetMetadata { topics: names } ==> metadata_outcome(old(topics).spec_topics(), names@, r),
        request matches Request::GetPartitions { topic } ==> partitions_outcome(old(topics).spec_topics(), topic@, r),
        request is ListTopics ==> list_outcome(old(topics).spec_topics(), r),
{
    match request {
        Request::CreateTopic { name, partitions } => handle_create(name, partitions, topics),
        Request::Produce { topic, partition, messages } => handle_produce(topic, partition, messages, topics),
        Request::Fetch { topic, partition, offset, max_messages } => handle_fetch(topic, partition, offset, max_messages, topics),
        Request::GetMetadata { topics: names } => handle_metadata(names, topics),
        Request::GetPartitions { topic } => handle_partitions(topic, topics),
        Request::ListTopics => Response::Topics { topics: topics.list_topics() },
        _ => {
            assert(false);
            Response::TopicsError { error: String::new() }
        },
    }
}

fn all_metadata(topics: &TopicManager) -> (metas: Vec<TopicMetadata>)
    requires
        topics.wf(),
    ensures
        forall|i: int|
            0 <= i < metas@.len() ==> has_topic(topics.spec_topics(), (#[trigger] metas@[i]).name@) && metadata_of(
                metas@[i],
                metas@[i].name@,
                topics.spec_topics()[metas@[i].name@].len(),
            ),
        forall|i: int, j: int| 0 <= i < j < metas@.len() ==> metas@[i].name@ != metas@[j].name@,
        forall|n: Seq<char>| #[trigger] has_topic(topics.spec_topics(), n) ==> has_metadata_for(metas@, n),
{
    let all = topics.list_topics();
    let mut metas: Vec<TopicMetadata> = Vec::new();
    let mut i: usize = 0;
    while i < all.len()
        invariant
            topics.wf(),
            forall|j: int| 0 <= j < all@.len() ==> #[trigger] has_topic(topics.spec_topics(), all@[j]@),
            i <= all@.len(),
            metas@.len() == i,
            forall|j: int|
                0 <= j < i ==> (#[trigger] metas@[j]).name@ == all@[j]@ && metadata_of(
                    metas@[j],
                    all@[j]@,
                    topics.spec_topics()[all@[j]@].len(),
                ),
        decreases all@.len() - i,
    {
        proof {
            assert(has_topic(topics.spec_topics(), all@[i as int]@));
        }
        match metadata_for(topics, all[i].as_str()) {
            Some(m) => metas.push(m),
            None => {
                assert(false);
            },
        }
        i = i + 1;
    }
    proof {
        assert forall|n: Seq<char>| #[trigger] has_topic(topics.spec_topics(), n) implies has_metadata_for(metas@, n) by {
            let j = choose|j: int| 0 <= j < all@.len() && all@[j]@ == n;
            assert(metas@[j].name@ == all@[j]@);
        }
        assert forall|a: int, b: int| 0 <= a < b < metas@.len() implies metas@[a].name@ != metas@[b].name@ by {
            assert(metas@[a].name@ == all@[a]@);
            assert(metas@[b].name@ == all@[b]@);
        }
    }
    metas
}

fn named_metadata(names: &Vec<String>, topics: &TopicManager) -> (metas: Vec<TopicMetadata>)
    requires
        topics.wf(),
    ensures
        metas@.len() <= names@.len(),
        forall|i: int|
            0 <= i < metas@.len() ==> has_topic(topics.spec_topics(), (#[trigger] metas@[i]).name@)
                && metadata_of(
                metas@[i],
                metas@[i].name@,
                topics.spec_topics()[metas@[i].name@].len(),
            ),
        forall|j: int|
            0 <= j < names@.len() && has_topic(topics.spec_topics(), (#[trigger] names@[j])@)
                ==> exists|i: int| 0 <= i < metas@.len() && #[trigger] metas@[i].name@ == names@[j]@,
{
    let mut metas: Vec<TopicMetadata> = Vec::new();
                let mut j: usize = 0;
                while j < names.len()
                    invariant
                        topics.wf(),
                        j <= names@.len(),
                        metas@.len() <= j,
                        forall|i: int|
                            0 <= i < metas@.len() ==> has_topic(topics.spec_topics(), (#[trigger] metas@[i]).name@)
                                && metadata_of(
                                metas@[i],
                                metas@[i].name@,
                                topics.spec_topics()[metas@[i].name@].len(),
                            ),
                        forall|k: int|
                            0 <= k < j && has_topic(topics.spec_topics(), (#[trigger] names@[k])@)
                                ==> exists|i: int| 0 <= i < metas@.len() && #[trigger] metas@[i].name@
                                == names@[k]@,
                    decreases names@.len() - j,
                {
                    match metadata_for(topics, names[j].as_str()) {
                        Some(m) => {
                            let ghost before = metas@;
                            metas.push(m);
                            proof {
                                assert(metas@[metas@.len() - 1].name@ == names@[j as int]@);
                                assert forall|k: int|
                                    0 <= k < j + 1 && has_topic(topics.spec_topics(), (#[trigger] names@[k])@)
                                        implies exists|i: int| 0 <= i < metas@.len() && #[trigger] metas@[i].name@
                                        == names@[k]@ by {
                                    if k < j {
                                        let i = choose|i: int| 0 <= i < before.len() && #[trigger] before[i].name@ == names@[k]@;
                                        assert(metas@[i] == before[i]);
                                    } else {
                                        assert(metas@[metas@.len() - 1].name@ == names@[k]@);
                                    }
                                }
                            }
                        },
                        None => {},
                    }
                    j = j + 1;
                }
                metas
}

fn handle_metadata(names: Vec<String>, topics: &TopicManager) -> (r: Response)
    requires
        topics.wf(),
    ensures
        metadata_outcome(topics.spec_topics(), names@, r),
{
    if names.len() == 0 {
        Response::Metadata { topics: all_metadata(topics) }
    } else {
        Response::Metadata { topics: named_metadata(&names, topics) }
    }
}

/// Whether `request` is one that `process_group_request` handles.
pub open spec fn is_group_request(request: Request) -> bool {
    ||| request is JoinGroup
    ||| request is LeaveGroup
    ||| request is Heartbeat
    ||| request is CommitOffset
    ||| request is FetchOffset
}

/// The partition counts once those of the named topics that exist are
/// taken from `all`, in order.
pub open spec fn counts_with_topics(
    tp: Seq<(Seq<char>, u32)>,
    names: Seq<Seq<char>>,
    all: Map<Seq<char>, Seq<Seq<MessageView>>>,
) -> Seq<(Seq<char>, u32)>
    decreases names.len(),
{
    if names.len() == 0 {
        tp
    } else {
        let before = counts_with_topics(tp, names.drop_last(), all);
        let n = names.last();
        if has_topic(all, n) {
            counts_after(before, n, all[n].len() as u32)
        } else {
            before
        }
    }
}

/// The answer to a join and the coordinator after it: the partition
/// counts of the requested topics that exist are recorded, then the member
/// (with the given id, or the group id, a dash and eight hexadecimal
/// digits) joins at some time; the answer carries its id and assignments.
pub open spec fn join_outcome(
    before: CoordinatorView,
    after: CoordinatorView,
    all: Map<Seq<char>, Seq<Seq<MessageView>>>,
    group_id: Seq<char>,
    member_id: Option<String>,
    names: Seq<Seq<char>>,
    r: Response,
) -> bool {
    let counted = CoordinatorView {
        topic_partitions: counts_with_topics(before.topic_partitions, names, all),
        ..before
    };
    r matches Response::JoinGroupSuccess { group_id: g, member_id: id, assignments } && {
        &&& g@ == group_id
        &&& member_id matches Some(m) ==> id@ == m@
        &&& member_id is None ==> exists|suffix: Seq<char>| suffix.len() == 8 && id@ == generated_member_id(group_id, suffix)
        &&& exists|now: u64| after == #[trigger] joined_at(counted, group_id, id@, names, now)
        &&& assignment_views(assignments@) == assignments_in(after.groups, group_id, id@)
    }
}

/// The answer to a leave whose outcome was `res`.
pub open spec fn leave_response(group_id: Seq<char>, res: crate::error::Result<()>, r: Response) -> bool {
    match res {
        Ok(()) => r matches Response::LeaveGroupSuccess { group_id: g } && g@ == group_id,
        Err(e) => r matches Response::LeaveGroupError { error } && error@ == error_text(e),
    }
}

/// The answer to a heartbeat whose outcome was `res`: a refused heartbeat
/// asks the member to join again.
pub open spec fn heartbeat_response(res: crate::error::Result<bool>, r: Response) -> bool {
    match res {
        Ok(_) => r is HeartbeatSuccess,
        Err(e) => r matches Response::HeartbeatError { error, needs_rejoin } && error@ == error_text(e) && needs_rejoin,
    }
}

/// The answer to a committed-offset request: the committed offset, or 0
/// (the start) when none was committed.
pub open spec fn fetch_offset_response(group_id: Seq<char>, topic: Seq<char>, partition: u32, committed: Option<u64>, r: Response) -> bool {
    r matches Response::FetchOffsetSuccess { group_id: g, topic: t, partition: p, offset } && g@ == group_id && t@ == topic
        && p == partition && offset == match committed {
        Some(o) => o,
        None => 0u64,
    }
}

/// Records in the coordinator the partition count of each named topic
/// that exists.
fn count_topics(names: &Vec<String>, groups: &mut GroupCoordinator, topics: &TopicManager)
    requires
        old(groups).wf(),
        topics.wf(),
    ensures
        final(groups).wf(),
        final(groups)@ == (CoordinatorView {
            topic_partitions: counts_with_topics(old(groups)@.topic_partitions, texts(names@), topics.spec_topics()),
            ..old(groups)@
        }),
{
    let ghost tp = groups@.topic_partitions;
    let ghost all = topics.spec_topics();
    let mut i: usize = 0;
    proof {
        assert(texts(names@).subrange(0, 0) =~= Seq::<Seq<char>>::empty());
    }
    while i < names.len()
        invariant
            i <= names@.len(),
            groups.wf(),
            topics.wf(),
            all == topics.spec_topics(),
            groups@ == (CoordinatorView {
                topic_partitions: counts_with_topics(tp, texts(names@).subrange(0, i as int), all),
                ..old(groups)@
            }),
        decreases names@.len() - i,
    {
        let ghost prev = texts(names@).subrange(0, i as int);
        proof {
            let next = texts(names@).subrange(0, i + 1);
            assert(next.drop_last() =~= prev);
            assert(next.last() == names@[i as int]@);
        }
        match topics.get_topic(names[i].as_str()) {
            Ok(t) => {
                let count = t.num_partitions();
                groups.update_topic_partitions(names[i].clone(), count);
            },
            Err(_) => {},
        }
        i = i + 1;
    }
    proof {
        assert(texts(names@).subrange(0, names@.len() as int) =~= texts(names@));
    }
}

/// Handles a consumer-group request: joins and leaves (with rebalancing),
/// heartbeats, and offset commits and lookups. A join first records the
/// partition counts of the requested topics that exist.
pub fn process_group_request(
    request: Request,
    groups: &mut GroupCoordinator,
    offsets: &mut OffsetManager,
    topics: &TopicManager,
) -> (r: Response)
    requires
        old(groups).wf(),
        old(offsets).wf(),
        topics.wf(),
        is_group_request(request),
        request matches Request::JoinGroup { group_id, .. } ==> generation_of(old(groups)@.groups, group_id@) < u32::MAX,
        request matches Request::LeaveGroup { group_id, .. } ==> generation_of(old(groups)@.groups, group_id@) < u32::MAX,
    ensures
        final(groups).wf(),
        final(offsets).wf(),
        final(offsets).spec_data_dir() == old(offsets).spec_data_dir(),
        final(groups)@.heartbeat_timeout == old(groups)@.heartbeat_timeout,
        !(request is CommitOffset) ==> final(offsets)@ == old(offsets)@,
        request is CommitOffset || request is FetchOffset ==> final(groups)@ == old(groups)@,
        request matches Request::JoinGroup { group_id, member_id, topics: names } ==> join_outcome(
            old(groups)@,
            final(groups)@,
            topics.spec_topics(),
            group_id@,
            member_id,
            texts(names@),
            r,
        ),
        request matches Request::LeaveGroup { group_id, member_id } ==> {
            &&& final(groups)@.topic_partitions == old(groups)@.topic_partitions
            &&& exists|res: crate::error::Result<()>| #[trigger] leave_outcome(
                old(groups)@.groups,
                group_id@,
                member_id@,
                old(groups)@.topic_partitions,
                final(groups)@.groups,
                res,
            ) && leave_response(group_id@, res, r)
        },
        request matches Request::Heartbeat { group_id, member_id } ==> {
            &&& final(groups)@.topic_partitions == old(groups)@.topic_partitions
            &&& exists|now: u64, res: crate::error::Result<bool>| #[trigger] coordinator_heartbeat(
                old(groups)@.groups,
                group_id@,
                member_id@,
                now,
                final(groups)@.groups,
                res,
            ) && heartbeat_response(res, r)
        },
        request matches Request::CommitOffset { group_id, topic, partition, offset } ==> {
            &&& final(offsets)@ == with_commit(old(offsets)@, group_id@, topic@, partition, offset)
            &&& r matches Response::CommitOffsetSuccess { group_id: g, topic: t, partition: p } && g@ == group_id@
                && t@ == topic@ && p == partition
        },
        request matches Request::FetchOffset { group_id, topic, partition } ==> fetch_offset_response(
            group_id@,
            topic@,
            partition,
            committed_offset(old(offsets)@, group_id@, topic@, partition),
            r,
        ),
{
    match request {
        Request::JoinGroup { group_id, member_id, topics: names } => {
            count_topics(&names, groups, topics);
            let g = group_id.clone();
            match groups.join_group(group_id, member_id, names) {
                Ok((id, assignments)) => Response::JoinGroupSuccess { group_id: g, member_id: id, assignments },
                Err(e) => Response::JoinGroupError { error: e.to_message() },
            }
        },
        Request::LeaveGroup { group_id, member_id } => {
            let res = groups.leave_group(group_id.as_str(), member_id.as_str());
            let ghost res_copy = res;
            let resp = match res {
                Ok(()) => Response::LeaveGroupSuccess { group_id },
                Err(e) => Response::LeaveGroupError { error: e.to_message() },
            };
            proof {
                assert(leave_response(group_id@, res_copy, resp));
            }
            resp
        },
        Request::Heartbeat { group_id, member_id } => {
            let res = groups.heartbeat(group_id.as_str(), member_id.as_str());
            let ghost res_copy = res;
            let resp = match res {
                Ok(_) => Response::HeartbeatSuccess,
                Err(e) => Response::HeartbeatError { error: e.to_message(), needs_rejoin: true },
            };
            proof {
                assert(heartbeat_response(res_copy, resp));
            }
            resp
        },
        Request::CommitOffset { group_id, topic, partition, offset } => {
            offsets.commit_offset(group_id.as_str(), topic.as_str(), partition, offset);
            Response::CommitOffsetSuccess { group_id, topic, partition }
        },
        Request::FetchOffset { group_id, topic, partition } => {
            match offsets.fetch_offset(group_id.as_str(), topic.as_str(), partition) {
                Ok(Some(offset)) => Response::FetchOffsetSuccess { group_id, topic, partition, offset },
                Ok(None) => Response::FetchOffsetSuccess { group_id, topic, partition, offset: 0 },
                Err(e) => Response::FetchOffsetError { error: e.to_message() },
            }
        },
        _ => {
            assert(false);
            Response::JoinGroupError { error: String::new() }
        },
    }
}

} // verus!
