//! Replication of partitions across brokers: where a partition's replicas
//! go, what a leader serves to a follower, how a follower records its
//! progress, and the replication statistics.
use vstd::prelude::*;
use crate::cluster::{
    BrokerId, BrokerInfo, ClusterMetadata, PartitionReplicaState, ReplicaStateView, lists_alive,
    lists_partitions, state_key, after_failure, can_elect, failure_elects,
};
use crate::messages::Record;
use crate::topic::{TopicManager, has_topic, topic_named, fetched};
use crate::clock::now_millis;
use crate::text::same_text;

verus! {

/// Replication request for a follower to fetch from the leader.
#[derive(Debug)]
pub struct ReplicationFetchRequest {
    pub topic: String,
    pub partition: u32,
    pub offset: u64,
    pub max_records: u32,
}

/// Replication response from the leader to a follower.
#[derive(Debug)]
pub struct ReplicationFetchResponse {
    pub records: Vec<Record>,
    pub high_watermark: u64,
    pub leader_epoch: u32,
}

/// Replication statistics.
#[derive(Debug, Clone, Copy)]
pub struct ReplicationStats {
    pub total_partitions: usize,
    pub leader_partitions: usize,
    pub follower_partitions: usize,
    pub under_replicated_partitions: usize,
}

/// The ids of the brokers, in order.
pub open spec fn broker_ids(bs: Seq<BrokerInfo>) -> Seq<BrokerId> {
    bs.map_values(|b: BrokerInfo| b.id)
}

/// Where the replicas of `partition` go, given the alive brokers `ids` in
/// order: round-robin from position `partition % n` over `min(rf, n)`
/// brokers, the first of them leading; this broker alone when no broker
/// is alive.
pub open spec fn replica_choice(ids: Seq<BrokerId>, self_id: BrokerId, rf: u32, partition: u32) -> (BrokerId, Seq<BrokerId>) {
    let n = ids.len();
    if n == 0 {
        (self_id, seq![self_id])
    } else {
        let k = if (rf as nat) < n {
            rf as nat
        } else {
            n
        };
        let start = partition as int % (n as int);
        let replicas = Seq::new(k, |i: int| ids[(start + i) % (n as int)]);
        (replicas[0], replicas)
    }
}

/// The replicas of `partition` over the alive brokers `alive` (see
/// `replica_choice`).
pub fn assign_replicas(alive: &Vec<BrokerInfo>, self_id: BrokerId, replication_factor: u32, partition: u32) -> (r: (
    BrokerId,
    Vec<BrokerId>,
))
    requires
        alive.len() > 0 ==> replication_factor > 0,
    ensures
        (r.0, r.1@) == replica_choice(broker_ids(alive@), self_id, replication_factor, partition),
{
    let n = alive.len();
    if n == 0 {
        let mut v: Vec<BrokerId> = Vec::new();
        v.push(self_id);
        proof {
            assert(v@ =~= seq![self_id]);
        }
        return (self_id, v);
    }
    let k: usize = if (replication_factor as usize) < n { replication_factor as usize } else { n };
    let start = (partition as usize) % n;
    let ghost ids = broker_ids(alive@);
    let mut replicas: Vec<BrokerId> = Vec::new();
    let mut i: usize = 0;
    while i < k
        invariant
            i <= k <= n,
            n == alive.len(),
            ids == broker_ids(alive@),
            start == partition as int % (n as int),
            start < n,
            replicas@ =~= Seq::new(i as nat, |j: int| ids[(start + j) % (n as int)]),
        decreases k - i,
    {
        let idx = if i < n - start { start + i } else { i - (n - start) };
        proof {
            let x = start + i;
            if x < n {
                vstd::arithmetic::div_mod::lemma_small_mod(x as nat, n as nat);
            } else {
                vstd::arithmetic::div_mod::lemma_fundamental_div_mod_converse_mod(x as int, n as int, 1, x - n);
            }
            assert(idx == (start + i) % (n as int));
        }
        replicas.push(alive[idx].id);
        proof {
            assert(ids[idx as int] == alive@[idx as int].id);
        }
        i = i + 1;
    }
    proof {
        assert(k > 0);
        assert(replicas@[0] == ids[(start + 0) % (n as int)]);
    }
    (replicas[0], replicas)
}

/// When at most `n` replicas are taken over `n` distinct brokers, they are
/// distinct, and the leader is one of them.
pub proof fn lemma_replicas_distinct(ids: Seq<BrokerId>, self_id: BrokerId, rf: u32, partition: u32)
    requires
        ids.no_duplicates(),
    ensures
        replica_choice(ids, self_id, rf, partition).1.no_duplicates(),
        replica_choice(ids, self_id, rf, partition).1.len() > 0 ==> replica_choice(ids, self_id, rf, partition).0
            == replica_choice(ids, self_id, rf, partition).1[0],
{
    let n = ids.len() as int;
    if n > 0 {
        let reps = replica_choice(ids, self_id, rf, partition).1;
        let start = partition as int % n;
        assert forall|a: int, b: int| 0 <= a < reps.len() && 0 <= b < reps.len() && a != b implies reps[a] != reps[b] by {
            let x = (start + a) % n;
            let y = (start + b) % n;
            vstd::arithmetic::div_mod::lemma_mod_bound(start + a, n);
            vstd::arithmetic::div_mod::lemma_mod_bound(start + b, n);
            if x == y {
                vstd::arithmetic::div_mod::lemma_fundamental_div_mod(start + a, n);
                vstd::arithmetic::div_mod::lemma_fundamental_div_mod(start + b, n);
                let qa = (start + a) / n;
                let qb = (start + b) / n;
                assert(a - b == n * (qa - qb)) by (nonlinear_arith)
                    requires
                        start + a == n * qa + x,
                        start + b == n * qb + y,
                        x == y,
                ;
                assert(false) by (nonlinear_arith)
                    requires
                        a - b == n * (qa - qb),
                        a != b,
                        0 <= a < n,
                        0 <= b < n,
                        n > 0,
                ;
            }
        }
    }
}

/// Replica placement: with no broker alive, this broker alone leads; with
/// `n > 0` alive brokers, `min(rf, n)` replicas are chosen, each an alive
/// broker, the first leading: the broker at position `partition % n`, and
/// each next replica the broker after the previous one, wrapping around.
pub proof fn lemma_replica_placement(ids: Seq<BrokerId>, self_id: BrokerId, rf: u32, partition: u32)
    ensures
        ids.len() == 0 ==> replica_choice(ids, self_id, rf, partition) == (self_id, seq![self_id]),
        ids.len() > 0 ==> {
            let (leader, reps) = replica_choice(ids, self_id, rf, partition);
            let n = ids.len() as int;
            &&& reps.len() == (if (rf as int) < n { rf as int } else { n })
            &&& forall|i: int| 0 <= i < reps.len() ==> ids.contains(#[trigger] reps[i])
            &&& reps.len() > 0 ==> leader == reps[0] && leader == ids[partition as int % n]
            &&& forall|i: int|
                0 <= i < reps.len() - 1 ==> (#[trigger] reps[i + 1]) == ids[((partition as int % n) + i + 1) % n]
            &&& forall|i: int, j: int|
                #![trigger reps[i], ids[j]]
                0 <= j < n && 0 <= i < reps.len() - 1 && reps[i] == ids[j] && ids.no_duplicates()
                    ==> reps[i + 1] == ids[(j + 1) % n]
        },
{
    let n = ids.len() as int;
    if n > 0 {
        let (leader, reps) = replica_choice(ids, self_id, rf, partition);
        let start = partition as int % n;
        vstd::arithmetic::div_mod::lemma_mod_bound(partition as int, n);
        assert forall|i: int| 0 <= i < reps.len() implies ids.contains(#[trigger] reps[i]) by {
            vstd::arithmetic::div_mod::lemma_mod_bound(start + i, n);
            assert(reps[i] == ids[(start + i) % n]);
        }
        if reps.len() > 0 {
            vstd::arithmetic::div_mod::lemma_small_mod(start as nat, n as nat);
            assert(reps[0] == ids[(start + 0) % n]);
        }
        assert forall|i: int, j: int|
            #![trigger reps[i], ids[j]]
            0 <= j < n && 0 <= i < reps.len() - 1 && reps[i] == ids[j] && ids.no_duplicates()
            implies reps[i + 1] == ids[(j + 1) % n] by {
            let x = (start + i) % n;
            vstd::arithmetic::div_mod::lemma_mod_bound(start + i, n);
            assert(reps[i] == ids[x]);
            assert(x == j);
            vstd::arithmetic::div_mod::lemma_add_mod_noop(start + i, 1, n);
            vstd::arithmetic::div_mod::lemma_mod_bound(start + i + 1, n);
            if n == 1 {
                vstd::arithmetic::div_mod::lemma_mod_bound(1, n);
            } else {
                vstd::arithmetic::div_mod::lemma_small_mod(1, n as nat);
            }
            assert(reps[i + 1] == ids[(start + (i + 1)) % n]);
            assert(start + (i + 1) == start + i + 1);
        }
    }
}

/// The records a leader serves: what fetching from the partition gives,
/// or none when the topic, the partition or the offset is not there.
pub open spec fn served_records(topics: Map<Seq<char>, Seq<Seq<crate::messages::MessageView>>>, topic: Seq<char>, partition: u32, offset: u64, max: u32, v: Vec<Record>) -> bool {
    if has_topic(topics, topic) && partition < topic_named(topics, topic).partitions.len() && offset
        <= topic_named(topics, topic).partitions[partition as int].len() {
        fetched(topic, partition, topic_named(topics, topic).partitions[partition as int], offset, max, Ok(v))
    } else {
        v@.len() == 0
    }
}

/// The number of messages stored in a partition, if the topic and the
/// partition exist.
pub open spec fn stored_count(topics: Map<Seq<char>, Seq<Seq<crate::messages::MessageView>>>, topic: Seq<char>, partition: u32) -> Option<nat> {
    if has_topic(topics, topic) && partition < topic_named(topics, topic).partitions.len() {
        Some(topic_named(topics, topic).partitions[partition as int].len())
    } else {
        None
    }
}

/// The lag of a follower behind the leader of a partition, when both have
/// reported an offset: the difference, or 0 when the follower is ahead.
pub open spec fn replication_lag(s: ReplicaStateView, follower: BrokerId) -> Option<u64> {
    if s.replica_offsets.contains_key(s.leader) && s.replica_offsets.contains_key(follower) {
        let a = s.replica_offsets[s.leader];
        let b = s.replica_offsets[follower];
        Some(if a >= b { (a - b) as u64 } else { 0 })
    } else {
        None
    }
}

/// How many of the states satisfy `f`.
pub open spec fn count_states(states: Seq<PartitionReplicaState>, f: spec_fn(ReplicaStateView) -> bool) -> nat
    decreases states.len(),
{
    if states.len() == 0 {
        0
    } else {
        count_states(states.drop_last(), f) + if f(states.last()@) {
            1nat
        } else {
            0
        }
    }
}

/// Whether broker `b` leads the partition.
pub open spec fn led_by(b: BrokerId) -> spec_fn(ReplicaStateView) -> bool {
    |s: ReplicaStateView| s.leader == b
}

/// Whether broker `b` follows the partition: a replica, not the leader.
pub open spec fn followed_by(b: BrokerId) -> spec_fn(ReplicaStateView) -> bool {
    |s: ReplicaStateView| s.leader != b && s.replicas.contains(b)
}

/// Whether some replica of the partition is out of sync.
pub open spec fn under_replicated() -> spec_fn(ReplicaStateView) -> bool {
    |s: ReplicaStateView| s.isr.len() < s.replicas.len()
}

/// Replication on this broker: where replicas go, what the leader serves
/// and what the followers have fetched.
pub struct ReplicationManager {
    cluster: ClusterMetadata,
    topic_manager: TopicManager,
    follower_state: Vec<((String, u32), u64)>,
    replication_factor: u32,
    max_isr_lag: u64,
}

impl ReplicationManager {
    /// The cluster metadata.
    pub closed spec fn spec_cluster(&self) -> ClusterMetadata {
        self.cluster
    }

    /// The topics.
    pub closed spec fn spec_topics(&self) -> Map<Seq<char>, Seq<Seq<crate::messages::MessageView>>> {
        self.topic_manager.spec_topics()
    }

    /// The offset fetched so far by this broker as a follower, by partition.
    pub closed spec fn follower_offsets(&self) -> Seq<((Seq<char>, u32), u64)> {
        self.follower_state@.map_values(|e: ((String, u32), u64)| ((e.0.0@, e.0.1), e.1))
    }

    /// The replication factor for new partitions.
    pub closed spec fn spec_replication_factor(&self) -> u32 {
        self.replication_factor
    }

    /// The most messages a replica may lag and stay in sync.
    pub closed spec fn spec_max_isr_lag(&self) -> u64 {
        self.max_isr_lag
    }

    /// Well-formedness of the parts, and one follower offset per partition.
    pub closed spec fn wf(&self) -> bool {
        &&& self.cluster.wf()
        &&& self.topic_manager.wf()
        &&& crate::client::unique_offset_keys(self.follower_offsets())
    }

    /// A manager over `cluster` and `topic_manager`, with no follower
    /// progress yet.
    pub fn new(cluster: ClusterMetadata, topic_manager: TopicManager, replication_factor: u32, max_isr_lag: u64) -> (r: Self)
        requires
            cluster.wf(),
            topic_manager.wf(),
        ensures
            r.wf(),
            r.spec_cluster() == cluster,
            r.spec_topics() == topic_manager.spec_topics(),
            r.follower_offsets() == Seq::<((Seq<char>, u32), u64)>::empty(),
            r.spec_replication_factor() == replication_factor,
            r.spec_max_isr_lag() == max_isr_lag,
    {
        let r = ReplicationManager { cluster, topic_manager, follower_state: Vec::new(), replication_factor, max_isr_lag };
        assert(r.follower_offsets() =~= Seq::<((Seq<char>, u32), u64)>::empty());
        r
    }

    /// The cluster metadata.
    pub fn cluster(&self) -> (r: &ClusterMetadata)
        ensures
            *r == self.spec_cluster(),
    {
        &self.cluster
    }

    /// The topics.
    pub fn topic_manager(&self) -> (r: &TopicManager)
        ensures
            r.spec_topics() == self.spec_topics(),
            self.wf() ==> r.wf(),
    {
        &self.topic_manager
    }

    /// Where the replicas of a new partition go: round-robin over the
    /// brokers alive now, by the clock, from position `partition % n`, over
    /// at most the replication factor of them, the first leading; this
    /// broker alone when none is alive.
    pub fn assign_partition_replicas(&self, topic: &str, partition: u32) -> (r: (BrokerId, Vec<BrokerId>))
        requires
            self.wf(),
            self.spec_replication_factor() > 0 || self.spec_cluster().brokers().dom().is_empty(),
        ensures
            exists|now: u64, alive: Seq<BrokerInfo>|
                #[trigger] lists_alive(self.spec_cluster().brokers(), self.spec_cluster().broker_timeout(), now, alive)
                && (r.0, r.1@) == replica_choice(
                    broker_ids(alive),
                    self.spec_cluster().spec_broker_id(),
                    self.spec_replication_factor(),
                    partition,
                ),
    {
        let alive = self.cluster.get_alive_brokers();
        proof {
            if alive.len() > 0 {
                assert(crate::cluster::alive_entry(
                    self.cluster.brokers(),
                    self.cluster.broker_timeout(),
                    choose|now: u64| lists_alive(self.cluster.brokers(), self.cluster.broker_timeout(), now, alive@),
                    alive@[0],
                ));
                assert(self.cluster.brokers().dom().contains(alive@[0].id));
            }
        }
        let ghost now = choose|now: u64| lists_alive(self.cluster.brokers(), self.cluster.broker_timeout(), now, alive@);
        let r = assign_replicas(&alive, self.cluster.broker_id(), self.replication_factor, partition);
        assert(lists_alive(self.spec_cluster().brokers(), self.spec_cluster().broker_timeout(), now, alive@)
            && (r.0, r.1@) == replica_choice(
            broker_ids(alive@),
            self.spec_cluster().spec_broker_id(),
            self.spec_replication_factor(),
            partition,
        ));
        r
    }

    /// Serves a follower's fetch when this broker leads the partition: the
    /// records from the offset, the high watermark and the leader epoch;
    /// `None` when it does not lead.
    pub fn handle_replication_fetch(&self, request: ReplicationFetchRequest) -> (r: Option<ReplicationFetchResponse>)
        requires
            self.wf(),
        ensures
            match self.spec_cluster().partitions().get((request.topic@, request.partition)) {
                Some(s) => if s.leader == self.spec_cluster().spec_broker_id() {
                    r matches Some(resp) && served_records(
                        self.spec_topics(),
                        request.topic@,
                        request.partition,
                        request.offset,
                        request.max_records,
                        resp.records,
                    ) && resp.high_watermark == s.high_watermark && resp.leader_epoch == s.leader_epoch
                } else {
                    r is None
                },
                None => r is None,
            },
    {
        if !self.cluster.is_partition_leader(request.topic.as_str(), request.partition) {
            return None;
        }
        let records = match self.topic_manager.fetch(request.topic.as_str(), request.partition, request.offset, request.max_records) {
            Ok(v) => v,
            Err(_) => Vec::new(),
        };
        let high_watermark = self.cluster.get_high_watermark(request.topic.as_str(), request.partition);
        let states = self.cluster.get_all_partition_states();
        let ghost key = (request.topic@, request.partition);
        let leader_epoch = epoch_of(&states, request.topic.as_str(), request.partition);
        proof {
            let j = choose|j: int| 0 <= j < states@.len() && state_key(states@[j]@) == key;
            assert(state_key(states@[j]@) == key);
        }
        Some(ReplicationFetchResponse { records, high_watermark, leader_epoch })
    }

    /// Records that this broker, leading the partition, has reached
    /// `offset`.
    pub fn update_leader_offset(&mut self, topic: &str, partition: u32, offset: u64)
        requires
            old(self).wf(),
            offset + old(self).spec_cluster().isr_lag_threshold() <= u64::MAX,
        ensures
            final(self).wf(),
            final(self).spec_cluster().partitions() == (match old(self).spec_cluster().partitions().get((topic@, partition)) {
                Some(s) => old(self).spec_cluster().partitions().insert(
                    (topic@, partition),
                    crate::cluster::after_replica_report(
                        s,
                        old(self).spec_cluster().spec_broker_id(),
                        offset,
                        old(self).spec_cluster().isr_lag_threshold(),
                    ),
                ),
                None => old(self).spec_cluster().partitions(),
            }),
            final(self).spec_cluster().brokers() == old(self).spec_cluster().brokers(),
            final(self).spec_topics() == old(self).spec_topics(),
            final(self).follower_offsets() == old(self).follower_offsets(),
    {
        let id = self.cluster.broker_id();
        self.cluster.update_replica_offset(topic, partition, id, offset);
    }

    /// The position of the follower offset of (`topic`, `partition`).
    fn find_follower(&self, topic: &str, partition: u32) -> (r: Option<usize>)
        requires
            self.wf(),
        ensures
            match r {
                Some(i) => i < self.follower_state.len() && crate::client::offset_pos(self.follower_offsets(), topic@, partition)
                    == Some(i as int),
                None => crate::client::offset_pos(self.follower_offsets(), topic@, partition) is None,
            },
    {
        let ghost offs = self.follower_offsets();
        let mut i: usize = 0;
        while i < self.follower_state.len()
            invariant
                i <= self.follower_state.len(),
                offs == self.follower_offsets(),
                offs.len() == self.follower_state.len(),
                crate::client::unique_offset_keys(offs),
                forall|k: int| 0 <= k < i ==> (#[trigger] offs[k]).0 != (topic@, partition),
            decreases self.follower_state.len() - i,
        {
            let e = &self.follower_state[i];
            proof {
                assert(offs[i as int] == ((e.0.0@, e.0.1), e.1));
            }
            if e.0.1 == partition && same_text(topic, &e.0.0) {
                proof {
                    assert(offs[i as int].0 == (topic@, partition));
                    let c = choose|k: int| 0 <= k < offs.len() && (#[trigger] offs[k]).0 == (topic@, partition);
                    if c < i {
                        assert(offs[c].0 != offs[i as int].0);
                    } else if c > i {
                        assert(offs[i as int].0 != offs[c].0);
                    }
                }
                return Some(i);
            }
            i = i + 1;
        }
        None
    }

    /// One round of following a partition: when this broker leads it, the
    /// following stops (`false`). Otherwise, when the partition exists here
    /// and holds more messages than fetched so far, the new count becomes
    /// this broker's offset, both here and in the cluster metadata; the
    /// following goes on (`true`).
    pub fn follower_step(&mut self, topic: &str, partition: u32) -> (r: bool)
        requires
            old(self).wf(),
            stored_count(old(self).spec_topics(), topic@, partition) matches Some(n) ==> n
                + old(self).spec_cluster().isr_lag_threshold() <= u64::MAX,
        ensures
            final(self).wf(),
            final(self).spec_topics() == old(self).spec_topics(),
            final(self).spec_cluster().brokers() == old(self).spec_cluster().brokers(),
            r == !(match old(self).spec_cluster().partitions().get((topic@, partition)) {
                Some(s) => s.leader == old(self).spec_cluster().spec_broker_id(),
                None => false,
            }),
            follower_round(*old(self), topic@, partition, r, *final(self)),
    {
        if self.cluster.is_partition_leader(topic, partition) {
            return false;
        }
        let current = match self.find_follower(topic, partition) {
            Some(i) => self.follower_state[i].1,
            None => 0,
        };
        let next = match self.topic_manager.get_topic(topic) {
            Ok(t) => match t.get_partition(partition) {
                Ok(p) => Some(p.next_offset()),
                Err(_) => None,
            },
            Err(_) => None,
        };
        if let Some(n) = next {
            if n > current {
                let ghost offs = self.follower_offsets();
                let e = ((topic.to_owned(), partition), n);
                match self.find_follower(topic, partition) {
                    Some(i) => {
                        self.follower_state.set(i, e);
                        proof {
                            assert(self.follower_offsets() =~= offs.update(i as int, ((topic@, partition), n)));
                            let ns = self.follower_offsets();
                            assert forall|a: int, b: int| 0 <= a < b < ns.len() implies (#[trigger] ns[a]).0 != (#[trigger] ns[b]).0 by {
                                assert(offs[a].0 != offs[b].0);
                            }
                        }
                    },
                    None => {
                        self.follower_state.push(e);
                        proof {
                            assert(self.follower_offsets() =~= offs.push(((topic@, partition), n)));
                            let ns = self.follower_offsets();
                            assert forall|a: int, b: int| 0 <= a < b < ns.len() implies (#[trigger] ns[a]).0 != (#[trigger] ns[b]).0 by {
                                if b == offs.len() {
                                    assert(ns[a] == offs[a]);
                                }
                            }
                        }
                    },
                }
                let id = self.cluster.broker_id();
                self.cluster.update_replica_offset(topic, partition, id, n);
            }
        }
        true
    }

    /// Checks the brokers' health now, by the clock (see
    /// `check_broker_health_at`).
    pub fn check_broker_health(&mut self)
        requires
            old(self).wf(),
            forall|k: (Seq<char>, u32)| #[trigger] old(self).spec_cluster().partitions().contains_key(k)
                && can_elect(old(self).spec_cluster().partitions()[k])
                ==> old(self).spec_cluster().partitions()[k].leader_epoch + old(self).spec_cluster().partitions().dom().len() < u32::MAX,
        ensures
            final(self).wf(),
            final(self).spec_topics() == old(self).spec_topics(),
            final(self).follower_offsets() == old(self).follower_offsets(),
            final(self).spec_cluster().brokers() == old(self).spec_cluster().brokers(),
            exists|now: u64, alive: Seq<BrokerInfo>, states: Seq<PartitionReplicaState>|
                #[trigger] lists_alive(old(self).spec_cluster().brokers(), old(self).spec_cluster().broker_timeout(), now, alive)
                && #[trigger] lists_partitions(old(self).spec_cluster().partitions(), states) && failures(
                    old(self).spec_cluster().partitions(),
                    dead_leaders(states, broker_ids(alive)),
                    final(self).spec_cluster().partitions(),
                ),
    {
        let now = now_millis();
        self.check_broker_health_at(now);
    }

    /// Checks the brokers' health at `now`: for each partition, in the
    /// table's order, whose leader is not among the brokers alive at `now`,
    /// the failure of that leader is handled (see
    /// `ClusterMetadata::handle_broker_failure`).
    pub fn check_broker_health_at(&mut self, now: u64)
        requires
            old(self).wf(),
            forall|k: (Seq<char>, u32)| #[trigger] old(self).spec_cluster().partitions().contains_key(k)
                && can_elect(old(self).spec_cluster().partitions()[k])
                ==> old(self).spec_cluster().partitions()[k].leader_epoch + old(self).spec_cluster().partitions().dom().len() < u32::MAX,
        ensures
            final(self).wf(),
            final(self).spec_topics() == old(self).spec_topics(),
            final(self).follower_offsets() == old(self).follower_offsets(),
            final(self).spec_cluster().brokers() == old(self).spec_cluster().brokers(),
            exists|alive: Seq<BrokerInfo>, states: Seq<PartitionReplicaState>|
                #[trigger] lists_alive(old(self).spec_cluster().brokers(), old(self).spec_cluster().broker_timeout(), now, alive)
                && #[trigger] lists_partitions(old(self).spec_cluster().partitions(), states) && failures(
                    old(self).spec_cluster().partitions(),
                    dead_leaders(states, broker_ids(alive)),
                    final(self).spec_cluster().partitions(),
                ),
    {
        let alive = self.cluster.get_alive_brokers_at(now);
        let mut alive_ids: Vec<BrokerId> = Vec::new();
        let mut a: usize = 0;
        while a < alive.len()
            invariant
                a <= alive.len(),
                alive_ids@ =~= broker_ids(alive@).subrange(0, a as int),
            decreases alive.len() - a,
        {
            alive_ids.push(alive[a].id);
            a = a + 1;
        }
        assert(broker_ids(alive@).subrange(0, alive.len() as int) =~= broker_ids(alive@));
        let states = self.cluster.get_all_partition_states();
        let ghost start = self.cluster.partitions();
        proof {
            lemma_listed_len(start, states@);
            assert(states@.subrange(0, 0) =~= Seq::<PartitionReplicaState>::empty());
            lemma_no_failures(start);
        }
        let mut i: usize = 0;
        while i < states.len()
            invariant
                i <= states.len(),
                self.cluster.wf(),
                self.topic_manager.wf(),
                crate::client::unique_offset_keys(self.follower_offsets()),
                self.spec_topics() == old(self).spec_topics(),
                self.follower_offsets() == old(self).follower_offsets(),
                self.cluster.brokers() == old(self).spec_cluster().brokers(),
                start == old(self).spec_cluster().partitions(),
                start.dom().len() == states.len(),
                alive_ids@ == broker_ids(alive@),
                self.cluster.partitions().dom() == start.dom(),
                failures(start, dead_leaders(states@.subrange(0, i as int), alive_ids@), self.cluster.partitions()),
                dead_leaders(states@.subrange(0, i as int), alive_ids@).len() <= i,
                forall|k: (Seq<char>, u32)| #[trigger] start.contains_key(k) ==> self.cluster.partitions()[k].leader_epoch
                    <= start[k].leader_epoch + dead_leaders(states@.subrange(0, i as int), alive_ids@).len(),
                forall|k: (Seq<char>, u32)| #[trigger] start.contains_key(k) && can_elect(start[k]) ==> start[k].leader_epoch
                    + start.dom().len() < u32::MAX,
                forall|k: (Seq<char>, u32)| #[trigger] start.contains_key(k) && !can_elect(start[k]) ==> self.cluster.partitions()[k]
                    == start[k],
            decreases states.len() - i,
        {
            let leader = states[i].leader;
            let ghost fs = dead_leaders(states@.subrange(0, i as int), alive_ids@);
            proof {
                let sub = states@.subrange(0, i + 1);
                assert(sub.drop_last() =~= states@.subrange(0, i as int));
                assert(sub.last() == states@[i as int]);
            }
            if !contains_id(&alive_ids, leader) {
                let ghost prev = self.cluster.partitions();
                proof {
                    assert forall|k: (Seq<char>, u32)| #[trigger] prev.contains_key(k) && failure_elects(prev[k], leader)
                        implies prev[k].leader_epoch < u32::MAX by {
                        assert(start.contains_key(k));
                        if !can_elect(start[k]) {
                            assert(prev[k] == start[k]);
                            assert(start[k].isr.remove(leader) =~= start[k].isr);
                        }
                    }
                }
                let _new_leaders = self.cluster.handle_broker_failure(leader);
                proof {
                    let now_t = self.cluster.partitions();
                    assert(one_failure(prev, leader, now_t));
                    let fs2 = fs.push(leader);
                    assert(fs2.drop_last() =~= fs);
                    assert(fs2.last() == leader);
                    lemma_failures_push(start, fs, prev, leader, now_t);
                    assert forall|k: (Seq<char>, u32)| #[trigger] start.contains_key(k) implies now_t[k].leader_epoch
                        <= start[k].leader_epoch + fs2.len() by {
                        assert(prev.contains_key(k));
                        assert(after_failure(prev[k], leader, now_t[k]));
                    }
                    assert forall|k: (Seq<char>, u32)| #[trigger] start.contains_key(k) && !can_elect(start[k]) implies now_t[k]
                        == start[k] by {
                        assert(prev.contains_key(k));
                        assert(after_failure(prev[k], leader, now_t[k]));
                        assert(start[k].isr.remove(leader) =~= start[k].isr);
                    }
                }
            }
            i = i + 1;
        }
        proof {
            assert(states@.subrange(0, states.len() as int) =~= states@);
            assert(lists_alive(old(self).spec_cluster().brokers(), old(self).spec_cluster().broker_timeout(), now, alive@));
        }
    }

    /// Whether a write up to `offset` of a partition can be acknowledged:
    /// every in-sync replica has it (the offset is at most the high
    /// watermark, which is 0 for an unknown partition).
    pub fn can_acknowledge_write(&self, topic: &str, partition: u32, offset: u64) -> (r: bool)
        ensures
            r == (offset <= match self.spec_cluster().partitions().get((topic@, partition)) {
                Some(s) => s.high_watermark,
                None => 0,
            }),
    {
        let hw = self.cluster.get_high_watermark(topic, partition);
        offset <= hw
    }

    /// The lag of `follower_id` behind the leader of a partition, when the
    /// partition is known and both have reported an offset.
    pub fn get_replication_lag(&self, topic: &str, partition: u32, follower_id: BrokerId) -> (r: Option<u64>)
        requires
            self.wf(),
        ensures
            r == (match self.spec_cluster().partitions().get((topic@, partition)) {
                Some(s) => replication_lag(s, follower_id),
                None => None,
            }),
    {
        let states = self.cluster.get_all_partition_states();
        let ghost key = (topic@, partition);
        match find_state(&states, topic, partition) {
            Some(i) => {
                let s = &states[i];
                let leader_offset = match s.replica_offsets.get(&s.leader) {
                    Some(o) => *o,
                    None => return None,
                };
                let follower_offset = match s.replica_offsets.get(&follower_id) {
                    Some(o) => *o,
                    None => return None,
                };
                Some(leader_offset.saturating_sub(follower_offset))
            },
            None => {
                proof {
                    assert(!self.cluster.partitions().contains_key(key)) by {
                        if self.cluster.partitions().contains_key(key) {
                            let j = choose|j: int| 0 <= j < states@.len() && state_key(states@[j]@) == key;
                            assert(state_key(states@[j]@) == key);
                        }
                    }
                }
                None
            },
        }
    }

    /// Replication statistics: partitions in all, those this broker leads,
    /// those it follows, and those with a replica out of sync.
    pub fn get_replication_stats(&self) -> (r: ReplicationStats)
        requires
            self.wf(),
        ensures
            exists|states: Seq<PartitionReplicaState>| #[trigger] lists_partitions(self.spec_cluster().partitions(), states) && {
                let me = self.spec_cluster().spec_broker_id();
                &&& r.total_partitions == states.len()
                &&& r.leader_partitions == count_states(states, led_by(me))
                &&& r.follower_partitions == count_states(states, followed_by(me))
                &&& r.under_replicated_partitions == count_states(states, under_replicated())
            },
    {
        let states = self.cluster.get_all_partition_states();
        let me = self.cluster.broker_id();
        let mut leader: usize = 0;
        let mut follower: usize = 0;
        let mut under: usize = 0;
        let mut i: usize = 0;
        while i < states.len()
            invariant
                i <= states.len(),
                leader == count_states(states@.subrange(0, i as int), led_by(me)),
                follower == count_states(states@.subrange(0, i as int), followed_by(me)),
                under == count_states(states@.subrange(0, i as int), under_replicated()),
                leader <= i && follower <= i && under <= i,
            decreases states.len() - i,
        {
            let s = &states[i];
            proof {
                let sub = states@.subrange(0, i + 1);
                assert(sub.drop_last() =~= states@.subrange(0, i as int));
                assert(sub.last() == states@[i as int]);
            }
            if s.leader == me {
                leader = leader + 1;
            }
            if s.leader != me && contains_id(&s.replicas, me) {
                follower = follower + 1;
            }
            if s.isr.len() < s.replicas.len() {
                under = under + 1;
            }
            i = i + 1;
        }
        proof {
            assert(states@.subrange(0, states.len() as int) =~= states@);
            assert(lists_partitions(self.spec_cluster().partitions(), states@));
            assert(me == self.spec_cluster().spec_broker_id());
            assert(leader == count_states(states@, led_by(me)));
        }
        ReplicationStats {
            total_partitions: states.len(),
            leader_partitions: leader,
            follower_partitions: follower,
            under_replicated_partitions: under,
        }
    }
}

/// Whether `after` is `before` once broker `f` has failed in every
/// partition.
pub open spec fn one_failure(before: Map<(Seq<char>, u32), ReplicaStateView>, f: BrokerId, after: Map<(Seq<char>, u32), ReplicaStateView>) -> bool {
    &&& after.dom() == before.dom()
    &&& forall|k: (Seq<char>, u32)| #[trigger] before.contains_key(k) ==> after_failure(before[k], f, after[k])
}

/// Whether `chain` steps from `before` to `after` through the failures
/// of the brokers `fs`, in order.
pub open spec fn failure_chain(
    before: Map<(Seq<char>, u32), ReplicaStateView>,
    fs: Seq<BrokerId>,
    chain: Seq<Map<(Seq<char>, u32), ReplicaStateView>>,
    after: Map<(Seq<char>, u32), ReplicaStateView>,
) -> bool {
    &&& chain.len() == fs.len() + 1
    &&& chain[0] == before
    &&& chain.last() == after
    &&& forall|i: int| 0 <= i < fs.len() ==> one_failure(#[trigger] chain[i], fs[i], chain[i + 1])
}

/// Whether `after` is `before` once the brokers `fs` have failed, in
/// order.
pub open spec fn failures(
    before: Map<(Seq<char>, u32), ReplicaStateView>,
    fs: Seq<BrokerId>,
    after: Map<(Seq<char>, u32), ReplicaStateView>,
) -> bool {
    exists|chain: Seq<Map<(Seq<char>, u32), ReplicaStateView>>| #[trigger] failure_chain(before, fs, chain, after)
}

/// No failure leaves the table as it was.
proof fn lemma_no_failures(t: Map<(Seq<char>, u32), ReplicaStateView>)
    ensures
        failures(t, Seq::empty(), t),
{
    assert(failure_chain(t, Seq::empty(), seq![t], t));
}

/// One more failure extends a chain of failures.
proof fn lemma_failures_push(
    before: Map<(Seq<char>, u32), ReplicaStateView>,
    fs: Seq<BrokerId>,
    mid: Map<(Seq<char>, u32), ReplicaStateView>,
    f: BrokerId,
    after: Map<(Seq<char>, u32), ReplicaStateView>,
)
    requires
        failures(before, fs, mid),
        one_failure(mid, f, after),
    ensures
        failures(before, fs.push(f), after),
{
    let chain = choose|chain: Seq<Map<(Seq<char>, u32), ReplicaStateView>>| #[trigger] failure_chain(before, fs, chain, mid);
    let c2 = chain.push(after);
    let fs2 = fs.push(f);
    assert forall|i: int| 0 <= i < fs2.len() implies one_failure(#[trigger] c2[i], fs2[i], c2[i + 1]) by {
        if i < fs.len() {
            assert(c2[i] == chain[i] && c2[i + 1] == chain[i + 1]);
        } else {
            assert(c2[i] == mid);
        }
    }
    assert(failure_chain(before, fs2, c2, after));
}

/// The leaders of the states that are not among the alive brokers, in
/// order.
pub open spec fn dead_leaders(states: Seq<PartitionReplicaState>, alive: Seq<BrokerId>) -> Seq<BrokerId>
    decreases states.len(),
{
    if states.len() == 0 {
        Seq::empty()
    } else {
        let rest = dead_leaders(states.drop_last(), alive);
        if alive.contains(states.last().leader) {
            rest
        } else {
            rest.push(states.last().leader)
        }
    }
}

/// A list of every partition, each once, is as long as the table.
proof fn lemma_listed_len(t: Map<(Seq<char>, u32), ReplicaStateView>, states: Seq<PartitionReplicaState>)
    requires
        lists_partitions(t, states),
    ensures
        t.dom().finite(),
        t.dom().len() == states.len(),
{
    let keys = states.map_values(|s: PartitionReplicaState| state_key(s@));
    assert(keys.no_duplicates()) by {
        assert forall|a: int, b: int| 0 <= a < keys.len() && 0 <= b < keys.len() && a != b implies keys[a] != keys[b] by {
            if a < b {
                assert(state_key(states[a]@) != state_key(states[b]@));
            } else {
                assert(state_key(states[b]@) != state_key(states[a]@));
            }
        }
    }
    assert(keys.to_set() =~= t.dom()) by {
        assert forall|k: (Seq<char>, u32)| keys.to_set().contains(k) implies t.dom().contains(k) by {
            let j = choose|j: int| 0 <= j < keys.len() && keys[j] == k;
            assert(t.contains_key(state_key(states[j]@)));
        }
        assert forall|k: (Seq<char>, u32)| t.dom().contains(k) implies keys.to_set().contains(k) by {
            assert(t.contains_key(k));
            let j = choose|j: int| 0 <= j < states.len() && state_key(states[j]@) == k;
            assert(keys[j] == k);
        }
    }
    keys.unique_seq_to_set();
    vstd::seq_lib::seq_to_set_is_finite(keys);
}

/// Whether `b` is one of the ids.
fn contains_id(v: &Vec<BrokerId>, b: BrokerId) -> (r: bool)
    ensures
        r == v@.contains(b),
{
    let mut i: usize = 0;
    while i < v.len()
        invariant
            i <= v.len(),
            forall|k: int| 0 <= k < i ==> v@[k] != b,
        decreases v.len() - i,
    {
        if v[i] == b {
            assert(v@[i as int] == b);
            return true;
        }
        i = i + 1;
    }
    false
}

/// The position of the state of (`topic`, `partition`) among the states.
fn find_state(states: &Vec<PartitionReplicaState>, topic: &str, partition: u32) -> (r: Option<usize>)
    ensures
        match r {
            Some(i) => i < states.len() && state_key(states@[i as int]@) == (topic@, partition) && forall|k: int|
                0 <= k < i ==> state_key(#[trigger] states@[k]@) != (topic@, partition),
            None => forall|k: int| 0 <= k < states.len() ==> state_key(#[trigger] states@[k]@) != (topic@, partition),
        },
{
    let mut i: usize = 0;
    while i < states.len()
        invariant
            i <= states.len(),
            forall|k: int| 0 <= k < i ==> state_key(#[trigger] states@[k]@) != (topic@, partition),
        decreases states.len() - i,
    {
        if states[i].partition == partition && same_text(topic, &states[i].topic) {
            return Some(i);
        }
        i = i + 1;
    }
    None
}

/// The leader epoch of (`topic`, `partition`) among the states; 0 when it
/// is not there.
fn epoch_of(states: &Vec<PartitionReplicaState>, topic: &str, partition: u32) -> (r: u32)
    ensures
        forall|k: int| 0 <= k < states.len() && state_key(#[trigger] states@[k]@) == (topic@, partition) && (forall|j: int|
            0 <= j < k ==> state_key(states@[j]@) != (topic@, partition)) ==> r == states@[k].leader_epoch,
        (forall|k: int| 0 <= k < states.len() ==> state_key(#[trigger] states@[k]@) != (topic@, partition)) ==> r == 0,
{
    match find_state(states, topic, partition) {
        Some(i) => {
            proof {
                assert forall|k: int| 0 <= k < states.len() && state_key(#[trigger] states@[k]@) == (topic@, partition) && (forall|j: int|
                    0 <= j < k ==> state_key(states@[j]@) != (topic@, partition)) implies states@[i as int].leader_epoch == states@[k].leader_epoch by {
                    assert(state_key(states@[i as int]@) == (topic@, partition));
                    if k > i {
                        assert(state_key(states@[i as int]@) != (topic@, partition));
                    } else if k < i {
                        assert(state_key(states@[k]@) != (topic@, partition));
                    }
                }
            }
            states[i].leader_epoch
        },
        None => 0,
    }
}

/// Whether `after` is `before` after one round of following (`going`
/// tells whether the following goes on): the follower offset and this
/// broker's offset in the cluster move to the partition's message count
/// when that count is past the follower offset; otherwise nothing changes.
pub open spec fn follower_round(before: ReplicationManager, topic: Seq<char>, partition: u32, going: bool, after: ReplicationManager) -> bool {
    let current = match crate::client::offset_of(before.follower_offsets(), topic, partition) {
        Some(o) => o,
        None => 0,
    };
    if going && (stored_count(before.spec_topics(), topic, partition) matches Some(n) && n > current) {
        let n = stored_count(before.spec_topics(), topic, partition)->0;
        &&& after.follower_offsets() == crate::client::with_offset(before.follower_offsets(), topic, partition, n as u64)
        &&& after.spec_cluster().partitions() == (match before.spec_cluster().partitions().get((topic, partition)) {
            Some(s) => before.spec_cluster().partitions().insert(
                (topic, partition),
                crate::cluster::after_replica_report(
                    s,
                    before.spec_cluster().spec_broker_id(),
                    n as u64,
                    before.spec_cluster().isr_lag_threshold(),
                ),
            ),
            None => before.spec_cluster().partitions(),
        })
    } else {
        &&& after.follower_offsets() == before.follower_offsets()
        &&& after.spec_cluster() == before.spec_cluster()
    }
}

} // verus!
