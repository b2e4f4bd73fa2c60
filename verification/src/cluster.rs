//! Cluster membership and the replication state of partitions: which
//! brokers are alive, which replicas are in sync, where the high watermark
//! stands and who leads after a failure.
use vstd::prelude::*;
use std::collections::{HashMap, HashSet};
use vstd::std_specs::iter::IteratorSpec;
use crate::clock::now_millis;
use crate::time::Duration;
use dashmap::DashMap;

verus! {

broadcast use vstd::std_specs::hash::group_hash_axioms;

/// Unique identifier for a broker in the cluster.
pub type BrokerId = u32;

/// The milliseconds from `since` to `now`; zero when `now` is earlier.
pub open spec fn elapsed_millis(since: u64, now: u64) -> nat {
    if now >= since {
        (now - since) as nat
    } else {
        0
    }
}

/// Whether a broker whose last heartbeat came at `last` (milliseconds on the
/// clock) is alive at `now`: it has sent one, and less than `timeout` has
/// passed since.
pub open spec fn alive_at(last: Option<u64>, timeout: Duration, now: u64) -> bool {
    match last {
        Some(t) => elapsed_millis(t, now) * 1_000_000 < timeout.total_nanos(),
        None => false,
    }
}

/// Metadata about a broker in the cluster.
#[derive(Debug)]
pub struct BrokerInfo {
    pub id: BrokerId,
    pub host: String,
    pub port: u16,
    /// When the last heartbeat came, in milliseconds on the clock
    pub last_heartbeat: Option<u64>,
}

/// What a broker's metadata says.
pub struct BrokerView {
    pub id: BrokerId,
    pub host: Seq<char>,
    pub port: u16,
    pub last_heartbeat: Option<u64>,
}

impl View for BrokerInfo {
    type V = BrokerView;

    open spec fn view(&self) -> BrokerView {
        BrokerView { id: self.id, host: self.host@, port: self.port, last_heartbeat: self.last_heartbeat }
    }
}

/// Whether `elapsed` milliseconds are less than `timeout`.
fn within(elapsed: u64, timeout: &Duration) -> (r: bool)
    ensures
        r == (elapsed * 1_000_000 < timeout.total_nanos()),
{
    let e = Duration::from_millis(elapsed);
    timeout.is_longer_than(&e)
}

impl BrokerInfo {
    /// A broker that has just sent a heartbeat, by the clock.
    pub fn new(id: BrokerId, host: String, port: u16) -> (r: Self)
        ensures
            r.id == id,
            r.host@ == host@,
            r.port == port,
            r.last_heartbeat is Some,
    {
        let now = now_millis();
        Self::new_at(id, host, port, now)
    }

    /// A broker whose last heartbeat came at `now`.
    pub fn new_at(id: BrokerId, host: String, port: u16, now: u64) -> (r: Self)
        ensures
            r.id == id,
            r.host@ == host@,
            r.port == port,
            r.last_heartbeat == Some(now),
    {
        BrokerInfo { id, host, port, last_heartbeat: Some(now) }
    }

    /// Whether the broker is alive by the clock: a heartbeat came less than
    /// `timeout` ago.
    pub fn is_alive(&self, timeout: Duration) -> (r: bool)
        ensures
            exists|now: u64| r == alive_at(self.last_heartbeat, timeout, now),
            self.last_heartbeat is None ==> !r,
    {
        let now = now_millis();
        self.is_alive_at(timeout, now)
    }

    /// Whether the broker is alive at `now`: a heartbeat came less than
    /// `timeout` before it.
    pub fn is_alive_at(&self, timeout: Duration, now: u64) -> (r: bool)
        ensures
            r == alive_at(self.last_heartbeat, timeout, now),
    {
        match self.last_heartbeat {
            Some(t) => within(now.saturating_sub(t), &timeout),
            None => false,
        }
    }

    /// Records a heartbeat now, by the clock.
    pub fn update_heartbeat(&mut self)
        ensures
            final(self).id == old(self).id,
            final(self).host@ == old(self).host@,
            final(self).port == old(self).port,
            final(self).last_heartbeat is Some,
    {
        let now = now_millis();
        self.update_heartbeat_at(now);
    }

    /// Records a heartbeat at `now`.
    pub fn update_heartbeat_at(&mut self, now: u64)
        ensures
            final(self).id == old(self).id,
            final(self).host@ == old(self).host@,
            final(self).port == old(self).port,
            final(self).last_heartbeat == Some(now),
    {
        self.last_heartbeat = Some(now);
    }

    /// A copy of the metadata.
    pub fn duplicate(&self) -> (r: Self)
        ensures
            r@ == self@,
    {
        BrokerInfo { id: self.id, host: self.host.clone(), port: self.port, last_heartbeat: self.last_heartbeat }
    }
}

/// Replica information for a partition.
#[derive(Debug, Clone, Copy, PartialEq, Eq, Structural)]
pub struct ReplicaInfo {
    pub broker_id: BrokerId,
    pub is_leader: bool,
    /// Last fetched offset for followers, current offset for the leader
    pub offset: u64,
}

impl ReplicaInfo {
    /// The leader's replica, at `offset`.
    pub fn new_leader(broker_id: BrokerId, offset: u64) -> (r: Self)
        ensures
            r == (ReplicaInfo { broker_id, is_leader: true, offset }),
    {
        ReplicaInfo { broker_id, is_leader: true, offset }
    }

    /// A follower's replica, having fetched up to `offset`.
    pub fn new_follower(broker_id: BrokerId, offset: u64) -> (r: Self)
        ensures
            r == (ReplicaInfo { broker_id, is_leader: false, offset }),
    {
        ReplicaInfo { broker_id, is_leader: false, offset }
    }
}

/// A copy of a set of broker ids.
pub fn copy_set(s: &HashSet<BrokerId>) -> (r: HashSet<BrokerId>)
    ensures
        r@ == s@,
{
    let mut r: HashSet<BrokerId> = HashSet::new();
    let ghost all = vstd::std_specs::hash::spec_hash_keys_iter(s).remaining().unref();
    proof {
        vstd::std_specs::hash::axiom_spec_hash_keys_iter(s);
    }
    for b in it: s.iter()
        invariant
            it.seq().unref() == all,
            all.to_set() == s@,
            r@ == all.subrange(0, it.index()).to_set(),
    {
        proof {
            assert(all.subrange(0, it.index() + 1) =~= all.subrange(0, it.index()).push(*b));
            all.subrange(0, it.index()).lemma_push_to_set_commute(*b);
        }
        r.insert(*b);
    }
    assert(all.subrange(0, all.len() as int) =~= all);
    r
}

/// Whether `m` is the least offset recorded for a member of `isr`.
pub open spec fn is_isr_floor(m: u64, isr: Set<BrokerId>, offsets: Map<BrokerId, u64>) -> bool {
    &&& exists|b: BrokerId| #[trigger] isr.contains(b) && offsets.contains_key(b) && offsets[b] == m
    &&& forall|b: BrokerId| #[trigger] isr.contains(b) && offsets.contains_key(b) ==> m <= offsets[b]
}

/// Whether some member of `isr` has a recorded offset.
pub open spec fn isr_has_offsets(isr: Set<BrokerId>, offsets: Map<BrokerId, u64>) -> bool {
    exists|b: BrokerId| #[trigger] isr.contains(b) && offsets.contains_key(b)
}

/// The least offset recorded for a member of `isr`; 0 when none has one.
pub open spec fn isr_floor(isr: Set<BrokerId>, offsets: Map<BrokerId, u64>) -> u64 {
    if isr_has_offsets(isr, offsets) {
        choose|m: u64| is_isr_floor(m, isr, offsets)
    } else {
        0
    }
}

/// The high watermark once recomputed: the least offset recorded for a
/// member of the in-sync set, or 0 when there is none (an empty in-sync
/// set included).
pub open spec fn watermark_after(isr: Set<BrokerId>, offsets: Map<BrokerId, u64>) -> u64 {
    isr_floor(isr, offsets)
}

/// The least of the offsets is unique.
proof fn lemma_isr_floor(m: u64, isr: Set<BrokerId>, offsets: Map<BrokerId, u64>)
    requires
        is_isr_floor(m, isr, offsets),
    ensures
        isr_floor(isr, offsets) == m,
{
    let b = choose|b: BrokerId| #[trigger] isr.contains(b) && offsets.contains_key(b) && offsets[b] == m;
    assert(isr_has_offsets(isr, offsets)) by {
        assert(isr.contains(b) && offsets.contains_key(b));
    }
    let c = choose|c: u64| is_isr_floor(c, isr, offsets);
    assert(is_isr_floor(c, isr, offsets));
    let bc = choose|x: BrokerId| #[trigger] isr.contains(x) && offsets.contains_key(x) && offsets[x] == c;
    assert(isr.contains(bc) && offsets.contains_key(bc));
    assert(m <= c);
    assert(c <= m);
}

/// Whether a leader can be elected: some replica is in sync, or there is
/// a replica at all.
pub open spec fn can_elect(s: ReplicaStateView) -> bool {
    !s.isr.is_empty() || s.replicas.len() > 0
}

/// Whether `new` is `s` after an election: the leader is a member of the
/// in-sync set when it has one, else the first replica, which then joins
/// the set; the epoch goes up by one. With neither, nothing changes.
pub open spec fn elected(s: ReplicaStateView, new: ReplicaStateView) -> bool {
    if !s.isr.is_empty() {
        &&& s.isr.contains(new.leader)
        &&& new == (ReplicaStateView { leader: new.leader, leader_epoch: (s.leader_epoch + 1) as u32, ..s })
    } else if s.replicas.len() > 0 {
        new == (ReplicaStateView {
            leader: s.replicas[0],
            leader_epoch: (s.leader_epoch + 1) as u32,
            isr: s.isr.insert(s.replicas[0]),
            ..s
        })
    } else {
        new == s
    }
}

/// Whether `new` is `s` once broker `failed` has failed: it leaves the
/// in-sync set, and when it led, a new leader is elected.
pub open spec fn after_failure(s: ReplicaStateView, failed: BrokerId, new: ReplicaStateView) -> bool {
    let t = ReplicaStateView { isr: s.isr.remove(failed), ..s };
    if s.leader == failed {
        elected(t, new)
    } else {
        new == t
    }
}

/// Whether the failure of broker `failed` makes `s` elect a new leader: it
/// led, and an election is possible without it.
pub open spec fn failure_elects(s: ReplicaStateView, failed: BrokerId) -> bool {
    s.leader == failed && can_elect(ReplicaStateView { isr: s.isr.remove(failed), ..s })
}

/// The leader named after a failure: the new leader when the failed broker
/// led and an election was possible.
pub open spec fn failure_election(s: ReplicaStateView, failed: BrokerId, new: ReplicaStateView) -> Option<BrokerId> {
    if s.leader == failed && can_elect(ReplicaStateView { isr: s.isr.remove(failed), ..s }) {
        Some(new.leader)
    } else {
        None
    }
}

/// Offset 0 for each of the replicas.
pub open spec fn zero_offsets(replicas: Seq<BrokerId>) -> Map<BrokerId, u64> {
    Map::new(|b: BrokerId| replicas.contains(b), |b: BrokerId| 0u64)
}

/// A new partition's state: led by `leader`, every replica in sync at
/// offset 0, high watermark and epoch 0.
pub open spec fn fresh_state(topic: Seq<char>, partition: u32, leader: BrokerId, replicas: Seq<BrokerId>) -> ReplicaStateView {
    ReplicaStateView {
        topic,
        partition,
        leader,
        replicas,
        isr: replicas.to_set(),
        replica_offsets: zero_offsets(replicas),
        high_watermark: 0,
        leader_epoch: 0,
    }
}

/// The set of the ids in `v`.
pub fn set_of(v: &Vec<BrokerId>) -> (r: HashSet<BrokerId>)
    ensures
        r@ == v@.to_set(),
{
    let mut r: HashSet<BrokerId> = HashSet::new();
    let mut i: usize = 0;
    while i < v.len()
        invariant
            i <= v.len(),
            r@ == v@.subrange(0, i as int).to_set(),
        decreases v.len() - i,
    {
        let b = v[i];
        r.insert(b);
        proof {
            assert(v@.subrange(0, i + 1) =~= v@.subrange(0, i as int).push(b));
            v@.subrange(0, i as int).lemma_push_to_set_commute(b);
        }
        i = i + 1;
    }
    assert(v@.subrange(0, v@.len() as int) =~= v@);
    r
}

/// Partition replication state.
#[derive(Debug)]
pub struct PartitionReplicaState {
    pub topic: String,
    pub partition: u32,
    pub leader: BrokerId,
    pub replicas: Vec<BrokerId>,
    /// In-sync replicas: those caught up with the leader
    pub isr: HashSet<BrokerId>,
    /// The offset each replica has reached
    pub replica_offsets: HashMap<BrokerId, u64>,
    /// The highest offset that every in-sync replica has reached
    pub high_watermark: u64,
    /// Incremented on each leader election
    pub leader_epoch: u32,
}

/// What a partition's replication state holds.
pub struct ReplicaStateView {
    pub topic: Seq<char>,
    pub partition: u32,
    pub leader: BrokerId,
    pub replicas: Seq<BrokerId>,
    pub isr: Set<BrokerId>,
    pub replica_offsets: Map<BrokerId, u64>,
    pub high_watermark: u64,
    pub leader_epoch: u32,
}

impl View for PartitionReplicaState {
    type V = ReplicaStateView;

    open spec fn view(&self) -> ReplicaStateView {
        ReplicaStateView {
            topic: self.topic@,
            partition: self.partition,
            leader: self.leader,
            replicas: self.replicas@,
            isr: self.isr@,
            replica_offsets: self.replica_offsets@,
            high_watermark: self.high_watermark,
            leader_epoch: self.leader_epoch,
        }
    }
}

/// The offset that a leader is taken to have reached: the recorded one, or 0.
pub open spec fn offset_of(offsets: Map<BrokerId, u64>, b: BrokerId) -> u64 {
    if offsets.contains_key(b) {
        offsets[b]
    } else {
        0
    }
}

/// The state after replica `broker_id` reports `offset`, with lag threshold
/// `lag`: the offset is recorded; the replica is in sync when it is within
/// `lag` of the leader, out of sync otherwise; the high watermark is
/// recomputed.
pub open spec fn after_replica_report(s: ReplicaStateView, broker_id: BrokerId, offset: u64, lag: u64) -> ReplicaStateView {
    let offsets = s.replica_offsets.insert(broker_id, offset);
    let isr = if offset + lag >= offset_of(offsets, s.leader) {
        s.isr.insert(broker_id)
    } else {
        s.isr.remove(broker_id)
    };
    ReplicaStateView {
        replica_offsets: offsets,
        isr: isr,
        high_watermark: watermark_after(isr, offsets),
        ..s
    }
}

impl PartitionReplicaState {
    /// A partition led by `leader`, with every replica in sync at offset 0.
    pub fn new(topic: String, partition: u32, leader: BrokerId, replicas: Vec<BrokerId>) -> (r: Self)
        ensures
            r@ == fresh_state(topic@, partition, leader, replicas@),
    {
        let isr = set_of(&replicas);
        let mut offsets: HashMap<BrokerId, u64> = HashMap::new();
        let mut i: usize = 0;
        while i < replicas.len()
            invariant
                i <= replicas.len(),
                offsets@.dom() == replicas@.subrange(0, i as int).to_set(),
                forall|b: BrokerId| #[trigger] offsets@.contains_key(b) ==> offsets@[b] == 0,
            decreases replicas.len() - i,
        {
            let b = replicas[i];
            offsets.insert(b, 0);
            proof {
                assert(replicas@.subrange(0, i + 1) =~= replicas@.subrange(0, i as int).push(b));
                replicas@.subrange(0, i as int).lemma_push_to_set_commute(b);
            }
            i = i + 1;
        }
        assert(replicas@.subrange(0, replicas@.len() as int) =~= replicas@);
        assert(offsets@ =~= zero_offsets(replicas@));
        PartitionReplicaState {
            topic,
            partition,
            leader,
            replicas,
            isr,
            replica_offsets: offsets,
            high_watermark: 0,
            leader_epoch: 0,
        }
    }

    /// Recomputes the high watermark: the least offset among the in-sync
    /// replicas, 0 when none has one.
    fn update_high_watermark(&mut self)
        ensures
            final(self)@ == (ReplicaStateView {
                high_watermark: watermark_after(old(self).isr@, old(self).replica_offsets@),
                ..old(self)@
            }),
    {
        let mut least: Option<u64> = None;
        let ghost all = vstd::std_specs::hash::spec_hash_keys_iter(&self.isr).remaining().unref();
        proof {
            vstd::std_specs::hash::axiom_spec_hash_keys_iter(&self.isr);
        }
        let ghost offsets = self.replica_offsets@;
        for b in it: self.isr.iter()
            invariant
                it.seq().unref() == all,
                all.to_set() == self.isr@,
                offsets == self.replica_offsets@,
                least is None ==> forall|j: int| 0 <= j < it.index() ==> !(#[trigger] offsets.contains_key(all[j])),
                least matches Some(m) ==> {
                    &&& exists|j: int| 0 <= j < it.index() && #[trigger] offsets.contains_key(all[j]) && offsets[all[j]] == m
                    &&& forall|j: int| 0 <= j < it.index() && #[trigger] offsets.contains_key(all[j]) ==> m <= offsets[all[j]]
                },
        {
            match self.replica_offsets.get(b) {
                Some(o) => {
                    let smaller = match least {
                        Some(m) => *o < m,
                        None => true,
                    };
                    if smaller {
                        least = Some(*o);
                    }
                },
                None => {},
            }
        }
        let hw = match least {
            Some(m) => {
                proof {
                    let j = choose|j: int| 0 <= j < all.len() && #[trigger] offsets.contains_key(all[j]) && offsets[all[j]] == m;
                    assert(self.isr@.contains(all[j]));
                    assert forall|c: BrokerId| #[trigger] self.isr@.contains(c) && offsets.contains_key(c) implies m <= offsets[c] by {
                        assert(all.contains(c));
                        let k = choose|k: int| 0 <= k < all.len() && all[k] == c;
                        assert(offsets.contains_key(all[k]));
                    }
                    assert(is_isr_floor(m, self.isr@, offsets));
                    lemma_isr_floor(m, self.isr@, offsets);
                }
                m
            },
            None => {
                proof {
                    assert forall|c: BrokerId| #[trigger] self.isr@.contains(c) implies !offsets.contains_key(c) by {
                        assert(all.contains(c));
                        let k = choose|k: int| 0 <= k < all.len() && all[k] == c;
                        assert(!offsets.contains_key(all[k]));
                    }
                    assert(!isr_has_offsets(self.isr@, offsets));
                }
                0
            },
        };
        self.high_watermark = hw;
    }

    /// Records that replica `broker_id` has reached `offset`; it is in sync
    /// when within `lag_threshold` of the leader's offset, out of sync
    /// otherwise; then the high watermark is recomputed.
    pub fn update_replica_offset(&mut self, broker_id: BrokerId, offset: u64, lag_threshold: u64)
        requires
            offset + lag_threshold <= u64::MAX,
        ensures
            final(self)@ == after_replica_report(old(self)@, broker_id, offset, lag_threshold),
    {
        self.replica_offsets.insert(broker_id, offset);
        let leader_offset = match self.replica_offsets.get(&self.leader) {
            Some(o) => *o,
            None => 0,
        };
        if offset + lag_threshold >= leader_offset {
            self.isr.insert(broker_id);
        } else {
            self.isr.remove(&broker_id);
        }
        self.update_high_watermark();
    }

    /// Elects a new leader: a member of the in-sync set when it has one
    /// (which one the set's order decides), else the first replica, which
    /// then joins the in-sync set; the epoch goes up by one. With neither,
    /// nothing changes and `None` is returned.
    pub fn elect_new_leader(&mut self) -> (r: Option<BrokerId>)
        requires
            can_elect(old(self)@) ==> old(self).leader_epoch < u32::MAX,
        ensures
            elected(old(self)@, final(self)@),
            r == (if can_elect(old(self)@) { Some(final(self).leader) } else { None }),
    {
        let mut first: Option<BrokerId> = None;
        let ghost all = vstd::std_specs::hash::spec_hash_keys_iter(&self.isr).remaining().unref();
        proof {
            vstd::std_specs::hash::axiom_spec_hash_keys_iter(&self.isr);
        }
        for b in it: self.isr.iter()
            invariant
                it.seq().unref() == all,
                all.to_set() == self.isr@,
                first == (if it.index() == 0 { None } else { Some(all[0]) }),
        {
            if first.is_none() {
                first = Some(*b);
            }
        }
        if let Some(new_leader) = first {
            proof {
                assert(all.contains(all[0]));
                assert(self.isr@.contains(new_leader));
                assert(!self.isr@.is_empty());
            }
            self.leader = new_leader;
            self.leader_epoch = self.leader_epoch + 1;
            return Some(new_leader);
        }
        proof {
            assert(all =~= Seq::<BrokerId>::empty());
            assert(self.isr@ =~= Set::<BrokerId>::empty());
        }
        if self.replicas.len() > 0 {
            let new_leader = self.replicas[0];
            self.leader = new_leader;
            self.leader_epoch = self.leader_epoch + 1;
            self.isr.insert(new_leader);
            return Some(new_leader);
        }
        None
    }

    /// Handles the failure of broker `failed`: it leaves the in-sync set,
    /// and when it led, a new leader is elected, which is returned.
    pub fn remove_failed_broker(&mut self, failed: BrokerId) -> (r: Option<BrokerId>)
        requires
            failure_elects(old(self)@, failed) ==> old(self).leader_epoch < u32::MAX,
        ensures
            after_failure(old(self)@, failed, final(self)@),
            r == failure_election(old(self)@, failed, final(self)@),
    {
        self.isr.remove(&failed);
        if self.leader == failed {
            self.elect_new_leader()
        } else {
            None
        }
    }

    /// A copy of the state.
    pub fn duplicate(&self) -> (r: Self)
        ensures
            r@ == self@,
    {
        PartitionReplicaState {
            topic: self.topic.clone(),
            partition: self.partition,
            leader: self.leader,
            replicas: self.replicas.clone(),
            isr: copy_set(&self.isr),
            replica_offsets: self.replica_offsets.clone(),
            high_watermark: self.high_watermark,
            leader_epoch: self.leader_epoch,
        }
    }

    /// Whether the leader is in sync.
    pub fn is_leader_in_sync(&self) -> (r: bool)
        ensures
            r == self.isr@.contains(self.leader),
    {
        self.isr.contains(&self.leader)
    }
}

#[verifier::external_type_specification]
#[verifier::external_body]
#[verifier::reject_recursive_types(K)]
#[verifier::reject_recursive_types(V)]
#[verifier::reject_recursive_types(S)]
pub struct ExDashMap<K, V, S>(DashMap<K, V, S>);

/// What a table of brokers holds, by key.
pub uninterp spec fn broker_table(m: DashMap<BrokerId, BrokerInfo>) -> Map<BrokerId, BrokerView>;

/// What a table of partition states holds, by topic and partition.
pub uninterp spec fn partition_table(m: DashMap<(String, u32), PartitionReplicaState>) -> Map<
    (Seq<char>, u32),
    ReplicaStateView,
>;

/// Whether the table holds the listed entry.
pub open spec fn listed_broker(t: Map<BrokerId, BrokerView>, e: (BrokerId, BrokerInfo)) -> bool {
    t.contains_key(e.0) && t[e.0] == e.1@
}

/// Whether the table holds the listed entry.
pub open spec fn listed_partition(t: Map<(Seq<char>, u32), ReplicaStateView>, e: ((String, u32), PartitionReplicaState)) -> bool {
    t.contains_key(key_view(e.0)) && t[key_view(e.0)] == e.1@
}

/// `DashMap::new`: an empty table.
#[verifier::external_body]
fn new_broker_table() -> (r: DashMap<BrokerId, BrokerInfo>)
    ensures
        broker_table(r).dom().is_empty(),
{
    DashMap::new()
}

/// `DashMap::insert`: afterwards `id` maps to `b`.
#[verifier::external_body]
fn put_broker(m: &mut DashMap<BrokerId, BrokerInfo>, id: BrokerId, b: BrokerInfo)
    ensures
        broker_table(*final(m)) == broker_table(*old(m)).insert(id, b@),
{
    m.insert(id, b);
}

/// `DashMap::remove`: takes the entry of `id` out, and hands back its value.
#[verifier::external_body]
fn take_broker(m: &mut DashMap<BrokerId, BrokerInfo>, id: BrokerId) -> (r: Option<BrokerInfo>)
    ensures
        broker_table(*final(m)) == broker_table(*old(m)).remove(id),
        match r {
            Some(b) => broker_table(*old(m)).contains_key(id) && b@ == broker_table(*old(m))[id],
            None => !broker_table(*old(m)).contains_key(id),
        },
{
    m.remove(&id).map(|(_, b)| b)
}

/// `DashMap::get`: a copy of the value of `id`, if it has one.
#[verifier::external_body]
fn find_broker(m: &DashMap<BrokerId, BrokerInfo>, id: BrokerId) -> (r: Option<BrokerInfo>)
    ensures
        match r {
            Some(b) => broker_table(*m).contains_key(id) && b@ == broker_table(*m)[id],
            None => !broker_table(*m).contains_key(id),
        },
{
    m.get(&id).map(|e| e.value().duplicate())
}

/// `DashMap::iter`: every entry once, in an order that the table decides,
/// with a copy of its value.
#[verifier::external_body]
fn list_brokers(m: &DashMap<BrokerId, BrokerInfo>) -> (r: Vec<(BrokerId, BrokerInfo)>)
    ensures
        forall|i: int| 0 <= i < r.len() ==> #[trigger] listed_broker(broker_table(*m), r@[i]),
        forall|i: int, j: int| 0 <= i < j < r.len() ==> r@[i].0 != r@[j].0,
        forall|k: BrokerId| #[trigger] broker_table(*m).contains_key(k) ==> exists|i: int| 0 <= i < r.len() && r@[i].0 == k,
{
    m.iter().map(|e| (*e.key(), e.value().duplicate())).collect()
}

/// The view of a partition key.
pub open spec fn key_view(k: (String, u32)) -> (Seq<char>, u32) {
    (k.0@, k.1)
}

/// `DashMap::new`: an empty table.
#[verifier::external_body]
fn new_partition_table() -> (r: DashMap<(String, u32), PartitionReplicaState>)
    ensures
        partition_table(r).dom().is_empty(),
{
    DashMap::new()
}

/// `DashMap::insert`: afterwards `key` maps to `s`.
#[verifier::external_body]
fn put_partition(m: &mut DashMap<(String, u32), PartitionReplicaState>, key: (String, u32), s: PartitionReplicaState)
    ensures
        partition_table(*final(m)) == partition_table(*old(m)).insert(key_view(key), s@),
{
    m.insert(key, s);
}

/// `DashMap::remove`: takes the entry of (`topic`, `partition`) out, and
/// hands back its value.
#[verifier::external_body]
fn take_partition(m: &mut DashMap<(String, u32), PartitionReplicaState>, topic: &str, partition: u32) -> (r: Option<
    PartitionReplicaState,
>)
    ensures
        partition_table(*final(m)) == partition_table(*old(m)).remove((topic@, partition)),
        match r {
            Some(s) => partition_table(*old(m)).contains_key((topic@, partition)) && s@ == partition_table(
                *old(m),
            )[(topic@, partition)],
            None => !partition_table(*old(m)).contains_key((topic@, partition)),
        },
{
    m.remove(&(topic.to_string(), partition)).map(|(_, s)| s)
}

/// `DashMap::get`: a copy of the value of (`topic`, `partition`), if it has
/// one.
#[verifier::external_body]
fn find_partition(m: &DashMap<(String, u32), PartitionReplicaState>, topic: &str, partition: u32) -> (r: Option<
    PartitionReplicaState,
>)
    ensures
        match r {
            Some(s) => partition_table(*m).contains_key((topic@, partition)) && s@ == partition_table(*m)[(
                topic@,
                partition,
            )],
            None => !partition_table(*m).contains_key((topic@, partition)),
        },
{
    m.get(&(topic.to_string(), partition)).map(|e| e.value().duplicate())
}

/// `DashMap::iter`: every entry once, in an order that the table decides,
/// with a copy of its key and value.
#[verifier::external_body]
fn list_partitions(m: &DashMap<(String, u32), PartitionReplicaState>) -> (r: Vec<((String, u32), PartitionReplicaState)>)
    ensures
        forall|i: int| 0 <= i < r.len() ==> #[trigger] listed_partition(partition_table(*m), r@[i]),
        forall|i: int, j: int| 0 <= i < j < r.len() ==> key_view(r@[i].0) != key_view(r@[j].0),
        forall|k: (Seq<char>, u32)| #[trigger] partition_table(*m).contains_key(k) ==> exists|i: int|
            0 <= i < r.len() && key_view(r@[i].0) == k,
{
    m.iter().map(|e| (e.key().clone(), e.value().duplicate())).collect()
}

/// The table of brokers once broker `id` has sent a heartbeat at `now`;
/// unchanged when no broker has that id.
pub open spec fn heartbeat_recorded(t: Map<BrokerId, BrokerView>, id: BrokerId, now: u64) -> Map<BrokerId, BrokerView> {
    if t.contains_key(id) {
        t.insert(id, BrokerView { last_heartbeat: Some(now), ..t[id] })
    } else {
        t
    }
}

/// Whether broker `id` is registered and alive at `now`.
pub open spec fn broker_alive(t: Map<BrokerId, BrokerView>, timeout: Duration, id: BrokerId, now: u64) -> bool {
    t.contains_key(id) && alive_at(t[id].last_heartbeat, timeout, now)
}

/// Whether `r` lists, each once, exactly the brokers of `t` alive at `now`.
pub open spec fn lists_alive(t: Map<BrokerId, BrokerView>, timeout: Duration, now: u64, r: Seq<BrokerInfo>) -> bool {
    &&& forall|j: int| 0 <= j < r.len() ==> #[trigger] alive_entry(t, timeout, now, r[j])
    &&& forall|j1: int, j2: int| 0 <= j1 < j2 < r.len() ==> r[j1].id != r[j2].id
    &&& forall|k: BrokerId| #[trigger] t.contains_key(k) && alive_at(t[k].last_heartbeat, timeout, now) ==> exists|j: int|
        0 <= j < r.len() && r[j].id == k
}

/// Whether `b` is a broker of the table, alive at `now`.
pub open spec fn alive_entry(t: Map<BrokerId, BrokerView>, timeout: Duration, now: u64, b: BrokerInfo) -> bool {
    t.contains_key(b.id) && t[b.id] == b@ && alive_at(b.last_heartbeat, timeout, now)
}

/// Whether `e` reports a partition of `before` that, after the failure of
/// `failed`, got the new leader named in `e`.
pub open spec fn new_leader_reported(
    before: Map<(Seq<char>, u32), ReplicaStateView>,
    after: Map<(Seq<char>, u32), ReplicaStateView>,
    failed: BrokerId,
    e: (String, u32, BrokerId),
) -> bool {
    let k = (e.0@, e.1);
    before.contains_key(k) && failure_election(before[k], failed, after[k]) == Some(e.2)
}

/// The key of a partition's state.
pub open spec fn state_key(s: ReplicaStateView) -> (Seq<char>, u32) {
    (s.topic, s.partition)
}

/// Whether `r` lists, each once, the state of every partition of `t`.
pub open spec fn lists_partitions(t: Map<(Seq<char>, u32), ReplicaStateView>, r: Seq<PartitionReplicaState>) -> bool {
    &&& forall|j: int| 0 <= j < r.len() ==> #[trigger] t.contains_key(state_key(r[j]@)) && t[state_key(r[j]@)] == r[j]@
    &&& forall|j1: int, j2: int| 0 <= j1 < j2 < r.len() ==> state_key(r[j1]@) != state_key(r[j2]@)
    &&& forall|k: (Seq<char>, u32)| #[trigger] t.contains_key(k) ==> exists|j: int| 0 <= j < r.len() && state_key(r[j]@) == k
}

/// Cluster metadata: the registered brokers, and the replication state of
/// each partition, keyed by topic and partition.
pub struct ClusterMetadata {
    brokers: DashMap<BrokerId, BrokerInfo>,
    partition_states: DashMap<(String, u32), PartitionReplicaState>,
    broker_id: BrokerId,
    broker_timeout: Duration,
    isr_lag_threshold: u64,
}

/// The state of a partition after `set_partition_replicas`: an existing
/// one takes the new leader and replicas, all of which are in sync; a new
/// one starts fresh.
pub open spec fn with_replicas(
    old: Option<ReplicaStateView>,
    topic: Seq<char>,
    partition: u32,
    leader: BrokerId,
    replicas: Seq<BrokerId>,
) -> ReplicaStateView {
    match old {
        Some(s) => ReplicaStateView { leader, replicas, isr: replicas.to_set(), ..s },
        None => fresh_state(topic, partition, leader, replicas),
    }
}

impl ClusterMetadata {
    /// Well-formedness: each entry is filed under its own id, or its own
    /// topic and partition.
    pub closed spec fn wf(self) -> bool {
        &&& forall|k: BrokerId| #[trigger] broker_table(self.brokers).contains_key(k) ==> broker_table(
            self.brokers,
        )[k].id == k
        &&& forall|k: (Seq<char>, u32)| #[trigger] partition_table(self.partition_states).contains_key(k)
            ==> partition_table(self.partition_states)[k].topic == k.0 && partition_table(
            self.partition_states,
        )[k].partition == k.1
    }

    /// The registered brokers, by id.
    pub closed spec fn brokers(self) -> Map<BrokerId, BrokerView> {
        broker_table(self.brokers)
    }

    /// The replication state of each partition, by topic and partition.
    pub closed spec fn partitions(self) -> Map<(Seq<char>, u32), ReplicaStateView> {
        partition_table(self.partition_states)
    }

    /// This broker's id.
    pub closed spec fn spec_broker_id(self) -> BrokerId {
        self.broker_id
    }

    /// How long a broker stays alive after a heartbeat.
    pub closed spec fn broker_timeout(self) -> Duration {
        self.broker_timeout
    }

    /// How far behind the leader a replica may be and stay in sync.
    pub closed spec fn isr_lag_threshold(self) -> u64 {
        self.isr_lag_threshold
    }

    /// Metadata for broker `broker_id`, with no brokers and no partitions.
    pub fn new(broker_id: BrokerId, broker_timeout: Duration, isr_lag_threshold: u64) -> (r: Self)
        ensures
            r.wf(),
            r.brokers().dom().is_empty(),
            r.partitions().dom().is_empty(),
            r.spec_broker_id() == broker_id,
            r.broker_timeout() == broker_timeout,
            r.isr_lag_threshold() == isr_lag_threshold,
    {
        ClusterMetadata {
            brokers: new_broker_table(),
            partition_states: new_partition_table(),
            broker_id,
            broker_timeout,
            isr_lag_threshold,
        }
    }

    /// Registers a broker, in place of any with its id.
    pub fn register_broker(&mut self, broker: BrokerInfo)
        requires
            old(self).wf(),
        ensures
            final(self).wf(),
            final(self).brokers() == old(self).brokers().insert(broker.id, broker@),
            final(self).partitions() == old(self).partitions(),
            final(self).spec_broker_id() == old(self).spec_broker_id(),
            final(self).broker_timeout() == old(self).broker_timeout(),
            final(self).isr_lag_threshold() == old(self).isr_lag_threshold(),
    {
        let id = broker.id;
        put_broker(&mut self.brokers, id, broker);
    }

    /// Records a heartbeat of broker `broker_id` now, by the clock; an
    /// unknown broker is ignored.
    pub fn update_broker_heartbeat(&mut self, broker_id: BrokerId)
        requires
            old(self).wf(),
        ensures
            final(self).wf(),
            exists|now: u64| final(self).brokers() == heartbeat_recorded(old(self).brokers(), broker_id, now),
            final(self).partitions() == old(self).partitions(),
            final(self).spec_broker_id() == old(self).spec_broker_id(),
            final(self).broker_timeout() == old(self).broker_timeout(),
            final(self).isr_lag_threshold() == old(self).isr_lag_threshold(),
    {
        let now = now_millis();
        self.update_broker_heartbeat_at(broker_id, now);
    }

    /// Records a heartbeat of broker `broker_id` at `now`; an unknown
    /// broker is ignored.
    pub fn update_broker_heartbeat_at(&mut self, broker_id: BrokerId, now: u64)
        requires
            old(self).wf(),
        ensures
            final(self).wf(),
            final(self).brokers() == heartbeat_recorded(old(self).brokers(), broker_id, now),
            final(self).partitions() == old(self).partitions(),
            final(self).spec_broker_id() == old(self).spec_broker_id(),
            final(self).broker_timeout() == old(self).broker_timeout(),
            final(self).isr_lag_threshold() == old(self).isr_lag_threshold(),
    {
        match take_broker(&mut self.brokers, broker_id) {
            Some(mut b) => {
                b.update_heartbeat_at(now);
                put_broker(&mut self.brokers, broker_id, b);
                proof {
                    assert(broker_table(self.brokers) =~= heartbeat_recorded(old(self).brokers(), broker_id, now));
                }
            },
            None => {
                proof {
                    assert(broker_table(self.brokers) =~= old(self).brokers());
                }
            },
        }
    }

    /// The brokers alive now, by the clock.
    pub fn get_alive_brokers(&self) -> (r: Vec<BrokerInfo>)
        requires
            self.wf(),
        ensures
            exists|now: u64| lists_alive(self.brokers(), self.broker_timeout(), now, r@),
    {
        let now = now_millis();
        self.get_alive_brokers_at(now)
    }

    /// The brokers alive at `now`: each once, in the table's order.
    pub fn get_alive_brokers_at(&self, now: u64) -> (r: Vec<BrokerInfo>)
        requires
            self.wf(),
        ensures
            lists_alive(self.brokers(), self.broker_timeout(), now, r@),
    {
        let entries = list_brokers(&self.brokers);
        let ghost table = broker_table(self.brokers);
        let mut r: Vec<BrokerInfo> = Vec::new();
        let mut i: usize = 0;
        while i < entries.len()
            invariant
                i <= entries.len(),
                table == broker_table(self.brokers),
                forall|k: BrokerId| #[trigger] table.contains_key(k) ==> table[k].id == k,
                forall|m: int| 0 <= m < entries.len() ==> #[trigger] listed_broker(table, entries@[m]),
                forall|m: int, n: int| 0 <= m < n < entries.len() ==> entries@[m].0 != entries@[n].0,
                forall|j: int| 0 <= j < r.len() ==> #[trigger] alive_entry(table, self.broker_timeout, now, r@[j]),
                forall|j: int| 0 <= j < r.len() ==> exists|m: int| 0 <= m < i && entries@[m].0 == (#[trigger] r@[j]).id,
                forall|j1: int, j2: int| 0 <= j1 < j2 < r.len() ==> r@[j1].id != r@[j2].id,
                forall|m: int| 0 <= m < i && alive_at(#[trigger] entries@[m].1.last_heartbeat, self.broker_timeout, now)
                    ==> exists|j: int| 0 <= j < r.len() && r@[j].id == entries@[m].0,
            decreases entries.len() - i,
        {
            let b = &entries[i].1;
            if b.is_alive_at(self.broker_timeout, now) {
                let c = b.duplicate();
                let ghost old_r = r@;
                proof {
                    assert(listed_broker(table, entries@[i as int]));
                    assert(c.id == entries@[i as int].0);
                    assert forall|j: int| 0 <= j < r.len() implies r@[j].id != c.id by {
                        assert(exists|m: int| 0 <= m < i && entries@[m].0 == (#[trigger] r@[j]).id);
                        let m = choose|m: int| 0 <= m < i && entries@[m].0 == r@[j].id;
                        assert(entries@[m].0 != entries@[i as int].0);
                    }
                }
                r.push(c);
                proof {
                    assert forall|j: int| 0 <= j < r.len() implies exists|m: int| 0 <= m < i + 1 && entries@[m].0 == (#[trigger] r@[j]).id by {
                        if j < old_r.len() {
                            assert(r@[j] == old_r[j]);
                            assert(exists|m: int| 0 <= m < i && entries@[m].0 == (#[trigger] old_r[j]).id);
                        } else {
                            assert(entries@[i as int].0 == r@[j].id);
                        }
                    }
                    assert forall|m: int| 0 <= m < i + 1 && alive_at(#[trigger] entries@[m].1.last_heartbeat, self.broker_timeout, now)
                        implies exists|j: int| 0 <= j < r.len() && r@[j].id == entries@[m].0 by {
                        if m == i {
                            assert(r@[r.len() - 1].id == entries@[m].0);
                        } else {
                            let j = choose|j: int| 0 <= j < old_r.len() && old_r[j].id == entries@[m].0;
                            assert(r@[j] == old_r[j]);
                        }
                    }
                }
            } else {
                proof {
                    assert forall|m: int| 0 <= m < i + 1 && alive_at(#[trigger] entries@[m].1.last_heartbeat, self.broker_timeout, now)
                        implies exists|j: int| 0 <= j < r.len() && r@[j].id == entries@[m].0 by {
                        assert(m != i);
                    }
                }
            }
            i = i + 1;
        }
        proof {
            assert forall|k: BrokerId| #[trigger] table.contains_key(k) && alive_at(table[k].last_heartbeat, self.broker_timeout, now)
                implies exists|j: int| 0 <= j < r.len() && r@[j].id == k by {
                let m = choose|m: int| 0 <= m < entries.len() && entries@[m].0 == k;
                assert(listed_broker(table, entries@[m]));
                assert(alive_at(entries@[m].1.last_heartbeat, self.broker_timeout, now));
            }
        }
        r
    }

    /// Whether broker `broker_id` is registered and alive now, by the clock.
    pub fn is_broker_alive(&self, broker_id: BrokerId) -> (r: bool)
        ensures
            exists|now: u64| r == broker_alive(self.brokers(), self.broker_timeout(), broker_id, now),
            !self.brokers().contains_key(broker_id) ==> !r,
    {
        let now = now_millis();
        self.is_broker_alive_at(broker_id, now)
    }

    /// Whether broker `broker_id` is registered and alive at `now`.
    pub fn is_broker_alive_at(&self, broker_id: BrokerId, now: u64) -> (r: bool)
        ensures
            r == broker_alive(self.brokers(), self.broker_timeout(), broker_id, now),
    {
        match find_broker(&self.brokers, broker_id) {
            Some(b) => b.is_alive_at(self.broker_timeout, now),
            None => false,
        }
    }

    /// Sets the leader and replicas of a partition, all of them in sync;
    /// a partition not seen before starts fresh.
    pub fn set_partition_replicas(&mut self, topic: String, partition: u32, leader: BrokerId, replicas: Vec<BrokerId>)
        requires
            old(self).wf(),
        ensures
            final(self).wf(),
            final(self).partitions() == old(self).partitions().insert(
                (topic@, partition),
                with_replicas(old(self).partitions().get((topic@, partition)), topic@, partition, leader, replicas@),
            ),
            final(self).brokers() == old(self).brokers(),
            final(self).spec_broker_id() == old(self).spec_broker_id(),
            final(self).broker_timeout() == old(self).broker_timeout(),
            final(self).isr_lag_threshold() == old(self).isr_lag_threshold(),
    {
        let ghost k = (topic@, partition);
        match take_partition(&mut self.partition_states, topic.as_str(), partition) {
            Some(mut state) => {
                state.leader = leader;
                state.isr = set_of(&replicas);
                state.replicas = replicas;
                put_partition(&mut self.partition_states, (topic, partition), state);
            },
            None => {
                let state = PartitionReplicaState::new(topic.clone(), partition, leader, replicas);
                put_partition(&mut self.partition_states, (topic, partition), state);
            },
        }
        proof {
            assert(partition_table(self.partition_states) =~= old(self).partitions().insert(
                k,
                with_replicas(old(self).partitions().get(k), k.0, partition, leader, replicas@),
            ));
        }
    }

    /// The leader of a partition, if the partition is known.
    pub fn get_partition_leader(&self, topic: &str, partition: u32) -> (r: Option<BrokerId>)
        ensures
            r == (match self.partitions().get((topic@, partition)) {
                Some(s) => Some(s.leader),
                None => None,
            }),
    {
        match find_partition(&self.partition_states, topic, partition) {
            Some(s) => Some(s.leader),
            None => None,
        }
    }

    /// The replicas of a partition; none if the partition is unknown.
    pub fn get_partition_replicas(&self, topic: &str, partition: u32) -> (r: Vec<BrokerId>)
        ensures
            r@ == (match self.partitions().get((topic@, partition)) {
                Some(s) => s.replicas,
                None => Seq::empty(),
            }),
    {
        match find_partition(&self.partition_states, topic, partition) {
            Some(s) => s.replicas,
            None => Vec::new(),
        }
    }

    /// The in-sync replicas of a partition; none if the partition is unknown.
    pub fn get_partition_isr(&self, topic: &str, partition: u32) -> (r: HashSet<BrokerId>)
        ensures
            r@ == (match self.partitions().get((topic@, partition)) {
                Some(s) => s.isr,
                None => Set::empty(),
            }),
    {
        match find_partition(&self.partition_states, topic, partition) {
            Some(s) => s.isr,
            None => HashSet::new(),
        }
    }

    /// The high watermark of a partition; 0 if the partition is unknown.
    pub fn get_high_watermark(&self, topic: &str, partition: u32) -> (r: u64)
        ensures
            r == (match self.partitions().get((topic@, partition)) {
                Some(s) => s.high_watermark,
                None => 0,
            }),
    {
        match find_partition(&self.partition_states, topic, partition) {
            Some(s) => s.high_watermark,
            None => 0,
        }
    }

    /// Records that replica `broker_id` of a partition has reached `offset`
    /// (see `PartitionReplicaState::update_replica_offset`); an unknown
    /// partition is ignored.
    pub fn update_replica_offset(&mut self, topic: &str, partition: u32, broker_id: BrokerId, offset: u64)
        requires
            old(self).wf(),
            offset + old(self).isr_lag_threshold() <= u64::MAX,
        ensures
            final(self).wf(),
            final(self).partitions() == (match old(self).partitions().get((topic@, partition)) {
                Some(s) => old(self).partitions().insert(
                    (topic@, partition),
                    after_replica_report(s, broker_id, offset, old(self).isr_lag_threshold()),
                ),
                None => old(self).partitions(),
            }),
            final(self).brokers() == old(self).brokers(),
            final(self).spec_broker_id() == old(self).spec_broker_id(),
            final(self).broker_timeout() == old(self).broker_timeout(),
            final(self).isr_lag_threshold() == old(self).isr_lag_threshold(),
    {
        match take_partition(&mut self.partition_states, topic, partition) {
            Some(mut state) => {
                state.update_replica_offset(broker_id, offset, self.isr_lag_threshold);
                put_partition(&mut self.partition_states, (topic.to_owned(), partition), state);
                proof {
                    assert(partition_table(self.partition_states) =~= old(self).partitions().insert(
                        (topic@, partition),
                        after_replica_report(old(self).partitions()[(topic@, partition)], broker_id, offset, self.isr_lag_threshold),
                    ));
                }
            },
            None => {
                proof {
                    assert(partition_table(self.partition_states) =~= old(self).partitions());
                }
            },
        }
    }

    /// Handles the failure of broker `failed` in every partition: it leaves
    /// the in-sync set, and where it led, a new leader is elected. Returns
    /// each partition that got a new leader, with that leader, in the
    /// table's order.
    pub fn handle_broker_failure(&mut self, failed: BrokerId) -> (r: Vec<(String, u32, BrokerId)>)
        requires
            old(self).wf(),
            forall|k: (Seq<char>, u32)| #[trigger] old(self).partitions().contains_key(k)
                && failure_elects(old(self).partitions()[k], failed) ==> old(self).partitions()[k].leader_epoch
                < u32::MAX,
        ensures
            final(self).wf(),
            final(self).partitions().dom() == old(self).partitions().dom(),
            forall|k: (Seq<char>, u32)| #[trigger] old(self).partitions().contains_key(k) ==> after_failure(
                old(self).partitions()[k],
                failed,
                final(self).partitions()[k],
            ),
            forall|j: int| 0 <= j < r.len() ==> #[trigger] new_leader_reported(
                old(self).partitions(),
                final(self).partitions(),
                failed,
                r@[j],
            ),
            forall|j1: int, j2: int| 0 <= j1 < j2 < r.len() ==> (r@[j1].0@, r@[j1].1) != (r@[j2].0@, r@[j2].1),
            forall|k: (Seq<char>, u32)| #[trigger] old(self).partitions().contains_key(k) && failure_election(
                old(self).partitions()[k],
                failed,
                final(self).partitions()[k],
            ) is Some ==> exists|j: int| 0 <= j < r.len() && (r@[j].0@, r@[j].1) == k,
            final(self).brokers() == old(self).brokers(),
            final(self).spec_broker_id() == old(self).spec_broker_id(),
            final(self).broker_timeout() == old(self).broker_timeout(),
            final(self).isr_lag_threshold() == old(self).isr_lag_threshold(),
    {
        let entries = list_partitions(&self.partition_states);
        let ghost start = partition_table(self.partition_states);
        let mut r: Vec<(String, u32, BrokerId)> = Vec::new();
        let ghost mut src: Seq<int> = Seq::empty();
        let mut i: usize = 0;
        while i < entries.len()
            invariant
                i <= entries.len(),
                self.wf(),
                forall|m: int| 0 <= m < entries.len() ==> #[trigger] listed_partition(start, entries@[m]),
                forall|m: int, n: int| 0 <= m < n < entries.len() ==> key_view(entries@[m].0) != key_view(entries@[n].0),
                forall|k: (Seq<char>, u32)| #[trigger] start.contains_key(k) ==> exists|m: int|
                    0 <= m < entries.len() && key_view(entries@[m].0) == k,
                forall|k: (Seq<char>, u32)| #[trigger] start.contains_key(k) && failure_elects(start[k], failed)
                    ==> start[k].leader_epoch < u32::MAX,
                self.partitions().dom() == start.dom(),
                forall|m: int| 0 <= m < i ==> #[trigger] after_failure(
                    start[key_view(entries@[m].0)],
                    failed,
                    self.partitions()[key_view(entries@[m].0)],
                ),
                forall|k: (Seq<char>, u32)| #[trigger] start.contains_key(k) && (forall|m: int| 0 <= m < i ==> key_view(entries@[m].0) != k)
                    ==> self.partitions()[k] == start[k],
                forall|j: int| 0 <= j < r.len() ==> #[trigger] new_leader_reported(start, self.partitions(), failed, r@[j]),
                src.len() == r.len(),
                forall|j: int| 0 <= j < r.len() ==> 0 <= #[trigger] src[j] < i && key_view(entries@[src[j]].0) == (r@[j].0@, r@[j].1),
                forall|j1: int, j2: int| 0 <= j1 < j2 < r.len() ==> src[j1] < src[j2],
                forall|m: int| 0 <= m < i && #[trigger] failure_election(
                    start[key_view(entries@[m].0)],
                    failed,
                    self.partitions()[key_view(entries@[m].0)],
                ) is Some ==> exists|j: int| 0 <= j < r.len() && (r@[j].0@, r@[j].1) == key_view(entries@[m].0),
                self.brokers() == old(self).brokers(),
                self.spec_broker_id() == old(self).spec_broker_id(),
                self.broker_timeout() == old(self).broker_timeout(),
                self.isr_lag_threshold() == old(self).isr_lag_threshold(),
            decreases entries.len() - i,
        {
            let topic = &entries[i].0.0;
            let partition = entries[i].0.1;
            let ghost k = key_view(entries@[i as int].0);
            let ghost before = partition_table(self.partition_states);
            proof {
                assert(listed_partition(start, entries@[i as int]));
                assert forall|m: int| 0 <= m < i implies key_view(entries@[m].0) != k by {}
            }
            match take_partition(&mut self.partition_states, topic.as_str(), partition) {
                Some(mut state) => {
                    let elected = state.remove_failed_broker(failed);
                    let ghost new_state = state@;
                    put_partition(&mut self.partition_states, (topic.clone(), partition), state);
                    let ghost old_r = r@;
                    let ghost old_src = src;
                    match elected {
                        Some(leader) => {
                            r.push((topic.clone(), partition, leader));
                            proof {
                                src = src.push(i as int);
                            }
                        },
                        None => {},
                    }
                    proof {
                        assert(partition_table(self.partition_states) == before.insert(k, new_state)) by {
                            assert(before.remove(k).insert(k, new_state) =~= before.insert(k, new_state));
                        }
                        assert forall|j: int| 0 <= j < r.len() implies #[trigger] new_leader_reported(start, self.partitions(), failed, r@[j]) by {
                            if j < old_r.len() {
                                assert(r@[j] == old_r[j]);
                                assert(src[j] == old_src[j]);
                                assert(new_leader_reported(start, before, failed, old_r[j]));
                                assert(key_view(entries@[old_src[j]].0) != k);
                            }
                        }
                        assert forall|j: int| 0 <= j < r.len() implies 0 <= #[trigger] src[j] < i + 1 && key_view(entries@[src[j]].0) == (r@[j].0@, r@[j].1) by {
                            if j < old_r.len() {
                                assert(r@[j] == old_r[j]);
                                assert(src[j] == old_src[j]);
                            }
                        }
                        assert forall|m: int| 0 <= m < i + 1 && #[trigger] failure_election(
                            start[key_view(entries@[m].0)],
                            failed,
                            self.partitions()[key_view(entries@[m].0)],
                        ) is Some implies exists|j: int| 0 <= j < r.len() && (r@[j].0@, r@[j].1) == key_view(entries@[m].0) by {
                            if m < i {
                                assert(key_view(entries@[m].0) != k);
                                assert(failure_election(start[key_view(entries@[m].0)], failed, before[key_view(entries@[m].0)]) is Some);
                                let j = choose|j: int| 0 <= j < old_r.len() && (old_r[j].0@, old_r[j].1) == key_view(entries@[m].0);
                                assert(r@[j] == old_r[j]);
                            } else {
                                assert(r@[r.len() - 1].0@ == topic@);
                            }
                        }
                        assert forall|m: int| 0 <= m < i + 1 implies #[trigger] after_failure(
                            start[key_view(entries@[m].0)],
                            failed,
                            self.partitions()[key_view(entries@[m].0)],
                        ) by {
                            if m < i {
                                assert(key_view(entries@[m].0) != k);
                            }
                        }
                    }
                },
                None => {
                    proof {
                        assert(false);
                    }
                },
            }
            i = i + 1;
        }
        proof {
            assert forall|j1: int, j2: int| 0 <= j1 < j2 < r.len() implies (r@[j1].0@, r@[j1].1) != (r@[j2].0@, r@[j2].1) by {
                assert(src[j1] < src[j2]);
                assert(key_view(entries@[src[j1]].0) != key_view(entries@[src[j2]].0));
            }
            assert forall|k: (Seq<char>, u32)| #[trigger] start.contains_key(k) implies after_failure(
                start[k],
                failed,
                self.partitions()[k],
            ) by {
                let m = choose|m: int| 0 <= m < entries.len() && key_view(entries@[m].0) == k;
                assert(after_failure(start[key_view(entries@[m].0)], failed, self.partitions()[key_view(entries@[m].0)]));
            }
            assert forall|k: (Seq<char>, u32)| #[trigger] start.contains_key(k) && failure_election(
                start[k],
                failed,
                self.partitions()[k],
            ) is Some implies exists|j: int| 0 <= j < r.len() && (r@[j].0@, r@[j].1) == k by {
                let m = choose|m: int| 0 <= m < entries.len() && key_view(entries@[m].0) == k;
                assert(failure_election(start[key_view(entries@[m].0)], failed, self.partitions()[key_view(entries@[m].0)]) is Some);
            }
        }
        r
    }

    /// This broker's id.
    pub fn broker_id(&self) -> (r: BrokerId)
        ensures
            r == self.spec_broker_id(),
    {
        self.broker_id
    }

    /// Whether this broker leads the partition.
    pub fn is_partition_leader(&self, topic: &str, partition: u32) -> (r: bool)
        ensures
            r == (match self.partitions().get((topic@, partition)) {
                Some(s) => s.leader == self.spec_broker_id(),
                None => false,
            }),
    {
        match self.get_partition_leader(topic, partition) {
            Some(leader) => leader == self.broker_id,
            None => false,
        }
    }

    /// A copy of the state of every partition, each once, in the table's
    /// order.
    pub fn get_all_partition_states(&self) -> (r: Vec<PartitionReplicaState>)
        requires
            self.wf(),
        ensures
            lists_partitions(self.partitions(), r@),
    {
        let mut entries = list_partitions(&self.partition_states);
        let ghost table = partition_table(self.partition_states);
        let ghost all = entries@;
        let mut r: Vec<PartitionReplicaState> = Vec::new();
        let mut i: usize = 0;
        while i < entries.len()
            invariant
                i <= entries.len(),
                entries@ == all,
                forall|m: int| 0 <= m < all.len() ==> #[trigger] listed_partition(table, all[m]),
                forall|k: (Seq<char>, u32)| #[trigger] table.contains_key(k) ==> table[k].topic == k.0 && table[k].partition == k.1,
                r.len() == i,
                forall|j: int| 0 <= j < i ==> #[trigger] r@[j]@ == all[j].1@,
            decreases entries.len() - i,
        {
            let s = entries[i].1.duplicate();
            r.push(s);
            i = i + 1;
        }
        proof {
            assert forall|j: int| 0 <= j < r.len() implies #[trigger] table.contains_key(state_key(r@[j]@))
                && table[state_key(r@[j]@)] == r@[j]@ by {
                assert(listed_partition(table, all[j]));
                assert(state_key(r@[j]@) == key_view(all[j].0));
            }
            assert forall|j1: int, j2: int| 0 <= j1 < j2 < r.len() implies state_key(r@[j1]@) != state_key(r@[j2]@) by {
                assert(listed_partition(table, all[j1]));
                assert(listed_partition(table, all[j2]));
                assert(state_key(r@[j1]@) == key_view(all[j1].0));
                assert(state_key(r@[j2]@) == key_view(all[j2].0));
            }
            assert forall|k: (Seq<char>, u32)| #[trigger] table.contains_key(k) implies exists|j: int|
                0 <= j < r.len() && state_key(r@[j]@) == k by {
                let m = choose|m: int| 0 <= m < all.len() && key_view(all[m].0) == k;
                assert(listed_partition(table, all[m]));
                assert(state_key(r@[m]@) == k);
            }
        }
        r
    }
}

} // verus!
