//! Consumer groups: their members, heartbeats, and the round-robin
//! assignment of partitions to members.
use vstd::prelude::*;
use crate::clock::now_millis;
use crate::error::{GaffaError, Result};
use crate::messages::PartitionAssignment;
use crate::text::same_text;
use crate::time::Duration;
use crate::cluster::elapsed_millis;

verus! {

/// The text of each string.
pub open spec fn texts(v: Seq<String>) -> Seq<Seq<char>> {
    v.map_values(|s: String| s@)
}

/// The topic and partition of each assignment.
pub open spec fn assignment_views(v: Seq<PartitionAssignment>) -> Seq<(Seq<char>, u32)> {
    v.map_values(|a: PartitionAssignment| (a.topic@, a.partition))
}

/// A member of a consumer group.
#[derive(Debug)]
pub struct GroupMember {
    /// Unique member id
    pub member_id: String,
    /// Topics the member is interested in
    pub topics: Vec<String>,
    /// When its last heartbeat came, in milliseconds on the clock
    pub last_heartbeat: u64,
    /// Its current partition assignments
    pub assignments: Vec<PartitionAssignment>,
}

/// What a member holds.
pub struct MemberView {
    pub member_id: Seq<char>,
    pub topics: Seq<Seq<char>>,
    pub last_heartbeat: u64,
    pub assignments: Seq<(Seq<char>, u32)>,
}

impl View for GroupMember {
    type V = MemberView;

    open spec fn view(&self) -> MemberView {
        MemberView {
            member_id: self.member_id@,
            topics: texts(self.topics@),
            last_heartbeat: self.last_heartbeat,
            assignments: assignment_views(self.assignments@),
        }
    }
}

/// Whether a member with heartbeat at `last` is dead at `now`: more than
/// `timeout` has passed since.
pub open spec fn dead_at(last: u64, timeout: Duration, now: u64) -> bool {
    elapsed_millis(last, now) * 1_000_000 > timeout.total_nanos()
}

/// The ids of the members of `ms` dead at `now`, in order.
pub open spec fn dead_ids(ms: Seq<MemberView>, timeout: Duration, now: u64) -> Seq<Seq<char>>
    decreases ms.len(),
{
    if ms.len() == 0 {
        Seq::empty()
    } else {
        let rest = dead_ids(ms.drop_last(), timeout, now);
        if dead_at(ms.last().last_heartbeat, timeout, now) {
            rest.push(ms.last().member_id)
        } else {
            rest
        }
    }
}

/// The position of the member with id `id`, if there is one.
pub open spec fn member_index(ms: Seq<MemberView>, id: Seq<char>) -> Option<int> {
    if exists|i: int| 0 <= i < ms.len() && (#[trigger] ms[i]).member_id == id {
        Some(choose|i: int| 0 <= i < ms.len() && (#[trigger] ms[i]).member_id == id)
    } else {
        None
    }
}

/// Whether no two members share an id.
pub open spec fn unique_ids(ms: Seq<MemberView>) -> bool {
    forall|i: int, j: int| 0 <= i < j < ms.len() ==> (#[trigger] ms[i]).member_id != (#[trigger] ms[j]).member_id
}

/// The unique position of a member, once found.
proof fn lemma_member_index(ms: Seq<MemberView>, i: int)
    requires
        unique_ids(ms),
        0 <= i < ms.len(),
    ensures
        member_index(ms, ms[i].member_id) == Some(i),
{
    let id = ms[i].member_id;
    assert(exists|k: int| 0 <= k < ms.len() && (#[trigger] ms[k]).member_id == id);
    let c = choose|k: int| 0 <= k < ms.len() && (#[trigger] ms[k]).member_id == id;
    if c != i {
        if c < i {
            assert(ms[c].member_id != ms[i].member_id);
        } else {
            assert(ms[i].member_id != ms[c].member_id);
        }
    }
}

/// What each member holds.
pub open spec fn member_views(v: Seq<GroupMember>) -> Seq<MemberView> {
    v.map_values(|m: GroupMember| m@)
}

/// A consumer group.
#[derive(Debug)]
pub struct ConsumerGroup {
    /// Group id
    pub group_id: String,
    /// The members, each id once
    pub members: Vec<GroupMember>,
    /// Incremented on each rebalance
    pub generation: u32,
}

/// What a group holds.
pub struct GroupView {
    pub group_id: Seq<char>,
    pub members: Seq<MemberView>,
    pub generation: u32,
}

impl View for ConsumerGroup {
    type V = GroupView;

    open spec fn view(&self) -> GroupView {
        GroupView {
            group_id: self.group_id@,
            members: member_views(self.members@),
            generation: self.generation,
        }
    }
}

impl ConsumerGroup {
    /// An empty group.
    pub fn new(group_id: String) -> (r: Self)
        ensures
            r@.group_id == group_id@,
            r@.members == Seq::<MemberView>::empty(),
            r@.generation == 0,
    {
        let r = ConsumerGroup { group_id, members: Vec::new(), generation: 0 };
        assert(r@.members =~= Seq::<MemberView>::empty());
        r
    }

    /// The position of the member with id `member_id`.
    fn find(&self, member_id: &str) -> (r: Option<usize>)
        ensures
            match r {
                Some(i) => i < self.members.len() && self@.members[i as int].member_id == member_id@,
                None => forall|i: int| 0 <= i < self.members.len() ==> (#[trigger] self@.members[i]).member_id != member_id@,
            },
    {
        let mut i: usize = 0;
        while i < self.members.len()
            invariant
                i <= self.members.len(),
                forall|j: int| 0 <= j < i ==> (#[trigger] self@.members[j]).member_id != member_id@,
            decreases self.members.len() - i,
        {
            if same_text(member_id, &self.members[i].member_id) {
                return Some(i);
            }
            i = i + 1;
        }
        None
    }

    /// Adds a member, in place of one with the same id.
    pub fn add_member(&mut self, member: GroupMember)
        requires
            unique_ids(old(self)@.members),
        ensures
            unique_ids(final(self)@.members),
            final(self)@ == (GroupView {
                members: match member_index(old(self)@.members, member.member_id@) {
                    Some(i) => old(self)@.members.update(i, member@),
                    None => old(self)@.members.push(member@),
                },
                ..old(self)@
            }),
    {
        let ghost before = self@.members;
        match self.find(member.member_id.as_str()) {
            Some(i) => {
                proof {
                    lemma_member_index(before, i as int);
                }
                self.members.set(i, member);
                proof {
                    assert(self@.members =~= before.update(i as int, member@));
                }
            },
            None => {
                self.members.push(member);
                proof {
                    assert(self@.members =~= before.push(member@));
                }
            },
        }
    }

    /// Removes the member with id `member_id`, and hands it back.
    pub fn remove_member(&mut self, member_id: &str) -> (r: Option<GroupMember>)
        requires
            unique_ids(old(self)@.members),
        ensures
            unique_ids(final(self)@.members),
            match member_index(old(self)@.members, member_id@) {
                Some(i) => (r matches Some(m) && m@ == old(self)@.members[i]) && final(self)@ == (GroupView {
                    members: old(self)@.members.remove(i),
                    ..old(self)@
                }),
                None => r is None && final(self)@ == old(self)@,
            },
    {
        let ghost before = self@.members;
        match self.find(member_id) {
            Some(i) => {
                proof {
                    lemma_member_index(before, i as int);
                }
                let m = self.members.remove(i);
                proof {
                    assert(self@.members =~= before.remove(i as int));
                }
                Some(m)
            },
            None => {
                proof {
                    assert(!(exists|k: int| 0 <= k < before.len() && (#[trigger] before[k]).member_id == member_id@));
                }
                None
            },
        }
    }

    /// Records a heartbeat of member `member_id` now, by the clock.
    pub fn heartbeat(&mut self, member_id: &str) -> (r: Result<()>)
        requires
            unique_ids(old(self)@.members),
        ensures
            exists|now: u64| heartbeat_outcome(old(self)@, member_id@, now, final(self)@, r),
    {
        let now = now_millis();
        self.heartbeat_at(member_id, now)
    }

    /// Records a heartbeat of member `member_id` at `now`; an unknown
    /// member is refused.
    pub fn heartbeat_at(&mut self, member_id: &str, now: u64) -> (r: Result<()>)
        requires
            unique_ids(old(self)@.members),
        ensures
            heartbeat_outcome(old(self)@, member_id@, now, final(self)@, r),
    {
        let ghost before = self@.members;
        match self.find(member_id) {
            Some(i) => {
                proof {
                    lemma_member_index(before, i as int);
                }
                let mut m = self.members.remove(i);
                m.last_heartbeat = now;
                self.members.insert(i, m);
                proof {
                    assert(self@.members =~= before.update(
                        i as int,
                        MemberView { last_heartbeat: now, ..before[i as int] },
                    ));
                }
                Ok(())
            },
            None => {
                proof {
                    assert(!(exists|k: int| 0 <= k < before.len() && (#[trigger] before[k]).member_id == member_id@));
                }
                Err(GaffaError::ConsumerNotFound(member_id.to_owned()))
            },
        }
    }

    /// The ids of the members whose last heartbeat is more than `timeout`
    /// old now, by the clock.
    pub fn get_dead_members(&self, timeout: Duration) -> (r: Vec<String>)
        ensures
            exists|now: u64| texts(r@) == dead_ids(self@.members, timeout, now),
    {
        let now = now_millis();
        self.get_dead_members_at(timeout, now)
    }

    /// The ids of the members whose last heartbeat is more than `timeout`
    /// before `now`, in member order.
    pub fn get_dead_members_at(&self, timeout: Duration, now: u64) -> (r: Vec<String>)
        ensures
            texts(r@) == dead_ids(self@.members, timeout, now),
    {
        let mut r: Vec<String> = Vec::new();
        let mut i: usize = 0;
        while i < self.members.len()
            invariant
                i <= self.members.len(),
                texts(r@) == dead_ids(self@.members.subrange(0, i as int), timeout, now),
            decreases self.members.len() - i,
        {
            let m = &self.members[i];
            let elapsed = Duration::from_millis(now.saturating_sub(m.last_heartbeat));
            let dead = elapsed.is_longer_than(&timeout);
            proof {
                assert(self@.members.subrange(0, i + 1).drop_last() =~= self@.members.subrange(0, i as int));
            }
            if dead {
                r.push(m.member_id.clone());
                proof {
                    assert(texts(r@) =~= dead_ids(self@.members.subrange(0, i as int), timeout, now).push(m.member_id@));
                }
            }
            i = i + 1;
        }
        assert(self@.members.subrange(0, self.members.len() as int) =~= self@.members);
        r
    }
}

/// The outcome of a heartbeat at `now`: a known member's heartbeat time
/// becomes `now`; an unknown member is refused with `ConsumerNotFound`.
pub open spec fn heartbeat_outcome(g: GroupView, id: Seq<char>, now: u64, after: GroupView, r: Result<()>) -> bool {
    match member_index(g.members, id) {
        Some(i) => r is Ok && after == (GroupView {
            members: g.members.update(i, MemberView { last_heartbeat: now, ..g.members[i] }),
            ..g
        }),
        None => after == g && (r matches Err(GaffaError::ConsumerNotFound(s)) && s@ == id),
    }
}

/// `seen`, then each topic of `ts` that is not yet there, in order.
pub open spec fn add_new(seen: Seq<Seq<char>>, ts: Seq<Seq<char>>) -> Seq<Seq<char>>
    decreases ts.len(),
{
    if ts.len() == 0 {
        seen
    } else {
        let s = add_new(seen, ts.drop_last());
        if s.contains(ts.last()) {
            s
        } else {
            s.push(ts.last())
        }
    }
}

/// Every topic that some member is interested in, once, in order of first
/// mention.
pub open spec fn group_topics(ms: Seq<MemberView>) -> Seq<Seq<char>>
    decreases ms.len(),
{
    if ms.len() == 0 {
        Seq::empty()
    } else {
        add_new(group_topics(ms.drop_last()), ms.last().topics)
    }
}

/// The view of a table of partition counts.
pub open spec fn counts_view(tp: Seq<(String, u32)>) -> Seq<(Seq<char>, u32)> {
    tp.map_values(|e: (String, u32)| (e.0@, e.1))
}

/// The partition count of topic `t`: the first entry for it.
pub open spec fn partition_count(tp: Seq<(Seq<char>, u32)>, t: Seq<char>) -> Option<u32>
    decreases tp.len(),
{
    if tp.len() == 0 {
        None
    } else if tp[0].0 == t {
        Some(tp[0].1)
    } else {
        partition_count(tp.drop_first(), t)
    }
}

/// The partitions of topic `t`, numbered from 0; none for an unknown topic.
pub open spec fn partitions_of(t: Seq<char>, tp: Seq<(Seq<char>, u32)>) -> Seq<(Seq<char>, u32)> {
    match partition_count(tp, t) {
        Some(c) => Seq::new(c as nat, |p: int| (t, p as u32)),
        None => Seq::empty(),
    }
}

/// The partitions of the topics, topic by topic.
pub open spec fn all_partitions(topics: Seq<Seq<char>>, tp: Seq<(Seq<char>, u32)>) -> Seq<(Seq<char>, u32)>
    decreases topics.len(),
{
    if topics.len() == 0 {
        Seq::empty()
    } else {
        all_partitions(topics.drop_last(), tp) + partitions_of(topics.last(), tp)
    }
}

/// How many of `n` items, dealt round-robin to `m` members, member `j` gets.
pub open spec fn share_len(n: int, m: int, j: int) -> int {
    if j < n {
        (n - 1 - j) / m + 1
    } else {
        0
    }
}

/// The items that member `j` of `m` gets when `parts` are dealt
/// round-robin: those at positions `j`, `j + m`, `j + 2m`, ...
pub open spec fn share<A>(parts: Seq<A>, m: int, j: int) -> Seq<A> {
    Seq::new(share_len(parts.len() as int, m, j) as nat, |k: int| parts[j + k * m])
}

/// The group after a rebalance with partition counts `tp`: the generation
/// goes up by one; when the group has members, every partition of every
/// topic they are interested in is dealt round-robin over the members, in
/// member order, replacing their assignments.
pub open spec fn rebalanced(g: GroupView, tp: Seq<(Seq<char>, u32)>) -> GroupView {
    let parts = all_partitions(group_topics(g.members), tp);
    let m = g.members.len();
    GroupView {
        generation: (g.generation + 1) as u32,
        members: if m == 0 {
            g.members
        } else {
            Seq::new(m, |j: int| MemberView { assignments: share(parts, m as int, j), ..g.members[j] })
        },
        ..g
    }
}

/// Dealing `n` items round-robin to `m` members gives each item to exactly
/// one member: item `i` goes to member `i % m`, as its `(i / m)`-th item,
/// and to no other member or place.
pub proof fn lemma_deal_each_once(n: int, m: int, i: int)
    requires
        0 < m,
        0 <= i < n,
    ensures
        0 <= i % m < m,
        0 <= i / m < share_len(n, m, i % m),
        i % m + (i / m) * m == i,
        forall|j: int, k: int|
            0 <= j < m && 0 <= k < share_len(n, m, j) && #[trigger] (j + k * m) == i ==> j == i % m && k == i / m,
{
    let j0 = i % m;
    let k0 = i / m;
    vstd::arithmetic::div_mod::lemma_fundamental_div_mod(i, m);
    vstd::arithmetic::div_mod::lemma_mod_pos_bound(i, m);
    vstd::arithmetic::div_mod::lemma_div_pos_is_pos(i, m);
    vstd::arithmetic::mul::lemma_mul_is_commutative(m, k0);
    assert(j0 + k0 * m == i);
    // k0 * m <= n - 1 - j0, so k0 <= (n - 1 - j0) / m
    let x = n - 1 - j0;
    assert(k0 * m <= x);
    vstd::arithmetic::div_mod::lemma_div_is_ordered(k0 * m, x, m);
    vstd::arithmetic::div_mod::lemma_div_multiples_vanish(k0, m);
    vstd::arithmetic::mul::lemma_mul_is_commutative(k0, m);
    assert((k0 * m) / m == k0);
    assert forall|j: int, k: int|
        0 <= j < m && 0 <= k < share_len(n, m, j) && #[trigger] (j + k * m) == i implies j == i % m && k == i / m by {
        vstd::arithmetic::mul::lemma_mul_is_commutative(k, m);
        vstd::arithmetic::div_mod::lemma_fundamental_div_mod_converse_mod(i, m, k, j);
        vstd::arithmetic::div_mod::lemma_fundamental_div_mod_converse_div(i, m, k, j);
    }
}

/// Dealing `n` items round-robin to `m` members is balanced: each member
/// gets `n / m` items or one more.
pub proof fn lemma_deal_balanced(n: int, m: int, j: int)
    requires
        0 < m,
        0 <= j < m,
        0 <= n,
    ensures
        share_len(n, m, j) == n / m || share_len(n, m, j) == n / m + 1,
{
    let q = n / m;
    let r = n % m;
    vstd::arithmetic::div_mod::lemma_fundamental_div_mod(n, m);
    vstd::arithmetic::div_mod::lemma_mod_pos_bound(n, m);
    vstd::arithmetic::mul::lemma_mul_is_commutative(m, q);
    if j < n {
        let x = n - 1 - j;
        if j < r {
            vstd::arithmetic::div_mod::lemma_fundamental_div_mod_converse_div(x, m, q, r - 1 - j);
            assert(share_len(n, m, j) == q + 1);
        } else {
            assert(x == (q - 1) * m + (m + r - 1 - j)) by (nonlinear_arith)
                requires
                    x == n - 1 - j,
                    n == q * m + r,
            ;
            vstd::arithmetic::div_mod::lemma_fundamental_div_mod_converse_div(x, m, q - 1, m + r - 1 - j);
            assert(share_len(n, m, j) == q);
        }
    } else {
        assert(q == 0) by (nonlinear_arith)
            requires
                n == q * m + r,
                0 <= r < m,
                0 <= n <= j < m,
        ;
    }
}

/// Adding the new topics of `ts` to distinct topics keeps them distinct.
proof fn lemma_add_new_distinct(seen: Seq<Seq<char>>, ts: Seq<Seq<char>>)
    requires
        seen.no_duplicates(),
    ensures
        add_new(seen, ts).no_duplicates(),
    decreases ts.len(),
{
    if ts.len() > 0 {
        lemma_add_new_distinct(seen, ts.drop_last());
        let s = add_new(seen, ts.drop_last());
        if !s.contains(ts.last()) {
            let t = s.push(ts.last());
            assert forall|a: int, b: int| 0 <= a < t.len() && 0 <= b < t.len() && a != b implies t[a] != t[b] by {
                if a == s.len() {
                    assert(t[b] == s[b]);
                } else if b == s.len() {
                    assert(t[a] == s[a]);
                }
            }
        }
    }
}

/// The topics of a group are distinct.
proof fn lemma_group_topics_distinct(ms: Seq<MemberView>)
    ensures
        group_topics(ms).no_duplicates(),
    decreases ms.len(),
{
    if ms.len() > 0 {
        lemma_group_topics_distinct(ms.drop_last());
        lemma_add_new_distinct(group_topics(ms.drop_last()), ms.last().topics);
    }
}

/// The partitions of distinct topics are distinct, and each belongs to
/// one of the topics.
proof fn lemma_all_partitions_distinct(topics: Seq<Seq<char>>, tp: Seq<(Seq<char>, u32)>)
    requires
        topics.no_duplicates(),
    ensures
        all_partitions(topics, tp).no_duplicates(),
        forall|x: int| 0 <= x < all_partitions(topics, tp).len() ==> topics.contains(#[trigger] all_partitions(topics, tp)[x].0),
    decreases topics.len(),
{
    if topics.len() > 0 {
        let init = topics.drop_last();
        let last = topics.last();
        assert(init.no_duplicates());
        lemma_all_partitions_distinct(init, tp);
        let a = all_partitions(init, tp);
        let b = partitions_of(last, tp);
        let all = a + b;
        assert(all == all_partitions(topics, tp));
        assert forall|x: int| 0 <= x < a.len() implies (#[trigger] a[x]).0 != last by {
            assert(init.contains(a[x].0));
            let y = choose|y: int| 0 <= y < init.len() && init[y] == a[x].0;
            assert(topics[y] == init[y]);
            assert(topics[topics.len() - 1] == last);
        }
        assert forall|x: int| 0 <= x < b.len() implies (#[trigger] b[x]).0 == last && b[x].1 == x by {}
        assert forall|x: int, y: int| 0 <= x < all.len() && 0 <= y < all.len() && x != y implies all[x] != all[y] by {
            if x < a.len() && y >= a.len() {
                assert(all[y] == b[y - a.len()]);
                assert(all[x] == a[x]);
            } else if x >= a.len() && y < a.len() {
                assert(all[x] == b[x - a.len()]);
                assert(all[y] == a[y]);
            } else if x >= a.len() && y >= a.len() {
                assert(all[x] == b[x - a.len()]);
                assert(all[y] == b[y - a.len()]);
            } else {
                assert(all[x] == a[x]);
                assert(all[y] == a[y]);
            }
        }
        assert forall|x: int| 0 <= x < all.len() implies topics.contains(#[trigger] all[x].0) by {
            if x < a.len() {
                assert(all[x] == a[x]);
                let y = choose|y: int| 0 <= y < init.len() && init[y] == a[x].0;
                assert(topics[y] == init[y]);
            } else {
                assert(all[x] == b[x - a.len()]);
                assert(topics[topics.len() - 1] == last);
            }
        }
    }
}

/// A rebalance gives each partition of the group's topics to exactly one
/// member: the partition dealt `i`-th goes to member `i % m` as its
/// `(i / m)`-th assignment, and appears nowhere else among the members'
/// assignments.
pub proof fn lemma_rebalance_each_partition_once(g: GroupView, tp: Seq<(Seq<char>, u32)>, i: int)
    requires
        g.members.len() > 0,
        0 <= i < all_partitions(group_topics(g.members), tp).len(),
    ensures
        ({
            let parts = all_partitions(group_topics(g.members), tp);
            let r = rebalanced(g, tp);
            let m = g.members.len() as int;
            &&& 0 <= i / m < r.members[i % m].assignments.len()
            &&& r.members[i % m].assignments[i / m] == parts[i]
            &&& forall|j: int, k: int|
                0 <= j < m && 0 <= k < r.members[j].assignments.len() && #[trigger] r.members[j].assignments[k]
                    == parts[i] ==> j == i % m && k == i / m
        }),
{
    let parts = all_partitions(group_topics(g.members), tp);
    let r = rebalanced(g, tp);
    let m = g.members.len() as int;
    let n = parts.len() as int;
    lemma_group_topics_distinct(g.members);
    lemma_all_partitions_distinct(group_topics(g.members), tp);
    lemma_deal_each_once(n, m, i);
    assert(r.members[i % m].assignments == share(parts, m, i % m));
    assert forall|j: int, k: int|
        0 <= j < m && 0 <= k < r.members[j].assignments.len() && #[trigger] r.members[j].assignments[k]
            == parts[i] implies j == i % m && k == i / m by {
        assert(r.members[j].assignments == share(parts, m, j));
        assert(k < share_len(n, m, j));
        assert(j < n);
        let q = (n - 1 - j) / m;
        assert(k <= q);
        vstd::arithmetic::div_mod::lemma_fundamental_div_mod(n - 1 - j, m);
        vstd::arithmetic::div_mod::lemma_mod_pos_bound(n - 1 - j, m);
        vstd::arithmetic::mul::lemma_mul_inequality(k, q, m);
        vstd::arithmetic::mul::lemma_mul_is_commutative(m, q);
        assert(k * m <= q * m);
        assert(0 <= j + k * m < n) by (nonlinear_arith)
            requires
                k * m <= q * m,
                m * q + (n - 1 - j) % m == n - 1 - j,
                0 <= (n - 1 - j) % m,
                0 <= j,
                0 <= k,
                0 < m,
        ;
        assert(parts[j + k * m] == parts[i]);
        assert(j + k * m == i);
    }
}

/// Whether the text is one of the strings.
fn contains_text(v: &Vec<String>, t: &String) -> (r: bool)
    ensures
        r == texts(v@).contains(t@),
{
    let mut i: usize = 0;
    while i < v.len()
        invariant
            i <= v.len(),
            forall|j: int| 0 <= j < i ==> texts(v@)[j] != t@,
        decreases v.len() - i,
    {
        if same_text(t.as_str(), &v[i]) {
            assert(texts(v@)[i as int] == t@);
            return true;
        }
        i = i + 1;
    }
    false
}

/// Every topic that some member is interested in, once, in order of first
/// mention.
fn collect_topics(members: &Vec<GroupMember>) -> (r: Vec<String>)
    ensures
        texts(r@) == group_topics(member_views(members@)),
{
    let ghost ms = member_views(members@);
    let mut r: Vec<String> = Vec::new();
    let mut i: usize = 0;
    while i < members.len()
        invariant
            i <= members.len(),
            ms == member_views(members@),
            texts(r@) == group_topics(ms.subrange(0, i as int)),
        decreases members.len() - i,
    {
        let ts = &members[i].topics;
        let ghost seen = texts(r@);
        let mut j: usize = 0;
        while j < ts.len()
            invariant
                j <= ts.len(),
                texts(r@) == add_new(seen, texts(ts@).subrange(0, j as int)),
            decreases ts.len() - j,
        {
            let t = &ts[j];
            proof {
                assert(texts(ts@).subrange(0, j + 1).drop_last() =~= texts(ts@).subrange(0, j as int));
            }
            if !contains_text(&r, t) {
                r.push(t.clone());
                proof {
                    assert(texts(r@) =~= add_new(seen, texts(ts@).subrange(0, j as int)).push(t@));
                }
            }
            j = j + 1;
        }
        proof {
            assert(texts(ts@).subrange(0, ts.len() as int) =~= texts(ts@));
            assert(ms.subrange(0, i + 1).drop_last() =~= ms.subrange(0, i as int));
            assert(ms.subrange(0, i + 1).last() == members@[i as int]@);
        }
        i = i + 1;
    }
    assert(ms.subrange(0, members.len() as int) =~= ms);
    r
}

/// The partition count of topic `t`.
fn lookup_count(tp: &Vec<(String, u32)>, t: &String) -> (r: Option<u32>)
    ensures
        r == partition_count(counts_view(tp@), t@),
{
    let mut i: usize = 0;
    assert(counts_view(tp@).subrange(0, tp.len() as int) =~= counts_view(tp@));
    while i < tp.len()
        invariant
            i <= tp.len(),
            partition_count(counts_view(tp@), t@) == partition_count(counts_view(tp@).subrange(i as int, tp.len() as int), t@),
        decreases tp.len() - i,
    {
        proof {
            let rest = counts_view(tp@).subrange(i as int, tp.len() as int);
            assert(rest.drop_first() =~= counts_view(tp@).subrange(i + 1, tp.len() as int));
        }
        if same_text(t.as_str(), &tp[i].0) {
            return Some(tp[i].1);
        }
        i = i + 1;
    }
    None
}

/// A copy of an assignment.
fn copy_assignment(a: &PartitionAssignment) -> (r: PartitionAssignment)
    ensures
        r.topic@ == a.topic@,
        r.partition == a.partition,
{
    PartitionAssignment { topic: a.topic.clone(), partition: a.partition }
}

/// The partitions of the topics, topic by topic.
fn collect_partitions(topics: &Vec<String>, tp: &Vec<(String, u32)>) -> (r: Vec<PartitionAssignment>)
    ensures
        assignment_views(r@) == all_partitions(texts(topics@), counts_view(tp@)),
{
    let mut r: Vec<PartitionAssignment> = Vec::new();
    let mut i: usize = 0;
    while i < topics.len()
        invariant
            i <= topics.len(),
            assignment_views(r@) == all_partitions(texts(topics@).subrange(0, i as int), counts_view(tp@)),
        decreases topics.len() - i,
    {
        let t = &topics[i];
        proof {
            assert(texts(topics@).subrange(0, i + 1).drop_last() =~= texts(topics@).subrange(0, i as int));
        }
        match lookup_count(tp, t) {
            Some(count) => {
                let ghost before = assignment_views(r@);
                let mut p: u32 = 0;
                while p < count
                    invariant
                        p <= count,
                        assignment_views(r@) == before + Seq::new(p as nat, |q: int| (t@, q as u32)),
                    decreases count - p,
                {
                    let ghost prev = r@;
                    let a = PartitionAssignment::new(t.clone(), p);
                    r.push(a);
                    proof {
                        assert(r@ =~= prev.push(a));
                        assert(assignment_views(r@) =~= assignment_views(prev).push((t@, p)));
                        assert(assignment_views(r@) =~= before + Seq::new((p + 1) as nat, |q: int| (t@, q as u32)));
                    }
                    p = p + 1;
                }
            },
            None => {
                proof {
                    assert(all_partitions(texts(topics@).subrange(0, i + 1), counts_view(tp@)) =~= assignment_views(r@));
                }
            },
        }
        i = i + 1;
    }
    assert(texts(topics@).subrange(0, topics.len() as int) =~= texts(topics@));
    r
}

/// The items at positions `j`, `j + m`, `j + 2m`, ... of `parts`.
fn share_of(parts: &Vec<PartitionAssignment>, m: usize, j: usize) -> (r: Vec<PartitionAssignment>)
    requires
        m > 0,
    ensures
        assignment_views(r@) == share(assignment_views(parts@), m as int, j as int),
{
    let n = parts.len();
    let count: usize = if j < n { (n - 1 - j) / m + 1 } else { 0 };
    let mut r: Vec<PartitionAssignment> = Vec::new();
    let mut k: usize = 0;
    while k < count
        invariant
            k <= count,
            m > 0,
            n == parts.len(),
            count == share_len(n as int, m as int, j as int),
            assignment_views(r@) =~= Seq::new(k as nat, |q: int| assignment_views(parts@)[j + q * m]),
        decreases count - k,
    {
        proof {
            let x = (n - 1 - j) as int;
            vstd::arithmetic::div_mod::lemma_fundamental_div_mod(x, m as int);
            vstd::arithmetic::mul::lemma_mul_inequality(k as int, x / (m as int), m as int);
            vstd::arithmetic::mul::lemma_mul_is_commutative(m as int, x / (m as int));
            assert(x % (m as int) >= 0) by {
                vstd::arithmetic::div_mod::lemma_mod_pos_bound(x, m as int);
            }
        }
        let idx = j + k * m;
        let ghost prev = r@;
        let a = copy_assignment(&parts[idx]);
        r.push(a);
        proof {
            assert(r@ =~= prev.push(a));
            assert(assignment_views(r@) =~= assignment_views(prev).push(assignment_views(parts@)[idx as int]));
            assert(assignment_views(r@) =~= Seq::new((k + 1) as nat, |q: int| assignment_views(parts@)[j + q * m]));
        }
        k = k + 1;
    }
    r
}

impl ConsumerGroup {
    /// Rebalances the group with the partition counts `topic_partitions`:
    /// the generation goes up by one, and when the group has members,
    /// every partition of every topic they are interested in is dealt
    /// round-robin over them, replacing their assignments.
    pub fn rebalance(&mut self, topic_partitions: &Vec<(String, u32)>)
        requires
            old(self).generation < u32::MAX,
        ensures
            final(self)@ == rebalanced(old(self)@, counts_view(topic_partitions@)),
    {
        self.generation = self.generation + 1;
        let topics = collect_topics(&self.members);
        let parts = collect_partitions(&topics, topic_partitions);
        let m = self.members.len();
        if m == 0 {
            return;
        }
        let ghost before = self@.members;
        let ghost pv = assignment_views(parts@);
        let mut old_members: Vec<GroupMember> = Vec::new();
        std::mem::swap(&mut old_members, &mut self.members);
        let mut j: usize = 0;
        while j < m
            invariant
                j <= m,
                m == before.len(),
                member_views(old_members@) =~= before.subrange(j as int, m as int),
                self@.members =~= Seq::new(j as nat, |q: int| MemberView { assignments: share(pv, m as int, q), ..before[q] }),
                pv == assignment_views(parts@),
                self.generation == old(self).generation + 1,
                self.group_id@ == old(self).group_id@,
            decreases m - j,
        {
            proof {
                assert(member_views(old_members@).len() == old_members@.len());
            }
            let ghost prev_old = old_members@;
            let ghost prev_new = self.members@;
            let mut member = old_members.remove(0);
            proof {
                assert(old_members@ =~= prev_old.subrange(1, prev_old.len() as int));
                assert(member == prev_old[0]);
                assert(member_views(prev_old)[0] == prev_old[0]@);
                assert(before.subrange(j as int, m as int)[0] == before[j as int]);
                assert(member@ == before[j as int]);
                assert forall|q: int| 0 <= q < old_members@.len() implies #[trigger] member_views(old_members@)[q] == before.subrange(j + 1, m as int)[q] by {
                    assert(old_members@[q] == prev_old[q + 1]);
                    assert(member_views(prev_old)[q + 1] == prev_old[q + 1]@);
                    assert(before.subrange(j as int, m as int)[q + 1] == before[j + 1 + q]);
                }
                assert(member_views(old_members@) =~= before.subrange(j + 1, m as int));
            }
            let ghost was = member@;
            member.assignments = share_of(&parts, m, j);
            proof {
                assert(member@ == MemberView { assignments: share(pv, m as int, j as int), ..was });
            }
            self.members.push(member);
            proof {
                assert(self.members@ =~= prev_new.push(member));
                assert(member_views(self.members@) =~= member_views(prev_new).push(member@));
            }
            j = j + 1;
        }
    }
}

/// Whether `c` is a lowercase hexadecimal digit.
pub open spec fn is_hex_digit(c: char) -> bool {
    ('0' <= c && c <= '9') || ('a' <= c && c <= 'f')
}

/// `uuid::Uuid::new_v4`, as text: the first eight characters of a random
/// version-4 UUID in its hyphenated lowercase form, which are eight
/// hexadecimal digits. Which digits is left open: they are random.
#[verifier::external_body]
fn random_member_suffix() -> (r: String)
    ensures
        r@.len() == 8,
        forall|i: int| 0 <= i < 8 ==> is_hex_digit(#[trigger] r@[i]),
{
    uuid::Uuid::new_v4().to_string()[..8].to_string()
}

/// The id given to a member that joins without one: the group id, a dash
/// and `suffix`.
pub open spec fn generated_member_id(group_id: Seq<char>, suffix: Seq<char>) -> Seq<char> {
    group_id + "-"@ + suffix
}

/// What the coordinator holds.
pub struct CoordinatorView {
    pub groups: Seq<GroupView>,
    pub heartbeat_timeout: Duration,
    pub topic_partitions: Seq<(Seq<char>, u32)>,
}

/// The position of the group with id `id`, if there is one.
pub open spec fn group_index(gs: Seq<GroupView>, id: Seq<char>) -> Option<int> {
    if exists|i: int| 0 <= i < gs.len() && (#[trigger] gs[i]).group_id == id {
        Some(choose|i: int| 0 <= i < gs.len() && (#[trigger] gs[i]).group_id == id)
    } else {
        None
    }
}

/// Whether the groups are well formed: distinct ids, and in each group
/// distinct member ids.
pub open spec fn groups_wf(gs: Seq<GroupView>) -> bool {
    &&& forall|i: int, j: int| 0 <= i < j < gs.len() ==> (#[trigger] gs[i]).group_id != (#[trigger] gs[j]).group_id
    &&& forall|i: int| 0 <= i < gs.len() ==> unique_ids((#[trigger] gs[i]).members)
}

/// The unique position of a group, once found.
proof fn lemma_group_index(gs: Seq<GroupView>, i: int)
    requires
        groups_wf(gs),
        0 <= i < gs.len(),
    ensures
        group_index(gs, gs[i].group_id) == Some(i),
{
    let id = gs[i].group_id;
    assert(exists|k: int| 0 <= k < gs.len() && (#[trigger] gs[k]).group_id == id);
    let c = choose|k: int| 0 <= k < gs.len() && (#[trigger] gs[k]).group_id == id;
    if c != i {
        if c < i {
            assert(gs[c].group_id != gs[i].group_id);
        } else {
            assert(gs[i].group_id != gs[c].group_id);
        }
    }
}

/// A group after `m` joins it: in place of a member with the same id, or
/// added last.
pub open spec fn with_member(g: GroupView, m: MemberView) -> GroupView {
    GroupView {
        members: match member_index(g.members, m.member_id) {
            Some(i) => g.members.update(i, m),
            None => g.members.push(m),
        },
        ..g
    }
}

/// The groups after member `member` joins group `group_id` with partition
/// counts `tp`: the group (a new, empty one at generation 0 if there was
/// none, added last) takes the member and is rebalanced.
pub open spec fn after_join(gs: Seq<GroupView>, group_id: Seq<char>, member: MemberView, tp: Seq<(Seq<char>, u32)>) -> Seq<GroupView> {
    match group_index(gs, group_id) {
        Some(i) => gs.update(i, rebalanced(with_member(gs[i], member), tp)),
        None => gs.push(rebalanced(with_member(GroupView { group_id, members: Seq::empty(), generation: 0 }, member), tp)),
    }
}

/// The coordinator after member `member_id`, interested in `topics`,
/// joins group `group_id` at `now`.
pub open spec fn joined_at(c: CoordinatorView, group_id: Seq<char>, member_id: Seq<char>, topics: Seq<Seq<char>>, now: u64) -> CoordinatorView {
    CoordinatorView {
        groups: after_join(
            c.groups,
            group_id,
            MemberView { member_id, topics, last_heartbeat: now, assignments: Seq::empty() },
            c.topic_partitions,
        ),
        ..c
    }
}

/// The assignments of member `id` in group `group_id`.
pub open spec fn assignments_in(gs: Seq<GroupView>, group_id: Seq<char>, id: Seq<char>) -> Seq<(Seq<char>, u32)> {
    match group_index(gs, group_id) {
        Some(i) => match member_index(gs[i].members, id) {
            Some(j) => gs[i].members[j].assignments,
            None => Seq::empty(),
        },
        None => Seq::empty(),
    }
}

/// The generation of group `group_id`; 0 for an unknown group.
pub open spec fn generation_of(gs: Seq<GroupView>, group_id: Seq<char>) -> u32 {
    match group_index(gs, group_id) {
        Some(i) => gs[i].generation,
        None => 0,
    }
}

/// The members still alive at `now`, in order.
pub open spec fn alive_members(ms: Seq<MemberView>, timeout: Duration, now: u64) -> Seq<MemberView>
    decreases ms.len(),
{
    if ms.len() == 0 {
        Seq::empty()
    } else {
        let rest = alive_members(ms.drop_last(), timeout, now);
        if dead_at(ms.last().last_heartbeat, timeout, now) {
            rest
        } else {
            rest.push(ms.last())
        }
    }
}

/// A group after the dead members leave it at `now`: unchanged when none
/// is dead, else without them, and rebalanced if any member is left.
pub open spec fn swept(g: GroupView, timeout: Duration, now: u64, tp: Seq<(Seq<char>, u32)>) -> GroupView {
    let alive = alive_members(g.members, timeout, now);
    if alive.len() == g.members.len() {
        g
    } else if alive.len() > 0 {
        rebalanced(GroupView { members: alive, ..g }, tp)
    } else {
        GroupView { members: alive, ..g }
    }
}

/// The groups after a heartbeat check at `now`: each group swept, and the
/// groups left empty removed.
pub open spec fn sweep_groups(gs: Seq<GroupView>, timeout: Duration, now: u64, tp: Seq<(Seq<char>, u32)>) -> Seq<GroupView>
    decreases gs.len(),
{
    if gs.len() == 0 {
        Seq::empty()
    } else {
        let rest = sweep_groups(gs.drop_last(), timeout, now, tp);
        let g = swept(gs.last(), timeout, now, tp);
        if g.members.len() > 0 {
            rest.push(g)
        } else {
            rest
        }
    }
}

/// The coordinator after a heartbeat check at `now`.
pub open spec fn swept_at(c: CoordinatorView, now: u64) -> CoordinatorView {
    CoordinatorView { groups: sweep_groups(c.groups, c.heartbeat_timeout, now, c.topic_partitions), ..c }
}

/// Removes the members of `g` dead at `now`; when some were, and some are
/// left, the group is rebalanced.
fn sweep_group(g: &mut ConsumerGroup, timeout: Duration, now: u64, tp: &Vec<(String, u32)>)
    requires
        unique_ids(old(g)@.members),
        old(g)@.generation < u32::MAX,
    ensures
        final(g)@ == swept(old(g)@, timeout, now, counts_view(tp@)),
{
    let ghost ms = g@.members;
    let n = g.members.len();
    let mut rest: Vec<GroupMember> = Vec::new();
    std::mem::swap(&mut rest, &mut g.members);
    let mut alive: Vec<GroupMember> = Vec::new();
    let mut i: usize = 0;
    proof {
        assert(member_views(rest@) =~= ms.subrange(0, n as int));
        assert(ms.subrange(0, 0) =~= Seq::<MemberView>::empty());
        assert(member_views(alive@) =~= Seq::<MemberView>::empty());
    }
    while rest.len() > 0
        invariant
            i <= n,
            n == ms.len(),
            member_views(rest@) =~= ms.subrange(i as int, n as int),
            member_views(alive@) == alive_members(ms.subrange(0, i as int), timeout, now),
        decreases rest.len(),
    {
        let ghost before = rest@;
        let m = rest.remove(0);
        proof {
            assert(member_views(before) == ms.subrange(i as int, n as int));
            assert(member_views(before).len() == before.len());
            assert(i < n);
            assert(member_views(before)[0] == before[0]@);
            assert(ms.subrange(i as int, n as int)[0] == ms[i as int]);
            assert(m@ == ms[i as int]);
            assert forall|q: int| 0 <= q < rest@.len() implies #[trigger] member_views(rest@)[q] == ms.subrange(i + 1, n as int)[q] by {
                assert(rest@[q] == before[q + 1]);
                assert(member_views(before)[q + 1] == before[q + 1]@);
                assert(ms.subrange(i as int, n as int)[q + 1] == ms[i + 1 + q]);
            }
        }
        let elapsed = Duration::from_millis(now.saturating_sub(m.last_heartbeat));
        let ghost prev = alive@;
        proof {
            let sub = ms.subrange(0, i + 1);
            assert(sub.drop_last() =~= ms.subrange(0, i as int));
            assert(sub.last() == ms[i as int]);
        }
        if !elapsed.is_longer_than(&timeout) {
            alive.push(m);
            proof {
                assert(alive@ =~= prev.push(m));
                assert(member_views(alive@) =~= member_views(prev).push(m@));
            }
        }
        i = i + 1;
    }
    proof {
        assert(ms.subrange(0, n as int) =~= ms);
        lemma_alive_members(ms, timeout, now);
    }
    let left = alive.len();
    g.members = alive;
    if left < n && left > 0 {
        g.rebalance(tp);
    }
}

/// Coordinates consumer groups and their partition assignments.
pub struct GroupCoordinator {
    groups: Vec<ConsumerGroup>,
    heartbeat_timeout: Duration,
    topic_partitions: Vec<(String, u32)>,
}

impl View for GroupCoordinator {
    type V = CoordinatorView;

    closed spec fn view(&self) -> CoordinatorView {
        CoordinatorView {
            groups: self.groups@.map_values(|g: ConsumerGroup| g@),
            heartbeat_timeout: self.heartbeat_timeout,
            topic_partitions: counts_view(self.topic_partitions@),
        }
    }
}

/// The position of the entry for topic `t`, if there is one.
pub open spec fn count_index(tp: Seq<(Seq<char>, u32)>, t: Seq<char>) -> Option<int> {
    if exists|i: int| 0 <= i < tp.len() && (#[trigger] tp[i]).0 == t {
        Some(choose|i: int| 0 <= i < tp.len() && (#[trigger] tp[i]).0 == t)
    } else {
        None
    }
}

/// Whether no two entries name the same topic.
pub open spec fn unique_topics(tp: Seq<(Seq<char>, u32)>) -> bool {
    forall|i: int, j: int| 0 <= i < j < tp.len() ==> (#[trigger] tp[i]).0 != (#[trigger] tp[j]).0
}

/// The partition count of topic `t`, in a table with one entry per topic.
pub open spec fn partition_count_at(tp: Seq<(Seq<char>, u32)>, t: Seq<char>) -> Option<u32> {
    match count_index(tp, t) {
        Some(i) => Some(tp[i].1),
        None => None,
    }
}

/// The unique position of a topic's entry, once found.
pub proof fn lemma_count_index(tp: Seq<(Seq<char>, u32)>, i: int)
    requires
        unique_topics(tp),
        0 <= i < tp.len(),
    ensures
        count_index(tp, tp[i].0) == Some(i),
{
    let t = tp[i].0;
    assert(tp[i].0 == t);
    let c = choose|k: int| 0 <= k < tp.len() && (#[trigger] tp[k]).0 == t;
    if c < i {
        assert(tp[c].0 != tp[i].0);
    } else if c > i {
        assert(tp[i].0 != tp[c].0);
    }
}

/// The partition counts once topic `t` has `c` partitions.
pub open spec fn counts_after(tp: Seq<(Seq<char>, u32)>, t: Seq<char>, c: u32) -> Seq<(Seq<char>, u32)> {
    match count_index(tp, t) {
        Some(i) => tp.update(i, (t, c)),
        None => tp.push((t, c)),
    }
}

/// The outcome of a member leaving: an unknown group or member is refused;
/// otherwise the member leaves, and the group is rebalanced, or removed
/// when it is left empty.
pub open spec fn leave_outcome(
    gs: Seq<GroupView>,
    group_id: Seq<char>,
    member_id: Seq<char>,
    tp: Seq<(Seq<char>, u32)>,
    after: Seq<GroupView>,
    r: Result<()>,
) -> bool {
    match group_index(gs, group_id) {
        None => after == gs && (r matches Err(GaffaError::GroupNotFound(s)) && s@ == group_id),
        Some(i) => match member_index(gs[i].members, member_id) {
            None => after == gs && (r matches Err(GaffaError::ConsumerNotFound(s)) && s@ == member_id),
            Some(j) => {
                let g = GroupView { members: gs[i].members.remove(j), ..gs[i] };
                &&& r is Ok
                &&& after == if g.members.len() > 0 {
                    gs.update(i, rebalanced(g, tp))
                } else {
                    gs.remove(i)
                }
            },
        },
    }
}

/// The outcome of a heartbeat in group `group_id` at `now`: an unknown
/// group is refused; otherwise as the group's heartbeat, with `false` (no
/// rejoin needed) on success.
pub open spec fn coordinator_heartbeat(
    gs: Seq<GroupView>,
    group_id: Seq<char>,
    member_id: Seq<char>,
    now: u64,
    after: Seq<GroupView>,
    r: Result<bool>,
) -> bool {
    match group_index(gs, group_id) {
        None => after == gs && (r matches Err(GaffaError::GroupNotFound(s)) && s@ == group_id),
        Some(i) => {
            let res: Result<()> = match r {
                Ok(_) => Ok(()),
                Err(e) => Err(e),
            };
            &&& r matches Ok(b) ==> !b
            &&& after.len() == gs.len()
            &&& heartbeat_outcome(gs[i], member_id, now, after[i], res)
            &&& after == gs.update(i, after[i])
        },
    }
}

/// Rebalancing keeps the members and their ids.
proof fn lemma_rebalanced_ids(g: GroupView, tp: Seq<(Seq<char>, u32)>)
    ensures
        rebalanced(g, tp).members.len() == g.members.len(),
        forall|j: int| 0 <= j < g.members.len() ==> (#[trigger] rebalanced(g, tp).members[j]).member_id == g.members[j].member_id,
        unique_ids(g.members) ==> unique_ids(rebalanced(g, tp).members),
        rebalanced(g, tp).group_id == g.group_id,
{
}

/// Adding a member keeps the ids distinct.
proof fn lemma_with_member_ids(g: GroupView, m: MemberView)
    requires
        unique_ids(g.members),
    ensures
        unique_ids(with_member(g, m).members),
        member_index(with_member(g, m).members, m.member_id) is Some,
{
    match member_index(g.members, m.member_id) {
        Some(i) => {
            let ms = g.members.update(i, m);
            assert forall|a: int, b: int| 0 <= a < b < ms.len() implies (#[trigger] ms[a]).member_id != (#[trigger] ms[b]).member_id by {
                if a == i {
                    assert(g.members[b].member_id != g.members[i].member_id);
                } else if b == i {
                    assert(g.members[a].member_id != g.members[i].member_id);
                }
            }
            assert(ms[i].member_id == m.member_id);
        },
        None => {
            let ms = g.members.push(m);
            assert forall|a: int, b: int| 0 <= a < b < ms.len() implies (#[trigger] ms[a]).member_id != (#[trigger] ms[b]).member_id by {
                if b == g.members.len() {
                    assert(ms[a] == g.members[a]);
                }
            }
            assert(ms[g.members.len() as int].member_id == m.member_id);
        },
    }
}

/// The members alive at `now` are members of `ms`, no more of them than
/// `ms` has, and all of `ms` when none is dead.
proof fn lemma_alive_members(ms: Seq<MemberView>, timeout: Duration, now: u64)
    ensures
        alive_members(ms, timeout, now).len() <= ms.len(),
        alive_members(ms, timeout, now).len() == ms.len() ==> alive_members(ms, timeout, now) == ms,
        forall|x: MemberView| alive_members(ms, timeout, now).contains(x) ==> ms.contains(x),
        unique_ids(ms) ==> unique_ids(alive_members(ms, timeout, now)),
    decreases ms.len(),
{
    if ms.len() > 0 {
        let init = ms.drop_last();
        lemma_alive_members(init, timeout, now);
        let rest = alive_members(init, timeout, now);
        assert forall|x: MemberView| alive_members(ms, timeout, now).contains(x) implies ms.contains(x) by {
            let out = alive_members(ms, timeout, now);
            let k = choose|k: int| 0 <= k < out.len() && out[k] == x;
            if k < rest.len() {
                assert(rest[k] == x);
                assert(rest.contains(x));
                assert(init.contains(x));
                let k2 = choose|k2: int| 0 <= k2 < init.len() && init[k2] == x;
                assert(ms[k2] == x);
            } else {
                assert(!dead_at(ms.last().last_heartbeat, timeout, now));
                assert(out == rest.push(ms.last()));
                assert(ms[ms.len() - 1] == x);
            }
        }
        if alive_members(ms, timeout, now).len() == ms.len() {
            assert(!dead_at(ms.last().last_heartbeat, timeout, now));
            assert(rest == init);
            assert(alive_members(ms, timeout, now) =~= ms);
        }
        if unique_ids(ms) {
            assert(unique_ids(init)) by {
                assert forall|a: int, b: int| 0 <= a < b < init.len() implies (#[trigger] init[a]).member_id != (#[trigger] init[b]).member_id by {
                    assert(ms[a].member_id != ms[b].member_id);
                }
            }
            let out = alive_members(ms, timeout, now);
            if !dead_at(ms.last().last_heartbeat, timeout, now) {
                assert forall|a: int, b: int| 0 <= a < b < out.len() implies (#[trigger] out[a]).member_id != (#[trigger] out[b]).member_id by {
                    assert(out == rest.push(ms.last()));
                    if b == out.len() - 1 {
                        assert(out[a] == rest[a]);
                        assert(rest.contains(rest[a]));
                        assert(init.contains(rest[a]));
                        let k = choose|k: int| 0 <= k < init.len() && init[k] == rest[a];
                        assert(ms[k] == init[k]);
                        assert(ms[k].member_id != ms[ms.len() - 1].member_id);
                    } else {
                        assert(rest[a].member_id != rest[b].member_id);
                    }
                }
            }
        }
    }
}

/// Sweeping the groups keeps their ids distinct and the member ids within
/// each group distinct.
proof fn lemma_sweep_wf(gs: Seq<GroupView>, timeout: Duration, now: u64, tp: Seq<(Seq<char>, u32)>)
    requires
        groups_wf(gs),
    ensures
        groups_wf(sweep_groups(gs, timeout, now, tp)),
        forall|a: int| 0 <= a < sweep_groups(gs, timeout, now, tp).len() ==> exists|b: int|
            0 <= b < gs.len() && (#[trigger] gs[b]).group_id == (#[trigger] sweep_groups(gs, timeout, now, tp)[a]).group_id,
    decreases gs.len(),
{
    if gs.len() > 0 {
        let init = gs.drop_last();
        assert(groups_wf(init)) by {
            assert forall|a: int, b: int| 0 <= a < b < init.len() implies (#[trigger] init[a]).group_id != (#[trigger] init[b]).group_id by {
                assert(gs[a].group_id != gs[b].group_id);
            }
            assert forall|a: int| 0 <= a < init.len() implies unique_ids((#[trigger] init[a]).members) by {
                assert(init[a] == gs[a]);
            }
        }
        lemma_sweep_wf(init, timeout, now, tp);
        let rest = sweep_groups(init, timeout, now, tp);
        let last = gs.last();
        let g = swept(last, timeout, now, tp);
        let out = sweep_groups(gs, timeout, now, tp);
        lemma_alive_members(last.members, timeout, now);
        assert(unique_ids(last.members)) by {
            assert(gs[gs.len() - 1] == last);
        }
        assert(g.group_id == last.group_id);
        assert(unique_ids(g.members)) by {
            let alive = alive_members(last.members, timeout, now);
            if alive.len() != last.members.len() && alive.len() > 0 {
                lemma_rebalanced_ids(GroupView { members: alive, ..last }, tp);
            }
        }
        assert forall|a: int| 0 <= a < out.len() implies exists|b: int|
            0 <= b < gs.len() && (#[trigger] gs[b]).group_id == (#[trigger] out[a]).group_id by {
            if a < rest.len() {
                assert(out[a] == rest[a]);
                let b = choose|b: int| 0 <= b < init.len() && (#[trigger] init[b]).group_id == rest[a].group_id;
                assert(gs[b] == init[b]);
            } else {
                assert(gs[gs.len() - 1].group_id == out[a].group_id);
            }
        }
        if g.members.len() > 0 {
            assert forall|a: int, b: int| 0 <= a < b < out.len() implies (#[trigger] out[a]).group_id != (#[trigger] out[b]).group_id by {
                if b == out.len() - 1 {
                    assert(out[a] == rest[a]);
                    let k = choose|k: int| 0 <= k < init.len() && (#[trigger] init[k]).group_id == rest[a].group_id;
                    assert(gs[k].group_id != gs[gs.len() - 1].group_id);
                } else {
                    assert(rest[a].group_id != rest[b].group_id);
                }
            }
            assert forall|a: int| 0 <= a < out.len() implies unique_ids((#[trigger] out[a]).members) by {
                if a < rest.len() {
                    assert(out[a] == rest[a]);
                }
            }
        }
    }
}

/// A copy of a list of assignments.
pub fn copy_assignments(v: &Vec<PartitionAssignment>) -> (r: Vec<PartitionAssignment>)
    ensures
        assignment_views(r@) == assignment_views(v@),
{
    let mut r: Vec<PartitionAssignment> = Vec::new();
    let mut i: usize = 0;
    while i < v.len()
        invariant
            i <= v.len(),
            assignment_views(r@) =~= assignment_views(v@).subrange(0, i as int),
        decreases v.len() - i,
    {
        let ghost prev = r@;
        let a = copy_assignment(&v[i]);
        r.push(a);
        proof {
            assert(r@ =~= prev.push(a));
            assert(assignment_views(r@) =~= assignment_views(prev).push(assignment_views(v@)[i as int]));
        }
        i = i + 1;
    }
    r
}

/// The group's text joined by a dash to `suffix`.
fn dashed(group_id: &String, suffix: &String) -> (r: String)
    ensures
        r@ == generated_member_id(group_id@, suffix@),
{
    let mut r = group_id.clone();
    r.append("-");
    r.append(suffix.as_str());
    proof {
        reveal_strlit("-");
    }
    r
}

impl GroupCoordinator {
    /// Well-formedness: distinct group ids, distinct member ids within each
    /// group, distinct topics among the partition counts.
    pub closed spec fn wf(&self) -> bool {
        &&& groups_wf(self@.groups)
        &&& unique_topics(self@.topic_partitions)
    }

    /// A coordinator with no groups, under which a member is dead after
    /// `heartbeat_timeout` without a heartbeat.
    pub fn new(heartbeat_timeout: Duration) -> (r: Self)
        ensures
            r.wf(),
            r@.groups == Seq::<GroupView>::empty(),
            r@.heartbeat_timeout == heartbeat_timeout,
            r@.topic_partitions == Seq::<(Seq<char>, u32)>::empty(),
    {
        let r = GroupCoordinator { groups: Vec::new(), heartbeat_timeout, topic_partitions: Vec::new() };
        assert(r@.groups =~= Seq::<GroupView>::empty());
        assert(r@.topic_partitions =~= Seq::<(Seq<char>, u32)>::empty());
        r
    }

    /// The position of group `group_id`.
    fn find_group(&self, group_id: &str) -> (r: Option<usize>)
        ensures
            match r {
                Some(i) => i < self.groups.len() && self@.groups[i as int].group_id == group_id@,
                None => forall|i: int| 0 <= i < self.groups.len() ==> (#[trigger] self@.groups[i]).group_id != group_id@,
            },
            self@.groups.len() == self.groups.len(),
    {
        let mut i: usize = 0;
        while i < self.groups.len()
            invariant
                i <= self.groups.len(),
                self@.groups.len() == self.groups.len(),
                forall|j: int| 0 <= j < i ==> (#[trigger] self@.groups[j]).group_id != group_id@,
            decreases self.groups.len() - i,
        {
            if same_text(group_id, &self.groups[i].group_id) {
                return Some(i);
            }
            i = i + 1;
        }
        None
    }

    /// Sets the partition count of a topic.
    pub fn update_topic_partitions(&mut self, topic: String, partition_count: u32)
        requires
            old(self).wf(),
        ensures
            final(self).wf(),
            final(self)@ == (CoordinatorView {
                topic_partitions: counts_after(old(self)@.topic_partitions, topic@, partition_count),
                ..old(self)@
            }),
    {
        let ghost tp = self@.topic_partitions;
        let mut i: usize = 0;
        while i < self.topic_partitions.len()
            invariant
                i <= self.topic_partitions.len(),
                self@ == old(self)@,
                old(self).wf(),
                tp == self@.topic_partitions,
                tp.len() == self.topic_partitions.len(),
                unique_topics(tp),
                forall|j: int| 0 <= j < i ==> (#[trigger] tp[j]).0 != topic@,
            decreases self.topic_partitions.len() - i,
        {
            if same_text(topic.as_str(), &self.topic_partitions[i].0) {
                proof {
                    assert(tp[i as int].0 == topic@);
                    let c = choose|k: int| 0 <= k < tp.len() && (#[trigger] tp[k]).0 == topic@;
                    if c != i {
                        if c < i {
                            assert(tp[c].0 != tp[i as int].0);
                        } else {
                            assert(tp[i as int].0 != tp[c].0);
                        }
                    }
                    assert(count_index(tp, topic@) == Some(i as int));
                }
                self.topic_partitions.set(i, (topic, partition_count));
                proof {
                    assert(counts_view(self.topic_partitions@) =~= tp.update(i as int, (topic@, partition_count)));
                    let t2 = counts_view(self.topic_partitions@);
                    assert forall|a: int, b: int| 0 <= a < b < t2.len() implies (#[trigger] t2[a]).0 != (#[trigger] t2[b]).0 by {
                        assert(tp[a].0 != tp[b].0);
                        assert(t2[a].0 == tp[a].0);
                        assert(t2[b].0 == tp[b].0);
                    }
                    assert(self@.groups == old(self)@.groups);
                }
                return;
            }
            i = i + 1;
        }
        self.topic_partitions.push((topic, partition_count));
        proof {
            assert(count_index(tp, topic@) is None);
            assert(counts_view(self.topic_partitions@) =~= tp.push((topic@, partition_count)));
        }
    }

    /// Member `member_id` joins group `group_id` at `now`, interested in
    /// `topics`; the group (created if new) is rebalanced. Returns the
    /// member id and the member's assignments.
    pub fn join_group_with(&mut self, group_id: String, member_id: String, topics: Vec<String>, now: u64) -> (r: (
        String,
        Vec<PartitionAssignment>,
    ))
        requires
            old(self).wf(),
            generation_of(old(self)@.groups, group_id@) < u32::MAX,
        ensures
            final(self).wf(),
            final(self)@ == joined_at(old(self)@, group_id@, member_id@, texts(topics@), now),
            r.0@ == member_id@,
            assignment_views(r.1@) == assignments_in(final(self)@.groups, group_id@, member_id@),
    {
        let ghost gs = self@.groups;
        let ghost mv = MemberView { member_id: member_id@, topics: texts(topics@), last_heartbeat: now, assignments: Seq::empty() };
        let ghost tp = self@.topic_partitions;
        let idx = match self.find_group(group_id.as_str()) {
            Some(i) => {
                proof {
                    lemma_group_index(gs, i as int);
                }
                i
            },
            None => {
                proof {
                    assert(group_index(gs, group_id@) is None);
                }
                self.groups.push(ConsumerGroup::new(group_id.clone()));
                self.groups.len() - 1
            },
        };
        let ghost mid = self@.groups;
        let mut g = self.groups.remove(idx);
        let member = GroupMember { member_id: member_id.clone(), topics, last_heartbeat: now, assignments: Vec::new() };
        proof {
            assert(member@.assignments =~= Seq::<(Seq<char>, u32)>::empty());
            assert(member@ == mv);
            assert(g@ == mid[idx as int]);
            if idx < gs.len() {
                assert(unique_ids(gs[idx as int].members));
            } else {
                assert(g@.members =~= Seq::<MemberView>::empty());
            }
        }
        g.add_member(member);
        proof {
            lemma_with_member_ids(mid[idx as int], mv);
        }
        g.rebalance(&self.topic_partitions);
        let ghost done = g@;
        proof {
            lemma_rebalanced_ids(with_member(mid[idx as int], mv), tp);
        }
        let assigned = match g.find(member_id.as_str()) {
            Some(j) => {
                proof {
                    lemma_member_index(g@.members, j as int);
                }
                copy_assignments(&g.members[j].assignments)
            },
            None => {
                proof {
                    assert(member_index(g@.members, member_id@) is None);
                }
                Vec::new()
            },
        };
        self.groups.insert(idx, g);
        proof {
            let after = after_join(gs, group_id@, mv, tp);
            assert(self@.groups =~= after);
            assert(self@ == joined_at(old(self)@, group_id@, member_id@, mv.topics, now));
            assert(after[idx as int] == done);
            assert forall|a: int, b: int| 0 <= a < b < after.len() implies (#[trigger] after[a]).group_id != (#[trigger] after[b]).group_id by {
                if a != idx && b != idx {
                    assert(gs[a].group_id != gs[b].group_id);
                } else if a == idx && idx < gs.len() {
                    assert(gs[a].group_id != gs[b].group_id);
                } else if b == idx && idx < gs.len() {
                    assert(gs[a].group_id != gs[b].group_id);
                } else {
                    assert(gs[a].group_id != group_id@);
                }
            }
            assert forall|a: int| 0 <= a < after.len() implies unique_ids((#[trigger] after[a]).members) by {
                if a != idx {
                    assert(after[a] == gs[a]);
                }
            }
            lemma_group_index(after, idx as int);
            assert(assignment_views(assigned@) =~= assignments_in(after, group_id@, member_id@));
        }
        (member_id, assigned)
    }

    /// A member joins group `group_id`, interested in `topics`, with its
    /// own id or, without one, an id made of the group id, a dash and
    /// eight random hexadecimal digits; its heartbeat time is now, by the
    /// clock. Returns the member id and the member's assignments.
    pub fn join_group(&mut self, group_id: String, member_id: Option<String>, topics: Vec<String>) -> (r: Result<(
        String,
        Vec<PartitionAssignment>,
    )>)
        requires
            old(self).wf(),
            generation_of(old(self)@.groups, group_id@) < u32::MAX,
        ensures
            final(self).wf(),
            r matches Ok((id, assigned)) && {
                &&& member_id matches Some(m) ==> id@ == m@
                &&& member_id is None ==> exists|suffix: Seq<char>| suffix.len() == 8 && id@ == generated_member_id(group_id@, suffix)
                &&& exists|now: u64| final(self)@ == #[trigger] joined_at(old(self)@, group_id@, id@, texts(topics@), now)
                &&& assignment_views(assigned@) == assignments_in(final(self)@.groups, group_id@, id@)
            },
    {
        let ghost given = member_id;
        let ghost mut sfx: Seq<char> = Seq::empty();
        let id = match member_id {
            Some(m) => m,
            None => {
                let suffix = random_member_suffix();
                proof {
                    sfx = suffix@;
                }
                dashed(&group_id, &suffix)
            },
        };
        proof {
            if given is None {
                assert(sfx.len() == 8 && id@ == generated_member_id(group_id@, sfx));
            }
        }
        let ghost gid = group_id@;
        let ghost tv = texts(topics@);
        let now = now_millis();
        let (mid, assigned) = self.join_group_with(group_id, id, topics, now);
        proof {
            assert(self@ == joined_at(old(self)@, gid, mid@, tv, now));
        }
        Ok((mid, assigned))
    }

    /// Member `member_id` leaves group `group_id`; the group is rebalanced,
    /// or removed when left empty. An unknown group or member is refused.
    pub fn leave_group(&mut self, group_id: &str, member_id: &str) -> (r: Result<()>)
        requires
            old(self).wf(),
            generation_of(old(self)@.groups, group_id@) < u32::MAX,
        ensures
            final(self).wf(),
            final(self)@.heartbeat_timeout == old(self)@.heartbeat_timeout,
            final(self)@.topic_partitions == old(self)@.topic_partitions,
            leave_outcome(old(self)@.groups, group_id@, member_id@, old(self)@.topic_partitions, final(self)@.groups, r),
    {
        let ghost gs = self@.groups;
        let ghost tp = self@.topic_partitions;
        match self.find_group(group_id) {
            None => {
                proof {
                    assert(group_index(gs, group_id@) is None);
                }
                Err(GaffaError::GroupNotFound(group_id.to_owned()))
            },
            Some(i) => {
                proof {
                    lemma_group_index(gs, i as int);
                }
                let mut g = self.groups.remove(i);
                proof {
                    assert(g@ == gs[i as int]);
                    assert(unique_ids(gs[i as int].members));
                }
                match g.remove_member(member_id) {
                    None => {
                        self.groups.insert(i, g);
                        proof {
                            assert(self@.groups =~= gs);
                        }
                        Err(GaffaError::ConsumerNotFound(member_id.to_owned()))
                    },
                    Some(_) => {
                        if g.members.len() > 0 {
                            g.rebalance(&self.topic_partitions);
                            proof {
                                lemma_rebalanced_ids(GroupView { members: gs[i as int].members.remove(member_index(gs[i as int].members, member_id@)->0), ..gs[i as int] }, tp);
                            }
                            self.groups.insert(i, g);
                            proof {
                                let after = self@.groups;
                                assert(after =~= gs.update(i as int, after[i as int]));
                                assert forall|a: int, b: int| 0 <= a < b < after.len() implies (#[trigger] after[a]).group_id != (#[trigger] after[b]).group_id by {
                                    assert(gs[a].group_id != gs[b].group_id);
                                }
                                assert forall|a: int| 0 <= a < after.len() implies unique_ids((#[trigger] after[a]).members) by {
                                    if a != i {
                                        assert(after[a] == gs[a]);
                                    }
                                }
                            }
                        } else {
                            proof {
                                let after = self@.groups;
                                assert(after =~= gs.remove(i as int));
                                assert forall|a: int, b: int| 0 <= a < b < after.len() implies (#[trigger] after[a]).group_id != (#[trigger] after[b]).group_id by {
                                    let a2 = if a < i { a } else { a + 1 };
                                    let b2 = if b < i { b } else { b + 1 };
                                    assert(after[a] == gs[a2]);
                                    assert(after[b] == gs[b2]);
                                    assert(gs[a2].group_id != gs[b2].group_id);
                                }
                                assert forall|a: int| 0 <= a < after.len() implies unique_ids((#[trigger] after[a]).members) by {
                                    let a2 = if a < i { a } else { a + 1 };
                                    assert(after[a] == gs[a2]);
                                }
                            }
                        }
                        Ok(())
                    },
                }
            },
        }
    }

    /// A heartbeat from member `member_id` of group `group_id`, now by the
    /// clock; `false` means no rejoin is needed.
    pub fn heartbeat(&mut self, group_id: &str, member_id: &str) -> (r: Result<bool>)
        requires
            old(self).wf(),
        ensures
            final(self).wf(),
            final(self)@.heartbeat_timeout == old(self)@.heartbeat_timeout,
            final(self)@.topic_partitions == old(self)@.topic_partitions,
            exists|now: u64| coordinator_heartbeat(old(self)@.groups, group_id@, member_id@, now, final(self)@.groups, r),
    {
        let now = now_millis();
        self.heartbeat_at(group_id, member_id, now)
    }

    /// A heartbeat from member `member_id` of group `group_id` at `now`.
    pub fn heartbeat_at(&mut self, group_id: &str, member_id: &str, now: u64) -> (r: Result<bool>)
        requires
            old(self).wf(),
        ensures
            final(self).wf(),
            final(self)@.heartbeat_timeout == old(self)@.heartbeat_timeout,
            final(self)@.topic_partitions == old(self)@.topic_partitions,
            coordinator_heartbeat(old(self)@.groups, group_id@, member_id@, now, final(self)@.groups, r),
    {
        let ghost gs = self@.groups;
        match self.find_group(group_id) {
            None => {
                proof {
                    assert(group_index(gs, group_id@) is None);
                }
                Err(GaffaError::GroupNotFound(group_id.to_owned()))
            },
            Some(i) => {
                proof {
                    lemma_group_index(gs, i as int);
                    assert(unique_ids(gs[i as int].members));
                }
                let mut g = self.groups.remove(i);
                let res = g.heartbeat_at(member_id, now);
                let ghost ga = g@;
                self.groups.insert(i, g);
                proof {
                    let after = self@.groups;
                    assert(after =~= gs.update(i as int, ga));
                    assert(ga.group_id == gs[i as int].group_id);
                    assert(ga.members.len() == gs[i as int].members.len());
                    assert forall|a: int, b: int| 0 <= a < b < after.len() implies (#[trigger] after[a]).group_id != (#[trigger] after[b]).group_id by {
                        assert(gs[a].group_id != gs[b].group_id);
                    }
                    assert forall|a: int| 0 <= a < after.len() implies unique_ids((#[trigger] after[a]).members) by {
                        if a != i {
                            assert(after[a] == gs[a]);
                        } else {
                            let ms = after[a].members;
                            let os = gs[i as int].members;
                            assert forall|x: int, y: int| 0 <= x < y < ms.len() implies (#[trigger] ms[x]).member_id != (#[trigger] ms[y]).member_id by {
                                assert(os[x].member_id != os[y].member_id);
                            }
                        }
                    }
                }
                match res {
                    Ok(()) => Ok(false),
                    Err(e) => Err(e),
                }
            },
        }
    }

    /// Removes the members dead by the clock now, rebalancing each group
    /// that lost members and still has some, and removes the groups left
    /// empty.
    pub fn check_heartbeats(&mut self)
        requires
            old(self).wf(),
            forall|i: int| 0 <= i < old(self)@.groups.len() ==> (#[trigger] old(self)@.groups[i]).generation < u32::MAX,
        ensures
            final(self).wf(),
            exists|now: u64| final(self)@ == #[trigger] swept_at(old(self)@, now),
    {
        let now = now_millis();
        self.check_heartbeats_at(now);
    }

    /// Removes the members dead at `now`, rebalancing each group that lost
    /// members and still has some, and removes the groups left empty.
    pub fn check_heartbeats_at(&mut self, now: u64)
        requires
            old(self).wf(),
            forall|i: int| 0 <= i < old(self)@.groups.len() ==> (#[trigger] old(self)@.groups[i]).generation < u32::MAX,
        ensures
            final(self).wf(),
            final(self)@ == swept_at(old(self)@, now),
    {
        let ghost gs = self@.groups;
        let ghost tp = self@.topic_partitions;
        let mut pending: Vec<ConsumerGroup> = Vec::new();
        std::mem::swap(&mut pending, &mut self.groups);
        let ghost n = pending.len();
        let mut k: usize = 0;
        proof {
            assert(pending@.map_values(|g: ConsumerGroup| g@) =~= gs);
            assert(gs.subrange(0, 0) =~= Seq::<GroupView>::empty());
            assert(self@.groups =~= Seq::<GroupView>::empty());
        }
        while pending.len() > 0
            invariant
                k <= n,
                n == gs.len(),
                pending@.map_values(|g: ConsumerGroup| g@) =~= gs.subrange(k as int, n as int),
                self@.groups == sweep_groups(gs.subrange(0, k as int), self.heartbeat_timeout, now, tp),
                self@.topic_partitions == tp,
                self.heartbeat_timeout == old(self)@.heartbeat_timeout,
                groups_wf(gs),
                unique_topics(tp),
                forall|i: int| 0 <= i < gs.len() ==> (#[trigger] gs[i]).generation < u32::MAX,
            decreases pending.len(),
        {
            let ghost before = pending@;
            let mut g = pending.remove(0);
            proof {
                assert(before.map_values(|x: ConsumerGroup| x@) == gs.subrange(k as int, n as int));
                assert(before.map_values(|x: ConsumerGroup| x@).len() == before.len());
                assert(k < n);
                assert(before.map_values(|x: ConsumerGroup| x@)[0] == before[0]@);
                assert(gs.subrange(k as int, n as int)[0] == gs[k as int]);
                assert(g@ == gs[k as int]);
                assert(unique_ids(gs[k as int].members));
                assert(pending@.map_values(|x: ConsumerGroup| x@) =~= gs.subrange(k + 1, n as int)) by {
                    assert forall|q: int| 0 <= q < pending@.len() implies #[trigger] pending@[q]@ == gs[k + 1 + q] by {
                        assert(pending@[q] == before[q + 1]);
                        assert(before.map_values(|x: ConsumerGroup| x@)[q + 1] == before[q + 1]@);
                        assert(gs.subrange(k as int, n as int)[q + 1] == gs[k + 1 + q]);
                    }
                }
            }
            sweep_group(&mut g, self.heartbeat_timeout, now, &self.topic_partitions);
            let ghost prev = self.groups@;
            if g.members.len() > 0 {
                self.groups.push(g);
                proof {
                    assert(self.groups@ =~= prev.push(g));
                }
            }
            proof {
                let sub = gs.subrange(0, k + 1);
                assert(sub.drop_last() =~= gs.subrange(0, k as int));
                assert(sub.last() == gs[k as int]);
                assert(self@.groups =~= sweep_groups(sub, self.heartbeat_timeout, now, tp));
            }
            k = k + 1;
        }
        proof {
            assert(gs.subrange(0, n as int) =~= gs);
            lemma_sweep_wf(gs, self.heartbeat_timeout, now, tp);
        }
    }

    /// The ids of all groups, in creation order.
    pub fn get_groups(&self) -> (r: Vec<String>)
        ensures
            texts(r@) == self@.groups.map_values(|g: GroupView| g.group_id),
    {
        let mut r: Vec<String> = Vec::new();
        let mut i: usize = 0;
        while i < self.groups.len()
            invariant
                i <= self.groups.len(),
                texts(r@) =~= self@.groups.map_values(|g: GroupView| g.group_id).subrange(0, i as int),
            decreases self.groups.len() - i,
        {
            let ghost prev = r@;
            let id = self.groups[i].group_id.clone();
            r.push(id);
            proof {
                assert(r@ =~= prev.push(id));
                assert(texts(r@) =~= texts(prev).push(id@));
            }
            i = i + 1;
        }
        r
    }

    /// The generation of group `group_id`; 0 for an unknown group.
    pub fn generation(&self, group_id: &str) -> (r: u32)
        requires
            self.wf(),
        ensures
            r == generation_of(self@.groups, group_id@),
    {
        match self.find_group(group_id) {
            Some(i) => {
                proof {
                    lemma_group_index(self@.groups, i as int);
                }
                self.groups[i].generation
            },
            None => {
                proof {
                    assert(group_index(self@.groups, group_id@) is None);
                }
                0
            },
        }
    }

    /// The number of members of group `group_id`, if it exists.
    pub fn get_group_size(&self, group_id: &str) -> (r: Option<usize>)
        requires
            self.wf(),
        ensures
            r == (match group_index(self@.groups, group_id@) {
                Some(i) => Some(self@.groups[i].members.len() as usize),
                None => None,
            }),
    {
        match self.find_group(group_id) {
            Some(i) => {
                proof {
                    lemma_group_index(self@.groups, i as int);
                }
                Some(self.groups[i].members.len())
            },
            None => None,
        }
    }
}

} // verus!
