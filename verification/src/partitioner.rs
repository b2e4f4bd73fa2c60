//! Strategies that pick the partition of a message.
use vstd::prelude::*;

verus! {

/// The bytes of a message key.
pub open spec fn key_bytes(key: Option<&[u8]>) -> Option<Seq<u8>> {
    match key {
        Some(k) => Some(k@),
        None => None,
    }
}

/// Picks the partition a message goes to.
pub trait Partitioner: Sized {
    /// The partition this partitioner gives a message with `key` when the
    /// topic has `num_partitions` partitions, and the partitioner after.
    spec fn spec_partition(&self, key: Option<Seq<u8>>, num_partitions: u32) -> (u32, Self);

    /// The partition (`0..num_partitions`) for a message with the given
    /// key; 0 when the topic has no partitions.
    fn partition(&mut self, key: Option<&[u8]>, num_partitions: u32) -> (r: u32)
        ensures
            (r, *final(self)) == old(self).spec_partition(key_bytes(key), num_partitions),
            num_partitions == 0 ==> r == 0,
            num_partitions > 0 ==> r < num_partitions,
    ;
}

/// The partitions that `p` picks for messages with keys `keys`, in order,
/// for a topic of `n` partitions, and the partitioner after them.
pub open spec fn picks_from<P: Partitioner>(p: P, keys: Seq<Option<Seq<u8>>>, n: u32) -> (Seq<u32>, P)
    decreases keys.len(),
{
    if keys.len() == 0 {
        (Seq::empty(), p)
    } else {
        let before = picks_from(p, keys.drop_last(), n);
        let next = before.1.spec_partition(keys.last(), n);
        (before.0.push(next.0), next.1)
    }
}

/// Round-robin partitioner: cycles through the partitions in order,
/// whatever the keys.
#[derive(Debug)]
pub struct RoundRobinPartitioner {
    counter: u32,
}

impl RoundRobinPartitioner {
    /// The number of messages partitioned so far (modulo 2^32).
    pub closed spec fn spec_counter(&self) -> u32 {
        self.counter
    }

    /// A round-robin partitioner that starts at partition 0.
    pub fn new() -> (r: Self)
        ensures
            r.spec_counter() == 0,
    {
        RoundRobinPartitioner { counter: 0 }
    }

    /// A round-robin partitioner that starts at partition 0.
    pub fn default() -> (r: Self)
        ensures
            r.spec_counter() == 0,
    {
        Self::new()
    }
}

impl Partitioner for RoundRobinPartitioner {
    closed spec fn spec_partition(&self, key: Option<Seq<u8>>, num_partitions: u32) -> (u32, Self) {
        if num_partitions == 0 {
            (0, *self)
        } else {
            (
                self.counter % num_partitions,
                RoundRobinPartitioner {
                    counter: if self.counter == u32::MAX {
                        0
                    } else {
                        (self.counter + 1) as u32
                    },
                },
            )
        }
    }

    /// The counter modulo the partition count; the counter then moves on
    /// by one (wrapping). With no partitions, 0 and the counter stays.
    fn partition(&mut self, key: Option<&[u8]>, num_partitions: u32) -> (r: u32)
        ensures
            num_partitions == 0 ==> final(self).spec_counter() == old(self).spec_counter(),
            num_partitions > 0 ==> r == old(self).spec_counter() % num_partitions,
            num_partitions > 0 ==> final(self).spec_counter() == (if old(self).spec_counter()
                == u32::MAX {
                0
            } else {
                old(self).spec_counter() + 1
            }),
    {
        if num_partitions == 0 {
            return 0;
        }
        let count = self.counter;
        self.counter = self.counter.wrapping_add(1);
        count % num_partitions
    }
}

/// The partition round-robin picks `i` messages after counter value
/// `start`.
pub open spec fn rr_pick(start: int, i: int, n: int) -> int {
    (start + i) % n
}

/// Over any `n` consecutive counter values, round-robin picks every one of
/// `n` partitions exactly once.
pub proof fn lemma_round_robin_covers(start: int, n: int, p: int)
    requires
        0 <= start,
        0 < n,
        0 <= p < n,
    ensures
        exists|i: int| 0 <= i < n && #[trigger] rr_pick(start, i, n) == p,
        forall|i: int, j: int|
            0 <= i < j < n ==> #[trigger] rr_pick(start, i, n) != #[trigger] rr_pick(start, j, n),
{
    let r = start % n;
    let q = start / n;
    vstd::arithmetic::div_mod::lemma_fundamental_div_mod(start, n);
    vstd::arithmetic::div_mod::lemma_mod_pos_bound(start, n);
    vstd::arithmetic::mul::lemma_mul_is_commutative(n, q);
    let i = if p >= r { p - r } else { p - r + n };
    if p >= r {
        assert(start + i == q * n + p);
        vstd::arithmetic::div_mod::lemma_fundamental_div_mod_converse_mod(start + i, n, q, p);
    } else {
        assert(start + i == (q + 1) * n + p) by (nonlinear_arith)
            requires
                start == n * q + r,
                i == p - r + n,
        ;
        vstd::arithmetic::div_mod::lemma_fundamental_div_mod_converse_mod(start + i, n, q + 1, p);
    }
    assert(rr_pick(start, i, n) == p);
    assert forall|a: int, b: int| 0 <= a < b < n implies #[trigger] rr_pick(start, a, n) != #[trigger] rr_pick(start, b, n) by {
        if (start + a) % n == (start + b) % n {
            vstd::arithmetic::div_mod::lemma_fundamental_div_mod(start + a, n);
            vstd::arithmetic::div_mod::lemma_fundamental_div_mod(start + b, n);
            assert((b - a) == n * ((start + b) / n - (start + a) / n)) by (nonlinear_arith)
                requires
                    start + a == n * ((start + a) / n) + (start + a) % n,
                    start + b == n * ((start + b) / n) + (start + b) % n,
                    (start + a) % n == (start + b) % n,
            ;
            assert(false) by (nonlinear_arith)
                requires
                    0 < b - a < n,
                    b - a == n * ((start + b) / n - (start + a) / n),
            ;
        }
    }
}

/// What `DefaultHasher::new`, fed a byte slice through `Hash::hash` and
/// finished, gives for `bytes`.
pub uninterp spec fn slice_default_hash(bytes: Seq<u8>) -> u64;

/// Hashes a byte slice with std's `DefaultHasher` (created by `new`, whose
/// keys are fixed). Claimed: the hash is a function of the bytes.
#[verifier::external_body]
fn default_hash(bytes: &[u8]) -> (r: u64)
    ensures
        r == slice_default_hash(bytes@),
{
    let mut hasher = std::collections::hash_map::DefaultHasher::new();
    std::hash::Hash::hash(bytes, &mut hasher);
    std::hash::Hasher::finish(&hasher)
}

/// The partition that key hashing gives `key` among `n` partitions.
pub open spec fn key_partition(key: Option<Seq<u8>>, n: u32) -> u32 {
    if n == 0 {
        0
    } else {
        match key {
            Some(k) => if k.len() > 0 {
                ((slice_default_hash(k) as u32) % n) as u32
            } else {
                0
            },
            None => 0,
        }
    }
}

/// Key-hash partitioner: messages with the same key go to the same
/// partition; messages without a key (or with an empty one) go to 0.
#[derive(Debug)]
pub struct KeyHashPartitioner;

impl KeyHashPartitioner {
    pub fn new() -> (r: Self) {
        KeyHashPartitioner
    }

    pub fn default() -> (r: Self) {
        Self::new()
    }

    /// The low 32 bits of the default hash of `bytes`.
    pub fn hash_bytes(bytes: &[u8]) -> (r: u32)
        ensures
            r == slice_default_hash(bytes@) as u32,
    {
        default_hash(bytes) as u32
    }
}

impl Partitioner for KeyHashPartitioner {
    open spec fn spec_partition(&self, key: Option<Seq<u8>>, num_partitions: u32) -> (u32, Self) {
        (key_partition(key, num_partitions), *self)
    }

    fn partition(&mut self, key: Option<&[u8]>, num_partitions: u32) -> (r: u32)
        ensures
            r == key_partition(
                match key {
                    Some(k) => Some(k@),
                    None => None,
                },
                num_partitions,
            ),
    {
        if num_partitions == 0 {
            return 0;
        }
        match key {
            Some(k) => {
                if k.len() > 0 {
                    let hash = Self::hash_bytes(k);
                    hash % num_partitions
                } else {
                    0
                }
            },
            None => 0,
        }
    }
}

/// The key-hash partition is one of the topic's, and a message without a
/// key, or with an empty one, goes to partition 0. (It depends on the key
/// and the partition count alone, so the same key always goes to the same
/// partition.)
pub proof fn lemma_key_hash_stable(key: Seq<u8>, n: u32)
    ensures
        n > 0 ==> key_partition(Some(key), n) < n,
        key_partition(None, n) == 0,
        key_partition(Some(Seq::<u8>::empty()), n) == 0,
{
}

/// Sticky partitioner: stays on one partition for a batch of messages,
/// then moves to the next.
#[derive(Debug)]
pub struct StickyPartitioner {
    current_partition: u32,
    message_count: u32,
    batch_size: u32,
}

impl StickyPartitioner {
    #[verifier::type_invariant]
    spec fn sticky_inv(self) -> bool {
        self.batch_size > 0 && self.current_partition < u32::MAX
    }

    /// The partition currently in use.
    pub closed spec fn spec_current(&self) -> u32 {
        self.current_partition
    }

    /// The number of messages partitioned so far (modulo 2^32).
    pub closed spec fn spec_count(&self) -> u32 {
        self.message_count
    }

    /// The number of messages per partition before moving on.
    pub closed spec fn spec_batch_size(&self) -> u32 {
        self.batch_size
    }

    /// A sticky partitioner with the given batch size, starting at
    /// partition 0.
    pub fn new(batch_size: u32) -> (r: Self)
        requires
            batch_size > 0,
        ensures
            r.spec_current() == 0,
            r.spec_count() == 0,
            r.spec_batch_size() == batch_size,
    {
        StickyPartitioner { current_partition: 0, message_count: 0, batch_size }
    }

    /// A sticky partitioner with batches of 100 messages.
    pub fn with_default_batch() -> (r: Self)
        ensures
            r.spec_current() == 0,
            r.spec_count() == 0,
            r.spec_batch_size() == 100,
    {
        Self::new(100)
    }

    /// A sticky partitioner with batches of 100 messages.
    pub fn default() -> (r: Self)
        ensures
            r.spec_current() == 0,
            r.spec_count() == 0,
            r.spec_batch_size() == 100,
    {
        Self::with_default_batch()
    }
}

/// The partition the sticky partitioner uses after seeing message number
/// `count` while on partition `current`.
pub open spec fn sticky_next(current: u32, count: u32, batch_size: u32, n: u32) -> u32 {
    if count > 0 && count % batch_size == 0 {
        ((current + 1) % (n as int)) as u32
    } else {
        current
    }
}

impl Partitioner for StickyPartitioner {
    closed spec fn spec_partition(&self, key: Option<Seq<u8>>, num_partitions: u32) -> (u32, Self) {
        if num_partitions == 0 {
            (0, *self)
        } else {
            let p = (sticky_next(self.current_partition, self.message_count, self.batch_size, num_partitions)
                % num_partitions) as u32;
            (
                p,
                StickyPartitioner {
                    current_partition: p,
                    message_count: if self.message_count == u32::MAX {
                        0
                    } else {
                        (self.message_count + 1) as u32
                    },
                    batch_size: self.batch_size,
                },
            )
        }
    }

    /// Counts the message; every `batch_size` messages (after the first
    /// batch) moves on to the next partition; returns the partition in use,
    /// brought into range when the topic has fewer partitions than before.
    fn partition(&mut self, key: Option<&[u8]>, num_partitions: u32) -> (r: u32)
        ensures
            final(self).spec_batch_size() == old(self).spec_batch_size(),
            num_partitions == 0 ==> final(self).spec_current() == old(self).spec_current()
                && final(self).spec_count() == old(self).spec_count(),
            num_partitions > 0 ==> r == sticky_next(
                old(self).spec_current(),
                old(self).spec_count(),
                old(self).spec_batch_size(),
                num_partitions,
            ) % num_partitions,
            num_partitions > 0 ==> final(self).spec_current() == r,
            num_partitions > 0 ==> final(self).spec_count() == (if old(self).spec_count()
                == u32::MAX {
                0
            } else {
                old(self).spec_count() + 1
            }),
    {
        proof {
            use_type_invariant(&*self);
        }
        if num_partitions == 0 {
            return 0;
        }
        let count = self.message_count;
        self.message_count = self.message_count.wrapping_add(1);
        if count > 0 && count % self.batch_size == 0 {
            let current = self.current_partition;
            let next = (current + 1) % num_partitions;
            self.current_partition = next;
        }
        if self.current_partition >= num_partitions {
            self.current_partition = self.current_partition % num_partitions;
        } else {
            proof {
                vstd::arithmetic::div_mod::lemma_small_mod(self.current_partition as nat, num_partitions as nat);
            }
        }
        self.current_partition
    }
}

/// How message number `k > 0` moves the sticky partitioner: at a batch
/// boundary the batch number goes up by one, otherwise it stays.
proof fn lemma_sticky_step(k: int, b: int, n: int)
    requires
        0 < k,
        0 < b,
        0 < n,
    ensures
        k % b == 0 ==> (((k - 1) / b) % n + 1) % n == (k / b) % n,
        k % b != 0 ==> (k - 1) / b == k / b,
        0 <= ((k - 1) / b) % n < n,
        0 <= (k / b) % n < n,
{
    let q = k / b;
    let r = k % b;
    vstd::arithmetic::div_mod::lemma_fundamental_div_mod(k, b);
    vstd::arithmetic::div_mod::lemma_mod_pos_bound(k, b);
    vstd::arithmetic::mul::lemma_mul_is_commutative(b, q);
    vstd::arithmetic::div_mod::lemma_mod_bound((k - 1) / b, n);
    vstd::arithmetic::div_mod::lemma_mod_bound(k / b, n);
    if r == 0 {
        vstd::arithmetic::mul::lemma_mul_is_distributive_sub(b, q, 1);
        vstd::arithmetic::mul::lemma_mul_is_commutative(b, q - 1);
        vstd::arithmetic::div_mod::lemma_fundamental_div_mod_converse(k - 1, b, q - 1, b - 1);
        vstd::arithmetic::div_mod::lemma_add_mod_noop(q - 1, 1int, n);
        vstd::arithmetic::div_mod::lemma_mod_bound(((q - 1) % n + 1int), n);
        vstd::arithmetic::div_mod::lemma_mod_bound(((q - 1) % n + 1int % n), n);
        if n == 1 {
            vstd::arithmetic::div_mod::lemma_mod_bound(q, n);
        } else {
            vstd::arithmetic::div_mod::lemma_small_mod(1, n as nat);
        }
    } else {
        vstd::arithmetic::div_mod::lemma_fundamental_div_mod_converse(k - 1, b, q, r - 1);
    }
}

/// From a fresh sticky partitioner (partition 0, no message counted yet)
/// with a fixed partition count `n > 0`, message number `j` goes to
/// partition `(j / batch_size) % n`: each batch stays on one partition and
/// the batches cycle over the partitions in order. This holds for the first
/// 2^32 messages, before the 32-bit message counter wraps.
pub proof fn lemma_sticky_closed_form(p: StickyPartitioner, keys: Seq<Option<Seq<u8>>>, n: u32)
    requires
        p.spec_current() == 0,
        p.spec_count() == 0,
        p.spec_batch_size() > 0,
        n > 0,
        keys.len() <= u32::MAX + 1,
    ensures
        picks_from(p, keys, n).0.len() == keys.len(),
        forall|j: int|
            0 <= j < keys.len() ==> #[trigger] picks_from(p, keys, n).0[j] == (j / (
            p.spec_batch_size() as int)) % (n as int),
        picks_from(p, keys, n).1.spec_batch_size() == p.spec_batch_size(),
        keys.len() <= u32::MAX ==> picks_from(p, keys, n).1.spec_count() == keys.len(),
        keys.len() > 0 ==> picks_from(p, keys, n).1.spec_current() == ((keys.len() - 1) / (
        p.spec_batch_size() as int)) % (n as int),
        keys.len() == 0 ==> picks_from(p, keys, n).1.spec_current() == 0,
    decreases keys.len(),
{
    let b = p.spec_batch_size() as int;
    if keys.len() > 0 {
        let m = keys.len() - 1;
        let init = keys.drop_last();
        lemma_sticky_closed_form(p, init, n);
        let before = picks_from(p, init, n);
        let st = before.1;
        assert(st.message_count == m);
        assert(st.batch_size == b);
        let pick = picks_from(p, keys, n).0[m];
        if m == 0 {
            assert(st.current_partition == 0);
            vstd::arithmetic::div_mod::lemma_small_mod(0, n as nat);
            assert(pick == 0);
            assert(0int / b == 0);
        } else {
            lemma_sticky_step(m, b, n as int);
            let cur = ((m - 1) / b) % (n as int);
            assert(st.current_partition == cur);
            vstd::arithmetic::div_mod::lemma_small_mod(cur as nat, n as nat);
            vstd::arithmetic::div_mod::lemma_small_mod(((m / b) % (n as int)) as nat, n as nat);
            if m % b == 0 {
                assert(sticky_next(st.current_partition, st.message_count, st.batch_size, n) == (m / b) % (
                n as int));
            } else {
                assert(sticky_next(st.current_partition, st.message_count, st.batch_size, n) == cur);
            }
            assert(pick == (m / b) % (n as int));
        }
        assert forall|j: int| 0 <= j < keys.len() implies #[trigger] picks_from(p, keys, n).0[j] == (j
            / b) % (n as int) by {
            if j < m {
                assert(picks_from(p, keys, n).0[j] == before.0[j]);
            }
        }
    }
}

} // verus!
