//! Retention policies: which log segments may be deleted.
use vstd::prelude::*;
use crate::time::Duration;
use crate::clock::now_millis;

verus! {

/// Retention policy for log segments.
#[derive(Debug, Clone, Copy, PartialEq, Eq, Structural)]
pub enum RetentionPolicy {
    /// Delete segments older than the specified duration
    Time(Duration),
    /// Delete oldest segments while the total size exceeds the limit
    Size(u64),
    /// Apply both time and size retention (delete if either condition is met)
    Both { max_age: Duration, max_size: u64 },
    /// Keep all data forever
    Unlimited,
}

/// Configuration of retention.
#[derive(Debug, Clone, Copy)]
pub struct RetentionConfig {
    /// Retention policy to apply
    pub policy: RetentionPolicy,
    /// Minimum number of segments to always keep
    pub min_segments: usize,
}

/// Seven days, in seconds: the default retention time.
pub const DEFAULT_RETENTION_SECS: u64 = 604800;

/// Whether the policy asks to delete a segment of the given age while the
/// segments from it on hold `total_size` bytes.
pub open spec fn policy_deletes(policy: RetentionPolicy, segment_age: Duration, total_size: u64) -> bool {
    match policy {
        RetentionPolicy::Unlimited => false,
        RetentionPolicy::Time(max_age) => segment_age.total_nanos() > max_age.total_nanos(),
        RetentionPolicy::Size(max_size) => total_size > max_size,
        RetentionPolicy::Both { max_age, max_size } => segment_age.total_nanos()
            > max_age.total_nanos() || total_size > max_size,
    }
}

/// Whether a segment is to be deleted: never while `segment_count` does
/// not exceed the minimum, otherwise as the policy says.
pub open spec fn deletes(cfg: RetentionConfig, segment_age: Duration, total_size: u64, segment_count: usize) -> bool {
    segment_count > cfg.min_segments && policy_deletes(cfg.policy, segment_age, total_size)
}

impl RetentionConfig {
    /// The default: keep data for seven days, and at least one segment.
    pub fn default() -> (r: Self)
        ensures
            r.policy matches RetentionPolicy::Time(d) && d.spec_secs() == DEFAULT_RETENTION_SECS
                && d.spec_subsec_nanos() == 0,
            r.min_segments == 1,
    {
        RetentionConfig {
            policy: RetentionPolicy::Time(Duration::from_secs(DEFAULT_RETENTION_SECS)),
            min_segments: 1,
        }
    }

    /// Time-based retention.
    pub fn time(max_age: Duration) -> (r: Self)
        ensures
            r.policy == RetentionPolicy::Time(max_age),
            r.min_segments == 1,
    {
        RetentionConfig { policy: RetentionPolicy::Time(max_age), min_segments: 1 }
    }

    /// Size-based retention.
    pub fn size(max_size: u64) -> (r: Self)
        ensures
            r.policy == RetentionPolicy::Size(max_size),
            r.min_segments == 1,
    {
        RetentionConfig { policy: RetentionPolicy::Size(max_size), min_segments: 1 }
    }

    /// Combined time and size retention.
    pub fn both(max_age: Duration, max_size: u64) -> (r: Self)
        ensures
            r.policy == (RetentionPolicy::Both { max_age, max_size }),
            r.min_segments == 1,
    {
        RetentionConfig { policy: RetentionPolicy::Both { max_age, max_size }, min_segments: 1 }
    }

    /// Keep all data.
    pub fn unlimited() -> (r: Self)
        ensures
            r.policy == RetentionPolicy::Unlimited,
            r.min_segments == 1,
    {
        RetentionConfig { policy: RetentionPolicy::Unlimited, min_segments: 1 }
    }

    /// The same configuration with another minimum number of segments.
    pub fn with_min_segments(self, min: usize) -> (r: Self)
        ensures
            r.policy == self.policy,
            r.min_segments == min,
    {
        RetentionConfig { min_segments: min, ..self }
    }

    /// Whether a segment should be deleted.
    pub fn should_delete_segment(&self, segment_age: Duration, total_size: u64, segment_count: usize) -> (r: bool)
        ensures
            r == deletes(*self, segment_age, total_size, segment_count),
    {
        if segment_count <= self.min_segments {
            return false;
        }
        match &self.policy {
            RetentionPolicy::Unlimited => false,
            RetentionPolicy::Time(max_age) => segment_age.is_longer_than(max_age),
            RetentionPolicy::Size(max_size) => total_size > *max_size,
            RetentionPolicy::Both { max_age, max_size } => {
                segment_age.is_longer_than(max_age) || total_size > *max_size
            },
        }
    }
}

/// What retention knows of a segment.
#[derive(Debug, Clone, Copy)]
pub struct SegmentMetadata {
    /// Base offset of the segment
    pub base_offset: u64,
    /// Size in bytes
    pub size: u64,
    /// Creation time, in seconds since the Unix epoch
    pub created_at: u64,
}

/// The age of a segment at time `now` (seconds since the epoch); zero for
/// a segment from the future.
pub open spec fn age_secs_at(s: SegmentMetadata, now: u64) -> u64 {
    if now >= s.created_at {
        (now - s.created_at) as u64
    } else {
        0
    }
}

impl SegmentMetadata {
    /// The age of the segment at time `now`, in seconds since the epoch.
    pub fn age_at(&self, now: u64) -> (r: Duration)
        ensures
            r.spec_secs() == age_secs_at(*self, now),
            r.spec_subsec_nanos() == 0,
    {
        Duration::from_secs(now.saturating_sub(self.created_at))
    }

    /// The age of the segment, by the wall clock.
    pub fn age(&self) -> (r: Duration)
        ensures
            exists|now: u64| r.spec_secs() == age_secs_at(*self, now),
            r.spec_subsec_nanos() == 0,
    {
        let now = now_millis() / 1000;
        self.age_at(now)
    }
}

/// The sum of the sizes of the segments.
pub open spec fn total_size(segs: Seq<SegmentMetadata>) -> int
    decreases segs.len(),
{
    if segs.len() == 0 {
        0
    } else {
        total_size(segs.drop_last()) + segs.last().size
    }
}

/// The age, as a duration, that `segments_to_delete_at` gives a segment.
pub open spec fn age_span(s: SegmentMetadata, now: u64, d: Duration) -> bool {
    d.spec_secs() == age_secs_at(s, now) && d.spec_subsec_nanos() == 0
}

/// The number of leading segments (oldest first) that retention deletes
/// at time `now`, scanning from segment `i` while the segments from `i` on
/// hold `remaining` bytes.
pub open spec fn deleted_count_from(cfg: RetentionConfig, segs: Seq<SegmentMetadata>, now: u64, i: int, remaining: int) -> int
    decreases segs.len() - i,
{
    if i < 0 || i >= segs.len() {
        0
    } else if segs.len() - i > cfg.min_segments && policy_deletes_at(
        cfg.policy,
        segs[i],
        now,
        remaining,
    ) {
        1 + deleted_count_from(cfg, segs, now, i + 1, remaining - segs[i].size)
    } else {
        0
    }
}

/// Whether the policy deletes segment `s` at time `now` while `remaining`
/// bytes are held from it on.
pub open spec fn policy_deletes_at(policy: RetentionPolicy, s: SegmentMetadata, now: u64, remaining: int) -> bool {
    match policy {
        RetentionPolicy::Unlimited => false,
        RetentionPolicy::Time(max_age) => age_secs_at(s, now) * 1_000_000_000 > max_age.total_nanos(),
        RetentionPolicy::Size(max_size) => remaining > max_size,
        RetentionPolicy::Both { max_age, max_size } => age_secs_at(s, now) * 1_000_000_000
            > max_age.total_nanos() || remaining > max_size,
    }
}

/// The number of oldest segments that retention deletes at time `now`.
pub open spec fn deleted_count(cfg: RetentionConfig, segs: Seq<SegmentMetadata>, now: u64) -> int {
    deleted_count_from(cfg, segs, now, 0, total_size(segs))
}

proof fn lemma_total_size_split(segs: Seq<SegmentMetadata>, i: int)
    requires
        0 <= i < segs.len(),
    ensures
        total_size(segs.subrange(i, segs.len() as int)) == segs[i].size + total_size(
            segs.subrange(i + 1, segs.len() as int),
        ),
    decreases segs.len(),
{
    let t = segs.subrange(i, segs.len() as int);
    let u = segs.subrange(i + 1, segs.len() as int);
    if i + 1 == segs.len() {
        assert(t.drop_last() =~= Seq::<SegmentMetadata>::empty());
        assert(u =~= Seq::<SegmentMetadata>::empty());
    } else {
        let d = segs.drop_last();
        lemma_total_size_split(d, i);
        assert(t.drop_last() =~= d.subrange(i, d.len() as int));
        assert(u.drop_last() =~= d.subrange(i + 1, d.len() as int));
    }
}

proof fn lemma_total_size_nonneg(segs: Seq<SegmentMetadata>)
    ensures
        total_size(segs) >= 0,
    decreases segs.len(),
{
    if segs.len() > 0 {
        lemma_total_size_nonneg(segs.drop_last());
    }
}

proof fn lemma_deleted_count_bounds(cfg: RetentionConfig, segs: Seq<SegmentMetadata>, now: u64, i: int, remaining: int)
    requires
        0 <= i <= segs.len(),
    ensures
        0 <= deleted_count_from(cfg, segs, now, i, remaining) <= segs.len() - i,
        segs.len() - i >= cfg.min_segments ==> segs.len() - i - deleted_count_from(
            cfg,
            segs,
            now,
            i,
            remaining,
        ) >= cfg.min_segments,
        segs.len() - i < cfg.min_segments ==> deleted_count_from(cfg, segs, now, i, remaining)
            == 0,
    decreases segs.len() - i,
{
    if i < segs.len() {
        lemma_deleted_count_bounds(cfg, segs, now, i + 1, remaining - segs[i].size);
    }
}

/// Retention deletes a prefix of the segments, oldest first, and never
/// leaves fewer segments than the configured minimum (or deletes any when
/// there are no more than the minimum); with unlimited retention it
/// deletes nothing.
pub proof fn lemma_retention_keeps_minimum(cfg: RetentionConfig, segs: Seq<SegmentMetadata>, now: u64)
    ensures
        0 <= deleted_count(cfg, segs, now) <= segs.len(),
        segs.len() >= cfg.min_segments ==> segs.len() - deleted_count(cfg, segs, now)
            >= cfg.min_segments,
        segs.len() <= cfg.min_segments ==> deleted_count(cfg, segs, now) == 0,
        cfg.policy == RetentionPolicy::Unlimited ==> deleted_count(cfg, segs, now) == 0,
{
    lemma_deleted_count_bounds(cfg, segs, now, 0, total_size(segs));
    if segs.len() > 0 && segs.len() == cfg.min_segments {
        assert(!(segs.len() - 0 > cfg.min_segments));
    }
}

/// Applies retention policies to segments.
pub struct RetentionManager {
    config: RetentionConfig,
}

impl RetentionManager {
    /// A manager applying `config`.
    pub fn new(config: RetentionConfig) -> (r: Self)
        ensures
            r.spec_config() == config,
    {
        RetentionManager { config }
    }

    /// The configuration applied.
    pub closed spec fn spec_config(&self) -> RetentionConfig {
        self.config
    }

    /// The base offsets of the segments to delete at time `now` (seconds
    /// since the epoch): the oldest segments, in order, for as long as the
    /// policy asks to delete them, counting for each the bytes held by it
    /// and every newer segment.
    pub fn segments_to_delete_at(&self, segments: &[SegmentMetadata], now: u64) -> (r: Vec<u64>)
        requires
            total_size(segments@) <= u64::MAX,
        ensures
            r@.len() == deleted_count(self.spec_config(), segments@, now),
            forall|i: int| 0 <= i < r@.len() ==> #[trigger] r@[i] == segments@[i].base_offset,
    {
        let mut to_delete: Vec<u64> = Vec::new();
        if segments.len() == 0 {
            return to_delete;
        }
        let mut total: u64 = 0;
        let mut j: usize = 0;
        while j < segments.len()
            invariant
                j <= segments@.len(),
                total == total_size(segments@.subrange(0, j as int)),
                total_size(segments@) <= u64::MAX,
            decreases segments@.len() - j,
        {
            proof {
                let t = segments@.subrange(0, j + 1);
                assert(t.drop_last() =~= segments@.subrange(0, j as int));
                lemma_total_size_prefix(segments@, j + 1);
            }
            total = total + segments[j].size;
            j = j + 1;
        }
        assert(segments@.subrange(0, segments@.len() as int) =~= segments@);
        let segment_count = segments.len();
        let mut cumulative_size: u64 = total;
        let mut idx: usize = 0;
        let mut done = false;
        proof {
            assert(segments@.subrange(0, segments@.len() as int) =~= segments@);
        }
        while idx < segment_count && !done
            invariant
                done ==> deleted_count_from(
                    self.spec_config(),
                    segments@,
                    now,
                    idx as int,
                    cumulative_size as int,
                ) == 0,
                segment_count == segments@.len(),
                idx <= segment_count,
                cumulative_size == total_size(segments@.subrange(idx as int, segment_count as int)),
                to_delete@.len() == idx,
                forall|i: int| 0 <= i < idx ==> #[trigger] to_delete@[i] == segments@[i].base_offset,
                deleted_count(self.spec_config(), segments@, now) == idx + deleted_count_from(
                    self.spec_config(),
                    segments@,
                    now,
                    idx as int,
                    cumulative_size as int,
                ),
            decreases segment_count - idx + (if done { 0int } else { 1int }),
        {
            let segment = &segments[idx];
            let remaining_count = segment_count - idx;
            let age = segment.age_at(now);
            proof {
                lemma_total_size_split(segments@, idx as int);
                lemma_total_size_nonneg(segments@.subrange(idx + 1, segment_count as int));
            }
            if self.config.should_delete_segment(age, cumulative_size, remaining_count) {
                to_delete.push(segment.base_offset);
                cumulative_size = cumulative_size - segment.size;
                idx = idx + 1;
            } else {
                done = true;
            }
        }
        to_delete
    }

    /// The base offsets of the segments to delete, by the wall clock.
    pub fn segments_to_delete(&self, segments: &[SegmentMetadata]) -> (r: Vec<u64>)
        requires
            total_size(segments@) <= u64::MAX,
        ensures
            exists|now: u64| r@.len() == deleted_count(self.spec_config(), segments@, now),
            forall|i: int| 0 <= i < r@.len() ==> #[trigger] r@[i] == segments@[i].base_offset,
    {
        let now = now_millis() / 1000;
        self.segments_to_delete_at(segments, now)
    }

    /// The configuration applied.
    pub fn config(&self) -> (r: &RetentionConfig)
        ensures
            *r == self.spec_config(),
    {
        &self.config
    }

    /// Applies another configuration from now on.
    pub fn update_config(&mut self, config: RetentionConfig)
        ensures
            final(self).spec_config() == config,
    {
        self.config = config;
    }
}

proof fn lemma_total_size_prefix(segs: Seq<SegmentMetadata>, j: int)
    requires
        0 <= j <= segs.len(),
    ensures
        total_size(segs.subrange(0, j)) <= total_size(segs),
    decreases segs.len() - j,
{
    if j < segs.len() {
        lemma_total_size_prefix(segs, j + 1);
        let t = segs.subrange(0, j + 1);
        assert(t.drop_last() =~= segs.subrange(0, j));
    } else {
        assert(segs.subrange(0, j) =~= segs);
    }
}

} // verus!
