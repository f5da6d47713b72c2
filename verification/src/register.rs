use vstd::arithmetic::div_mod::{lemma_div_is_ordered, lemma_div_multiples_vanish};
use vstd::prelude::*;

use crate::errors::{PartitionOffsetsError, PartitionOffsetsResult};
use crate::kafka_types::TopicPartition;
use crate::lag_estimator::{
    spec_offset_lag, spec_time_lag, spec_update, PartitionLagEstimator,
};
use crate::tracked_offset::TrackedOffset;

verus! {

/// One watermark sample produced by the partition-watermarks poller:
/// at wall-clock instant `read_at_ms`, partition `(topic, partition)` retained
/// offsets from `earliest_offset` up to (excluding) `latest_offset`.
pub struct PartitionOffset {
    pub topic: String,
    pub partition: u32,
    pub earliest_offset: u64,
    pub latest_offset: u64,
    pub read_at_ms: u64,
}

/// `entry` is the estimator of partition `(t, p)`.
pub open spec fn key_matches(
    entry: (TopicPartition, PartitionLagEstimator),
    t: Seq<char>,
    p: u32,
) -> bool {
    entry.0.topic@ == t && entry.0.partition == p
}

/// No two entries describe the same partition.
pub open spec fn unique_keys(s: Seq<(TopicPartition, PartitionLagEstimator)>) -> bool {
    forall|i: int, j: int|
        #![trigger s[i], s[j]]
        0 <= i < j < s.len() ==> !(s[i].0.topic@ == s[j].0.topic@ && s[i].0.partition
            == s[j].0.partition)
}

/// History fill of one entry, as a percentage of its capacity.
pub open spec fn entry_percent(entry: (TopicPartition, PartitionLagEstimator)) -> int
    recommends
        entry.1.spec_capacity() >= 1,
{
    100 * (entry.1.history_seq().len() as int) / (entry.1.spec_capacity() as int)
}

/// Sum of the history-fill percentages over all entries.
pub open spec fn sum_percent(s: Seq<(TopicPartition, PartitionLagEstimator)>) -> int
    decreases s.len(),
{
    if s.len() == 0 {
        0
    } else {
        sum_percent(s.drop_last()) + entry_percent(s.last())
    }
}

/// Least history-fill percentage over all entries.
pub open spec fn min_percent(s: Seq<(TopicPartition, PartitionLagEstimator)>) -> int
    recommends
        s.len() > 0,
    decreases s.len(),
{
    if s.len() <= 1 {
        entry_percent(s[0])
    } else {
        let m = min_percent(s.drop_last());
        if entry_percent(s.last()) < m {
            entry_percent(s.last())
        } else {
            m
        }
    }
}

/// Greatest history-fill percentage over all entries.
pub open spec fn max_percent(s: Seq<(TopicPartition, PartitionLagEstimator)>) -> int
    recommends
        s.len() > 0,
    decreases s.len(),
{
    if s.len() <= 1 {
        entry_percent(s[0])
    } else {
        let m = max_percent(s.drop_last());
        if entry_percent(s.last()) > m {
            entry_percent(s.last())
        } else {
            m
        }
    }
}

/// Holds one lag estimator per observed topic partition, fed by the stream of
/// watermark samples; answers point queries and reports readiness.
///
/// This is the sequential core of the register: the surrounding binary owns
/// the locking and drains the sample channel into `update`.
pub struct PartitionOffsetsRegister {
    offsets_history: usize,
    estimators: Vec<(TopicPartition, PartitionLagEstimator)>,
}

impl PartitionOffsetsRegister {
    /// The estimators, one per observed partition, in insertion order.
    pub closed spec fn entries(&self) -> Seq<(TopicPartition, PartitionLagEstimator)> {
        self.estimators@
    }

    /// History capacity every estimator is sized with.
    pub closed spec fn spec_capacity(&self) -> nat {
        self.offsets_history as nat
    }

    /// There is an estimator for partition `(t, p)`.
    pub open spec fn spec_has(&self, t: Seq<char>, p: u32) -> bool {
        exists|i: int| 0 <= i < self.entries().len() && key_matches(#[trigger] self.entries()[i], t, p)
    }

    /// Index of the estimator for partition `(t, p)`.
    pub open spec fn spec_idx(&self, t: Seq<char>, p: u32) -> int {
        choose|i: int| 0 <= i < self.entries().len() && key_matches(#[trigger] self.entries()[i], t, p)
    }

    /// The estimator for partition `(t, p)`.
    pub open spec fn spec_est(&self, t: Seq<char>, p: u32) -> PartitionLagEstimator
        recommends
            self.spec_has(t, p),
    {
        self.entries()[self.spec_idx(t, p)].1
    }

    /// Average history-fill percentage across all estimators; zero when none
    /// exists yet.
    pub open spec fn spec_avg_percent(&self) -> int {
        if self.entries().len() == 0 {
            0
        } else {
            sum_percent(self.entries()) / self.entries().len() as int
        }
    }

    /// Invariant: a positive capacity, every estimator well formed and sized
    /// with it, and one estimator per partition.
    pub open spec fn well_formed(&self) -> bool {
        &&& 1 <= self.spec_capacity()
        &&& unique_keys(self.entries())
        &&& forall|i: int|
            0 <= i < self.entries().len() ==> (#[trigger] self.entries()[i]).1.well_formed()
                && self.entries()[i].1.spec_capacity() == self.spec_capacity()
    }

    /// An index found by value equality names the partition's unique entry.
    proof fn lemma_found(&self, t: Seq<char>, p: u32, i: int)
        requires
            self.well_formed(),
            0 <= i < self.entries().len(),
            key_matches(self.entries()[i], t, p),
        ensures
            self.spec_has(t, p),
            self.spec_idx(t, p) == i,
            self.spec_est(t, p) == self.entries()[i].1,
    {
        assert(self.spec_has(t, p));
        let k = self.spec_idx(t, p);
        assert(0 <= k < self.entries().len() && key_matches(self.entries()[k], t, p));
        if k < i {
            assert(!(self.entries()[k].0.topic@ == self.entries()[i].0.topic@
                && self.entries()[k].0.partition == self.entries()[i].0.partition));
        } else if i < k {
            assert(!(self.entries()[i].0.topic@ == self.entries()[k].0.topic@
                && self.entries()[i].0.partition == self.entries()[k].0.partition));
        }
    }

    /// Create a register whose estimators will each hold `offsets_history`
    /// tracked offsets.
    pub fn new(offsets_history: usize) -> (r: PartitionOffsetsRegister)
        requires
            1 <= offsets_history,
        ensures
            r.well_formed(),
            r.entries().len() == 0,
            r.spec_capacity() == offsets_history,
    {
        PartitionOffsetsRegister { offsets_history, estimators: Vec::new() }
    }

    /// Position of the estimator for `topic_partition`, if any.
    fn find_index(&self, topic_partition: &TopicPartition) -> (r: Option<usize>)
        ensures
            r matches Some(i) ==> 0 <= i < self.entries().len() && key_matches(
                self.entries()[i as int],
                topic_partition.topic@,
                topic_partition.partition,
            ),
            r is None ==> !self.spec_has(topic_partition.topic@, topic_partition.partition),
    {
        let n = self.estimators.len();
        let mut i: usize = 0;
        while i < n
            invariant
                n == self.entries().len(),
                0 <= i <= n,
                forall|k: int|
                    0 <= k < i ==> !key_matches(
                        #[trigger] self.entries()[k],
                        topic_partition.topic@,
                        topic_partition.partition,
                    ),
            decreases n - i,
        {
            if self.estimators[i].0.same(topic_partition) {
                return Some(i);
            }
            i += 1;
        }
        None
    }

    /// Apply one watermark sample: create the partition's estimator on first
    /// sight, sized with the configured capacity, then fold the sample in.
    /// Every other partition's estimator is untouched.
    pub fn update(&mut self, po: &PartitionOffset)
        requires
            old(self).well_formed(),
        ensures
            final(self).well_formed(),
            final(self).spec_capacity() == old(self).spec_capacity(),
            final(self).spec_has(po.topic@, po.partition),
            ({
                let t = po.topic@;
                let p = po.partition;
                let prior_hist = if old(self).spec_has(t, p) {
                    old(self).spec_est(t, p).history_seq()
                } else {
                    Seq::<TrackedOffset>::empty()
                };
                final(self).spec_est(t, p).history_seq() == spec_update(
                    prior_hist,
                    old(self).spec_capacity(),
                    po.latest_offset,
                    po.read_at_ms,
                ) && final(self).spec_est(t, p).spec_earliest_available() == po.earliest_offset
            }),
            forall|t2: Seq<char>, p2: u32|
                #![trigger final(self).spec_has(t2, p2)]
                #![trigger final(self).spec_est(t2, p2)]
                !(t2 == po.topic@ && p2 == po.partition) ==> (final(self).spec_has(t2, p2)
                    == old(self).spec_has(t2, p2) && (old(self).spec_has(t2, p2)
                    ==> final(self).spec_est(t2, p2) == old(self).spec_est(t2, p2))),
    {
        let ghost t = po.topic@;
        let ghost p = po.partition;
        let tp = TopicPartition::new(po.topic.clone(), po.partition);
        let found = self.find_index(&tp);
        match found {
            Some(i) => {
                proof {
                    self.lemma_found(t, p, i as int);
                }
                let (key, mut est) = self.estimators.swap_remove(i);
                est.update(po.earliest_offset, po.latest_offset, po.read_at_ms);
                self.estimators.push((key, est));
                proof {
                    let olds = old(self).entries();
                    let news = self.entries();
                    let newest = news.last().1;
                    lemma_update_entry_shuffle(olds, news, i as int, t, p, newest);
                    assert forall|k: int|
                        0 <= k < news.len() implies (#[trigger] news[k]).1.well_formed()
                        && news[k].1.spec_capacity() == self.spec_capacity() by {
                        if k < news.len() - 1 {
                            if k == i {
                                assert(news[k] == olds[olds.len() - 1]);
                            } else {
                                assert(news[k] == olds[k]);
                            }
                        }
                    }
                    assert(self.well_formed());
                    self.lemma_found(t, p, self.entries().len() - 1);
                    assert forall|t2: Seq<char>, p2: u32|
                        #![trigger self.spec_has(t2, p2)]
                        #![trigger self.spec_est(t2, p2)]
                        !(t2 == t && p2 == p) implies (self.spec_has(t2, p2)
                            == old(self).spec_has(t2, p2) && (old(self).spec_has(t2, p2)
                            ==> self.spec_est(t2, p2) == old(self).spec_est(t2, p2))) by {
                        lemma_other_keys_shuffle(
                            old(self).entries(),
                            self.entries(),
                            i as int,
                            t2,
                            p2,
                        );
                        if old(self).spec_has(t2, p2) {
                            let k1 = old(self).spec_idx(t2, p2);
                            let k2 = self.spec_idx(t2, p2);
                            assert(0 <= k1 < old(self).entries().len() && key_matches(
                                old(self).entries()[k1],
                                t2,
                                p2,
                            ));
                            assert(0 <= k2 < self.entries().len() && key_matches(
                                self.entries()[k2],
                                t2,
                                p2,
                            ));
                            lemma_entry_carried(
                                old(self).entries(),
                                self.entries(),
                                i as int,
                                k1,
                                k2,
                                t2,
                                p2,
                            );
                        }
                    }
                }
            },
            None => {
                let mut est = PartitionLagEstimator::new(self.offsets_history);
                est.update(po.earliest_offset, po.latest_offset, po.read_at_ms);
                self.estimators.push((tp, est));
                proof {
                    let olds = old(self).entries();
                    let news = self.entries();
                    assert(news.len() == olds.len() + 1);
                    assert forall|k: int| 0 <= k < olds.len() implies news[k] == olds[k] by {}
                    assert(key_matches(news[news.len() - 1], t, p));
                    assert forall|a: int, b: int|
                        #![trigger news[a], news[b]]
                        0 <= a < b < news.len() implies !(news[a].0.topic@ == news[b].0.topic@
                        && news[a].0.partition == news[b].0.partition) by {
                        if b == news.len() - 1 {
                            assert(news[a] == olds[a]);
                            assert(!key_matches(olds[a], t, p));
                        } else {
                            assert(news[a] == olds[a] && news[b] == olds[b]);
                        }
                    }
                    assert(self.well_formed());
                    self.lemma_found(t, p, news.len() - 1);
                    assert forall|t2: Seq<char>, p2: u32|
                        #![trigger self.spec_has(t2, p2)]
                        #![trigger self.spec_est(t2, p2)]
                        !(t2 == t && p2 == p) implies (self.spec_has(t2, p2)
                            == old(self).spec_has(t2, p2) && (old(self).spec_has(t2, p2)
                            ==> self.spec_est(t2, p2) == old(self).spec_est(t2, p2))) by {
                        if old(self).spec_has(t2, p2) {
                            let k1 = old(self).spec_idx(t2, p2);
                            assert(0 <= k1 < olds.len() && key_matches(olds[k1], t2, p2));
                            old(self).lemma_found(t2, p2, k1);
                            assert(key_matches(news[k1], t2, p2));
                            self.lemma_found(t2, p2, k1);
                        } else {
                            if self.spec_has(t2, p2) {
                                let k2 = self.spec_idx(t2, p2);
                                assert(0 <= k2 < news.len() && key_matches(news[k2], t2, p2));
                                assert(k2 < news.len() - 1);
                                assert(key_matches(olds[k2], t2, p2));
                                assert(old(self).spec_has(t2, p2));
                            }
                        }
                    }
                }
            },
        }
    }

    /// Estimate the offset lag of a consumer of `topic_partition` that has
    /// consumed up to `consumed_offset`.
    pub fn estimate_offset_lag(
        &self,
        topic_partition: &TopicPartition,
        consumed_offset: u64,
    ) -> (r: PartitionOffsetsResult<u64>)
        requires
            self.well_formed(),
        ensures
            !self.spec_has(topic_partition.topic@, topic_partition.partition) ==> (r matches Err(e)
                && e matches PartitionOffsetsError::LagEstimatorNotFound(et, ep) && et@
                == topic_partition.topic@ && ep == topic_partition.partition),
            self.spec_has(topic_partition.topic@, topic_partition.partition) ==> ({
                let h = self.spec_est(
                    topic_partition.topic@,
                    topic_partition.partition,
                ).history_seq();
                if h.len() == 0 {
                    r == Err::<u64, PartitionOffsetsError>(PartitionOffsetsError::NotEnoughData)
                } else {
                    r == Ok::<u64, PartitionOffsetsError>(spec_offset_lag(h, consumed_offset))
                }
            }),
    {
        match self.find_index(topic_partition) {
            None => Err(
                PartitionOffsetsError::LagEstimatorNotFound(
                    topic_partition.topic.clone(),
                    topic_partition.partition,
                ),
            ),
            Some(i) => {
                proof {
                    self.lemma_found(topic_partition.topic@, topic_partition.partition, i as int);
                }
                self.estimators[i].1.estimate_offset_lag(consumed_offset)
            },
        }
    }

    /// Estimate the time lag, in milliseconds, of a consumer of
    /// `topic_partition` that committed `consumed_offset` at
    /// `consumed_at_ms`.
    pub fn estimate_time_lag(
        &self,
        topic_partition: &TopicPartition,
        consumed_offset: u64,
        consumed_at_ms: u64,
    ) -> (r: PartitionOffsetsResult<u64>)
        requires
            self.well_formed(),
        ensures
            !self.spec_has(topic_partition.topic@, topic_partition.partition) ==> (r matches Err(e)
                && e matches PartitionOffsetsError::LagEstimatorNotFound(et, ep) && et@
                == topic_partition.topic@ && ep == topic_partition.partition),
            self.spec_has(topic_partition.topic@, topic_partition.partition) ==> ({
                let h = self.spec_est(
                    topic_partition.topic@,
                    topic_partition.partition,
                ).history_seq();
                if h.len() == 0 {
                    r == Err::<u64, PartitionOffsetsError>(PartitionOffsetsError::NotEnoughData)
                } else {
                    r matches Ok(v) && v == spec_time_lag(h, consumed_offset, consumed_at_ms)
                }
            }),
    {
        match self.find_index(topic_partition) {
            None => Err(
                PartitionOffsetsError::LagEstimatorNotFound(
                    topic_partition.topic.clone(),
                    topic_partition.partition,
                ),
            ),
            Some(i) => {
                proof {
                    self.lemma_found(topic_partition.topic@, topic_partition.partition, i as int);
                }
                self.estimators[i].1.estimate_time_lag(consumed_offset, consumed_at_ms)
            },
        }
    }

    /// The oldest tracked offset of `topic_partition`.
    pub fn get_earliest_tracked_offset(&self, topic_partition: &TopicPartition) -> (r:
        PartitionOffsetsResult<TrackedOffset>)
        requires
            self.well_formed(),
        ensures
            !self.spec_has(topic_partition.topic@, topic_partition.partition) ==> (r matches Err(e)
                && e matches PartitionOffsetsError::LagEstimatorNotFound(et, ep) && et@
                == topic_partition.topic@ && ep == topic_partition.partition),
            self.spec_has(topic_partition.topic@, topic_partition.partition) ==> ({
                let h = self.spec_est(
                    topic_partition.topic@,
                    topic_partition.partition,
                ).history_seq();
                if h.len() == 0 {
                    r == Err::<TrackedOffset, PartitionOffsetsError>(
                        PartitionOffsetsError::NotEnoughData,
                    )
                } else {
                    r == Ok::<TrackedOffset, PartitionOffsetsError>(h[0])
                }
            }),
    {
        match self.find_index(topic_partition) {
            None => Err(
                PartitionOffsetsError::LagEstimatorNotFound(
                    topic_partition.topic.clone(),
                    topic_partition.partition,
                ),
            ),
            Some(i) => {
                proof {
                    self.lemma_found(topic_partition.topic@, topic_partition.partition, i as int);
                }
                self.estimators[i].1.earliest_tracked_offset()
            },
        }
    }

    /// The most recent tracked offset of `topic_partition`.
    pub fn get_latest_tracked_offset(&self, topic_partition: &TopicPartition) -> (r:
        PartitionOffsetsResult<TrackedOffset>)
        requires
            self.well_formed(),
        ensures
            !self.spec_has(topic_partition.topic@, topic_partition.partition) ==> (r matches Err(e)
                && e matches PartitionOffsetsError::LagEstimatorNotFound(et, ep) && et@
                == topic_partition.topic@ && ep == topic_partition.partition),
            self.spec_has(topic_partition.topic@, topic_partition.partition) ==> ({
                let h = self.spec_est(
                    topic_partition.topic@,
                    topic_partition.partition,
                ).history_seq();
                if h.len() == 0 {
                    r == Err::<TrackedOffset, PartitionOffsetsError>(
                        PartitionOffsetsError::NotEnoughData,
                    )
                } else {
                    r == Ok::<TrackedOffset, PartitionOffsetsError>(h.last())
                }
            }),
    {
        match self.find_index(topic_partition) {
            None => Err(
                PartitionOffsetsError::LagEstimatorNotFound(
                    topic_partition.topic.clone(),
                    topic_partition.partition,
                ),
            ),
            Some(i) => {
                proof {
                    self.lemma_found(topic_partition.topic@, topic_partition.partition, i as int);
                }
                self.estimators[i].1.latest_tracked_offset()
            },
        }
    }

    /// The earliest offset still available on `topic_partition`.
    pub fn get_earliest_available_offset(&self, topic_partition: &TopicPartition) -> (r:
        PartitionOffsetsResult<u64>)
        requires
            self.well_formed(),
        ensures
            !self.spec_has(topic_partition.topic@, topic_partition.partition) ==> (r matches Err(e)
                && e matches PartitionOffsetsError::LagEstimatorNotFound(et, ep) && et@
                == topic_partition.topic@ && ep == topic_partition.partition),
            self.spec_has(topic_partition.topic@, topic_partition.partition) ==> ({
                let est = self.spec_est(topic_partition.topic@, topic_partition.partition);
                if est.history_seq().len() == 0 {
                    r == Err::<u64, PartitionOffsetsError>(PartitionOffsetsError::NotEnoughData)
                } else {
                    r == Ok::<u64, PartitionOffsetsError>(est.spec_earliest_available())
                }
            }),
    {
        match self.find_index(topic_partition) {
            None => Err(
                PartitionOffsetsError::LagEstimatorNotFound(
                    topic_partition.topic.clone(),
                    topic_partition.partition,
                ),
            ),
            Some(i) => {
                proof {
                    self.lemma_found(topic_partition.topic@, topic_partition.partition, i as int);
                }
                self.estimators[i].1.earliest_available_offset()
            },
        }
    }

    /// The latest offset available on `topic_partition`: its tail watermark.
    pub fn get_latest_available_offset(&self, topic_partition: &TopicPartition) -> (r:
        PartitionOffsetsResult<u64>)
        requires
            self.well_formed(),
        ensures
            !self.spec_has(topic_partition.topic@, topic_partition.partition) ==> (r matches Err(e)
                && e matches PartitionOffsetsError::LagEstimatorNotFound(et, ep) && et@
                == topic_partition.topic@ && ep == topic_partition.partition),
            self.spec_has(topic_partition.topic@, topic_partition.partition) ==> ({
                let h = self.spec_est(
                    topic_partition.topic@,
                    topic_partition.partition,
                ).history_seq();
                if h.len() == 0 {
                    r == Err::<u64, PartitionOffsetsError>(PartitionOffsetsError::NotEnoughData)
                } else {
                    r == Ok::<u64, PartitionOffsetsError>(h.last().offset)
                }
            }),
    {
        match self.find_index(topic_partition) {
            None => Err(
                PartitionOffsetsError::LagEstimatorNotFound(
                    topic_partition.topic.clone(),
                    topic_partition.partition,
                ),
            ),
            Some(i) => {
                proof {
                    self.lemma_found(topic_partition.topic@, topic_partition.partition, i as int);
                }
                self.estimators[i].1.latest_available_offset()
            },
        }
    }

    /// Usage statistics over the estimators: least, greatest and average
    /// history-fill percentage, and how many partitions are tracked.
    /// All zeros while nothing is tracked yet.
    pub fn get_usage(&self) -> (r: (u64, u64, u64, usize))
        requires
            self.well_formed(),
        ensures
            r.3 == self.entries().len(),
            self.entries().len() == 0 ==> r == (0u64, 0u64, 0u64, 0usize),
            self.entries().len() > 0 ==> r.0 == min_percent(self.entries()) && r.1 == max_percent(
                self.entries(),
            ) && r.2 == self.spec_avg_percent(),
            r.2 <= 100,
    {
        let count = self.estimators.len();
        if count == 0 {
            return (0, 0, 0, 0);
        }
        let mut sum: u128 = 0;
        let mut min: u64 = 0;
        let mut max: u64 = 0;
        let mut i: usize = 0;
        while i < count
            invariant
                self.well_formed(),
                count == self.entries().len(),
                0 <= i <= count,
                sum == sum_percent(self.entries().take(i as int)),
                0 <= sum <= 100 * i,
                i > 0 ==> min == min_percent(self.entries().take(i as int)),
                i > 0 ==> max == max_percent(self.entries().take(i as int)),
            decreases count - i,
        {
            proof {
                assert(self.entries().take(i + 1).drop_last() =~= self.entries().take(i as int));
                assert(self.entries().take(i + 1).last() == self.entries()[i as int]);
            }
            let p = self.estimators[i].1.usage_percent();
            sum = sum + (p as u128);
            if i == 0 {
                min = p;
                max = p;
            } else {
                if p < min {
                    min = p;
                }
                if p > max {
                    max = p;
                }
            }
            i += 1;
        }
        proof {
            assert(self.entries().take(count as int) =~= self.entries());
            lemma_avg_bound(sum as int, count as int);
        }
        let avg: u64 = (sum / (count as u128)) as u64;
        (min, max, avg, count)
    }

    /// The register is ready once the average history fill strictly exceeds
    /// `threshold_percent`: only then is time-lag interpolation meaningful.
    pub fn is_ready(&self, threshold_percent: u64) -> (r: bool)
        requires
            self.well_formed(),
        ensures
            r == (self.spec_avg_percent() > threshold_percent),
    {
        let (_min, _max, avg, _count) = self.get_usage();
        avg > threshold_percent
    }
}

/// After the entry for `(t, p)` at position `i` is taken out by a swap with
/// the last entry and pushed back updated, the sequence holds the old
/// entries, the updated one in place of the old, and nothing else.
proof fn lemma_update_entry_shuffle(
    olds: Seq<(TopicPartition, PartitionLagEstimator)>,
    news: Seq<(TopicPartition, PartitionLagEstimator)>,
    i: int,
    t: Seq<char>,
    p: u32,
    est: PartitionLagEstimator,
)
    requires
        0 <= i < olds.len(),
        key_matches(olds[i], t, p),
        news == olds.update(i, olds.last()).drop_last().push((olds[i].0, est)),
    ensures
        news.len() == olds.len(),
        news.last() == (olds[i].0, est),
        key_matches(news[news.len() - 1], t, p),
        forall|k: int|
            0 <= k < news.len() - 1 ==> #[trigger] news[k] == (if k == i {
                olds[olds.len() - 1]
            } else {
                olds[k]
            }),
        unique_keys(olds) ==> unique_keys(news),
{
    assert(news.len() == olds.len());
    assert forall|k: int| 0 <= k < news.len() - 1 implies #[trigger] news[k] == (if k == i {
        olds[olds.len() - 1]
    } else {
        olds[k]
    }) by {}
    if unique_keys(olds) {
        assert forall|a: int, b: int|
            #![trigger news[a], news[b]]
            0 <= a < b < news.len() implies !(news[a].0.topic@ == news[b].0.topic@
            && news[a].0.partition == news[b].0.partition) by {
            let ea = if a == news.len() - 1 {
                olds[i]
            } else if a == i {
                olds[olds.len() - 1]
            } else {
                olds[a]
            };
            let eb = if b == news.len() - 1 {
                olds[i]
            } else if b == i {
                olds[olds.len() - 1]
            } else {
                olds[b]
            };
            assert(news[a].0 == ea.0);
            assert(news[b].0 == eb.0);
        }
    }
}

/// The swap-and-update of the entry at `i` neither adds nor removes a key
/// other than the updated one.
proof fn lemma_other_keys_shuffle(
    olds: Seq<(TopicPartition, PartitionLagEstimator)>,
    news: Seq<(TopicPartition, PartitionLagEstimator)>,
    i: int,
    t2: Seq<char>,
    p2: u32,
)
    requires
        0 <= i < olds.len(),
        news.len() == olds.len(),
        news[news.len() - 1].0 == olds[i].0,
        forall|k: int|
            0 <= k < news.len() - 1 ==> #[trigger] news[k] == (if k == i {
                olds[olds.len() - 1]
            } else {
                olds[k]
            }),
    ensures
        (exists|k: int| 0 <= k < olds.len() && key_matches(#[trigger] olds[k], t2, p2)) == (exists|
            k: int|
            0 <= k < news.len() && key_matches(#[trigger] news[k], t2, p2)),
{
    let n = olds.len();
    if exists|k: int| 0 <= k < n && key_matches(#[trigger] olds[k], t2, p2) {
        let k = choose|k: int| 0 <= k < n && key_matches(#[trigger] olds[k], t2, p2);
        if k == i {
            assert(key_matches(news[n - 1], t2, p2));
        } else if k == n - 1 {
            if i == n - 1 {
                assert(key_matches(news[n - 1], t2, p2));
            } else {
                assert(key_matches(news[i], t2, p2));
            }
        } else {
            assert(key_matches(news[k], t2, p2));
        }
    }
    if exists|k: int| 0 <= k < n && key_matches(#[trigger] news[k], t2, p2) {
        let k = choose|k: int| 0 <= k < n && key_matches(#[trigger] news[k], t2, p2);
        if k == n - 1 {
            assert(key_matches(olds[i], t2, p2));
        } else if k == i {
            assert(key_matches(olds[n - 1], t2, p2));
        } else {
            assert(key_matches(olds[k], t2, p2));
        }
    }
}

/// A key distinct from the updated one keeps its estimator through the
/// swap-and-update: the entries named by the two witnesses are the same
/// tuple.
proof fn lemma_entry_carried(
    olds: Seq<(TopicPartition, PartitionLagEstimator)>,
    news: Seq<(TopicPartition, PartitionLagEstimator)>,
    i: int,
    k1: int,
    k2: int,
    t2: Seq<char>,
    p2: u32,
)
    requires
        0 <= i < olds.len(),
        news.len() == olds.len(),
        unique_keys(olds),
        key_matches(olds[i], news[news.len() - 1].0.topic@, news[news.len() - 1].0.partition),
        forall|k: int|
            0 <= k < news.len() - 1 ==> #[trigger] news[k] == (if k == i {
                olds[olds.len() - 1]
            } else {
                olds[k]
            }),
        0 <= k1 < olds.len(),
        key_matches(olds[k1], t2, p2),
        0 <= k2 < news.len(),
        key_matches(news[k2], t2, p2),
        !(t2 == news[news.len() - 1].0.topic@ && p2 == news[news.len() - 1].0.partition),
    ensures
        news[k2].1 == olds[k1].1,
{
    let n = olds.len();
    // The entry at k2 of the new sequence is an old entry.
    let src = if k2 == n - 1 {
        i
    } else if k2 == i {
        n - 1
    } else {
        k2
    };
    if k2 == n - 1 {
        // The last new entry carries the updated key, which t2/p2 is not.
        assert(key_matches(olds[i], t2, p2));
        assert(false);
    } else {
        assert(news[k2] == olds[src]);
        assert(key_matches(olds[src], t2, p2));
        if src < k1 {
            assert(!(olds[src].0.topic@ == olds[k1].0.topic@ && olds[src].0.partition
                == olds[k1].0.partition));
        } else if k1 < src {
            assert(!(olds[k1].0.topic@ == olds[src].0.topic@ && olds[k1].0.partition
                == olds[src].0.partition));
        }
        assert(src == k1);
    }
}

/// A sum of `count` percentages, each at most 100, averages to at most 100.
proof fn lemma_avg_bound(sum: int, count: int)
    requires
        0 <= sum,
        1 <= count,
        sum <= 100 * count,
    ensures
        0 <= sum / count <= 100,
{
    lemma_div_is_ordered(sum, 100 * count, count);
    lemma_div_multiples_vanish(100, count);
    assert(100 * count == count * 100);
}

} // verus!
