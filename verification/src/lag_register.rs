use vstd::prelude::*;

use crate::kafka_types::TopicPartition;
use crate::lag_estimator::{spec_offset_lag, spec_time_lag};
use crate::register::PartitionOffsetsRegister;

verus! {

/// One committed-offset sample produced by the committed-offsets poller:
/// consumer group `group` acknowledged offsets up to `committed_offset` on
/// `(topic, partition)` at instant `committed_at_ms`, through the member
/// named by `member_id` when known.
pub struct CommittedOffsetSample {
    pub group: String,
    pub topic: String,
    pub partition: u32,
    pub committed_offset: u64,
    pub committed_at_ms: u64,
    pub member_id: Option<String>,
}

/// Lag of one consumer group on one partition, derived from a committed
/// offset joined with the partition's watermark history. An unknown lag
/// (partition not yet tracked, or not enough history) is `None`.
pub struct GroupLag {
    pub committed_offset: u64,
    pub committed_at_ms: u64,
    pub offset_lag: Option<u64>,
    pub time_lag_ms: Option<u64>,
    pub owner_member_id: Option<String>,
}

/// `entry` is the lag of group `g` on partition `(t, p)`.
pub open spec fn group_key_matches(
    entry: (String, TopicPartition, GroupLag),
    g: Seq<char>,
    t: Seq<char>,
    p: u32,
) -> bool {
    entry.0@ == g && entry.1.topic@ == t && entry.1.partition == p
}

/// No two entries describe the same group and partition.
pub open spec fn unique_group_keys(s: Seq<(String, TopicPartition, GroupLag)>) -> bool {
    forall|i: int, j: int|
        #![trigger s[i], s[j]]
        0 <= i < j < s.len() ==> !(s[i].0@ == s[j].0@ && s[i].1.topic@ == s[j].1.topic@
            && s[i].1.partition == s[j].1.partition)
}

/// The lag entry a committed-offset sample must produce, given the current
/// state of the watermark register: the lags are known exactly when the
/// register tracks the partition with at least one history entry.
pub open spec fn spec_joined_lag(
    po: PartitionOffsetsRegister,
    sample: CommittedOffsetSample,
    gl: GroupLag,
) -> bool {
    &&& gl.committed_offset == sample.committed_offset
    &&& gl.committed_at_ms == sample.committed_at_ms
    &&& gl.owner_member_id == sample.member_id
    &&& if po.spec_has(sample.topic@, sample.partition) && po.spec_est(
        sample.topic@,
        sample.partition,
    ).history_seq().len() > 0 {
        let h = po.spec_est(sample.topic@, sample.partition).history_seq();
        gl.offset_lag == Some(spec_offset_lag(h, sample.committed_offset)) && (gl.time_lag_ms
            matches Some(v) && v == spec_time_lag(
            h,
            sample.committed_offset,
            sample.committed_at_ms,
        ))
    } else {
        gl.offset_lag is None && gl.time_lag_ms is None
    }
}

/// Per consumer group and partition, the lag derived from the most recent
/// committed-offset sample. The surrounding binary owns the locking and
/// drains the committed-offsets channel into `update`.
pub struct LagRegister {
    entries: Vec<(String, TopicPartition, GroupLag)>,
}

impl LagRegister {
    /// The lag entries, in insertion order.
    pub closed spec fn entries(&self) -> Seq<(String, TopicPartition, GroupLag)> {
        self.entries@
    }

    /// There is a lag entry for group `g` on partition `(t, p)`.
    pub open spec fn spec_has(&self, g: Seq<char>, t: Seq<char>, p: u32) -> bool {
        exists|i: int|
            0 <= i < self.entries().len() && group_key_matches(
                #[trigger] self.entries()[i],
                g,
                t,
                p,
            )
    }

    /// Index of the lag entry for group `g` on partition `(t, p)`.
    pub open spec fn spec_idx(&self, g: Seq<char>, t: Seq<char>, p: u32) -> int {
        choose|i: int|
            0 <= i < self.entries().len() && group_key_matches(
                #[trigger] self.entries()[i],
                g,
                t,
                p,
            )
    }

    /// The lag entry for group `g` on partition `(t, p)`.
    pub open spec fn spec_lag(&self, g: Seq<char>, t: Seq<char>, p: u32) -> GroupLag
        recommends
            self.spec_has(g, t, p),
    {
        self.entries()[self.spec_idx(g, t, p)].2
    }

    /// Invariant: one entry per group and partition.
    pub open spec fn well_formed(&self) -> bool {
        unique_group_keys(self.entries())
    }

    /// An index found by value equality names the unique entry of its key.
    proof fn lemma_found(&self, g: Seq<char>, t: Seq<char>, p: u32, i: int)
        requires
            self.well_formed(),
            0 <= i < self.entries().len(),
            group_key_matches(self.entries()[i], g, t, p),
        ensures
            self.spec_has(g, t, p),
            self.spec_idx(g, t, p) == i,
            self.spec_lag(g, t, p) == self.entries()[i].2,
    {
        assert(self.spec_has(g, t, p));
        let k = self.spec_idx(g, t, p);
        assert(0 <= k < self.entries().len() && group_key_matches(self.entries()[k], g, t, p));
        if k < i {
            assert(!(self.entries()[k].0@ == self.entries()[i].0@ && self.entries()[k].1.topic@
                == self.entries()[i].1.topic@ && self.entries()[k].1.partition
                == self.entries()[i].1.partition));
        } else if i < k {
            assert(!(self.entries()[i].0@ == self.entries()[k].0@ && self.entries()[i].1.topic@
                == self.entries()[k].1.topic@ && self.entries()[i].1.partition
                == self.entries()[k].1.partition));
        }
    }

    /// Create an empty lag register.
    pub fn new() -> (r: LagRegister)
        ensures
            r.well_formed(),
            r.entries().len() == 0,
    {
        LagRegister { entries: Vec::new() }
    }

    /// The rows, for iteration by the exposition.
    pub fn rows(&self) -> (r: &Vec<(String, TopicPartition, GroupLag)>)
        ensures
            r@ == self.entries(),
    {
        &self.entries
    }

    /// Position of the entry for `(group, topic, partition)`, if any.
    fn find_index(&self, group: &String, topic_partition: &TopicPartition) -> (r: Option<usize>)
        ensures
            r matches Some(i) ==> 0 <= i < self.entries().len() && group_key_matches(
                self.entries()[i as int],
                group@,
                topic_partition.topic@,
                topic_partition.partition,
            ),
            r is None ==> !self.spec_has(
                group@,
                topic_partition.topic@,
                topic_partition.partition,
            ),
    {
        let n = self.entries.len();
        let mut i: usize = 0;
        while i < n
            invariant
                n == self.entries().len(),
                0 <= i <= n,
                forall|k: int|
                    0 <= k < i ==> !group_key_matches(
                        #[trigger] self.entries()[k],
                        group@,
                        topic_partition.topic@,
                        topic_partition.partition,
                    ),
            decreases n - i,
        {
            if self.entries[i].0 == *group && self.entries[i].1.same(topic_partition) {
                return Some(i);
            }
            i += 1;
        }
        None
    }

    /// Apply one committed-offset sample: join it with the watermark
    /// register and write the group's lag entry for the partition, leaving
    /// every other entry untouched.
    pub fn update(&mut self, sample: &CommittedOffsetSample, po_reg: &PartitionOffsetsRegister)
        requires
            old(self).well_formed(),
            po_reg.well_formed(),
        ensures
            final(self).well_formed(),
            final(self).spec_has(sample.group@, sample.topic@, sample.partition),
            spec_joined_lag(
                *po_reg,
                *sample,
                final(self).spec_lag(sample.group@, sample.topic@, sample.partition),
            ),
            forall|g2: Seq<char>, t2: Seq<char>, p2: u32|
                #![trigger final(self).spec_has(g2, t2, p2)]
                #![trigger final(self).spec_lag(g2, t2, p2)]
                !(g2 == sample.group@ && t2 == sample.topic@ && p2 == sample.partition)
                    ==> (final(self).spec_has(g2, t2, p2) == old(self).spec_has(g2, t2, p2) && (
                    old(self).spec_has(g2, t2, p2) ==> final(self).spec_lag(g2, t2, p2)
                        == old(self).spec_lag(g2, t2, p2))),
    {
        let ghost g = sample.group@;
        let ghost t = sample.topic@;
        let ghost p = sample.partition;
        let tp = TopicPartition::new(sample.topic.clone(), sample.partition);
        let offset_lag = match po_reg.estimate_offset_lag(&tp, sample.committed_offset) {
            Ok(v) => Some(v),
            Err(_) => None,
        };
        let time_lag_ms = match po_reg.estimate_time_lag(
            &tp,
            sample.committed_offset,
            sample.committed_at_ms,
        ) {
            Ok(v) => Some(v),
            Err(_) => None,
        };
        let member = match &sample.member_id {
            Some(m) => Some(m.clone()),
            None => None,
        };
        let gl = GroupLag {
            committed_offset: sample.committed_offset,
            committed_at_ms: sample.committed_at_ms,
            offset_lag,
            time_lag_ms,
            owner_member_id: member,
        };
        proof {
            assert(spec_joined_lag(*po_reg, *sample, gl));
        }
        let found = self.find_index(&sample.group, &tp);
        match found {
            Some(i) => {
                let (group_key, tp_key, _old_lag) = self.entries.swap_remove(i);
                self.entries.push((group_key, tp_key, gl));
                proof {
                    let olds = old(self).entries();
                    let news = self.entries();
                    assert(news.len() == olds.len());
                    assert(news[news.len() - 1].0@ == olds[i as int].0@ && news[news.len()
                        - 1].1.topic@ == olds[i as int].1.topic@ && news[news.len() - 1].1.partition
                        == olds[i as int].1.partition);
                    assert forall|k: int| 0 <= k < news.len() - 1 implies #[trigger] news[k] == (
                    if k == i as int {
                        olds[olds.len() - 1]
                    } else {
                        olds[k]
                    }) by {}
                    assert(group_key_matches(news[news.len() - 1], g, t, p));
                    assert forall|a: int, b: int|
                        #![trigger news[a], news[b]]
                        0 <= a < b < news.len() implies !(news[a].0@ == news[b].0@
                        && news[a].1.topic@ == news[b].1.topic@ && news[a].1.partition
                        == news[b].1.partition) by {
                        let ea = if a == news.len() - 1 {
                            olds[i as int]
                        } else if a == i as int {
                            olds[olds.len() - 1]
                        } else {
                            olds[a]
                        };
                        let eb = if b == news.len() - 1 {
                            olds[i as int]
                        } else if b == i as int {
                            olds[olds.len() - 1]
                        } else {
                            olds[b]
                        };
                        assert(news[a].0@ == ea.0@ && news[a].1.topic@ == ea.1.topic@
                            && news[a].1.partition == ea.1.partition);
                        assert(news[b].0@ == eb.0@ && news[b].1.topic@ == eb.1.topic@
                            && news[b].1.partition == eb.1.partition);
                    }
                    assert(self.well_formed());
                    self.lemma_found(g, t, p, news.len() - 1);
                    assert forall|g2: Seq<char>, t2: Seq<char>, p2: u32|
                        #![trigger self.spec_has(g2, t2, p2)]
                        #![trigger self.spec_lag(g2, t2, p2)]
                        !(g2 == g && t2 == t && p2 == p) implies (self.spec_has(g2, t2, p2)
                        == old(self).spec_has(g2, t2, p2) && (old(self).spec_has(g2, t2, p2)
                        ==> self.spec_lag(g2, t2, p2) == old(self).spec_lag(g2, t2, p2))) by {
                        if old(self).spec_has(g2, t2, p2) {
                            let k1 = old(self).spec_idx(g2, t2, p2);
                            assert(0 <= k1 < olds.len() && group_key_matches(
                                olds[k1],
                                g2,
                                t2,
                                p2,
                            ));
                            old(self).lemma_found(g2, t2, p2, k1);
                            assert(k1 != i as int);
                            let k_new = if k1 == olds.len() - 1 && i as int != olds.len() - 1 {
                                i as int
                            } else {
                                k1
                            };
                            assert(group_key_matches(news[k_new], g2, t2, p2));
                            assert(news[k_new].2 == olds[k1].2);
                            self.lemma_found(g2, t2, p2, k_new);
                        }
                        if self.spec_has(g2, t2, p2) {
                            let k2 = self.spec_idx(g2, t2, p2);
                            assert(0 <= k2 < news.len() && group_key_matches(
                                news[k2],
                                g2,
                                t2,
                                p2,
                            ));
                            assert(k2 != news.len() - 1);
                            let k_old = if k2 == i as int {
                                olds.len() - 1
                            } else {
                                k2
                            };
                            assert(group_key_matches(olds[k_old], g2, t2, p2));
                            assert(old(self).spec_has(g2, t2, p2));
                        }
                    }
                }
            },
            None => {
                let group_key = sample.group.clone();
                self.entries.push((group_key, tp, gl));
                proof {
                    let olds = old(self).entries();
                    let news = self.entries();
                    assert(news.len() == olds.len() + 1);
                    assert forall|k: int| 0 <= k < olds.len() implies news[k] == olds[k] by {}
                    assert(group_key_matches(news[news.len() - 1], g, t, p));
                    assert forall|a: int, b: int|
                        #![trigger news[a], news[b]]
                        0 <= a < b < news.len() implies !(news[a].0@ == news[b].0@
                        && news[a].1.topic@ == news[b].1.topic@ && news[a].1.partition
                        == news[b].1.partition) by {
                        if b == news.len() - 1 {
                            assert(news[a] == olds[a]);
                            assert(!group_key_matches(olds[a], g, t, p));
                        } else {
                            assert(news[a] == olds[a] && news[b] == olds[b]);
                        }
                    }
                    assert(self.well_formed());
                    self.lemma_found(g, t, p, news.len() - 1);
                    assert forall|g2: Seq<char>, t2: Seq<char>, p2: u32|
                        #![trigger self.spec_has(g2, t2, p2)]
                        #![trigger self.spec_lag(g2, t2, p2)]
                        !(g2 == g && t2 == t && p2 == p) implies (self.spec_has(g2, t2, p2)
                        == old(self).spec_has(g2, t2, p2) && (old(self).spec_has(g2, t2, p2)
                        ==> self.spec_lag(g2, t2, p2) == old(self).spec_lag(g2, t2, p2))) by {
                        if old(self).spec_has(g2, t2, p2) {
                            let k1 = old(self).spec_idx(g2, t2, p2);
                            assert(0 <= k1 < olds.len() && group_key_matches(
                                olds[k1],
                                g2,
                                t2,
                                p2,
                            ));
                            old(self).lemma_found(g2, t2, p2, k1);
                            assert(group_key_matches(news[k1], g2, t2, p2));
                            self.lemma_found(g2, t2, p2, k1);
                        } else {
                            if self.spec_has(g2, t2, p2) {
                                let k2 = self.spec_idx(g2, t2, p2);
                                assert(0 <= k2 < news.len() && group_key_matches(
                                    news[k2],
                                    g2,
                                    t2,
                                    p2,
                                ));
                                assert(k2 < news.len() - 1);
                                assert(group_key_matches(olds[k2], g2, t2, p2));
                                assert(old(self).spec_has(g2, t2, p2));
                            }
                        }
                    }
                }
            },
        }
    }
}

} // verus!
