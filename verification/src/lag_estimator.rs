use vstd::arithmetic::div_mod::{lemma_div_is_ordered, lemma_div_multiples_vanish};
use vstd::arithmetic::mul::lemma_mul_inequality;
use vstd::prelude::*;

use crate::errors::{PartitionOffsetsError, PartitionOffsetsResult};
use crate::tracked_offset::TrackedOffset;

verus! {

/// History entries are ordered: offsets never decrease along the history and
/// observation instants strictly increase.
pub open spec fn monotonic_history(h: Seq<TrackedOffset>) -> bool {
    forall|i: int, j: int|
        #![trigger h[i], h[j]]
        0 <= i < j < h.len() ==> h[i].offset <= h[j].offset && h[i].at_ms < h[j].at_ms
}

/// What one watermark sample does to a history of capacity `cap`:
/// a first sample is recorded; a sample not younger than the tail, or with a
/// receding watermark, is discarded; a repeat of the tail's offset extends the
/// flat segment by moving the tail's instant; anything else is appended, with
/// the oldest entry evicted once the history is full.
pub open spec fn spec_update(h: Seq<TrackedOffset>, cap: nat, latest: u64, at_ms: u64) -> Seq<
    TrackedOffset,
> {
    if h.len() == 0 {
        seq![TrackedOffset { offset: latest, at_ms }]
    } else {
        let prev = h.last();
        if at_ms <= prev.at_ms {
            h
        } else if latest < prev.offset {
            h
        } else if latest == prev.offset {
            h.update(h.len() - 1, TrackedOffset { offset: latest, at_ms })
        } else {
            let pushed = h.push(TrackedOffset { offset: latest, at_ms });
            if pushed.len() > cap {
                pushed.subrange(1, pushed.len() as int)
            } else {
                pushed
            }
        }
    }
}

/// Offset lag of a consumer at `consumed`: distance to the tail watermark,
/// saturating at zero when the consumer is at or past it.
pub open spec fn spec_offset_lag(h: Seq<TrackedOffset>, consumed: u64) -> u64
    recommends
        h.len() > 0,
{
    if consumed > h.last().offset {
        0u64
    } else {
        (h.last().offset - consumed) as u64
    }
}

/// Index of the first history entry whose offset exceeds `c` (the history
/// length when there is none).
pub open spec fn first_above(h: Seq<TrackedOffset>, c: u64) -> int
    decreases h.len(),
{
    if h.len() == 0 {
        0
    } else if h[0].offset > c {
        0
    } else {
        1 + first_above(h.drop_first(), c)
    }
}

/// Instant at which offset `c` is estimated to have been produced, by linear
/// interpolation between adjacent history entries `a` and `b`.
pub open spec fn spec_interp_instant(a: TrackedOffset, b: TrackedOffset, c: u64) -> int {
    let denom: int = if b.offset - a.offset >= 1 {
        b.offset - a.offset
    } else {
        1
    };
    a.at_ms + (b.at_ms - a.at_ms) * (c - a.offset) / denom
}

/// Time lag, in milliseconds, of a consumer that committed offset `c` at
/// instant `c_at`: zero at or past the tail; the full span to the tail for a
/// consumer below the tracked window; otherwise the distance from the
/// interpolated production instant of `c` to the tail's instant, saturating
/// at zero.
pub open spec fn spec_time_lag(h: Seq<TrackedOffset>, c: u64, c_at: u64) -> int
    recommends
        h.len() > 0,
        monotonic_history(h),
{
    if c >= h.last().offset {
        0
    } else if c < h[0].offset {
        if h.last().at_ms >= c_at {
            h.last().at_ms - c_at
        } else {
            0
        }
    } else {
        let j = first_above(h, c);
        let est = spec_interp_instant(h[j - 1], h[j], c);
        if h.last().at_ms >= est {
            h.last().at_ms - est
        } else {
            0
        }
    }
}

/// Per-partition bounded history of watermark observations, able to estimate
/// a consumer's lag in offsets and in wall-clock time.
pub struct PartitionLagEstimator {
    capacity: usize,
    history: Vec<TrackedOffset>,
    earliest_available: u64,
}

impl PartitionLagEstimator {
    /// The tracked history, oldest first.
    pub closed spec fn history_seq(&self) -> Seq<TrackedOffset> {
        self.history@
    }

    /// Maximum history length, fixed at construction.
    pub closed spec fn spec_capacity(&self) -> nat {
        self.capacity as nat
    }

    /// The low watermark from the most recent sample.
    pub closed spec fn spec_earliest_available(&self) -> u64 {
        self.earliest_available
    }

    /// Invariant: a positive capacity bounds the history, and the history is
    /// monotonic.
    pub open spec fn well_formed(&self) -> bool {
        &&& 1 <= self.spec_capacity()
        &&& self.history_seq().len() <= self.spec_capacity()
        &&& monotonic_history(self.history_seq())
    }

    /// Create an estimator able to hold `capacity` tracked offsets.
    pub fn new(capacity: usize) -> (r: PartitionLagEstimator)
        requires
            1 <= capacity,
        ensures
            r.well_formed(),
            r.history_seq() == Seq::<TrackedOffset>::empty(),
            r.spec_capacity() == capacity,
            r.spec_earliest_available() == 0u64,
    {
        let r = PartitionLagEstimator { capacity, history: Vec::new(), earliest_available: 0 };
        proof {
            assert(r.history_seq() =~= Seq::<TrackedOffset>::empty());
        }
        r
    }

    /// Record one watermark sample: remember `earliest` as the low watermark
    /// and fold `(latest, at_ms)` into the history as `spec_update` says.
    pub fn update(&mut self, earliest: u64, latest: u64, at_ms: u64)
        ensures
            final(self).spec_capacity() == old(self).spec_capacity(),
            final(self).spec_earliest_available() == earliest,
            final(self).history_seq() == spec_update(
                old(self).history_seq(),
                old(self).spec_capacity(),
                latest,
                at_ms,
            ),
            old(self).well_formed() ==> final(self).well_formed(),
    {
        proof {
            if old(self).well_formed() {
                lemma_update_preserves_invariants(
                    old(self).history_seq(),
                    old(self).spec_capacity(),
                    latest,
                    at_ms,
                );
            }
        }
        self.earliest_available = earliest;
        let n = self.history.len();
        let sample = TrackedOffset { offset: latest, at_ms };
        if n == 0 {
            self.history.push(sample);
            proof {
                assert(self.history@ =~= spec_update(
                    old(self).history_seq(),
                    old(self).spec_capacity(),
                    latest,
                    at_ms,
                ));
            }
        } else {
            let prev = self.history[n - 1];
            if at_ms <= prev.at_ms {
                // Clock regression or duplicate poll: discard.
            } else if latest < prev.offset {
                // The watermark must not decrease: discard.
            } else if latest == prev.offset {
                // Flat segment: move the tail's instant forward in place.
                self.history.pop();
                self.history.push(sample);
                proof {
                    assert(self.history@ =~= old(self).history_seq().update(
                        old(self).history_seq().len() - 1,
                        sample,
                    ));
                }
            } else {
                self.history.push(sample);
                if self.history.len() > self.capacity {
                    self.history.remove(0);
                    proof {
                        let pushed = old(self).history_seq().push(sample);
                        assert(self.history@ =~= pushed.subrange(1, pushed.len() as int));
                    }
                }
            }
        }
    }

    /// Estimate the offset lag of a consumer at `consumed_offset`.
    pub fn estimate_offset_lag(&self, consumed_offset: u64) -> (r: PartitionOffsetsResult<u64>)
        requires
            self.well_formed(),
        ensures
            self.history_seq().len() == 0 ==> r == Err::<u64, PartitionOffsetsError>(
                PartitionOffsetsError::NotEnoughData,
            ),
            self.history_seq().len() > 0 ==> r == Ok::<u64, PartitionOffsetsError>(
                spec_offset_lag(self.history_seq(), consumed_offset),
            ),
    {
        let n = self.history.len();
        if n == 0 {
            return Err(PartitionOffsetsError::NotEnoughData);
        }
        let latest = self.history[n - 1].offset;
        if consumed_offset > latest {
            Ok(0)
        } else {
            Ok(latest - consumed_offset)
        }
    }

    /// Estimate the time lag, in milliseconds, of a consumer that committed
    /// `consumed_offset` at instant `consumed_at_ms`.
    pub fn estimate_time_lag(&self, consumed_offset: u64, consumed_at_ms: u64) -> (r:
        PartitionOffsetsResult<u64>)
        requires
            self.well_formed(),
        ensures
            self.history_seq().len() == 0 ==> r == Err::<u64, PartitionOffsetsError>(
                PartitionOffsetsError::NotEnoughData,
            ),
            self.history_seq().len() > 0 ==> (r matches Ok(v) && v == spec_time_lag(
                self.history_seq(),
                consumed_offset,
                consumed_at_ms,
            )),
    {
        let ghost h = self.history@;
        let n = self.history.len();
        if n == 0 {
            return Err(PartitionOffsetsError::NotEnoughData);
        }
        let last = self.history[n - 1];
        if consumed_offset >= last.offset {
            return Ok(0);
        }
        let head = self.history[0];
        if consumed_offset < head.offset {
            // Below the tracked window: report the full span to the tail.
            if last.at_ms >= consumed_at_ms {
                return Ok(last.at_ms - consumed_at_ms);
            } else {
                return Ok(0);
            }
        }
        // head.offset <= consumed_offset < last.offset: find the first entry
        // above the consumed offset.
        let mut j: usize = 0;
        while j < n && self.history[j].offset <= consumed_offset
            invariant
                h == self.history@,
                n == h.len(),
                0 <= j <= n,
                forall|k: int| 0 <= k < j ==> h[k].offset <= consumed_offset,
            decreases n - j,
        {
            j += 1;
        }
        proof {
            assert(h[n - 1].offset > consumed_offset);
            assert(j < n);
            assert(h[0].offset <= consumed_offset);
            assert(j >= 1);
            lemma_first_above_matches(h, consumed_offset, j as int);
        }
        let a = self.history[j - 1];
        let b = self.history[j];
        proof {
            assert(a.at_ms < b.at_ms);
            assert(a.offset <= b.offset);
            assert(a.offset <= consumed_offset);
            assert(b.offset > consumed_offset);
        }
        let dt = b.at_ms - a.at_ms;
        let dofs = consumed_offset - a.offset;
        let denom = b.offset - a.offset;
        proof {
            assert(1 <= denom);
            lemma_mul_bound(dt as int, dofs as int, u64::MAX as int, u64::MAX as int);
            lemma_mul_div_le(dt as int, dofs as int, denom as int);
        }
        let q128: u128 = (dt as u128) * (dofs as u128) / (denom as u128);
        let q: u64 = q128 as u64;
        let t_est = a.at_ms + q;
        proof {
            assert(t_est <= b.at_ms);
            if (j as int) < n - 1 {
                assert(b.at_ms < last.at_ms);
            }
            assert(t_est <= last.at_ms);
        }
        Ok(last.at_ms - t_est)
    }

    /// The oldest tracked offset still in history.
    pub fn earliest_tracked_offset(&self) -> (r: PartitionOffsetsResult<TrackedOffset>)
        ensures
            self.history_seq().len() == 0 ==> r == Err::<TrackedOffset, PartitionOffsetsError>(
                PartitionOffsetsError::NotEnoughData,
            ),
            self.history_seq().len() > 0 ==> r == Ok::<TrackedOffset, PartitionOffsetsError>(
                self.history_seq()[0],
            ),
    {
        if self.history.len() == 0 {
            Err(PartitionOffsetsError::NotEnoughData)
        } else {
            Ok(self.history[0])
        }
    }

    /// The most recent tracked offset.
    pub fn latest_tracked_offset(&self) -> (r: PartitionOffsetsResult<TrackedOffset>)
        ensures
            self.history_seq().len() == 0 ==> r == Err::<TrackedOffset, PartitionOffsetsError>(
                PartitionOffsetsError::NotEnoughData,
            ),
            self.history_seq().len() > 0 ==> r == Ok::<TrackedOffset, PartitionOffsetsError>(
                self.history_seq().last(),
            ),
    {
        let n = self.history.len();
        if n == 0 {
            Err(PartitionOffsetsError::NotEnoughData)
        } else {
            Ok(self.history[n - 1])
        }
    }

    /// The earliest offset still available on the partition (the low
    /// watermark of the most recent sample).
    pub fn earliest_available_offset(&self) -> (r: PartitionOffsetsResult<u64>)
        ensures
            self.history_seq().len() == 0 ==> r == Err::<u64, PartitionOffsetsError>(
                PartitionOffsetsError::NotEnoughData,
            ),
            self.history_seq().len() > 0 ==> r == Ok::<u64, PartitionOffsetsError>(
                self.spec_earliest_available(),
            ),
    {
        if self.history.len() == 0 {
            Err(PartitionOffsetsError::NotEnoughData)
        } else {
            Ok(self.earliest_available)
        }
    }

    /// The latest offset available on the partition: the tail watermark.
    pub fn latest_available_offset(&self) -> (r: PartitionOffsetsResult<u64>)
        ensures
            self.history_seq().len() == 0 ==> r == Err::<u64, PartitionOffsetsError>(
                PartitionOffsetsError::NotEnoughData,
            ),
            self.history_seq().len() > 0 ==> r == Ok::<u64, PartitionOffsetsError>(
                self.history_seq().last().offset,
            ),
    {
        let n = self.history.len();
        if n == 0 {
            Err(PartitionOffsetsError::NotEnoughData)
        } else {
            Ok(self.history[n - 1].offset)
        }
    }

    /// How full the history is, as a percentage of its capacity.
    pub fn usage_percent(&self) -> (r: u64)
        requires
            self.well_formed(),
        ensures
            r == 100 * self.history_seq().len() / self.spec_capacity(),
            r <= 100,
    {
        let len = self.history.len();
        proof {
            lemma_mul_div_le(100, len as int, self.capacity as int);
            lemma_mul_bound(100, len as int, 100, usize::MAX as int);
        }
        let p: u128 = 100u128 * (len as u128) / (self.capacity as u128);
        p as u64
    }
}

/// Law: a history that satisfies the estimator's invariants still satisfies
/// them after any watermark sample is folded in — the history stays
/// monotonic and never exceeds its capacity.
pub proof fn lemma_update_preserves_invariants(
    h: Seq<TrackedOffset>,
    cap: nat,
    latest: u64,
    at_ms: u64,
)
    requires
        1 <= cap,
        h.len() <= cap,
        monotonic_history(h),
    ensures
        spec_update(h, cap, latest, at_ms).len() <= cap,
        monotonic_history(spec_update(h, cap, latest, at_ms)),
{
    let h2 = spec_update(h, cap, latest, at_ms);
    if h.len() == 0 {
        assert(monotonic_history(h2));
    } else {
        let prev = h.last();
        if at_ms <= prev.at_ms || latest < prev.offset {
            assert(h2 == h);
        } else if latest == prev.offset {
            let sample = TrackedOffset { offset: latest, at_ms };
            assert forall|i: int, j: int|
                #![trigger h2[i], h2[j]]
                0 <= i < j < h2.len() implies h2[i].offset <= h2[j].offset && h2[i].at_ms
                < h2[j].at_ms by {
                if j < h.len() - 1 {
                    assert(h2[i] == h[i] && h2[j] == h[j]);
                } else {
                    assert(h2[j] == sample);
                    assert(h[i].offset <= h[h.len() - 1].offset);
                    assert(h[i].at_ms <= prev.at_ms);
                }
            }
        } else {
            let sample = TrackedOffset { offset: latest, at_ms };
            let pushed = h.push(sample);
            assert forall|i: int, j: int|
                #![trigger pushed[i], pushed[j]]
                0 <= i < j < pushed.len() implies pushed[i].offset <= pushed[j].offset
                && pushed[i].at_ms < pushed[j].at_ms by {
                if j < h.len() {
                    assert(pushed[i] == h[i] && pushed[j] == h[j]);
                } else {
                    assert(pushed[j] == sample);
                    if i < h.len() - 1 {
                        assert(h[i].offset <= prev.offset && h[i].at_ms < prev.at_ms);
                    }
                }
            }
            if pushed.len() > cap {
                let evicted = pushed.subrange(1, pushed.len() as int);
                assert forall|i: int, j: int|
                    #![trigger evicted[i], evicted[j]]
                    0 <= i < j < evicted.len() implies evicted[i].offset <= evicted[j].offset
                    && evicted[i].at_ms < evicted[j].at_ms by {
                    assert(evicted[i] == pushed[i + 1] && evicted[j] == pushed[j + 1]);
                }
            }
        }
    }
}

/// Law: neither estimate can be negative. The offset lag is an unsigned
/// count, and the time lag saturates at zero in every branch.
pub proof fn lemma_lag_nonnegative(h: Seq<TrackedOffset>, c: u64, c_at: u64)
    ensures
        spec_offset_lag(h, c) >= 0,
        spec_time_lag(h, c, c_at) >= 0,
{
}

/// Law: a consumer at or past the latest tracked offset has zero lag, in
/// offsets and in time alike.
pub proof fn lemma_lag_saturation(h: Seq<TrackedOffset>, c: u64, c_at: u64)
    requires
        h.len() > 0,
        c >= h.last().offset,
    ensures
        spec_offset_lag(h, c) == 0,
        spec_time_lag(h, c, c_at) == 0,
{
}

/// Law: folding the same sample into the history twice leaves exactly the
/// state the first fold produced.
pub proof fn lemma_update_idempotent(h: Seq<TrackedOffset>, cap: nat, latest: u64, at_ms: u64)
    requires
        1 <= cap,
        h.len() <= cap,
        monotonic_history(h),
    ensures
        spec_update(spec_update(h, cap, latest, at_ms), cap, latest, at_ms) == spec_update(
            h,
            cap,
            latest,
            at_ms,
        ),
{
    let h1 = spec_update(h, cap, latest, at_ms);
    if h.len() == 0 {
        assert(h1.last() == TrackedOffset { offset: latest, at_ms });
        assert(spec_update(h1, cap, latest, at_ms) == h1);
    } else {
        let prev = h.last();
        if at_ms <= prev.at_ms || latest < prev.offset {
            assert(h1 == h);
        } else if latest == prev.offset {
            assert(h1.last() == TrackedOffset { offset: latest, at_ms });
            assert(spec_update(h1, cap, latest, at_ms) == h1);
        } else {
            let pushed = h.push(TrackedOffset { offset: latest, at_ms });
            assert(pushed.last() == TrackedOffset { offset: latest, at_ms });
            if pushed.len() > cap {
                assert(h1 == pushed.subrange(1, pushed.len() as int));
                assert(h1.len() > 0);
                assert(h1.last() == pushed[pushed.len() - 1]);
            }
            assert(h1.last() == TrackedOffset { offset: latest, at_ms });
            assert(spec_update(h1, cap, latest, at_ms) == h1);
        }
    }
}

/// The index `first_above` names is exactly the one an in-order scan stops
/// at: everything before it is at or below `c`, and it is past `c` itself
/// unless the scan ran off the end.
proof fn lemma_first_above_matches(h: Seq<TrackedOffset>, c: u64, j: int)
    requires
        0 <= j <= h.len(),
        forall|k: int| 0 <= k < j ==> h[k].offset <= c,
        j == h.len() || h[j].offset > c,
    ensures
        first_above(h, c) == j,
    decreases h.len(),
{
    if h.len() == 0 {
    } else if h[0].offset > c {
        assert(j == 0);
    } else {
        assert(j >= 1);
        let rest = h.drop_first();
        assert forall|k: int| 0 <= k < j - 1 implies rest[k].offset <= c by {
            assert(rest[k] == h[k + 1]);
        }
        if j < h.len() {
            assert(rest[j - 1] == h[j]);
        }
        lemma_first_above_matches(rest, c, j - 1);
    }
}

/// `a * b / d` cannot exceed `a` when `b` is at most `d`.
proof fn lemma_mul_div_le(a: int, b: int, d: int)
    requires
        0 <= a,
        0 <= b,
        b <= d,
        1 <= d,
    ensures
        a * b / d <= a,
{
    lemma_mul_inequality(b, d, a);
    assert(a * b <= a * d);
    lemma_div_is_ordered(a * b, a * d, d);
    lemma_div_multiples_vanish(a, d);
    assert(a * d == d * a);
    assert(a * d / d == a);
}

/// A product of bounded non-negative factors is bounded by the product of
/// the bounds.
proof fn lemma_mul_bound(a: int, b: int, m1: int, m2: int)
    by (nonlinear_arith)
    requires
        0 <= a <= m1,
        0 <= b <= m2,
    ensures
        a * b <= m1 * m2,
{
}

} // verus!
