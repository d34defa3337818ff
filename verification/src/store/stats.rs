use std::time::Duration;
use vstd::prelude::*;

use super::clock::{duration_as_nanos, duration_nanos};

verus! {

/// The number of histogram buckets.
pub const HISTOGRAM_BUCKETS: usize = 17;

/// The upper bound of each histogram bucket, in nanoseconds
/// (50 µs up to 10 s).
pub const HISTOGRAM_BUCKET_UPPER_BOUNDS_NANOS: [u64; 17] = [
    50_000,
    100_000,
    250_000,
    500_000,
    1_000_000,
    2_500_000,
    5_000_000,
    10_000_000,
    25_000_000,
    50_000_000,
    100_000_000,
    250_000_000,
    500_000_000,
    1_000_000_000,
    2_500_000_000,
    5_000_000_000,
    10_000_000_000,
];

/// Counters of the tracker's work, for `/metrics`.
pub struct TrackerStats {
    pub announce_count: u64,
    pub nochange_count: u64,
    pub cache_hit_count: u64,
    pub req_duration_sum_ms: i64,
    pub req_duration_sum_us: i64,
    pub histogram_buckets: [u64; 17],
    pub histogram_sum_us: u64,
    pub histogram_count: u64,
    pub sweep_last_us: u64,
    pub sweep_sum_us: u64,
    pub sweep_count: u64,
    pub sweep_visited: u64,
    pub sweep_removed: u64,
    pub sweep_orphans_removed: u64,
    pub stripe_index_repaired: u64,
    pub totals_refresh_last_us: u64,
}

/// Snapshot of GC sweep counters for `/metrics`.
pub struct SweepStats {
    pub last_duration_us: u64,
    pub duration_sum_us: u64,
    pub count: u64,
    pub visited: u64,
    pub removed: u64,
    pub orphans_removed: u64,
    pub index_repaired: u64,
    pub totals_refresh_last_us: u64,
}

/// `a + b`, wrapping around at 2^64 as the counters do.
pub open spec fn wrap_u64(a: u64, b: u64) -> u64 {
    vstd::wrapping::u64_specs::wrapping_add(a, b)
}

/// `a + b`, wrapping around at 2^64 as the signed counters do.
pub open spec fn wrap_i64(a: i64, b: i64) -> i64 {
    vstd::wrapping::i64_specs::wrapping_add(a, b)
}

/// `x`, or the largest `i64` when it does not fit.
pub open spec fn clamp_i64(x: u128) -> i64 {
    if x > i64::MAX as u128 {
        i64::MAX
    } else {
        x as i64
    }
}

/// `x`, or the largest `u64` when it does not fit.
pub open spec fn clamp_u64(x: u128) -> u64 {
    if x > u64::MAX as u128 {
        u64::MAX
    } else {
        x as u64
    }
}

fn saturate_i64(x: u128) -> (r: i64)
    ensures
        r == clamp_i64(x),
{
    if x > i64::MAX as u128 {
        i64::MAX
    } else {
        x as i64
    }
}

fn saturate_u64(x: u128) -> (r: u64)
    ensures
        r == clamp_u64(x),
{
    if x > u64::MAX as u128 {
        u64::MAX
    } else {
        x as u64
    }
}

/// The histogram after one more request of `nanos` nanoseconds: every
/// bucket whose upper bound it does not exceed counts one more.
pub open spec fn histogram_step(buckets: Seq<u64>, nanos: u128) -> Seq<u64> {
    Seq::new(
        17,
        |i: int|
            if nanos <= HISTOGRAM_BUCKET_UPPER_BOUNDS_NANOS@[i] {
                wrap_u64(buckets[i], 1)
            } else {
                buckets[i]
            },
    )
}

/// The histogram buckets after one more request of `nanos` nanoseconds.
pub open spec fn histogram_after(buckets: [u64; 17], nanos: u128) -> Seq<u64> {
    histogram_step(buckets@, nanos)
}

/// The histogram buckets after requests of the durations `nanos`, in turn.
pub open spec fn histogram_sequence(buckets: Seq<u64>, nanos: Seq<u128>) -> Seq<u64>
    decreases nanos.len(),
{
    if nanos.len() == 0 {
        buckets
    } else {
        histogram_step(histogram_sequence(buckets, nanos.drop_last()), nanos.last())
    }
}

/// How many of the durations are at most `bound`.
pub open spec fn count_within(nanos: Seq<u128>, bound: u64) -> nat
    decreases nanos.len(),
{
    if nanos.len() == 0 {
        0
    } else {
        count_within(nanos.drop_last(), bound) + if nanos.last() <= bound {
            1nat
        } else {
            0nat
        }
    }
}

/// Fewer durations are within a smaller bound, and none are counted twice.
proof fn lemma_count_within_monotone(nanos: Seq<u128>, low: u64, high: u64)
    requires
        low <= high,
    ensures
        count_within(nanos, low) <= count_within(nanos, high),
        count_within(nanos, high) <= nanos.len(),
    decreases nanos.len(),
{
    if nanos.len() > 0 {
        lemma_count_within_monotone(nanos.drop_last(), low, high);
    }
}

/// Seventeen empty buckets.
pub open spec fn empty_histogram() -> Seq<u64> {
    Seq::new(17, |i: int| 0u64)
}

/// Starting from empty buckets, after requests of the durations `nanos`
/// (fewer than 2^64 of them) each bucket counts the requests within its
/// bound, so the buckets grow with their bounds and none exceeds the count.
pub proof fn law_histogram_counts_requests(nanos: Seq<u128>)
    requires
        nanos.len() < 0x1_0000_0000_0000_0000,
    ensures
        histogram_sequence(empty_histogram(), nanos).len() == 17,
        forall|i: int|
            0 <= i < 17 ==> #[trigger] histogram_sequence(empty_histogram(), nanos)[i]
                == count_within(nanos, HISTOGRAM_BUCKET_UPPER_BOUNDS_NANOS@[i]),
        forall|i: int, j: int|
            0 <= i <= j < 17 ==> #[trigger] histogram_sequence(empty_histogram(), nanos)[i]
                <= #[trigger] histogram_sequence(empty_histogram(), nanos)[j]
                <= nanos.len(),
    decreases nanos.len(),
{
    let zero = empty_histogram();
    let h = histogram_sequence(zero, nanos);
    if nanos.len() > 0 {
        law_histogram_counts_requests(nanos.drop_last());
        let prev = histogram_sequence(zero, nanos.drop_last());
        assert forall|i: int| 0 <= i < 17 implies #[trigger] h[i] == count_within(
            nanos,
            HISTOGRAM_BUCKET_UPPER_BOUNDS_NANOS@[i],
        ) by {
            lemma_count_within_monotone(nanos.drop_last(), 0, HISTOGRAM_BUCKET_UPPER_BOUNDS_NANOS@[i]);
        }
    }
    assert forall|i: int, j: int| 0 <= i <= j < 17 implies #[trigger] h[i] <= #[trigger] h[j] <= nanos.len() by {
        assert(HISTOGRAM_BUCKET_UPPER_BOUNDS_NANOS@[i] <= HISTOGRAM_BUCKET_UPPER_BOUNDS_NANOS@[j]);
        lemma_count_within_monotone(
            nanos,
            HISTOGRAM_BUCKET_UPPER_BOUNDS_NANOS@[i],
            HISTOGRAM_BUCKET_UPPER_BOUNDS_NANOS@[j],
        );
    }
}

/// The counters, but for the histogram buckets, after announces of the
/// durations `nanos` (in nanoseconds), in turn.
pub open spec fn announce_sequence(start: TrackerStats, nanos: Seq<u128>) -> TrackerStats
    decreases nanos.len(),
{
    if nanos.len() == 0 {
        start
    } else {
        announce_sequence(start, nanos.drop_last()).after_announce(nanos.last())
    }
}

/// The durations' whole microseconds, added up.
pub open spec fn sum_micros(nanos: Seq<u128>) -> nat
    decreases nanos.len(),
{
    if nanos.len() == 0 {
        0
    } else {
        sum_micros(nanos.drop_last()) + (nanos.last() / 1000) as nat
    }
}

/// A prefix adds up to no more than the whole.
proof fn lemma_sum_micros_prefix(nanos: Seq<u128>)
    requires
        nanos.len() > 0,
    ensures
        sum_micros(nanos.drop_last()) <= sum_micros(nanos),
        nanos.last() / 1000 <= sum_micros(nanos),
{
}

/// From zeroed counters, after announces of the durations `nanos` (at most
/// `u64::MAX` of them, adding up to at most `u64::MAX` microseconds), the
/// announce count and the histogram count are the number of announces and
/// the histogram sum is their microseconds added up.
pub proof fn law_histogram_count_and_sum(start: TrackerStats, nanos: Seq<u128>)
    requires
        start.is_zeroed(),
        nanos.len() <= u64::MAX,
        sum_micros(nanos) <= u64::MAX,
    ensures
        announce_sequence(start, nanos).announce_count == nanos.len(),
        announce_sequence(start, nanos).histogram_count == nanos.len(),
        announce_sequence(start, nanos).histogram_sum_us == sum_micros(nanos),
    decreases nanos.len(),
{
    if nanos.len() > 0 {
        lemma_sum_micros_prefix(nanos);
        law_histogram_count_and_sum(start, nanos.drop_last());
    }
}

impl TrackerStats {
    /// Every counter is zero.
    pub open spec fn is_zeroed(self) -> bool {
        &&& self.announce_count == 0
        &&& self.nochange_count == 0
        &&& self.cache_hit_count == 0
        &&& self.req_duration_sum_ms == 0
        &&& self.req_duration_sum_us == 0
        &&& forall|i: int| 0 <= i < 17 ==> self.histogram_buckets@[i] == 0
        &&& self.histogram_sum_us == 0
        &&& self.histogram_count == 0
        &&& self.sweep_last_us == 0
        &&& self.sweep_sum_us == 0
        &&& self.sweep_count == 0
        &&& self.sweep_visited == 0
        &&& self.sweep_removed == 0
        &&& self.sweep_orphans_removed == 0
        &&& self.stripe_index_repaired == 0
        &&& self.totals_refresh_last_us == 0
    }

    /// All counters at zero.
    pub fn new() -> (stats: TrackerStats)
        ensures
            stats.is_zeroed(),
    {
        TrackerStats {
            announce_count: 0,
            nochange_count: 0,
            cache_hit_count: 0,
            req_duration_sum_ms: 0,
            req_duration_sum_us: 0,
            histogram_buckets: [0u64; 17],
            histogram_sum_us: 0,
            histogram_count: 0,
            sweep_last_us: 0,
            sweep_sum_us: 0,
            sweep_count: 0,
            sweep_visited: 0,
            sweep_removed: 0,
            sweep_orphans_removed: 0,
            stripe_index_repaired: 0,
            totals_refresh_last_us: 0,
        }
    }

    /// Count one announce that took `duration`.
    pub fn record_announce(&mut self, duration: Duration)
        ensures
            *final(self) == (TrackerStats {
                histogram_buckets: final(self).histogram_buckets,
                ..old(self).after_announce(duration_nanos(duration))
            }),
            final(self).histogram_buckets@ == histogram_after(old(self).histogram_buckets, duration_nanos(duration)),
    {
        let nanos = duration_as_nanos(&duration);
        self.record_announce_nanos(nanos);
    }

    /// The counters after one announce that took `nanos` nanoseconds: the
    /// announce count, the duration sums in milliseconds and microseconds
    /// (each clamped to `i64`), and the histogram but for its buckets (see
    /// `histogram_after`).
    pub open spec fn after_announce(self, nanos: u128) -> TrackerStats {
        let us = nanos / 1000;
        let ms = nanos / 1_000_000;
        TrackerStats {
            announce_count: wrap_u64(self.announce_count, 1),
            req_duration_sum_ms: wrap_i64(self.req_duration_sum_ms, clamp_i64(ms)),
            req_duration_sum_us: wrap_i64(self.req_duration_sum_us, clamp_i64(us)),
            ..self.after_histogram(nanos)
        }
    }

    /// The counters after the histogram records one request of `nanos`
    /// nanoseconds, but for the buckets (see `histogram_after`).
    pub open spec fn after_histogram(self, nanos: u128) -> TrackerStats {
        TrackerStats {
            histogram_sum_us: wrap_u64(self.histogram_sum_us, clamp_u64(nanos / 1000)),
            histogram_count: wrap_u64(self.histogram_count, 1),
            ..self
        }
    }

    /// Count one announce that took `nanos` nanoseconds.
    pub fn record_announce_nanos(&mut self, nanos: u128)
        ensures
            *final(self) == (TrackerStats {
                histogram_buckets: final(self).histogram_buckets,
                ..old(self).after_announce(nanos)
            }),
            final(self).histogram_buckets@ == histogram_after(old(self).histogram_buckets, nanos),
    {
        let us = saturate_i64(nanos / 1000);
        let ms = saturate_i64(nanos / 1_000_000);
        self.announce_count = self.announce_count.wrapping_add(1);
        self.req_duration_sum_ms = self.req_duration_sum_ms.wrapping_add(ms);
        self.req_duration_sum_us = self.req_duration_sum_us.wrapping_add(us);
        self.record_histogram(nanos);
    }

    /// Count one request of `nanos` nanoseconds in the histogram.
    fn record_histogram(&mut self, nanos: u128)
        ensures
            *final(self) == (TrackerStats {
                histogram_buckets: final(self).histogram_buckets,
                ..old(self).after_histogram(nanos)
            }),
            final(self).histogram_buckets@ == histogram_after(old(self).histogram_buckets, nanos),
    {
        let us = saturate_u64(nanos / 1000);
        self.histogram_sum_us = self.histogram_sum_us.wrapping_add(us);
        self.histogram_count = self.histogram_count.wrapping_add(1);
        let ghost counted = *self;
        assert(counted == (TrackerStats {
            histogram_buckets: counted.histogram_buckets,
            ..old(self).after_histogram(nanos)
        }));
        let mut i: usize = 0;
        while i < HISTOGRAM_BUCKETS
            invariant
                i <= 17,
                counted == (TrackerStats {
                    histogram_buckets: counted.histogram_buckets,
                    ..old(self).after_histogram(nanos)
                }),
                *self == (TrackerStats { histogram_buckets: self.histogram_buckets, ..counted }),
                forall|j: int| 0 <= j < i ==> self.histogram_buckets@[j] == histogram_after(old(self).histogram_buckets, nanos)[j],
                forall|j: int| i <= j < 17 ==> self.histogram_buckets@[j] == old(self).histogram_buckets@[j],
            decreases 17 - i,
        {
            if nanos <= HISTOGRAM_BUCKET_UPPER_BOUNDS_NANOS[i] as u128 {
                self.histogram_buckets[i] = self.histogram_buckets[i].wrapping_add(1);
            }
            i += 1;
        }
        assert(self.histogram_buckets@ =~= histogram_after(old(self).histogram_buckets, nanos));
    }

    /// Count one announce answered from the cache.
    pub fn record_cache_hit(&mut self)
        ensures
            *final(self) == (TrackerStats {
                cache_hit_count: wrap_u64(old(self).cache_hit_count, 1),
                ..*old(self)
            }),
    {
        self.cache_hit_count = self.cache_hit_count.wrapping_add(1);
    }

    /// Count one announce that changed neither swarm count.
    pub fn record_nochange(&mut self)
        ensures
            *final(self) == (TrackerStats {
                nochange_count: wrap_u64(old(self).nochange_count, 1),
                ..*old(self)
            }),
    {
        self.nochange_count = self.nochange_count.wrapping_add(1);
    }

    /// The counters after a sweep that took `nanos` nanoseconds, visited
    /// `visited` index keys, removed `removed` torrents and dropped `orphans`
    /// index keys without a torrent.
    pub open spec fn after_sweep(
        self,
        nanos: u128,
        visited: usize,
        removed: usize,
        orphans: usize,
    ) -> TrackerStats {
        let us = clamp_u64(nanos / 1000);
        TrackerStats {
            sweep_last_us: us,
            sweep_sum_us: wrap_u64(self.sweep_sum_us, us),
            sweep_count: wrap_u64(self.sweep_count, 1),
            sweep_visited: wrap_u64(self.sweep_visited, visited as u64),
            sweep_removed: wrap_u64(self.sweep_removed, removed as u64),
            sweep_orphans_removed: wrap_u64(self.sweep_orphans_removed, orphans as u64),
            ..self
        }
    }

    /// Record one stripe sweep that took `duration`.
    pub fn record_sweep(&mut self, duration: Duration, visited: usize, removed: usize, orphans: usize)
        ensures
            *final(self) == old(self).after_sweep(duration_nanos(duration), visited, removed, orphans),
    {
        let nanos = duration_as_nanos(&duration);
        self.record_sweep_nanos(nanos, visited, removed, orphans);
    }

    /// Record one stripe sweep that took `nanos` nanoseconds.
    pub fn record_sweep_nanos(&mut self, nanos: u128, visited: usize, removed: usize, orphans: usize)
        ensures
            *final(self) == old(self).after_sweep(nanos, visited, removed, orphans),
    {
        let us = saturate_u64(nanos / 1000);
        self.sweep_last_us = us;
        self.sweep_sum_us = self.sweep_sum_us.wrapping_add(us);
        self.sweep_count = self.sweep_count.wrapping_add(1);
        self.sweep_visited = self.sweep_visited.wrapping_add(visited as u64);
        self.sweep_removed = self.sweep_removed.wrapping_add(removed as u64);
        self.sweep_orphans_removed = self.sweep_orphans_removed.wrapping_add(orphans as u64);
    }

    /// Record how long the last peer-totals refresh took.
    pub fn record_totals_refresh(&mut self, duration: Duration)
        ensures
            *final(self) == (TrackerStats {
                totals_refresh_last_us: clamp_u64(duration_nanos(duration) / 1000),
                ..*old(self)
            }),
    {
        let nanos = duration_as_nanos(&duration);
        self.record_totals_refresh_nanos(nanos);
    }

    /// Record that the last peer-totals refresh took `nanos` nanoseconds.
    pub fn record_totals_refresh_nanos(&mut self, nanos: u128)
        ensures
            *final(self) == (TrackerStats {
                totals_refresh_last_us: clamp_u64(nanos / 1000),
                ..*old(self)
            }),
    {
        self.totals_refresh_last_us = saturate_u64(nanos / 1000);
    }

    /// Count `repaired` torrents put back into the stripe index.
    pub fn record_index_repair(&mut self, repaired: usize)
        ensures
            *final(self) == (TrackerStats {
                stripe_index_repaired: wrap_u64(old(self).stripe_index_repaired, repaired as u64),
                ..*old(self)
            }),
    {
        self.stripe_index_repaired = self.stripe_index_repaired.wrapping_add(repaired as u64);
    }

    /// The sweep counters.
    pub fn sweep_snapshot(&self) -> (sweep: SweepStats)
        ensures
            sweep == (SweepStats {
                last_duration_us: self.sweep_last_us,
                duration_sum_us: self.sweep_sum_us,
                count: self.sweep_count,
                visited: self.sweep_visited,
                removed: self.sweep_removed,
                orphans_removed: self.sweep_orphans_removed,
                index_repaired: self.stripe_index_repaired,
                totals_refresh_last_us: self.totals_refresh_last_us,
            }),
    {
        SweepStats {
            last_duration_us: self.sweep_last_us,
            duration_sum_us: self.sweep_sum_us,
            count: self.sweep_count,
            visited: self.sweep_visited,
            removed: self.sweep_removed,
            orphans_removed: self.sweep_orphans_removed,
            index_repaired: self.stripe_index_repaired,
            totals_refresh_last_us: self.totals_refresh_last_us,
        }
    }

    /// The no-change, cache-hit and announce counts and the duration sums
    /// in milliseconds and microseconds.
    pub fn snapshot(&self) -> (counts: (u64, u64, u64, i64, i64))
        ensures
            counts == (
                self.nochange_count,
                self.cache_hit_count,
                self.announce_count,
                self.req_duration_sum_ms,
                self.req_duration_sum_us,
            ),
    {
        (
            self.nochange_count,
            self.cache_hit_count,
            self.announce_count,
            self.req_duration_sum_ms,
            self.req_duration_sum_us,
        )
    }

    /// The histogram's duration sum in microseconds, its count and its buckets.
    pub fn histogram_snapshot(&self) -> (histogram: (u64, u64, [u64; 17]))
        ensures
            histogram == (self.histogram_sum_us, self.histogram_count, self.histogram_buckets),
    {
        (self.histogram_sum_us, self.histogram_count, self.histogram_buckets)
    }
}

impl Default for TrackerStats {
    fn default() -> (stats: TrackerStats)
        ensures
            stats.is_zeroed(),
    {
        TrackerStats::new()
    }
}

} // verus!
