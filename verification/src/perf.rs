//! Wall-clock-free counters for the render loop, and the observability layer
//! beside them.
//!
//! Counters are exact and are what a test asserts on: "an idle loop painted no
//! frames" holds on any hardware. The histograms, the ring of slow operations
//! and the per-plugin table are wall-clock, so they are display and logging
//! only.
use vstd::prelude::*;
use vstd::relations::total_ordering;
use std::time::Duration;
use crate::keyed::lookup;
use crate::ranking::{insertion_point, lemma_insertion_point, lemma_sort_push};
use crate::results::{lemma_text_lt_strict, lemma_text_lt_trans, text_less, text_lt};
use crate::text::{decimal, decimal_text, join_with, push_str, to_chars};

verus! {

/// `Duration::as_micros`: the whole microseconds a duration holds.
pub uninterp spec fn whole_micros(d: Duration) -> u128;

/// `Duration::as_millis`: the whole milliseconds a duration holds.
pub uninterp spec fn whole_millis(d: Duration) -> u128;

/// The whole microseconds of `d`.
#[verifier::external_body]
fn as_micros(d: Duration) -> (us: u128)
    ensures
        us == whole_micros(d),
{
    d.as_micros()
}

/// The whole milliseconds of `d`.
#[verifier::external_body]
fn as_millis(d: Duration) -> (ms: u128)
    ensures
        ms == whole_millis(d),
{
    d.as_millis()
}

/// A count held as a `u64`, saturated at `u64::MAX`.
pub open spec fn saturate(n: u128) -> u64 {
    if n > u64::MAX { u64::MAX } else { n as u64 }
}

/// Whole microseconds in a duration, saturated at `u64::MAX`.
pub open spec fn duration_micros(d: Duration) -> u64 {
    saturate(whole_micros(d))
}

/// Whole milliseconds in a duration, saturated at `u64::MAX`.
pub open spec fn duration_millis(d: Duration) -> u64 {
    saturate(whole_millis(d))
}

fn saturated(n: u128) -> (r: u64)
    ensures
        r == saturate(n),
{
    if n > u64::MAX as u128 { u64::MAX } else { n as u64 }
}

/// Whole microseconds in a duration, saturated to fit a `u64`.
pub fn micros(d: Duration) -> (us: u64)
    ensures
        us == duration_micros(d),
{
    saturated(as_micros(d))
}

/// Whole milliseconds in a duration, saturated to fit a `u64`.
fn millis(d: Duration) -> (ms: u64)
    ensures
        ms == duration_millis(d),
{
    saturated(as_millis(d))
}

/// The sum, or `u64::MAX` when it would not fit.
pub open spec fn sat_add(a: u64, b: u64) -> u64 {
    if a + b > u64::MAX {
        u64::MAX
    } else {
        (a + b) as u64
    }
}

/// The difference, or zero when it would be negative.
pub open spec fn sat_sub(a: u64, b: u64) -> u64 {
    if a >= b {
        (a - b) as u64
    } else {
        0
    }
}

pub open spec fn max_u64(a: u64, b: u64) -> u64 {
    if a >= b {
        a
    } else {
        b
    }
}

/// One counter per thing worth knowing about the loop.
pub struct Counters {
    /// Times round the loop, painted or not.
    pub iterations: u64,
    /// Frames actually painted.
    pub frames: u64,
    /// Frames skipped because nothing had changed.
    pub skipped: u64,
    /// Plugin render calls.
    pub renders: u64,
    /// Plugin failures, of any phase.
    pub failures: u64,
    /// Whole-VM reloads.
    pub reloads: u64,
    /// Pane renders served from a pure pane's tree cache instead of run.
    pub renders_skipped: u64,
    /// Published `thurbox.*` groups reused instead of rebuilt.
    pub groups_reused: u64,
}

impl Default for Counters {
    fn default() -> (c: Self)
        ensures
            c.read_spec() == Snapshot::zero(),
    {
        Counters {
            iterations: 0,
            frames: 0,
            skipped: 0,
            renders: 0,
            failures: 0,
            reloads: 0,
            renders_skipped: 0,
            groups_reused: 0,
        }
    }
}

impl Counters {
    /// The reading every counter gives right now.
    pub open spec fn read_spec(&self) -> Snapshot {
        Snapshot {
            iterations: self.iterations,
            frames: self.frames,
            skipped: self.skipped,
            renders: self.renders,
            failures: self.failures,
            reloads: self.reloads,
            renders_skipped: self.renders_skipped,
            groups_reused: self.groups_reused,
        }
    }

    /// Count one more. Wraps at `u64::MAX`, as an atomic add does.
    pub fn bump(counter: &mut u64)
        ensures
            *final(counter) == (if *old(counter) == u64::MAX {
                0
            } else {
                (*old(counter) + 1) as u64
            }),
    {
        *counter = counter.wrapping_add(1);
    }

    pub fn get(counter: &u64) -> (v: u64)
        ensures
            v == *counter,
    {
        *counter
    }

    /// A snapshot of every counter, for a HUD or a test.
    pub fn read(&self) -> (s: Snapshot)
        ensures
            s == self.read_spec(),
    {
        Snapshot {
            iterations: Self::get(&self.iterations),
            frames: Self::get(&self.frames),
            skipped: Self::get(&self.skipped),
            renders: Self::get(&self.renders),
            failures: Self::get(&self.failures),
            reloads: Self::get(&self.reloads),
            renders_skipped: Self::get(&self.renders_skipped),
            groups_reused: Self::get(&self.groups_reused),
        }
    }
}

/// The counters at one instant.
#[derive(Debug, Clone, Copy, PartialEq, Eq, Structural, Default)]
pub struct Snapshot {
    pub iterations: u64,
    pub frames: u64,
    pub skipped: u64,
    pub renders: u64,
    pub failures: u64,
    pub reloads: u64,
    pub renders_skipped: u64,
    pub groups_reused: u64,
}

impl Snapshot {
    pub open spec fn zero() -> Snapshot {
        Snapshot {
            iterations: 0,
            frames: 0,
            skipped: 0,
            renders: 0,
            failures: 0,
            reloads: 0,
            renders_skipped: 0,
            groups_reused: 0,
        }
    }

    /// Field by field, `self - earlier`, floored at zero.
    pub open spec fn since_spec(self, earlier: Snapshot) -> Snapshot {
        Snapshot {
            iterations: sat_sub(self.iterations, earlier.iterations),
            frames: sat_sub(self.frames, earlier.frames),
            skipped: sat_sub(self.skipped, earlier.skipped),
            renders: sat_sub(self.renders, earlier.renders),
            failures: sat_sub(self.failures, earlier.failures),
            reloads: sat_sub(self.reloads, earlier.reloads),
            renders_skipped: sat_sub(self.renders_skipped, earlier.renders_skipped),
            groups_reused: sat_sub(self.groups_reused, earlier.groups_reused),
        }
    }

    /// Difference from an earlier reading, for asserting on a window rather
    /// than on absolute totals.
    pub fn since(&self, earlier: &Snapshot) -> (d: Snapshot)
        ensures
            d == self.since_spec(*earlier),
    {
        Snapshot {
            iterations: self.iterations.saturating_sub(earlier.iterations),
            frames: self.frames.saturating_sub(earlier.frames),
            skipped: self.skipped.saturating_sub(earlier.skipped),
            renders: self.renders.saturating_sub(earlier.renders),
            failures: self.failures.saturating_sub(earlier.failures),
            reloads: self.reloads.saturating_sub(earlier.reloads),
            renders_skipped: self.renders_skipped.saturating_sub(earlier.renders_skipped),
            groups_reused: self.groups_reused.saturating_sub(earlier.groups_reused),
        }
    }
}

/// Counting a later reading against an earlier one gives exactly what was
/// bumped in between: a window is the difference of its two ends, so a test
/// never depends on what ran before it.
pub proof fn lemma_window_counts_what_happened(earlier: Snapshot, bumps: Snapshot)
    requires
        earlier.frames + bumps.frames <= u64::MAX,
        earlier.skipped + bumps.skipped <= u64::MAX,
        earlier.iterations + bumps.iterations <= u64::MAX,
    ensures
        ({
            let later = Snapshot {
                iterations: (earlier.iterations + bumps.iterations) as u64,
                frames: (earlier.frames + bumps.frames) as u64,
                skipped: (earlier.skipped + bumps.skipped) as u64,
                ..earlier
            };
            &&& later.since_spec(earlier).frames == bumps.frames
            &&& later.since_spec(earlier).skipped == bumps.skipped
            &&& later.since_spec(earlier).iterations == bumps.iterations
            &&& later.since_spec(earlier).renders == 0
        }),
{
}

/// Number of fixed histogram bounds.
pub const HISTO_BOUNDS: usize = 13;

/// Upper bound (µs) of histogram bucket `i`: powers of two from 250µs to ~1s.
/// The bucket after the last bound catches everything slower.
pub open spec fn bucket_bound(i: int) -> u64 {
    if i == 0 {
        250
    } else if i == 1 {
        500
    } else if i == 2 {
        1_000
    } else if i == 3 {
        2_000
    } else if i == 4 {
        4_000
    } else if i == 5 {
        8_000
    } else if i == 6 {
        16_000
    } else if i == 7 {
        33_000
    } else if i == 8 {
        66_000
    } else if i == 9 {
        100_000
    } else if i == 10 {
        250_000
    } else if i == 11 {
        500_000
    } else {
        1_000_000
    }
}

/// The bound of bucket `i`.
pub fn histogram_bound(i: usize) -> (b: u64)
    requires
        i < HISTO_BOUNDS,
    ensures
        b == bucket_bound(i as int),
{
    if i == 0 {
        250
    } else if i == 1 {
        500
    } else if i == 2 {
        1_000
    } else if i == 3 {
        2_000
    } else if i == 4 {
        4_000
    } else if i == 5 {
        8_000
    } else if i == 6 {
        16_000
    } else if i == 7 {
        33_000
    } else if i == 8 {
        66_000
    } else if i == 9 {
        100_000
    } else if i == 10 {
        250_000
    } else if i == 11 {
        500_000
    } else {
        1_000_000
    }
}

/// The bucket a sample of `us` lands in: the first whose bound it does not
/// exceed, or the overflow bucket.
pub open spec fn bucket_of(us: u64) -> int
    decreases 0int,
{
    bucket_from(us, 0)
}

pub open spec fn bucket_from(us: u64, i: int) -> int
    decreases HISTO_BOUNDS - i,
{
    if i >= HISTO_BOUNDS {
        HISTO_BOUNDS as int
    } else if us <= bucket_bound(i) {
        i
    } else {
        bucket_from(us, i + 1)
    }
}

/// Sum of the first `k` counts.
pub open spec fn prefix_sum(counts: Seq<u64>, k: int) -> int
    decreases k,
{
    if k <= 0 {
        0
    } else {
        prefix_sum(counts, k - 1) + counts[k - 1]
    }
}

/// What a histogram holds.
pub struct HistogramView {
    pub counts: Seq<u64>,
    pub total: u64,
    pub max_us: u64,
    pub sum_us: u64,
}

/// Fixed-bucket duration histogram — display and logging only.
#[derive(Clone, Copy, Debug)]
pub struct DurationHistogram {
    counts: [u64; 14],
    total: u64,
    max_us: u64,
    /// Exact, unlike the percentiles: what a pane's share of frame time and
    /// the per-plugin ranking are computed from.
    sum_us: u64,
}

impl View for DurationHistogram {
    type V = HistogramView;

    closed spec fn view(&self) -> HistogramView {
        HistogramView {
            counts: self.counts@,
            total: self.total,
            max_us: self.max_us,
            sum_us: self.sum_us,
        }
    }
}

impl HistogramView {
    /// The counts add up to the total, and no sample beat the max.
    pub open spec fn wf(self) -> bool {
        &&& self.counts.len() == HISTO_BOUNDS + 1
        &&& prefix_sum(self.counts, self.counts.len() as int) == self.total
    }

    pub open spec fn empty() -> HistogramView {
        HistogramView {
            counts: Seq::new((HISTO_BOUNDS + 1) as nat, |i: int| 0u64),
            total: 0,
            max_us: 0,
            sum_us: 0,
        }
    }

    /// One more sample of `us`.
    pub open spec fn record(self, us: u64) -> HistogramView {
        let idx = bucket_of(us);
        HistogramView {
            counts: self.counts.update(idx, (self.counts[idx] + 1) as u64),
            total: (self.total + 1) as u64,
            max_us: max_u64(self.max_us, us),
            sum_us: sat_add(self.sum_us, us),
        }
    }

    /// The rank a percentile asks for: `ceil(total * p / 100)`, at least one.
    pub open spec fn rank(self, p: u8) -> int {
        let x = self.total * p;
        let c = if x % 100 == 0 {
            x / 100
        } else {
            x / 100 + 1
        };
        if c < 1 {
            1
        } else {
            c
        }
    }

    /// The first bucket whose running count reaches `rank`.
    pub open spec fn reaching(self, rank: int, i: int) -> int
        decreases self.counts.len() - i,
    {
        if i >= self.counts.len() {
            self.counts.len() as int
        } else if prefix_sum(self.counts, i + 1) >= rank {
            i
        } else {
            self.reaching(rank, i + 1)
        }
    }

    /// The percentile: the upper bound of the bucket holding the rank,
    /// clamped to the max; the max itself for the overflow bucket; zero when
    /// nothing was recorded.
    pub open spec fn percentile(self, p: u8) -> u64 {
        if self.total == 0 {
            0
        } else {
            let i = self.reaching(self.rank(p), 0);
            if i < HISTO_BOUNDS {
                if bucket_bound(i) <= self.max_us {
                    bucket_bound(i)
                } else {
                    self.max_us
                }
            } else {
                self.max_us
            }
        }
    }
}

proof fn lemma_prefix_sum_update(counts: Seq<u64>, idx: int, v: u64, k: int)
    requires
        0 <= idx < counts.len(),
        0 <= k <= counts.len(),
    ensures
        prefix_sum(counts.update(idx, v), k) == prefix_sum(counts, k) + (if idx < k {
            v - counts[idx]
        } else {
            0
        }),
    decreases k,
{
    if k > 0 {
        lemma_prefix_sum_update(counts, idx, v, k - 1);
    }
}

proof fn lemma_prefix_sum_zero(n: nat, k: int)
    requires
        0 <= k <= n,
    ensures
        prefix_sum(Seq::new(n, |i: int| 0u64), k) == 0,
    decreases k,
{
    if k > 0 {
        lemma_prefix_sum_zero(n, k - 1);
    }
}

proof fn lemma_prefix_sum_mono(counts: Seq<u64>, a: int, b: int)
    requires
        0 <= a <= b <= counts.len(),
    ensures
        prefix_sum(counts, a) <= prefix_sum(counts, b),
    decreases b - a,
{
    if a < b {
        lemma_prefix_sum_mono(counts, a, b - 1);
    }
}

proof fn lemma_bucket_in_range(us: u64, i: int)
    requires
        0 <= i <= HISTO_BOUNDS,
    ensures
        i <= bucket_from(us, i) <= HISTO_BOUNDS,
    decreases HISTO_BOUNDS - i,
{
    if i < HISTO_BOUNDS && us > bucket_bound(i) {
        lemma_bucket_in_range(us, i + 1);
    }
}

impl Default for DurationHistogram {
    fn default() -> (h: Self)
        ensures
            h@ == HistogramView::empty(),
            h@.wf(),
    {
        let h = DurationHistogram { counts: [0u64; 14], total: 0, max_us: 0, sum_us: 0 };
        assert(h.counts@ =~= Seq::new((HISTO_BOUNDS + 1) as nat, |i: int| 0u64));
        proof {
            lemma_prefix_sum_zero((HISTO_BOUNDS + 1) as nat, (HISTO_BOUNDS + 1) as int);
        }
        h
    }
}

impl DurationHistogram {
    /// Record one sample.
    pub fn record(&mut self, d: Duration)
        requires
            old(self)@.wf(),
            old(self)@.total < u64::MAX,
        ensures
            final(self)@ == old(self)@.record(duration_micros(d)),
            final(self)@.wf(),
    {
        let us = micros(d);
        self.record_us(us);
    }

    /// Record one sample of `us` microseconds.
    pub fn record_us(&mut self, us: u64)
        requires
            old(self)@.wf(),
            old(self)@.total < u64::MAX,
        ensures
            final(self)@ == old(self)@.record(us),
            final(self)@.wf(),
    {
        let mut idx: usize = 0;
        while idx < HISTO_BOUNDS && us > histogram_bound(idx)
            invariant
                idx <= HISTO_BOUNDS,
                bucket_from(us, idx as int) == bucket_of(us),
            decreases HISTO_BOUNDS - idx,
        {
            idx += 1;
        }
        proof {
            lemma_bucket_in_range(us, 0);
            let c = self.counts@;
            lemma_prefix_sum_update(c, idx as int, (c[idx as int] + 1) as u64, c.len() as int);
            lemma_prefix_sum_mono(c, idx as int + 1, c.len() as int);
            lemma_prefix_sum_mono(c, 0, idx as int);
            assert(prefix_sum(c, idx as int + 1) == prefix_sum(c, idx as int) + c[idx as int]);
        }
        assert(self.counts[idx as int] <= self.total);
        self.counts[idx] = self.counts[idx].wrapping_add(1);
        self.total = self.total.wrapping_add(1);
        if us > self.max_us {
            self.max_us = us;
        }
        self.sum_us = self.sum_us.saturating_add(us);
    }

    /// Approximate percentile (0–100) as the upper bound (µs) of the bucket
    /// holding that rank, clamped to the observed max so a high percentile can
    /// never read above the max printed beside it.
    pub fn percentile_us(&self, p: u8) -> (v: u64)
        requires
            self@.wf(),
            self@.total * p <= u64::MAX,
        ensures
            v == self@.percentile(p),
            v <= self@.max_us,
    {
        if self.total == 0 {
            return 0;
        }
        let x = self.total * (p as u64);
        let mut rank = x / 100;
        if x % 100 != 0 {
            rank = rank + 1;
        }
        if rank < 1 {
            rank = 1;
        }
        assert(rank == self@.rank(p));
        let mut seen: u64 = 0;
        let mut i: usize = 0;
        while i < HISTO_BOUNDS + 1
            invariant
                self@.wf(),
                i <= HISTO_BOUNDS + 1,
                seen == prefix_sum(self@.counts, i as int),
                rank == self@.rank(p),
                self@.reaching(rank as int, i as int) == self@.reaching(rank as int, 0),
            decreases HISTO_BOUNDS + 1 - i,
        {
            proof {
                lemma_prefix_sum_mono(self@.counts, i as int + 1, self@.counts.len() as int);
            }
            seen = seen + self.counts[i];
            if seen >= rank {
                if i < HISTO_BOUNDS {
                    let b = histogram_bound(i);
                    if b <= self.max_us {
                        return b;
                    } else {
                        return self.max_us;
                    }
                }
                return self.max_us;
            }
            i += 1;
        }
        self.max_us
    }

    pub fn max_us(&self) -> (v: u64)
        ensures
            v == self@.max_us,
    {
        self.max_us
    }

    pub fn total(&self) -> (v: u64)
        ensures
            v == self@.total,
    {
        self.total
    }

    pub fn sum_us(&self) -> (v: u64)
        ensures
            v == self@.sum_us,
    {
        self.sum_us
    }

    /// Back to holding nothing.
    pub fn reset(&mut self)
        ensures
            final(self)@ == HistogramView::empty(),
            final(self)@.wf(),
    {
        *self = Self::default();
    }
}

/// An empty histogram reports zero for every percentile rather than a bucket
/// bound, and a reported percentile never reads above the max beside it.
pub proof fn lemma_percentile_never_above_max(h: HistogramView, p: u8)
    ensures
        h.percentile(p) <= h.max_us,
        h.total == 0 ==> h.percentile(p) == 0,
{
}


/// One measured slow operation: a named synchronous UI-thread op that took
/// long enough to be felt.
#[derive(Clone, Debug, PartialEq, Eq)]
pub struct SlowOp {
    pub name: &'static str,
    pub ms: u64,
    /// The plugin whose single call was the longest inside the op, when the op
    /// called any.
    pub plugin: Option<String>,
}

/// A sample lands in the ring at this threshold.
pub const SLOW_OP_RING_MS: u64 = 5;

/// And is additionally logged as a warning at this one.
pub const SLOW_OP_WARN_MS: u64 = 100;

/// How many slow operations the ring keeps.
pub const SLOW_OPS_CAP: usize = 16;

/// Fixed-capacity ring of the most recent [`SlowOp`]s (newest first on read).
#[derive(Debug)]
pub struct SlowOps {
    ops: std::collections::VecDeque<SlowOp>,
}

impl View for SlowOps {
    type V = Seq<SlowOp>;

    /// Oldest first.
    closed spec fn view(&self) -> Seq<SlowOp> {
        self.ops@
    }
}

/// The ring after one more operation: the newest is kept, and the oldest
/// leaves once the ring is full.
pub open spec fn ring_push(ops: Seq<SlowOp>, op: SlowOp) -> Seq<SlowOp> {
    if ops.len() >= SLOW_OPS_CAP {
        ops.subrange(ops.len() - (SLOW_OPS_CAP - 1), ops.len() as int).push(op)
    } else {
        ops.push(op)
    }
}

impl Default for SlowOps {
    fn default() -> (r: Self)
        ensures
            r@ == Seq::<SlowOp>::empty(),
    {
        SlowOps { ops: std::collections::VecDeque::new() }
    }
}

impl SlowOps {
    /// Never more than the capacity.
    pub open spec fn wf(&self) -> bool {
        self@.len() <= SLOW_OPS_CAP
    }

    pub fn push(&mut self, op: SlowOp)
        requires
            old(self).wf(),
        ensures
            final(self)@ == ring_push(old(self)@, op),
            final(self).wf(),
    {
        if self.ops.len() == SLOW_OPS_CAP {
            self.ops.pop_front();
        }
        self.ops.push_back(op);
    }

    /// Newest first — the HUD, the log line and the JSON all show recent ops
    /// first.
    pub fn iter_recent(&self) -> (r: Vec<&SlowOp>)
        ensures
            r@.len() == self@.len(),
            forall|i: int| 0 <= i < r@.len() ==> *r@[i] == self@[self@.len() - 1 - i],
    {
        let mut r: Vec<&SlowOp> = Vec::new();
        let n = self.ops.len();
        let mut i: usize = n;
        while i > 0
            invariant
                n == self@.len(),
                i <= n,
                r@.len() == n - i,
                forall|k: int| 0 <= k < r@.len() ==> *r@[k] == self@[n - 1 - k],
            decreases i,
        {
            i -= 1;
            r.push(&self.ops[i]);
        }
        r
    }

    pub fn is_empty(&self) -> (r: bool)
        ensures
            r == (self@.len() == 0),
    {
        self.ops.len() == 0
    }

    pub fn clear(&mut self)
        ensures
            final(self)@ == Seq::<SlowOp>::empty(),
    {
        self.ops = std::collections::VecDeque::new();
    }
}

/// The ring keeps the newest operations, at most its capacity of them, and
/// in the order they came.
pub proof fn lemma_ring_keeps_the_newest(ops: Seq<SlowOp>, op: SlowOp)
    requires
        ops.len() <= SLOW_OPS_CAP,
    ensures
        ring_push(ops, op).len() <= SLOW_OPS_CAP,
        ring_push(ops, op).last() == op,
        ring_push(ops, op).drop_last().is_suffix_of(ops),
        ops.len() < SLOW_OPS_CAP ==> ring_push(ops, op).len() == ops.len() + 1,
{
    let r = ring_push(ops, op);
    assert(r.drop_last() =~= (if ops.len() >= SLOW_OPS_CAP {
        ops.subrange(ops.len() - (SLOW_OPS_CAP - 1), ops.len() as int)
    } else {
        ops
    }));
    assert(ops.subrange(
        ops.len() - r.drop_last().len(),
        ops.len() as int,
    ) =~= r.drop_last());
}

/// Wall-clock stats for the hot paths, plus the slow-op ring.
pub struct Timings {
    /// `terminal.draw` duration per painted frame.
    pub frame: DurationHistogram,
    /// One whole loop iteration.
    pub tick: DurationHistogram,
    /// The per-frame rebuild of the published tables.
    pub republish: DurationHistogram,
    /// Recent named synchronous UI-thread operations.
    pub slow_ops: SlowOps,
}

impl Default for Timings {
    fn default() -> (t: Self)
        ensures
            t.wf(),
            t.frame@ == HistogramView::empty(),
            t.tick@ == HistogramView::empty(),
            t.republish@ == HistogramView::empty(),
            t.slow_ops@ == Seq::<SlowOp>::empty(),
    {
        Timings {
            frame: DurationHistogram::default(),
            tick: DurationHistogram::default(),
            republish: DurationHistogram::default(),
            slow_ops: SlowOps::default(),
        }
    }
}

impl Timings {
    pub open spec fn wf(&self) -> bool {
        &&& self.frame@.wf()
        &&& self.tick@.wf()
        &&& self.republish@.wf()
        &&& self.slow_ops.wf()
    }

    /// Clear per-window state after a report, so each window stands alone.
    pub fn reset_window(&mut self)
        ensures
            final(self).wf(),
            final(self).frame@ == HistogramView::empty(),
            final(self).tick@ == HistogramView::empty(),
            final(self).republish@ == HistogramView::empty(),
            final(self).slow_ops@ == Seq::<SlowOp>::empty(),
    {
        self.frame.reset();
        self.tick.reset();
        self.republish.reset();
        self.slow_ops.clear();
    }

    /// Record a named op, returning whether it crossed the warn threshold so
    /// the caller can log it.
    pub fn record_op(&mut self, name: &'static str, elapsed: Duration, plugin: Option<String>) -> (warn: bool)
        requires
            old(self).wf(),
        ensures
            final(self).wf(),
            warn == (duration_millis(elapsed) >= SLOW_OP_WARN_MS),
            final(self).slow_ops@ == (if duration_millis(elapsed) >= SLOW_OP_RING_MS {
                ring_push(
                    old(self).slow_ops@,
                    SlowOp { name, ms: duration_millis(elapsed), plugin },
                )
            } else {
                old(self).slow_ops@
            }),
            final(self).frame == old(self).frame,
            final(self).tick == old(self).tick,
            final(self).republish == old(self).republish,
    {
        let ms = millis(elapsed);
        if ms >= SLOW_OP_RING_MS {
            self.slow_ops.push(SlowOp { name, ms, plugin });
        }
        ms >= SLOW_OP_WARN_MS
    }
}

/// How long each startup phase took, and when the first frame landed.
#[derive(Default, Clone, Copy, Debug)]
pub struct Startup {
    pub config_init_ms: u64,
    pub db_open_ms: u64,
    pub theme_activate_ms: u64,
    pub extension_heal_ms: u64,
    pub heartbeat_ms: u64,
    pub ui_build_ms: u64,
    /// Process start to first painted frame; filled in by the loop.
    pub first_frame_ms: u64,
}

/// Time spent in one kind of plugin handler.
#[derive(Clone, Copy, Debug, PartialEq, Eq, Structural, Default)]
pub struct HookStat {
    pub calls: u64,
    pub total_us: u64,
    pub max_us: u64,
}

impl HookStat {
    pub open spec fn recorded(self, us: u64) -> HookStat {
        HookStat {
            calls: (self.calls + 1) as u64,
            total_us: sat_add(self.total_us, us),
            max_us: max_u64(self.max_us, us),
        }
    }

    pub fn record(&mut self, took: Duration)
        requires
            old(self).calls < u64::MAX,
        ensures
            *final(self) == old(self).recorded(duration_micros(took)),
    {
        let us = micros(took);
        self.calls = self.calls + 1;
        self.total_us = self.total_us.saturating_add(us);
        if us > self.max_us {
            self.max_us = us;
        }
    }
}

/// Which handler a call was.
#[derive(Clone, Copy, Debug, PartialEq, Eq, Structural)]
pub enum Hook {
    Key,
    Action,
    /// `on_click` and `on_context`: the same payload, from the same pointer.
    Click,
    Scroll,
    Event,
    /// A decorator's `decorate`, which runs on every frame its slot paints.
    Decorate,
}

/// Handler time by hook.
#[derive(Clone, Copy, Debug, PartialEq, Eq, Structural, Default)]
pub struct Hooks {
    pub key: HookStat,
    pub action: HookStat,
    pub click: HookStat,
    pub scroll: HookStat,
    pub event: HookStat,
    pub decorate: HookStat,
}

impl Hooks {
    pub open spec fn stat(self, hook: Hook) -> HookStat {
        match hook {
            Hook::Key => self.key,
            Hook::Action => self.action,
            Hook::Click => self.click,
            Hook::Scroll => self.scroll,
            Hook::Event => self.event,
            Hook::Decorate => self.decorate,
        }
    }

    /// The one stat `hook` is counted in; every other stays as it was.
    pub fn stat_mut(&mut self, hook: Hook) -> (r: &mut HookStat)
        ensures
            *r == old(self).stat(hook),
            final(self).stat(hook) == *final(r),
            forall|other: Hook| other != hook ==> final(self).stat(other) == old(self).stat(other),
    {
        match hook {
            Hook::Key => &mut self.key,
            Hook::Action => &mut self.action,
            Hook::Click => &mut self.click,
            Hook::Scroll => &mut self.scroll,
            Hook::Event => &mut self.event,
            Hook::Decorate => &mut self.decorate,
        }
    }

    pub open spec fn total_spec(self) -> u64 {
        sat_add(
            sat_add(
                sat_add(
                    sat_add(sat_add(sat_add(0, self.key.total_us), self.action.total_us), self.click.total_us),
                    self.scroll.total_us,
                ),
                self.event.total_us,
            ),
            self.decorate.total_us,
        )
    }

    /// Every handler's time, saturating.
    pub fn total_us(&self) -> (t: u64)
        ensures
            t == self.total_spec(),
    {
        let stats = [self.key, self.action, self.click, self.scroll, self.event, self.decorate];
        let mut sum: u64 = 0;
        let mut i: usize = 0;
        while i < 6
            invariant
                i <= 6,
                stats@ == seq![self.key, self.action, self.click, self.scroll, self.event, self.decorate],
                sum == (if i == 0 {
                    0
                } else if i == 1 {
                    sat_add(0, self.key.total_us)
                } else if i == 2 {
                    sat_add(sat_add(0, self.key.total_us), self.action.total_us)
                } else if i == 3 {
                    sat_add(sat_add(sat_add(0, self.key.total_us), self.action.total_us), self.click.total_us)
                } else if i == 4 {
                    sat_add(sat_add(sat_add(sat_add(0, self.key.total_us), self.action.total_us), self.click.total_us), self.scroll.total_us)
                } else if i == 5 {
                    sat_add(sat_add(sat_add(sat_add(sat_add(0, self.key.total_us), self.action.total_us), self.click.total_us), self.scroll.total_us), self.event.total_us)
                } else {
                    self.total_spec()
                }),
            decreases 6 - i,
        {
            sum = sum.saturating_add(stats[i].total_us);
            i += 1;
        }
        sum
    }
}

/// The programs one plugin had `run` start, timed on the worker that ran them.
#[derive(Clone, Copy, Debug, PartialEq, Eq, Structural, Default)]
pub struct RunTiming {
    pub started: u64,
    pub finished: u64,
    pub total_us: u64,
    pub max_us: u64,
}

impl RunTiming {
    pub fn record(&mut self, took: Duration)
        requires
            old(self).finished < u64::MAX,
        ensures
            *final(self) == (RunTiming {
                started: old(self).started,
                finished: (old(self).finished + 1) as u64,
                total_us: sat_add(old(self).total_us, duration_micros(took)),
                max_us: max_u64(old(self).max_us, duration_micros(took)),
            }),
    {
        let us = micros(took);
        self.finished = self.finished + 1;
        self.total_us = self.total_us.saturating_add(us);
        if us > self.max_us {
            self.max_us = us;
        }
    }
}


/// One styled run of text in a rendered tree.
#[derive(Clone, Debug)]
pub struct Run {
    pub text: String,
}

/// Where a surface node's cells come from.
#[derive(Clone, Debug)]
pub enum SurfaceSource {
    /// Cells the plugin drew itself, row by row.
    Cells(Vec<Vec<Run>>),
    /// A live terminal, named by its surface id.
    Terminal(String),
}

/// A plugin's rendered tree, as far as measuring it goes: what conversion
/// and painting scale with is its nodes and its styled runs.
#[derive(Debug)]
pub enum Node {
    Text { lines: Vec<Vec<Run>> },
    Box { children: Vec<Node> },
    Input,
    Surface { source: SurfaceSource },
}

/// Runs across a list of lines.
pub open spec fn runs_in(lines: Seq<Vec<Run>>) -> int
    decreases lines.len(),
{
    if lines.len() == 0 {
        0
    } else {
        runs_in(lines.drop_last()) + lines.last()@.len()
    }
}

/// `(nodes, runs)` of a tree.
pub open spec fn node_size(node: Node) -> (int, int)
    decreases node, 0int,
{
    match node {
        Node::Text { lines } => (1, runs_in(lines@)),
        Node::Box { children } => {
            let (n, s) = children_size(children@, children@.len() as int);
            (1 + n, s)
        },
        Node::Input => (1, 0),
        Node::Surface { source } => match source {
            SurfaceSource::Cells(lines) => (1, runs_in(lines@)),
            SurfaceSource::Terminal(_) => (1, 0),
        },
    }
}

/// `(nodes, runs)` of the first `k` trees of a list.
pub open spec fn children_size(children: Seq<Node>, k: int) -> (int, int)
    decreases children, k,
{
    if k <= 0 || k > children.len() {
        (0, 0)
    } else {
        let (n, s) = children_size(children, k - 1);
        let (cn, cs) = node_size(children[k - 1]);
        (n + cn, s + cs)
    }
}

proof fn lemma_runs_nonneg(lines: Seq<Vec<Run>>)
    ensures
        runs_in(lines) >= 0,
    decreases lines.len(),
{
    if lines.len() > 0 {
        lemma_runs_nonneg(lines.drop_last());
    }
}

proof fn lemma_size_nonneg(node: Node)
    ensures
        node_size(node).0 >= 1,
        node_size(node).1 >= 0,
    decreases node, 0int,
{
    match node {
        Node::Text { lines } => lemma_runs_nonneg(lines@),
        Node::Box { children } => lemma_children_nonneg(children@, children@.len() as int),
        Node::Input => {},
        Node::Surface { source } => match source {
            SurfaceSource::Cells(lines) => lemma_runs_nonneg(lines@),
            SurfaceSource::Terminal(_) => {},
        },
    }
}

proof fn lemma_children_nonneg(children: Seq<Node>, k: int)
    ensures
        children_size(children, k).0 >= 0,
        children_size(children, k).1 >= 0,
    decreases children, k,
{
    if k > 0 && k <= children.len() {
        lemma_children_nonneg(children, k - 1);
        lemma_size_nonneg(children[k - 1]);
    }
}

proof fn lemma_children_mono(children: Seq<Node>, j: int, k: int)
    requires
        0 <= j <= k <= children.len(),
    ensures
        children_size(children, j).0 <= children_size(children, k).0,
        children_size(children, j).1 <= children_size(children, k).1,
    decreases k - j,
{
    if j < k {
        lemma_children_mono(children, j, k - 1);
        lemma_size_nonneg(children[k - 1]);
    }
}

proof fn lemma_runs_mono(lines: Seq<Vec<Run>>, k: int)
    requires
        0 <= k <= lines.len(),
    ensures
        runs_in(lines.subrange(0, k)) <= runs_in(lines),
    decreases lines.len() - k,
{
    if k < lines.len() {
        lemma_runs_mono(lines, k + 1);
        assert(lines.subrange(0, k + 1).drop_last() =~= lines.subrange(0, k));
        lemma_runs_nonneg(lines.subrange(0, k));
    } else {
        assert(lines.subrange(0, k) =~= lines);
    }
}

/// Runs in a list of lines.
fn count_runs(lines: &Vec<Vec<Run>>) -> (n: u64)
    requires
        runs_in(lines@) <= u64::MAX,
    ensures
        n == runs_in(lines@),
{
    let mut n: u64 = 0;
    let mut i: usize = 0;
    while i < lines.len()
        invariant
            i <= lines@.len(),
            runs_in(lines@) <= u64::MAX,
            n == runs_in(lines@.subrange(0, i as int)),
        decreases lines.len() - i,
    {
        proof {
            assert(lines@.subrange(0, i + 1).drop_last() =~= lines@.subrange(0, i as int));
            lemma_runs_mono(lines@, i + 1);
        }
        n = n + lines[i].len() as u64;
        i += 1;
    }
    assert(lines@.subrange(0, i as int) =~= lines@);
    n
}

/// Nodes and styled runs in a tree — what conversion and painting scale with.
pub fn tree_size(node: &Node) -> (r: (u64, u64))
    requires
        node_size(*node).0 <= u64::MAX,
        node_size(*node).1 <= u64::MAX,
    ensures
        r.0 == node_size(*node).0,
        r.1 == node_size(*node).1,
    decreases node,
{
    match node {
        Node::Text { lines } => (1, count_runs(lines)),
        Node::Box { children } => {
            let mut n: u64 = 1;
            let mut s: u64 = 0;
            let mut i: usize = 0;
            while i < children.len()
                invariant
                    i <= children@.len(),
                    node_size(*node).0 <= u64::MAX,
                    node_size(*node).1 <= u64::MAX,
                    *node == (Node::Box { children: *children }),
                    n == 1 + children_size(children@, i as int).0,
                    s == children_size(children@, i as int).1,
                decreases children.len() - i,
            {
                proof {
                    lemma_children_mono(children@, i + 1, children@.len() as int);
                    lemma_children_nonneg(children@, i as int);
                    lemma_size_nonneg(children@[i as int]);
                }
                let (cn, cs) = tree_size(&children[i]);
                n = n + cn;
                s = s + cs;
                i += 1;
            }
            (n, s)
        },
        Node::Input => (1, 0),
        Node::Surface { source } => match source {
            SurfaceSource::Cells(lines) => (1, count_runs(lines)),
            SurfaceSource::Terminal(_) => (1, 0),
        },
    }
}


/// What one plugin cost while timing was on.
#[derive(Clone, Copy, Debug)]
pub struct PluginStats {
    /// Lua render calls, failed ones included.
    pub renders: u64,
    /// Renders served from a pure pane's cached tree, which run no Lua.
    pub reused: u64,
    /// Failed calls, of any phase.
    pub failures: u64,
    pub render: DurationHistogram,
    pub hooks: Hooks,
    /// `run` asks issued — one per call.
    pub asked: u64,
    /// `store`/`state` assignments made while this plugin was rendering.
    pub store_writes: u64,
    /// Of those, the ones assigning a table.
    pub store_table_writes: u64,
    pub last_nodes: u64,
    pub last_spans: u64,
    pub max_nodes: u64,
    /// Lua renders while the loop had seen no input for a while.
    pub idle_renders: u64,
    /// Renders of a float that returned no float: nothing drawn, Lua paid.
    pub closed_renders: u64,
}

impl Default for PluginStats {
    fn default() -> (r: Self)
        ensures
            r.is_fresh(),
    {
        PluginStats {
            renders: 0,
            reused: 0,
            failures: 0,
            render: DurationHistogram::default(),
            hooks: Hooks {
                key: HookStat { calls: 0, total_us: 0, max_us: 0 },
                action: HookStat { calls: 0, total_us: 0, max_us: 0 },
                click: HookStat { calls: 0, total_us: 0, max_us: 0 },
                scroll: HookStat { calls: 0, total_us: 0, max_us: 0 },
                event: HookStat { calls: 0, total_us: 0, max_us: 0 },
                decorate: HookStat { calls: 0, total_us: 0, max_us: 0 },
            },
            asked: 0,
            store_writes: 0,
            store_table_writes: 0,
            last_nodes: 0,
            last_spans: 0,
            max_nodes: 0,
            idle_renders: 0,
            closed_renders: 0,
        }
    }
}

impl PluginStats {
    /// Nothing measured yet.
    pub open spec fn is_fresh(&self) -> bool {
        &&& self.renders == 0
        &&& self.reused == 0
        &&& self.failures == 0
        &&& self.render@ == HistogramView::empty()
        &&& self.hooks.total_spec() == 0
        &&& self.asked == 0
        &&& self.store_writes == 0
        &&& self.store_table_writes == 0
        &&& self.last_nodes == 0
        &&& self.last_spans == 0
        &&& self.max_nodes == 0
        &&& self.idle_renders == 0
        &&& self.closed_renders == 0
    }

    /// Note the size of the tree just rendered.
    pub fn note_tree(&mut self, node: &Node)
        requires
            node_size(*node).0 <= u64::MAX,
            node_size(*node).1 <= u64::MAX,
        ensures
            final(self).last_nodes == node_size(*node).0,
            final(self).last_spans == node_size(*node).1,
            final(self).max_nodes == max_u64(old(self).max_nodes, node_size(*node).0 as u64),
            final(self).renders == old(self).renders,
            final(self).render == old(self).render,
            final(self).hooks == old(self).hooks,
    {
        let (nodes, spans) = tree_size(node);
        self.last_nodes = nodes;
        self.last_spans = spans;
        if nodes > self.max_nodes {
            self.max_nodes = nodes;
        }
    }

    pub open spec fn total_spec(&self) -> u64 {
        sat_add(self.render@.sum_us, self.hooks.total_spec())
    }

    /// UI-thread time: renders plus every handler. Programs are excluded.
    pub fn total_us(&self) -> (t: u64)
        ensures
            t == self.total_spec(),
    {
        self.render.sum_us().saturating_add(self.hooks.total_us())
    }
}

/// The position of the first entry keyed `key` at or after `i`.
pub open spec fn key_from(entries: Seq<(String, PluginStats)>, key: Seq<char>, i: int) -> Option<int>
    decreases entries.len() - i,
{
    if i < 0 || i >= entries.len() {
        None
    } else if entries[i].0@ == key {
        Some(i)
    } else {
        key_from(entries, key, i + 1)
    }
}

/// The stats held under `key`, if any.
pub open spec fn lookup_in(entries: Seq<(String, PluginStats)>, key: Seq<char>) -> Option<PluginStats> {
    match key_index(entries, key) {
        Some(i) => Some(entries[i].1),
        None => None,
    }
}

/// Where `key` is held, if it is.
pub open spec fn key_index(entries: Seq<(String, PluginStats)>, key: Seq<char>) -> Option<int> {
    key_from(entries, key, 0)
}

proof fn lemma_key_from_found(entries: Seq<(String, PluginStats)>, key: Seq<char>, i: int)
    requires
        0 <= i,
    ensures
        key_from(entries, key, i) matches Some(j) ==> i <= j < entries.len() && entries[j].0@ == key,
        key_from(entries, key, i) is None ==> forall|j: int| i <= j < entries.len() ==> entries[j].0@ != key,
    decreases entries.len() - i,
{
    if i < entries.len() && entries[i].0@ != key {
        lemma_key_from_found(entries, key, i + 1);
    }
}

/// The per-plugin stats of one measuring window, keyed by plugin path.
#[derive(Debug)]
pub struct PluginTable {
    /// Frames painted in the window.
    frames: u64,
    /// Their summed `terminal.draw` time.
    frame_total_us: u64,
    stats: Vec<(String, PluginStats)>,
}

/// What a table holds: the window's frame count and time, and each plugin's
/// stats in the order they were first recorded.
pub struct PluginTableView {
    pub frames: u64,
    pub frame_total_us: u64,
    pub entries: Seq<(String, PluginStats)>,
}

impl View for PluginTable {
    type V = PluginTableView;

    closed spec fn view(&self) -> PluginTableView {
        PluginTableView { frames: self.frames, frame_total_us: self.frame_total_us, entries: self.stats@ }
    }
}

impl Default for PluginTable {
    fn default() -> (t: Self)
        ensures
            t@.frames == 0,
            t@.frame_total_us == 0,
            t@.entries.len() == 0,
    {
        PluginTable { frames: 0, frame_total_us: 0, stats: Vec::new() }
    }
}

impl PluginTable {
    /// The stats kept for `path`.
    pub open spec fn lookup(&self, path: Seq<char>) -> Option<PluginStats> {
        lookup_in(self@.entries, path)
    }

    fn find(&self, path: &str) -> (r: Option<usize>)
        ensures
            r matches Some(i) ==> key_index(self@.entries, path@) == Some(i as int),
            r is None ==> key_index(self@.entries, path@) is None,
    {
        let key = path.to_owned();
        let mut i: usize = 0;
        while i < self.stats.len()
            invariant
                i <= self@.entries.len(),
                key@ == path@,
                key_from(self@.entries, path@, i as int) == key_from(self@.entries, path@, 0),
            decreases self.stats.len() - i,
        {
            if self.stats[i].0 == key {
                return Some(i);
            }
            i += 1;
        }
        None
    }

    /// The stats for `path`, created empty on first use.
    pub fn stats_mut(&mut self, path: &str) -> (r: &mut PluginStats)
        ensures
            old(self).lookup(path@) matches Some(s) ==> *r == s,
            old(self).lookup(path@) is None ==> r.is_fresh(),
            final(self).lookup(path@) == Some(*final(r)),
            forall|other: Seq<char>| other != path@ ==> final(self).lookup(other) == old(self).lookup(other),
            final(self)@.frames == old(self)@.frames,
            final(self)@.frame_total_us == old(self)@.frame_total_us,
    {
        let i = match self.find(path) {
            Some(i) => i,
            None => {
                proof {
                    lemma_key_from_found(self@.entries, path@, 0);
                }
                let before = Ghost(self@.entries);
                self.stats.push((path.to_owned(), PluginStats::default()));
                proof {
                    assert forall|other: Seq<char>| other != path@ implies lookup_in(self@.entries, other) == lookup_in(before@, other) by {
                        lemma_key_from_found(before@, other, 0);
                        lemma_key_from_found(self@.entries, other, 0);
                        if let Some(j) = key_index(before@, other) {
                            lemma_first_key_same(before@, self@.entries, other, j);
                            assert(self@.entries[j] == before@[j]);
                        } else {
                            assert(self@.entries[before@.len() as int].0@ == path@);
                        }
                    }
                    lemma_key_from_found(self@.entries, path@, 0);
                    lemma_first_key_at(self@.entries, path@, before@.len() as int);
                }
                self.stats.len() - 1
            },
        };
        let ghost before = self@.entries;
        proof {
            lemma_key_from_found(self@.entries, path@, 0);
        }
        proof {
            lemma_update_keeps_lookup(before, i as int, path@);
            assert(forall|other: Seq<char>| other != path@ ==> lookup_in(before, other) == old(self).lookup(other));
        }
        let entry = &mut self.stats[i];
        &mut entry.1
    }

    pub fn get(&self, path: &str) -> (r: Option<&PluginStats>)
        ensures
            r matches Some(s) ==> self.lookup(path@) == Some(*s),
            r is None ==> self.lookup(path@) is None,
    {
        proof {
            lemma_key_from_found(self@.entries, path@, 0);
        }
        match self.find(path) {
            Some(i) => Some(&self.stats[i].1),
            None => None,
        }
    }

    /// One more painted frame, of `took`.
    pub fn note_frame(&mut self, took: Duration)
        requires
            old(self)@.frames < u64::MAX,
        ensures
            final(self)@.frames == old(self)@.frames + 1,
            final(self)@.frame_total_us == sat_add(old(self)@.frame_total_us, duration_micros(took)),
            final(self)@.entries == old(self)@.entries,
    {
        self.frames = self.frames + 1;
        self.frame_total_us = self.frame_total_us.saturating_add(micros(took));
    }

    /// Back to an empty window.
    pub fn clear(&mut self)
        ensures
            final(self)@.frames == 0,
            final(self)@.frame_total_us == 0,
            final(self)@.entries.len() == 0,
    {
        *self = Self::default();
    }
}

proof fn lemma_first_key_same(
    before: Seq<(String, PluginStats)>,
    after: Seq<(String, PluginStats)>,
    key: Seq<char>,
    j: int,
)
    requires
        after.len() == before.len() + 1,
        forall|k: int| 0 <= k < before.len() ==> after[k] == before[k],
        key_index(before, key) == Some(j),
    ensures
        key_index(after, key) == Some(j),
{
    lemma_key_from_found(before, key, 0);
    lemma_prefix_keys(before, after, key, 0, j);
}

proof fn lemma_prefix_keys(
    before: Seq<(String, PluginStats)>,
    after: Seq<(String, PluginStats)>,
    key: Seq<char>,
    i: int,
    j: int,
)
    requires
        0 <= i <= j < before.len(),
        after.len() >= before.len(),
        forall|k: int| 0 <= k < before.len() ==> after[k] == before[k],
        key_from(before, key, i) == Some(j),
    ensures
        key_from(after, key, i) == Some(j),
    decreases j - i,
{
    assert(after[i] == before[i]);
    lemma_key_from_found(before, key, i);
    if i < j {
        lemma_prefix_keys(before, after, key, i + 1, j);
    }
}

/// Replacing the stats at the first entry keyed `key` leaves every other
/// key's stats where they were, and `key`'s are the new ones.
proof fn lemma_update_keeps_lookup(before: Seq<(String, PluginStats)>, i: int, key: Seq<char>)
    requires
        key_index(before, key) == Some(i),
    ensures
        forall|v: PluginStats, other: Seq<char>| #![trigger lookup_in(before.update(i, (before[i].0, v)), other)]
            lookup_in(before.update(i, (before[i].0, v)), other) == if other == key {
                Some(v)
            } else {
                lookup_in(before, other)
            },
{
    lemma_key_from_found(before, key, 0);
    assert forall|v: PluginStats, other: Seq<char>| #![trigger lookup_in(before.update(i, (before[i].0, v)), other)]
        lookup_in(before.update(i, (before[i].0, v)), other) == if other == key {
            Some(v)
        } else {
            lookup_in(before, other)
        } by {
        let after = before.update(i, (before[i].0, v));
        lemma_keys_unchanged(before, after, other, 0);
        lemma_key_from_found(before, other, 0);
    }
}

proof fn lemma_first_key_at(entries: Seq<(String, PluginStats)>, key: Seq<char>, j: int)
    requires
        0 <= j < entries.len(),
        entries[j].0@ == key,
        forall|k: int| 0 <= k < j ==> entries[k].0@ != key,
    ensures
        key_index(entries, key) == Some(j),
{
    lemma_walk_to(entries, key, 0, j);
}

proof fn lemma_walk_to(entries: Seq<(String, PluginStats)>, key: Seq<char>, i: int, j: int)
    requires
        0 <= i <= j < entries.len(),
        entries[j].0@ == key,
        forall|k: int| i <= k < j ==> entries[k].0@ != key,
    ensures
        key_from(entries, key, i) == Some(j),
    decreases j - i,
{
    if i < j {
        lemma_walk_to(entries, key, i + 1, j);
    }
}

proof fn lemma_keys_unchanged(
    before: Seq<(String, PluginStats)>,
    after: Seq<(String, PluginStats)>,
    key: Seq<char>,
    i: int,
)
    requires
        0 <= i,
        after.len() == before.len(),
        forall|k: int| 0 <= k < before.len() ==> after[k].0 == before[k].0,
    ensures
        key_from(after, key, i) == key_from(before, key, i),
    decreases before.len() - i,
{
    if i < before.len() {
        lemma_keys_unchanged(before, after, key, i + 1);
    }
}

/// Below this many frames (or renders) an "every frame" claim is noise.
pub const HINT_MIN_FRAMES: u64 = 10;

/// A likely cause, named from the stats.
#[derive(Clone, Copy, Debug, PartialEq, Eq, Structural)]
pub enum Hint {
    NotPure,
    ClosedFloat,
    StoreTables,
    RenderWrites,
    IdleRenders,
}

/// A hint's stable identifier.
pub open spec fn hint_id(h: Hint) -> Seq<char> {
    match h {
        Hint::NotPure => "not_pure"@,
        Hint::ClosedFloat => "closed_float"@,
        Hint::StoreTables => "store_tables"@,
        Hint::RenderWrites => "render_writes"@,
        Hint::IdleRenders => "idle_renders"@,
    }
}

impl Hint {
    pub fn id(self) -> (r: &'static str)
        ensures
            r@ == hint_id(self),
    {
        match self {
            Hint::NotPure => "not_pure",
            Hint::ClosedFloat => "closed_float",
            Hint::StoreTables => "store_tables",
            Hint::RenderWrites => "render_writes",
            Hint::IdleRenders => "idle_renders",
        }
    }

    pub fn text(self) -> (r: &'static str)
        ensures
            r@ == (match self {
                Hint::NotPure => "not pure and renders every frame: declare pure = true if render only reads"@,
                Hint::ClosedFloat => "float renders every frame while closed: declare pure = true"@,
                Hint::StoreTables => "writes a fresh table to store while rendering: move it into a handler"@,
                Hint::RenderWrites => "writes store/state while rendering: every pure pane's cache is dropped"@,
                Hint::IdleRenders => "pure but re-renders while idle: something it reads keeps moving"@,
            }),
    {
        match self {
            Hint::NotPure => "not pure and renders every frame: declare pure = true if render only reads",
            Hint::ClosedFloat => "float renders every frame while closed: declare pure = true",
            Hint::StoreTables => "writes a fresh table to store while rendering: move it into a handler",
            Hint::RenderWrites => "writes store/state while rendering: every pure pane's cache is dropped",
            Hint::IdleRenders => "pure but re-renders while idle: something it reads keeps moving",
        }
    }
}

/// What the report needs to know about a loaded plugin besides its stats.
pub struct PluginMeta<'a> {
    pub name: &'a str,
    pub path: &'a str,
    pub pure: bool,
    pub floats: bool,
}

/// At least nine frames in ten, over enough frames to mean anything.
pub open spec fn every_frame(n: u64, frames: u64) -> bool {
    frames >= HINT_MIN_FRAMES && n * 10 >= frames * 9
}

/// At least every other render, over enough renders to mean anything.
pub open spec fn often(n: u64, renders: u64) -> bool {
    renders >= HINT_MIN_FRAMES && n * 2 >= renders
}

/// The hints a plugin's stats earn, in the order a report lists them.
pub open spec fn hints_spec(pure: bool, floats: bool, stats: PluginStats, frames: u64) -> Seq<Hint> {
    let first = if floats && every_frame(stats.closed_renders, frames) {
        seq![Hint::ClosedFloat]
    } else if !pure && every_frame(stats.renders, frames) {
        seq![Hint::NotPure]
    } else {
        seq![]
    };
    let second = if often(stats.store_table_writes, stats.renders) {
        seq![Hint::StoreTables]
    } else if often(stats.store_writes, stats.renders) {
        seq![Hint::RenderWrites]
    } else {
        seq![]
    };
    let third = if pure && stats.idle_renders >= HINT_MIN_FRAMES {
        seq![Hint::IdleRenders]
    } else {
        seq![]
    };
    first + second + third
}

/// Name the likely causes of a plugin's cost from its stats.
///
/// An impure pane renders on every paint by definition, which the first hint
/// already says; only a pure one re-rendering while idle is a surprise.
pub fn plugin_hints(meta: &PluginMeta, stats: &PluginStats, frames: u64) -> (r: Vec<Hint>)
    ensures
        r@ == hints_spec(meta.pure, meta.floats, *stats, frames),
{
    let every = |n: u64| -> (b: bool)
        ensures
            b == every_frame(n, frames),
    { frames >= HINT_MIN_FRAMES && (n as u128) * 10 >= (frames as u128) * 9 };
    let often_ = |n: u64| -> (b: bool)
        ensures
            b == often(n, stats.renders),
    { stats.renders >= HINT_MIN_FRAMES && (n as u128) * 2 >= stats.renders as u128 };
    let mut hints: Vec<Hint> = Vec::new();
    if meta.floats && every(stats.closed_renders) {
        hints.push(Hint::ClosedFloat);
    } else if !meta.pure && every(stats.renders) {
        hints.push(Hint::NotPure);
    }
    let ghost after_first = hints@;
    if often_(stats.store_table_writes) {
        hints.push(Hint::StoreTables);
    } else if often_(stats.store_writes) {
        hints.push(Hint::RenderWrites);
    }
    let ghost after_second = hints@;
    if meta.pure && stats.idle_renders >= HINT_MIN_FRAMES {
        hints.push(Hint::IdleRenders);
    }
    assert(hints@ =~= hints_spec(meta.pure, meta.floats, *stats, frames));
    hints
}


/// One plugin's line in the report. Its share of the window's frame time is
/// read off with [`PluginRow::frame_share`].
#[derive(Debug)]
pub struct PluginRow {
    pub name: String,
    /// Relative to the interface directory, like every other plugin identity.
    pub file: String,
    pub pure: bool,
    pub floats: bool,
    pub stats: PluginStats,
    pub runs: RunTiming,
    pub total_us: u64,
    pub hints: Vec<Hint>,
}

impl PluginRow {
    /// Render time over painted-frame time, clamped to one, as a numerator
    /// and a denominator: none of a window that painted nothing.
    pub fn frame_share(&self, frame_total_us: u64) -> (r: (u64, u64))
        ensures
            frame_total_us == 0 ==> r == (0u64, 1u64),
            frame_total_us > 0 ==> r == (if self.stats.render@.sum_us < frame_total_us {
                self.stats.render@.sum_us
            } else {
                frame_total_us
            }, frame_total_us),
    {
        if frame_total_us == 0 {
            return (0, 1);
        }
        let sum = self.stats.render.sum_us();
        if sum < frame_total_us {
            (sum, frame_total_us)
        } else {
            (frame_total_us, frame_total_us)
        }
    }
}

/// Every loaded plugin, most expensive first.
#[derive(Debug)]
pub struct PluginReport {
    pub frames: u64,
    pub frame_total_us: u64,
    pub rows: Vec<PluginRow>,
}

impl Default for PluginReport {
    fn default() -> (r: Self)
        ensures
            r.frames == 0,
            r.frame_total_us == 0,
            r.rows@.len() == 0,
    {
        PluginReport { frames: 0, frame_total_us: 0, rows: Vec::new() }
    }
}

/// A plugin's UI-thread time in the window: that of the stats kept under its
/// path, none when it was never measured.
pub open spec fn total_of(table: PluginTableView, path: Seq<char>) -> u64 {
    match lookup_in(table.entries, path) {
        Some(s) => s.total_spec(),
        None => 0,
    }
}

/// A plugin's renders in the window, none when it was never measured.
pub open spec fn renders_of(table: PluginTableView, path: Seq<char>) -> u64 {
    match lookup_in(table.entries, path) {
        Some(s) => s.renders,
        None => 0,
    }
}

/// What the ranking reads of each plugin: its time, its renders, its name.
pub open spec fn report_keys<'a>(table: PluginTableView, plugins: Seq<PluginMeta<'a>>) -> Seq<(u64, u64, Seq<char>)> {
    plugins.map_values(|m: PluginMeta<'a>| (total_of(table, m.path@), renders_of(table, m.path@), m.name@))
}

/// Whether plugin `i` ranks ahead of plugin `j`: more UI-thread time, then
/// more renders, then the name; plugins alike in all three keep the order
/// they were listed in.
pub open spec fn report_ahead(keys: Seq<(u64, u64, Seq<char>)>, i: usize, j: usize) -> bool {
    let a = keys[i as int];
    let b = keys[j as int];
    if a.0 != b.0 {
        a.0 > b.0
    } else if a.1 != b.1 {
        a.1 > b.1
    } else if a.2 != b.2 {
        text_lt(a.2, b.2)
    } else {
        i < j
    }
}

/// The ranking as an order on the plugins' indices.
pub open spec fn report_le(keys: Seq<(u64, u64, Seq<char>)>) -> spec_fn(usize, usize) -> bool {
    |i: usize, j: usize| i == j || report_ahead(keys, i, j)
}

/// The order the report lists the plugins in: their indices, ranked.
pub open spec fn report_order<'a>(table: PluginTableView, plugins: Seq<PluginMeta<'a>>) -> Seq<usize> {
    Seq::new(plugins.len(), |i: int| i as usize).sort_by(report_le(report_keys(table, plugins)))
}

/// What the runs one plugin had `run` start came to: those recorded under its
/// path, or none.
pub open spec fn runs_of(runs: Seq<(String, RunTiming)>, path: Seq<char>) -> RunTiming {
    match lookup(runs.map_values(|e: (String, RunTiming)| (e.0@, e.1)), path) {
        Some(t) => t,
        None => RunTiming { started: 0, finished: 0, total_us: 0, max_us: 0 },
    }
}

/// Whether `row` is `meta`'s line: its stats those the table kept (fresh
/// ones when it was never measured), its runs, its time and its hints.
pub open spec fn row_of<'a>(row: PluginRow, table: PluginTableView, meta: PluginMeta<'a>, runs: Seq<(String, RunTiming)>) -> bool {
    &&& row.name@ == meta.name@
    &&& row.file@ == meta.path@
    &&& row.pure == meta.pure
    &&& row.floats == meta.floats
    &&& match lookup_in(table.entries, meta.path@) {
        Some(s) => row.stats == s,
        None => row.stats.is_fresh(),
    }
    &&& row.runs == runs_of(runs, meta.path@)
    &&& row.total_us == row.stats.total_spec()
    &&& row.hints@ == hints_spec(meta.pure, meta.floats, row.stats, table.frames)
}

pub proof fn lemma_report_le_total(keys: Seq<(u64, u64, Seq<char>)>)
    ensures
        total_ordering(report_le(keys)),
{
    let le = report_le(keys);
    assert forall|i: usize, j: usize| #[trigger] le(i, j) && le(j, i) implies i == j by {
        lemma_text_lt_strict(keys[i as int].2, keys[j as int].2);
    }
    assert forall|i: usize, j: usize| #[trigger] le(i, j) || le(j, i) by {
        lemma_text_lt_strict(keys[i as int].2, keys[j as int].2);
    }
    assert forall|i: usize, j: usize, k: usize| #[trigger] le(i, j) && #[trigger] le(j, k) implies le(i, k) by {
        let na = keys[i as int].2;
        let nb = keys[j as int].2;
        let nc = keys[k as int].2;
        lemma_text_lt_strict(na, nb);
        lemma_text_lt_strict(nb, nc);
        lemma_text_lt_strict(na, nc);
        if text_lt(na, nb) && text_lt(nb, nc) {
            lemma_text_lt_trans(na, nb, nc);
        }
        if text_lt(nc, na) && text_lt(na, nb) {
            lemma_text_lt_trans(nc, na, nb);
        }
        if text_lt(nb, nc) && text_lt(nc, na) {
            lemma_text_lt_trans(nb, nc, na);
        }
    }
}

/// The runs recorded under `path`, none when there are none.
fn runs_under(runs: &Vec<(String, RunTiming)>, path: &str) -> (r: RunTiming)
    ensures
        r == runs_of(runs@, path@),
{
    let ghost m = runs@.map_values(|e: (String, RunTiming)| (e.0@, e.1));
    let mut i: usize = 0;
    assert(m.skip(0) =~= m);
    while i < runs.len()
        invariant
            i <= runs@.len(),
            m == runs@.map_values(|e: (String, RunTiming)| (e.0@, e.1)),
            lookup(m.skip(i as int), path@) == lookup(m, path@),
        decreases runs.len() - i,
    {
        proof {
            assert(m.skip(i as int)[0] == m[i as int]);
            assert(m.skip(i as int).drop_first() =~= m.skip(i + 1));
        }
        if crate::text::same_text(runs[i].0.as_str(), path) {
            return runs[i].1;
        }
        i += 1;
    }
    assert(m.skip(i as int) =~= Seq::<(Seq<char>, RunTiming)>::empty());
    RunTiming { started: 0, finished: 0, total_us: 0, max_us: 0 }
}

/// Whether plugin `i` ranks at or before plugin `j`, read off each plugin's
/// time, renders and name.
fn ranks_by(totals: &Vec<u64>, renders: &Vec<u64>, names: &Vec<Vec<char>>, keys: Ghost<Seq<(u64, u64, Seq<char>)>>, i: usize, j: usize) -> (r: bool)
    requires
        i < keys@.len(),
        j < keys@.len(),
        totals@.len() == keys@.len(),
        renders@.len() == keys@.len(),
        names@.len() == keys@.len(),
        forall|k: int| 0 <= k < keys@.len() ==> totals@[k] == (#[trigger] keys@[k]).0 && renders@[k] == keys@[k].1 && names@[k]@ == keys@[k].2,
    ensures
        r == (report_le(keys@))(i, j),
{
    assert(totals@[i as int] == keys@[i as int].0 && renders@[i as int] == keys@[i as int].1 && names@[i as int]@ == keys@[i as int].2);
    assert(totals@[j as int] == keys@[j as int].0 && renders@[j as int] == keys@[j as int].1 && names@[j as int]@ == keys@[j as int].2);
    proof { lemma_text_lt_strict(keys@[i as int].2, keys@[j as int].2); }
    if i == j {
        true
    } else if totals[i] != totals[j] {
        totals[i] > totals[j]
    } else if renders[i] != renders[j] {
        renders[i] > renders[j]
    } else if text_less(&names[i], &names[j]) {
        true
    } else if text_less(&names[j], &names[i]) {
        false
    } else {
        i < j
    }
}

/// Rank the loaded plugins by UI-thread time, attach their runs and hints.
///
/// Every loaded plugin gets a row, measured or not, so a pane that cost
/// nothing is visibly cheap rather than absent. `runs` holds each plugin's
/// program timings under its path.
pub fn plugin_report(table: &PluginTable, plugins: &[PluginMeta], runs: &Vec<(String, RunTiming)>) -> (r: PluginReport)
    ensures
        r.frames == table@.frames,
        r.frame_total_us == table@.frame_total_us,
        r.rows@.len() == plugins@.len(),
        report_order(table@, plugins@).len() == plugins@.len(),
        forall|k: int| 0 <= k < r.rows@.len() ==> {
            &&& (report_order(table@, plugins@)[k] as int) < plugins@.len()
            &&& row_of(#[trigger] r.rows@[k], table@, plugins@[report_order(table@, plugins@)[k] as int], runs@)
        },
        forall|i: usize| (i as int) < plugins@.len() ==> #[trigger] report_order(table@, plugins@).contains(i),
        forall|a: int, b: int| 0 <= a < b < r.rows@.len() ==> #[trigger] r.rows@[a].total_us >= #[trigger] r.rows@[b].total_us,
{
    let n = plugins.len();
    let ghost keys = report_keys(table@, plugins@);
    let mut totals: Vec<u64> = Vec::new();
    let mut renders: Vec<u64> = Vec::new();
    let mut names: Vec<Vec<char>> = Vec::new();
    let mut i: usize = 0;
    while i < n
        invariant
            n == plugins@.len(),
            keys == report_keys(table@, plugins@),
            i <= n,
            totals@.len() == i,
            renders@.len() == i,
            names@.len() == i,
            forall|k: int| 0 <= k < i ==> totals@[k] == (#[trigger] keys[k]).0 && renders@[k] == keys[k].1 && names@[k]@ == keys[k].2,
        decreases n - i,
    {
        let (t, c) = match table.get(plugins[i].path) {
            Some(s) => (s.total_us(), s.renders),
            None => (0u64, 0u64),
        };
        totals.push(t);
        renders.push(c);
        names.push(to_chars(plugins[i].name));
        i += 1;
    }
    let ghost le = report_le(keys);
    proof { lemma_report_le_total(keys); }
    let ghost all = Seq::new(n as nat, |k: int| k as usize);
    let mut order: Vec<usize> = Vec::new();
    let mut t: usize = 0;
    proof {
        assert(all.take(0) =~= Seq::<usize>::empty());
        Seq::<usize>::empty().lemma_sort_by_ensures(le);
        assert(Seq::<usize>::empty().sort_by(le).len() == 0) by {
            broadcast use vstd::seq_lib::group_to_multiset_ensures;
            Seq::<usize>::empty().sort_by(le).to_multiset_ensures();
            Seq::<usize>::empty().to_multiset_ensures();
        }
        assert(all.take(0).sort_by(le) =~= order@);
    }
    while t < n
        invariant
            n == plugins@.len(),
            keys == report_keys(table@, plugins@),
            keys.len() == n,
            le == report_le(keys),
            total_ordering(le),
            all == Seq::new(n as nat, |k: int| k as usize),
            totals@.len() == n,
            renders@.len() == n,
            names@.len() == n,
            forall|k: int| 0 <= k < n ==> totals@[k] == (#[trigger] keys[k]).0 && renders@[k] == keys[k].1 && names@[k]@ == keys[k].2,
            t <= n,
            order@ == all.take(t as int).sort_by(le),
            forall|k: int| 0 <= k < order@.len() ==> #[trigger] order@[k] < t,
        decreases n - t,
    {
        let x = t;
        let mut q: usize = 0;
        while q < order.len() && ranks_by(&totals, &renders, &names, Ghost(keys), order[q], x)
            invariant
                keys.len() == n,
                le == report_le(keys),
                totals@.len() == n,
                renders@.len() == n,
                names@.len() == n,
                forall|k: int| 0 <= k < n ==> totals@[k] == (#[trigger] keys[k]).0 && renders@[k] == keys[k].1 && names@[k]@ == keys[k].2,
                x < n,
                forall|k: int| 0 <= k < order@.len() ==> #[trigger] order@[k] < x,
                q <= order@.len(),
                forall|k: int| 0 <= k < q ==> #[trigger] le(order@[k], x),
            decreases order.len() - q,
        {
            q += 1;
        }
        proof {
            lemma_insertion_point(order@, x, le);
            let p = insertion_point(order@, x, le);
            if p < q {
                assert(le(order@[p], x));
            }
            if q < p {
                assert(le(order@[q as int], x));
            }
            assert(p == q);
            assert(all.take(t + 1) =~= all.take(t as int).push(x));
            lemma_sort_push(all.take(t as int), x, le);
        }
        order.insert(q, x);
        t += 1;
    }
    assert(all.take(n as int) =~= all);
    assert(all == Seq::new(plugins@.len(), |i: int| i as usize));
    proof {
        broadcast use vstd::seq_lib::group_to_multiset_ensures;
        all.lemma_sort_by_ensures(le);
        all.to_multiset_ensures();
        all.sort_by(le).to_multiset_ensures();
    }
    let mut rows: Vec<PluginRow> = Vec::new();
    let mut k: usize = 0;
    while k < n
        invariant
            n == plugins@.len(),
            order@ == report_order(table@, plugins@),
            order@.len() == n,
            forall|j: int| 0 <= j < order@.len() ==> #[trigger] order@[j] < n,
            k <= n,
            rows@.len() == k,
            forall|j: int| 0 <= j < k ==> row_of(#[trigger] rows@[j], table@, plugins@[order@[j] as int], runs@),
        decreases n - k,
    {
        let meta = &plugins[order[k]];
        let stats = match table.get(meta.path) {
            Some(s) => *s,
            None => PluginStats::default(),
        };
        let row = PluginRow {
            name: meta.name.to_string(),
            file: meta.path.to_string(),
            pure: meta.pure,
            floats: meta.floats,
            stats,
            runs: runs_under(runs, meta.path),
            total_us: stats.total_us(),
            hints: plugin_hints(meta, &stats, table.frames),
        };
        rows.push(row);
        k += 1;
    }
    proof {
        broadcast use vstd::seq_lib::group_to_multiset_ensures;
        let sorted = all.sort_by(le);
        all.lemma_sort_by_ensures(le);
        all.to_multiset_ensures();
        sorted.to_multiset_ensures();
        assert forall|i: usize| (i as int) < plugins@.len() implies #[trigger] report_order(table@, plugins@).contains(i) by {
            assert(all[i as int] == i);
            assert(all.contains(i));
            assert(all.to_multiset().count(i) > 0);
            assert(sorted.contains(i));
        }
        assert forall|a: int, b: int| 0 <= a < b < rows@.len() implies #[trigger] rows@[a].total_us >= #[trigger] rows@[b].total_us by {
            let oa = order@[a];
            let ob = order@[b];
            assert(le(oa, ob));
            assert(keys[oa as int] == (total_of(table@, plugins@[oa as int].path@), renders_of(table@, plugins@[oa as int].path@), plugins@[oa as int].name@));
            assert(keys[ob as int] == (total_of(table@, plugins@[ob as int].path@), renders_of(table@, plugins@[ob as int].path@), plugins@[ob as int].name@));
            assert(row_of(rows@[a], table@, plugins@[oa as int], runs@));
            assert(row_of(rows@[b], table@, plugins@[ob as int], runs@));
        }
    }
    PluginReport { frames: table.frames, frame_total_us: table.frame_total_us, rows }
}


/// The identifiers of `hints`, joined by `+`.
pub open spec fn hint_ids(hints: Seq<Hint>) -> Seq<char> {
    join_with(hints.map_values(|h: Hint| hint_id(h)), "+"@)
}

/// One row of the summary: name, time, renders and reuses, then its hints.
pub open spec fn summary_entry(row: PluginRow) -> Seq<char> {
    row.name@ + ":"@ + decimal_text(row.total_us as nat) + "us:"@ + decimal_text(row.stats.renders as nat) + "r/"@
        + decimal_text(row.stats.reused as nat) + "c"@ + (if row.hints@.len() == 0 { ""@ } else { ":"@ })
        + hint_ids(row.hints@)
}

/// The entries of the rows that cost anything, in order.
pub open spec fn summary_parts(rows: Seq<PluginRow>) -> Seq<Seq<char>>
    decreases rows.len(),
{
    if rows.len() == 0 {
        Seq::empty()
    } else if rows.last().total_us > 0 {
        summary_parts(rows.drop_last()).push(summary_entry(rows.last()))
    } else {
        summary_parts(rows.drop_last())
    }
}

/// Appending one more part to a join: the separator goes between.
pub proof fn lemma_join_push(parts: Seq<Seq<char>>, sep: Seq<char>, p: Seq<char>)
    ensures
        join_with(parts.push(p), sep) == if parts.len() == 0 { p } else { join_with(parts, sep) + sep + p },
{
    assert(parts.push(p).drop_last() =~= parts);
    if parts.len() == 0 {
        assert(parts.push(p)[0] == p);
    }
}

fn push_hint_ids(out: &mut String, hints: &Vec<Hint>)
    ensures
        final(out)@ == old(out)@ + hint_ids(hints@),
{
    let ghost ids = hints@.map_values(|h: Hint| hint_id(h));
    let mut i: usize = 0;
    assert(ids.take(0) =~= Seq::<Seq<char>>::empty());
    while i < hints.len()
        invariant
            i <= hints@.len(),
            ids == hints@.map_values(|h: Hint| hint_id(h)),
            out@ == old(out)@ + join_with(ids.take(i as int), "+"@),
        decreases hints.len() - i,
    {
        proof {
            reveal_strlit("+");
            lemma_join_push(ids.take(i as int), "+"@, ids[i as int]);
            assert(ids.take(i + 1) =~= ids.take(i as int).push(ids[i as int]));
        }
        if i > 0 {
            push_str(out, "+");
        }
        push_str(out, hints[i].id());
        i += 1;
    }
    assert(ids.take(i as int) =~= ids);
}

impl PluginReport {
    /// A compact one-line summary of the costliest panes, for the window's
    /// log line: of the first `top` rows, those that cost anything.
    pub fn summary(&self, top: usize) -> (r: String)
        ensures
            r@ == join_with(summary_parts(self.rows@.take(if top < self.rows@.len() { top as int } else { self.rows@.len() as int })), " "@),
    {
        let n = if top < self.rows.len() { top } else { self.rows.len() };
        let mut out = String::new();
        let mut i: usize = 0;
        let mut emitted: usize = 0;
        assert(self.rows@.take(0) =~= Seq::<PluginRow>::empty());
        while i < n
            invariant
                n <= self.rows@.len(),
                i <= n,
                out@ == join_with(summary_parts(self.rows@.take(i as int)), " "@),
                emitted == summary_parts(self.rows@.take(i as int)).len(),
                emitted <= i,
            decreases n - i,
        {
            let row = &self.rows[i];
            let ghost parts = summary_parts(self.rows@.take(i as int));
            proof {
                reveal_strlit(" ");
                reveal_strlit("");
                assert(self.rows@.take(i + 1).drop_last() =~= self.rows@.take(i as int));
                assert(self.rows@.take(i + 1).last() == *row);
            }
            if row.total_us > 0 {
                proof { lemma_join_push(parts, " "@, summary_entry(*row)); }
                if emitted > 0 {
                    push_str(&mut out, " ");
                }
                let mut e = String::new();
                push_str(&mut e, row.name.as_str());
                push_str(&mut e, ":");
                let t = decimal(row.total_us);
                push_str(&mut e, t.as_str());
                push_str(&mut e, "us:");
                let r = decimal(row.stats.renders);
                push_str(&mut e, r.as_str());
                push_str(&mut e, "r/");
                let c = decimal(row.stats.reused);
                push_str(&mut e, c.as_str());
                push_str(&mut e, "c");
                if row.hints.len() > 0 {
                    push_str(&mut e, ":");
                } else {
                    assert(e@ + ""@ =~= e@);
                }
                push_hint_ids(&mut e, &row.hints);
                assert(e@ =~= summary_entry(*row));
                push_str(&mut out, e.as_str());
                emitted += 1;
            }
            i += 1;
        }
        out
    }
}

} // verus!
