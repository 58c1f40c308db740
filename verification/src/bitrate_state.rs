//! The bitrate of the incoming stream, measured from sender reports and
//! averaged over a short history.
use crate::clock::{instant_now, nanos_between, nanos_since};
use std::time::Instant;
use vstd::prelude::*;

verus! {

/// How many measurements the history holds.
pub const BITRATE_HISTORY_SIZE: usize = 15;

/// How long a measurement stays in the history unless set otherwise.
pub const DEFAULT_HISTORY_NANOS: u128 = 5_000_000_000;

/// One measurement. The time is in nanoseconds since the state was made.
#[derive(Debug, Clone, Copy)]
pub struct BitrateSample {
    pub timestamp: u128,
    pub bitrate_bps: u32,
}

/// Bitrate of a stream, from the octet counts of its sender reports.
#[derive(Debug)]
pub struct BitrateState {
    /// The instant from which every time in this state is counted.
    origin: Instant,
    last_octet_count: u32,
    last_timestamp: Option<u128>,
    /// Bits per second.
    current_bitrate_bps: u32,
    /// A ring: the measurements are the `count` entries from `start_index` on.
    history: [BitrateSample; BITRATE_HISTORY_SIZE],
    start_index: usize,
    count: usize,
    max_history_nanos: u128,
}

/// The mathematical value of a `BitrateState`: the samples are the history from
/// the oldest to the newest.
pub struct BitrateView {
    /// The instant from which the times are counted.
    pub origin: Instant,
    pub last_octet_count: u32,
    pub last_timestamp: Option<u128>,
    pub current_bitrate_bps: u32,
    pub samples: Seq<BitrateSample>,
    pub max_history_nanos: u128,
}

/// Whether a sample is too old at time `now`.
pub open spec fn is_stale(sample: BitrateSample, now: u128, max_history_nanos: u128) -> bool {
    sample.timestamp + max_history_nanos < now
}

/// The samples without those at the front that are too old at time `now`.
pub open spec fn without_stale(
    samples: Seq<BitrateSample>,
    now: u128,
    max_history_nanos: u128,
) -> Seq<BitrateSample>
    decreases samples.len(),
{
    if samples.len() > 0 && is_stale(samples[0], now, max_history_nanos) {
        without_stale(samples.drop_first(), now, max_history_nanos)
    } else {
        samples
    }
}

/// The samples with one more at the end, and without the oldest if that would
/// be more than the history holds.
pub open spec fn appended(samples: Seq<BitrateSample>, sample: BitrateSample) -> Seq<
    BitrateSample,
> {
    if samples.len() < BITRATE_HISTORY_SIZE {
        samples.push(sample)
    } else {
        samples.drop_first().push(sample)
    }
}

/// The sum of the measured bitrates.
pub open spec fn bitrate_sum(samples: Seq<BitrateSample>) -> nat
    decreases samples.len(),
{
    if samples.len() == 0 {
        0
    } else {
        bitrate_sum(samples.drop_last()) + samples.last().bitrate_bps as nat
    }
}

impl BitrateView {
    /// A state that has measured nothing and counts time from `origin`.
    pub open spec fn initial(origin: Instant) -> BitrateView {
        BitrateView {
            origin,
            last_octet_count: 0,
            last_timestamp: None,
            current_bitrate_bps: 0,
            samples: Seq::empty(),
            max_history_nanos: DEFAULT_HISTORY_NANOS,
        }
    }

    /// The octets and the nanoseconds between the last report and one that comes
    /// at time `now`; None for the first report and for one that comes no later
    /// than the last.
    pub open spec fn interval(self, octet_count: u32, now: u128) -> Option<(u32, u128)> {
        match self.last_timestamp {
            Some(last) => if last < now {
                Some(
                    (
                        if self.last_octet_count <= octet_count {
                            (octet_count - self.last_octet_count) as u32
                        } else {
                            (octet_count - self.last_octet_count + 0x1_0000_0000) as u32
                        },
                        (now - last) as u128,
                    ),
                )
            } else {
                None
            },
            None => None,
        }
    }

    /// The state with one measurement more.
    pub open spec fn with_sample(self, timestamp: u128, bitrate_bps: u32) -> BitrateView {
        BitrateView {
            samples: appended(
                without_stale(self.samples, timestamp, self.max_history_nanos),
                BitrateSample { timestamp, bitrate_bps },
            ),
            ..self
        }
    }

    /// The state after a sender report at time `now`, over which the bitrate came
    /// to `bitrate_bps`.
    pub open spec fn reported(self, octet_count: u32, now: u128, bitrate_bps: u32) -> BitrateView {
        let measured = if self.interval(octet_count, now) is Some {
            BitrateView { current_bitrate_bps: bitrate_bps, ..self.with_sample(now, bitrate_bps) }
        } else {
            self
        };
        BitrateView { last_octet_count: octet_count, last_timestamp: Some(now), ..measured }
    }

    /// The mean of the measured bitrates, rounded down; zero without any.
    pub open spec fn average(self) -> nat {
        if self.samples.len() == 0 {
            0
        } else {
            bitrate_sum(self.samples) / self.samples.len()
        }
    }
}

/// The history in a ring: `count` entries from `start` on.
spec fn ring(history: Seq<BitrateSample>, start: int, count: int) -> Seq<BitrateSample> {
    Seq::new(count as nat, |i: int| history[(start + i) % (BITRATE_HISTORY_SIZE as int)])
}

impl View for BitrateState {
    type V = BitrateView;

    closed spec fn view(&self) -> BitrateView {
        BitrateView {
            origin: self.origin,
            last_octet_count: self.last_octet_count,
            last_timestamp: self.last_timestamp,
            current_bitrate_bps: self.current_bitrate_bps,
            samples: ring(self.history@, self.start_index as int, self.count as int),
            max_history_nanos: self.max_history_nanos,
        }
    }
}

impl BitrateState {
    /// The ring's indices lie within the ring.
    pub closed spec fn wf(self) -> bool {
        &&& self.start_index < BITRATE_HISTORY_SIZE
        &&& self.count <= BITRATE_HISTORY_SIZE
    }

    /// A state that has measured nothing and keeps five seconds of history.
    pub fn new() -> (state: BitrateState)
        ensures
            state.wf(),
            state@ == BitrateView::initial(state@.origin),
    {
        let default_sample = BitrateSample { timestamp: 0, bitrate_bps: 0 };
        let state = BitrateState {
            origin: instant_now(),
            last_octet_count: 0,
            last_timestamp: None,
            current_bitrate_bps: 0,
            history: [default_sample;BITRATE_HISTORY_SIZE],
            start_index: 0,
            count: 0,
            max_history_nanos: DEFAULT_HISTORY_NANOS,
        };
        assert(state@.samples =~= Seq::empty());
        state
    }

    /// The same state with another length of history, in nanoseconds.
    pub fn with_max_duration(self, duration_nanos: u128) -> (state: BitrateState)
        requires
            self.wf(),
        ensures
            state.wf(),
            state@ == (BitrateView { max_history_nanos: duration_nanos, ..self@ }),
    {
        let mut state = self;
        state.max_history_nanos = duration_nanos;
        state
    }

    /// The bitrate over the last two reports, in bits per second.
    pub fn current_bitrate(&self) -> (bitrate_bps: u32)
        ensures
            bitrate_bps == self@.current_bitrate_bps,
    {
        self.current_bitrate_bps
    }

    /// Reads the clock for a sender report with this octet count: the time of the
    /// report, in nanoseconds since the state was made, and the interval since
    /// the last one.
    pub fn measure(&self, octet_count: u32) -> (measured: (u128, Option<(u32, u128)>))
        ensures
            exists|now: Instant| measured.0 == #[trigger] nanos_since(now, self@.origin),
            measured.1 == self@.interval(octet_count, measured.0),
    {
        self.measure_at(octet_count, instant_now())
    }

    /// The same for a sender report that comes at the given instant.
    pub fn measure_at(&self, octet_count: u32, instant: Instant) -> (measured: (
        u128,
        Option<(u32, u128)>,
    ))
        ensures
            measured.0 == nanos_since(instant, self@.origin),
            measured.1 == self@.interval(octet_count, measured.0),
    {
        let now: u128 = nanos_between(&instant, &self.origin);
        (now, self.interval_since_last(octet_count, now))
    }

    /// What the bitrate is to be computed of when a report with this octet count
    /// comes at time `now`: octets and nanoseconds since the last report. None
    /// where there is nothing to compute.
    pub fn interval_since_last(&self, octet_count: u32, now: u128) -> (interval: Option<
        (u32, u128),
    >)
        ensures
            interval == self@.interval(octet_count, now),
    {
        match self.last_timestamp {
            Some(last_ts) => if last_ts < now {
                Some((octet_count.wrapping_sub(self.last_octet_count), now - last_ts))
            } else {
                None
            },
            None => None,
        }
    }

    /// Takes in a sender report that comes at time `now`. The bitrate is that of
    /// the interval since the last report, and is not used where there is none.
    pub fn update_with_sr(&mut self, octet_count: u32, now: u128, bitrate_bps: u32)
        requires
            old(self).wf(),
        ensures
            final(self).wf(),
            final(self)@ == old(self)@.reported(octet_count, now, bitrate_bps),
    {
        if self.interval_since_last(octet_count, now).is_some() {
            self.current_bitrate_bps = bitrate_bps;
            self.add_sample(now, bitrate_bps);
        }
        self.last_octet_count = octet_count;
        self.last_timestamp = Some(now);
    }

    /// Adds a measurement, after dropping from the front of the history those
    /// that are too old by then.
    pub fn add_sample(&mut self, timestamp: u128, bitrate_bps: u32)
        requires
            old(self).wf(),
        ensures
            final(self).wf(),
            final(self)@ == old(self)@.with_sample(timestamp, bitrate_bps),
    {
        let ghost wanted = without_stale(self@.samples, timestamp, self.max_history_nanos);
        while self.count > 0
            invariant_except_break
                self.wf(),
                without_stale(self@.samples, timestamp, self.max_history_nanos) == wanted,
                self@ == (BitrateView { samples: self@.samples, ..old(self)@ }),
            ensures
                self.wf(),
                self@.samples == wanted,
                self@ == (BitrateView { samples: self@.samples, ..old(self)@ }),
            decreases self.count,
        {
            let oldest_sample = self.history[self.start_index];
            let ghost before = self@.samples;
            assert(before[0] == oldest_sample);
            if oldest_sample.timestamp < timestamp && timestamp - oldest_sample.timestamp
                > self.max_history_nanos {
                self.start_index = (self.start_index + 1) % BITRATE_HISTORY_SIZE;
                self.count = self.count - 1;
                assert(self@.samples =~= before.drop_first());
            } else {
                break ;
            }
        }
        let ghost kept = self@.samples;
        let insert_index: usize = (self.start_index + self.count) % BITRATE_HISTORY_SIZE;
        self.history[insert_index] = BitrateSample { timestamp, bitrate_bps };
        if self.count < BITRATE_HISTORY_SIZE {
            self.count = self.count + 1;
        } else {
            self.start_index = (self.start_index + 1) % BITRATE_HISTORY_SIZE;
        }
        assert(self@.samples =~= appended(kept, BitrateSample { timestamp, bitrate_bps }));
    }

    /// The mean of the measured bitrates, rounded down; zero without any.
    pub fn average_bitrate(&self) -> (bitrate_bps: u32)
        requires
            self.wf(),
        ensures
            bitrate_bps == self@.average(),
    {
        if self.count == 0 {
            return 0;
        }
        let ghost samples = self@.samples;
        let mut sum: u64 = 0;
        for i in 0..self.count
            invariant
                self.wf(),
                samples == self@.samples,
                sum == bitrate_sum(samples.take(i as int)),
                sum <= i * u32::MAX,
        {
            let index: usize = (self.start_index + i) % BITRATE_HISTORY_SIZE;
            assert(samples.take(i + 1).drop_last() =~= samples.take(i as int));
            assert(samples.take(i + 1).last() == self.history[index as int]);
            sum += self.history[index].bitrate_bps as u64;
        }
        assert(samples.take(self.count as int) =~= samples);
        proof {
            lemma_mean_fits(sum as int, self.count as int);
        }
        (sum / self.count as u64) as u32
    }
}

impl Clone for BitrateState {
    fn clone(&self) -> (state: BitrateState)
        ensures
            state@ == self@,
            self.wf() ==> state.wf(),
    {
        BitrateState {
            origin: self.origin,
            last_octet_count: self.last_octet_count,
            last_timestamp: self.last_timestamp,
            current_bitrate_bps: self.current_bitrate_bps,
            history: self.history,
            start_index: self.start_index,
            count: self.count,
            max_history_nanos: self.max_history_nanos,
        }
    }
}

proof fn lemma_mean_fits(sum: int, count: int)
    by (nonlinear_arith)
    requires
        0 < count,
        0 <= sum <= count * (u32::MAX as int),
    ensures
        0 <= sum / count <= u32::MAX,
{
}

/// Whether the samples are in the order of their times, none later than `now`.
pub open spec fn in_time_order(samples: Seq<BitrateSample>, now: u128) -> bool {
    &&& forall|i: int, j: int|
        0 <= i <= j < samples.len() ==> samples[i].timestamp <= samples[j].timestamp
    &&& forall|i: int| 0 <= i < samples.len() ==> (#[trigger] samples[i]).timestamp <= now
}

/// A well-formed state never holds more measurements than the history has room
/// for.
pub proof fn law_history_is_bounded(state: BitrateState)
    requires
        state.wf(),
    ensures
        state@.samples.len() <= BITRATE_HISTORY_SIZE,
{
}

/// The newest measurement is always kept, as the last of the history.
pub proof fn law_newest_sample_is_kept(view: BitrateView, timestamp: u128, bitrate_bps: u32)
    ensures
        view.with_sample(timestamp, bitrate_bps).samples.len() > 0,
        view.with_sample(timestamp, bitrate_bps).samples.last() == (BitrateSample {
            timestamp,
            bitrate_bps,
        }),
{
}

proof fn lemma_without_stale(samples: Seq<BitrateSample>, now: u128, max_history_nanos: u128)
    requires
        in_time_order(samples, now),
    ensures
        in_time_order(without_stale(samples, now, max_history_nanos), now),
        forall|i: int|
            0 <= i < without_stale(samples, now, max_history_nanos).len() ==> !is_stale(
                #[trigger] without_stale(samples, now, max_history_nanos)[i],
                now,
                max_history_nanos,
            ),
    decreases samples.len(),
{
    if samples.len() > 0 && is_stale(samples[0], now, max_history_nanos) {
        lemma_without_stale(samples.drop_first(), now, max_history_nanos);
    }
}

/// As long as the clock does not run backwards, the history stays in time order
/// and every measurement in it lies within the window.
pub proof fn law_history_stays_within_window(view: BitrateView, now: u128, bitrate_bps: u32)
    requires
        in_time_order(view.samples, now),
    ensures
        ({
            let samples = view.with_sample(now, bitrate_bps).samples;
            &&& in_time_order(samples, now)
            &&& forall|i: int|
                0 <= i < samples.len() ==> !is_stale(
                    #[trigger] samples[i],
                    now,
                    view.max_history_nanos,
                ) && samples[i].timestamp + view.max_history_nanos >= now
        }),
{
    lemma_without_stale(view.samples, now, view.max_history_nanos);
}

proof fn lemma_sum_bounds(samples: Seq<BitrateSample>, low: int, high: int)
    requires
        forall|i: int| 0 <= i < samples.len() ==> low <= (#[trigger] samples[i]).bitrate_bps <= high,
    ensures
        low * samples.len() <= bitrate_sum(samples) <= high * samples.len(),
    decreases samples.len(),
{
    if samples.len() > 0 {
        lemma_sum_bounds(samples.drop_last(), low, high);
        let n = (samples.len() - 1) as int;
        assert(low * (n + 1) == low * n + low) by (nonlinear_arith);
        assert(high * (n + 1) == high * n + high) by (nonlinear_arith);
    }
}

/// The mean lies between the bounds of what was measured.
pub proof fn law_average_lies_within_measurements(view: BitrateView, low: int, high: int)
    requires
        view.samples.len() > 0,
        forall|i: int|
            0 <= i < view.samples.len() ==> low <= (#[trigger] view.samples[i]).bitrate_bps
                <= high,
    ensures
        low <= view.average() <= high,
{
    lemma_sum_bounds(view.samples, low, high);
    let sum = bitrate_sum(view.samples) as int;
    let n = view.samples.len() as int;
    assert(low <= sum / n <= high) by (nonlinear_arith)
        requires
            0 < n,
            low * n <= sum <= high * n,
    ;
}

/// A report that comes no later than the last one changes neither the current
/// bitrate nor the history.
pub proof fn law_stalled_clock_measures_nothing(
    view: BitrateView,
    octet_count: u32,
    now: u128,
    bitrate_bps: u32,
)
    requires
        view.last_timestamp matches Some(last) && now <= last,
    ensures
        view.reported(octet_count, now, bitrate_bps).current_bitrate_bps
            == view.current_bitrate_bps,
        view.reported(octet_count, now, bitrate_bps).samples == view.samples,
{
}

/// The sum of the bitrates of two histories is that of both, and that of one sample is
/// its bitrate; the average is their quotient, rounded down.
pub proof fn law_average_is_the_rounded_quotient(
    first: Seq<BitrateSample>,
    second: Seq<BitrateSample>,
    one: BitrateSample,
    view: BitrateView,
)
    ensures
        bitrate_sum(first + second) == bitrate_sum(first) + bitrate_sum(second),
        bitrate_sum(seq![one]) == one.bitrate_bps,
        bitrate_sum(Seq::empty()) == 0,
        view.samples.len() == 0 ==> view.average() == 0,
        view.samples.len() > 0 ==> view.average() * view.samples.len() <= bitrate_sum(view.samples)
            < (view.average() + 1) * view.samples.len(),
    decreases second.len(),
{
    reveal_with_fuel(bitrate_sum, 2);
    assert(seq![one].drop_last() =~= Seq::empty());
    if second.len() == 0 {
        assert(first + second =~= first);
    } else {
        law_average_is_the_rounded_quotient(first, second.drop_last(), one, view);
        assert((first + second).drop_last() =~= first + second.drop_last());
        assert((first + second).last() == second.last());
    }
    if view.samples.len() > 0 {
        let (sum, n) = (bitrate_sum(view.samples) as int, view.samples.len() as int);
        let mean = sum / n;
        assert(mean * n <= sum < (mean + 1) * n) by (nonlinear_arith)
            requires
                n > 0,
                mean == sum / n,
        ;
    }
}

proof fn lemma_without_stale_is_a_tail(
    samples: Seq<BitrateSample>,
    now: u128,
    max_history_nanos: u128,
) -> (k: int)
    ensures
        0 <= k <= samples.len(),
        without_stale(samples, now, max_history_nanos) == samples.skip(k),
        forall|i: int|
            0 <= i < k ==> (#[trigger] samples[i]).timestamp + max_history_nanos < now,
        k < samples.len() ==> samples[k].timestamp + max_history_nanos >= now,
    decreases samples.len(),
{
    if samples.len() > 0 && is_stale(samples[0], now, max_history_nanos) {
        let rest = samples.drop_first();
        let k = lemma_without_stale_is_a_tail(rest, now, max_history_nanos);
        assert(rest.skip(k) =~= samples.skip(k + 1));
        assert forall|i: int| 0 <= i < k + 1 implies (#[trigger] samples[i]).timestamp
            + max_history_nanos < now by {
            if i > 0 {
                assert(rest[i - 1] == samples[i]);
            }
        }
        if k + 1 < samples.len() {
            assert(rest[k] == samples[k + 1]);
        }
        k + 1
    } else {
        assert(samples.skip(0) =~= samples);
        0
    }
}

/// A new measurement goes behind a tail of the history, in its order. What is left out
/// in front is older than the history goes back, but for the one sample that has to
/// make room where fifteen would still be there.
#[verifier::rlimit(50)]
pub proof fn law_history_loses_only_what_it_must(
    view: BitrateView,
    timestamp: u128,
    bitrate_bps: u32,
)
    ensures
        ({
            let (before, after) = (view.samples, view.with_sample(timestamp, bitrate_bps).samples);
            exists|k: int|
                0 <= k <= before.len() && after == (#[trigger] before.skip(k)).push(
                    BitrateSample { timestamp, bitrate_bps },
                ) && (forall|i: int|
                    0 <= i < k - 1 ==> (#[trigger] before[i]).timestamp + view.max_history_nanos
                        < timestamp) && (k > 0 ==> before[k - 1].timestamp + view.max_history_nanos
                    < timestamp || before.len() - k >= 14) && (k < before.len() ==> before[k].timestamp
                    + view.max_history_nanos >= timestamp || (k > 0 && before[k - 1].timestamp
                    + view.max_history_nanos >= timestamp))
        }),
        ({
            let after = view.with_sample(timestamp, bitrate_bps);
            &&& after == (BitrateView { samples: after.samples, ..view })
            &&& view.samples.len() <= 15 ==> after.samples.len() <= 15
        }),
{
    let (before, after) = (view.samples, view.with_sample(timestamp, bitrate_bps).samples);
    let k = lemma_without_stale_is_a_tail(before, timestamp, view.max_history_nanos);
    let kept = before.skip(k);
    let sample = BitrateSample { timestamp, bitrate_bps };
    if kept.len() < BITRATE_HISTORY_SIZE {
        assert(after == before.skip(k).push(sample));
    } else {
        assert(kept.drop_first() =~= before.skip(k + 1));
        assert(after == before.skip(k + 1).push(sample));
    }
}

/// Between two reports lie the octets by which the count grew, around its circle, and
/// the time by which the clock moved on; a first report, or a clock that did not move
/// on, gives nothing.
#[verifier::rlimit(50)]
pub proof fn law_interval_is_the_growth(view: BitrateView, octet_count: u32, now: u128)
    ensures
        match view.interval(octet_count, now) {
            Some((octets, nanos)) => {
                &&& view.last_timestamp matches Some(last)
                &&& nanos > 0
                &&& last + nanos == now
                &&& (view.last_octet_count + octets) % 0x1_0000_0000 == octet_count
            },
            None => view.last_timestamp matches Some(last) ==> now <= last,
        },
{
}

/// A report is remembered with its count and its time. Where it measures an interval,
/// the bitrate becomes the current one and the newest of the history; else both stay.
pub proof fn law_report_is_remembered(
    view: BitrateView,
    octet_count: u32,
    now: u128,
    bitrate_bps: u32,
)
    ensures
        ({
            let after = view.reported(octet_count, now, bitrate_bps);
            let measures = view.last_timestamp matches Some(last) && last < now;
            &&& after.last_octet_count == octet_count
            &&& after.last_timestamp == Some(now)
            &&& after.origin == view.origin
            &&& after.max_history_nanos == view.max_history_nanos
            &&& measures ==> after.current_bitrate_bps == bitrate_bps && after.samples
                == view.with_sample(now, bitrate_bps).samples
            &&& !measures ==> after.current_bitrate_bps == view.current_bitrate_bps && after.samples
                == view.samples
        }),
{
}

/// A new state has no history, and keeps five seconds of it.
pub proof fn law_new_history_is_empty(origin: Instant)
    ensures
        ({
            let view = BitrateView::initial(origin);
            &&& view.origin == origin
            &&& view.last_octet_count == 0
            &&& view.last_timestamp is None
            &&& view.current_bitrate_bps == 0
            &&& view.samples.len() == 0
            &&& view.max_history_nanos == 5_000_000_000
        }),
{
}

} // verus!
