//! How a track steers its source: when it asks for a key frame, and which bitrate it
//! asks for.
use crate::clock::{instant_now, nanos_between, nanos_since};
use crate::codec::{CapabilityView, MAX_VIDEO_BITRATE_BPS};
use crate::loss_stats::{report_fits, verdict, with_report, ReduceIncrease, REDUCE_ABOVE};
use crate::track_local_static_rtp::{StartTimes, TrackLocalStaticRTP, TrackView};
use std::time::Instant;
use vstd::prelude::*;

verus! {

/// A reception report about a track.
#[derive(Debug, Clone, Copy)]
pub struct ReceptionReport {
    pub ssrc: u32,
    pub fraction_lost: u8,
    pub total_lost: u32,
    pub last_sequence_number: u32,
    pub jitter: u32,
    pub last_sender_report: u32,
    pub delay: u32,
}

/// The target that follows from a target, the measured bitrate and what the losses
/// say; None where the target stays. A target below the present one is a share of
/// what was measured, one above it a step more than what was measured. A change of no
/// more than a twentieth is not made.
pub open spec fn next_target(
    target: u32,
    max_bitrate_bps: u32,
    measured_bps: nat,
    losses: ReduceIncrease,
) -> Option<int> {
    let capped = if measured_bps < target {
        measured_bps as int
    } else {
        target as int
    };
    let step = max_bitrate_bps as int / 20;
    let change = target as int / 20;
    if measured_bps == 0 {
        None
    } else {
        match losses {
            ReduceIncrease::Reduce(percent) => {
                let rest = if percent < 100 {
                    100 - percent
                } else {
                    0
                };
                let share = capped * rest / 100;
                let lower = if share < step {
                    step
                } else {
                    share
                };
                if target - lower > change {
                    Some(lower)
                } else {
                    None
                }
            },
            ReduceIncrease::Increase => {
                let grown = if step < capped / 2 {
                    capped + step
                } else {
                    capped + capped / 2
                };
                let higher = if grown < max_bitrate_bps {
                    grown
                } else {
                    max_bitrate_bps as int
                };
                if higher - target > change {
                    Some(higher)
                } else {
                    None
                }
            },
            ReduceIncrease::NoChange => None,
        }
    }
}

impl TrackView {
    /// Whether a key frame may be asked for at time `now_ms`.
    pub open spec fn pli_due(self, now_ms: u64) -> bool {
        let waited = if self.pli_last_ms < now_ms {
            now_ms - self.pli_last_ms
        } else {
            0
        };
        self.pli_interval_ms <= waited
    }

    /// An instant in microseconds since the start, of which the low 64 bits are kept.
    pub open spec fn micros_at(self, instant: Instant) -> u64 {
        (nanos_since(instant, self.start_remb_time) / 1000) as u64
    }

    /// Whether a bitrate estimate may be sent at time `now_micros`.
    pub open spec fn remb_due(self, now_micros: u64) -> bool {
        self.last_remb_sent + self.min_remb_interval_micros <= now_micros
    }

    /// The track once it has been asked at time `now_micros` whether a bitrate
    /// estimate may be sent, and the answer.
    pub open spec fn remb_asked(self, now_micros: u64) -> (TrackView, bool) {
        if self.remb_due(now_micros) {
            (TrackView { last_remb_sent: now_micros as i128, ..self }, true)
        } else {
            (self, false)
        }
    }

    /// The target that follows from what has been measured.
    pub open spec fn next_target(self) -> Option<int> {
        next_target(
            self.current_target_bitrate_bps,
            self.max_bitrate_bps,
            self.bitrate.average(),
            verdict(self.loss_stats.worst_fraction_lost, self.loss_stats.average_fraction_lost),
        )
    }

    /// The track once its target has been adapted at time `now_micros`, and the new
    /// target, if there is one. A change counts as sent at time `later_micros`.
    pub open spec fn adapted(self, now_micros: u64, later_micros: u64) -> (TrackView, Option<u32>) {
        if !self.remb_due(now_micros) {
            (self, None)
        } else {
            match self.next_target() {
                Some(target) => (
                    TrackView {
                        last_remb_sent: later_micros as i128,
                        current_target_bitrate_bps: target as u32,
                        ..self
                    },
                    Some(target as u32),
                ),
                None => (TrackView { last_remb_sent: now_micros as i128, ..self }, None),
            }
        }
    }
}

impl TrackLocalStaticRTP {
    /// Takes in what a receiver reports about the track now.
    pub fn handle_receiver_report(&mut self, receiver_ssrc: u32, report: &ReceptionReport)
        requires
            report_fits(old(self)@.loss_stats.receivers, receiver_ssrc, report.fraction_lost),
        ensures
            final(self)@ == (TrackView { loss_stats: final(self)@.loss_stats, ..old(self)@ }),
            final(self)@.loss_stats.receivers == with_report(
                old(self)@.loss_stats.receivers,
                receiver_ssrc,
                report.fraction_lost,
                report.total_lost as i32,
                final(self)@.loss_stats.last_update,
            ),
            final(self).loss_stats.wf(),
            old(self).wf() ==> final(self).wf(),
    {
        self.handle_receiver_report_at(receiver_ssrc, report, instant_now());
    }

    /// Takes in what a receiver reports about the track at time `now`.
    pub fn handle_receiver_report_at(
        &mut self,
        receiver_ssrc: u32,
        report: &ReceptionReport,
        now: Instant,
    )
        requires
            report_fits(old(self)@.loss_stats.receivers, receiver_ssrc, report.fraction_lost),
        ensures
            final(self)@ == (TrackView { loss_stats: final(self)@.loss_stats, ..old(self)@ }),
            final(self)@.loss_stats.receivers == with_report(
                old(self)@.loss_stats.receivers,
                receiver_ssrc,
                report.fraction_lost,
                report.total_lost as i32,
                now,
            ),
            final(self)@.loss_stats.last_update == now,
            final(self).loss_stats.wf(),
            old(self).wf() ==> final(self).wf(),
    {
        self.loss_stats.update_with_rr_at(
            receiver_ssrc,
            report.fraction_lost,
            #[verifier::truncate] (report.total_lost as i32),
            now,
        );
    }

    /// Whether a key frame may be asked for at time `now_ms`. Where it may, the request
    /// counts as made.
    pub fn should_fire_pli(&mut self, now_ms: u64) -> (fire: bool)
        ensures
            fire == old(self)@.pli_due(now_ms),
            final(self)@ == (if fire {
                TrackView { pli_last_ms: now_ms, ..old(self)@ }
            } else {
                old(self)@
            }),
            old(self).wf() ==> final(self).wf(),
    {
        if now_ms.saturating_sub(self.pli_last_ms) < self.pli_interval_ms {
            return false;
        }
        self.pli_last_ms = now_ms;
        true
    }

    /// An instant in microseconds since the start, of which the low 64 bits are kept.
    pub fn instant_to_micros(&self, instant: Instant) -> (micros: u64)
        ensures
            micros == self@.micros_at(instant),
    {
        #[verifier::truncate] ((nanos_between(&instant, &self.start_remb_time) / 1000) as u64)
    }

    /// Whether a bitrate estimate may be sent now. Where it may, it counts as sent. Where
    /// it may be sent from the start on, it may be now.
    pub fn should_send_remb(&mut self) -> (due: bool)
        ensures
            old(self)@.remb_due(0) ==> due,
            exists|now: Instant|
                old(self)@.remb_asked(#[trigger] old(self)@.micros_at(now)) == (final(self)@, due),
            old(self).wf() ==> final(self).wf(),
    {
        let now = instant_now();
        let now_micros: u64 = self.instant_to_micros(now);
        let due = self.should_send_remb_at(now_micros);
        assert(old(self)@.remb_asked(old(self)@.micros_at(now)) == (self@, due));
        due
    }

    /// Whether a bitrate estimate may be sent at time `now_micros`, in microseconds
    /// since the start. Where it may, it counts as sent.
    pub fn should_send_remb_at(&mut self, now_micros: u64) -> (due: bool)
        ensures
            (final(self)@, due) == old(self)@.remb_asked(now_micros),
            old(self).wf() ==> final(self).wf(),
    {
        let earliest = self.last_remb_sent.checked_add(self.min_remb_interval_micros as i128);
        let due = match earliest {
            Some(earliest) => earliest <= now_micros as i128,
            None => false,
        };
        if due {
            self.last_remb_sent = now_micros as i128;
        }
        due
    }

    /// The target that follows from what has been measured, if it is another one.
    pub fn next_target_bitrate(&self) -> (target: Option<u32>)
        requires
            self.wf(),
        ensures
            match target {
                Some(target) => self@.next_target() == Some(target as int),
                None => self@.next_target() is None,
            },
            target matches Some(target) ==> self@.max_bitrate_bps / 20 <= target
                <= self@.max_bitrate_bps,
    {
        let current_target: u32 = self.current_target_bitrate_bps;
        let change_threshold: u32 = current_target / 20;
        let min_bitrate: u32 = self.max_bitrate_bps / 20;
        assert(self.max_bitrate_bps <= MAX_VIDEO_BITRATE_BPS);
        let measured: u32 = self.bitrate.average_bitrate();
        if measured == 0 {
            return None;
        }
        let real_bitrate: u32 = if measured < current_target {
            measured
        } else {
            current_target
        };
        match self.loss_stats.should_reduce() {
            ReduceIncrease::Reduce(percent) => {
                let rest: u32 = if percent < 100 {
                    100 - percent
                } else {
                    0
                };
                assert(0 <= real_bitrate * rest <= 100 * MAX_VIDEO_BITRATE_BPS && real_bitrate
                    * rest / 100 <= real_bitrate) by (nonlinear_arith)
                    requires
                        0 <= rest <= 100,
                        0 <= real_bitrate <= MAX_VIDEO_BITRATE_BPS,
                ;
                let share: u32 = real_bitrate * rest / 100;
                let lower: u32 = if share < min_bitrate {
                    min_bitrate
                } else {
                    share
                };
                if lower < current_target && current_target - lower > change_threshold {
                    Some(lower)
                } else {
                    None
                }
            },
            ReduceIncrease::Increase => {
                let proposed_increase: u32 = real_bitrate + min_bitrate;
                let max_safe_increase: u32 = real_bitrate + (real_bitrate / 2);
                let grown: u32 = if proposed_increase < max_safe_increase {
                    proposed_increase
                } else {
                    max_safe_increase
                };
                let higher: u32 = if grown < self.max_bitrate_bps {
                    grown
                } else {
                    self.max_bitrate_bps
                };
                if higher > current_target && higher - current_target > change_threshold {
                    Some(higher)
                } else {
                    None
                }
            },
            ReduceIncrease::NoChange => None,
        }
    }

    /// Adapts the target, at most once per interval, and gives the new one where it
    /// changed. Where that may be done from the start on, it is done now.
    pub fn adapt_bitrate(&mut self) -> (target: Option<u32>)
        requires
            old(self).wf(),
        ensures
            exists|now: Instant, later: Instant|
                old(self)@.adapted(
                    #[trigger] old(self)@.micros_at(now),
                    #[trigger] old(self)@.micros_at(later),
                ) == (final(self)@, target),
            old(self)@.remb_due(0) ==> match old(self)@.next_target() {
                Some(next) => target == Some(next as u32),
                None => target is None,
            },
            final(self).wf(),
    {
        let now = instant_now();
        let now_micros: u64 = self.instant_to_micros(now);
        let later = instant_now();
        let later_micros: u64 = self.instant_to_micros(later);
        let target = self.adapt_bitrate_at(now_micros, later_micros);
        assert(old(self)@.adapted(old(self)@.micros_at(now), old(self)@.micros_at(later)) == (
            self@,
            target,
        ));
        target
    }

    /// Adapts the target at time `now_micros`, in microseconds since the start, and
    /// gives the new one where it changed. A change counts as sent at time
    /// `later_micros`.
    pub fn adapt_bitrate_at(&mut self, now_micros: u64, later_micros: u64) -> (target: Option<u32>)
        requires
            old(self).wf(),
        ensures
            (final(self)@, target) == old(self)@.adapted(now_micros, later_micros),
            final(self).wf(),
    {
        if !self.should_send_remb_at(now_micros) {
            return None;
        }
        match self.next_target_bitrate() {
            Some(target) => {
                self.last_remb_sent = later_micros as i128;
                self.current_target_bitrate_bps = target;
                Some(target)
            },
            None => None,
        }
    }
}

/// Two requests for a key frame are at least an interval apart.
pub proof fn law_key_frame_requests_are_an_interval_apart(
    track: TrackView,
    first_ms: u64,
    next_ms: u64,
)
    requires
        track.pli_due(first_ms),
        track.pli_interval_ms > 0,
        (TrackView { pli_last_ms: first_ms, ..track }).pli_due(next_ms),
    ensures
        next_ms >= first_ms + track.pli_interval_ms,
{
}

/// On a new track a bitrate estimate may be sent at once.
pub proof fn law_new_track_may_send_an_estimate(
    codec: CapabilityView,
    id: Seq<char>,
    rid: Option<Seq<char>>,
    stream_id: Seq<char>,
    max_bitrate_bps: u32,
    times: StartTimes,
    now_micros: u64,
)
    ensures
        TrackView::initial(codec, id, rid, stream_id, max_bitrate_bps, times).remb_due(now_micros),
{
}

/// Two bitrate estimates are at least an interval apart, on one and the same clock.
pub proof fn law_estimates_are_an_interval_apart(
    track: TrackView,
    first_micros: u64,
    next_micros: u64,
)
    requires
        track.remb_asked(first_micros).1,
        track.remb_asked(first_micros).0.remb_asked(next_micros).1,
    ensures
        next_micros >= first_micros + track.min_remb_interval_micros,
        track.remb_asked(first_micros).0.start_remb_time == track.start_remb_time,
{
}

/// Whether the target lies between a twentieth of the largest bitrate and all of it.
pub open spec fn target_in_range(track: TrackView) -> bool {
    track.max_bitrate_bps / 20 <= track.current_target_bitrate_bps <= track.max_bitrate_bps
}

/// Two changes of the target are at least an interval apart: after one, the next
/// comes no sooner than an interval after the time at which the first counts as sent.
pub proof fn law_changes_are_an_interval_apart(
    track: TrackView,
    now_micros: u64,
    later_micros: u64,
    next_now_micros: u64,
    next_later_micros: u64,
)
    requires
        track.adapted(now_micros, later_micros).1 is Some,
        track.adapted(now_micros, later_micros).0.adapted(
            next_now_micros,
            next_later_micros,
        ).1 is Some,
    ensures
        next_now_micros >= later_micros + track.min_remb_interval_micros,
{
}

/// The target never leaves its range, whatever is measured.
pub proof fn law_target_stays_in_range(track: TrackView, now_micros: u64, later_micros: u64)
    requires
        target_in_range(track),
    ensures
        target_in_range(track.adapted(now_micros, later_micros).0),
{
    lemma_next_target_in_range(track);
}

proof fn lemma_next_target_in_range(track: TrackView)
    requires
        target_in_range(track),
    ensures
        track.next_target() matches Some(target) ==> track.max_bitrate_bps / 20 <= target
            <= track.max_bitrate_bps,
{
    let losses = verdict(
        track.loss_stats.worst_fraction_lost,
        track.loss_stats.average_fraction_lost,
    );
    if let ReduceIncrease::Reduce(percent) = losses {
        let capped = if track.bitrate.average() < track.current_target_bitrate_bps {
            track.bitrate.average() as int
        } else {
            track.current_target_bitrate_bps as int
        };
        let rest = if percent < 100 {
            100 - percent
        } else {
            0
        };
        assert(capped * rest / 100 <= capped) by (nonlinear_arith)
            requires
                0 <= rest <= 100,
                0 <= capped,
        ;
    }
}

/// Where a new target is given, it differs from the one before by more than a
/// twentieth of it, it is the track's target from then on, and it is lower only where
/// the losses ask for less and higher only where they allow for more. Where none is
/// given the target stays.
pub proof fn law_only_real_changes_are_made(track: TrackView, now_micros: u64, later_micros: u64)
    requires
        target_in_range(track),
    ensures
        ({
            let before = track.current_target_bitrate_bps;
            let (after, change) = track.adapted(now_micros, later_micros);
            let losses = verdict(
                track.loss_stats.worst_fraction_lost,
                track.loss_stats.average_fraction_lost,
            );
            match change {
                Some(target) => {
                    &&& after.current_target_bitrate_bps == target
                    &&& target < before ==> before - target > before / 20 && losses is Reduce
                    &&& target >= before ==> target - before > before / 20 && losses is Increase
                },
                None => after.current_target_bitrate_bps == before,
            }
        }),
{
    lemma_next_target_in_range(track);
}

/// A higher target is at most half as much again as what was measured.
pub proof fn law_increase_is_cautious(track: TrackView)
    requires
        target_in_range(track),
    ensures
        track.next_target() matches Some(target) ==> target > track.current_target_bitrate_bps
            ==> target <= track.bitrate.average() + track.bitrate.average() / 2,
{
    lemma_next_target_in_range(track);
}

/// A loss of all packets or more takes the target down to a twentieth of the largest
/// bitrate, where that is a change at all.
pub proof fn law_total_loss_ends_at_the_least_bitrate(track: TrackView)
    requires
        track.bitrate.average() > 0,
        track.loss_stats.worst_fraction_lost > REDUCE_ABOVE,
        track.loss_stats.average_fraction_lost >= 100,
    ensures
        ({
            let (least, target) = (track.max_bitrate_bps / 20, track.current_target_bitrate_bps);
            track.next_target() == if target - least > target / 20 {
                Some(least as int)
            } else {
                None
            }
        }),
{
    let capped = if track.bitrate.average() < track.current_target_bitrate_bps {
        track.bitrate.average() as int
    } else {
        track.current_target_bitrate_bps as int
    };
    assert(capped * 0 / 100 == 0) by (nonlinear_arith);
}

/// Without a measurement the target stays.
pub proof fn law_nothing_measured_changes_nothing(track: TrackView)
    requires
        track.bitrate.average() == 0,
    ensures
        track.next_target() is None,
{
}

/// What a reduction goes by: the measured bitrate, but no more than the target.
pub open spec fn is_measured_base(track: TrackView, base: int) -> bool {
    &&& base <= track.bitrate.average()
    &&& base <= track.current_target_bitrate_bps
    &&& base == track.bitrate.average() || base == track.current_target_bitrate_bps
}

/// Whether `percent` is the reduction that the losses ask for: the mean loss, but at
/// least 20.
pub open spec fn is_asked_reduction(track: TrackView, percent: int) -> bool {
    &&& percent >= 20
    &&& percent >= track.loss_stats.average_fraction_lost
    &&& percent == 20 || percent == track.loss_stats.average_fraction_lost
}

/// Where losses ask for a reduction, the new target is what is left of the base, rounded
/// down, but no less than a twentieth of the largest bitrate, and it is given just where
/// it lies more than a twentieth below the old one. `target` is any candidate.
#[verifier::rlimit(50)]
pub proof fn law_reduction_leaves_the_rest(track: TrackView, base: int, percent: int, target: int)
    requires
        track.bitrate.average() > 0,
        track.loss_stats.worst_fraction_lost > 10,
        is_measured_base(track, base),
        is_asked_reduction(track, percent),
    ensures
        ({
            let least = track.max_bitrate_bps as int / 20;
            let rest = if percent < 100 {
                base * (100 - percent)
            } else {
                0
            };
            (track.next_target() == Some(target)) == {
                &&& target >= least
                &&& rest < 100 * (target + 1)
                &&& target == least || 100 * target <= rest
                &&& track.current_target_bitrate_bps - target > track.current_target_bitrate_bps
                    as int / 20
            }
        }),
{
    let rest = if percent < 100 {
        100 - percent
    } else {
        0
    };
    assert(0 <= base * rest) by (nonlinear_arith)
        requires
            0 <= base,
            0 <= rest,
    ;
    assert(percent >= 100 ==> base * rest == 0) by (nonlinear_arith)
        requires
            percent >= 100 ==> rest == 0,
    ;
}

/// Where losses allow for more, the new target is the least of the base and a twentieth
/// of the largest bitrate, the base and half of it, and the largest bitrate, and it is
/// given just where it lies more than a twentieth above the old one. `target` is any
/// candidate.
#[verifier::rlimit(50)]
pub proof fn law_increase_is_the_least_of_three(track: TrackView, base: int, target: int)
    requires
        track.bitrate.average() > 0,
        track.loss_stats.worst_fraction_lost <= 2,
        is_measured_base(track, base),
    ensures
        ({
            let (step, half) = (track.max_bitrate_bps as int / 20, base / 2);
            (track.next_target() == Some(target)) == {
                &&& target <= base + step
                &&& target <= base + half
                &&& target <= track.max_bitrate_bps
                &&& target == base + step || target == base + half || target
                    == track.max_bitrate_bps
                &&& target - track.current_target_bitrate_bps > track.current_target_bitrate_bps
                    as int / 20
            }
        }),
{
}

/// A worst loss above 2 and up to 10 leaves the target, whatever was measured.
pub proof fn law_moderate_loss_leaves_the_target(track: TrackView)
    requires
        2 < track.loss_stats.worst_fraction_lost <= 10,
    ensures
        track.next_target() is None,
{
}

/// A key frame may be asked for once the interval has passed since the last request.
pub proof fn law_key_frame_is_due_after_the_interval(track: TrackView, now_ms: u64)
    requires
        track.pli_interval_ms > 0,
    ensures
        track.pli_due(now_ms) == (now_ms - track.pli_last_ms >= track.pli_interval_ms),
{
}

/// An estimate is granted just where the interval has passed since the last one; it then
/// counts as sent, and nothing else changes. Where it is not granted nothing changes.
pub proof fn law_estimate_is_granted_after_the_interval(track: TrackView, now_micros: u64)
    ensures
        ({
            let (after, granted) = track.remb_asked(now_micros);
            &&& granted == (now_micros - track.last_remb_sent >= track.min_remb_interval_micros)
            &&& track.remb_due(now_micros) == granted
            &&& granted ==> after.last_remb_sent == now_micros
            &&& !granted ==> after.last_remb_sent == track.last_remb_sent
            &&& after == (TrackView { last_remb_sent: after.last_remb_sent, ..track })
        }),
{
}

/// Adapting before the interval has passed changes nothing and gives nothing. After it,
/// the attempt counts as sent; where the measurements give another target, that is the
/// track's target and the result, and the later time counts. Nothing else changes.
pub proof fn law_adapting_is_one_estimate(track: TrackView, now_micros: u64, later_micros: u64)
    requires
        target_in_range(track),
    ensures
        ({
            let (after, given) = track.adapted(now_micros, later_micros);
            let due = now_micros - track.last_remb_sent >= track.min_remb_interval_micros;
            &&& !due ==> after == track && given is None
            &&& due ==> match given {
                Some(target) => {
                    &&& track.next_target() == Some(target as int)
                    &&& after.current_target_bitrate_bps == target
                    &&& after.last_remb_sent == later_micros
                },
                None => {
                    &&& track.next_target() is None
                    &&& after.current_target_bitrate_bps == track.current_target_bitrate_bps
                    &&& after.last_remb_sent == now_micros
                },
            }
            &&& after == (TrackView {
                last_remb_sent: after.last_remb_sent,
                current_target_bitrate_bps: after.current_target_bitrate_bps,
                ..track
            })
        }),
{
    lemma_next_target_in_range(track);
}

/// An instant is counted in whole microseconds from the start.
pub proof fn law_instants_are_counted_from_the_start(track: TrackView, instant: Instant)
    requires
        nanos_since(instant, track.start_remb_time) / 1000 <= u64::MAX,
    ensures
        1000 * track.micros_at(instant) <= nanos_since(instant, track.start_remb_time) < 1000 * (
        track.micros_at(instant) + 1),
{
}

} // verus!
