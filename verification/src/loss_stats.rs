//! Packet loss as the receivers of a track report it.
use crate::clock::instant_now;
use std::collections::HashMap;
use std::time::Instant;
use vstd::prelude::*;

verus! {

broadcast use vstd::std_specs::hash::group_hash_axioms;

/// A worst loss above this asks for less bitrate.
pub const REDUCE_ABOVE: u8 = 10;

/// A worst loss up to this allows more bitrate.
pub const INCREASE_UP_TO: u8 = 2;

/// The least percentage by which the bitrate is reduced.
pub const LEAST_REDUCTION: u32 = 20;

/// What one receiver last reported.
#[derive(Debug)]
pub struct SingleReceiverStats {
    fraction_lost: u8,
    packets_lost: i32,
    last_report_time: Instant,
    report_count: u32,
}

/// The mathematical value of a `SingleReceiverStats`.
pub struct ReceiverView {
    pub fraction_lost: u8,
    pub packets_lost: i32,
    pub last_report_time: Instant,
    pub report_count: u32,
}

impl View for SingleReceiverStats {
    type V = ReceiverView;

    closed spec fn view(&self) -> ReceiverView {
        ReceiverView {
            fraction_lost: self.fraction_lost,
            packets_lost: self.packets_lost,
            last_report_time: self.last_report_time,
            report_count: self.report_count,
        }
    }
}

/// The last report of every receiver, and what they come to.
#[derive(Debug)]
pub struct ReceiverLossStats {
    /// The mean of the fractions lost.
    pub average_fraction_lost: u8,
    /// The largest of the fractions lost.
    pub worst_fraction_lost: u8,
    /// By the SSRC of the receiver.
    receiver_stats: HashMap<u32, SingleReceiverStats>,
    last_update: Instant,
}

/// What the loss says about the bitrate.
#[derive(Debug, Clone, Copy, PartialEq, Eq, Structural)]
pub enum ReduceIncrease {
    /// Reduce by so many percent.
    Reduce(u32),
    Increase,
    NoChange,
}

/// The sum of the fractions lost over the receivers with an SSRC below `end`.
pub open spec fn fraction_sum_below(receivers: Map<u32, ReceiverView>, end: nat) -> nat
    decreases end,
{
    if end == 0 {
        0
    } else {
        let ssrc = (end - 1) as u32;
        fraction_sum_below(receivers, (end - 1) as nat) + if receivers.contains_key(ssrc) {
            receivers[ssrc].fraction_lost as nat
        } else {
            0
        }
    }
}

/// The sum of the fractions lost over all receivers.
pub open spec fn fraction_sum(receivers: Map<u32, ReceiverView>) -> nat {
    fraction_sum_below(receivers, 0x1_0000_0000)
}

/// The mean of the fractions lost, rounded down; zero without receivers.
pub open spec fn mean_fraction(receivers: Map<u32, ReceiverView>) -> nat {
    if receivers.dom().len() == 0 {
        0
    } else {
        fraction_sum(receivers) / receivers.dom().len()
    }
}

/// Whether `worst` is the largest of the fractions lost; zero without receivers.
pub open spec fn is_worst_fraction(receivers: Map<u32, ReceiverView>, worst: u8) -> bool {
    &&& forall|ssrc: u32| #[trigger]
        receivers.contains_key(ssrc) ==> receivers[ssrc].fraction_lost <= worst
    &&& worst > 0 ==> exists|ssrc: u32| #[trigger]
        receivers.contains_key(ssrc) && receivers[ssrc].fraction_lost == worst
}

/// The receivers after a report of one of them that came at time `now`.
pub open spec fn with_report(
    receivers: Map<u32, ReceiverView>,
    receiver_ssrc: u32,
    fraction_lost: u8,
    packets_lost: i32,
    now: Instant,
) -> Map<u32, ReceiverView> {
    receivers.insert(
        receiver_ssrc,
        ReceiverView {
            fraction_lost,
            packets_lost,
            last_report_time: now,
            report_count: if receivers.contains_key(receiver_ssrc) {
                (receivers[receiver_ssrc].report_count + 1) as u32
            } else {
                1
            },
        },
    )
}

/// Whether the sums over the receivers can be kept in 32 bits once a report of
/// this fraction has come in.
pub open spec fn report_fits(
    receivers: Map<u32, ReceiverView>,
    receiver_ssrc: u32,
    fraction_lost: u8,
) -> bool {
    let others = receivers.remove(receiver_ssrc);
    &&& receivers.contains_key(receiver_ssrc) ==> receivers[receiver_ssrc].report_count < u32::MAX
    &&& fraction_sum(others) + fraction_lost <= u32::MAX
    &&& receivers.dom().insert(receiver_ssrc).len() <= u32::MAX
}

/// What a worst and a mean loss say about the bitrate.
pub open spec fn verdict(worst: u8, average: u8) -> ReduceIncrease {
    if worst > REDUCE_ABOVE {
        ReduceIncrease::Reduce(
            if average < LEAST_REDUCTION {
                LEAST_REDUCTION
            } else {
                average as u32
            },
        )
    } else if worst <= INCREASE_UP_TO {
        ReduceIncrease::Increase
    } else {
        ReduceIncrease::NoChange
    }
}

proof fn lemma_sum_ignores_outside(
    a: Map<u32, ReceiverView>,
    b: Map<u32, ReceiverView>,
    end: nat,
)
    requires
        end <= 0x1_0000_0000,
        forall|ssrc: u32|
            ssrc < end ==> (#[trigger] a.contains_key(ssrc) == b.contains_key(ssrc)) && (
            a.contains_key(ssrc) ==> a[ssrc].fraction_lost == b[ssrc].fraction_lost),
    ensures
        fraction_sum_below(a, end) == fraction_sum_below(b, end),
    decreases end,
{
    if end > 0 {
        lemma_sum_ignores_outside(a, b, (end - 1) as nat);
        assert(a.contains_key((end - 1) as u32) == b.contains_key((end - 1) as u32));
    }
}

/// Inserting a receiver adds its fraction and takes away the one it had.
proof fn lemma_sum_insert(m: Map<u32, ReceiverView>, ssrc: u32, v: ReceiverView, end: nat)
    requires
        ssrc < end <= 0x1_0000_0000,
    ensures
        fraction_sum_below(m.insert(ssrc, v), end) == fraction_sum_below(m, end) + v.fraction_lost
            - if m.contains_key(ssrc) {
            m[ssrc].fraction_lost as int
        } else {
            0
        },
    decreases end,
{
    if end - 1 == ssrc {
        lemma_sum_ignores_outside(m.insert(ssrc, v), m, (end - 1) as nat);
    } else {
        lemma_sum_insert(m, ssrc, v, (end - 1) as nat);
    }
}

/// Taking a receiver away takes its fraction away.
proof fn lemma_sum_remove(m: Map<u32, ReceiverView>, ssrc: u32)
    ensures
        fraction_sum(m.remove(ssrc)) == fraction_sum(m) - if m.contains_key(ssrc) {
            m[ssrc].fraction_lost as int
        } else {
            0
        },
{
    if m.contains_key(ssrc) {
        lemma_sum_insert(m.remove(ssrc), ssrc, m[ssrc], 0x1_0000_0000);
        assert(m.remove(ssrc).insert(ssrc, m[ssrc]) =~= m);
    } else {
        assert(m.remove(ssrc) =~= m);
    }
}

/// The mathematical value of a `ReceiverLossStats`.
#[verifier::ext_equal]
pub struct LossView {
    pub average_fraction_lost: u8,
    pub worst_fraction_lost: u8,
    pub receivers: Map<u32, ReceiverView>,
    pub last_update: Instant,
}

impl View for ReceiverLossStats {
    type V = LossView;

    closed spec fn view(&self) -> LossView {
        LossView {
            average_fraction_lost: self.average_fraction_lost,
            worst_fraction_lost: self.worst_fraction_lost,
            receivers: self.receiver_stats@.map_values(|s: SingleReceiverStats| s@),
            last_update: self.last_update,
        }
    }
}

impl ReceiverLossStats {
    /// No receivers and no loss.
    pub fn new() -> (stats: ReceiverLossStats)
        ensures
            stats@.receivers == Map::<u32, ReceiverView>::empty(),
            stats@.worst_fraction_lost == 0,
            stats@.average_fraction_lost == 0,
            stats.wf(),
    {
        let stats = ReceiverLossStats {
            receiver_stats: HashMap::new(),
            worst_fraction_lost: 0,
            average_fraction_lost: 0,
            last_update: instant_now(),
        };
        assert(stats@.receivers =~= Map::<u32, ReceiverView>::empty());
        stats
    }

    /// The stored aggregates are those of the stored reports.
    pub open spec fn wf(self) -> bool {
        &&& self@.receivers.dom().finite()
        &&& is_worst_fraction(self@.receivers, self@.worst_fraction_lost)
        &&& self@.average_fraction_lost == mean_fraction(self@.receivers)
    }

    /// Whether a report of this fraction lost can be taken in: the sums over the
    /// receivers must fit into 32 bits.
    pub fn can_update(&self, receiver_ssrc: u32, fraction_lost: u8) -> (fits: bool)
        ensures
            fits == report_fits(self@.receivers, receiver_ssrc, fraction_lost),
    {
        let (count, sum, _) = self.totals();
        let ghost receivers = self@.receivers;
        proof {
            lemma_sum_remove(receivers, receiver_ssrc);
            lemma_totals_small(receivers);
        }
        match self.receiver_stats.get(&receiver_ssrc) {
            Some(stats) => {
                assert(receivers.dom().insert(receiver_ssrc) =~= receivers.dom());
                stats.report_count < u32::MAX && sum + fraction_lost as u64
                    - stats.fraction_lost as u64 <= u32::MAX as u64 && count <= u32::MAX as u64
            },
            None => sum + fraction_lost as u64 <= u32::MAX as u64 && count < u32::MAX as u64,
        }
    }

    /// Takes in the report of a receiver that comes now, in place of its last one.
    pub fn update_with_rr(&mut self, receiver_ssrc: u32, fraction_lost: u8, packets_lost: i32)
        requires
            report_fits(old(self)@.receivers, receiver_ssrc, fraction_lost),
        ensures
            final(self)@.receivers == with_report(
                old(self)@.receivers,
                receiver_ssrc,
                fraction_lost,
                packets_lost,
                final(self)@.last_update,
            ),
            final(self).wf(),
    {
        self.update_with_rr_at(receiver_ssrc, fraction_lost, packets_lost, instant_now());
    }

    /// Takes in the report of a receiver that comes at time `now`, in place of its last
    /// one.
    pub fn update_with_rr_at(
        &mut self,
        receiver_ssrc: u32,
        fraction_lost: u8,
        packets_lost: i32,
        now: Instant,
    )
        requires
            report_fits(old(self)@.receivers, receiver_ssrc, fraction_lost),
        ensures
            final(self)@.receivers == with_report(
                old(self)@.receivers,
                receiver_ssrc,
                fraction_lost,
                packets_lost,
                now,
            ),
            final(self)@.last_update == now,
            final(self).wf(),
    {
        let report_count: u32 = match self.receiver_stats.get(&receiver_ssrc) {
            Some(stats) => stats.report_count,
            None => 0,
        };
        let ghost before = self@.receivers;
        self.receiver_stats.insert(
            receiver_ssrc,
            SingleReceiverStats {
                fraction_lost,
                packets_lost,
                last_report_time: now,
                report_count: report_count + 1,
            },
        );
        proof {
            let after = with_report(before, receiver_ssrc, fraction_lost, packets_lost, now);
            assert(self@.receivers =~= after);
            assert(after.dom() =~= before.dom().insert(receiver_ssrc));
            lemma_sum_remove(before, receiver_ssrc);
            lemma_sum_insert(before, receiver_ssrc, after[receiver_ssrc], 0x1_0000_0000);
        }
        self.recalculate_aggregates();
        self.last_update = now;
    }

    /// Computes the worst and the mean loss anew. Where they are those of the stored
    /// reports already, nothing changes.
    pub fn recalculate_aggregates(&mut self)
        requires
            fraction_sum(old(self)@.receivers) <= u32::MAX,
            old(self)@.receivers.dom().len() <= u32::MAX,
        ensures
            final(self)@.receivers == old(self)@.receivers,
            final(self)@.last_update == old(self)@.last_update,
            final(self).wf(),
            old(self).wf() ==> final(self)@ == old(self)@,
    {
        let (count, sum, worst) = self.totals();
        self.worst_fraction_lost = worst;
        if count == 0 {
            self.average_fraction_lost = 0;
        } else {
            proof {
                lemma_mean_is_fraction(self@.receivers);
            }
            self.average_fraction_lost = (sum / count) as u8;
        }
        proof {
            if old(self).wf() {
                law_reports_fix_the_aggregates(*old(self), *self);
            }
        }
    }

    /// What the reports say about the bitrate.
    pub fn should_reduce(&self) -> (change: ReduceIncrease)
        ensures
            change == verdict(self@.worst_fraction_lost, self@.average_fraction_lost),
    {
        if self.worst_fraction_lost > REDUCE_ABOVE {
            let average = self.average_fraction_lost as u32;
            ReduceIncrease::Reduce(
                if average < LEAST_REDUCTION {
                    LEAST_REDUCTION
                } else {
                    average
                },
            )
        } else if self.worst_fraction_lost <= INCREASE_UP_TO {
            ReduceIncrease::Increase
        } else {
            ReduceIncrease::NoChange
        }
    }

    /// The number of receivers, the sum of their fractions lost and the largest.
    fn totals(&self) -> (totals: (u64, u64, u8))
        ensures
            self@.receivers.dom().finite(),
            totals.0 == self@.receivers.dom().len(),
            totals.1 == fraction_sum(self@.receivers),
            is_worst_fraction(self@.receivers, totals.2),
    {
        let mut count: u64 = 0;
        let mut sum: u64 = 0;
        let mut worst: u8 = 0;
        let ghost mut seen = Map::<u32, ReceiverView>::empty();
        proof {
            lemma_sum_of_nothing(0x1_0000_0000);
        }
        for kv in iter: self.receiver_stats.iter()
            invariant
                seen.dom().finite(),
                seen.dom().len() == iter.index(),
                count == iter.index(),
                iter.seq().no_duplicates(),
                sum == fraction_sum(seen),
                sum <= 255 * iter.index(),
                is_worst_fraction(seen, worst),
                forall|ssrc: u32|
                    seen.contains_key(ssrc) <==> exists|i: int|
                        0 <= i < iter.index() && *(#[trigger] iter.seq()[i]).0 == ssrc,
                forall|ssrc: u32| #[trigger] seen.contains_key(ssrc) ==> seen[ssrc] == self@.receivers[ssrc],
                forall|i: int|
                    0 <= i < iter.seq().len() ==> self.receiver_stats@.contains_key(
                        *(#[trigger] iter.seq()[i]).0,
                    ) && self.receiver_stats@[*iter.seq()[i].0] == *iter.seq()[i].1,
        {
            let (ssrc, stats) = kv;
            let ghost before = seen;
            proof {
                let at = iter.index();
                assert(iter.seq()[at] == kv);
                if before.contains_key(*ssrc) {
                    let i = choose|i: int|
                        0 <= i < at && *(#[trigger] iter.seq()[i]).0 == *ssrc;
                    assert(iter.seq()[i] == iter.seq()[at]);
                }
                seen = before.insert(*ssrc, stats@);
                lemma_sum_insert(before, *ssrc, stats@, 0x1_0000_0000);
                lemma_few_ssrcs(seen.dom(), 0x1_0000_0000);
                assert(self@.receivers.contains_key(*ssrc));
            }
            count = count + 1;
            sum = sum + stats.fraction_lost as u64;
            if stats.fraction_lost > worst {
                worst = stats.fraction_lost;
            }
            proof {
                assert(seen.contains_key(*ssrc));
                assert forall|k: u32| #[trigger] seen.contains_key(k) implies seen[k].fraction_lost
                    <= worst by {
                    assert(k != *ssrc ==> before.contains_key(k));
                }
                if worst > 0 && worst != stats.fraction_lost {
                    let k = choose|k: u32| #[trigger]
                        before.contains_key(k) && before[k].fraction_lost == worst;
                    assert(seen.contains_key(k));
                }
                assert forall|k: u32|
                    seen.contains_key(k) <==> exists|i: int|
                        0 <= i < iter.index() + 1 && *(#[trigger] iter.seq()[i]).0 == k by {
                    if before.contains_key(k) {
                        let i = choose|i: int|
                            0 <= i < iter.index() && *(#[trigger] iter.seq()[i]).0 == k;
                        assert(0 <= i < iter.index() + 1 && *iter.seq()[i].0 == k);
                    }
                }
            }
        }
        assert(seen =~= self@.receivers);
        (count, sum, worst)
    }
}

/// The sum over receivers is at most the largest fraction for each of them.
proof fn lemma_sum_at_most(receivers: Map<u32, ReceiverView>, end: nat, most: nat) -> (below: Set<
    u32,
>)
    requires
        end <= 0x1_0000_0000,
        receivers.dom().finite(),
        forall|ssrc: u32| #[trigger]
            receivers.contains_key(ssrc) ==> receivers[ssrc].fraction_lost <= most,
    ensures
        below == receivers.dom().filter(|ssrc: u32| ssrc < end),
        below.finite(),
        fraction_sum_below(receivers, end) <= most * below.len(),
    decreases end,
{
    let below = receivers.dom().filter(|ssrc: u32| ssrc < end);
    if end == 0 {
        assert(below =~= Set::empty());
    } else {
        let last = (end - 1) as u32;
        let fewer = lemma_sum_at_most(receivers, (end - 1) as nat, most);
        assert(below.remove(last) =~= fewer);
        if receivers.contains_key(last) {
            assert(below.contains(last));
            assert(most * below.len() == most * fewer.len() + most) by (nonlinear_arith)
                requires
                    below.len() == fewer.len() + 1,
            ;
        } else {
            assert(below =~= fewer);
        }
    }
    below
}

proof fn lemma_totals_small(receivers: Map<u32, ReceiverView>)
    requires
        receivers.dom().finite(),
    ensures
        receivers.dom().len() <= 0x1_0000_0000,
        fraction_sum(receivers) <= 255 * receivers.dom().len(),
{
    lemma_few_ssrcs(receivers.dom(), 0x1_0000_0000);
    let below = lemma_sum_at_most(receivers, 0x1_0000_0000, 255);
    assert(below =~= receivers.dom());
}

proof fn lemma_mean_is_fraction(receivers: Map<u32, ReceiverView>)
    requires
        receivers.dom().finite(),
        receivers.dom().len() > 0,
    ensures
        0 <= fraction_sum(receivers) / receivers.dom().len() <= 255,
{
    lemma_totals_small(receivers);
    let sum = fraction_sum(receivers) as int;
    let n = receivers.dom().len() as int;
    assert(0 <= sum / n <= 255) by (nonlinear_arith)
        requires
            0 < n,
            0 <= sum <= 255 * n,
    ;
}

proof fn lemma_few_ssrcs(ssrcs: Set<u32>, end: nat)
    requires
        ssrcs.finite(),
        end <= 0x1_0000_0000,
        forall|ssrc: u32| #[trigger] ssrcs.contains(ssrc) ==> ssrc < end,
    ensures
        ssrcs.len() <= end,
    decreases end,
{
    if end == 0 {
        assert(ssrcs =~= Set::empty());
    } else {
        let last = (end - 1) as u32;
        lemma_few_ssrcs(ssrcs.remove(last), (end - 1) as nat);
    }
}

proof fn lemma_sum_of_nothing(end: nat)
    ensures
        fraction_sum_below(Map::empty(), end) == 0,
    decreases end,
{
    if end > 0 {
        lemma_sum_of_nothing((end - 1) as nat);
    }
}

/// The mean loss is never above the worst.
pub proof fn law_mean_is_at_most_worst(stats: ReceiverLossStats)
    requires
        stats.wf(),
    ensures
        stats@.average_fraction_lost <= stats@.worst_fraction_lost,
{
    let receivers = stats@.receivers;
    let worst = stats@.worst_fraction_lost as nat;
    if receivers.dom().len() > 0 {
        let below = lemma_sum_at_most(receivers, 0x1_0000_0000, worst);
        assert(below =~= receivers.dom());
        let sum = fraction_sum(receivers) as int;
        let n = receivers.dom().len() as int;
        assert(sum / n <= worst) by (nonlinear_arith)
            requires
                0 < n,
                0 <= sum <= worst * n,
        ;
    }
}

/// The same fractions lost always come to the same worst and mean loss, whenever and
/// however often they were reported.
pub proof fn law_reports_fix_the_aggregates(a: ReceiverLossStats, b: ReceiverLossStats)
    requires
        a.wf(),
        b.wf(),
        a@.receivers.dom() == b@.receivers.dom(),
        forall|ssrc: u32| #[trigger]
            a@.receivers.contains_key(ssrc) ==> a@.receivers[ssrc].fraction_lost
                == b@.receivers[ssrc].fraction_lost,
    ensures
        a@.worst_fraction_lost == b@.worst_fraction_lost,
        a@.average_fraction_lost == b@.average_fraction_lost,
{
    assert forall|ssrc: u32|
        a@.receivers.contains_key(ssrc) == #[trigger] b@.receivers.contains_key(ssrc) by {
        assert(a@.receivers.dom().contains(ssrc) == b@.receivers.dom().contains(ssrc));
    }
    lemma_sum_ignores_outside(a@.receivers, b@.receivers, 0x1_0000_0000);
    let (worst_a, worst_b) = (a@.worst_fraction_lost, b@.worst_fraction_lost);
    if worst_a > 0 {
        let ssrc = choose|ssrc: u32| #[trigger]
            a@.receivers.contains_key(ssrc) && a@.receivers[ssrc].fraction_lost == worst_a;
        assert(b@.receivers.contains_key(ssrc));
    }
    if worst_b > 0 {
        let ssrc = choose|ssrc: u32| #[trigger]
            b@.receivers.contains_key(ssrc) && b@.receivers[ssrc].fraction_lost == worst_b;
        assert(a@.receivers.contains_key(ssrc));
    }
}

/// Only the last report of a receiver counts, and the reports of different
/// receivers do not touch each other.
pub proof fn law_last_report_counts(
    receivers: Map<u32, ReceiverView>,
    ssrc: u32,
    fraction1: u8,
    packets1: i32,
    now1: Instant,
    fraction2: u8,
    packets2: i32,
    now2: Instant,
    other: u32,
)
    requires
        other != ssrc,
    ensures
        ({
            let first = with_report(receivers, ssrc, fraction1, packets1, now1);
            let second = with_report(first, ssrc, fraction2, packets2, now2);
            &&& second[ssrc].fraction_lost == fraction2
            &&& second[ssrc].packets_lost == packets2
            &&& second[ssrc].last_report_time == now2
            &&& second.dom() == first.dom()
            &&& second.contains_key(other) == receivers.contains_key(other)
            &&& receivers.contains_key(other) ==> second[other] == receivers[other]
        }),
{
    let first = with_report(receivers, ssrc, fraction1, packets1, now1);
    let second = with_report(first, ssrc, fraction2, packets2, now2);
    assert(second.dom() =~= first.dom());
}

/// The reports of two receivers come to the same in either order.
pub proof fn law_reports_of_two_receivers_commute(
    receivers: Map<u32, ReceiverView>,
    ssrc1: u32,
    fraction1: u8,
    packets1: i32,
    now1: Instant,
    ssrc2: u32,
    fraction2: u8,
    packets2: i32,
    now2: Instant,
)
    requires
        ssrc1 != ssrc2,
    ensures
        with_report(
            with_report(receivers, ssrc1, fraction1, packets1, now1),
            ssrc2,
            fraction2,
            packets2,
            now2,
        ) == with_report(
            with_report(receivers, ssrc2, fraction2, packets2, now2),
            ssrc1,
            fraction1,
            packets1,
            now1,
        ),
{
    let first = with_report(receivers, ssrc1, fraction1, packets1, now1);
    let second = with_report(receivers, ssrc2, fraction2, packets2, now2);
    assert(with_report(first, ssrc2, fraction2, packets2, now2) =~= with_report(
        second,
        ssrc1,
        fraction1,
        packets1,
        now1,
    ));
}

/// More loss never asks for more bitrate: where a worst loss does not allow an
/// increase, neither does a greater one, and where it asks for a reduction, so
/// does a greater one, by at least as much if the mean is no smaller.
pub proof fn law_verdict_is_monotone(worst1: u8, average1: u8, worst2: u8, average2: u8)
    requires
        worst1 <= worst2,
        average1 <= average2,
    ensures
        verdict(worst1, average1) !is Increase ==> verdict(worst2, average2) !is Increase,
        verdict(worst1, average1) matches ReduceIncrease::Reduce(by1) ==> (verdict(
            worst2,
            average2,
        ) matches ReduceIncrease::Reduce(by2) && LEAST_REDUCTION <= by1 <= by2),
{
}

/// Without receivers the sum of the fractions lost is zero; a receiver adds its own, in
/// place of the one it had.
pub proof fn law_sum_counts_each_receiver_once(
    receivers: Map<u32, ReceiverView>,
    ssrc: u32,
    receiver: ReceiverView,
)
    ensures
        fraction_sum(Map::empty()) == 0,
        fraction_sum(receivers.insert(ssrc, receiver)) == fraction_sum(receivers)
            + receiver.fraction_lost - if receivers.contains_key(ssrc) {
            receivers[ssrc].fraction_lost as int
        } else {
            0
        },
{
    lemma_sum_of_nothing(0x1_0000_0000);
    lemma_sum_insert(receivers, ssrc, receiver, 0x1_0000_0000);
}

/// The stored worst loss is that of some receiver, and no receiver has a larger one; the
/// stored mean is the sum over their number, rounded down. Without receivers both are
/// zero.
pub proof fn law_aggregates_are_worst_and_mean(stats: ReceiverLossStats, ssrc: u32)
    requires
        stats.wf(),
    ensures
        ({
            let (receivers, n) = (stats@.receivers, stats@.receivers.dom().len());
            let (worst, mean) = (stats@.worst_fraction_lost, stats@.average_fraction_lost);
            &&& receivers.contains_key(ssrc) ==> receivers[ssrc].fraction_lost <= worst
            &&& receivers.contains_key(ssrc) ==> exists|other: u32| #[trigger]
                receivers.contains_key(other) && receivers[other].fraction_lost == worst
            &&& n == 0 ==> worst == 0 && mean == 0
            &&& n > 0 ==> mean * n <= fraction_sum(receivers) < (mean + 1) * n
        }),
{
    let (receivers, n) = (stats@.receivers, stats@.receivers.dom().len());
    let (worst, mean) = (stats@.worst_fraction_lost, stats@.average_fraction_lost);
    if receivers.contains_key(ssrc) && worst == 0 {
        assert(receivers[ssrc].fraction_lost == 0);
    }
    if n == 0 {
        if worst > 0 {
            let other = choose|other: u32| #[trigger]
                receivers.contains_key(other) && receivers[other].fraction_lost == worst;
            assert(receivers.dom().contains(other));
        }
    } else {
        let sum = fraction_sum(receivers) as int;
        assert(mean * n <= sum < (mean + 1) * n) by (nonlinear_arith)
            requires
                n > 0,
                mean == sum / n as int,
        ;
    }
}

/// A report puts its own values and its time in the place of the receiver's last one,
/// counts one more, and leaves every other receiver.
pub proof fn law_report_replaces_the_last(
    receivers: Map<u32, ReceiverView>,
    ssrc: u32,
    fraction_lost: u8,
    packets_lost: i32,
    now: Instant,
    other: u32,
)
    ensures
        ({
            let after = with_report(receivers, ssrc, fraction_lost, packets_lost, now);
            &&& after.contains_key(ssrc)
            &&& after[ssrc].fraction_lost == fraction_lost
            &&& after[ssrc].packets_lost == packets_lost
            &&& after[ssrc].last_report_time == now
            &&& !receivers.contains_key(ssrc) ==> after[ssrc].report_count == 1
            &&& receivers.contains_key(ssrc) && receivers[ssrc].report_count < u32::MAX
                ==> after[ssrc].report_count == receivers[ssrc].report_count + 1
            &&& other != ssrc ==> after.contains_key(other) == receivers.contains_key(other)
            &&& other != ssrc && receivers.contains_key(other) ==> after[other] == receivers[other]
        }),
{
}

/// A worst loss above 10 asks for less by the mean loss, but at least by 20 percent; one
/// of at most 2 allows for more; between them nothing changes.
pub proof fn law_verdict_goes_by_the_worst_loss(worst: u8, average: u8)
    ensures
        worst > 10 && average >= 20 ==> verdict(worst, average) == ReduceIncrease::Reduce(
            average as u32,
        ),
        worst > 10 && average < 20 ==> verdict(worst, average) == ReduceIncrease::Reduce(20),
        worst <= 2 ==> verdict(worst, average) == ReduceIncrease::Increase,
        2 < worst <= 10 ==> verdict(worst, average) == ReduceIncrease::NoChange,
{
}

/// A report fits just where the counts and the sum over the receivers stay within 32 bits
/// once it is taken in; so it does while there are fewer than sixteen million receivers
/// and fewer than four billion reports of each.
pub proof fn law_ordinary_reports_fit(
    receivers: Map<u32, ReceiverView>,
    ssrc: u32,
    fraction_lost: u8,
    packets_lost: i32,
    now: Instant,
)
    requires
        receivers.dom().finite(),
    ensures
        ({
            let after = with_report(receivers, ssrc, fraction_lost, packets_lost, now);
            let counted = receivers.contains_key(ssrc) ==> receivers[ssrc].report_count
                < 0xffff_ffff;
            &&& report_fits(receivers, ssrc, fraction_lost) == (counted && fraction_sum(after)
                <= 0xffff_ffff && after.dom().len() <= 0xffff_ffff)
            &&& counted && receivers.dom().len() < 16_000_000 ==> report_fits(
                receivers,
                ssrc,
                fraction_lost,
            )
        }),
{
    let after = with_report(receivers, ssrc, fraction_lost, packets_lost, now);
    lemma_sum_remove(receivers, ssrc);
    lemma_sum_insert(receivers, ssrc, after[ssrc], 0x1_0000_0000);
    assert(after.dom() =~= receivers.dom().insert(ssrc));
    lemma_totals_small(receivers);
    lemma_totals_small(after);
}

} // verus!
