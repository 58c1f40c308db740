//! What a write asks to be sent, and what becomes of it.
use crate::binding::{outgoing, BindingView};
use crate::header_extension::{MarshalError, PayloadsByUri};
use crate::packet::{ExtensionError, Packet, PacketView};
use crate::track_state::PkgAttrs;
use vstd::prelude::*;

verus! {

/// What a write does for one binding: the packet to send, none while the binding is
/// paused, or the extension that was refused.
#[derive(Debug)]
pub struct BindingStep {
    pub ssrc: u32,
    pub id: String,
    pub outcome: Result<Option<Packet>, ExtensionError>,
}

/// The mathematical value of a `BindingStep`.
#[verifier::ext_equal]
pub struct StepView {
    pub ssrc: u32,
    pub id: Seq<char>,
    pub outcome: Result<Option<PacketView>, ExtensionError>,
}

impl View for BindingStep {
    type V = StepView;

    open spec fn view(&self) -> StepView {
        StepView {
            ssrc: self.ssrc,
            id: self.id@,
            outcome: match self.outcome {
                Ok(Some(packet)) => Ok(Some(packet@)),
                Ok(None) => Ok(None),
                Err(error) => Err(error),
            },
        }
    }
}

/// What a write does for a binding.
pub open spec fn step_for(
    packet: PacketView,
    attrs: PkgAttrs,
    entries: PayloadsByUri,
    binding: BindingView,
) -> StepView {
    StepView {
        ssrc: binding.ssrc,
        id: binding.id,
        outcome: outgoing(packet, attrs, entries, binding),
    }
}

/// Whether the steps are those of a write to all bindings: one for each, in whatever
/// order.
pub open spec fn steps_for_all(
    steps: Seq<BindingStep>,
    packet: PacketView,
    attrs: PkgAttrs,
    entries: PayloadsByUri,
    bindings: Map<u32, BindingView>,
) -> bool {
    &&& forall|i: int|
        0 <= i < steps.len() ==> bindings.contains_key((#[trigger] steps[i]).ssrc) && steps[i]@
            == step_for(packet, attrs, entries, bindings[steps[i].ssrc])
    &&& forall|i: int, j: int|
        0 <= i < j < steps.len() ==> (#[trigger] steps[i]).ssrc != (#[trigger] steps[j]).ssrc
    &&& forall|ssrc: u32| #[trigger]
        bindings.contains_key(ssrc) ==> exists|i: int|
            0 <= i < steps.len() && (#[trigger] steps[i]).ssrc == ssrc
}

/// Why a packet did not reach a receiver.
#[derive(Debug)]
pub enum FailureCause {
    /// An extension was refused.
    Rtp(ExtensionError),
    /// Sending failed, for the reason given.
    Send(String),
}

/// A receiver that a packet did not reach.
#[derive(Debug)]
pub struct BindingFailure {
    pub ssrc: u32,
    /// The id of the binding, so that the caller can remove it.
    pub id: String,
    pub cause: FailureCause,
}

/// The mathematical value of a `FailureCause`.
pub enum CauseView {
    Rtp(ExtensionError),
    Send(Seq<char>),
}

/// The mathematical value of a `BindingFailure`.
#[verifier::ext_equal]
pub struct FailureView {
    pub ssrc: u32,
    pub id: Seq<char>,
    pub cause: CauseView,
}

impl View for BindingFailure {
    type V = FailureView;

    open spec fn view(&self) -> FailureView {
        FailureView {
            ssrc: self.ssrc,
            id: self.id@,
            cause: match self.cause {
                FailureCause::Rtp(error) => CauseView::Rtp(error),
                FailureCause::Send(reason) => CauseView::Send(reason@),
            },
        }
    }
}

/// The values of a list of failures.
pub open spec fn failure_views(failures: Seq<BindingFailure>) -> Seq<FailureView> {
    failures.map_values(|failure: BindingFailure| failure@)
}

/// What went wrong in a write: the extensions that could not be marshaled, and the
/// receivers that the packet did not reach.
#[derive(Debug)]
pub struct WriteError {
    pub extension_errors: Vec<MarshalError>,
    pub failures: Vec<BindingFailure>,
}

/// What a write asks to be sent.
#[derive(Debug)]
pub struct WritePlan {
    /// The errors of the extensions that could not be marshaled.
    pub extension_errors: Vec<MarshalError>,
    pub steps: Vec<BindingStep>,
}

/// Whether a step has a packet to send.
pub open spec fn has_packet(step: BindingStep) -> bool {
    step.outcome matches Ok(Some(_))
}

/// The receivers that were not reached, in the order of the steps: those whose step
/// holds an error, and those to which sending failed.
pub open spec fn failures(steps: Seq<BindingStep>, sent: Seq<Result<usize, String>>) -> Seq<
    FailureView,
>
    decreases steps.len(),
{
    if steps.len() == 0 {
        Seq::empty()
    } else {
        let before = failures(steps.drop_last(), sent.drop_last());
        let step = steps.last();
        match step.outcome {
            Err(error) => before.push(
                FailureView { ssrc: step.ssrc, id: step.id@, cause: CauseView::Rtp(error) },
            ),
            Ok(Some(_)) => match sent.last() {
                Err(reason) => before.push(
                    FailureView {
                        ssrc: step.ssrc,
                        id: step.id@,
                        cause: CauseView::Send(reason@),
                    },
                ),
                Ok(_) => before,
            },
            Ok(None) => before,
        }
    }
}

/// The bytes that were sent in all.
pub open spec fn sent_bytes(steps: Seq<BindingStep>, sent: Seq<Result<usize, String>>) -> nat
    decreases steps.len(),
{
    if steps.len() == 0 {
        0
    } else {
        let before = sent_bytes(steps.drop_last(), sent.drop_last());
        match sent.last() {
            Ok(n) => if has_packet(steps.last()) {
                before + n as nat
            } else {
                before
            },
            Err(_) => before,
        }
    }
}

proof fn lemma_sent_bytes_grow(
    steps: Seq<BindingStep>,
    sent: Seq<Result<usize, String>>,
    i: int,
)
    requires
        0 <= i <= steps.len() == sent.len(),
    ensures
        sent_bytes(steps.take(i), sent.take(i)) <= sent_bytes(steps, sent),
    decreases steps.len(),
{
    if i == steps.len() {
        assert(steps.take(i) =~= steps);
        assert(sent.take(i) =~= sent);
    } else {
        lemma_sent_bytes_grow(steps.drop_last(), sent.drop_last(), i);
        assert(steps.drop_last().take(i) =~= steps.take(i));
        assert(sent.drop_last().take(i) =~= sent.take(i));
    }
}

impl WritePlan {
    /// What a write comes to, given for each step the number of bytes sent or why
    /// sending failed. What is given for a step without a packet does not matter.
    pub fn finish(self, sent: Vec<Result<usize, String>>) -> (result: Result<usize, WriteError>)
        requires
            sent@.len() == self.steps@.len(),
            sent_bytes(self.steps@, sent@) <= usize::MAX,
        ensures
            match result {
                Ok(n) => {
                    &&& self.extension_errors@.len() == 0
                    &&& failures(self.steps@, sent@).len() == 0
                    &&& n == sent_bytes(self.steps@, sent@)
                },
                Err(error) => {
                    &&& error.extension_errors@ == self.extension_errors@
                    &&& failure_views(error.failures@) == failures(self.steps@, sent@)
                    &&& error.extension_errors@.len() > 0 || error.failures@.len() > 0
                },
            },
    {
        let ghost steps = self.steps@;
        let mut n: usize = 0;
        let mut failed: Vec<BindingFailure> = Vec::new();
        assert(steps.take(0) =~= Seq::empty());
        assert(failure_views(failed@) =~= Seq::empty());
        for i in 0..self.steps.len()
            invariant
                steps == self.steps@,
                sent@.len() == steps.len(),
                sent_bytes(steps, sent@) <= usize::MAX,
                n == sent_bytes(steps.take(i as int), sent@.take(i as int)),
                failure_views(failed@) == failures(steps.take(i as int), sent@.take(i as int)),
        {
            assert(steps.take(i + 1).drop_last() =~= steps.take(i as int));
            assert(sent@.take(i + 1).drop_last() =~= sent@.take(i as int));
            assert(steps.take(i + 1).last() == steps[i as int]);
            assert(sent@.take(i + 1).last() == sent@[i as int]);
            proof {
                lemma_sent_bytes_grow(steps, sent@, i + 1);
            }
            let ghost before = failed@;
            let step = &self.steps[i];
            match &step.outcome {
                Ok(Some(_)) => match &sent[i] {
                    Ok(bytes) => {
                        n = n + *bytes;
                    },
                    Err(reason) => {
                        failed.push(
                            BindingFailure {
                                ssrc: step.ssrc,
                                id: step.id.clone(),
                                cause: FailureCause::Send(reason.clone()),
                            },
                        );
                        assert(failure_views(failed@) =~= failure_views(before).push(
                            failed@.last()@,
                        ));
                    },
                },
                Ok(None) => {},
                Err(error) => {
                    failed.push(
                        BindingFailure {
                            ssrc: step.ssrc,
                            id: step.id.clone(),
                            cause: FailureCause::Rtp(*error),
                        },
                    );
                    assert(failure_views(failed@) =~= failure_views(before).push(
                        failed@.last()@,
                    ));
                },
            }
        }
        assert(steps.take(steps.len() as int) =~= steps);
        assert(sent@.take(steps.len() as int) =~= sent@);
        assert(failure_views(failed@).len() == failed@.len());
        if self.extension_errors.len() == 0 && failed.len() == 0 {
            Ok(n)
        } else {
            Err(WriteError { extension_errors: self.extension_errors, failures: failed })
        }
    }
}

/// Whether a receiver was not reached.
pub open spec fn failed(step: BindingStep, sent: Result<usize, String>) -> bool {
    step.outcome is Err || (has_packet(step) && sent is Err)
}

/// Every receiver that was not reached is named in the error, with the id of its
/// binding.
pub proof fn law_every_failure_is_named(
    steps: Seq<BindingStep>,
    sent: Seq<Result<usize, String>>,
    i: int,
)
    requires
        0 <= i < steps.len() == sent.len(),
        failed(steps[i], sent[i]),
    ensures
        exists|k: int|
            0 <= k < failures(steps, sent).len() && (#[trigger] failures(steps, sent)[k]).ssrc
                == steps[i].ssrc && failures(steps, sent)[k].id == steps[i].id@,
    decreases steps.len(),
{
    let before = failures(steps.drop_last(), sent.drop_last());
    let all = failures(steps, sent);
    if i < steps.len() - 1 {
        law_every_failure_is_named(steps.drop_last(), sent.drop_last(), i);
        let k = choose|k: int|
            0 <= k < before.len() && (#[trigger] before[k]).ssrc == steps[i].ssrc && before[k].id
                == steps[i].id@;
        assert(all[k] == before[k]);
    } else {
        assert(all[before.len() as int].ssrc == steps[i].ssrc);
    }
}

/// Nobody else is named in the error.
pub proof fn law_only_failures_are_named(
    steps: Seq<BindingStep>,
    sent: Seq<Result<usize, String>>,
    k: int,
)
    requires
        steps.len() == sent.len(),
        0 <= k < failures(steps, sent).len(),
    ensures
        exists|i: int|
            0 <= i < steps.len() && failed(#[trigger] steps[i], sent[i]) && steps[i].ssrc
                == failures(steps, sent)[k].ssrc && steps[i].id@ == failures(steps, sent)[k].id,
    decreases steps.len(),
{
    let before = failures(steps.drop_last(), sent.drop_last());
    let all = failures(steps, sent);
    if k < before.len() {
        law_only_failures_are_named(steps.drop_last(), sent.drop_last(), k);
        let i = choose|i: int|
            0 <= i < steps.drop_last().len() && failed(
                #[trigger] steps.drop_last()[i],
                sent.drop_last()[i],
            ) && steps.drop_last()[i].ssrc == before[k].ssrc && steps.drop_last()[i].id@
                == before[k].id;
        assert(failed(steps[i], sent[i]));
        assert(all[k] == before[k]);
    } else {
        let last = steps.len() - 1;
        assert(failed(steps[last], sent[last]));
    }
}

/// A receiver that fails keeps the packet from no other: whoever is not paused and
/// whose extensions are accepted has a step with the packet, whatever the other
/// bindings are.
pub proof fn law_failures_stop_no_other(
    steps: Seq<BindingStep>,
    packet: PacketView,
    attrs: PkgAttrs,
    entries: PayloadsByUri,
    bindings: Map<u32, BindingView>,
    ssrc: u32,
    sent: PacketView,
)
    requires
        steps_for_all(steps, packet, attrs, entries, bindings),
        bindings.contains_key(ssrc),
        outgoing(packet, attrs, entries, bindings[ssrc]) == Ok::<Option<PacketView>, ExtensionError>(
            Some(sent),
        ),
    ensures
        exists|i: int|
            0 <= i < steps.len() && (#[trigger] steps[i]).ssrc == ssrc && steps[i]@.outcome == Ok::<
                Option<PacketView>,
                ExtensionError,
            >(Some(sent)),
{
    let i = choose|i: int| 0 <= i < steps.len() && (#[trigger] steps[i]).ssrc == ssrc;
    assert(steps[i]@ == step_for(packet, attrs, entries, bindings[ssrc]));
}

/// What was sent in two parts is the sum of both. One step adds the bytes that were sent
/// for it where it has a packet, and nothing else adds any.
pub proof fn law_bytes_of_all_steps_add_up(
    steps1: Seq<BindingStep>,
    sent1: Seq<Result<usize, String>>,
    steps2: Seq<BindingStep>,
    sent2: Seq<Result<usize, String>>,
    step: BindingStep,
    sent: Result<usize, String>,
)
    requires
        steps1.len() == sent1.len(),
        steps2.len() == sent2.len(),
    ensures
        sent_bytes(steps1 + steps2, sent1 + sent2) == sent_bytes(steps1, sent1) + sent_bytes(
            steps2,
            sent2,
        ),
        sent_bytes(seq![step], seq![sent]) == (match (step.outcome, sent) {
            (Ok(Some(_)), Ok(n)) => n as int,
            _ => 0,
        }),
    decreases steps2.len(),
{
    reveal_with_fuel(sent_bytes, 2);
    assert(seq![step].drop_last() =~= Seq::empty());
    assert(seq![sent].drop_last() =~= Seq::empty());
    if steps2.len() == 0 {
        assert(steps1 + steps2 =~= steps1);
        assert(sent1 + sent2 =~= sent1);
    } else {
        law_bytes_of_all_steps_add_up(
            steps1,
            sent1,
            steps2.drop_last(),
            sent2.drop_last(),
            step,
            sent,
        );
        assert((steps1 + steps2).drop_last() =~= steps1 + steps2.drop_last());
        assert((sent1 + sent2).drop_last() =~= sent1 + sent2.drop_last());
        assert((steps1 + steps2).last() == steps2.last());
        assert((sent1 + sent2).last() == sent2.last());
    }
}

/// The failures of two parts are those of the first and then those of the second. One
/// step fails where an extension was refused, with that error, and where it has a packet
/// that could not be sent, with that reason; it is named by the SSRC and the id of its
/// binding.
pub proof fn law_failures_come_in_order(
    steps1: Seq<BindingStep>,
    sent1: Seq<Result<usize, String>>,
    steps2: Seq<BindingStep>,
    sent2: Seq<Result<usize, String>>,
    step: BindingStep,
    sent: Result<usize, String>,
)
    requires
        steps1.len() == sent1.len(),
        steps2.len() == sent2.len(),
    ensures
        failures(steps1 + steps2, sent1 + sent2) == failures(steps1, sent1) + failures(
            steps2,
            sent2,
        ),
        ({
            let all = failures(seq![step], seq![sent]);
            match (step.outcome, sent) {
                (Err(error), _) => {
                    &&& all.len() == 1
                    &&& all[0].ssrc == step.ssrc
                    &&& all[0].id == step.id@
                    &&& all[0].cause == CauseView::Rtp(error)
                },
                (Ok(Some(_)), Err(reason)) => {
                    &&& all.len() == 1
                    &&& all[0].ssrc == step.ssrc
                    &&& all[0].id == step.id@
                    &&& all[0].cause == CauseView::Send(reason@)
                },
                _ => all.len() == 0,
            }
        }),
    decreases steps2.len(),
{
    reveal_with_fuel(failures, 2);
    assert(seq![step].drop_last() =~= Seq::empty());
    assert(seq![sent].drop_last() =~= Seq::empty());
    if steps2.len() == 0 {
        assert(steps1 + steps2 =~= steps1);
        assert(sent1 + sent2 =~= sent1);
        assert(failures(steps1, sent1) + failures(steps2, sent2) =~= failures(steps1, sent1));
    } else {
        law_failures_come_in_order(
            steps1,
            sent1,
            steps2.drop_last(),
            sent2.drop_last(),
            step,
            sent,
        );
        assert((steps1 + steps2).drop_last() =~= steps1 + steps2.drop_last());
        assert((sent1 + sent2).drop_last() =~= sent1 + sent2.drop_last());
        assert((steps1 + steps2).last() == steps2.last());
        assert((sent1 + sent2).last() == sent2.last());
        assert(failures(steps1 + steps2, sent1 + sent2) =~= failures(steps1, sent1) + failures(
            steps2,
            sent2,
        ));
    }
}

/// The values of a step and of a failure hold what their fields hold.
pub proof fn law_step_values_are_those_of_the_fields(step: BindingStep, failure: BindingFailure)
    ensures
        step@.ssrc == step.ssrc,
        step@.id == step.id@,
        match step.outcome {
            Ok(Some(packet)) => step@.outcome == Ok::<Option<PacketView>, ExtensionError>(
                Some(packet@),
            ),
            Ok(None) => step@.outcome == Ok::<Option<PacketView>, ExtensionError>(None),
            Err(error) => step@.outcome == Err::<Option<PacketView>, ExtensionError>(error),
        },
        failure@.ssrc == failure.ssrc,
        failure@.id == failure.id@,
        match failure.cause {
            FailureCause::Rtp(error) => failure@.cause == CauseView::Rtp(error),
            FailureCause::Send(reason) => failure@.cause == CauseView::Send(reason@),
        },
{
}

} // verus!
