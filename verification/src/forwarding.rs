//! How a track forwards packets: what it sends to whom, what it caches, and how it
//! takes over another source.
use crate::binding::{
    addressed, law_negotiated_payload_is_sent, law_only_paused_bindings_are_sent_nothing,
    law_sent_packet_is_addressed, law_sent_packet_is_the_given_one, outgoing,
    write_rtp_with_extensions_to_binding, BindingView,
};
use crate::bindings::lists_all;
use crate::clock::{instant_now, nanos_since};
use crate::codec::{
    law_first_parameter_gives_the_id, law_unknown_uri_has_no_id, negotiated_id, RTPCodecType,
};
use crate::header_extension::{
    all_fit, law_every_extension_is_found, law_last_error_is_that_of_the_last_failure,
    law_no_failure_no_error, law_payloads_fit, law_uris_are_distinct, marshal_errors, payloads,
    payloads_fit, ExtensionData, HeaderExtension, MarshalError,
};
use crate::packet::{
    elements_in_bounds, length_fits, reads, unmarshal, unmarshaled, ExtensionError, Packet,
    PacketError, PacketView,
};
use crate::packet_cache::{law_latest_run_is_kept, law_put_is_read_back, PCache};
use crate::track_bindings::all_paused;
use crate::track_local_static_rtp::{bindings_wf, Error, TrackLocalStaticRTP, TrackView};
use crate::track_state::{
    forward_gap, law_first_packet_follows_the_last, law_offset_moves_a_packet,
    law_origin_recovers_number, resend_gap, seq_add, ts_add, ts_sub, PkgAttrs,
};
use crate::write_plan::{step_for, steps_for_all, BindingStep, WritePlan};
use std::sync::Arc;
use std::time::Instant;
use vstd::prelude::*;

verus! {

impl TrackView {
    /// The attributes under which a packet is forwarded.
    pub open spec fn forwarded(self, seq: u16, ts: u32) -> PkgAttrs {
        self.state.rewritten(seq, ts, forward_gap(self.kind()))
    }

    /// The attributes under which a packet is sent again.
    pub open spec fn resent(self, seq: u16, ts: u32) -> PkgAttrs {
        self.state.rewritten(seq, ts, resend_gap(self.kind()))
    }

    /// The track after a write: where every binding is paused the packet counts as
    /// withheld, else as sent.
    pub open spec fn written(self, seq: u16, ts: u32) -> TrackView {
        let attrs = self.forwarded(seq, ts);
        TrackView {
            state: if all_paused(self.bindings) {
                self.state.shifted(seq, ts)
            } else {
                self.state.with_offset(seq, ts, attrs).sent(attrs)
            },
            ..self
        }
    }

    /// Whether a plan is the one for writing a packet with the given extensions.
    pub open spec fn is_plan(
        self,
        plan: WritePlan,
        packet: PacketView,
        extensions: Seq<HeaderExtension>,
    ) -> bool {
        if all_paused(self.bindings) {
            plan.extension_errors@.len() == 0 && plan.steps@.len() == 0
        } else {
            &&& plan.extension_errors@ == marshal_errors(extensions)
            &&& steps_for_all(
                plan.steps@,
                packet,
                self.forwarded(packet.header.sequence_number, packet.header.timestamp),
                payloads(extensions),
                self.bindings,
            )
        }
    }

    /// What a write to one binding comes to.
    pub open spec fn outgoing_to(
        self,
        packet: PacketView,
        attrs: PkgAttrs,
        extensions: Seq<HeaderExtension>,
        ssrc: u32,
    ) -> Result<Option<PacketView>, Error> {
        if !self.bindings.contains_key(ssrc) {
            Err(Error::LocalTrackBindingNotFound)
        } else if marshal_errors(extensions).len() > 0 {
            Err(Error::Util(marshal_errors(extensions).last()))
        } else {
            match outgoing(packet, attrs, payloads(extensions), self.bindings[ssrc]) {
                Ok(sent) => Ok(sent),
                Err(error) => Err(Error::Rtp(error)),
            }
        }
    }
}

/// The value of what a write to one binding came to.
pub open spec fn sent_view(result: Result<Option<Packet>, Error>) -> Result<
    Option<PacketView>,
    Error,
> {
    match result {
        Ok(Some(packet)) => Ok(Some(packet@)),
        Ok(None) => Ok(None),
        Err(error) => Err(error),
    }
}

/// What a source reports while a track forwards it.
#[derive(Debug)]
pub enum RemoteEvent {
    /// The source takes the place of the one before.
    Started,
    /// A packet was read from the source.
    PacketRead(Packet),
    /// Nothing more can be read from the source.
    ReadFailed,
    /// The queue took the entry.
    Queued,
    /// The queue is full and did not take the entry.
    QueueFull,
    /// Nobody reads the queue any more.
    QueueClosed,
}

/// What is to be done next for a source.
#[derive(Debug)]
pub enum RemoteAction {
    /// Read the next packet from the source.
    Read,
    /// Put the entry into the queue, from which its packet is written to the track,
    /// without waiting for room.
    Enqueue(Arc<PCache>),
    /// Stop, and stop whoever reads the queue.
    Stop,
}

impl TrackLocalStaticRTP {
    /// The cached packet that left with the number `seq`, as it came from the source,
    /// unless it is too old by now.
    pub fn cache_get(&self, seq: u16) -> (entry: Option<Arc<PCache>>)
        requires
            self.wf(),
        ensures
            self@.rtp_cache.entry(self@.state.origin(seq)) is None ==> entry is None,
            entry matches Some(entry) ==> self@.rtp_cache.entry(self@.state.origin(seq)) == Some(
                *entry,
            ),
            self@.rtp_cache.ttl_nanos == u128::MAX && self@.rtp_cache.entry(
                self@.state.origin(seq),
            ) is Some ==> entry is Some,
            exists|now: Instant|
                match entry {
                    Some(entry) => #[trigger] self@.rtp_cache.entry_at(
                        self@.state.origin(seq),
                        now,
                    ) == Some(*entry),
                    None => self@.rtp_cache.entry_at(self@.state.origin(seq), now) == None::<
                        PCache,
                    >,
                },
    {
        self.cache_get_at(seq, instant_now())
    }

    /// The cached packet that left with the number `seq`, as it came from the source,
    /// unless it is too old at time `now`.
    pub fn cache_get_at(&self, seq: u16, now: Instant) -> (entry: Option<Arc<PCache>>)
        requires
            self.wf(),
        ensures
            match entry {
                Some(entry) => self@.rtp_cache.entry_at(self@.state.origin(seq), now) == Some(
                    *entry,
                ),
                None => self@.rtp_cache.entry_at(self@.state.origin(seq), now) == None::<PCache>,
            },
    {
        self.rtp_cache.get_arc_at(self.state.origin_seq(seq), now)
    }

    /// The cached packet that left with the number `seq`, as it came from the source,
    /// given its age in nanoseconds.
    pub fn cache_get_at_age(&self, seq: u16, age_nanos: u128) -> (entry: Option<Arc<PCache>>)
        requires
            self.wf(),
        ensures
            match entry {
                Some(entry) => self@.rtp_cache.entry_at_age(self@.state.origin(seq), age_nanos)
                    == Some(*entry),
                None => self@.rtp_cache.entry_at_age(self@.state.origin(seq), age_nanos) == None::<
                    PCache,
                >,
            },
    {
        self.rtp_cache.get_arc_at_age(self.state.origin_seq(seq), age_nanos)
    }

    /// Forwards another source, one event at a time. The source's first packet fixes the
    /// offset anew. Every packet is cached as it came, before it is queued: one that
    /// the queue does not take can still be sent from the cache.
    pub fn replace_remote(&mut self, event: RemoteEvent) -> (action: RemoteAction)
        requires
            old(self).wf(),
        ensures
            final(self).wf(),
            match event {
                RemoteEvent::Started => action == RemoteAction::Read && final(self)@ == (TrackView {
                    state: old(self)@.state.without_offset(),
                    ..old(self)@
                }),
                RemoteEvent::PacketRead(rtp) => {
                    &&& action matches RemoteAction::Enqueue(entry)
                    &&& entry.rtp == rtp
                    &&& final(self)@ == (TrackView {
                        rtp_cache: old(self)@.rtp_cache.with_entry(*entry),
                        ..old(self)@
                    })
                },
                RemoteEvent::Queued | RemoteEvent::QueueFull => action == RemoteAction::Read
                    && final(self)@ == old(self)@,
                RemoteEvent::ReadFailed | RemoteEvent::QueueClosed => action == RemoteAction::Stop
                    && final(self)@ == old(self)@,
            },
    {
        self.replace_remote_at(event, instant_now())
    }

    /// The same for an event that comes at time `now`: a packet that is read counts as
    /// first sent on then.
    pub fn replace_remote_at(&mut self, event: RemoteEvent, now: Instant) -> (action: RemoteAction)
        requires
            old(self).wf(),
        ensures
            final(self).wf(),
            match event {
                RemoteEvent::Started => action == RemoteAction::Read && final(self)@ == (TrackView {
                    state: old(self)@.state.without_offset(),
                    ..old(self)@
                }),
                RemoteEvent::PacketRead(rtp) => {
                    &&& action matches RemoteAction::Enqueue(entry)
                    &&& *entry == (PCache { rtp, first_sent_at: now })
                    &&& final(self)@ == (TrackView {
                        rtp_cache: old(self)@.rtp_cache.with_entry(*entry),
                        ..old(self)@
                    })
                },
                RemoteEvent::Queued | RemoteEvent::QueueFull => action == RemoteAction::Read
                    && final(self)@ == old(self)@,
                RemoteEvent::ReadFailed | RemoteEvent::QueueClosed => action == RemoteAction::Stop
                    && final(self)@ == old(self)@,
            },
    {
        match event {
            RemoteEvent::Started => {
                self.state.reset_offset();
                RemoteAction::Read
            },
            RemoteEvent::PacketRead(rtp) => {
                let entry = Arc::new(PCache { rtp, first_sent_at: now });
                self.rtp_cache.put(Arc::clone(&entry));
                RemoteAction::Enqueue(entry)
            },
            RemoteEvent::Queued | RemoteEvent::QueueFull => RemoteAction::Read,
            RemoteEvent::ReadFailed | RemoteEvent::QueueClosed => RemoteAction::Stop,
        }
    }

    /// The packet to send to one binding under the given attributes, with the given
    /// extensions; none while the binding is paused.
    pub fn write_rtp_with_extensions_to(
        &self,
        p: &Packet,
        pkt_attrs: &PkgAttrs,
        extensions: &[HeaderExtension],
        binding_ssrc: u32,
    ) -> (result: Result<Option<Packet>, Error>)
        requires
            self.wf(),
            p@.header.fits(),
            all_fit(extensions@),
        ensures
            sent_view(result) == self@.outgoing_to(p@, *pkt_attrs, extensions@, binding_ssrc),
    {
        let binding = match self.bindings.get(binding_ssrc) {
            Some(binding) => binding,
            None => {
                return Err(Error::LocalTrackBindingNotFound);
            },
        };
        let (extension_data, mut errors) = ExtensionData::marshal(extensions);
        if let Some(error) = errors.pop() {
            return Err(Error::Util(error));
        }
        proof {
            law_payloads_fit(extensions@);
        }
        match write_rtp_with_extensions_to_binding(p, pkt_attrs, &extension_data, &binding) {
            Ok(sent) => Ok(sent),
            Err(error) => Err(Error::Rtp(error)),
        }
    }

    /// What to send to the bindings when a packet comes from the source, with the given
    /// extensions. Where every binding is paused nothing is sent, and the packet leaves
    /// no gap in the outgoing numbers.
    pub fn write_rtp_with_extensions(
        &mut self,
        pkt: &Packet,
        extensions: &[HeaderExtension],
    ) -> (plan: WritePlan)
        requires
            old(self).wf(),
            pkt@.header.fits(),
            all_fit(extensions@),
        ensures
            final(self).wf(),
            final(self)@ == old(self)@.written(pkt@.header.sequence_number, pkt@.header.timestamp),
            old(self)@.is_plan(plan, pkt@, extensions@),
    {
        if self.all_binding_paused_sync() {
            self.state.shift_offset(pkt.header.sequence_number, pkt.header.timestamp);
            return WritePlan { extension_errors: Vec::new(), steps: Vec::new() };
        }
        let kind = self.kind();
        let pkg_attrs = self.state.get_pkg_attrs_set_last_out(
            kind,
            pkt.header.sequence_number,
            pkt.header.timestamp,
        );
        let entries = self.bindings.entries();
        let (extension_data, extension_errors) = ExtensionData::marshal(extensions);
        proof {
            law_payloads_fit(extensions@);
        }
        let ghost bindings = self@.bindings;
        let mut steps: Vec<BindingStep> = Vec::new();
        for i in 0..entries.len()
            invariant
                bindings_wf(bindings),
                lists_all(entries@, bindings),
                pkt@.header.fits(),
                payloads_fit(extension_data@),
                steps@.len() == i,
                forall|j: int|
                    0 <= j < i ==> (#[trigger] steps@[j]).ssrc == entries@[j].0 && steps@[j]@
                        == step_for(pkt@, pkg_attrs, extension_data@, bindings[entries@[j].0]),
        {
            let binding = &entries[i].1;
            assert(bindings.contains_key(entries@[i as int].0));
            let outcome = write_rtp_with_extensions_to_binding(
                pkt,
                &pkg_attrs,
                &extension_data,
                binding,
            );
            steps.push(BindingStep { ssrc: binding.ssrc, id: binding.id.clone(), outcome });
        }
        proof {
            assert forall|ssrc: u32| #[trigger] bindings.contains_key(ssrc) implies exists|i: int|
                0 <= i < steps@.len() && (#[trigger] steps@[i]).ssrc == ssrc by {
                let i = choose|i: int|
                    0 <= i < entries@.len() && (#[trigger] entries@[i]).0 == ssrc;
                assert(steps@[i].ssrc == ssrc);
            }
            assert forall|i: int| 0 <= i < steps@.len() implies bindings.contains_key(
                (#[trigger] steps@[i]).ssrc,
            ) by {
                assert(bindings.contains_key(entries@[i].0));
            }
            assert forall|i: int, j: int| 0 <= i < j < steps@.len() implies (
            #[trigger] steps@[i]).ssrc != (#[trigger] steps@[j]).ssrc by {
                assert(entries@[i].0 != entries@[j].0);
            }
        }
        WritePlan { extension_errors, steps }
    }

    /// The packet to send again to one binding; none while the binding is paused.
    pub fn write_rtp_to(&mut self, pkt: &Packet, binding_ssrc: u32) -> (result: Result<
        Option<Packet>,
        Error,
    >)
        requires
            old(self).wf(),
            pkt@.header.fits(),
        ensures
            final(self).wf(),
            ({
                let (seq, ts) = (pkt@.header.sequence_number, pkt@.header.timestamp);
                let attrs = old(self)@.resent(seq, ts);
                &&& final(self)@ == (TrackView {
                    state: old(self)@.state.with_offset(seq, ts, attrs),
                    ..old(self)@
                })
                &&& sent_view(result) == old(self)@.outgoing_to(
                    pkt@,
                    attrs,
                    Seq::empty(),
                    binding_ssrc,
                )
            }),
    {
        let kind = self.kind();
        let pkg_attrs = self.state.get_pkg_attrs(
            kind,
            pkt.header.sequence_number,
            pkt.header.timestamp,
        );
        let no_extensions: Vec<HeaderExtension> = Vec::new();
        assert(no_extensions@ =~= Seq::empty());
        self.write_rtp_with_extensions_to(pkt, &pkg_attrs, no_extensions.as_slice(), binding_ssrc)
    }

    /// What to send to the bindings when a packet comes from the source.
    pub fn write_rtp(&mut self, pkt: &Packet) -> (plan: WritePlan)
        requires
            old(self).wf(),
            pkt@.header.fits(),
        ensures
            final(self).wf(),
            final(self)@ == old(self)@.written(pkt@.header.sequence_number, pkt@.header.timestamp),
            old(self)@.is_plan(plan, pkt@, Seq::empty()),
    {
        let no_extensions: Vec<HeaderExtension> = Vec::new();
        assert(no_extensions@ =~= Seq::empty());
        self.write_rtp_with_extensions(pkt, no_extensions.as_slice())
    }

    /// What to send to the bindings when a packet comes from the source as bytes, and
    /// how many of the bytes are left over: none.
    pub fn write(&mut self, b: &[u8]) -> (result: Result<(WritePlan, usize), PacketError>)
        requires
            old(self).wf(),
            length_fits(b@.len() as int),
            elements_in_bounds(b@),
        ensures
            final(self).wf(),
            match unmarshaled(b@) {
                Ok(packet) => {
                    &&& result matches Ok((plan, left))
                    &&& left == 0
                    &&& old(self)@.is_plan(plan, packet, Seq::empty())
                    &&& final(self)@ == old(self)@.written(
                        packet.header.sequence_number,
                        packet.header.timestamp,
                    )
                },
                Err(error) => result == Err::<(WritePlan, usize), PacketError>(error)
                    && final(self)@ == old(self)@,
            },
    {
        match unmarshal(b) {
            Ok((pkt, left)) => {
                assert(pkt@.header.fits());
                Ok((self.write_rtp(&pkt), left))
            },
            Err(error) => Err(error),
        }
    }
}

/// While every binding is paused, a packet does not move the outgoing stream; the
/// next packet of the source, written once some binding is not paused any more, leaves
/// with the number after the last one sent, as much later as it is at the source.
pub proof fn law_pause_does_not_move_the_stream(
    track: TrackView,
    bindings: Map<u32, BindingView>,
    seq: u16,
    ts: u32,
    next_ts: u32,
)
    requires
        all_paused(track.bindings),
        !all_paused(bindings),
    ensures
        ({
            let paused = track.written(seq, ts);
            let resumed = TrackView { bindings, ..paused };
            &&& paused.state.last_out_seq == track.state.last_out_seq
            &&& paused.state.last_out_ts == track.state.last_out_ts
            &&& resumed.forwarded(seq_add(seq, 1), next_ts).sequence_number == seq_add(
                track.state.last_out_seq,
                1,
            )
            &&& resumed.forwarded(seq_add(seq, 1), next_ts).timestamp == ts_add(
                track.state.last_out_ts,
                ts_sub(next_ts, ts),
            )
            &&& resumed.written(seq_add(seq, 1), next_ts).state.last_out_seq == seq_add(
                track.state.last_out_seq,
                1,
            )
            &&& resumed.written(seq_add(seq, 1), next_ts).state.last_out_ts == ts_add(
                track.state.last_out_ts,
                ts_sub(next_ts, ts),
            )
        }),
{
}

/// A track that takes over another source goes on with the number after the last one
/// sent, whatever number the source begins with.
pub proof fn law_other_source_leaves_no_gap(track: TrackView, seq: u16, ts: u32)
    requires
        !all_paused(track.bindings),
    ensures
        ({
            let switched = TrackView { state: track.state.without_offset(), ..track };
            &&& switched.forwarded(seq, ts).sequence_number == seq_add(track.state.last_out_seq, 1)
            &&& switched.forwarded(seq, ts).timestamp == ts_add(
                track.state.last_out_ts,
                forward_gap(track.kind()),
            )
            &&& switched.written(seq, ts).state.last_out_seq == seq_add(
                track.state.last_out_seq,
                1,
            )
        }),
{
}

impl TrackView {
    /// The track after a packet of its source has been cached and written.
    pub open spec fn received(self, entry: PCache) -> TrackView {
        (TrackView { rtp_cache: self.rtp_cache.with_entry(entry), ..self }).written(
            entry.rtp.header.sequence_number,
            entry.rtp.header.timestamp,
        )
    }

    /// The track after packets of its source have been cached and written one after
    /// another.
    pub open spec fn received_all(self, entries: Seq<PCache>) -> TrackView
        decreases entries.len(),
    {
        if entries.len() == 0 {
            self
        } else {
            self.received_all(entries.drop_last()).received(entries.last())
        }
    }
}

proof fn lemma_received_all(track: TrackView, entries: Seq<PCache>)
    requires
        !all_paused(track.bindings),
    ensures
        ({
            let after = track.received_all(entries);
            &&& after.bindings == track.bindings
            &&& after.rtp_cache == track.rtp_cache.with_entries(entries)
            &&& after.rtp_cache.ttl_nanos == track.rtp_cache.ttl_nanos
            &&& entries.len() > 0 ==> after.state.out_offset is Some
        }),
    decreases entries.len(),
{
    if entries.len() > 0 {
        lemma_received_all(track, entries.drop_last());
    }
}

/// Once the first packet of a source has been written, the offset stays.
proof fn lemma_offset_stays(track: TrackView, entries: Seq<PCache>, i: int)
    requires
        !all_paused(track.bindings),
        0 < i <= entries.len(),
    ensures
        track.received_all(entries).state.out_offset == track.received_all(
            entries.take(i),
        ).state.out_offset,
    decreases entries.len(),
{
    if i == entries.len() {
        assert(entries.take(i) =~= entries);
    } else {
        let before = entries.drop_last();
        lemma_offset_stays(track, before, i);
        assert(before.take(i) =~= entries.take(i));
        lemma_received_all(track, before);
    }
}

/// Of the packets of a source that follow each other in number, as many as the cache
/// has room for can be sent again: each is found, as it came, under the number that it
/// left with, as long as it is no older than allowed.
pub proof fn law_sent_packets_can_be_sent_again(
    track: TrackLocalStaticRTP,
    entries: Seq<PCache>,
    first: u16,
    i: int,
    now: Instant,
)
    requires
        track.wf(),
        !all_paused(track@.bindings),
        entries.len() <= track@.rtp_cache.slots.len(),
        entries.len() <= 0x1_0000,
        forall|k: int|
            0 <= k < entries.len() ==> (#[trigger] entries[k]).rtp.header.sequence_number
                == seq_add(first, k as u16),
        0 <= i < entries.len(),
        nanos_since(now, entries[i].first_sent_at) <= track@.rtp_cache.ttl_nanos,
    ensures
        ({
            let header = entries[i].rtp.header;
            let left_with = track@.received_all(entries.take(i)).forwarded(
                header.sequence_number,
                header.timestamp,
            ).sequence_number;
            let after = track@.received_all(entries);
            after.rtp_cache.entry_at(after.state.origin(left_with), now) == Some(entries[i])
        }),
{
    let header = entries[i].rtp.header;
    let before = track@.received_all(entries.take(i));
    let out = before.forwarded(header.sequence_number, header.timestamp);
    assert(entries.take(i + 1).drop_last() =~= entries.take(i));
    assert(entries.take(i + 1).last() == entries[i]);
    lemma_received_all(track@, entries.take(i));
    lemma_received_all(track@, entries);
    lemma_offset_stays(track@, entries, i + 1);
    law_origin_recovers_number(
        before.state,
        header.sequence_number,
        header.timestamp,
        forward_gap(before.kind()),
    );
    law_latest_run_is_kept(track.rtp_cache, entries, first);
}

/// A packet that the queue did not take can be sent again too, once the offset of its
/// source is known: it is found under the number that it would have left with.
pub proof fn law_unsent_packet_can_be_sent(
    track: TrackLocalStaticRTP,
    entry: PCache,
    now: Instant,
)
    requires
        track.wf(),
        track@.state.out_offset is Some,
        nanos_since(now, entry.first_sent_at) <= track@.rtp_cache.ttl_nanos,
    ensures
        ({
            let header = entry.rtp.header;
            let cached = TrackView { rtp_cache: track@.rtp_cache.with_entry(entry), ..track@ };
            let number = cached.resent(header.sequence_number, header.timestamp).sequence_number;
            cached.rtp_cache.entry_at(cached.state.origin(number), now) == Some(entry)
        }),
{
    law_put_is_read_back(track.rtp_cache, entry, now);
}

/// Sending a packet again does not move the outgoing stream, and gives it the number
/// and timestamp under which it was forwarded.
pub proof fn law_resending_repeats_the_number(track: TrackView, seq: u16, ts: u32)
    requires
        !all_paused(track.bindings),
    ensures
        ({
            let out = track.forwarded(seq, ts);
            let after = track.written(seq, ts);
            let again = after.resent(seq, ts);
            &&& again.sequence_number == out.sequence_number
            &&& again.timestamp == out.timestamp
            &&& after.state.with_offset(seq, ts, again) == after.state
        }),
{
}

/// Every packet that a write asks to be sent carries the number and timestamp that the
/// track counts as the last ones sent.
pub proof fn law_written_packets_carry_the_last_number(
    track: TrackView,
    plan: WritePlan,
    packet: PacketView,
    extensions: Seq<HeaderExtension>,
    i: int,
)
    requires
        track.is_plan(plan, packet, extensions),
        0 <= i < plan.steps@.len(),
    ensures
        plan.steps@[i]@.outcome matches Ok(Some(sent)) ==> {
            let after = track.written(packet.header.sequence_number, packet.header.timestamp);
            &&& sent.header.sequence_number == after.state.last_out_seq
            &&& sent.header.timestamp == after.state.last_out_ts
            &&& sent.header.ssrc == plan.steps@[i].ssrc
            &&& sent.payload == packet.payload
        },
{
    let step = plan.steps@[i];
    law_sent_packet_is_addressed(
        packet,
        track.forwarded(packet.header.sequence_number, packet.header.timestamp),
        payloads(extensions),
        track.bindings[step.ssrc],
    );
    assert(track.bindings.contains_key(step.ssrc));
    assert(step@.ssrc == step.ssrc);
}

/// Every packet that a write asks to be sent is the packet that was written: it has its
/// version, padding flag, marker, contributing sources and payload. It is addressed to
/// the receiver of its step, which is bound and not paused.
pub proof fn law_written_packets_are_the_given_one(
    track: TrackView,
    plan: WritePlan,
    packet: PacketView,
    extensions: Seq<HeaderExtension>,
    i: int,
)
    requires
        track.is_plan(plan, packet, extensions),
        0 <= i < plan.steps@.len(),
    ensures
        track.bindings.contains_key(plan.steps@[i].ssrc),
        plan.steps@[i].id@ == track.bindings[plan.steps@[i].ssrc].id,
        plan.steps@[i]@.outcome matches Ok(Some(sent)) ==> {
            let binding = track.bindings[plan.steps@[i].ssrc];
            &&& !binding.sender_paused
            &&& sent.header.version == packet.header.version
            &&& sent.header.padding == packet.header.padding
            &&& sent.header.marker == packet.header.marker
            &&& sent.header.csrc == packet.header.csrc
            &&& sent.payload == packet.payload
            &&& sent.header.ssrc == plan.steps@[i].ssrc
            &&& sent.header.payload_type == binding.payload_type
        },
{
    let step = plan.steps@[i];
    law_sent_packet_is_the_given_one(
        packet,
        track.forwarded(packet.header.sequence_number, packet.header.timestamp),
        payloads(extensions),
        track.bindings[step.ssrc],
    );
    assert(track.bindings.contains_key(step.ssrc));
    assert(step@.ssrc == step.ssrc);
    assert(step@.id == step.id@);
}

/// Every packet that a write asks to be sent has the number and timestamp of the packet
/// that was written, moved by the offset of the source. The first packet of a source has
/// the number after the last one sent, and the step of its kind of media after it.
#[verifier::rlimit(50)]
pub proof fn law_written_packets_are_renumbered(
    track: TrackView,
    plan: WritePlan,
    packet: PacketView,
    extensions: Seq<HeaderExtension>,
    i: int,
)
    requires
        track.is_plan(plan, packet, extensions),
        0 <= i < plan.steps@.len(),
    ensures
        plan.steps@[i]@.outcome matches Ok(Some(sent)) ==> match track.state.out_offset {
            Some((seq_offset, ts_offset)) => {
                &&& sent.header.sequence_number == (packet.header.sequence_number + seq_offset)
                    % 0x1_0000
                &&& sent.header.timestamp == (packet.header.timestamp + ts_offset) % 0x1_0000_0000
            },
            None => {
                &&& sent.header.sequence_number == (track.state.last_out_seq + 1) % 0x1_0000
                &&& sent.header.timestamp == (track.state.last_out_ts + match track.kind() {
                    RTPCodecType::Audio => 900int,
                    RTPCodecType::Video => 3750,
                    RTPCodecType::Unspecified => 6000,
                }) % 0x1_0000_0000
            },
        },
{
    law_written_packets_carry_the_last_number(track, plan, packet, extensions, i);
    if let Some((seq_offset, ts_offset)) = track.state.out_offset {
        law_offset_moves_a_packet(
            track.state,
            packet.header.sequence_number,
            packet.header.timestamp,
            forward_gap(track.kind()),
            seq_offset,
            ts_offset,
        );
    } else {
        law_first_packet_follows_the_last(
            track.state,
            packet.header.sequence_number,
            packet.header.timestamp,
            forward_gap(track.kind()),
        );
    }
}

/// Where some binding is not paused, every binding has one step: one without a packet
/// where it is paused, and one with a packet or with the extension that was refused where
/// it is not.
pub proof fn law_every_receiver_has_one_step(
    track: TrackView,
    plan: WritePlan,
    packet: PacketView,
    extensions: Seq<HeaderExtension>,
    awake: u32,
    ssrc: u32,
)
    requires
        track.is_plan(plan, packet, extensions),
        track.bindings.contains_key(awake),
        !track.bindings[awake].sender_paused,
        track.bindings.contains_key(ssrc),
    ensures
        exists|i: int|
            0 <= i < plan.steps@.len() && (#[trigger] plan.steps@[i]).ssrc == ssrc && (
            track.bindings[ssrc].sender_paused == (plan.steps@[i]@.outcome == Ok::<
                Option<PacketView>,
                ExtensionError,
            >(None))) && forall|j: int|
                0 <= j < plan.steps@.len() && j != i ==> (#[trigger] plan.steps@[j]).ssrc != ssrc,
{
    assert(!all_paused(track.bindings));
    let i = choose|i: int| 0 <= i < plan.steps@.len() && (#[trigger] plan.steps@[i]).ssrc == ssrc;
    law_only_paused_bindings_are_sent_nothing(
        packet,
        track.forwarded(packet.header.sequence_number, packet.header.timestamp),
        payloads(extensions),
        track.bindings[ssrc],
    );
    assert(plan.steps@[i].ssrc == ssrc);
    assert forall|j: int| 0 <= j < plan.steps@.len() && j != i implies (
    #[trigger] plan.steps@[j]).ssrc != ssrc by {
        if j < i {
            assert(plan.steps@[j].ssrc != plan.steps@[i].ssrc);
        } else {
            assert(plan.steps@[i].ssrc != plan.steps@[j].ssrc);
        }
    }
}

/// Where every binding is paused a write asks for nothing, and reports nothing.
pub proof fn law_paused_write_asks_for_nothing(
    track: TrackView,
    plan: WritePlan,
    packet: PacketView,
    extensions: Seq<HeaderExtension>,
)
    requires
        track.is_plan(plan, packet, extensions),
        forall|ssrc: u32| #[trigger]
            track.bindings.contains_key(ssrc) ==> track.bindings[ssrc].sender_paused,
    ensures
        plan.steps@.len() == 0,
        plan.extension_errors@.len() == 0,
{
}

/// Where some binding is not paused, a write reports the extensions that cannot be
/// marshaled: none where all can be, and last the error of the last that cannot be.
pub proof fn law_write_reports_bad_extensions(
    track: TrackView,
    plan: WritePlan,
    packet: PacketView,
    extensions: Seq<HeaderExtension>,
    awake: u32,
    i: int,
)
    requires
        track.is_plan(plan, packet, extensions),
        track.bindings.contains_key(awake),
        !track.bindings[awake].sender_paused,
    ensures
        plan.extension_errors@ == marshal_errors(extensions),
        (forall|j: int| 0 <= j < extensions.len() ==> (#[trigger] extensions[j]).bytes() is Ok)
            ==> plan.extension_errors@.len() == 0,
        0 <= i < extensions.len() && extensions[i].bytes() is Err && (forall|j: int|
            i < j < extensions.len() ==> (#[trigger] extensions[j]).bytes() is Ok)
            ==> plan.extension_errors@.len() > 0 && extensions[i].bytes() == Err::<
            Seq<u8>,
            MarshalError,
        >(plan.extension_errors@.last()),
{
    assert(!all_paused(track.bindings));
    if forall|j: int| 0 <= j < extensions.len() ==> (#[trigger] extensions[j]).bytes() is Ok {
        law_no_failure_no_error(extensions);
    }
    if 0 <= i < extensions.len() && extensions[i].bytes() is Err && (forall|j: int|
        i < j < extensions.len() ==> (#[trigger] extensions[j]).bytes() is Ok) {
        law_last_error_is_that_of_the_last_failure(extensions, i);
    }
}

/// An extension that can be marshaled, and that no later one with its URI takes the place
/// of, is read back from every packet that a write asks to be sent to a receiver that
/// negotiated its URI, under the negotiated id. `n` is the first of the receiver's
/// parameters with the URI; no other URI goes under the same id.
#[verifier::rlimit(50)]
pub proof fn law_extensions_reach_the_receiver(
    track: TrackView,
    plan: WritePlan,
    packet: PacketView,
    extensions: Seq<HeaderExtension>,
    step: int,
    i: int,
    n: int,
    bytes: Seq<u8>,
)
    requires
        track.is_plan(plan, packet, extensions),
        packet.header.extension || packet.header.extensions.len() == 0,
        0 <= step < plan.steps@.len(),
        0 <= i < extensions.len(),
        extensions[i].bytes() == Ok::<Seq<u8>, MarshalError>(bytes),
        forall|j: int|
            i < j < extensions.len() && (#[trigger] extensions[j]).bytes() is Ok
                ==> extensions[j].uri_chars() != extensions[i].uri_chars(),
        ({
            let parameters = track.bindings[plan.steps@[step].ssrc].header_extensions;
            let uri = extensions[i].uri_chars();
            &&& 0 <= n < parameters.len()
            &&& parameters[n].0 == uri
            &&& forall|m: int| 0 <= m < n ==> (#[trigger] parameters[m]).0 != uri
            &&& forall|m: int|
                0 <= m < parameters.len() && (#[trigger] parameters[m]).0 != uri
                    ==> parameters[m].1 as u8 != parameters[n].1 as u8
        }),
    ensures
        plan.steps@[step]@.outcome matches Ok(Some(sent)) ==> reads(
            sent.header.extensions,
            track.bindings[plan.steps@[step].ssrc].header_extensions[n].1 as u8,
            bytes,
        ),
{
    let binding = track.bindings[plan.steps@[step].ssrc];
    let attrs = track.forwarded(packet.header.sequence_number, packet.header.timestamp);
    assert(track.bindings.contains_key(plan.steps@[step].ssrc));
    lemma_extension_is_sent(packet, attrs, extensions, binding, i, n, bytes);
}

proof fn lemma_extension_is_sent(
    packet: PacketView,
    attrs: PkgAttrs,
    extensions: Seq<HeaderExtension>,
    binding: BindingView,
    i: int,
    n: int,
    bytes: Seq<u8>,
)
    requires
        packet.header.extension || packet.header.extensions.len() == 0,
        0 <= i < extensions.len(),
        extensions[i].bytes() == Ok::<Seq<u8>, MarshalError>(bytes),
        forall|j: int|
            i < j < extensions.len() && (#[trigger] extensions[j]).bytes() is Ok
                ==> extensions[j].uri_chars() != extensions[i].uri_chars(),
        ({
            let parameters = binding.header_extensions;
            let uri = extensions[i].uri_chars();
            &&& 0 <= n < parameters.len()
            &&& parameters[n].0 == uri
            &&& forall|m: int| 0 <= m < n ==> (#[trigger] parameters[m]).0 != uri
            &&& forall|m: int|
                0 <= m < parameters.len() && (#[trigger] parameters[m]).0 != uri
                    ==> parameters[m].1 as u8 != parameters[n].1 as u8
        }),
    ensures
        outgoing(packet, attrs, payloads(extensions), binding) matches Ok(Some(sent)) ==> reads(
            sent.header.extensions,
            binding.header_extensions[n].1 as u8,
            bytes,
        ),
{
    let (parameters, entries) = (binding.header_extensions, payloads(extensions));
    let uri = extensions[i].uri_chars();
    let id = parameters[n].1 as u8;
    law_every_extension_is_found(extensions, i, bytes);
    law_uris_are_distinct(extensions);
    let k = choose|k: int|
        0 <= k < entries.len() && (#[trigger] entries[k]).0 == uri && entries[k].1 == bytes;
    assert forall|j: int| k < j < entries.len() implies negotiated_id(
        parameters,
        (#[trigger] entries[j]).0,
    ) != Some(id) by {
        assert(entries[k].0 != entries[j].0);
        if forall|m: int| 0 <= m < parameters.len() ==> (#[trigger] parameters[m]).0
            != entries[j].0 {
            law_unknown_uri_has_no_id(parameters, entries[j].0);
        } else {
            let m = lemma_first_parameter(parameters, entries[j].0);
            law_first_parameter_gives_the_id(parameters, entries[j].0, m);
        }
    }
    law_negotiated_payload_is_sent(packet, attrs, entries, binding, k, n);
}

/// Some parameter with a URI is the first with it.
proof fn lemma_first_parameter(parameters: Seq<(Seq<char>, isize)>, uri: Seq<char>) -> (m: int)
    requires
        exists|m: int| 0 <= m < parameters.len() && (#[trigger] parameters[m]).0 == uri,
    ensures
        0 <= m < parameters.len(),
        parameters[m].0 == uri,
        forall|k: int| 0 <= k < m ==> (#[trigger] parameters[k]).0 != uri,
    decreases parameters.len(),
{
    if parameters[0].0 == uri {
        0
    } else {
        let rest = parameters.drop_first();
        let some = choose|m: int|
            0 <= m < parameters.len() && (#[trigger] parameters[m]).0 == uri;
        assert(rest[some - 1].0 == uri);
        let m = lemma_first_parameter(rest, uri) + 1;
        assert forall|k: int| 0 <= k < m implies (#[trigger] parameters[k]).0 != uri by {
            if k > 0 {
                assert(rest[k - 1] == parameters[k]);
            }
        }
        m
    }
}

/// A write changes the outgoing numbers of a track and nothing else. Where every binding
/// is paused, the last number and timestamp stay, the marker is raised, and the offset is
/// the one that would give the packet those. Else the packet counts as sent: the offset
/// turns its numbers into the last ones, and the marker stays.
#[verifier::rlimit(50)]
pub proof fn law_write_changes_only_the_numbers(track: TrackView, seq: u16, ts: u32)
    ensures
        ({
            let after = track.written(seq, ts);
            let (before, now) = (track.state, after.state);
            let paused = forall|ssrc: u32| #[trigger]
                track.bindings.contains_key(ssrc) ==> track.bindings[ssrc].sender_paused;
            &&& after == (TrackView { state: now, ..track })
            &&& now.started_at_ts == before.started_at_ts
            &&& now.out_offset matches Some((seq_offset, ts_offset))
            &&& (seq + seq_offset) % 0x1_0000 == now.last_out_seq
            &&& (ts + ts_offset) % 0x1_0000_0000 == now.last_out_ts
            &&& paused ==> now.marker && now.last_out_seq == before.last_out_seq && now.last_out_ts
                == before.last_out_ts
            &&& !paused ==> now.marker == before.marker && (before.out_offset is Some
                ==> now.out_offset == before.out_offset)
            &&& !paused && before.out_offset is None ==> now.last_out_seq == (before.last_out_seq
                + 1) % 0x1_0000
        }),
{
}

/// Two packets of one source that are written one after the other leave as far apart as
/// they came, in number and in timestamp, whoever they are sent to.
#[verifier::spinoff_prover]
#[verifier::rlimit(50)]
pub proof fn law_packets_leave_as_far_apart_as_they_came(
    track: TrackView,
    plan1: WritePlan,
    packet1: PacketView,
    extensions1: Seq<HeaderExtension>,
    i: int,
    plan2: WritePlan,
    packet2: PacketView,
    extensions2: Seq<HeaderExtension>,
    j: int,
)
    requires
        track.is_plan(plan1, packet1, extensions1),
        track.written(packet1.header.sequence_number, packet1.header.timestamp).is_plan(
            plan2,
            packet2,
            extensions2,
        ),
        0 <= i < plan1.steps@.len(),
        0 <= j < plan2.steps@.len(),
    ensures
        (plan1.steps@[i]@.outcome, plan2.steps@[j]@.outcome) matches (
            Ok(Some(sent1)),
            Ok(Some(sent2)),
        ) ==> {
            &&& (sent2.header.sequence_number - sent1.header.sequence_number) % 0x1_0000 == (
            packet2.header.sequence_number - packet1.header.sequence_number) % 0x1_0000
            &&& (sent2.header.timestamp - sent1.header.timestamp) % 0x1_0000_0000 == (
            packet2.header.timestamp - packet1.header.timestamp) % 0x1_0000_0000
        },
{
    let (seq1, ts1) = (packet1.header.sequence_number, packet1.header.timestamp);
    let after = track.written(seq1, ts1);
    law_written_packets_carry_the_last_number(track, plan1, packet1, extensions1, i);
    lemma_renumbered_by_offset(after, plan2, packet2, extensions2, j);
    law_write_changes_only_the_numbers(track, seq1, ts1);
    let (seq_offset, ts_offset) = after.state.out_offset.unwrap();
    lemma_seq_distance(seq1, packet2.header.sequence_number, seq_offset);
    lemma_ts_distance(ts1, packet2.header.timestamp, ts_offset);
}

proof fn lemma_seq_distance(a: u16, b: u16, offset: u16)
    ensures
        ((b + offset) % 0x1_0000 - (a + offset) % 0x1_0000) % 0x1_0000 == (b - a) % 0x1_0000,
{
}

proof fn lemma_ts_distance(a: u32, b: u32, offset: u32)
    ensures
        ((b + offset) % 0x1_0000_0000 - (a + offset) % 0x1_0000_0000) % 0x1_0000_0000 == (b - a)
            % 0x1_0000_0000,
{
}

/// A packet that a write asks to be sent, of a source whose offset is known, is moved by
/// the offset.
proof fn lemma_renumbered_by_offset(
    track: TrackView,
    plan: WritePlan,
    packet: PacketView,
    extensions: Seq<HeaderExtension>,
    i: int,
)
    requires
        track.is_plan(plan, packet, extensions),
        0 <= i < plan.steps@.len(),
        track.state.out_offset is Some,
    ensures
        ({
            let (seq_offset, ts_offset) = track.state.out_offset.unwrap();
            plan.steps@[i]@.outcome matches Ok(Some(sent)) ==> {
                &&& sent.header.sequence_number == (packet.header.sequence_number + seq_offset)
                    % 0x1_0000
                &&& sent.header.timestamp == (packet.header.timestamp + ts_offset) % 0x1_0000_0000
            }
        }),
{
    law_written_packets_are_renumbered(track, plan, packet, extensions, i);
}

/// A packet that a write to one receiver gives is the packet that was given: it has its
/// version, padding flag, marker, contributing sources and payload, the SSRC and the
/// payload type of the receiver, which is bound and not paused, and the number and
/// timestamp of the attributes. It is given only where every extension can be marshaled.
pub proof fn law_packet_to_one_is_the_given_one(
    track: TrackView,
    packet: PacketView,
    attrs: PkgAttrs,
    extensions: Seq<HeaderExtension>,
    ssrc: u32,
)
    requires
        bindings_wf(track.bindings),
    ensures
        track.outgoing_to(packet, attrs, extensions, ssrc) matches Ok(Some(sent)) ==> {
            &&& track.bindings.contains_key(ssrc)
            &&& !track.bindings[ssrc].sender_paused
            &&& sent.header.version == packet.header.version
            &&& sent.header.padding == packet.header.padding
            &&& sent.header.marker == packet.header.marker
            &&& sent.header.csrc == packet.header.csrc
            &&& sent.payload == packet.payload
            &&& sent.header.ssrc == ssrc
            &&& sent.header.payload_type == track.bindings[ssrc].payload_type
            &&& sent.header.sequence_number == attrs.sequence_number
            &&& sent.header.timestamp == attrs.timestamp
        },
{
    law_sent_packet_is_the_given_one(packet, attrs, payloads(extensions), track.bindings[ssrc]);
}

/// A write to one receiver is refused first where the receiver is not bound, and then
/// where an extension cannot be marshaled, with the last such error. Else it gives
/// nothing just where the receiver is paused.
pub proof fn law_write_to_one_receiver(
    track: TrackView,
    packet: PacketView,
    attrs: PkgAttrs,
    extensions: Seq<HeaderExtension>,
    ssrc: u32,
    i: int,
)
    ensures
        ({
            let given = track.outgoing_to(packet, attrs, extensions, ssrc);
            let good = forall|j: int|
                0 <= j < extensions.len() ==> (#[trigger] extensions[j]).bytes() is Ok;
            &&& !track.bindings.contains_key(ssrc) ==> given == Err::<Option<PacketView>, Error>(
                Error::LocalTrackBindingNotFound,
            )
            &&& track.bindings.contains_key(ssrc) && 0 <= i < extensions.len() && (forall|j: int|
                i < j < extensions.len() ==> (#[trigger] extensions[j]).bytes() is Ok) ==> (
            extensions[i].bytes() matches Err(error) ==> given == Err::<Option<PacketView>, Error>(
                Error::Util(error),
            ))
            &&& track.bindings.contains_key(ssrc) && good ==> track.bindings[ssrc].sender_paused
                == (given == Ok::<Option<PacketView>, Error>(None))
            &&& track.bindings.contains_key(ssrc) && good ==> (given matches Err(error)
                ==> error is Rtp)
        }),
{
    law_only_paused_bindings_are_sent_nothing(
        packet,
        attrs,
        payloads(extensions),
        track.bindings[ssrc],
    );
    if 0 <= i < extensions.len() && extensions[i].bytes() is Err && (forall|j: int|
        i < j < extensions.len() ==> (#[trigger] extensions[j]).bytes() is Ok) {
        law_last_error_is_that_of_the_last_failure(extensions, i);
    }
    if forall|j: int| 0 <= j < extensions.len() ==> (#[trigger] extensions[j]).bytes() is Ok {
        law_no_failure_no_error(extensions);
    }
}

/// An extension that can be marshaled, and that no later one with its URI takes the place
/// of, is read back from the packet that a write to one receiver gives, under the id that
/// the receiver negotiated. `n` is the first of its parameters with the URI; no other URI
/// goes under the same id.
pub proof fn law_extensions_reach_the_one_receiver(
    track: TrackView,
    packet: PacketView,
    attrs: PkgAttrs,
    extensions: Seq<HeaderExtension>,
    ssrc: u32,
    i: int,
    n: int,
    bytes: Seq<u8>,
)
    requires
        packet.header.extension || packet.header.extensions.len() == 0,
        0 <= i < extensions.len(),
        extensions[i].bytes() == Ok::<Seq<u8>, MarshalError>(bytes),
        forall|j: int|
            i < j < extensions.len() && (#[trigger] extensions[j]).bytes() is Ok
                ==> extensions[j].uri_chars() != extensions[i].uri_chars(),
        ({
            let parameters = track.bindings[ssrc].header_extensions;
            let uri = extensions[i].uri_chars();
            &&& 0 <= n < parameters.len()
            &&& parameters[n].0 == uri
            &&& forall|m: int| 0 <= m < n ==> (#[trigger] parameters[m]).0 != uri
            &&& forall|m: int|
                0 <= m < parameters.len() && (#[trigger] parameters[m]).0 != uri
                    ==> parameters[m].1 as u8 != parameters[n].1 as u8
        }),
    ensures
        track.outgoing_to(packet, attrs, extensions, ssrc) matches Ok(Some(sent)) ==> reads(
            sent.header.extensions,
            track.bindings[ssrc].header_extensions[n].1 as u8,
            bytes,
        ),
{
    lemma_extension_is_sent(packet, attrs, extensions, track.bindings[ssrc], i, n, bytes);
}

/// Sending a packet again to a receiver, once it has been written, gives that receiver
/// the very packet that the write asked to be sent to it.
pub proof fn law_sending_again_gives_the_same_packet(
    track: TrackView,
    plan: WritePlan,
    packet: PacketView,
    i: int,
)
    requires
        track.is_plan(plan, packet, Seq::empty()),
        0 <= i < plan.steps@.len(),
    ensures
        ({
            let (seq, ts) = (packet.header.sequence_number, packet.header.timestamp);
            let after = track.written(seq, ts);
            plan.steps@[i]@.outcome matches Ok(Some(sent)) ==> after.outgoing_to(
                packet,
                after.resent(seq, ts),
                Seq::empty(),
                plan.steps@[i].ssrc,
            ) == Ok::<Option<PacketView>, Error>(Some(sent))
        }),
{
    let (seq, ts) = (packet.header.sequence_number, packet.header.timestamp);
    let step = plan.steps@[i];
    let after = track.written(seq, ts);
    let (first, again) = (track.forwarded(seq, ts), after.resent(seq, ts));
    assert(track.bindings.contains_key(step.ssrc));
    law_resending_repeats_the_number(track, seq, ts);
    let binding = track.bindings[step.ssrc];
    assert(addressed(packet.header, first, binding) == addressed(packet.header, again, binding));
}

/// A packet that is sent again before its source's offset is known has the number after
/// the last one sent, and the step of its kind of media after it; else it is moved by the
/// offset. Nothing but the offset changes.
#[verifier::rlimit(50)]
pub proof fn law_resent_packets_are_renumbered(track: TrackView, seq: u16, ts: u32)
    ensures
        ({
            let again = track.resent(seq, ts);
            let after = track.state.with_offset(seq, ts, again);
            &&& match track.state.out_offset {
                Some((seq_offset, ts_offset)) => {
                    &&& again.sequence_number == (seq + seq_offset) % 0x1_0000
                    &&& again.timestamp == (ts + ts_offset) % 0x1_0000_0000
                    &&& after.out_offset == track.state.out_offset
                },
                None => {
                    &&& again.sequence_number == (track.state.last_out_seq + 1) % 0x1_0000
                    &&& again.timestamp == (track.state.last_out_ts + match track.kind() {
                        RTPCodecType::Audio => 900int,
                        RTPCodecType::Video => 3750,
                        RTPCodecType::Unspecified => 3750,
                    }) % 0x1_0000_0000
                },
            }
            &&& after.last_out_seq == track.state.last_out_seq
            &&& after.last_out_ts == track.state.last_out_ts
            &&& after.marker == track.state.marker
        }),
{
}

/// A packet that was cached before it was written is found, as it came, under the number
/// that any receiver was sent it with, as long as it is no older than allowed.
#[verifier::rlimit(50)]
pub proof fn law_sent_number_finds_the_packet(
    track: TrackView,
    plan: WritePlan,
    entry: PCache,
    extensions: Seq<HeaderExtension>,
    i: int,
    now: Instant,
)
    requires
        track.is_plan(plan, entry.rtp@, extensions),
        0 <= i < plan.steps@.len(),
        track.rtp_cache.entry(entry.rtp.header.sequence_number) == Some(entry),
        nanos_since(now, entry.first_sent_at) <= track.rtp_cache.ttl_nanos,
    ensures
        plan.steps@[i]@.outcome matches Ok(Some(sent)) ==> {
            let after = track.written(
                entry.rtp.header.sequence_number,
                entry.rtp.header.timestamp,
            );
            after.rtp_cache.entry_at(after.state.origin(sent.header.sequence_number), now) == Some(
                entry,
            )
        },
{
    law_written_packets_carry_the_last_number(track, plan, entry.rtp@, extensions, i);
    law_write_changes_only_the_numbers(
        track,
        entry.rtp.header.sequence_number,
        entry.rtp.header.timestamp,
    );
}

/// The value of what a write to one receiver came to is that of the packet or the error.
pub proof fn law_sent_value_is_that_of_the_packet(packet: Packet, error: Error)
    ensures
        sent_view(Ok(Some(packet))) == Ok::<Option<PacketView>, Error>(Some(packet@)),
        sent_view(Ok(None)) == Ok::<Option<PacketView>, Error>(None),
        sent_view(Err(error)) == Err::<Option<PacketView>, Error>(error),
{
}

} // verus!
