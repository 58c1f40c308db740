//! The bindings of a track: who its packets go to, and how a packet is addressed
//! to one of them.
use crate::codec::{
    clone_parameters, find_negotiated_id, law_first_parameter_gives_the_id, negotiated_id,
    parameter_views, RTCRtpHeaderExtensionParameters,
};
use crate::header_extension::{payloads_fit, ExtensionData, PayloadsByUri};
use crate::octets::{octets, share};
use crate::packet::{
    clone_extensions, extension_views, extensions_fit, has_id, law_set_extension_keeps_lengths,
    law_setting_one_extension, law_small_extension_is_accepted, length_fits, reads,
    set_extension, Extension, ExtensionError, ExtensionView, HeaderView, Packet,
    PacketView,
};
use crate::track_state::PkgAttrs;
use vstd::prelude::*;

verus! {

/// One receiver of a track.
#[derive(Debug)]
pub struct TrackBinding {
    pub id: String,
    pub ssrc: u32,
    pub payload_type: u8,
    /// The header extensions that were negotiated.
    pub header_extensions: Vec<RTCRtpHeaderExtensionParameters>,
    /// The extensions that every packet carries.
    pub hdr_ext_ids: Vec<Extension>,
    pub sender_paused: bool,
}

/// The mathematical value of a `TrackBinding`.
#[verifier::ext_equal]
pub struct BindingView {
    pub id: Seq<char>,
    pub ssrc: u32,
    pub payload_type: u8,
    pub header_extensions: Seq<(Seq<char>, isize)>,
    pub hdr_ext_ids: Seq<ExtensionView>,
    pub sender_paused: bool,
}

impl View for TrackBinding {
    type V = BindingView;

    open spec fn view(&self) -> BindingView {
        BindingView {
            id: self.id@,
            ssrc: self.ssrc,
            payload_type: self.payload_type,
            header_extensions: parameter_views(self.header_extensions@),
            hdr_ext_ids: extension_views(self.hdr_ext_ids@),
            sender_paused: self.sender_paused,
        }
    }
}

impl BindingView {
    /// The binding with the sender paused or not.
    pub open spec fn with_paused(self, paused: bool) -> BindingView {
        BindingView { sender_paused: paused, ..self }
    }
}

impl TrackBinding {
    /// Whether nothing is to be sent to this receiver for now.
    pub fn is_sender_paused(&self) -> (paused: bool)
        ensures
            paused == self@.sender_paused,
    {
        self.sender_paused
    }

    /// A copy with the sender paused or not.
    pub fn with_sender_paused(&self, paused: bool) -> (binding: TrackBinding)
        ensures
            binding@ == self@.with_paused(paused),
    {
        TrackBinding {
            id: self.id.clone(),
            ssrc: self.ssrc,
            payload_type: self.payload_type,
            header_extensions: clone_parameters(&self.header_extensions),
            hdr_ext_ids: clone_extensions(&self.hdr_ext_ids),
            sender_paused: paused,
        }
    }
}

/// A header addressed to a binding.
pub open spec fn addressed(
    header: HeaderView,
    attrs: PkgAttrs,
    binding: BindingView,
) -> HeaderView {
    HeaderView {
        sequence_number: attrs.sequence_number,
        timestamp: attrs.timestamp,
        ssrc: binding.ssrc,
        payload_type: binding.payload_type,
        ..header
    }
}

/// Those of the payloads whose URI the binding negotiated, under their ids.
pub open spec fn negotiated(
    entries: PayloadsByUri,
    parameters: Seq<(Seq<char>, isize)>,
) -> Seq<ExtensionView>
    decreases entries.len(),
{
    if entries.len() == 0 {
        Seq::empty()
    } else {
        let before = negotiated(entries.drop_last(), parameters);
        match negotiated_id(parameters, entries.last().0) {
            Some(id) => before.push(ExtensionView { id, payload: entries.last().1 }),
            None => before,
        }
    }
}

/// The header after the extensions have been set one after another; the first that
/// is refused ends it.
pub open spec fn with_extensions(header: HeaderView, extensions: Seq<ExtensionView>) -> Result<
    HeaderView,
    ExtensionError,
>
    decreases extensions.len(),
{
    if extensions.len() == 0 {
        Ok(header)
    } else {
        match header.with_extension(extensions[0].id, extensions[0].payload) {
            Ok(changed) => with_extensions(changed, extensions.drop_first()),
            Err(error) => Err(error),
        }
    }
}

/// The packet that a binding is sent: none while it is paused; else the packet
/// addressed to it, with the extensions that every packet carries and those that it
/// negotiated.
pub open spec fn outgoing(
    packet: PacketView,
    attrs: PkgAttrs,
    entries: PayloadsByUri,
    binding: BindingView,
) -> Result<Option<PacketView>, ExtensionError> {
    if binding.sender_paused {
        Ok(None)
    } else {
        match with_extensions(
            addressed(packet.header, attrs, binding),
            binding.hdr_ext_ids + negotiated(entries, binding.header_extensions),
        ) {
            Ok(header) => Ok(Some(PacketView { header, payload: packet.payload })),
            Err(error) => Err(error),
        }
    }
}

proof fn lemma_with_extensions_concat(
    header: HeaderView,
    first: Seq<ExtensionView>,
    second: Seq<ExtensionView>,
)
    ensures
        with_extensions(header, first + second) == (match with_extensions(header, first) {
            Ok(changed) => with_extensions(changed, second),
            Err(error) => Err(error),
        }),
    decreases first.len(),
{
    if first.len() == 0 {
        assert(first + second =~= second);
    } else {
        assert((first + second).drop_first() =~= first.drop_first() + second);
        if let Ok(changed) = header.with_extension(first[0].id, first[0].payload) {
            lemma_with_extensions_concat(changed, first.drop_first(), second);
        }
    }
}

proof fn lemma_with_extensions_push(
    header: HeaderView,
    extensions: Seq<ExtensionView>,
    extension: ExtensionView,
)
    ensures
        with_extensions(header, extensions.push(extension)) == (match with_extensions(
            header,
            extensions,
        ) {
            Ok(changed) => changed.with_extension(extension.id, extension.payload),
            Err(error) => Err(error),
        }),
{
    let one = seq![extension];
    assert(extensions.push(extension) =~= extensions + one);
    lemma_with_extensions_concat(header, extensions, one);
    reveal_with_fuel(with_extensions, 2);
    assert(one.drop_first() =~= Seq::empty());
}

/// Sets one more extension, given that those before it were set.
fn set_next(
    packet: &mut Packet,
    id: u8,
    payload: bytes::Bytes,
    Ghost(start): Ghost<HeaderView>,
    Ghost(done): Ghost<Seq<ExtensionView>>,
) -> (result: Result<(), ExtensionError>)
    requires
        old(packet)@.header.fits(),
        length_fits(octets(payload).len() as int),
        with_extensions(start, done) == Ok::<HeaderView, ExtensionError>(old(packet)@.header),
    ensures
        final(packet)@.payload == old(packet)@.payload,
        match result {
            Ok(_) => final(packet)@.header.fits() && with_extensions(
                start,
                done.push(ExtensionView { id, payload: octets(payload) }),
            ) == Ok::<HeaderView, ExtensionError>(final(packet)@.header),
            Err(error) => with_extensions(
                start,
                done.push(ExtensionView { id, payload: octets(payload) }),
            ) == Err::<HeaderView, ExtensionError>(error),
        },
{
    proof {
        lemma_with_extensions_push(start, done, ExtensionView { id, payload: octets(payload) });
        law_set_extension_keeps_lengths(packet@.header, id, octets(payload));
    }
    set_extension(&mut packet.header, id, payload)
}

/// Once an extension is refused, nothing that follows matters.
proof fn lemma_refusal_is_final(
    header: HeaderView,
    first: Seq<ExtensionView>,
    all: Seq<ExtensionView>,
)
    requires
        first.len() <= all.len(),
        all.take(first.len() as int) == first,
        with_extensions(header, first) is Err,
    ensures
        with_extensions(header, all) == with_extensions(header, first),
{
    let rest = all.skip(first.len() as int);
    assert(all =~= first + rest);
    lemma_with_extensions_concat(header, first, rest);
}

proof fn lemma_negotiated_prefix(
    entries: PayloadsByUri,
    parameters: Seq<(Seq<char>, isize)>,
    i: int,
)
    requires
        0 <= i <= entries.len(),
    ensures
        negotiated(entries.take(i), parameters).len() <= negotiated(entries, parameters).len(),
        negotiated(entries, parameters).take(negotiated(entries.take(i), parameters).len() as int)
            == negotiated(entries.take(i), parameters),
    decreases entries.len(),
{
    if i == entries.len() {
        assert(entries.take(i) =~= entries);
    } else {
        let before = entries.drop_last();
        lemma_negotiated_prefix(before, parameters, i);
        assert(before.take(i) =~= entries.take(i));
        let (all, fewer, some) = (
            negotiated(entries, parameters),
            negotiated(before, parameters),
            negotiated(entries.take(i), parameters),
        );
        assert(all.take(some.len() as int) =~= fewer.take(some.len() as int));
    }
}

/// The packet that a binding is sent, or none while it is paused.
pub fn write_rtp_with_extensions_to_binding(
    p: &Packet,
    pkg_attrs: &PkgAttrs,
    extension_data: &ExtensionData,
    binding: &TrackBinding,
) -> (result: Result<Option<Packet>, ExtensionError>)
    requires
        p@.header.fits(),
        extensions_fit(binding@.hdr_ext_ids),
        payloads_fit(extension_data@),
    ensures
        match result {
            Ok(Some(packet)) => outgoing(p@, *pkg_attrs, extension_data@, binding@) == Ok::<
                Option<PacketView>,
                ExtensionError,
            >(Some(packet@)),
            Ok(None) => outgoing(p@, *pkg_attrs, extension_data@, binding@) == Ok::<
                Option<PacketView>,
                ExtensionError,
            >(None),
            Err(error) => outgoing(p@, *pkg_attrs, extension_data@, binding@) == Err::<
                Option<PacketView>,
                ExtensionError,
            >(error),
        },
{
    if binding.is_sender_paused() {
        return Ok(None);
    }
    let mut pkt = p.clone();
    pkt.header.sequence_number = pkg_attrs.sequence_number;
    pkt.header.timestamp = pkg_attrs.timestamp;
    pkt.header.ssrc = binding.ssrc;
    pkt.header.payload_type = binding.payload_type;
    let ghost start = addressed(p@.header, *pkg_attrs, binding@);
    let ghost fixed = binding@.hdr_ext_ids;
    let ghost entries = extension_data@;
    let ghost parameters = binding@.header_extensions;
    let ghost all = fixed + negotiated(entries, parameters);
    assert(pkt@.header == start);
    assert(fixed.take(0) =~= Seq::empty());
    for i in 0..binding.hdr_ext_ids.len()
        invariant
            pkt@.payload == p@.payload,
            pkt@.header.fits(),
            fixed == binding@.hdr_ext_ids,
            extensions_fit(fixed),
            all == fixed + negotiated(entries, parameters),
            outgoing(p@, *pkg_attrs, entries, binding@) == (match with_extensions(start, all) {
                Ok(header) => Ok::<Option<PacketView>, ExtensionError>(
                    Some(PacketView { header, payload: p@.payload }),
                ),
                Err(error) => Err(error),
            }),
            entries == extension_data@,
            with_extensions(start, fixed.take(i as int)) == Ok::<HeaderView, ExtensionError>(
                pkt@.header,
            ),
    {
        let ext = &binding.hdr_ext_ids[i];
        assert(ext@ == fixed[i as int]);
        let ghost done = fixed.take(i as int);
        let result = set_next(&mut pkt, ext.id, share(&ext.payload), Ghost(start), Ghost(done));
        assert(fixed.take(i + 1) =~= done.push(fixed[i as int]));
        if let Err(error) = result {
            proof {
                assert(all.take(i + 1) =~= fixed.take(i + 1));
                lemma_refusal_is_final(start, fixed.take(i + 1), all);
            }
            return Err(error);
        }
    }
    assert(fixed.take(fixed.len() as int) =~= fixed);
    assert(fixed + negotiated(entries.take(0), parameters) =~= fixed);
    let count: usize = extension_data.len();
    for i in 0..count
        invariant
            count == entries.len(),
            pkt@.payload == p@.payload,
            pkt@.header.fits(),
            parameters == binding@.header_extensions,
            entries == extension_data@,
            payloads_fit(entries),
            all == fixed + negotiated(entries, parameters),
            outgoing(p@, *pkg_attrs, entries, binding@) == (match with_extensions(start, all) {
                Ok(header) => Ok::<Option<PacketView>, ExtensionError>(
                    Some(PacketView { header, payload: p@.payload }),
                ),
                Err(error) => Err(error),
            }),
            with_extensions(start, fixed + negotiated(entries.take(i as int), parameters)) == Ok::<
                HeaderView,
                ExtensionError,
            >(pkt@.header),
    {
        let ghost done = fixed + negotiated(entries.take(i as int), parameters);
        assert(entries.take(i + 1).drop_last() =~= entries.take(i as int));
        assert(entries.take(i + 1).last() == entries[i as int]);
        if let Some(id) = find_negotiated_id(&binding.header_extensions, extension_data.uri_at(i)) {
            let payload = extension_data.payload_at(i);
            let result = set_next(&mut pkt, id, payload, Ghost(start), Ghost(done));
            assert(fixed + negotiated(entries.take(i + 1), parameters) =~= done.push(
                ExtensionView { id, payload: entries[i as int].1 },
            ));
            if let Err(error) = result {
                proof {
                    let first = fixed + negotiated(entries.take(i + 1), parameters);
                    lemma_negotiated_prefix(entries, parameters, i + 1);
                    assert(all.take(first.len() as int) =~= first);
                    lemma_refusal_is_final(start, first, all);
                }
                return Err(error);
            }
        }
    }
    assert(entries.take(entries.len() as int) =~= entries);
    Ok(Some(pkt))
}

/// Setting extensions leaves the numbers and the addresses in a header as they are.
proof fn lemma_extensions_keep_the_rest(header: HeaderView, extensions: Seq<ExtensionView>)
    ensures
        with_extensions(header, extensions) matches Ok(changed) ==> changed == (HeaderView {
            extension: changed.extension,
            extension_profile: changed.extension_profile,
            extensions: changed.extensions,
            extensions_padding: changed.extensions_padding,
            ..header
        }),
    decreases extensions.len(),
{
    if extensions.len() > 0 {
        if let Ok(changed) = header.with_extension(extensions[0].id, extensions[0].payload) {
            lemma_extensions_keep_the_rest(changed, extensions.drop_first());
        }
    }
}

/// A packet that is sent carries the given number and timestamp, the SSRC and payload
/// type of its binding, and the payload and marker that it came with.
pub proof fn law_sent_packet_is_addressed(
    packet: PacketView,
    attrs: PkgAttrs,
    entries: PayloadsByUri,
    binding: BindingView,
)
    ensures
        outgoing(packet, attrs, entries, binding) matches Ok(Some(sent)) ==> {
            &&& sent.header.sequence_number == attrs.sequence_number
            &&& sent.header.timestamp == attrs.timestamp
            &&& sent.header.ssrc == binding.ssrc
            &&& sent.header.payload_type == binding.payload_type
            &&& sent.header.marker == packet.header.marker
            &&& sent.payload == packet.payload
        },
{
    lemma_extensions_keep_the_rest(
        addressed(packet.header, attrs, binding),
        binding.hdr_ext_ids + negotiated(entries, binding.header_extensions),
    );
}

/// Nothing is sent to a binding that is paused, and nothing goes wrong there.
pub proof fn law_paused_binding_is_sent_nothing(
    packet: PacketView,
    attrs: PkgAttrs,
    entries: PayloadsByUri,
    binding: BindingView,
)
    requires
        binding.sender_paused,
    ensures
        outgoing(packet, attrs, entries, binding) == Ok::<Option<PacketView>, ExtensionError>(None),
{
}

/// A packet without extensions always reaches a binding that is not paused, where the
/// binding adds none either.
pub proof fn law_plain_packet_is_sent(packet: PacketView, attrs: PkgAttrs, binding: BindingView)
    requires
        !binding.sender_paused,
        binding.hdr_ext_ids.len() == 0,
    ensures
        outgoing(packet, attrs, Seq::empty(), binding) == Ok::<Option<PacketView>, ExtensionError>(
            Some(
                PacketView {
                    header: addressed(packet.header, attrs, binding),
                    payload: packet.payload,
                },
            ),
        ),
{
    assert(binding.hdr_ext_ids + negotiated(Seq::empty(), binding.header_extensions)
        =~= Seq::empty());
}

/// The value of a binding holds what its fields hold.
pub proof fn law_binding_value_is_that_of_the_fields(binding: TrackBinding)
    ensures
        binding@.id == binding.id@,
        binding@.ssrc == binding.ssrc,
        binding@.payload_type == binding.payload_type,
        binding@.sender_paused == binding.sender_paused,
        binding@.header_extensions.len() == binding.header_extensions@.len(),
        forall|i: int|
            0 <= i < binding.header_extensions@.len() ==> (
            #[trigger] binding@.header_extensions[i]).0 == binding.header_extensions@[i].uri@
                && binding@.header_extensions[i].1 == binding.header_extensions@[i].id,
        binding@.hdr_ext_ids.len() == binding.hdr_ext_ids@.len(),
        forall|i: int|
            0 <= i < binding.hdr_ext_ids@.len() ==> (#[trigger] binding@.hdr_ext_ids[i]).id
                == binding.hdr_ext_ids@[i].id && binding@.hdr_ext_ids[i].payload == octets(
                binding.hdr_ext_ids@[i].payload,
            ),
{
}

/// Of extensions set one after another, the last with an id is what is read under it.
pub proof fn law_last_set_is_read(header: HeaderView, extensions: Seq<ExtensionView>, i: int)
    requires
        header.extension || header.extensions.len() == 0,
        with_extensions(header, extensions) is Ok,
        0 <= i < extensions.len(),
        forall|j: int|
            i < j < extensions.len() ==> (#[trigger] extensions[j]).id != extensions[i].id,
    ensures
        with_extensions(header, extensions) matches Ok(changed) && reads(
            changed.extensions,
            extensions[i].id,
            extensions[i].payload,
        ),
    decreases extensions.len(),
{
    let (first, rest) = (extensions[0], extensions.drop_first());
    law_setting_one_extension(header, first.id, first.payload, first.id, first.payload);
    if let Ok(next) = header.with_extension(first.id, first.payload) {
        if i > 0 {
            assert(rest[i - 1] == extensions[i]);
            assert forall|j: int| i - 1 < j < rest.len() implies (#[trigger] rest[j]).id
                != rest[i - 1].id by {
                assert(extensions[j + 1] == rest[j]);
            }
            law_last_set_is_read(next, rest, i - 1);
        } else {
            assert forall|j: int| 0 <= j < rest.len() implies (#[trigger] rest[j]).id
                != first.id by {
                assert(extensions[j + 1] == rest[j]);
            }
            law_setting_leaves_other_ids(next, rest, first.id, first.payload);
        }
    }
}

/// Extensions set one after another leave what is read under every other id, add no id
/// but theirs, and touch nothing of the header but what describes the extensions.
pub proof fn law_setting_leaves_other_ids(
    header: HeaderView,
    extensions: Seq<ExtensionView>,
    id: u8,
    payload: Seq<u8>,
)
    requires
        header.extension || header.extensions.len() == 0,
        forall|i: int| 0 <= i < extensions.len() ==> (#[trigger] extensions[i]).id != id,
    ensures
        with_extensions(header, extensions) matches Ok(changed) ==> {
            &&& reads(changed.extensions, id, payload) == reads(header.extensions, id, payload)
            &&& has_id(changed.extensions, id) == has_id(header.extensions, id)
            &&& changed.version == header.version
            &&& changed.padding == header.padding
            &&& changed.marker == header.marker
            &&& changed.payload_type == header.payload_type
            &&& changed.sequence_number == header.sequence_number
            &&& changed.timestamp == header.timestamp
            &&& changed.ssrc == header.ssrc
            &&& changed.csrc == header.csrc
        },
    decreases extensions.len(),
{
    if extensions.len() > 0 {
        let (first, rest) = (extensions[0], extensions.drop_first());
        law_setting_one_extension(header, first.id, first.payload, id, payload);
        if let Ok(next) = header.with_extension(first.id, first.payload) {
            assert forall|j: int| 0 <= j < rest.len() implies (#[trigger] rest[j]).id != id by {
                assert(extensions[j + 1] == rest[j]);
            }
            law_setting_leaves_other_ids(next, rest, id, payload);
        }
    }
}

/// A packet that is sent has the version, the padding flag, the marker, the contributing
/// sources and the payload of the packet that was given, and the numbers and addresses
/// that it was given under.
pub proof fn law_sent_packet_is_the_given_one(
    packet: PacketView,
    attrs: PkgAttrs,
    entries: PayloadsByUri,
    binding: BindingView,
)
    ensures
        outgoing(packet, attrs, entries, binding) matches Ok(Some(sent)) ==> {
            &&& !binding.sender_paused
            &&& sent.header.version == packet.header.version
            &&& sent.header.padding == packet.header.padding
            &&& sent.header.marker == packet.header.marker
            &&& sent.header.csrc == packet.header.csrc
            &&& sent.payload == packet.payload
            &&& sent.header.ssrc == binding.ssrc
            &&& sent.header.payload_type == binding.payload_type
            &&& sent.header.sequence_number == attrs.sequence_number
            &&& sent.header.timestamp == attrs.timestamp
        },
{
    lemma_extensions_keep_the_rest(
        addressed(packet.header, attrs, binding),
        binding.hdr_ext_ids + negotiated(entries, binding.header_extensions),
    );
}

/// A binding is sent nothing just where it is paused.
pub proof fn law_only_paused_bindings_are_sent_nothing(
    packet: PacketView,
    attrs: PkgAttrs,
    entries: PayloadsByUri,
    binding: BindingView,
)
    ensures
        binding.sender_paused == (outgoing(packet, attrs, entries, binding) == Ok::<
            Option<PacketView>,
            ExtensionError,
        >(None)),
{
}

/// Payload `i` stands among the negotiated extensions under its id, and after it only
/// later payloads do.
proof fn lemma_negotiated_holds(
    entries: PayloadsByUri,
    parameters: Seq<(Seq<char>, isize)>,
    i: int,
    id: u8,
) -> (at: int)
    requires
        0 <= i < entries.len(),
        negotiated_id(parameters, entries[i].0) == Some(id),
        forall|j: int|
            i < j < entries.len() ==> negotiated_id(parameters, (#[trigger] entries[j]).0) != Some(
                id,
            ),
    ensures
        0 <= at < negotiated(entries, parameters).len(),
        negotiated(entries, parameters)[at] == (ExtensionView { id, payload: entries[i].1 }),
        forall|k: int|
            at < k < negotiated(entries, parameters).len() ==> (
            #[trigger] negotiated(entries, parameters)[k]).id != id,
    decreases entries.len(),
{
    let fewer = entries.drop_last();
    if i == entries.len() - 1 {
        negotiated(fewer, parameters).len() as int
    } else {
        assert(fewer[i] == entries[i]);
        assert forall|j: int| i < j < fewer.len() implies negotiated_id(
            parameters,
            (#[trigger] fewer[j]).0,
        ) != Some(id) by {
            assert(entries[j] == fewer[j]);
        }
        let at = lemma_negotiated_holds(fewer, parameters, i, id);
        assert(entries[entries.len() - 1] == entries.last());
        let (before, after) = (negotiated(fewer, parameters), negotiated(entries, parameters));
        assert forall|k: int| at < k < after.len() implies (#[trigger] after[k]).id != id by {
            if k < before.len() {
                assert(after[k] == before[k]);
            }
        }
        at
    }
}

/// Only ids under which some payload was negotiated stand among the negotiated
/// extensions.
proof fn lemma_negotiated_only(
    entries: PayloadsByUri,
    parameters: Seq<(Seq<char>, isize)>,
    id: u8,
)
    requires
        forall|j: int|
            0 <= j < entries.len() ==> negotiated_id(parameters, (#[trigger] entries[j]).0) != Some(
                id,
            ),
    ensures
        forall|k: int|
            0 <= k < negotiated(entries, parameters).len() ==> (
            #[trigger] negotiated(entries, parameters)[k]).id != id,
    decreases entries.len(),
{
    if entries.len() > 0 {
        let fewer = entries.drop_last();
        assert forall|j: int| 0 <= j < fewer.len() implies negotiated_id(
            parameters,
            (#[trigger] fewer[j]).0,
        ) != Some(id) by {
            assert(entries[j] == fewer[j]);
        }
        lemma_negotiated_only(fewer, parameters, id);
        assert(entries[entries.len() - 1] == entries.last());
        let (before, after) = (negotiated(fewer, parameters), negotiated(entries, parameters));
        assert forall|k: int| 0 <= k < after.len() implies (#[trigger] after[k]).id != id by {
            if k < before.len() {
                assert(after[k] == before[k]);
            }
        }
    }
}

/// A payload whose URI was negotiated is read back, under the negotiated id, from the
/// packet that is sent. `n` is the first parameter with the URI; no later payload goes
/// under the same id.
pub proof fn law_negotiated_payload_is_sent(
    packet: PacketView,
    attrs: PkgAttrs,
    entries: PayloadsByUri,
    binding: BindingView,
    i: int,
    n: int,
)
    requires
        packet.header.extension || packet.header.extensions.len() == 0,
        0 <= i < entries.len(),
        0 <= n < binding.header_extensions.len(),
        binding.header_extensions[n].0 == entries[i].0,
        forall|m: int|
            0 <= m < n ==> (#[trigger] binding.header_extensions[m]).0 != entries[i].0,
        forall|j: int|
            i < j < entries.len() ==> negotiated_id(
                binding.header_extensions,
                (#[trigger] entries[j]).0,
            ) != Some(binding.header_extensions[n].1 as u8),
    ensures
        outgoing(packet, attrs, entries, binding) matches Ok(Some(sent)) ==> reads(
            sent.header.extensions,
            binding.header_extensions[n].1 as u8,
            entries[i].1,
        ),
{
    let parameters = binding.header_extensions;
    let id = parameters[n].1 as u8;
    law_first_parameter_gives_the_id(parameters, entries[i].0, n);
    let at = lemma_negotiated_holds(entries, parameters, i, id);
    let (fixed, asked) = (binding.hdr_ext_ids, negotiated(entries, parameters));
    let all = fixed + asked;
    let header = addressed(packet.header, attrs, binding);
    if with_extensions(header, all) is Ok {
        let place = fixed.len() + at;
        assert(all[place] == asked[at]);
        assert forall|j: int| place < j < all.len() implies (#[trigger] all[j]).id
            != all[place].id by {
            assert(all[j] == asked[j - fixed.len()]);
        }
        law_last_set_is_read(header, all, place);
    }
}

/// An extension that every packet of the binding carries is read back from the packet
/// that is sent, unless something is set under its id after it.
pub proof fn law_fixed_extension_is_sent(
    packet: PacketView,
    attrs: PkgAttrs,
    entries: PayloadsByUri,
    binding: BindingView,
    i: int,
)
    requires
        packet.header.extension || packet.header.extensions.len() == 0,
        0 <= i < binding.hdr_ext_ids.len(),
        forall|j: int|
            i < j < binding.hdr_ext_ids.len() ==> (#[trigger] binding.hdr_ext_ids[j]).id
                != binding.hdr_ext_ids[i].id,
        forall|j: int|
            0 <= j < entries.len() ==> negotiated_id(
                binding.header_extensions,
                (#[trigger] entries[j]).0,
            ) != Some(binding.hdr_ext_ids[i].id),
    ensures
        outgoing(packet, attrs, entries, binding) matches Ok(Some(sent)) ==> reads(
            sent.header.extensions,
            binding.hdr_ext_ids[i].id,
            binding.hdr_ext_ids[i].payload,
        ),
{
    let (fixed, asked) = (binding.hdr_ext_ids, negotiated(entries, binding.header_extensions));
    let all = fixed + asked;
    let header = addressed(packet.header, attrs, binding);
    lemma_negotiated_only(entries, binding.header_extensions, fixed[i].id);
    if with_extensions(header, all) is Ok {
        assert(all[i] == fixed[i]);
        assert forall|j: int| i < j < all.len() implies (#[trigger] all[j]).id != all[i].id by {
            if j < fixed.len() {
                assert(all[j] == fixed[j]);
            } else {
                assert(all[j] == asked[j - fixed.len()]);
            }
        }
        law_last_set_is_read(header, all, i);
    }
}

/// Under an id that neither the binding nor a negotiated payload sets, a packet is sent
/// with what it came with: the same payload, or none.
pub proof fn law_own_extensions_stay(
    packet: PacketView,
    attrs: PkgAttrs,
    entries: PayloadsByUri,
    binding: BindingView,
    id: u8,
    payload: Seq<u8>,
)
    requires
        packet.header.extension || packet.header.extensions.len() == 0,
        forall|j: int|
            0 <= j < binding.hdr_ext_ids.len() ==> (#[trigger] binding.hdr_ext_ids[j]).id != id,
        forall|j: int|
            0 <= j < entries.len() ==> negotiated_id(
                binding.header_extensions,
                (#[trigger] entries[j]).0,
            ) != Some(id),
    ensures
        outgoing(packet, attrs, entries, binding) matches Ok(Some(sent)) ==> {
            &&& reads(sent.header.extensions, id, payload) == reads(
                packet.header.extensions,
                id,
                payload,
            )
            &&& has_id(sent.header.extensions, id) == has_id(packet.header.extensions, id)
        },
{
    let (fixed, asked) = (binding.hdr_ext_ids, negotiated(entries, binding.header_extensions));
    let all = fixed + asked;
    lemma_negotiated_only(entries, binding.header_extensions, id);
    assert forall|j: int| 0 <= j < all.len() implies (#[trigger] all[j]).id != id by {
        if j < fixed.len() {
            assert(all[j] == fixed[j]);
        } else {
            assert(all[j] == asked[j - fixed.len()]);
        }
    }
    law_setting_leaves_other_ids(addressed(packet.header, attrs, binding), all, id, payload);
}

proof fn lemma_small_extensions_are_accepted(header: HeaderView, extensions: Seq<ExtensionView>)
    requires
        !header.extension || header.extension_profile == 0xBEDE,
        forall|i: int|
            0 <= i < extensions.len() ==> 1 <= (#[trigger] extensions[i]).id <= 14
                && extensions[i].payload.len() <= 16,
    ensures
        with_extensions(header, extensions) is Ok,
    decreases extensions.len(),
{
    if extensions.len() > 0 {
        let (first, rest) = (extensions[0], extensions.drop_first());
        law_small_extension_is_accepted(header, first.id, first.payload);
        if let Ok(next) = header.with_extension(first.id, first.payload) {
            assert forall|i: int| 0 <= i < rest.len() implies 1 <= (#[trigger] rest[i]).id <= 14
                && rest[i].payload.len() <= 16 by {
                assert(extensions[i + 1] == rest[i]);
            }
            lemma_small_extensions_are_accepted(next, rest);
        }
    }
}

/// A packet without extensions, or with one-byte extensions, reaches every binding that
/// is not paused, as long as what the binding and the payloads add has ids from 1 to 14
/// and at most 16 bytes each.
pub proof fn law_small_extensions_are_sent(
    packet: PacketView,
    attrs: PkgAttrs,
    entries: PayloadsByUri,
    binding: BindingView,
)
    requires
        !binding.sender_paused,
        !packet.header.extension || packet.header.extension_profile == 0xBEDE,
        forall|i: int|
            0 <= i < binding.hdr_ext_ids.len() ==> 1 <= (#[trigger] binding.hdr_ext_ids[i]).id <= 14
                && binding.hdr_ext_ids[i].payload.len() <= 16,
        forall|i: int|
            0 <= i < entries.len() ==> (#[trigger] entries[i]).1.len() <= 16 && (negotiated_id(
                binding.header_extensions,
                entries[i].0,
            ) matches Some(id) ==> 1 <= id <= 14),
    ensures
        outgoing(packet, attrs, entries, binding) matches Ok(Some(_)),
{
    let (fixed, asked) = (binding.hdr_ext_ids, negotiated(entries, binding.header_extensions));
    let all = fixed + asked;
    lemma_negotiated_is_small(entries, binding.header_extensions);
    assert forall|j: int| 0 <= j < all.len() implies 1 <= (#[trigger] all[j]).id <= 14
        && all[j].payload.len() <= 16 by {
        if j < fixed.len() {
            assert(all[j] == fixed[j]);
        } else {
            assert(all[j] == asked[j - fixed.len()]);
        }
    }
    lemma_small_extensions_are_accepted(addressed(packet.header, attrs, binding), all);
}

proof fn lemma_negotiated_is_small(entries: PayloadsByUri, parameters: Seq<(Seq<char>, isize)>)
    requires
        forall|i: int|
            0 <= i < entries.len() ==> (#[trigger] entries[i]).1.len() <= 16 && (negotiated_id(
                parameters,
                entries[i].0,
            ) matches Some(id) ==> 1 <= id <= 14),
    ensures
        forall|k: int|
            0 <= k < negotiated(entries, parameters).len() ==> 1 <= (
            #[trigger] negotiated(entries, parameters)[k]).id <= 14 && negotiated(
                entries,
                parameters,
            )[k].payload.len() <= 16,
    decreases entries.len(),
{
    if entries.len() > 0 {
        let fewer = entries.drop_last();
        assert forall|i: int| 0 <= i < fewer.len() implies (#[trigger] fewer[i]).1.len() <= 16 && (
        negotiated_id(parameters, fewer[i].0) matches Some(id) ==> 1 <= id <= 14) by {
            assert(entries[i] == fewer[i]);
        }
        lemma_negotiated_is_small(fewer, parameters);
        assert(entries[entries.len() - 1] == entries.last());
        let (before, after) = (negotiated(fewer, parameters), negotiated(entries, parameters));
        assert forall|k: int| 0 <= k < after.len() implies 1 <= (#[trigger] after[k]).id <= 14
            && after[k].payload.len() <= 16 by {
            if k < before.len() {
                assert(after[k] == before[k]);
            }
        }
    }
}

/// Extensions are set in order: those of two lists are those of the first and then those
/// of the second, one that is refused ends it with its error, and one alone is set as the
/// header takes it.
pub proof fn law_extensions_are_set_in_order(
    header: HeaderView,
    first: Seq<ExtensionView>,
    second: Seq<ExtensionView>,
    one: ExtensionView,
)
    ensures
        with_extensions(header, Seq::empty()) == Ok::<HeaderView, ExtensionError>(header),
        with_extensions(header, seq![one]) == header.with_extension(one.id, one.payload),
        with_extensions(header, first + second) == (match with_extensions(header, first) {
            Ok(changed) => with_extensions(changed, second),
            Err(error) => Err(error),
        }),
{
    lemma_with_extensions_concat(header, first, second);
    lemma_with_extensions_push(header, Seq::empty(), one);
    assert(Seq::empty().push(one) =~= seq![one]);
}

/// Where an extension that every packet of a binding carries is refused, and those before
/// it are not, the binding is sent nothing and the refusal is the error.
pub proof fn law_refused_extension_is_the_error(
    packet: PacketView,
    attrs: PkgAttrs,
    entries: PayloadsByUri,
    binding: BindingView,
    i: int,
    header: HeaderView,
    error: ExtensionError,
)
    requires
        !binding.sender_paused,
        0 <= i < binding.hdr_ext_ids.len(),
        with_extensions(
            HeaderView {
                sequence_number: attrs.sequence_number,
                timestamp: attrs.timestamp,
                ssrc: binding.ssrc,
                payload_type: binding.payload_type,
                ..packet.header
            },
            binding.hdr_ext_ids.take(i),
        ) == Ok::<HeaderView, ExtensionError>(header),
        header.with_extension(binding.hdr_ext_ids[i].id, binding.hdr_ext_ids[i].payload) == Err::<
            HeaderView,
            ExtensionError,
        >(error),
    ensures
        outgoing(packet, attrs, entries, binding) == Err::<Option<PacketView>, ExtensionError>(
            error,
        ),
{
    let start = addressed(packet.header, attrs, binding);
    let fixed = binding.hdr_ext_ids;
    let all = fixed + negotiated(entries, binding.header_extensions);
    lemma_with_extensions_push(start, fixed.take(i), fixed[i]);
    assert(fixed.take(i).push(fixed[i]) =~= fixed.take(i + 1));
    assert(all.take(i + 1) =~= fixed.take(i + 1));
    lemma_refusal_is_final(start, fixed.take(i + 1), all);
}

} // verus!
