//! Who a track is bound to, and who of them is paused.
use crate::binding::{BindingView, TrackBinding};
use crate::bindings::lists_all;
use crate::codec::{
    clone_parameters, find_negotiated_id, negotiated_id, parameter_views, CodecMatch,
    RTCRtpCodecParameters, RTCRtpHeaderExtensionParameters,
};
use crate::octets::{copy_from_slice, from_string};
use crate::packet::{extension_views, Extension, ExtensionView};
use crate::track_local_static_rtp::{
    optional_text, text_fits, Error, TrackLocalStaticRTP, TrackView,
};
use std::sync::Arc;
use vstd::prelude::*;
use vstd::utf8::encode_utf8;

verus! {

/// What a track is bound with.
#[derive(Debug)]
pub struct TrackLocalContext {
    pub id: String,
    pub ssrc: u32,
    pub mid: Option<String>,
    /// The header extensions that were negotiated.
    pub header_extensions: Vec<RTCRtpHeaderExtensionParameters>,
    /// Whether the sender starts out paused.
    pub paused: bool,
}

/// The URI of the extension that carries the media id.
pub open spec fn mid_uri() -> Seq<char> {
    "urn:ietf:params:rtp-hdrext:sdes:mid"@
}

/// The URI of the extension that carries the stream id.
pub open spec fn stream_id_uri() -> Seq<char> {
    "urn:ietf:params:rtp-hdrext:sdes:rtp-stream-id"@
}

/// The constant `sdp::extmap::SDES_MID_URI`.
#[verifier::external_body]
fn sdes_mid_uri() -> (uri: String)
    ensures
        uri@ == mid_uri(),
{
    sdp::extmap::SDES_MID_URI.to_owned()
}

/// The constant `sdp::extmap::SDES_RTP_STREAM_ID_URI`.
#[verifier::external_body]
fn sdes_rtp_stream_id_uri() -> (uri: String)
    ensures
        uri@ == stream_id_uri(),
{
    sdp::extmap::SDES_RTP_STREAM_ID_URI.to_owned()
}

/// The extension that carries a text under a URI: none where the URI was not
/// negotiated or there is no text.
pub open spec fn text_extension(
    parameters: Seq<(Seq<char>, isize)>,
    uri: Seq<char>,
    text: Option<Seq<char>>,
) -> Seq<ExtensionView> {
    match (negotiated_id(parameters, uri), text) {
        (Some(id), Some(text)) => seq![ExtensionView { id, payload: encode_utf8(text) }],
        _ => Seq::empty(),
    }
}

/// The binding that a context and a negotiated payload type give.
pub open spec fn binding_for(
    t: TrackLocalContext,
    payload_type: u8,
    rid: Option<Seq<char>>,
) -> BindingView {
    let parameters = parameter_views(t.header_extensions@);
    BindingView {
        id: t.id@,
        ssrc: t.ssrc,
        payload_type,
        header_extensions: parameters,
        hdr_ext_ids: text_extension(parameters, mid_uri(), optional_text(t.mid)) + text_extension(
            parameters,
            stream_id_uri(),
            rid,
        ),
        sender_paused: t.paused,
    }
}

/// Whether every binding is paused.
pub open spec fn all_paused(bindings: Map<u32, BindingView>) -> bool {
    forall|ssrc: u32| #[trigger] bindings.contains_key(ssrc) ==> bindings[ssrc].sender_paused
}

/// Whether some binding is paused.
pub open spec fn any_paused(bindings: Map<u32, BindingView>) -> bool {
    exists|ssrc: u32| #[trigger] bindings.contains_key(ssrc) && bindings[ssrc].sender_paused
}

/// What the first pair with an SSRC says.
pub open spec fn first_for(pairs: Seq<(u32, bool)>, ssrc: u32) -> Option<bool>
    decreases pairs.len(),
{
    if pairs.len() == 0 {
        None
    } else if pairs[0].0 == ssrc {
        Some(pairs[0].1)
    } else {
        first_for(pairs.drop_first(), ssrc)
    }
}

/// The bindings with each paused or not as its first pair says; without a pair a
/// binding stays as it is.
pub open spec fn muted_for(bindings: Map<u32, BindingView>, pairs: Seq<(u32, bool)>) -> Map<
    u32,
    BindingView,
> {
    Map::new(
        |ssrc: u32| bindings.contains_key(ssrc),
        |ssrc: u32|
            match first_for(pairs, ssrc) {
                Some(muted) => bindings[ssrc].with_paused(muted),
                None => bindings[ssrc],
            },
    )
}

/// The bindings with all of them paused, or none.
pub open spec fn muted(bindings: Map<u32, BindingView>, muted: bool) -> Map<u32, BindingView> {
    bindings.map_values(|binding: BindingView| binding.with_paused(muted))
}

impl TrackLocalStaticRTP {
    /// What to search the remote peer's codecs for: the codec of the track, with
    /// nothing said of how it was negotiated.
    pub fn search_parameters(&self) -> (parameters: RTCRtpCodecParameters)
        ensures
            parameters.capability@ == self@.codec,
            parameters.payload_type == 0,
            parameters.stats_id@.len() == 0,
    {
        RTCRtpCodecParameters {
            capability: self.codec.clone(),
            payload_type: 0,
            stats_id: String::new(),
        }
    }

    /// Binds the track once negotiation is complete, given what the search for its
    /// codec among those of the remote peer found.
    pub fn bind(
        &mut self,
        t: &TrackLocalContext,
        found: (RTCRtpCodecParameters, CodecMatch),
    ) -> (result: Result<RTCRtpCodecParameters, Error>)
        requires
            old(self).wf(),
            text_fits(optional_text(t.mid)),
        ensures
            final(self).wf(),
            match result {
                Ok(codec) => {
                    &&& found.1 != CodecMatch::NoMatch
                    &&& codec == found.0
                    &&& final(self)@ == (TrackView {
                        bindings: old(self)@.bindings.insert(
                            t.ssrc,
                            binding_for(*t, codec.payload_type, old(self)@.rid),
                        ),
                        ..old(self)@
                    })
                },
                Err(error) => {
                    &&& found.1 == CodecMatch::NoMatch
                    &&& error == Error::ErrUnsupportedCodec
                    &&& final(self)@ == old(self)@
                },
            },
    {
        let (codec, match_type) = found;
        if match_type == CodecMatch::NoMatch {
            return Err(Error::ErrUnsupportedCodec);
        }
        let ghost parameters = parameter_views(t.header_extensions@);
        let mut hdr_ext_ids: Vec<Extension> = Vec::new();
        if let Some(id) = find_negotiated_id(&t.header_extensions, &sdes_mid_uri()) {
            if let Some(mid) = &t.mid {
                hdr_ext_ids.push(
                    Extension { id, payload: copy_from_slice(mid.as_str().as_bytes()) },
                );
            }
        }
        let ghost first = text_extension(parameters, mid_uri(), optional_text(t.mid));
        assert(extension_views(hdr_ext_ids@) =~= first);
        if let Some(id) = find_negotiated_id(&t.header_extensions, &sdes_rtp_stream_id_uri()) {
            if let Some(rid) = &self.rid {
                hdr_ext_ids.push(Extension { id, payload: from_string(rid.clone()) });
            }
        }
        let ghost second = text_extension(parameters, stream_id_uri(), self@.rid);
        assert(extension_views(hdr_ext_ids@) =~= first + second);
        let binding = TrackBinding {
            id: t.id.clone(),
            ssrc: t.ssrc,
            payload_type: codec.payload_type,
            header_extensions: clone_parameters(&t.header_extensions),
            hdr_ext_ids,
            sender_paused: t.paused,
        };
        assert(binding@ == binding_for(*t, codec.payload_type, self@.rid));
        self.bindings.insert(t.ssrc, Arc::new(binding));
        Ok(codec)
    }

    /// Takes the binding of a context away, if there is one.
    pub fn unbind(&mut self, t: &TrackLocalContext) -> (result: Result<(), Error>)
        ensures
            result is Ok,
            final(self)@ == (TrackView {
                bindings: old(self)@.bindings.remove(t.ssrc),
                ..old(self)@
            }),
            old(self).wf() ==> final(self).wf(),
    {
        self.bindings.remove(t.ssrc);
        Ok(())
    }

    /// Whether some binding is paused.
    pub fn any_binding_paused(&self) -> (any: bool)
        ensures
            any == any_paused(self@.bindings),
    {
        let entries = self.bindings.entries();
        for i in 0..entries.len()
            invariant
                lists_all(entries@, self@.bindings),
                forall|j: int| 0 <= j < i ==> !(#[trigger] entries@[j]).1@.sender_paused,
        {
            if entries[i].1.is_sender_paused() {
                assert(self@.bindings.contains_key(entries@[i as int].0));
                return true;
            }
        }
        false
    }

    /// Whether every binding is paused. So it is where there is none.
    pub fn all_binding_paused(&self) -> (all: bool)
        ensures
            all == all_paused(self@.bindings),
    {
        let entries = self.bindings.entries();
        for i in 0..entries.len()
            invariant
                lists_all(entries@, self@.bindings),
                forall|j: int| 0 <= j < i ==> (#[trigger] entries@[j]).1@.sender_paused,
        {
            if !entries[i].1.is_sender_paused() {
                assert(self@.bindings.contains_key(entries@[i as int].0));
                return false;
            }
        }
        true
    }

    /// Whether every binding is paused. So it is where there is none.
    pub fn all_binding_paused_sync(&self) -> (all: bool)
        ensures
            all == all_paused(self@.bindings),
    {
        self.all_binding_paused()
    }

    /// Whether there is a binding with the SSRC and it is not paused.
    pub fn is_binding_active(&self, binding_ssrc: u32) -> (active: bool)
        ensures
            active == (self@.bindings.contains_key(binding_ssrc)
                && !self@.bindings[binding_ssrc].sender_paused),
    {
        match self.bindings.get(binding_ssrc) {
            Some(binding) => !binding.is_sender_paused(),
            None => false,
        }
    }

    /// The SSRCs of all bindings, in no particular order.
    pub fn bindings_ssrc(&self) -> (ssrcs: Vec<u32>)
        ensures
            ssrcs@.no_duplicates(),
            ssrcs@.to_set() == self@.bindings.dom(),
    {
        let entries = self.bindings.entries();
        let mut ssrcs: Vec<u32> = Vec::new();
        for i in 0..entries.len()
            invariant
                ssrcs@ == entries@.take(i as int).map_values(|e: (u32, Arc<TrackBinding>)| e.0),
        {
            ssrcs.push(entries[i].0);
            assert(ssrcs@ =~= entries@.take(i + 1).map_values(|e: (u32, Arc<TrackBinding>)| e.0));
        }
        assert(entries@.take(entries@.len() as int) =~= entries@);
        assert forall|ssrc: u32| self@.bindings.contains_key(ssrc) implies ssrcs@.contains(
            ssrc,
        ) by {
            let i = choose|i: int|
                0 <= i < entries@.len() && (#[trigger] entries@[i]).0 == ssrc;
            assert(ssrcs@[i] == ssrc);
        }
        assert(ssrcs@.to_set() =~= self@.bindings.dom());
        ssrcs
    }

    /// The ids of all bindings, in no particular order.
    pub fn bindings_ids(&self) -> (ids: Vec<String>)
        ensures
            exists|ssrcs: Seq<u32>| #[trigger]
                ssrcs.no_duplicates() && ssrcs.to_set() == self@.bindings.dom() && ssrcs.len()
                    == ids@.len() && forall|i: int|
                    0 <= i < ids@.len() ==> (#[trigger] ids@[i])@ == self@.bindings[ssrcs[i]].id,
    {
        let entries = self.bindings.entries();
        let mut ids: Vec<String> = Vec::new();
        for i in 0..entries.len()
            invariant
                ids@.len() == i,
                forall|j: int| 0 <= j < i ==> (#[trigger] ids@[j])@ == entries@[j].1@.id,
        {
            ids.push(entries[i].1.id.clone());
        }
        proof {
            let ssrcs = entries@.map_values(|e: (u32, Arc<TrackBinding>)| e.0);
            assert forall|ssrc: u32| self@.bindings.contains_key(ssrc) implies ssrcs.contains(
                ssrc,
            ) by {
                let i = choose|i: int|
                    0 <= i < entries@.len() && (#[trigger] entries@[i]).0 == ssrc;
                assert(ssrcs[i] == ssrc);
            }
            assert(ssrcs.to_set() =~= self@.bindings.dom());
            assert(ssrcs.no_duplicates());
            assert forall|i: int| 0 <= i < ids@.len() implies (#[trigger] ids@[i])@
                == self@.bindings[ssrcs[i]].id by {
                assert(self@.bindings.contains_key(entries@[i].0));
            }
        }
        ids
    }

    /// Pauses all bindings, or none.
    pub fn set_muted(&mut self, muted_now: bool)
        ensures
            final(self)@ == (TrackView {
                bindings: muted(old(self)@.bindings, muted_now),
                ..old(self)@
            }),
            old(self).wf() ==> final(self).wf(),
    {
        let entries = self.bindings.entries();
        let ghost before = self@;
        for i in 0..entries.len()
            invariant
                before == old(self)@,
                lists_all(entries@, before.bindings),
                old(self).wf() ==> self.rtp_cache.wf() && self.bitrate.wf()
                    && self.loss_stats.wf(),
                self@ == (TrackView { bindings: self@.bindings, ..before }),
                self@.bindings.dom() == before.bindings.dom(),
                forall|j: int|
                    0 <= j < i ==> self@.bindings[(#[trigger] entries@[j]).0]
                        == before.bindings[entries@[j].0].with_paused(muted_now),
                forall|j: int|
                    i <= j < entries@.len() ==> self@.bindings[(#[trigger] entries@[j]).0]
                        == before.bindings[entries@[j].0],
        {
            let (ssrc, binding) = (entries[i].0, &entries[i].1);
            self.bindings.insert(ssrc, Arc::new(binding.with_sender_paused(muted_now)));
            assert(self@.bindings.dom() =~= before.bindings.dom());
        }
        proof {
            assert forall|ssrc: u32| before.bindings.contains_key(ssrc) implies
                self@.bindings[ssrc] == before.bindings[ssrc].with_paused(muted_now) by {
                let i = choose|i: int|
                    0 <= i < entries@.len() && (#[trigger] entries@[i]).0 == ssrc;
            }
            assert(self@.bindings =~= muted(before.bindings, muted_now));
        }
    }

    /// Pauses bindings, or not, as the first pair with their SSRC says.
    pub fn set_muted_for(&mut self, bindings_ssrc: Vec<(u32, bool)>)
        ensures
            final(self)@ == (TrackView {
                bindings: muted_for(old(self)@.bindings, bindings_ssrc@),
                ..old(self)@
            }),
            old(self).wf() ==> final(self).wf(),
    {
        let entries = self.bindings.entries();
        let ghost before = self@;
        let ghost after = muted_for(before.bindings, bindings_ssrc@);
        for i in 0..entries.len()
            invariant
                before == old(self)@,
                after == muted_for(before.bindings, bindings_ssrc@),
                lists_all(entries@, before.bindings),
                old(self).wf() ==> self.rtp_cache.wf() && self.bitrate.wf()
                    && self.loss_stats.wf(),
                self@ == (TrackView { bindings: self@.bindings, ..before }),
                self@.bindings.dom() == before.bindings.dom(),
                forall|j: int|
                    0 <= j < i ==> self@.bindings[(#[trigger] entries@[j]).0]
                        == after[entries@[j].0],
                forall|j: int|
                    i <= j < entries@.len() ==> self@.bindings[(#[trigger] entries@[j]).0]
                        == before.bindings[entries@[j].0],
        {
            let (ssrc, binding) = (entries[i].0, &entries[i].1);
            assert(before.bindings.contains_key(ssrc));
            if let Some(muted_now) = find_first_for(&bindings_ssrc, ssrc) {
                self.bindings.insert(ssrc, Arc::new(binding.with_sender_paused(muted_now)));
                assert(self@.bindings.dom() =~= before.bindings.dom());
            }
        }
        proof {
            assert forall|ssrc: u32| before.bindings.contains_key(ssrc) implies
                self@.bindings[ssrc] == after[ssrc] by {
                let i = choose|i: int|
                    0 <= i < entries@.len() && (#[trigger] entries@[i]).0 == ssrc;
            }
            assert(self@.bindings =~= after);
        }
    }
}

/// What the first pair with an SSRC says.
fn find_first_for(pairs: &Vec<(u32, bool)>, ssrc: u32) -> (found: Option<bool>)
    ensures
        found == first_for(pairs@, ssrc),
{
    let mut i: usize = 0;
    assert(pairs@.skip(0) =~= pairs@);
    while i < pairs.len()
        invariant
            i <= pairs@.len(),
            first_for(pairs@, ssrc) == first_for(pairs@.skip(i as int), ssrc),
        decreases pairs@.len() - i,
    {
        assert(pairs@.skip(i as int).drop_first() =~= pairs@.skip(i + 1));
        if pairs[i].0 == ssrc {
            return Some(pairs[i].1);
        }
        i = i + 1;
    }
    None
}

/// A track that was bound has the binding under its SSRC, and every other binding as
/// before.
pub proof fn law_bound_is_found(
    bindings: Map<u32, BindingView>,
    t: TrackLocalContext,
    payload_type: u8,
    rid: Option<Seq<char>>,
    other: u32,
)
    ensures
        ({
            let binding = binding_for(t, payload_type, rid);
            let after = bindings.insert(t.ssrc, binding);
            &&& binding.ssrc == t.ssrc
            &&& after.contains_key(t.ssrc) && after[t.ssrc] == binding
            &&& other != t.ssrc ==> after.contains_key(other) == bindings.contains_key(other)
            &&& other != t.ssrc && bindings.contains_key(other) ==> after[other] == bindings[other]
        }),
{
}

/// Unbinding undoes a binding under an SSRC that had none, and a second time does
/// nothing.
pub proof fn law_unbind_undoes_bind(
    bindings: Map<u32, BindingView>,
    ssrc: u32,
    binding: BindingView,
)
    ensures
        !bindings.contains_key(ssrc) ==> bindings.insert(ssrc, binding).remove(ssrc) == bindings,
        !bindings.insert(ssrc, binding).remove(ssrc).contains_key(ssrc),
        bindings.remove(ssrc).remove(ssrc) == bindings.remove(ssrc),
{
    if !bindings.contains_key(ssrc) {
        assert(bindings.insert(ssrc, binding).remove(ssrc) =~= bindings);
    }
    assert(bindings.remove(ssrc).remove(ssrc) =~= bindings.remove(ssrc));
}

/// Muting pauses every binding, and unmuting leaves none paused. The last of two
/// calls counts.
pub proof fn law_muting_reaches_every_binding(
    bindings: Map<u32, BindingView>,
    first: bool,
    second: bool,
)
    ensures
        all_paused(muted(bindings, true)),
        !any_paused(muted(bindings, false)),
        muted(muted(bindings, first), second) == muted(bindings, second),
{
    assert(muted(muted(bindings, first), second) =~= muted(bindings, second));
}

/// Muting some bindings leaves the others as they were, and adds and takes away none.
pub proof fn law_muting_some_leaves_the_others(
    bindings: Map<u32, BindingView>,
    pairs: Seq<(u32, bool)>,
    ssrc: u32,
)
    requires
        forall|i: int| 0 <= i < pairs.len() ==> (#[trigger] pairs[i]).0 != ssrc,
    ensures
        muted_for(bindings, pairs).dom() == bindings.dom(),
        bindings.contains_key(ssrc) ==> muted_for(bindings, pairs)[ssrc] == bindings[ssrc],
{
    lemma_no_pair(pairs, ssrc);
    assert(muted_for(bindings, pairs).dom() =~= bindings.dom());
}

proof fn lemma_no_pair(pairs: Seq<(u32, bool)>, ssrc: u32)
    requires
        forall|i: int| 0 <= i < pairs.len() ==> (#[trigger] pairs[i]).0 != ssrc,
    ensures
        first_for(pairs, ssrc) is None,
    decreases pairs.len(),
{
    if pairs.len() > 0 {
        let rest = pairs.drop_first();
        assert forall|i: int| 0 <= i < rest.len() implies (#[trigger] rest[i]).0 != ssrc by {
            assert(pairs[i + 1].0 != ssrc);
        }
        lemma_no_pair(rest, ssrc);
    }
}

/// With at least one binding, all of them paused means that some are; with none, all
/// are paused and none is.
pub proof fn law_all_paused_and_any_paused(bindings: Map<u32, BindingView>, ssrc: u32)
    ensures
        bindings.contains_key(ssrc) && all_paused(bindings) ==> any_paused(bindings),
        bindings.contains_key(ssrc) && !bindings[ssrc].sender_paused ==> !all_paused(bindings),
        bindings == Map::<u32, BindingView>::empty() ==> all_paused(bindings) && !any_paused(
            bindings,
        ),
{
}

/// A binding has the id, the SSRC, the pause and the negotiated extensions of its
/// context, and the negotiated payload type.
pub proof fn law_binding_is_that_of_its_context(
    t: TrackLocalContext,
    payload_type: u8,
    rid: Option<Seq<char>>,
)
    ensures
        ({
            let binding = binding_for(t, payload_type, rid);
            &&& binding.id == t.id@
            &&& binding.ssrc == t.ssrc
            &&& binding.payload_type == payload_type
            &&& binding.sender_paused == t.paused
            &&& binding.header_extensions.len() == t.header_extensions@.len()
            &&& forall|i: int|
                0 <= i < t.header_extensions@.len() ==> (
                #[trigger] binding.header_extensions[i]).0 == t.header_extensions@[i].uri@
                    && binding.header_extensions[i].1 == t.header_extensions@[i].id
        }),
{
}

/// Every packet of a binding carries the media id and then the stream id, in UTF-8, each
/// under the id that its URI was negotiated with, and nothing else. One that is missing,
/// or whose URI was not negotiated, is left out.
pub proof fn law_binding_carries_its_ids(
    t: TrackLocalContext,
    payload_type: u8,
    rid: Option<Seq<char>>,
    mid_id: Option<u8>,
    rid_id: Option<u8>,
)
    requires
        mid_id == negotiated_id(
            parameter_views(t.header_extensions@),
            "urn:ietf:params:rtp-hdrext:sdes:mid"@,
        ),
        rid_id == negotiated_id(
            parameter_views(t.header_extensions@),
            "urn:ietf:params:rtp-hdrext:sdes:rtp-stream-id"@,
        ),
    ensures
        ({
            let carried = binding_for(t, payload_type, rid).hdr_ext_ids;
            let with_mid = mid_id is Some && t.mid is Some;
            let with_rid = rid_id is Some && rid is Some;
            let rid_at = if with_mid {
                1int
            } else {
                0
            };
            &&& carried.len() == rid_at + if with_rid {
                1int
            } else {
                0
            }
            &&& with_mid ==> Some(carried[0].id) == mid_id && carried[0].payload == encode_utf8(
                t.mid.unwrap()@,
            )
            &&& with_rid ==> Some(carried[rid_at].id) == rid_id && carried[rid_at].payload
                == encode_utf8(rid.unwrap())
        }),
{
}

/// All bindings are paused just where each is, and some are where one is.
pub proof fn law_paused_means_each_and_one(bindings: Map<u32, BindingView>, ssrc: u32)
    requires
        bindings.contains_key(ssrc),
    ensures
        all_paused(bindings) ==> bindings[ssrc].sender_paused,
        bindings[ssrc].sender_paused ==> any_paused(bindings),
        !any_paused(bindings) ==> !bindings[ssrc].sender_paused,
        !all_paused(bindings) ==> exists|other: u32| #[trigger]
            bindings.contains_key(other) && !bindings[other].sender_paused,
        any_paused(bindings) ==> exists|other: u32| #[trigger]
            bindings.contains_key(other) && bindings[other].sender_paused,
{
}

/// Muting all changes the pause of each binding and nothing else, and neither adds nor
/// takes away one.
pub proof fn law_muting_changes_only_the_pause(
    bindings: Map<u32, BindingView>,
    muted_now: bool,
    ssrc: u32,
)
    ensures
        ({
            let after = muted(bindings, muted_now);
            &&& after.contains_key(ssrc) == bindings.contains_key(ssrc)
            &&& bindings.contains_key(ssrc) ==> {
                &&& after[ssrc].sender_paused == muted_now
                &&& after[ssrc].id == bindings[ssrc].id
                &&& after[ssrc].ssrc == bindings[ssrc].ssrc
                &&& after[ssrc].payload_type == bindings[ssrc].payload_type
                &&& after[ssrc].header_extensions == bindings[ssrc].header_extensions
                &&& after[ssrc].hdr_ext_ids == bindings[ssrc].hdr_ext_ids
            }
        }),
{
}

/// Muting some sets the pause of a binding to what the first pair with its SSRC says,
/// and changes nothing else of it.
pub proof fn law_first_pair_sets_the_pause(
    bindings: Map<u32, BindingView>,
    pairs: Seq<(u32, bool)>,
    n: int,
)
    requires
        0 <= n < pairs.len(),
        forall|m: int| 0 <= m < n ==> (#[trigger] pairs[m]).0 != pairs[n].0,
        bindings.contains_key(pairs[n].0),
    ensures
        ({
            let (before, after) = (bindings[pairs[n].0], muted_for(bindings, pairs)[pairs[n].0]);
            &&& muted_for(bindings, pairs).contains_key(pairs[n].0)
            &&& after.sender_paused == pairs[n].1
            &&& after.id == before.id
            &&& after.ssrc == before.ssrc
            &&& after.payload_type == before.payload_type
            &&& after.header_extensions == before.header_extensions
            &&& after.hdr_ext_ids == before.hdr_ext_ids
        }),
{
    lemma_first_pair(pairs, n);
}

proof fn lemma_first_pair(pairs: Seq<(u32, bool)>, n: int)
    requires
        0 <= n < pairs.len(),
        forall|m: int| 0 <= m < n ==> (#[trigger] pairs[m]).0 != pairs[n].0,
    ensures
        first_for(pairs, pairs[n].0) == Some(pairs[n].1),
    decreases pairs.len(),
{
    if n > 0 {
        let rest = pairs.drop_first();
        assert(pairs[0].0 != pairs[n].0);
        assert forall|m: int| 0 <= m < n - 1 implies (#[trigger] rest[m]).0 != rest[n - 1].0 by {
            assert(pairs[m + 1].0 != pairs[n].0);
        }
        lemma_first_pair(rest, n - 1);
    }
}

} // verus!
