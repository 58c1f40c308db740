//! Codec kinds, the codec descriptions that a track carries, and the limits that
//! follow from them.
use vstd::prelude::*;

verus! {

pub const MIME_TYPE_OPUS: &'static str = "audio/opus";

pub const MIME_TYPE_H264: &'static str = "video/H264";

pub const MIME_TYPE_VP8: &'static str = "video/VP8";

pub const MAX_VIDEO_BITRATE_BPS: u32 = 1_000_000;

pub const MAX_AUDIO_BITRATE_BPS: u32 = 64_000;

/// The kind of media that a codec encodes.
#[derive(Clone, Copy, Debug, PartialEq, Eq, Structural)]
pub enum RTPCodecType {
    Unspecified,
    Audio,
    Video,
}

/// A kind of feedback that a codec supports.
#[derive(Debug)]
pub struct RTCPFeedback {
    pub typ: String,
    pub parameter: String,
}

/// A codec and how it is set up.
#[derive(Debug)]
pub struct RTCRtpCodecCapability {
    pub mime_type: String,
    pub clock_rate: u32,
    pub channels: u16,
    pub sdp_fmtp_line: String,
    pub rtcp_feedback: Vec<RTCPFeedback>,
}

/// The mathematical value of an `RTCRtpCodecCapability`.
#[verifier::ext_equal]
pub struct CapabilityView {
    pub mime_type: Seq<char>,
    pub clock_rate: u32,
    pub channels: u16,
    pub sdp_fmtp_line: Seq<char>,
    pub rtcp_feedback: Seq<(Seq<char>, Seq<char>)>,
}

impl View for RTCPFeedback {
    type V = (Seq<char>, Seq<char>);

    open spec fn view(&self) -> (Seq<char>, Seq<char>) {
        (self.typ@, self.parameter@)
    }
}

impl Clone for RTCPFeedback {
    fn clone(&self) -> (copy: RTCPFeedback)
        ensures
            copy@ == self@,
    {
        RTCPFeedback { typ: self.typ.clone(), parameter: self.parameter.clone() }
    }
}

/// The values of a list of feedbacks.
pub open spec fn feedback_views(feedbacks: Seq<RTCPFeedback>) -> Seq<(Seq<char>, Seq<char>)> {
    feedbacks.map_values(|feedback: RTCPFeedback| feedback@)
}

impl View for RTCRtpCodecCapability {
    type V = CapabilityView;

    open spec fn view(&self) -> CapabilityView {
        CapabilityView {
            mime_type: self.mime_type@,
            clock_rate: self.clock_rate,
            channels: self.channels,
            sdp_fmtp_line: self.sdp_fmtp_line@,
            rtcp_feedback: feedback_views(self.rtcp_feedback@),
        }
    }
}

impl Clone for RTCRtpCodecCapability {
    fn clone(&self) -> (copy: RTCRtpCodecCapability)
        ensures
            copy@ == self@,
    {
        let mut rtcp_feedback: Vec<RTCPFeedback> = Vec::new();
        for i in 0..self.rtcp_feedback.len()
            invariant
                rtcp_feedback@.len() == i,
                feedback_views(rtcp_feedback@) == feedback_views(self.rtcp_feedback@).take(
                    i as int,
                ),
        {
            rtcp_feedback.push(self.rtcp_feedback[i].clone());
            assert(feedback_views(rtcp_feedback@) =~= feedback_views(self.rtcp_feedback@).take(
                i + 1,
            ));
        }
        assert(feedback_views(rtcp_feedback@) =~= feedback_views(self.rtcp_feedback@));
        RTCRtpCodecCapability {
            mime_type: self.mime_type.clone(),
            clock_rate: self.clock_rate,
            channels: self.channels,
            sdp_fmtp_line: self.sdp_fmtp_line.clone(),
            rtcp_feedback,
        }
    }
}

/// A codec as it was negotiated.
#[derive(Debug)]
pub struct RTCRtpCodecParameters {
    pub capability: RTCRtpCodecCapability,
    pub payload_type: u8,
    pub stats_id: String,
}

/// How well a codec that was searched for was matched.
#[derive(Clone, Copy, Debug, PartialEq, Eq, Structural)]
pub enum CodecMatch {
    NoMatch,
    Partial,
    Exact,
}

/// A header extension as it was negotiated.
#[derive(Debug)]
pub struct RTCRtpHeaderExtensionParameters {
    pub uri: String,
    pub id: isize,
}

impl View for RTCRtpHeaderExtensionParameters {
    type V = (Seq<char>, isize);

    open spec fn view(&self) -> (Seq<char>, isize) {
        (self.uri@, self.id)
    }
}

impl Clone for RTCRtpHeaderExtensionParameters {
    fn clone(&self) -> (copy: RTCRtpHeaderExtensionParameters)
        ensures
            copy@ == self@,
    {
        RTCRtpHeaderExtensionParameters { uri: self.uri.clone(), id: self.id }
    }
}

/// The values of a list of negotiated extensions.
pub open spec fn parameter_views(parameters: Seq<RTCRtpHeaderExtensionParameters>) -> Seq<
    (Seq<char>, isize),
> {
    parameters.map_values(|parameter: RTCRtpHeaderExtensionParameters| parameter@)
}

/// A copy of a list of negotiated extensions.
pub(crate) fn clone_parameters(parameters: &Vec<RTCRtpHeaderExtensionParameters>) -> (copy: Vec<
    RTCRtpHeaderExtensionParameters,
>)
    ensures
        parameter_views(copy@) == parameter_views(parameters@),
{
    let mut copy: Vec<RTCRtpHeaderExtensionParameters> = Vec::new();
    for i in 0..parameters.len()
        invariant
            copy@.len() == i,
            parameter_views(copy@) == parameter_views(parameters@).take(i as int),
    {
        copy.push(parameters[i].clone());
        assert(parameter_views(copy@) =~= parameter_views(parameters@).take(i + 1));
    }
    assert(parameter_views(copy@) =~= parameter_views(parameters@));
    copy
}

/// The id under which a URI was negotiated: that of the first entry with the URI,
/// cut down to a byte.
pub open spec fn negotiated_id(parameters: Seq<(Seq<char>, isize)>, uri: Seq<char>) -> Option<u8>
    decreases parameters.len(),
{
    if parameters.len() == 0 {
        None
    } else if parameters[0].0 == uri {
        Some(parameters[0].1 as u8)
    } else {
        negotiated_id(parameters.drop_first(), uri)
    }
}

/// The id under which a URI was negotiated, cut down to a byte.
pub fn find_negotiated_id(
    parameters: &Vec<RTCRtpHeaderExtensionParameters>,
    uri: &String,
) -> (id: Option<u8>)
    ensures
        id == negotiated_id(parameter_views(parameters@), uri@),
{
    let ghost views = parameter_views(parameters@);
    assert(views.skip(0) =~= views);
    let mut i: usize = 0;
    while i < parameters.len()
        invariant
            i <= parameters@.len(),
            views == parameter_views(parameters@),
            negotiated_id(views, uri@) == negotiated_id(views.skip(i as int), uri@),
        decreases parameters@.len() - i,
    {
        assert(views.skip(i as int)[0] == parameters@[i as int]@);
        assert(views.skip(i as int).drop_first() =~= views.skip(i + 1));
        if parameters[i].uri == *uri {
            return Some(#[verifier::truncate] (parameters[i].id as u8));
        }
        i = i + 1;
    }
    None
}

/// The largest bitrate of a codec; None for a codec that is not supported.
pub open spec fn max_bitrate(mime_type: Seq<char>) -> Option<u32> {
    if mime_type == MIME_TYPE_OPUS@ {
        Some(MAX_AUDIO_BITRATE_BPS)
    } else if mime_type == MIME_TYPE_H264@ || mime_type == MIME_TYPE_VP8@ {
        Some(MAX_VIDEO_BITRATE_BPS)
    } else {
        None
    }
}

/// Whether two texts are the same.
fn same_text(a: &str, b: &str) -> (same: bool)
    ensures
        same == (a@ == b@),
{
    a.to_owned() == b.to_owned()
}

/// Whether a codec is supported.
pub fn is_supported(mime_type: &str) -> (supported: bool)
    ensures
        supported == max_bitrate(mime_type@) is Some,
{
    same_text(mime_type, MIME_TYPE_OPUS) || same_text(mime_type, MIME_TYPE_H264) || same_text(
        mime_type,
        MIME_TYPE_VP8,
    )
}

/// The largest bitrate of a supported codec.
pub fn get_max_bitrate(mime_type: &str) -> (bitrate_bps: u32)
    requires
        max_bitrate(mime_type@) is Some,
    ensures
        Some(bitrate_bps) == max_bitrate(mime_type@),
{
    if same_text(mime_type, MIME_TYPE_OPUS) {
        MAX_AUDIO_BITRATE_BPS
    } else {
        MAX_VIDEO_BITRATE_BPS
    }
}

/// The kind of media that a MIME type names.
pub open spec fn kind_of(mime_type: Seq<char>) -> RTPCodecType {
    if "audio/"@.is_prefix_of(mime_type) {
        RTPCodecType::Audio
    } else if "video/"@.is_prefix_of(mime_type) {
        RTPCodecType::Video
    } else {
        RTPCodecType::Unspecified
    }
}

/// Calls `str::starts_with` on a text: whether it begins with the prefix.
#[verifier::external_body]
fn starts_with(text: &str, prefix: &str) -> (begins: bool)
    ensures
        begins == prefix@.is_prefix_of(text@),
{
    text.starts_with(prefix)
}

/// The kind of media that a MIME type names.
pub fn kind_of_mime_type(mime_type: &str) -> (kind: RTPCodecType)
    ensures
        kind == kind_of(mime_type@),
{
    if starts_with(mime_type, "audio/") {
        RTPCodecType::Audio
    } else if starts_with(mime_type, "video/") {
        RTPCodecType::Video
    } else {
        RTPCodecType::Unspecified
    }
}

/// The id of a URI is that of the first parameter with the URI, cut down to a byte.
pub proof fn law_first_parameter_gives_the_id(
    parameters: Seq<(Seq<char>, isize)>,
    uri: Seq<char>,
    n: int,
)
    requires
        0 <= n < parameters.len(),
        parameters[n].0 == uri,
        forall|m: int| 0 <= m < n ==> (#[trigger] parameters[m]).0 != uri,
    ensures
        negotiated_id(parameters, uri) == Some(parameters[n].1 as u8),
        0 <= parameters[n].1 <= 255 ==> (negotiated_id(parameters, uri) matches Some(id) && id
            == parameters[n].1),
    decreases parameters.len(),
{
    if n > 0 {
        let rest = parameters.drop_first();
        assert(parameters[0].0 != uri);
        assert forall|m: int| 0 <= m < n - 1 implies (#[trigger] rest[m]).0 != uri by {
            assert(parameters[m + 1].0 != uri);
        }
        law_first_parameter_gives_the_id(rest, uri, n - 1);
    }
}

/// A URI that no parameter has was not negotiated.
pub proof fn law_unknown_uri_has_no_id(parameters: Seq<(Seq<char>, isize)>, uri: Seq<char>)
    requires
        forall|m: int| 0 <= m < parameters.len() ==> (#[trigger] parameters[m]).0 != uri,
    ensures
        negotiated_id(parameters, uri) is None,
    decreases parameters.len(),
{
    if parameters.len() > 0 {
        let rest = parameters.drop_first();
        assert forall|m: int| 0 <= m < rest.len() implies (#[trigger] rest[m]).0 != uri by {
            assert(parameters[m + 1].0 != uri);
        }
        law_unknown_uri_has_no_id(rest, uri);
    }
}

/// Opus has 64 kbit/s at most, H.264 and VP8 have 1 Mbit/s, and nothing else is
/// supported.
pub proof fn law_largest_bitrates(mime_type: Seq<char>)
    ensures
        mime_type == "audio/opus"@ ==> max_bitrate(mime_type) == Some(64_000u32),
        mime_type == "video/H264"@ ==> max_bitrate(mime_type) == Some(1_000_000u32),
        mime_type == "video/VP8"@ ==> max_bitrate(mime_type) == Some(1_000_000u32),
        mime_type != "audio/opus"@ && mime_type != "video/H264"@ && mime_type != "video/VP8"@
            ==> max_bitrate(mime_type) is None,
{
    reveal_strlit("audio/opus");
    reveal_strlit("video/H264");
    reveal_strlit("video/VP8");
    assert("audio/opus"@[0] != "video/H264"@[0]);
    assert("audio/opus"@[0] != "video/VP8"@[0]);
}

/// A MIME type names audio or video by what stands before its slash.
pub proof fn law_kind_is_what_the_type_begins_with(rest: Seq<char>, mime_type: Seq<char>)
    ensures
        kind_of("audio/"@ + rest) == RTPCodecType::Audio,
        kind_of("video/"@ + rest) == RTPCodecType::Video,
        !("audio/"@.is_prefix_of(mime_type)) && !("video/"@.is_prefix_of(mime_type)) ==> kind_of(
            mime_type,
        ) == RTPCodecType::Unspecified,
{
    reveal_strlit("audio/");
    reveal_strlit("video/");
    assert("audio/"@.is_prefix_of("audio/"@ + rest));
    assert("video/"@.is_prefix_of("video/"@ + rest));
    assert(("video/"@ + rest)[0] == 'v');
    assert("audio/"@[0] == 'a');
}

/// The values of a codec and of its parts hold what their fields hold.
pub proof fn law_codec_values_are_those_of_the_fields(
    capability: RTCRtpCodecCapability,
    parameters: Seq<RTCRtpHeaderExtensionParameters>,
)
    ensures
        capability@.mime_type == capability.mime_type@,
        capability@.clock_rate == capability.clock_rate,
        capability@.channels == capability.channels,
        capability@.sdp_fmtp_line == capability.sdp_fmtp_line@,
        capability@.rtcp_feedback.len() == capability.rtcp_feedback@.len(),
        forall|i: int|
            0 <= i < capability.rtcp_feedback@.len() ==> (
            #[trigger] capability@.rtcp_feedback[i]).0 == capability.rtcp_feedback@[i].typ@
                && capability@.rtcp_feedback[i].1 == capability.rtcp_feedback@[i].parameter@,
        parameter_views(parameters).len() == parameters.len(),
        forall|i: int|
            0 <= i < parameters.len() ==> (#[trigger] parameter_views(parameters)[i]).0
                == parameters[i].uri@ && parameter_views(parameters)[i].1 == parameters[i].id,
{
}

} // verus!
