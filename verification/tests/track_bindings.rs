use bytes::Bytes;
use track_local::codec::{
    CodecMatch, RTCRtpCodecCapability, RTCRtpCodecParameters, RTCRtpHeaderExtensionParameters,
};
use track_local::packet::{Header, Packet};
use track_local::track_bindings::TrackLocalContext;
use track_local::track_local_static_rtp::{Error, TrackLocalStaticRTP};

fn codec(mime_type: &str) -> RTCRtpCodecCapability {
    RTCRtpCodecCapability {
        mime_type: mime_type.to_owned(),
        clock_rate: 90_000,
        channels: 0,
        sdp_fmtp_line: String::new(),
        rtcp_feedback: vec![],
    }
}

fn track() -> TrackLocalStaticRTP {
    TrackLocalStaticRTP::new(codec("video/VP8"), "video".to_owned(), "desktop".to_owned())
}

fn packet(sequence_number: u16, timestamp: u32) -> Packet {
    Packet {
        header: Header {
            version: 2,
            padding: false,
            extension: false,
            marker: true,
            payload_type: 0,
            sequence_number,
            timestamp,
            ssrc: 1,
            csrc: vec![],
            extension_profile: 0,
            extensions: vec![],
            extensions_padding: 0,
        },
        payload: Bytes::from_static(&[0x98, 0x36, 0xbe, 0x88, 0x9e]),
    }
}

fn parameter(uri: &str, id: isize) -> RTCRtpHeaderExtensionParameters {
    RTCRtpHeaderExtensionParameters { uri: uri.to_owned(), id }
}

fn context(ssrc: u32, header_extensions: Vec<RTCRtpHeaderExtensionParameters>) -> TrackLocalContext {
    TrackLocalContext {
        id: format!("peer-{}", ssrc),
        ssrc,
        mid: Some("m0".to_owned()),
        header_extensions,
        paused: false,
    }
}

fn found(payload_type: u8) -> (RTCRtpCodecParameters, CodecMatch) {
    let parameters = RTCRtpCodecParameters {
        capability: codec("video/VP8"),
        payload_type,
        stats_id: "s".to_owned(),
    };
    (parameters, CodecMatch::Exact)
}

const MID: &str = "urn:ietf:params:rtp-hdrext:sdes:mid";
const STREAM_ID: &str = "urn:ietf:params:rtp-hdrext:sdes:rtp-stream-id";

#[test]
fn codec_of_the_track_is_searched_for() {
    let parameters = track().search_parameters();
    assert_eq!(parameters.capability.mime_type, "video/VP8");
    assert_eq!(parameters.capability.clock_rate, 90_000);
    assert_eq!(parameters.payload_type, 0);
    assert_eq!(parameters.stats_id, "");
}

#[test]
fn bound_track_lists_its_bindings() {
    let mut track = track();
    assert!(track.bindings_ssrc().is_empty());
    assert!(track.bindings_ids().is_empty());
    let codec = track.bind(&context(5, vec![]), found(96)).unwrap();
    assert_eq!(codec.payload_type, 96);
    assert_eq!(codec.stats_id, "s");
    track.bind(&context(7, vec![]), found(97)).unwrap();
    let mut ssrcs = track.bindings_ssrc();
    ssrcs.sort();
    assert_eq!(ssrcs, vec![5, 7]);
    let mut ids = track.bindings_ids();
    ids.sort();
    assert_eq!(ids, vec!["peer-5", "peer-7"]);
    track.unbind(&context(5, vec![])).unwrap();
    track.unbind(&context(5, vec![])).unwrap();
    assert_eq!(track.bindings_ssrc(), vec![7]);
    assert!(!track.is_binding_active(5));
    assert!(track.is_binding_active(7));
}

#[test]
fn second_binding_of_an_ssrc_takes_the_place_of_the_first() {
    let mut track = track();
    track.bind(&context(5, vec![]), found(96)).unwrap();
    let mut other = context(5, vec![]);
    other.id = "other".to_owned();
    track.bind(&other, found(97)).unwrap();
    assert_eq!(track.bindings_ids(), vec!["other"]);
}

#[test]
fn codec_that_is_not_found_is_refused() {
    let mut track = track();
    let (parameters, _) = found(96);
    let result = track.bind(&context(5, vec![]), (parameters, CodecMatch::NoMatch));
    assert!(matches!(result, Err(Error::ErrUnsupportedCodec)));
    assert!(track.bindings_ssrc().is_empty());
    let (parameters, _) = found(96);
    assert!(track.bind(&context(5, vec![]), (parameters, CodecMatch::Partial)).is_ok());
}

#[test]
fn media_id_and_stream_id_are_sent_where_negotiated() {
    let mut track = TrackLocalStaticRTP::new_with_rid(
        codec("video/VP8"),
        "video".to_owned(),
        "hi".to_owned(),
        "s".to_owned(),
    );
    let negotiated = vec![parameter(STREAM_ID, 4), parameter(MID, 3), parameter(MID, 9)];
    track.bind(&context(5, negotiated), found(96)).unwrap();
    let sent = track.write_rtp_to(&packet(1, 1), 5).unwrap().unwrap();
    assert!(sent.header.extension);
    assert_eq!(sent.header.extension_profile, 0xBEDE);
    assert_eq!(sent.header.extensions.len(), 2);
    assert_eq!(sent.header.extensions[0].id, 3);
    assert_eq!(sent.header.extensions[0].payload, Bytes::from_static(b"m0"));
    assert_eq!(sent.header.extensions[1].id, 4);
    assert_eq!(sent.header.extensions[1].payload, Bytes::from_static(b"hi"));
}

#[test]
fn media_id_and_stream_id_are_left_out_where_missing() {
    let mut track = track();
    let mut without_mid = context(5, vec![parameter(MID, 3), parameter(STREAM_ID, 4)]);
    without_mid.mid = None;
    track.bind(&without_mid, found(96)).unwrap();
    track.bind(&context(6, vec![]), found(96)).unwrap();
    for ssrc in [5, 6] {
        let sent = track.write_rtp_to(&packet(1, 1), ssrc).unwrap().unwrap();
        assert!(!sent.header.extension);
        assert!(sent.header.extensions.is_empty());
    }
}

#[test]
fn muting_reaches_every_binding() {
    let mut track = track();
    assert!(track.all_binding_paused());
    assert!(track.all_binding_paused_sync());
    assert!(!track.any_binding_paused());
    let mut paused = context(5, vec![]);
    paused.paused = true;
    track.bind(&paused, found(96)).unwrap();
    assert!(track.all_binding_paused_sync());
    assert!(track.any_binding_paused());
    track.bind(&context(6, vec![]), found(96)).unwrap();
    assert!(!track.all_binding_paused_sync());
    assert!(track.any_binding_paused());
    track.set_muted(true);
    assert!(track.all_binding_paused());
    assert!(!track.is_binding_active(5) && !track.is_binding_active(6));
    track.set_muted(false);
    assert!(!track.any_binding_paused());
    assert!(track.is_binding_active(5) && track.is_binding_active(6));
}

#[test]
fn muting_some_goes_by_the_first_pair() {
    let mut track = track();
    for ssrc in [1, 2, 3] {
        track.bind(&context(ssrc, vec![]), found(96)).unwrap();
    }
    track.set_muted_for(vec![(2, true), (9, true), (2, false), (3, true)]);
    assert!(track.is_binding_active(1));
    assert!(!track.is_binding_active(2));
    assert!(!track.is_binding_active(3));
    assert!(!track.is_binding_active(9));
    track.set_muted_for(vec![(3, false)]);
    assert!(!track.is_binding_active(2));
    assert!(track.is_binding_active(3));
    assert_eq!(track.bindings_ssrc().len(), 3);
}
