use bytes::Bytes;
use std::sync::Arc;
use std::time::{Duration, Instant};
use track_local::codec::{
    CodecMatch, RTCRtpCodecCapability, RTCRtpCodecParameters, RTCRtpHeaderExtensionParameters,
};
use track_local::forwarding::{RemoteAction, RemoteEvent};
use track_local::header_extension::{HeaderExtension, MarshalError};
use track_local::packet::{
    extension_elements_in_bounds, Extension, ExtensionError, Header, Packet, PacketError,
};
use track_local::track_bindings::TrackLocalContext;
use track_local::track_local_static_rtp::{Error, TrackLocalStaticRTP};
use track_local::track_state::PkgAttrs;
use track_local::write_plan::{FailureCause, WritePlan};
use webrtc_util::Marshal;

fn codec(mime_type: &str) -> RTCRtpCodecCapability {
    RTCRtpCodecCapability {
        mime_type: mime_type.to_owned(),
        clock_rate: 90_000,
        channels: 0,
        sdp_fmtp_line: String::new(),
        rtcp_feedback: vec![],
    }
}

fn track() -> TrackLocalStaticRTP {
    TrackLocalStaticRTP::new(codec("video/VP8"), "video".to_owned(), "desktop".to_owned())
}

fn packet(sequence_number: u16, timestamp: u32) -> Packet {
    Packet {
        header: Header {
            version: 2,
            padding: false,
            extension: false,
            marker: true,
            payload_type: 0,
            sequence_number,
            timestamp,
            ssrc: 1,
            csrc: vec![],
            extension_profile: 0,
            extensions: vec![],
            extensions_padding: 0,
        },
        payload: Bytes::from_static(&[0x98, 0x36, 0xbe, 0x88, 0x9e]),
    }
}

fn parameter(uri: &str, id: isize) -> RTCRtpHeaderExtensionParameters {
    RTCRtpHeaderExtensionParameters { uri: uri.to_owned(), id }
}

fn context(ssrc: u32, header_extensions: Vec<RTCRtpHeaderExtensionParameters>) -> TrackLocalContext {
    TrackLocalContext {
        id: format!("peer-{}", ssrc),
        ssrc,
        mid: Some("m0".to_owned()),
        header_extensions,
        paused: false,
    }
}

fn found(payload_type: u8) -> (RTCRtpCodecParameters, CodecMatch) {
    let parameters = RTCRtpCodecParameters {
        capability: codec("video/VP8"),
        payload_type,
        stats_id: "s".to_owned(),
    };
    (parameters, CodecMatch::Exact)
}

const TRANSPORT_CC: &str = "http://www.ietf.org/id/draft-holmer-rmcat-transport-wide-cc-extensions-01";

fn bound_to(ssrcs: &[u32]) -> TrackLocalStaticRTP {
    let mut track = track();
    for ssrc in ssrcs {
        track.bind(&context(*ssrc, vec![]), found(*ssrc as u8)).unwrap();
    }
    track
}

fn sent_to(plan: &WritePlan, ssrc: u32) -> &Packet {
    let step = plan.steps.iter().find(|step| step.ssrc == ssrc).unwrap();
    step.outcome.as_ref().unwrap().as_ref().unwrap()
}

fn attrs(sequence_number: u16, timestamp: u32) -> PkgAttrs {
    PkgAttrs { sequence_number, timestamp, marker: false }
}

#[test]
fn packet_is_addressed_to_every_binding() {
    let mut track = bound_to(&[5, 6]);
    let plan = track.write_rtp(&packet(1000, 90_000));
    assert!(plan.extension_errors.is_empty());
    assert_eq!(plan.steps.len(), 2);
    for ssrc in [5, 6] {
        let sent = sent_to(&plan, ssrc);
        assert_eq!(sent.header.sequence_number, 1);
        assert_eq!(sent.header.timestamp, 3750);
        assert_eq!(sent.header.ssrc, ssrc);
        assert_eq!(sent.header.payload_type, ssrc as u8);
        assert!(sent.header.marker);
        assert_eq!(sent.payload, packet(0, 0).payload);
    }
    let plan = track.write_rtp(&packet(1001, 93_000));
    assert_eq!(sent_to(&plan, 5).header.sequence_number, 2);
    assert_eq!(sent_to(&plan, 6).header.timestamp, 6750);
}

#[test]
fn write_without_bindings_or_with_all_paused_sends_nothing() {
    let mut track = track();
    let plan = track.write_rtp(&packet(1, 1));
    assert!(plan.steps.is_empty());
    assert!(matches!(plan.finish(vec![]), Ok(0)));
    track.bind(&context(5, vec![]), found(96)).unwrap();
    track.set_muted(true);
    let errors = track.write_rtp_with_extensions(
        &packet(2, 2),
        &[HeaderExtension::AudioLevel { level: 255, voice: true }],
    );
    assert!(errors.steps.is_empty());
    assert!(errors.extension_errors.is_empty());
}

#[test]
fn pause_leaves_no_gap_in_the_numbers() {
    let mut track = bound_to(&[5]);
    assert_eq!(sent_to(&track.write_rtp(&packet(10, 100)), 5).header.sequence_number, 1);
    track.set_muted(true);
    track.write_rtp(&packet(11, 3100));
    track.write_rtp(&packet(12, 6100));
    track.set_muted(false);
    let plan = track.write_rtp(&packet(13, 9100));
    assert_eq!(sent_to(&plan, 5).header.sequence_number, 2);
    assert_eq!(sent_to(&plan, 5).header.timestamp, 6750);
}

#[test]
fn paused_binding_has_a_step_without_a_packet() {
    let mut track = bound_to(&[5, 6]);
    track.set_muted_for(vec![(6, true)]);
    let plan = track.write_rtp(&packet(1, 1));
    assert_eq!(plan.steps.len(), 2);
    let paused = plan.steps.iter().find(|step| step.ssrc == 6).unwrap();
    assert!(matches!(paused.outcome, Ok(None)));
    assert_eq!(sent_to(&plan, 5).header.sequence_number, 1);
    assert!(track.write_rtp_to(&packet(1, 1), 6).unwrap().is_none());
}

#[test]
fn extensions_go_out_under_the_negotiated_ids() {
    let mut track = track();
    track.bind(&context(5, vec![parameter(TRANSPORT_CC, 259)]), found(96)).unwrap();
    track.bind(&context(6, vec![]), found(96)).unwrap();
    let plan = track.write_rtp_with_extensions(
        &packet(1, 1),
        &[
            HeaderExtension::TransportCc { transport_sequence: 1 },
            HeaderExtension::AudioLevel { level: 1, voice: true },
            HeaderExtension::TransportCc { transport_sequence: 0x0203 },
        ],
    );
    let sent = sent_to(&plan, 5);
    assert_eq!(sent.header.extensions.len(), 1);
    assert_eq!(sent.header.extensions[0].id, 3);
    assert_eq!(sent.header.extensions[0].payload, Bytes::from_static(&[2, 3]));
    assert_eq!(sent.header.extension_profile, 0xBEDE);
    assert!(sent_to(&plan, 6).header.extensions.is_empty());
}

#[test]
fn extension_of_the_packet_is_replaced() {
    let mut track = track();
    track.bind(&context(5, vec![parameter("x", 2)]), found(96)).unwrap();
    let mut pkt = packet(1, 1);
    pkt.header.extension = true;
    pkt.header.extension_profile = 0xBEDE;
    pkt.header.extensions = vec![
        Extension { id: 1, payload: Bytes::from_static(&[1]) },
        Extension { id: 2, payload: Bytes::from_static(&[2]) },
    ];
    let custom = HeaderExtension::Custom {
        uri: "x".to_owned(),
        marshaled: Ok(Bytes::from_static(&[9, 9])),
    };
    let sent = track
        .write_rtp_with_extensions_to(&pkt, &attrs(7, 8), &[custom], 5)
        .unwrap()
        .unwrap();
    assert_eq!(sent.header.sequence_number, 7);
    assert_eq!(sent.header.timestamp, 8);
    assert_eq!(sent.header.extensions.len(), 2);
    assert_eq!(sent.header.extensions[0].payload, Bytes::from_static(&[1]));
    assert_eq!(sent.header.extensions[1].payload, Bytes::from_static(&[9, 9]));
}

fn refusal(profile: u16, id: isize, payload: Vec<u8>) -> Error {
    let mut track = track();
    track.bind(&context(5, vec![parameter("x", id)]), found(96)).unwrap();
    let mut pkt = packet(1, 1);
    pkt.header.extension = true;
    pkt.header.extension_profile = profile;
    let custom = HeaderExtension::Custom { uri: "x".to_owned(), marshaled: Ok(Bytes::from(payload)) };
    track.write_rtp_with_extensions_to(&pkt, &attrs(1, 1), &[custom], 5).unwrap_err()
}

#[test]
fn extensions_that_do_not_fit_the_profile_are_refused() {
    assert!(matches!(refusal(0xBEDE, 0, vec![1]), Error::Rtp(ExtensionError::OneByteId)));
    assert!(matches!(refusal(0xBEDE, 15, vec![1]), Error::Rtp(ExtensionError::OneByteId)));
    assert!(matches!(refusal(0xBEDE, 1, vec![1; 17]), Error::Rtp(ExtensionError::OneByteSize)));
    assert!(matches!(refusal(0x1000, 0, vec![1]), Error::Rtp(ExtensionError::TwoByteId)));
    assert!(matches!(refusal(0x1000, 1, vec![1; 256]), Error::Rtp(ExtensionError::TwoByteSize)));
    assert!(matches!(refusal(1, 1, vec![1]), Error::Rtp(ExtensionError::OtherProfileId)));
}

#[test]
fn unknown_binding_is_reported_before_anything_else() {
    let mut track = track();
    let bad = [HeaderExtension::AudioLevel { level: 255, voice: true }];
    let result = track.write_rtp_with_extensions_to(&packet(1, 1), &attrs(1, 1), &bad, 5);
    assert!(matches!(result, Err(Error::LocalTrackBindingNotFound)));
    // the offset is fixed all the same
    let result = track.write_rtp_to(&packet(40, 1), 5);
    assert!(matches!(result, Err(Error::LocalTrackBindingNotFound)));
    assert_eq!(track.state.origin_seq(1), 40);
}

#[test]
fn last_marshal_error_is_returned_for_one_binding() {
    let track = bound_to(&[5]);
    let bad = [
        HeaderExtension::AudioLevel { level: 255, voice: true },
        HeaderExtension::PlayoutDelay { min_delay: 0xFFFF, max_delay: 0 },
    ];
    let result = track.write_rtp_with_extensions_to(&packet(1, 1), &attrs(1, 1), &bad, 5);
    assert!(matches!(result, Err(Error::Util(MarshalError::PlayoutDelayOverflow))));
}

#[test]
fn failing_receiver_is_named_and_stops_no_other() {
    let mut track = track();
    track.bind(&context(5, vec![parameter("x", 15)]), found(96)).unwrap();
    track.bind(&context(6, vec![]), found(96)).unwrap();
    track.bind(&context(7, vec![]), found(96)).unwrap();
    let mut pkt = packet(1, 1);
    pkt.header.extension = true;
    pkt.header.extension_profile = 0xBEDE;
    let custom = HeaderExtension::Custom {
        uri: "x".to_owned(),
        marshaled: Ok(Bytes::from_static(&[1])),
    };
    let level = HeaderExtension::AudioLevel { level: 255, voice: true };
    let plan = track.write_rtp_with_extensions(&pkt, &[custom, level]);
    assert_eq!(sent_to(&plan, 6).header.ssrc, 6);
    assert_eq!(sent_to(&plan, 7).header.ssrc, 7);
    let results = plan
        .steps
        .iter()
        .map(|step| if step.ssrc == 7 { Err("closed".to_owned()) } else { Ok(12) })
        .collect();
    let error = plan.finish(results).unwrap_err();
    assert!(matches!(error.extension_errors[..], [MarshalError::AudioLevelOverflow]));
    assert_eq!(error.failures.len(), 2);
    for failure in error.failures {
        assert_eq!(failure.id, format!("peer-{}", failure.ssrc));
        match failure.cause {
            FailureCause::Rtp(cause) => {
                assert_eq!(failure.ssrc, 5);
                assert_eq!(cause, ExtensionError::OneByteId);
            }
            FailureCause::Send(reason) => {
                assert_eq!(failure.ssrc, 7);
                assert_eq!(reason, "closed");
            }
        }
    }
}

#[test]
fn finished_write_counts_the_bytes_of_packets_only() {
    let mut track = bound_to(&[5, 6, 7]);
    track.set_muted_for(vec![(6, true)]);
    let plan = track.write_rtp(&packet(1, 1));
    let results = plan
        .steps
        .iter()
        .map(|step| if step.ssrc == 6 { Err("never sent".to_owned()) } else { Ok(17) })
        .collect();
    assert!(matches!(plan.finish(results), Ok(34)));
}

fn raw_packet() -> Vec<u8> {
    rtp::packet::Packet {
        header: rtp::header::Header {
            version: 2,
            marker: true,
            payload_type: 96,
            sequence_number: 27_023,
            timestamp: 3_653_407_706,
            ssrc: 476_325_762,
            extension: true,
            extension_profile: 0xBEDE,
            extensions: vec![rtp::header::Extension { id: 5, payload: Bytes::from_static(&[1, 2]) }],
            ..Default::default()
        },
        payload: Bytes::from_static(&[0x98, 0x36]),
    }
    .marshal()
    .unwrap()
    .to_vec()
}

#[test]
fn bytes_of_a_packet_are_written_whole() {
    let mut track = bound_to(&[5]);
    let raw = raw_packet();
    assert!(extension_elements_in_bounds(&raw));
    let (plan, left) = track.write(&raw).unwrap();
    assert_eq!(left, 0);
    let sent = sent_to(&plan, 5);
    assert_eq!(sent.header.version, 2);
    assert_eq!(sent.header.sequence_number, 1);
    assert_eq!(sent.header.ssrc, 5);
    assert!(sent.header.marker);
    assert_eq!(sent.header.extensions[0].id, 5);
    assert_eq!(sent.header.extensions[0].payload, Bytes::from_static(&[1, 2]));
    assert_eq!(sent.payload, Bytes::from_static(&[0x98, 0x36]));
    assert_eq!(track.state.origin_seq(1), 27_023);
}

#[test]
fn bytes_that_are_no_packet_are_refused() {
    let mut track = bound_to(&[5]);
    assert!(matches!(track.write(&[]), Err(PacketError::HeaderSize)));
    assert!(matches!(track.write(&[0x80; 11]), Err(PacketError::HeaderSize)));
    let raw = raw_packet();
    assert!(matches!(track.write(&raw[..16]), Err(PacketError::ExtensionSize)));
    let mut padded = vec![0xA0, 96, 0, 1, 0, 0, 0, 1, 0, 0, 0, 2];
    assert!(matches!(track.write(&padded), Err(PacketError::ShortPacket)));
    padded.extend_from_slice(&[9, 3]);
    assert!(matches!(track.write(&padded), Err(PacketError::ShortPacket)));
    padded.push(3);
    let (plan, _) = track.write(&padded).unwrap();
    assert!(sent_to(&plan, 5).payload.is_empty());
    // nothing of the refused bytes was counted
    assert_eq!(sent_to(&plan, 5).header.sequence_number, 1);
}

#[test]
fn extension_elements_must_lie_within_the_bytes() {
    let header = [0x90, 96, 0, 1, 0, 0, 0, 1, 0, 0, 0, 2];
    let with = |rest: &[u8]| {
        let mut raw = header.to_vec();
        raw.extend_from_slice(rest);
        extension_elements_in_bounds(&raw)
    };
    assert!(with(&[0xBE, 0xDE, 0, 1, 0x10, 7, 0, 0]));
    assert!(!with(&[0xBE, 0xDE, 0, 1, 0x1F, 7, 0, 0]));
    assert!(with(&[0xBE, 0xDE, 0, 1, 0xF3, 7, 0, 0]));
    assert!(with(&[0x10, 0, 0, 1, 1, 2, 7, 7]));
    assert!(!with(&[0x10, 0, 0, 1, 1, 3, 7, 7]));
    assert!(!with(&[0x10, 0, 0, 1, 0, 0, 0, 1]));
    assert!(with(&[0, 1, 0, 1, 0xFF, 0xFF, 0xFF, 0xFF]));
    assert!(with(&[0xBE, 0xDE, 0, 9, 0x1F]));
    assert!(with(&[]));
}

#[test]
fn cached_packet_is_found_under_the_number_it_left_with() {
    let mut track = bound_to(&[5]);
    assert!(matches!(track.replace_remote(RemoteEvent::Started), RemoteAction::Read));
    let mut left_with = vec![];
    for i in 0..256u16 {
        let pkt = packet(65_500u16.wrapping_add(i), 3000 * i as u32);
        let entry = match track.replace_remote(RemoteEvent::PacketRead(pkt)) {
            RemoteAction::Enqueue(entry) => entry,
            _ => panic!("the packet was not queued"),
        };
        assert!(matches!(track.replace_remote(RemoteEvent::Queued), RemoteAction::Read));
        let plan = track.write_rtp(&entry.rtp);
        left_with.push((sent_to(&plan, 5).header.sequence_number, entry));
    }
    let ttl = Duration::from_secs(3).as_nanos();
    for (number, entry) in &left_with {
        assert!(Arc::ptr_eq(entry, &track.cache_get_at_age(*number, ttl).unwrap()));
        assert!(track.cache_get_at_age(*number, ttl + 1).is_none());
    }
    let (number, entry) = &left_with[255];
    assert!(Arc::ptr_eq(entry, &track.cache_get(*number).unwrap()));
    assert!(track.cache_get(number.wrapping_add(1)).is_none());
    let again = track.write_rtp_to(&entry.rtp, 5).unwrap().unwrap();
    assert_eq!(again.header.sequence_number, *number);
    // the stream has not moved
    let plan = track.write_rtp(&packet(220, 0));
    assert_eq!(sent_to(&plan, 5).header.sequence_number, number.wrapping_add(1));
}

#[test]
fn packet_that_found_no_room_in_the_queue_is_cached() {
    let mut track = bound_to(&[5]);
    track.replace_remote(RemoteEvent::Started);
    track.write_rtp(&packet(10, 0));
    track.replace_remote(RemoteEvent::PacketRead(packet(11, 3000)));
    assert!(matches!(track.replace_remote(RemoteEvent::QueueFull), RemoteAction::Read));
    let entry = track.cache_get(2).unwrap();
    assert_eq!(entry.rtp.header.sequence_number, 11);
    let sent = track.write_rtp_to(&entry.rtp, 5).unwrap().unwrap();
    assert_eq!(sent.header.sequence_number, 2);
}

#[test]
fn source_that_ends_or_is_not_wanted_stops() {
    let mut track = track();
    assert!(matches!(track.replace_remote(RemoteEvent::ReadFailed), RemoteAction::Stop));
    assert!(matches!(track.replace_remote(RemoteEvent::QueueClosed), RemoteAction::Stop));
}

#[test]
fn other_source_goes_on_with_the_next_number() {
    let mut track = bound_to(&[5]);
    track.write_rtp(&packet(10, 100));
    track.write_rtp(&packet(11, 3100));
    track.replace_remote(RemoteEvent::Started);
    let plan = track.write_rtp(&packet(50_000, 7));
    assert_eq!(sent_to(&plan, 5).header.sequence_number, 3);
    assert_eq!(sent_to(&plan, 5).header.timestamp, 10_500);
}

#[test]
fn cached_packet_is_as_old_as_its_reading() {
    let mut track = bound_to(&[5]);
    let read_at = Instant::now();
    let entry = match track.replace_remote_at(RemoteEvent::PacketRead(packet(40, 0)), read_at) {
        RemoteAction::Enqueue(entry) => entry,
        _ => panic!("the packet was not queued"),
    };
    assert_eq!(entry.first_sent_at, read_at);
    track.write_rtp(&entry.rtp);
    let ttl = Duration::from_secs(3);
    assert!(Arc::ptr_eq(&entry, &track.cache_get_at(1, read_at + ttl).unwrap()));
    assert!(track.cache_get_at(1, read_at + ttl + Duration::from_nanos(1)).is_none());
    assert!(track.cache_get_at(2, read_at).is_none());
}
