use std::time::Duration;
use track_local::bitrate_control::ReceptionReport;
use track_local::codec::{RTCRtpCodecCapability, RTPCodecType};
use track_local::track_local_static_rtp::TrackLocalStaticRTP;

fn codec(mime_type: &str) -> RTCRtpCodecCapability {
    RTCRtpCodecCapability {
        mime_type: mime_type.to_owned(),
        clock_rate: 90_000,
        channels: 0,
        sdp_fmtp_line: String::new(),
        rtcp_feedback: vec![],
    }
}

fn track() -> TrackLocalStaticRTP {
    TrackLocalStaticRTP::new(codec("video/VP8"), "video".to_owned(), "desktop".to_owned())
}

fn report(fraction_lost: u8) -> ReceptionReport {
    ReceptionReport {
        ssrc: 1,
        fraction_lost,
        total_lost: 5,
        last_sequence_number: 0,
        jitter: 0,
        last_sender_report: 0,
        delay: 0,
    }
}

#[test]
fn new_track_starts_at_half_the_largest_bitrate() {
    let video = track();
    assert_eq!(video.max_bitrate_bps, 1_000_000);
    assert_eq!(video.current_target_bitrate_bps, 500_000);
    assert_eq!(video.kind(), RTPCodecType::Video);
    assert_eq!(video.id(), "video");
    assert_eq!(video.stream_id(), "desktop");
    assert_eq!(video.rid(), None);
    assert_eq!(video.codec().mime_type, "video/VP8");
    let audio = TrackLocalStaticRTP::new_with_rid(
        codec("audio/opus"),
        "audio".to_owned(),
        "r".to_owned(),
        "s".to_owned(),
    );
    assert_eq!(audio.max_bitrate_bps, 64_000);
    assert_eq!(audio.current_target_bitrate_bps, 32_000);
    assert_eq!(audio.kind(), RTPCodecType::Audio);
    assert_eq!(audio.rid(), Some("r"));
}

#[test]
fn key_frame_requests_keep_their_distance() {
    let mut track = track();
    assert!(!track.should_fire_pli(499));
    assert!(track.should_fire_pli(500));
    assert!(!track.should_fire_pli(500));
    assert!(!track.should_fire_pli(999));
    assert!(!track.should_fire_pli(3));
    assert!(track.should_fire_pli(1000));
    assert!(track.should_fire_pli(u64::MAX));
}

#[test]
fn estimates_keep_their_distance() {
    let mut track = track();
    let start = track.start_remb_time;
    assert_eq!(track.last_remb_sent, -10_000_000);
    assert!(track.should_send_remb_at(0));
    assert!(!track.should_send_remb_at(0));
    assert!(!track.should_send_remb_at(999_999));
    assert!(track.should_send_remb_at(1_000_000));
    assert!(!track.should_send_remb_at(1_999_999));
    assert!(!track.should_send_remb_at(5));
    assert!(track.should_send_remb_at(2_000_000));
    track.last_remb_sent = u64::MAX as i128;
    assert!(!track.should_send_remb_at(u64::MAX));
    track.last_remb_sent = i128::MAX;
    assert!(!track.should_send_remb_at(u64::MAX));
    track.last_remb_sent = i128::MIN;
    assert!(track.should_send_remb_at(0));
    assert_eq!(track.start_remb_time, start);
}

#[test]
fn estimate_is_due_on_a_new_track() {
    let mut track = track();
    assert!(track.should_send_remb());
    assert!(!track.should_send_remb());
    track.bitrate.add_sample(0, 500_000);
    assert_eq!(track.adapt_bitrate(), None);
    let mut track = self::track();
    track.bitrate.add_sample(0, 500_000);
    assert_eq!(track.adapt_bitrate(), Some(550_000));
    assert_eq!(track.adapt_bitrate(), None);
}

#[test]
fn target_grows_by_a_twentieth_of_the_largest() {
    let mut track = track();
    track.bitrate.add_sample(0, 500_000);
    assert_eq!(track.adapt_bitrate_at(11_000_000, 11_000_007), Some(550_000));
    assert_eq!(track.current_target_bitrate_bps, 550_000);
    assert_eq!(track.last_remb_sent, 11_000_007);
    // too soon, and then no more than what was measured and a step
    assert_eq!(track.adapt_bitrate_at(12_000_000, 12_000_000), None);
    assert_eq!(track.adapt_bitrate_at(12_000_007, 12_000_009), None);
    assert_eq!(track.last_remb_sent, 12_000_007);
    assert_eq!(track.current_target_bitrate_bps, 550_000);
}

#[test]
fn target_grows_by_no_more_than_half_of_what_was_measured() {
    let mut track = track();
    track.current_target_bitrate_bps = 60_000;
    track.bitrate.add_sample(0, 60_000);
    assert_eq!(track.next_target_bitrate(), Some(90_000));
}

#[test]
fn measured_bitrate_above_the_target_counts_as_the_target() {
    let mut track = track();
    track.bitrate.add_sample(0, 4_000_000);
    assert_eq!(track.next_target_bitrate(), Some(550_000));
}

#[test]
fn target_does_not_pass_the_largest_bitrate() {
    let mut track = track();
    track.current_target_bitrate_bps = 980_000;
    track.bitrate.add_sample(0, 980_000);
    assert_eq!(track.next_target_bitrate(), None);
    track.current_target_bitrate_bps = 952_000;
    track.bitrate = track_local::bitrate_state::BitrateState::new();
    track.bitrate.add_sample(0, 952_000);
    assert_eq!(track.next_target_bitrate(), Some(1_000_000));
}

#[test]
fn target_shrinks_to_a_share_of_what_was_measured() {
    let mut track = track();
    track.bitrate.add_sample(0, 400_000);
    track.handle_receiver_report(1, &report(50));
    assert_eq!(track.loss_stats.worst_fraction_lost, 50);
    assert_eq!(track.adapt_bitrate_at(11_000_000, 11_000_000), Some(200_000));
    assert_eq!(track.current_target_bitrate_bps, 200_000);
}

#[test]
fn target_does_not_shrink_below_a_twentieth_of_the_largest() {
    let mut track = track();
    track.bitrate.add_sample(0, 10_000);
    track.handle_receiver_report(1, &report(100));
    assert_eq!(track.next_target_bitrate(), Some(50_000));
    track.current_target_bitrate_bps = 50_000;
    assert_eq!(track.next_target_bitrate(), None);
}

#[test]
fn moderate_loss_and_small_changes_leave_the_target() {
    let mut track = track();
    track.bitrate.add_sample(0, 500_000);
    track.handle_receiver_report(1, &report(5));
    assert_eq!(track.next_target_bitrate(), None);
    let mut track = self::track();
    track.bitrate.add_sample(0, 470_000);
    // 520_000 is no more than a twentieth above 500_000
    assert_eq!(track.next_target_bitrate(), None);
}

#[test]
fn nothing_measured_leaves_the_target() {
    let mut track = track();
    track.handle_receiver_report(1, &report(255));
    assert_eq!(track.adapt_bitrate_at(11_000_000, 11_000_000), None);
    // the attempt counts all the same
    assert_eq!(track.last_remb_sent, 11_000_000);
}

#[test]
fn total_loss_ends_at_the_least_bitrate() {
    let mut track = track();
    track.bitrate.update_with_sr(0, 11_000_000_000, 0);
    track.bitrate.update_with_sr(125_000, 12_000_000_000, 1_000_000);
    track.handle_receiver_report(1, &report(255));
    assert_eq!(track.adapt_bitrate_at(12_000_000, 12_000_000), Some(50_000));
    assert_eq!(track.adapt_bitrate_at(13_000_000, 13_000_000), None);
    assert_eq!(track.current_target_bitrate_bps, 50_000);
}

#[test]
fn instants_are_counted_from_the_start() {
    let mut track = track();
    let start = track.start_remb_time;
    assert_eq!(track.instant_to_micros(start), 0);
    assert_eq!(track.instant_to_micros(start + Duration::from_nanos(1999)), 1);
    assert_eq!(track.instant_to_micros(start + Duration::from_secs(12)), 12_000_000);
    track.handle_receiver_report_at(1, &report(40), start + Duration::from_secs(1));
    assert_eq!(track.loss_stats.worst_fraction_lost, 40);
}
