use track_local::codec::RTPCodecType;
use track_local::track_state::{PkgAttrs, TrackState};

fn attrs(sequence_number: u16, timestamp: u32) -> PkgAttrs {
    PkgAttrs {
        sequence_number,
        timestamp,
        marker: false,
    }
}

#[test]
fn first_packet_of_video_leaves_as_number_one() {
    let mut state = TrackState::new();
    assert_eq!(state.out_offset, None);
    let out = state.get_pkg_attrs_set_last_out(RTPCodecType::Video, 1000, 500_000);
    assert_eq!(out, attrs(1, 3750));
    assert_eq!(
        state.out_offset,
        Some((1u16.wrapping_sub(1000), 3750u32.wrapping_sub(500_000)))
    );
}

#[test]
fn first_packet_of_audio_takes_the_audio_step() {
    let mut state = TrackState::starting_at(7);
    let out = state.get_pkg_attrs_set_last_out(RTPCodecType::Audio, 5, 1);
    assert_eq!(out, attrs(1, 900));
    let mut state = TrackState::starting_at(7);
    let out = state.get_pkg_attrs(RTPCodecType::Audio, 5, 1);
    assert_eq!(out, attrs(1, 900));
}

#[test]
fn resending_takes_the_video_step_over_a_switch() {
    let mut state = TrackState::starting_at(0);
    let out = state.get_pkg_attrs(RTPCodecType::Video, 77, 90_000);
    assert_eq!(out, attrs(1, 3750));
    // nothing counts as sent, so another source starts at the same place
    state.reset_offset();
    let out = state.get_pkg_attrs(RTPCodecType::Unspecified, 9, 9);
    assert_eq!(out, attrs(1, 3750));
}

#[test]
fn forwarding_takes_its_own_step_for_an_unspecified_kind() {
    let mut state = TrackState::starting_at(0);
    let out = state.get_pkg_attrs_set_last_out(RTPCodecType::Unspecified, 10, 20);
    assert_eq!(out, attrs(1, 6000));
    let mut state = TrackState::new();
    let out = state.get_pkg_attrs_set_last_out(RTPCodecType::Video, 10, 20);
    assert_eq!(out, attrs(1, 3750));
}

#[test]
fn distances_within_a_source_are_kept() {
    let mut state = TrackState::starting_at(0);
    let first = state.get_pkg_attrs_set_last_out(RTPCodecType::Video, 65_535, u32::MAX);
    let second = state.get_pkg_attrs_set_last_out(RTPCodecType::Video, 2, 2999);
    assert_eq!(second.sequence_number.wrapping_sub(first.sequence_number), 3);
    assert_eq!(second.timestamp.wrapping_sub(first.timestamp), 3000);
}

#[test]
fn origin_recovers_the_number_of_the_source() {
    let mut state = TrackState::starting_at(0);
    assert_eq!(state.origin_seq(42), 42);
    let out = state.get_pkg_attrs_set_last_out(RTPCodecType::Video, 40_000, 1);
    assert_eq!(state.origin_seq(out.sequence_number), 40_000);
    assert_eq!(state.origin_seq(0), 39_999);
}

#[test]
fn switch_goes_on_after_the_last_number() {
    let mut state = TrackState::starting_at(0);
    state.get_pkg_attrs_set_last_out(RTPCodecType::Video, 10, 100);
    let last = state.get_pkg_attrs_set_last_out(RTPCodecType::Video, 11, 3100);
    assert_eq!(last, attrs(2, 6750));
    state.reset_offset();
    let out = state.get_pkg_attrs_set_last_out(RTPCodecType::Video, 60_000, 123);
    assert_eq!(out, attrs(3, 10_500));
}

#[test]
fn withheld_packets_leave_no_gap_and_raise_the_marker() {
    let mut state = TrackState::starting_at(0);
    state.get_pkg_attrs_set_last_out(RTPCodecType::Video, 10, 100);
    state.shift_offset(11, 3100);
    state.shift_offset(12, 6100);
    let out = state.get_pkg_attrs_set_last_out(RTPCodecType::Video, 13, 9100);
    assert_eq!(
        out,
        PkgAttrs {
            sequence_number: 2,
            timestamp: 6750,
            marker: true
        }
    );
}

#[test]
fn set_last_out_moves_the_stream_and_lowers_the_marker() {
    let mut state = TrackState::starting_at(0);
    state.shift_offset(1, 1);
    state.set_last_out(attrs(500, 5000));
    state.reset_offset();
    let copy = state.clone();
    let out = state.get_pkg_attrs_set_last_out(RTPCodecType::Audio, 1, 1);
    assert_eq!(out, attrs(501, 5900));
    let mut copy = copy;
    let out = copy.get_pkg_attrs_set_last_out(RTPCodecType::Audio, 2, 2);
    assert_eq!(out, attrs(501, 5900));
}
