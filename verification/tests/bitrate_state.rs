use std::time::{Duration, Instant};
use track_local::bitrate_state::{BitrateState, BITRATE_HISTORY_SIZE};

const SECOND: u128 = 1_000_000_000;

fn rate(octets: u32, nanos: u128) -> u32 {
    (octets as f64 * 8.0 / (nanos as f64 / 1e9)) as u32
}

fn report(state: &mut BitrateState, octet_count: u32, now: u128) {
    let bitrate_bps = match state.interval_since_last(octet_count, now) {
        Some((octets, nanos)) => rate(octets, nanos),
        None => 0,
    };
    state.update_with_sr(octet_count, now, bitrate_bps);
}

#[test]
fn first_report_measures_nothing() {
    let mut state = BitrateState::new();
    assert_eq!(state.interval_since_last(1000, SECOND), None);
    report(&mut state, 1000, SECOND);
    assert_eq!(state.current_bitrate(), 0);
    assert_eq!(state.average_bitrate(), 0);
}

#[test]
fn second_report_measures_bits_per_second() {
    let mut state = BitrateState::new();
    report(&mut state, 1000, SECOND);
    assert_eq!(
        state.interval_since_last(126_000, 2 * SECOND),
        Some((125_000, SECOND))
    );
    report(&mut state, 126_000, 2 * SECOND);
    assert_eq!(state.current_bitrate(), 1_000_000);
    assert_eq!(state.average_bitrate(), 1_000_000);
}

#[test]
fn octet_count_wraps_around() {
    let mut state = BitrateState::new();
    report(&mut state, u32::MAX, SECOND);
    report(&mut state, 124, SECOND + SECOND / 2);
    assert_eq!(state.current_bitrate(), 2000);
}

#[test]
fn stalled_clock_measures_nothing() {
    let mut state = BitrateState::new();
    report(&mut state, 0, SECOND);
    report(&mut state, 1000, 2 * SECOND);
    assert_eq!(state.interval_since_last(9999, 2 * SECOND), None);
    report(&mut state, 9999, 2 * SECOND);
    assert_eq!(state.current_bitrate(), 8000);
    // the count of the report was taken over
    assert_eq!(state.interval_since_last(10_000, 3 * SECOND), Some((1, SECOND)));
}

#[test]
fn average_is_rounded_down() {
    let mut state = BitrateState::new();
    state.add_sample(1, 10);
    state.add_sample(2, 11);
    assert_eq!(state.average_bitrate(), 10);
    state.add_sample(3, 12);
    assert_eq!(state.average_bitrate(), 11);
}

#[test]
fn average_of_the_largest_bitrates_does_not_overflow() {
    let mut state = BitrateState::new();
    for i in 0..20u128 {
        state.add_sample(i, u32::MAX);
    }
    assert_eq!(state.average_bitrate(), u32::MAX);
}

#[test]
fn history_forgets_what_is_too_old() {
    let mut state = BitrateState::new();
    state.add_sample(SECOND, 100);
    state.add_sample(6 * SECOND, 300);
    assert_eq!(state.average_bitrate(), 200);
    state.add_sample(6 * SECOND + 1, 600);
    assert_eq!(state.average_bitrate(), 450);
    let mut state = BitrateState::new().with_max_duration(SECOND);
    state.add_sample(SECOND, 100);
    state.add_sample(2 * SECOND + 1, 300);
    assert_eq!(state.average_bitrate(), 300);
}

#[test]
fn history_holds_a_fixed_number_of_samples() {
    let mut state = BitrateState::new();
    for i in 0..(BITRATE_HISTORY_SIZE as u32 + 5) {
        state.add_sample(i as u128, i);
    }
    // 5..=19
    assert_eq!(state.average_bitrate(), 12);
    let copy = state.clone();
    assert_eq!(copy.average_bitrate(), 12);
}

#[test]
fn measure_reads_a_clock_that_goes_on() {
    let mut state = BitrateState::new();
    let (now, interval) = state.measure(500);
    assert_eq!(interval, None);
    state.update_with_sr(500, now, 0);
    let mut later = state.measure(1500);
    while later.1.is_none() {
        later = state.measure(1500);
    }
    let (octets, nanos) = later.1.unwrap();
    assert_eq!(octets, 1000);
    assert_eq!(nanos, later.0 - now);
}

#[test]
fn measure_counts_from_one_instant() {
    let mut state = BitrateState::new();
    let start = Instant::now();
    let (first, interval) = state.measure_at(0, start);
    assert_eq!(interval, None);
    state.update_with_sr(0, first, 0);
    let (second, interval) = state.measure_at(125_000, start + Duration::from_secs(1));
    assert_eq!(second - first, SECOND);
    assert_eq!(interval, Some((125_000, SECOND)));
    // an instant before the state was made counts as its beginning
    assert_eq!(state.measure_at(1, start - Duration::from_secs(60)).0, 0);
}
