use std::time::Instant;
use track_local::loss_stats::{ReceiverLossStats, ReduceIncrease};

#[test]
fn no_reports_allow_an_increase() {
    let mut stats = ReceiverLossStats::new();
    assert_eq!(stats.worst_fraction_lost, 0);
    assert_eq!(stats.average_fraction_lost, 0);
    assert_eq!(stats.should_reduce(), ReduceIncrease::Increase);
    stats.recalculate_aggregates();
    assert_eq!(stats.worst_fraction_lost, 0);
}

#[test]
fn worst_and_mean_follow_the_reports() {
    let mut stats = ReceiverLossStats::new();
    assert!(stats.can_update(1, 10));
    stats.update_with_rr(1, 10, 100);
    stats.update_with_rr(2, 25, -3);
    stats.update_with_rr(3, 0, 0);
    assert_eq!(stats.worst_fraction_lost, 25);
    assert_eq!(stats.average_fraction_lost, 11);
}

#[test]
fn last_report_of_a_receiver_counts() {
    let mut stats = ReceiverLossStats::new();
    stats.update_with_rr(1, 200, 0);
    stats.update_with_rr(1, 4, 0);
    assert_eq!(stats.worst_fraction_lost, 4);
    assert_eq!(stats.average_fraction_lost, 4);
}

#[test]
fn reports_in_another_order_come_to_the_same() {
    let mut a = ReceiverLossStats::new();
    a.update_with_rr(1, 7, 0);
    a.update_with_rr(9, 90, 0);
    let mut b = ReceiverLossStats::new();
    b.update_with_rr(9, 90, 0);
    b.update_with_rr(1, 7, 0);
    assert_eq!(a.worst_fraction_lost, b.worst_fraction_lost);
    assert_eq!(a.average_fraction_lost, b.average_fraction_lost);
    assert!(a.average_fraction_lost <= a.worst_fraction_lost);
}

#[test]
fn verdict_follows_the_worst_loss() {
    let verdict = |fractions: &[u8]| {
        let mut stats = ReceiverLossStats::new();
        for (i, fraction) in fractions.iter().enumerate() {
            stats.update_with_rr(i as u32, *fraction, 0);
        }
        stats.should_reduce()
    };
    assert_eq!(verdict(&[2]), ReduceIncrease::Increase);
    assert_eq!(verdict(&[3]), ReduceIncrease::NoChange);
    assert_eq!(verdict(&[10]), ReduceIncrease::NoChange);
    assert_eq!(verdict(&[11]), ReduceIncrease::Reduce(20));
    assert_eq!(verdict(&[20]), ReduceIncrease::Reduce(20));
    assert_eq!(verdict(&[21]), ReduceIncrease::Reduce(21));
    assert_eq!(verdict(&[255]), ReduceIncrease::Reduce(255));
    // the worst decides whether, the mean by how much
    assert_eq!(verdict(&[100, 0, 0, 0]), ReduceIncrease::Reduce(25));
}

#[test]
fn computing_anew_changes_nothing() {
    let mut stats = ReceiverLossStats::new();
    let now = Instant::now();
    stats.update_with_rr_at(1, 30, 1, now);
    stats.update_with_rr_at(2, 11, 1, now);
    let before = format!("{:?}", stats);
    stats.recalculate_aggregates();
    assert_eq!(format!("{:?}", stats), before);
    assert_eq!(stats.worst_fraction_lost, 30);
    assert_eq!(stats.average_fraction_lost, 20);
}

#[test]
fn report_is_kept_with_the_time_it_came_at() {
    let now = Instant::now();
    let later = now + std::time::Duration::from_secs(5);
    let shown = |at: Instant| {
        let mut stats = ReceiverLossStats::new();
        stats.update_with_rr_at(1, 30, 1, at);
        format!("{:?}", stats)
    };
    assert_eq!(shown(now).matches(&format!("{:?}", now)).count(), 2);
    assert_eq!(shown(later).matches(&format!("{:?}", later)).count(), 2);
}
