use route_planner::progress::ProgressHolder;
use route_planner::shortest::CurrentShortest;

#[test]
fn new_record_holds_nothing() {
    let record = CurrentShortest::new();
    assert_eq!(record.ordering(), None);
    assert_eq!(record.length(), None);
}

#[test]
fn first_route_is_kept() {
    let mut record = CurrentShortest::new();
    record.register(&vec![2, 1], u128::MAX);
    assert_eq!(record.ordering(), Some(&vec![2, 1]));
    assert_eq!(record.length(), Some(u128::MAX));
}

#[test]
fn registering_the_same_route_twice_changes_nothing() {
    let mut record = CurrentShortest::new();
    record.register(&vec![1, 2, 3], 10);
    record.register(&vec![1, 2, 3], 10);
    assert_eq!(record.ordering(), Some(&vec![1, 2, 3]));
    assert_eq!(record.length(), Some(10));
    record.register(&vec![3, 2, 1], 4);
    record.register(&vec![3, 2, 1], 4);
    assert_eq!(record.ordering(), Some(&vec![3, 2, 1]));
    assert_eq!(record.length(), Some(4));
}

#[test]
fn shorter_route_replaces_longer() {
    let mut record = CurrentShortest::new();
    record.register(&vec![1, 2], 7);
    record.register(&vec![2, 1], 5);
    assert_eq!(record.ordering(), Some(&vec![2, 1]));
    assert_eq!(record.length(), Some(5));
}

#[test]
fn longer_route_is_ignored() {
    let mut record = CurrentShortest::new();
    record.register(&vec![2, 1], 5);
    record.register(&vec![1, 2], 7);
    assert_eq!(record.ordering(), Some(&vec![2, 1]));
    assert_eq!(record.length(), Some(5));
}

#[test]
fn equal_route_keeps_the_first_seen() {
    let mut record = CurrentShortest::new();
    record.register(&vec![2, 1], 5);
    record.register(&vec![1, 2], 5);
    assert_eq!(record.ordering(), Some(&vec![2, 1]));
    assert_eq!(record.length(), Some(5));
}

#[test]
fn record_is_a_running_minimum() {
    let lengths: [u128; 8] = [40, 35, 36, 35, 12, 90, 12, 13];
    let mut record = CurrentShortest::new();
    let mut least = u128::MAX;
    let mut first_of_least = 0;
    for (index, length) in lengths.iter().enumerate() {
        record.register(&vec![index], *length);
        if *length < least {
            least = *length;
            first_of_least = index;
        }
        assert_eq!(record.length(), Some(least));
        assert_eq!(record.ordering(), Some(&vec![first_of_least]));
    }
    assert_eq!(record.length(), Some(12));
    assert_eq!(record.ordering(), Some(&vec![4]));
}

#[test]
fn empty_route_of_length_zero_is_a_route() {
    let mut record = CurrentShortest::new();
    record.register(&Vec::new(), 0);
    assert_eq!(record.ordering(), Some(&Vec::new()));
    assert_eq!(record.length(), Some(0));
    record.register(&vec![1], 0);
    assert_eq!(record.ordering(), Some(&Vec::new()));
}

#[test]
fn record_copies_the_route() {
    let mut route = vec![1, 2];
    let mut record = CurrentShortest::new();
    record.register(&route, 3);
    route.push(9);
    assert_eq!(record.ordering(), Some(&vec![1, 2]));
}

#[test]
fn new_progress_has_nothing_reported() {
    let progress = ProgressHolder::new();
    assert_eq!(progress.total(), None);
    assert_eq!(progress.completed(), 0);
    assert!(!progress.is_complete());
}

#[test]
fn progress_keeps_the_last_report() {
    let mut progress = ProgressHolder::new();
    progress.reset(Some(24));
    assert_eq!(progress.total(), Some(24));
    progress.feedback(0);
    assert_eq!(progress.completed(), 0);
    progress.feedback(10);
    assert_eq!(progress.completed(), 10);
    assert!(!progress.is_complete());
    progress.feedback(24);
    assert_eq!(progress.completed(), 24);
    assert_eq!(progress.total(), Some(24));
    assert!(progress.is_complete());
}

#[test]
fn progress_counts_its_reports() {
    let mut progress = ProgressHolder::new();
    assert_eq!(progress.reports_received(), 0);
    progress.feedback(0);
    progress.feedback(0);
    progress.feedback(7);
    assert_eq!(progress.reports_received(), 3);
    progress.reset(Some(2));
    assert_eq!(progress.reports_received(), 0);
    progress.feedback(2);
    assert_eq!(progress.reports_received(), 1);
}

#[test]
fn reset_forgets_the_reports() {
    let mut progress = ProgressHolder::new();
    progress.reset(Some(6));
    progress.feedback(6);
    progress.reset(Some(120));
    assert_eq!(progress.completed(), 0);
    assert_eq!(progress.total(), Some(120));
    assert!(!progress.is_complete());
}

#[test]
fn unrepresentable_total_is_complete_at_the_largest_count() {
    let mut progress = ProgressHolder::new();
    progress.reset(None);
    progress.feedback(1_000_000);
    assert!(!progress.is_complete());
    progress.feedback(u128::MAX);
    assert!(progress.is_complete());
}
