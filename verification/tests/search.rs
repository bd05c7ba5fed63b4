use route_planner::holder::SystemHolder;
use route_planner::progress::ProgressHolder;
use route_planner::search::arrange;
use route_planner::search::positions_except;
use route_planner::search::SearchError;
use route_planner::shortest::CurrentShortest;
use route_planner::system::System;

fn name(text: &str) -> String {
    text.to_string()
}

/// A registry of the named systems with the given directed distances.
fn universe(names: &[&str], distances: &[(&str, &str, u64)]) -> SystemHolder {
    let mut holder = SystemHolder::new();
    for text in names {
        holder.register_system(&System::new(name(text)));
    }
    for (from, to, distance) in distances {
        let origin = holder.position(&name(from)).unwrap();
        let target = holder.position(&name(to)).unwrap();
        holder.set_distance(origin, target, *distance);
    }
    holder
}

/// A registry of `count` systems in which the distance from the system at
/// `from` to the system at `to` is `distance(from, to)`.
fn dense_universe(count: usize, distance: fn(usize, usize) -> u64) -> SystemHolder {
    let mut holder = SystemHolder::new();
    for index in 0..count {
        holder.register_system(&System::new(format!("S{}", index)));
    }
    for from in 0..count {
        for to in 0..count {
            if from != to {
                holder.set_distance(from, to, distance(from, to));
            }
        }
    }
    holder
}

fn scattered(from: usize, to: usize) -> u64 {
    ((from * 37 + to * 101 + from * to * 13) % 53 + 1) as u64
}

/// Every ordering of `items`, by exchanging in place.
fn all_orderings(items: &mut Vec<usize>, fixed: usize, found: &mut Vec<Vec<usize>>) {
    if fixed == items.len() {
        found.push(items.clone());
        return;
    }
    for next in fixed..items.len() {
        items.swap(fixed, next);
        all_orderings(items, fixed + 1, found);
        items.swap(fixed, next);
    }
}

fn length_by_hand(distance: fn(usize, usize) -> u64, start: usize, route: &[usize]) -> u128 {
    let mut total: u128 = 0;
    let mut origin = start;
    for target in route {
        total += distance(origin, *target) as u128;
        origin = *target;
    }
    total
}

fn names_of(holder: &SystemHolder, record: &CurrentShortest) -> Vec<String> {
    record.ordering().unwrap().iter().map(|position| holder.system(*position).name().clone()).collect()
}

#[test]
fn three_systems_with_directed_distances() {
    let holder = universe(
        &["Start", "X", "Y"],
        &[("Start", "X", 5), ("Start", "Y", 3), ("X", "Y", 2), ("Y", "X", 8)],
    );
    let mut progress = ProgressHolder::new();
    let record = holder.build_shortest_path(&name("Start"), 1, &mut progress).unwrap();
    assert_eq!(names_of(&holder, &record), vec![name("X"), name("Y")]);
    assert_eq!(record.length(), Some(7));
    assert_eq!(holder.route_length(0, &vec![1, 2]), Ok(7));
    assert_eq!(holder.route_length(0, &vec![2, 1]), Ok(11));
}

#[test]
fn three_systems_with_the_same_distance_both_ways() {
    let holder = universe(
        &["Start", "X", "Y"],
        &[("Start", "X", 5), ("Start", "Y", 3), ("X", "Y", 2), ("Y", "X", 2)],
    );
    let mut progress = ProgressHolder::new();
    let record = holder.build_shortest_path(&name("Start"), 1, &mut progress).unwrap();
    assert_eq!(names_of(&holder, &record), vec![name("Y"), name("X")]);
    assert_eq!(record.length(), Some(5));
    assert_eq!(holder.route_length(0, &vec![2, 1]), Ok(5));
    assert_eq!(holder.route_length(0, &vec![1, 2]), Ok(7));
}

#[test]
fn shorter_by_one_wins() {
    let holder = universe(
        &["Start", "X", "Y"],
        &[("Start", "X", 4), ("Start", "Y", 3), ("X", "Y", 2), ("Y", "X", 2)],
    );
    let mut progress = ProgressHolder::new();
    let record = holder.build_shortest_path(&name("Start"), 1, &mut progress).unwrap();
    assert_eq!(names_of(&holder, &record), vec![name("Y"), name("X")]);
    assert_eq!(record.length(), Some(5));
}

#[test]
fn start_need_not_be_registered_first() {
    let holder = universe(
        &["X", "Start", "Y"],
        &[("Start", "X", 5), ("Start", "Y", 3), ("X", "Y", 2), ("Y", "X", 1)],
    );
    let mut progress = ProgressHolder::new();
    let record = holder.build_shortest_path(&name("Start"), 1, &mut progress).unwrap();
    assert_eq!(record.ordering(), Some(&vec![2, 0]));
    assert_eq!(names_of(&holder, &record), vec![name("Y"), name("X")]);
    assert_eq!(record.length(), Some(4));
}

#[test]
fn distances_back_to_the_start_are_not_needed() {
    let holder = universe(&["Start", "X"], &[("Start", "X", 5)]);
    let mut progress = ProgressHolder::new();
    let record = holder.build_shortest_path(&name("Start"), 1, &mut progress).unwrap();
    assert_eq!(record.ordering(), Some(&vec![1]));
    assert_eq!(record.length(), Some(5));
    assert_eq!(progress.completed(), 1);
}

#[test]
fn start_alone_gives_the_empty_route() {
    let holder = universe(&["Start"], &[]);
    let mut progress = ProgressHolder::new();
    let record = holder.build_shortest_path(&name("Start"), 3, &mut progress).unwrap();
    assert_eq!(record.ordering(), Some(&Vec::new()));
    assert_eq!(record.length(), Some(0));
    assert_eq!(progress.total(), Some(1));
    assert_eq!(progress.completed(), 1);
    assert!(progress.is_complete());
}

#[test]
fn search_finds_the_least_of_all_orderings() {
    for count in 2..=7 {
        for start in [0, count / 2, count - 1] {
            let holder = dense_universe(count, scattered);
            let mut others: Vec<usize> = (0..count).filter(|position| *position != start).collect();
            let mut orderings = Vec::new();
            all_orderings(&mut others, 0, &mut orderings);
            let least =
                orderings.iter().map(|route| length_by_hand(scattered, start, route)).min().unwrap();
            let mut progress = ProgressHolder::new();
            let record = holder
                .build_shortest_path(&format!("S{}", start), 1, &mut progress)
                .unwrap();
            assert_eq!(record.length(), Some(least));
            let route = record.ordering().unwrap();
            assert_eq!(length_by_hand(scattered, start, route), least);
            let mut visited = route.clone();
            visited.sort();
            let expected: Vec<usize> = (0..count).filter(|position| *position != start).collect();
            assert_eq!(visited, expected);
            assert_eq!(progress.completed(), orderings.len() as u128);
        }
    }
}

#[test]
fn among_equal_routes_one_of_them_is_returned() {
    fn level(_from: usize, _to: usize) -> u64 {
        4
    }
    let holder = dense_universe(5, level);
    let mut progress = ProgressHolder::new();
    let record = holder.build_shortest_path(&name("S0"), 1, &mut progress).unwrap();
    assert_eq!(record.length(), Some(16));
    let mut visited = record.ordering().unwrap().clone();
    visited.sort();
    assert_eq!(visited, vec![1, 2, 3, 4]);
}

#[test]
fn lengths_beyond_64_bits_are_added_exactly() {
    let holder = universe(
        &["Start", "X", "Y"],
        &[
            ("Start", "X", u64::MAX),
            ("Start", "Y", u64::MAX),
            ("X", "Y", u64::MAX),
            ("Y", "X", u64::MAX - 1),
        ],
    );
    let mut progress = ProgressHolder::new();
    let record = holder.build_shortest_path(&name("Start"), 1, &mut progress).unwrap();
    assert_eq!(record.length(), Some(2 * (u64::MAX as u128) - 1));
    assert_eq!(record.ordering(), Some(&vec![2, 1]));
    assert_eq!(holder.route_length(0, &vec![1, 2]), Ok(2 * (u64::MAX as u128)));
}

#[test]
fn final_report_is_the_total_for_every_step() {
    let holder = dense_universe(5, scattered);
    for step in [1, 2, 5, 23, 24, 25, 1000, usize::MAX] {
        let mut progress = ProgressHolder::new();
        let outcome = holder.build_shortest_path(&name("S0"), step, &mut progress);
        assert!(outcome.is_ok());
        assert_eq!(progress.total(), Some(24));
        assert_eq!(progress.completed(), 24);
        assert!(progress.is_complete());
    }
}

#[test]
fn progress_is_reported_every_step_and_at_the_end() {
    let holder = dense_universe(4, scattered);
    let expected: [(usize, u128); 8] =
        [(1, 7), (2, 4), (3, 3), (4, 3), (5, 3), (6, 2), (7, 2), (1000, 2)];
    for (step, reports) in expected {
        let mut progress = ProgressHolder::new();
        let outcome = holder.build_shortest_path(&name("S2"), step, &mut progress);
        assert!(outcome.is_ok());
        assert_eq!(progress.reports_received(), reports);
        assert_eq!(progress.completed(), 6);
    }
}

#[test]
fn failing_search_reports_no_completion() {
    let mut holder = SystemHolder::new();
    for text in ["Start", "X", "Y"] {
        holder.register_system(&System::new(name(text)));
    }
    let mut progress = ProgressHolder::new();
    let outcome = holder.build_shortest_path(&name("Start"), 1, &mut progress);
    assert!(outcome.is_err());
    assert_eq!(progress.total(), Some(2));
    assert_eq!(progress.reports_received(), 1);
    assert_eq!(progress.completed(), 0);
    assert!(!progress.is_complete());
}

#[test]
fn search_resets_the_progress_it_is_given() {
    let holder = dense_universe(4, scattered);
    let mut progress = ProgressHolder::new();
    progress.reset(Some(1_000));
    progress.feedback(999);
    let outcome = holder.build_shortest_path(&name("S1"), 4, &mut progress);
    assert!(outcome.is_ok());
    assert_eq!(progress.total(), Some(6));
    assert_eq!(progress.completed(), 6);
}

#[test]
fn zero_feedback_step_is_refused() {
    let holder = dense_universe(3, scattered);
    let mut progress = ProgressHolder::new();
    progress.reset(Some(77));
    progress.feedback(5);
    let outcome = holder.build_shortest_path(&name("S0"), 0, &mut progress);
    assert_eq!(outcome.err(), Some(SearchError::ZeroFeedbackStep));
    assert_eq!(progress.total(), Some(77));
    assert_eq!(progress.completed(), 5);
}

#[test]
fn missing_distance_fails_the_search() {
    let holder = universe(
        &["Start", "X", "Y"],
        &[("Start", "X", 5), ("Start", "Y", 3), ("X", "Y", 2)],
    );
    let mut progress = ProgressHolder::new();
    let outcome = holder.build_shortest_path(&name("Start"), 1, &mut progress);
    assert_eq!(
        outcome.err(),
        Some(SearchError::MissingDistance { from: name("Y"), to: name("X") })
    );
    assert!(!progress.is_complete());
}

#[test]
fn missing_distance_from_the_start_fails_the_search() {
    let holder = universe(&["Start", "X", "Y"], &[("Start", "X", 5), ("X", "Y", 2), ("Y", "X", 2)]);
    let mut progress = ProgressHolder::new();
    let outcome = holder.build_shortest_path(&name("Start"), 1, &mut progress);
    assert_eq!(
        outcome.err(),
        Some(SearchError::MissingDistance { from: name("Start"), to: name("Y") })
    );
}

#[test]
fn one_missing_distance_among_many_fails_the_search() {
    let count: usize = 6;
    for (absent_from, absent_to) in [(0, 3), (2, 5), (5, 1), (4, 2)] {
        let mut holder = SystemHolder::new();
        for index in 0..count {
            holder.register_system(&System::new(format!("S{}", index)));
        }
        for from in 0..count {
            for to in 0..count {
                if from != to && (from, to) != (absent_from, absent_to) {
                    holder.set_distance(from, to, scattered(from, to));
                }
            }
        }
        let mut progress = ProgressHolder::new();
        let outcome = holder.build_shortest_path(&name("S0"), 7, &mut progress);
        assert_eq!(
            outcome.err(),
            Some(SearchError::MissingDistance {
                from: format!("S{}", absent_from),
                to: format!("S{}", absent_to),
            })
        );
    }
}

#[test]
fn missing_distance_to_the_start_does_not_matter() {
    let count: usize = 4;
    let mut holder = SystemHolder::new();
    for index in 0..count {
        holder.register_system(&System::new(format!("S{}", index)));
    }
    for from in 0..count {
        for to in 1..count {
            if from != to {
                holder.set_distance(from, to, scattered(from, to));
            }
        }
    }
    let mut progress = ProgressHolder::new();
    assert!(holder.build_shortest_path(&name("S0"), 1, &mut progress).is_ok());
}

#[test]
fn route_length_adds_the_hops() {
    let holder = universe(
        &["A", "B", "C", "D"],
        &[("A", "B", 1), ("B", "C", 10), ("C", "D", 100), ("D", "B", 1000), ("B", "A", 7)],
    );
    assert_eq!(holder.route_length(0, &Vec::new()), Ok(0));
    assert_eq!(holder.route_length(0, &vec![1]), Ok(1));
    assert_eq!(holder.route_length(0, &vec![1, 2, 3]), Ok(111));
    assert_eq!(holder.route_length(2, &vec![3, 1, 0]), Ok(1107));
}

#[test]
fn route_length_names_the_first_unknown_hop() {
    let holder = universe(&["A", "B", "C", "D"], &[("A", "B", 1), ("C", "D", 100)]);
    assert_eq!(
        holder.route_length(0, &vec![1, 2, 3]),
        Err(SearchError::MissingDistance { from: name("B"), to: name("C") })
    );
    assert_eq!(
        holder.route_length(0, &vec![3, 2, 1]),
        Err(SearchError::MissingDistance { from: name("A"), to: name("D") })
    );
    assert_eq!(
        holder.route_length(1, &vec![1]),
        Err(SearchError::MissingDistance { from: name("B"), to: name("B") })
    );
}

#[test]
fn positions_except_leaves_out_the_start() {
    assert_eq!(positions_except(1, 0), Vec::<usize>::new());
    assert_eq!(positions_except(4, 0), vec![1, 2, 3]);
    assert_eq!(positions_except(4, 2), vec![0, 1, 3]);
    assert_eq!(positions_except(4, 3), vec![0, 1, 2]);
}

#[test]
fn arrange_visits_the_pool_in_the_given_ordering() {
    let pool = vec![10, 20, 30];
    assert_eq!(arrange(&pool, &vec![2, 0, 1]), vec![30, 10, 20]);
    assert_eq!(arrange(&pool, &vec![0, 1, 2]), vec![10, 20, 30]);
    assert_eq!(arrange(&pool, &Vec::new()), Vec::<usize>::new());
    assert_eq!(arrange(&pool, &vec![1, 1]), vec![20, 20]);
}

#[test]
fn try_ordering_offers_the_route_to_the_record() {
    let holder = universe(
        &["Start", "X", "Y"],
        &[("Start", "X", 5), ("Start", "Y", 3), ("X", "Y", 2), ("Y", "X", 1)],
    );
    let pool = positions_except(3, 0);
    let mut record = CurrentShortest::new();
    assert_eq!(holder.try_ordering(0, &pool, &vec![0, 1], &mut record), Ok(()));
    assert_eq!(record.ordering(), Some(&vec![1, 2]));
    assert_eq!(record.length(), Some(7));
    assert_eq!(holder.try_ordering(0, &pool, &vec![1, 0], &mut record), Ok(()));
    assert_eq!(record.ordering(), Some(&vec![2, 1]));
    assert_eq!(record.length(), Some(4));
    assert_eq!(holder.try_ordering(0, &pool, &vec![0, 1], &mut record), Ok(()));
    assert_eq!(record.ordering(), Some(&vec![2, 1]));
    assert_eq!(record.length(), Some(4));
}

#[test]
fn try_ordering_leaves_the_record_alone_when_a_distance_is_missing() {
    let holder = universe(&["Start", "X", "Y"], &[("Start", "X", 5), ("Start", "Y", 3), ("X", "Y", 2)]);
    let pool = positions_except(3, 0);
    let mut record = CurrentShortest::new();
    assert_eq!(holder.try_ordering(0, &pool, &vec![0, 1], &mut record), Ok(()));
    assert_eq!(
        holder.try_ordering(0, &pool, &vec![1, 0], &mut record),
        Err(SearchError::MissingDistance { from: name("Y"), to: name("X") })
    );
    assert_eq!(record.ordering(), Some(&vec![1, 2]));
    assert_eq!(record.length(), Some(7));
}
