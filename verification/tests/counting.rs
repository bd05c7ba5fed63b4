use route_planner::counting::checked_factorial;
use route_planner::counting::LARGEST_REPRESENTABLE;
use route_planner::holder::SystemHolder;
use route_planner::system::System;

fn holder_of_size(count: usize) -> SystemHolder {
    let mut holder = SystemHolder::new();
    for index in 0..count {
        holder.register_system(&System::new(format!("S{}", index)));
    }
    holder
}

#[test]
fn small_factorials() {
    assert_eq!(checked_factorial(0), Some(1));
    assert_eq!(checked_factorial(1), Some(1));
    assert_eq!(checked_factorial(2), Some(2));
    assert_eq!(checked_factorial(3), Some(6));
    assert_eq!(checked_factorial(5), Some(120));
    assert_eq!(checked_factorial(10), Some(3_628_800));
    assert_eq!(checked_factorial(20), Some(2_432_902_008_176_640_000));
}

#[test]
fn factorials_follow_the_recurrence() {
    let mut expected: u128 = 1;
    for n in 1..=LARGEST_REPRESENTABLE {
        expected *= n as u128;
        assert_eq!(checked_factorial(n), Some(expected));
    }
}

#[test]
fn largest_factorial_that_fits() {
    assert_eq!(LARGEST_REPRESENTABLE, 34);
    assert_eq!(
        checked_factorial(34),
        Some(295_232_799_039_604_140_847_618_609_643_520_000_000)
    );
}

#[test]
fn factorial_that_does_not_fit() {
    assert_eq!(checked_factorial(35), None);
    assert_eq!(checked_factorial(36), None);
    assert_eq!(checked_factorial(128), None);
    assert_eq!(checked_factorial(129), None);
    assert_eq!(checked_factorial(100_000), None);
    assert_eq!(checked_factorial(usize::MAX), None);
}

#[test]
fn size_hint_is_the_factorial_of_the_others() {
    let expected: [u128; 7] = [1, 1, 2, 6, 24, 120, 720];
    for count in 1..=7 {
        let holder = holder_of_size(count);
        assert_eq!(holder.permutation_size_hint(), Some(expected[count - 1]));
    }
}

#[test]
fn size_hint_of_a_large_registry() {
    assert_eq!(
        holder_of_size(35).permutation_size_hint(),
        Some(295_232_799_039_604_140_847_618_609_643_520_000_000)
    );
    assert_eq!(holder_of_size(36).permutation_size_hint(), None);
    assert_eq!(holder_of_size(200).permutation_size_hint(), None);
}
