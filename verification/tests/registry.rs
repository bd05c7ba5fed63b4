use route_planner::holder::SystemHolder;
use route_planner::holder::SystemPair;
use route_planner::route::Route;
use route_planner::system::System;

fn name(text: &str) -> String {
    text.to_string()
}

fn holder_of(names: &[&str]) -> SystemHolder {
    let mut holder = SystemHolder::new();
    for text in names {
        holder.register_system(&System::new(name(text)));
    }
    holder
}

#[test]
fn new_registry_is_empty() {
    let holder = SystemHolder::new();
    assert_eq!(holder.len(), 0);
    assert_eq!(holder.position(&name("Jita")), None);
    assert!(holder.all_inter_systems_iter().is_empty());
}

#[test]
fn registered_systems_keep_their_positions() {
    let holder = holder_of(&["Jita", "Amarr", "Rens"]);
    assert_eq!(holder.len(), 3);
    assert_eq!(holder.position(&name("Jita")), Some(0));
    assert_eq!(holder.position(&name("Amarr")), Some(1));
    assert_eq!(holder.position(&name("Rens")), Some(2));
    assert_eq!(holder.position(&name("Dodixie")), None);
    assert_eq!(holder.system(1).name(), "Amarr");
    assert_eq!(holder.get(&name("Rens")).name(), "Rens");
}

#[test]
fn registering_a_name_again_overwrites_the_entry() {
    let mut holder = SystemHolder::new();
    let mut first = System::new(name("Jita"));
    first.set_distance_to(name("Amarr"), 9);
    first.set_distance_to(name("Rens"), 20);
    holder.register_system(&first);
    holder.register_system(&System::new(name("Amarr")));
    let mut second = System::new(name("Jita"));
    second.set_distance_to(name("Amarr"), 7);
    holder.register_system(&second);
    assert_eq!(holder.len(), 2);
    assert_eq!(holder.position(&name("Jita")), Some(0));
    assert_eq!(holder.position(&name("Amarr")), Some(1));
    let held = holder.get(&name("Jita"));
    assert_eq!(held.get_distance_to(&name("Amarr")), Some(7));
    assert_eq!(held.get_distance_to(&name("Rens")), None);
}

#[test]
fn registry_holds_a_copy_of_the_system() {
    let mut holder = SystemHolder::new();
    let mut system = System::new(name("Jita"));
    holder.register_system(&system);
    system.set_distance_to(name("Amarr"), 9);
    assert_eq!(holder.get(&name("Jita")).get_distance_to(&name("Amarr")), None);
}

#[test]
fn route_is_registered_first_to_last() {
    let mut early = System::new(name("Jita"));
    early.set_distance_to(name("Amarr"), 1);
    let mut late = System::new(name("Jita"));
    late.set_distance_to(name("Amarr"), 2);
    let route = Route::new(vec![early, System::new(name("Amarr")), late, System::new(name("Rens"))])
        .unwrap();
    let mut holder = holder_of(&["Dodixie"]);
    holder.register_route(&route);
    assert_eq!(holder.len(), 4);
    assert_eq!(holder.position(&name("Dodixie")), Some(0));
    assert_eq!(holder.position(&name("Jita")), Some(1));
    assert_eq!(holder.position(&name("Amarr")), Some(2));
    assert_eq!(holder.position(&name("Rens")), Some(3));
    assert_eq!(holder.get(&name("Jita")).get_distance_to(&name("Amarr")), Some(2));
}

#[test]
fn known_distance_is_returned_exactly() {
    let mut origin = System::new(name("Jita"));
    origin.set_distance_to(name("Amarr"), 9);
    let mut holder = SystemHolder::new();
    holder.register_system(&origin);
    holder.register_system(&System::new(name("Amarr")));
    assert_eq!(holder.distance_between(&name("Jita"), &name("Amarr")), Some(9));
    assert_eq!(holder.distance_between(&name("Amarr"), &name("Jita")), None);
}

#[test]
fn unregistered_pair_is_unknown() {
    let mut origin = System::new(name("Jita"));
    origin.set_distance_to(name("Amarr"), 9);
    origin.set_distance_to(name("Rens"), 0);
    let mut holder = SystemHolder::new();
    holder.register_system(&origin);
    assert_eq!(holder.distance_between(&name("Jita"), &name("Amarr")), None);
    assert_eq!(holder.distance_between(&name("Amarr"), &name("Jita")), None);
    assert_eq!(holder.distance_between(&name("Amarr"), &name("Rens")), None);
    holder.register_system(&System::new(name("Rens")));
    assert_eq!(holder.distance_between(&name("Jita"), &name("Rens")), Some(0));
}

#[test]
fn distance_is_written_into_the_registered_system() {
    let mut holder = holder_of(&["Jita", "Amarr", "Rens"]);
    holder.set_distance(0, 2, 25);
    holder.set_distance(2, 0, 26);
    assert_eq!(holder.system(0).get_distance_to(&name("Rens")), Some(25));
    assert_eq!(holder.system(2).get_distance_to(&name("Jita")), Some(26));
    assert_eq!(holder.distance_between(&name("Jita"), &name("Rens")), Some(25));
    assert_eq!(holder.distance_between(&name("Rens"), &name("Jita")), Some(26));
    assert_eq!(holder.distance_between(&name("Jita"), &name("Amarr")), None);
    holder.set_distance(0, 2, 24);
    assert_eq!(holder.distance_between(&name("Jita"), &name("Rens")), Some(24));
    assert_eq!(holder.len(), 3);
    assert_eq!(holder.position(&name("Rens")), Some(2));
}

#[test]
fn pairs_of_four_systems() {
    let holder = holder_of(&["A", "B", "C", "D"]);
    let pairs = holder.all_inter_systems_iter();
    let expected = vec![
        SystemPair { first: 0, second: 1 },
        SystemPair { first: 0, second: 2 },
        SystemPair { first: 0, second: 3 },
        SystemPair { first: 1, second: 2 },
        SystemPair { first: 1, second: 3 },
        SystemPair { first: 2, second: 3 },
    ];
    assert_eq!(pairs, expected);
}

#[test]
fn pairs_of_few_systems() {
    assert!(holder_of(&["A"]).all_inter_systems_iter().is_empty());
    assert_eq!(
        holder_of(&["A", "B"]).all_inter_systems_iter(),
        vec![SystemPair { first: 0, second: 1 }]
    );
}

#[test]
fn pairs_cover_every_two_systems_once() {
    let count: usize = 9;
    let names: Vec<String> = (0..count).map(|i| format!("S{}", i)).collect();
    let mut holder = SystemHolder::new();
    for text in &names {
        holder.register_system(&System::new(text.clone()));
    }
    let pairs = holder.all_inter_systems_iter();
    assert_eq!(pairs.len(), count * (count - 1) / 2);
    for first in 0..count {
        for second in (first + 1)..count {
            let found = pairs.iter().filter(|pair| pair.first == first && pair.second == second);
            assert_eq!(found.count(), 1);
        }
    }
    for pair in &pairs {
        assert!(pair.first < pair.second);
        assert!(pair.second < count);
    }
}

#[test]
fn pairs_are_a_snapshot() {
    let mut holder = holder_of(&["A", "B"]);
    let pairs = holder.all_inter_systems_iter();
    holder.register_system(&System::new(name("C")));
    assert_eq!(pairs.len(), 1);
    assert_eq!(holder.all_inter_systems_iter().len(), 3);
}
