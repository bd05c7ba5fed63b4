//! The registry of all known systems.

use crate::enumeration::enumerate_pairings;
use crate::enumeration::lemma_pairings;
use crate::enumeration::pairings;
use crate::route::Route;
use crate::system::views;
use crate::system::System;
use crate::system::SystemView;
use vstd::prelude::*;

verus! {

/// No two systems of the registry have the same name.
pub open spec fn names_distinct(registry: Seq<SystemView>) -> bool {
    forall|i: int, j: int|
        0 <= i < j < registry.len() ==> (#[trigger] registry[i]).name != (
        #[trigger] registry[j]).name
}

/// The registry holds a system of that name.
pub open spec fn is_registered(registry: Seq<SystemView>, name: Seq<char>) -> bool {
    exists|i: int| 0 <= i < registry.len() && (#[trigger] registry[i]).name == name
}

/// Where in the registry the system of that name stands.
pub open spec fn position_of(registry: Seq<SystemView>, name: Seq<char>) -> int {
    choose|i: int| 0 <= i < registry.len() && (#[trigger] registry[i]).name == name
}

/// The registry once `system` was registered: it stands where a system of
/// its name stood before, or, if there was none, at the end.
pub open spec fn with_system(registry: Seq<SystemView>, system: SystemView) -> Seq<SystemView> {
    if is_registered(registry, system.name) {
        registry.update(position_of(registry, system.name), system)
    } else {
        registry.push(system)
    }
}

/// The registry once each of `systems` was registered, first to last.
pub open spec fn with_systems(registry: Seq<SystemView>, systems: Seq<SystemView>) -> Seq<
    SystemView,
>
    decreases systems.len(),
{
    if systems.len() == 0 {
        registry
    } else {
        with_system(with_systems(registry, systems.drop_last()), systems.last())
    }
}

/// The distance that the registry knows from the system named `from` to the
/// system named `to`: there is none unless both are registered and the first
/// holds a distance to the second.
pub open spec fn known_distance(registry: Seq<SystemView>, from: Seq<char>, to: Seq<char>) -> Option<
    u64,
> {
    if is_registered(registry, from) && is_registered(registry, to) && registry[position_of(
        registry,
        from,
    )].distances.dom().contains(to) {
        Some(registry[position_of(registry, from)].distances[to])
    } else {
        None
    }
}

/// Two systems of the registry, by position, the lower position first.
#[derive(Clone, Copy, Debug, PartialEq, Eq, Structural)]
pub struct SystemPair {
    pub first: usize,
    pub second: usize,
}

/// Every pair of two different systems of a registry of `count` systems.
pub open spec fn system_pairs(count: nat) -> Seq<SystemPair> {
    pairings(count).map_values(|pair: (usize, usize)| SystemPair { first: pair.0, second: pair.1 })
}

/// All known systems, each under its name. A system is found by its name or
/// by its position, which it keeps for as long as the registry lives.
#[derive(Debug)]
pub struct SystemHolder {
    systems: Vec<System>,
}

impl View for SystemHolder {
    type V = Seq<SystemView>;

    closed spec fn view(&self) -> Seq<SystemView> {
        views(self.systems@)
    }
}

/// In a registry of distinct names, a name is found at one position only.
pub proof fn lemma_position_is_unique(registry: Seq<SystemView>, position: int)
    requires
        names_distinct(registry),
        0 <= position < registry.len(),
    ensures
        is_registered(registry, registry[position].name),
        position_of(registry, registry[position].name) == position,
{
    let name = registry[position].name;
    assert(registry[position].name == name);
    let found = position_of(registry, name);
    if found < position {
        assert(registry[found].name != registry[position].name);
    } else if position < found {
        assert(registry[position].name != registry[found].name);
    }
}

/// Registering a system keeps the names of the registry distinct, and makes
/// the system the one that is found under its name.
pub proof fn lemma_with_system(registry: Seq<SystemView>, system: SystemView)
    requires
        names_distinct(registry),
    ensures
        names_distinct(with_system(registry, system)),
        is_registered(with_system(registry, system), system.name),
        with_system(registry, system)[position_of(with_system(registry, system), system.name)]
            == system,
        forall|name: Seq<char>|
            is_registered(registry, name) ==> is_registered(with_system(registry, system), name),
{
    let after = with_system(registry, system);
    let at = if is_registered(registry, system.name) {
        position_of(registry, system.name)
    } else {
        registry.len() as int
    };
    assert(after[at] == system);
    assert forall|i: int, j: int| 0 <= i < j < after.len() implies (#[trigger] after[i]).name != (
    #[trigger] after[j]).name by {
        if is_registered(registry, system.name) {
            assert(after[i].name == registry[i].name);
            assert(after[j].name == registry[j].name);
        } else if j == registry.len() {
            assert(registry[i].name != system.name);
        }
    }
    lemma_position_is_unique(after, at);
    assert forall|name: Seq<char>| is_registered(registry, name) implies is_registered(
        after,
        name,
    ) by {
        let i = position_of(registry, name);
        assert(after[i].name == name);
    }
}

/// Registering the same system twice leaves the registry as the first
/// registration left it.
pub proof fn lemma_with_system_twice(registry: Seq<SystemView>, system: SystemView)
    requires
        names_distinct(registry),
    ensures
        with_system(with_system(registry, system), system) == with_system(registry, system),
{
    let once = with_system(registry, system);
    lemma_with_system(registry, system);
    assert(once.update(position_of(once, system.name), system) =~= once);
}

/// Of two systems of one name registered one after the other, the registry
/// keeps the second: the last registration wins.
pub proof fn lemma_last_registration_wins(
    registry: Seq<SystemView>,
    earlier: SystemView,
    later: SystemView,
)
    requires
        names_distinct(registry),
        earlier.name == later.name,
    ensures
        with_system(with_system(registry, earlier), later) == with_system(registry, later),
{
    let once = with_system(registry, earlier);
    lemma_with_system(registry, earlier);
    let at = position_of(once, earlier.name);
    if is_registered(registry, earlier.name) {
        let before = position_of(registry, earlier.name);
        assert(once[before] == earlier);
        lemma_position_is_unique(once, before);
        assert(once.update(at, later) =~= registry.update(before, later));
    } else {
        assert(once[registry.len() as int] == earlier);
        lemma_position_is_unique(once, registry.len() as int);
        assert(once.update(at, later) =~= registry.push(later));
    }
}

/// Registering a list of systems keeps the names of the registry distinct,
/// and leaves each of the listed names registered.
pub proof fn lemma_with_systems(registry: Seq<SystemView>, systems: Seq<SystemView>)
    requires
        names_distinct(registry),
    ensures
        names_distinct(with_systems(registry, systems)),
        forall|i: int|
            0 <= i < systems.len() ==> is_registered(
                with_systems(registry, systems),
                (#[trigger] systems[i]).name,
            ),
    decreases systems.len(),
{
    if systems.len() > 0 {
        let earlier = with_systems(registry, systems.drop_last());
        lemma_with_systems(registry, systems.drop_last());
        lemma_with_system(earlier, systems.last());
        assert forall|i: int| 0 <= i < systems.len() implies is_registered(
            with_systems(registry, systems),
            (#[trigger] systems[i]).name,
        ) by {
            if i < systems.len() - 1 {
                assert(systems.drop_last()[i] == systems[i]);
            }
        }
    }
}

/// Once two systems of different names are registered, the distance known
/// from the first to the second is the one that the first holds for the
/// second's name; where it holds none, none is known.
pub proof fn lemma_registered_distance(
    registry: Seq<SystemView>,
    origin: SystemView,
    target: SystemView,
)
    requires
        names_distinct(registry),
        origin.name != target.name,
    ensures
        known_distance(
            with_system(with_system(registry, origin), target),
            origin.name,
            target.name,
        ) == (if origin.distances.dom().contains(target.name) {
            Some(origin.distances[target.name])
        } else {
            None
        }),
{
    let first = with_system(registry, origin);
    let second = with_system(first, target);
    lemma_with_system(registry, origin);
    lemma_with_system(first, target);
    let at = position_of(first, origin.name);
    if is_registered(first, target.name) {
        let replaced = position_of(first, target.name);
        assert(first[replaced].name == target.name);
        assert(replaced != at);
    }
    assert(second[at] == origin);
    lemma_position_is_unique(second, at);
}

/// The pairs of the systems of a registry are the pairs of two different
/// positions, the lower one first, each once, and there are
/// `count * (count - 1) / 2` of them.
pub proof fn lemma_system_pairs(count: nat)
    requires
        count <= usize::MAX,
    ensures
        forall|i: int|
            0 <= i < system_pairs(count).len() ==> (#[trigger] system_pairs(count)[i]).first
                < system_pairs(count)[i].second < count,
        forall|first: usize, second: usize|
            first < second < count ==> #[trigger] system_pairs(count).contains(
                (SystemPair { first, second }),
            ),
        system_pairs(count).no_duplicates(),
        2 * system_pairs(count).len() == count * (count - 1),
{
    let pairs = system_pairs(count);
    lemma_pairings(count);
    assert forall|first: usize, second: usize| first < second < count implies #[trigger] pairs.contains(
        (SystemPair { first, second }),
    ) by {
        assert(pairings(count).contains((first, second)));
        let i = choose|i: int| 0 <= i < pairings(count).len() && pairings(count)[i] == (first, second);
        assert(pairs[i] == SystemPair { first, second });
    }
    assert forall|i: int, j: int| 0 <= i < pairs.len() && 0 <= j < pairs.len() && i != j implies pairs[i]
        != pairs[j] by {
        if i < j {
            assert(pairings(count)[i] != pairings(count)[j]);
        } else {
            assert(pairings(count)[j] != pairings(count)[i]);
        }
    }
}

fn find_system(systems: &Vec<System>, name: &String) -> (found: Option<usize>)
    ensures
        match found {
            Some(position) => position < systems.len() && systems@[position as int]@.name
                == name@,
            None => !is_registered(views(systems@), name@),
        },
{
    let mut i: usize = 0;
    while i < systems.len()
        invariant
            0 <= i <= systems.len(),
            forall|j: int| 0 <= j < i ==> (#[trigger] views(systems@)[j]).name != name@,
        decreases systems.len() - i,
    {
        if *systems[i].name() == *name {
            return Some(i);
        }
        assert(views(systems@)[i as int] == systems@[i as int]@);
        i += 1;
    }
    None
}

impl SystemHolder {
    #[verifier::type_invariant]
    spec fn well_formed(self) -> bool {
        names_distinct(views(self.systems@))
    }

    /// A registry without systems.
    pub fn new() -> (holder: SystemHolder)
        ensures
            holder@ == Seq::<SystemView>::empty(),
    {
        let holder = SystemHolder { systems: Vec::new() };
        assert(holder@ =~= Seq::<SystemView>::empty());
        holder
    }

    /// How many systems are registered. Their names are all different.
    pub fn len(&self) -> (count: usize)
        ensures
            count == self@.len(),
            names_distinct(self@),
    {
        proof {
            use_type_invariant(self);
        }
        self.systems.len()
    }

    /// The position of the system of that name, if one is registered.
    pub fn position(&self, system_name: &String) -> (found: Option<usize>)
        ensures
            match found {
                Some(position) => is_registered(self@, system_name@) && position == position_of(
                    self@,
                    system_name@,
                ),
                None => !is_registered(self@, system_name@),
            },
    {
        proof {
            use_type_invariant(self);
        }
        let found = find_system(&self.systems, system_name);
        proof {
            if let Some(position) = found {
                assert(self@[position as int] == self.systems@[position as int]@);
                lemma_position_is_unique(self@, position as int);
            }
        }
        found
    }

    /// The system at a position of the registry.
    pub fn system(&self, position: usize) -> (system: &System)
        requires
            position < self@.len(),
        ensures
            system@ == self@[position as int],
    {
        &self.systems[position]
    }

    /// The system registered under a name. The name has to be registered.
    pub fn get(&self, system_name: &String) -> (system: &System)
        requires
            is_registered(self@, system_name@),
        ensures
            system@ == self@[position_of(self@, system_name@)],
            system@.name == system_name@,
    {
        let position = self.position(system_name).unwrap();
        &self.systems[position]
    }

    /// The distance known from the system named `from` to the system named
    /// `to`. There is none where either is not registered.
    pub fn distance_between(&self, from: &String, to: &String) -> (distance: Option<u64>)
        ensures
            distance == known_distance(self@, from@, to@),
    {
        match self.position(from) {
            Some(origin) => match self.position(to) {
                Some(_target) => self.systems[origin].get_distance_to(to),
                None => None,
            },
            None => None,
        }
    }

    /// Registers a copy of `system` under its name, in place of the system
    /// that was registered under that name, if there was one.
    pub fn register_system(&mut self, system: &System)
        ensures
            final(self)@ == with_system(old(self)@, system@),
            names_distinct(final(self)@),
            is_registered(final(self)@, system@.name),
            final(self)@[position_of(final(self)@, system@.name)] == system@,
            forall|name: Seq<char>|
                is_registered(old(self)@, name) ==> is_registered(final(self)@, name),
    {
        proof {
            use_type_invariant(&*self);
        }
        let mut systems: Vec<System> = Vec::new();
        std::mem::swap(&mut systems, &mut self.systems);
        let ghost before = views(systems@);
        let copy = system.clone();
        let found = find_system(&systems, system.name());
        proof {
            lemma_with_system(before, system@);
        }
        match found {
            Some(position) => {
                proof {
                    assert(before[position as int] == systems@[position as int]@);
                    lemma_position_is_unique(before, position as int);
                }
                systems.set(position, copy);
                assert(views(systems@) =~= before.update(position as int, system@));
            },
            None => {
                systems.push(copy);
                assert(views(systems@) =~= before.push(system@));
            },
        }
        self.systems = systems;
    }

    /// Registers every system of the route, first to last.
    pub fn register_route(&mut self, route: &Route)
        ensures
            final(self)@ == with_systems(old(self)@, route@),
            names_distinct(final(self)@),
            forall|i: int|
                0 <= i < route@.len() ==> is_registered(final(self)@, (#[trigger] route@[i]).name),
    {
        proof {
            use_type_invariant(&*self);
        }
        let count = route.len();
        let mut i: usize = 0;
        assert(route@.take(0) =~= Seq::<SystemView>::empty());
        while i < count
            invariant
                0 <= i <= count,
                count == route@.len(),
                self@ == with_systems(old(self)@, route@.take(i as int)),
                names_distinct(self@),
            decreases count - i,
        {
            self.register_system(route.system(i));
            proof {
                let next = route@.take(i + 1);
                assert(next.drop_last() =~= route@.take(i as int));
                assert(next.last() == route@[i as int]);
            }
            i += 1;
        }
        assert(route@.take(count as int) =~= route@);
        proof {
            lemma_with_systems(old(self)@, route@);
        }
    }

    /// Records the distance from the system at `from` to the system at `to`,
    /// in place of any distance recorded for the two before.
    pub fn set_distance(&mut self, from: usize, to: usize, distance: u64)
        requires
            from < old(self)@.len(),
            to < old(self)@.len(),
        ensures
            final(self)@ == old(self)@.update(
                from as int,
                SystemView {
                    name: old(self)@[from as int].name,
                    distances: old(self)@[from as int].distances.insert(
                        old(self)@[to as int].name,
                        distance,
                    ),
                },
            ),
            names_distinct(final(self)@),
    {
        proof {
            use_type_invariant(&*self);
        }
        let mut systems: Vec<System> = Vec::new();
        std::mem::swap(&mut systems, &mut self.systems);
        let ghost before = views(systems@);
        let target = systems[to].name().clone();
        systems[from].set_distance_to(target, distance);
        proof {
            let after = views(systems@);
            assert(before[from as int] == old(self).systems@[from as int]@);
            assert(before[to as int] == old(self).systems@[to as int]@);
            assert(after =~= before.update(from as int, systems@[from as int]@));
            assert forall|i: int, j: int| 0 <= i < j < after.len() implies (
            #[trigger] after[i]).name != (#[trigger] after[j]).name by {
                assert(after[i].name == before[i].name);
                assert(after[j].name == before[j].name);
            }
        }
        self.systems = systems;
    }

    /// Every pair of two different registered systems, each pair once, in
    /// lexicographic order of the positions.
    pub fn all_inter_systems_iter(&self) -> (pairs: Vec<SystemPair>)
        ensures
            pairs@ == system_pairs(self@.len()),
            forall|i: int|
                0 <= i < pairs@.len() ==> (#[trigger] pairs@[i]).first < pairs@[i].second
                    < self@.len(),
            forall|first: usize, second: usize|
                first < second < self@.len() ==> #[trigger] pairs@.contains(
                    (SystemPair { first, second }),
                ),
            pairs@.no_duplicates(),
            2 * pairs@.len() == self@.len() * (self@.len() - 1),
    {
        let count: usize = self.systems.len();
        proof {
            lemma_system_pairs(count as nat);
        }
        let found = enumerate_pairings(count);
        let ghost expected = system_pairs(self@.len());
        let mut pairs: Vec<SystemPair> = Vec::new();
        let mut i: usize = 0;
        while i < found.len()
            invariant
                0 <= i <= found.len(),
                found@.len() == pairings(self@.len()).len(),
                expected == system_pairs(self@.len()),
                forall|k: int|
                    0 <= k < found@.len() ==> (#[trigger] found@[k])@ == seq![
                        pairings(self@.len())[k].0,
                        pairings(self@.len())[k].1,
                    ],
                pairs@ == expected.take(i as int),
            decreases found.len() - i,
        {
            let ghost listed = found@[i as int]@;
            assert(listed.len() == 2);
            let pair = SystemPair { first: found[i][0], second: found[i][1] };
            assert(pair == expected[i as int]);
            pairs.push(pair);
            assert(pairs@ =~= expected.take(i + 1));
            i += 1;
        }
        assert(pairs@ =~= expected);
        pairs
    }
}

} // verus!
