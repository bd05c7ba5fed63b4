//! A named system and the distances known from it.

use vstd::prelude::*;

verus! {

/// What a [`System`] stands for: its name and the distances known from it,
/// keyed by the name of the system they lead to.
pub struct SystemView {
    pub name: Seq<char>,
    pub distances: Map<Seq<char>, u64>,
}

/// What a list of systems stands for, item by item.
pub open spec fn views(systems: Seq<System>) -> Seq<SystemView> {
    systems.map_values(|system: System| system@)
}

#[derive(Debug)]
struct Link {
    target: String,
    distance: u64,
}

/// A waypoint: a name, and for some other systems the distance to travel there.
#[derive(Debug)]
pub struct System {
    name: String,
    links: Vec<Link>,
}

spec fn targets_distinct(links: Seq<Link>) -> bool {
    forall|i: int, j: int| 0 <= i < j < links.len() ==> links[i].target@ != links[j].target@
}

spec fn has_target(links: Seq<Link>, target: Seq<char>) -> bool {
    exists|i: int| 0 <= i < links.len() && #[trigger] links[i].target@ == target
}

spec fn link_index(links: Seq<Link>, target: Seq<char>) -> int {
    choose|i: int| 0 <= i < links.len() && #[trigger] links[i].target@ == target
}

spec fn links_map(links: Seq<Link>) -> Map<Seq<char>, u64> {
    Map::new(
        |target: Seq<char>| has_target(links, target),
        |target: Seq<char>| links[link_index(links, target)].distance,
    )
}

proof fn lemma_link_lookup(links: Seq<Link>, i: int)
    requires
        targets_distinct(links),
        0 <= i < links.len(),
    ensures
        links_map(links).dom().contains(links[i].target@),
        links_map(links)[links[i].target@] == links[i].distance,
{
    let target = links[i].target@;
    assert(has_target(links, target));
    let j = link_index(links, target);
    assert(j == i);
}

proof fn lemma_links_map_push(links: Seq<Link>, link: Link)
    requires
        targets_distinct(links),
        !has_target(links, link.target@),
    ensures
        targets_distinct(links.push(link)),
        links_map(links.push(link)) == links_map(links).insert(link.target@, link.distance),
{
    let after = links.push(link);
    let expected = links_map(links).insert(link.target@, link.distance);
    assert(targets_distinct(after)) by {
        assert forall|i: int, j: int| 0 <= i < j < after.len() implies after[i].target@
            != after[j].target@ by {
            if j == links.len() {
                assert(links[i].target@ != link.target@);
            }
        }
    }
    assert forall|target: Seq<char>| has_target(after, target) <==> expected.dom().contains(
        target,
    ) by {
        if has_target(after, target) {
            let i = link_index(after, target);
            if i < links.len() {
                assert(links[i].target@ == target);
            }
        }
        if has_target(links, target) {
            let i = link_index(links, target);
            assert(after[i].target@ == target);
        }
        if target == link.target@ {
            assert(after[links.len() as int].target@ == target);
        }
    }
    assert forall|target: Seq<char>| has_target(after, target) implies links_map(after)[target]
        == expected[target] by {
        let i = link_index(after, target);
        lemma_link_lookup(after, i);
        if i < links.len() {
            assert(links[i].target@ == target);
            lemma_link_lookup(links, i);
        }
    }
    assert(links_map(after) =~= expected);
}

proof fn lemma_links_map_update(links: Seq<Link>, i: int, link: Link)
    requires
        targets_distinct(links),
        0 <= i < links.len(),
        link.target@ == links[i].target@,
    ensures
        targets_distinct(links.update(i, link)),
        links_map(links.update(i, link)) == links_map(links).insert(link.target@, link.distance),
{
    let after = links.update(i, link);
    let expected = links_map(links).insert(link.target@, link.distance);
    assert(targets_distinct(after));
    assert forall|target: Seq<char>| has_target(after, target) <==> expected.dom().contains(
        target,
    ) by {
        if has_target(after, target) {
            let j = link_index(after, target);
            assert(links[j].target@ == target);
        }
        if has_target(links, target) {
            let j = link_index(links, target);
            assert(after[j].target@ == target);
        }
        if target == link.target@ {
            assert(after[i].target@ == target);
        }
    }
    assert forall|target: Seq<char>| has_target(after, target) implies links_map(after)[target]
        == expected[target] by {
        let j = link_index(after, target);
        lemma_link_lookup(after, j);
        if j != i {
            assert(links[j].target@ == target);
            lemma_link_lookup(links, j);
        }
    }
    assert(links_map(after) =~= expected);
}

fn find_link(links: &Vec<Link>, target: &String) -> (found: Option<usize>)
    ensures
        match found {
            Some(i) => i < links.len() && links@[i as int].target@ == target@,
            None => !has_target(links@, target@),
        },
{
    let mut i: usize = 0;
    while i < links.len()
        invariant
            0 <= i <= links.len(),
            forall|j: int| 0 <= j < i ==> links@[j].target@ != target@,
        decreases links.len() - i,
    {
        if links[i].target == *target {
            return Some(i);
        }
        i += 1;
    }
    None
}

impl View for System {
    type V = SystemView;

    closed spec fn view(&self) -> SystemView {
        SystemView { name: self.name@, distances: links_map(self.links@) }
    }
}

impl System {
    #[verifier::type_invariant]
    spec fn well_formed(self) -> bool {
        targets_distinct(self.links@)
    }

    /// A system of the given name from which no distance is known yet.
    pub fn new(name: String) -> (system: System)
        ensures
            system@.name == name@,
            system@.distances == Map::<Seq<char>, u64>::empty(),
    {
        let system = System { name, links: Vec::new() };
        assert(system@.distances =~= Map::<Seq<char>, u64>::empty());
        system
    }

    pub fn name(&self) -> (name: &String)
        ensures
            name@ == self@.name,
    {
        &self.name
    }

    /// The distance from this system to the one named `target`, if it is known.
    pub fn get_distance_to(&self, target: &String) -> (distance: Option<u64>)
        ensures
            distance == (if self@.distances.dom().contains(target@) {
                Some(self@.distances[target@])
            } else {
                None
            }),
    {
        proof {
            use_type_invariant(self);
        }
        match find_link(&self.links, target) {
            Some(i) => {
                proof {
                    lemma_link_lookup(self.links@, i as int);
                }
                Some(self.links[i].distance)
            },
            None => None,
        }
    }

    /// Records `distance` as the distance from this system to the one named
    /// `target`, in place of any distance recorded for it before.
    pub fn set_distance_to(&mut self, target: String, distance: u64)
        ensures
            final(self)@.name == old(self)@.name,
            final(self)@.distances == old(self)@.distances.insert(target@, distance),
    {
        proof {
            use_type_invariant(&*self);
        }
        let mut links: Vec<Link> = Vec::new();
        std::mem::swap(&mut links, &mut self.links);
        let ghost before = links@;
        match find_link(&links, &target) {
            Some(i) => {
                let link = Link { target, distance };
                proof {
                    lemma_links_map_update(before, i as int, link);
                }
                links.set(i, link);
            },
            None => {
                let link = Link { target, distance };
                proof {
                    lemma_links_map_push(before, link);
                }
                links.push(link);
            },
        }
        self.links = links;
    }
}

impl Clone for System {
    fn clone(&self) -> (copy: System)
        ensures
            copy@ == self@,
    {
        proof {
            use_type_invariant(self);
        }
        let mut links: Vec<Link> = Vec::new();
        let mut i: usize = 0;
        while i < self.links.len()
            invariant
                0 <= i <= self.links.len(),
                links@ == self.links@.take(i as int),
            decreases self.links.len() - i,
        {
            let link = Link { target: self.links[i].target.clone(), distance: self.links[i].distance };
            links.push(link);
            assert(links@ =~= self.links@.take(i + 1));
            i += 1;
        }
        assert(links@ =~= self.links@);
        System { name: self.name.clone(), links }
    }
}

} // verus!
