//! Why trying every ordering finds the shortest route, and when it finds one.

use crate::enumeration::is_ordering;
use crate::enumeration::lists_every_ordering;
use crate::search::arranged;
use crate::search::candidate;
use crate::search::candidate_routes;
use crate::search::candidates;
use crate::search::hop_distance;
use crate::search::hop_known;
use crate::search::hop_origin;
use crate::search::lemma_hops_length_bound;
use crate::search::other_positions;
use crate::search::route_known;
use crate::search::route_length;
use crate::search::routes_known;
use crate::shortest::lemma_shortest_of_is_first_minimum;
use crate::shortest::shortest_of;
use crate::shortest::Candidate;
use crate::system::SystemView;
use vstd::prelude::*;

verus! {

/// The route visits every position of `0..count` but `start`, each once.
pub open spec fn visits_all_others(route: Seq<usize>, count: nat, start: usize) -> bool {
    &&& route.len() + 1 == count
    &&& forall|k: int| 0 <= k < route.len() ==> #[trigger] route[k] < count && route[k] != start
    &&& forall|j: int, k: int| 0 <= j < k < route.len() ==> route[j] != route[k]
}

/// Every distance that some route from `start` needs is known: from the
/// start to every other system, and between any two of the others, in both
/// directions.
pub open spec fn distances_complete(registry: Seq<SystemView>, start: usize) -> bool {
    forall|from: usize, to: usize|
        from < registry.len() && to < registry.len() && to != start && from != to
            ==> #[trigger] hop_distance(registry, from, to) is Some
}

/// What is held is a route from `start` through all other systems, with its
/// length, and no such route is shorter.
pub open spec fn is_shortest_route(
    registry: Seq<SystemView>,
    start: usize,
    held: Option<Candidate>,
) -> bool {
    match held {
        Some(best) => {
            &&& visits_all_others(best.ordering, registry.len(), start)
            &&& best.length == route_length(registry, start, best.ordering)
            &&& forall|route: Seq<usize>| #[trigger]
                visits_all_others(route, registry.len(), start) ==> best.length <= route_length(
                    registry,
                    start,
                    route,
                )
        },
        None => false,
    }
}

/// The place that a position other than `start` has among the others.
pub open spec fn place_among_others(position: usize, start: usize) -> usize {
    if position < start {
        position
    } else {
        (position - 1) as usize
    }
}

/// The ordering in which the places come in which a route finds its systems
/// among the others.
pub open spec fn places_of(route: Seq<usize>, start: usize) -> Seq<usize> {
    Seq::new(route.len(), |k: int| place_among_others(route[k], start))
}

/// An ordering with two of its entries exchanged.
pub open spec fn exchanged(ordering: Seq<usize>, i: int, j: int) -> Seq<usize> {
    ordering.update(i, ordering[j]).update(j, ordering[i])
}

/// The ordering of `n` places that leaves each where it is.
pub open spec fn rising(n: nat) -> Seq<usize> {
    Seq::new(n, |k: int| k as usize)
}

/// An ordering of `n` places that begins with `first`.
pub open spec fn led_by(n: nat, first: usize) -> Seq<usize> {
    exchanged(rising(n), 0, first as int)
}

/// An ordering of `n` places that begins with `first` and goes on with `second`.
pub open spec fn led_by_two(n: nat, first: usize, second: usize) -> Seq<usize> {
    exchanged(
        led_by(n, first),
        1,
        if second == 0 {
            first as int
        } else {
            second as int
        },
    )
}

/// Exchanging two entries of an ordering gives an ordering.
pub proof fn lemma_exchanged_is_ordering(ordering: Seq<usize>, n: nat, i: int, j: int)
    requires
        is_ordering(ordering, n),
        0 <= i < n,
        0 <= j < n,
    ensures
        is_ordering(exchanged(ordering, i, j), n),
{
    let after = exchanged(ordering, i, j);
    assert forall|k: int| 0 <= k < n implies #[trigger] after[k] < n by {
        assert(after[k] == ordering[if k == i {
            j
        } else if k == j {
            i
        } else {
            k
        }]);
    }
    assert forall|a: int, b: int| 0 <= a < b < n implies after[a] != after[b] by {
        let from_a = if a == j {
            i
        } else if a == i {
            j
        } else {
            a
        };
        let from_b = if b == j {
            i
        } else if b == i {
            j
        } else {
            b
        };
        assert(after[a] == ordering[from_a]);
        assert(after[b] == ordering[from_b]);
        assert(from_a != from_b);
        if from_a < from_b {
            assert(ordering[from_a] != ordering[from_b]);
        } else {
            assert(ordering[from_b] != ordering[from_a]);
        }
    }
}

/// There is an ordering that begins with any given place.
pub proof fn lemma_led_by(n: nat, first: usize)
    requires
        first < n <= usize::MAX,
    ensures
        is_ordering(led_by(n, first), n),
        led_by(n, first)[0] == first,
{
    assert(is_ordering(rising(n), n));
    lemma_exchanged_is_ordering(rising(n), n, 0, first as int);
}

/// There is an ordering that begins with any two different given places.
pub proof fn lemma_led_by_two(n: nat, first: usize, second: usize)
    requires
        first < n <= usize::MAX,
        second < n,
        first != second,
    ensures
        is_ordering(led_by_two(n, first, second), n),
        led_by_two(n, first, second)[0] == first,
        led_by_two(n, first, second)[1] == second,
{
    lemma_led_by(n, first);
    let found: int = if second == 0 {
        first as int
    } else {
        second as int
    };
    lemma_exchanged_is_ordering(led_by(n, first), n, 1, found);
}

/// The positions other than the start: each is one, and none comes twice.
pub proof fn lemma_other_positions(count: nat, start: usize)
    requires
        start < count <= usize::MAX,
    ensures
        other_positions(count, start).len() + 1 == count,
        forall|k: int|
            0 <= k < count - 1 ==> {
                &&& #[trigger] other_positions(count, start)[k] < count
                &&& other_positions(count, start)[k] != start
                &&& place_among_others(other_positions(count, start)[k], start) == k
            },
        forall|position: usize|
            position < count && position != start ==> {
                &&& #[trigger] place_among_others(position, start) < count - 1
                &&& other_positions(count, start)[place_among_others(position, start) as int]
                    == position
            },
{
}

/// Visiting the other systems in some ordering visits each of them once.
pub proof fn lemma_arranged_visits_all(count: nat, start: usize, ordering: Seq<usize>)
    requires
        start < count <= usize::MAX,
        is_ordering(ordering, (count - 1) as nat),
    ensures
        visits_all_others(arranged(other_positions(count, start), ordering), count, start),
{
    let pool = other_positions(count, start);
    let route = arranged(pool, ordering);
    lemma_other_positions(count, start);
    assert forall|k: int| 0 <= k < route.len() implies #[trigger] route[k] < count && route[k]
        != start by {
        assert(ordering[k] < count - 1);
        assert(route[k] == pool[ordering[k] as int]);
    }
    assert forall|j: int, k: int| 0 <= j < k < route.len() implies route[j] != route[k] by {
        assert(ordering[j] < count - 1);
        assert(ordering[k] < count - 1);
        assert(ordering[j] != ordering[k]);
        assert(route[j] == pool[ordering[j] as int]);
        assert(route[k] == pool[ordering[k] as int]);
    }
}

/// A route that visits each of the other systems once visits them in some
/// ordering.
pub proof fn lemma_route_is_arranged(count: nat, start: usize, route: Seq<usize>)
    requires
        start < count <= usize::MAX,
        visits_all_others(route, count, start),
    ensures
        is_ordering(places_of(route, start), (count - 1) as nat),
        arranged(other_positions(count, start), places_of(route, start)) == route,
{
    let pool = other_positions(count, start);
    let places = places_of(route, start);
    lemma_other_positions(count, start);
    assert forall|k: int| 0 <= k < count - 1 implies #[trigger] places[k] < count - 1 by {
        assert(route[k] < count && route[k] != start);
    }
    assert forall|j: int, k: int| 0 <= j < k < count - 1 implies places[j] != places[k] by {
        assert(route[j] < count && route[j] != start);
        assert(route[k] < count && route[k] != start);
        assert(route[j] != route[k]);
    }
    assert forall|k: int| 0 <= k < route.len() implies arranged(pool, places)[k] == route[k] by {
        assert(route[k] < count && route[k] != start);
    }
    assert(arranged(pool, places) =~= route);
}

/// A search that tries every ordering, and finds every distance known,
/// ends with a shortest route: no route from the start through all other
/// systems is shorter than the one it holds.
pub proof fn lemma_exhaustive_search_is_optimal(
    registry: Seq<SystemView>,
    start: usize,
    listing: Seq<Seq<usize>>,
)
    requires
        start < registry.len() <= usize::MAX,
        lists_every_ordering(listing, (registry.len() - 1) as nat),
        routes_known(
            registry,
            start,
            candidate_routes(registry.len(), start, listing),
            listing.len() as int,
        ),
    ensures
        is_shortest_route(
            registry,
            start,
            shortest_of(
                candidates(registry, start, candidate_routes(registry.len(), start, listing)),
                listing.len(),
            ),
        ),
{
    let count = registry.len();
    let others = (count - 1) as nat;
    let pool = other_positions(count, start);
    let routes = candidate_routes(count, start, listing);
    let offered = candidates(registry, start, routes);
    assert(is_ordering(rising(others), others));
    assert(listing.contains(rising(others)));
    lemma_shortest_of_is_first_minimum(offered, listing.len());
    let best = shortest_of(offered, listing.len())->0;
    let taken = choose|i: int|
        {
            &&& 0 <= i < listing.len()
            &&& #[trigger] offered[i] == best
            &&& forall|j: int| 0 <= j < i ==> (#[trigger] offered[j]).length > offered[i].length
        };
    assert(is_ordering(listing[taken], others));
    lemma_arranged_visits_all(count, start, listing[taken]);
    assert(best == candidate(registry, start, routes[taken]));
    lemma_route_fits(registry, start, routes[taken]);
    assert forall|route: Seq<usize>| #[trigger]
        visits_all_others(route, count, start) implies best.length <= route_length(
        registry,
        start,
        route,
    ) by {
        lemma_route_is_arranged(count, start, route);
        let places = places_of(route, start);
        assert(listing.contains(places));
        let k = choose|k: int| 0 <= k < listing.len() && listing[k] == places;
        assert(routes[k] == route);
        assert(offered[k] == candidate(registry, start, route));
        lemma_route_fits(registry, start, route);
    }
}

/// The length of a route of positions fits in 128 bits.
pub proof fn lemma_route_fits(registry: Seq<SystemView>, start: usize, route: Seq<usize>)
    requires
        route.len() <= usize::MAX,
    ensures
        route_length(registry, start, route) <= u128::MAX,
        candidate(registry, start, route).length == route_length(registry, start, route),
{
    lemma_hops_length_bound(registry, start, route, route.len());
    assert(route.len() * u64::MAX <= u128::MAX) by (nonlinear_arith)
        requires
            route.len() <= u64::MAX,
    ;
}

/// Every hop of a route through all other systems is one whose distance a
/// complete registry knows.
pub proof fn lemma_complete_distances_cover_route(
    registry: Seq<SystemView>,
    start: usize,
    route: Seq<usize>,
)
    requires
        start < registry.len() <= usize::MAX,
        visits_all_others(route, registry.len(), start),
        distances_complete(registry, start),
    ensures
        route_known(registry, start, route),
{
    assert forall|hop: int| 0 <= hop < route.len() implies hop_known(
        registry,
        start,
        route,
        hop,
    ) by {
        let from = hop_origin(start, route, hop);
        let to = route[hop];
        assert(to < registry.len() && to != start);
        if hop > 0 {
            assert(route[hop - 1] < registry.len() && route[hop - 1] != start);
            assert(route[hop - 1] != route[hop]);
        }
        assert(hop_distance(registry, from, to) is Some);
    }
}

/// A search that tries every ordering finds every distance it needs known
/// exactly when the registry holds the distance from the start to every
/// other system and between any two of the others.
pub proof fn lemma_search_succeeds_iff_complete(
    registry: Seq<SystemView>,
    start: usize,
    listing: Seq<Seq<usize>>,
)
    requires
        start < registry.len() <= usize::MAX,
        lists_every_ordering(listing, (registry.len() - 1) as nat),
    ensures
        routes_known(
            registry,
            start,
            candidate_routes(registry.len(), start, listing),
            listing.len() as int,
        ) <==> distances_complete(registry, start),
{
    let count = registry.len();
    let others = (count - 1) as nat;
    let pool = other_positions(count, start);
    let routes = candidate_routes(count, start, listing);
    lemma_other_positions(count, start);
    if distances_complete(registry, start) {
        assert forall|k: int| 0 <= k < listing.len() implies route_known(
            registry,
            start,
            #[trigger] routes[k],
        ) by {
            assert(is_ordering(listing[k], others));
            lemma_arranged_visits_all(count, start, listing[k]);
            lemma_complete_distances_cover_route(registry, start, routes[k]);
        }
    }
    if routes_known(registry, start, routes, listing.len() as int) {
        assert forall|from: usize, to: usize|
            from < registry.len() && to < registry.len() && to != start && from != to implies (
        #[trigger] hop_distance(registry, from, to)) is Some by {
            let second = place_among_others(to, start);
            assert(second < others && pool[second as int] == to);
            if from == start {
                lemma_led_by(others, second);
                let ordering = led_by(others, second);
                assert(listing.contains(ordering));
                let k = choose|k: int| 0 <= k < listing.len() && listing[k] == ordering;
                assert(route_known(registry, start, routes[k]));
                assert(routes[k][0] == to);
                assert(hop_known(registry, start, routes[k], 0));
            } else {
                let first = place_among_others(from, start);
                assert(first < others && pool[first as int] == from);
                lemma_led_by_two(others, first, second);
                let ordering = led_by_two(others, first, second);
                assert(listing.contains(ordering));
                let k = choose|k: int| 0 <= k < listing.len() && listing[k] == ordering;
                assert(route_known(registry, start, routes[k]));
                assert(routes[k][0] == from);
                assert(routes[k][1] == to);
                assert(hop_known(registry, start, routes[k], 1));
            }
        }
    }
}

} // verus!
