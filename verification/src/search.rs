//! The exhaustive search: every order of visiting the systems other than
//! the start is tried, and the shortest is kept.

use crate::counting::checked_factorial;
use crate::counting::factorial;
use crate::counting::representable_factorial;
use crate::enumeration::enumerate_orderings;
use crate::enumeration::is_ordering;
use crate::enumeration::lists_every_ordering;
use crate::enumeration::next_ordering;
use crate::enumeration::orderings;
use crate::enumeration::pending;
use crate::holder::is_registered;
use crate::holder::position_of;
use crate::holder::SystemHolder;
use crate::optimality::distances_complete;
use crate::optimality::is_shortest_route;
use crate::optimality::lemma_arranged_visits_all;
use crate::optimality::lemma_complete_distances_cover_route;
use crate::optimality::lemma_exhaustive_search_is_optimal;
use crate::optimality::lemma_search_succeeds_iff_complete;
use crate::ordering_count::lemma_length_of_listing;
use crate::progress::completion_mark;
use crate::progress::latest;
use crate::progress::ProgressHolder;
use crate::shortest::keep_shorter;
use crate::shortest::shortest_of;
use crate::shortest::Candidate;
use crate::shortest::CurrentShortest;
use crate::system::SystemView;
use vstd::prelude::*;

verus! {

/// Why a search gave no route.
#[derive(Debug, PartialEq, Eq)]
pub enum SearchError {
    /// The search was asked to report after every 0 candidates.
    ZeroFeedbackStep,
    /// A route needs the distance between these two systems, in this
    /// direction, and it is not known.
    MissingDistance { from: String, to: String },
}

/// The error says that the distance from the system at `from` to the system
/// at `to` is not known.
pub open spec fn names_hop(
    error: SearchError,
    registry: Seq<SystemView>,
    from: usize,
    to: usize,
) -> bool {
    match error {
        SearchError::MissingDistance { from: origin, to: target } => {
            &&& origin@ == registry[from as int].name
            &&& target@ == registry[to as int].name
        },
        SearchError::ZeroFeedbackStep => false,
    }
}

/// The positions of a registry of `count` systems other than `start`, rising.
pub open spec fn other_positions(count: nat, start: usize) -> Seq<usize> {
    Seq::new(
        (count - 1) as nat,
        |k: int|
            if k < start {
                k as usize
            } else {
                (k + 1) as usize
            },
    )
}

/// The route that visits the items of `pool` in the given ordering of their
/// places in it.
pub open spec fn arranged(pool: Seq<usize>, ordering: Seq<usize>) -> Seq<usize> {
    Seq::new(ordering.len(), |k: int| pool[ordering[k] as int])
}

/// Where the hop to the `hop`-th system of a route sets out: at the start,
/// or at the system visited before.
pub open spec fn hop_origin(start: usize, route: Seq<usize>, hop: int) -> usize {
    if hop == 0 {
        start
    } else {
        route[hop - 1]
    }
}

/// The distance that the system at `from` holds for the system at `to`.
pub open spec fn hop_distance(registry: Seq<SystemView>, from: usize, to: usize) -> Option<u64> {
    let held = registry[from as int].distances;
    let target = registry[to as int].name;
    if held.dom().contains(target) {
        Some(held[target])
    } else {
        None
    }
}

/// The distance of the `hop`-th hop of a route is known.
pub open spec fn hop_known(
    registry: Seq<SystemView>,
    start: usize,
    route: Seq<usize>,
    hop: int,
) -> bool {
    hop_distance(registry, hop_origin(start, route, hop), route[hop]) is Some
}

/// The distances of the first `count` hops of a route are known.
pub open spec fn hops_known(
    registry: Seq<SystemView>,
    start: usize,
    route: Seq<usize>,
    count: int,
) -> bool {
    forall|hop: int| 0 <= hop < count ==> hop_known(registry, start, route, hop)
}

/// The distance of every hop of a route is known.
pub open spec fn route_known(registry: Seq<SystemView>, start: usize, route: Seq<usize>) -> bool {
    hops_known(registry, start, route, route.len() as int)
}

/// The first hop of a route whose distance is not known.
pub open spec fn first_unknown_hop(
    registry: Seq<SystemView>,
    start: usize,
    route: Seq<usize>,
) -> int {
    choose|hop: int|
        0 <= hop < route.len() && !hop_known(registry, start, route, hop) && hops_known(
            registry,
            start,
            route,
            hop,
        )
}

/// The sum of the distances of the first `count` hops of a route, an unknown
/// distance counting as 0.
pub open spec fn hops_length(
    registry: Seq<SystemView>,
    start: usize,
    route: Seq<usize>,
    count: nat,
) -> nat
    decreases count,
{
    if count == 0 {
        0
    } else {
        let hop = count - 1;
        hops_length(registry, start, route, hop as nat) + match hop_distance(
            registry,
            hop_origin(start, route, hop),
            route[hop],
        ) {
            Some(distance) => distance as nat,
            None => 0,
        }
    }
}

/// The length of a route: from the start to its first system, and on from
/// each system to the next.
pub open spec fn route_length(registry: Seq<SystemView>, start: usize, route: Seq<usize>) -> nat {
    hops_length(registry, start, route, route.len())
}

/// A route as the record takes it: with its length.
pub open spec fn candidate(registry: Seq<SystemView>, start: usize, route: Seq<usize>) -> Candidate {
    Candidate { ordering: route, length: route_length(registry, start, route) as u128 }
}

/// The routes that a search from `start` tries, in the order in which it
/// tries them: one for each ordering of the listing.
pub open spec fn candidate_routes(count: nat, start: usize, listing: Seq<Seq<usize>>) -> Seq<
    Seq<usize>,
> {
    listing.map_values(|ordering: Seq<usize>| arranged(other_positions(count, start), ordering))
}

/// The routes with their lengths.
pub open spec fn candidates(
    registry: Seq<SystemView>,
    start: usize,
    routes: Seq<Seq<usize>>,
) -> Seq<Candidate> {
    routes.map_values(|route: Seq<usize>| candidate(registry, start, route))
}

/// Every distance that the first `count` of the routes need is known.
pub open spec fn routes_known(
    registry: Seq<SystemView>,
    start: usize,
    routes: Seq<Seq<usize>>,
    count: int,
) -> bool {
    forall|k: int| 0 <= k < count ==> route_known(registry, start, #[trigger] routes[k])
}

/// The first of the routes that needs a distance which is not known.
pub open spec fn first_unknown_route(
    registry: Seq<SystemView>,
    start: usize,
    routes: Seq<Seq<usize>>,
) -> int {
    choose|k: int|
        0 <= k < routes.len() && !route_known(registry, start, #[trigger] routes[k])
            && routes_known(registry, start, routes, k)
}

/// A count of candidates as it is reported: where it does not fit in 128
/// bits, the largest count that does.
pub open spec fn saturated(count: nat) -> u128 {
    if count <= u128::MAX {
        count as u128
    } else {
        u128::MAX
    }
}

/// What a search reports while it examines its first `count` candidates:
/// before each candidate the number of those done before it, where `step`
/// divides that number.
pub open spec fn periodic_reports(step: usize, count: nat) -> Seq<u128>
    decreases count,
{
    if count == 0 {
        Seq::empty()
    } else {
        let earlier = periodic_reports(step, (count - 1) as nat);
        let done = saturated((count - 1) as nat);
        if done as int % step as int == 0 {
            earlier.push(done)
        } else {
            earlier
        }
    }
}

/// What a search from `start` returns and reports when the orderings come
/// in the order of `listing`.
///
/// Where every route's distances are known, it returns the first of the
/// shortest routes, having reported periodically and, at the end, the
/// completion mark of the total. Else it fails at the first route with an
/// unknown distance, names the first such hop of that route, and has
/// reported periodically up to that route.
pub open spec fn search_outcome(
    registry: Seq<SystemView>,
    start: usize,
    step: usize,
    total: Option<u128>,
    listing: Seq<Seq<usize>>,
    outcome: Result<CurrentShortest, SearchError>,
    reports: Seq<u128>,
) -> bool {
    let routes = candidate_routes(registry.len(), start, listing);
    match outcome {
        Ok(record) => {
            &&& routes_known(registry, start, routes, routes.len() as int)
            &&& record@ == shortest_of(candidates(registry, start, routes), routes.len())
            &&& reports == periodic_reports(step, routes.len()).push(completion_mark(total))
        },
        Err(error) => {
            let failed = first_unknown_route(registry, start, routes);
            let hop = first_unknown_hop(registry, start, routes[failed]);
            &&& !routes_known(registry, start, routes, routes.len() as int)
            &&& names_hop(error, registry, hop_origin(start, routes[failed], hop), routes[failed][hop])
            &&& reports == periodic_reports(step, (failed + 1) as nat)
        },
    }
}

/// A route is no longer than as many longest distances as it has hops.
pub proof fn lemma_hops_length_bound(
    registry: Seq<SystemView>,
    start: usize,
    route: Seq<usize>,
    count: nat,
)
    ensures
        hops_length(registry, start, route, count) <= count * u64::MAX,
    decreases count,
{
    if count > 0 {
        lemma_hops_length_bound(registry, start, route, (count - 1) as nat);
    }
}

/// The periodic reports never fall, and each is below the number of
/// candidates examined.
pub proof fn lemma_periodic_reports_rise(step: usize, count: nat)
    ensures
        forall|i: int|
            0 <= i < periodic_reports(step, count).len() ==> #[trigger] periodic_reports(
                step,
                count,
            )[i] < count,
        forall|i: int, j: int|
            0 <= i <= j < periodic_reports(step, count).len() ==> periodic_reports(step, count)[i]
                <= periodic_reports(step, count)[j],
    decreases count,
{
    if count > 0 {
        lemma_periodic_reports_rise(step, (count - 1) as nat);
        let earlier = periodic_reports(step, (count - 1) as nat);
        let all = periodic_reports(step, count);
        assert forall|i: int, j: int| 0 <= i <= j < all.len() implies all[i] <= all[j] by {
            if i < earlier.len() {
                assert(all[i] == earlier[i]);
                assert(earlier[i] < count - 1);
            }
            if j < earlier.len() {
                assert(all[j] == earlier[j]);
            }
        }
    }
}

/// What a search that comes to its end has reported never falls: the
/// periodic reports rise, and the completion mark that follows them is no
/// less than any of them.
pub proof fn lemma_reports_of_search_rise(step: usize, others: nat)
    ensures
        ({
            let reports = periodic_reports(step, factorial(others)).push(
                completion_mark(representable_factorial(others)),
            );
            forall|i: int, j: int| 0 <= i <= j < reports.len() ==> reports[i] <= reports[j]
        }),
{
    let periodic = periodic_reports(step, factorial(others));
    let mark = completion_mark(representable_factorial(others));
    let reports = periodic.push(mark);
    lemma_periodic_reports_rise(step, factorial(others));
    assert forall|i: int, j: int| 0 <= i <= j < reports.len() implies reports[i] <= reports[j] by {
        if i < periodic.len() {
            assert(reports[i] == periodic[i]);
            assert(periodic[i] < factorial(others));
        }
        if j < periodic.len() {
            assert(reports[j] == periodic[j]);
        }
    }
}

/// In a list of routes whose first `failed` have their distances known,
/// and the next one not, that one is the first with an unknown distance.
proof fn lemma_first_unknown_route(
    registry: Seq<SystemView>,
    start: usize,
    routes: Seq<Seq<usize>>,
    failed: int,
)
    requires
        0 <= failed < routes.len(),
        routes_known(registry, start, routes, failed),
        !route_known(registry, start, routes[failed]),
    ensures
        first_unknown_route(registry, start, routes) == failed,
        !routes_known(registry, start, routes, routes.len() as int),
{
    let first = first_unknown_route(registry, start, routes);
    if first < failed {
        assert(route_known(registry, start, routes[first]));
    } else if failed < first {
        assert(route_known(registry, start, routes[failed]));
    }
}

/// A search that finds the distances of its first `failed` routes known,
/// and those of the next one not, fails there: at the first route with an
/// unknown distance.
proof fn lemma_search_fails(
    registry: Seq<SystemView>,
    start: usize,
    step: usize,
    total: Option<u128>,
    listing: Seq<Seq<usize>>,
    failed: int,
    error: SearchError,
    reports: Seq<u128>,
)
    requires
        0 <= failed < listing.len(),
        routes_known(registry, start, candidate_routes(registry.len(), start, listing), failed),
        ({
            let route = arranged(other_positions(registry.len(), start), listing[failed]);
            let hop = first_unknown_hop(registry, start, route);
            &&& !route_known(registry, start, route)
            &&& names_hop(error, registry, hop_origin(start, route, hop), route[hop])
        }),
        reports == periodic_reports(step, (failed + 1) as nat),
    ensures
        search_outcome(registry, start, step, total, listing, Err(error), reports),
{
    let routes = candidate_routes(registry.len(), start, listing);
    assert(routes[failed] == arranged(other_positions(registry.len(), start), listing[failed]));
    lemma_first_unknown_route(registry, start, routes, failed);
}

/// A registry that leaves a distance of some route through all other
/// systems unknown is not complete.
proof fn lemma_unknown_distance_is_needed(
    registry: Seq<SystemView>,
    start: usize,
    ordering: Seq<usize>,
)
    requires
        start < registry.len() <= usize::MAX,
        is_ordering(ordering, (registry.len() - 1) as nat),
        !route_known(registry, start, arranged(other_positions(registry.len(), start), ordering)),
    ensures
        !distances_complete(registry, start),
{
    lemma_arranged_visits_all(registry.len(), start, ordering);
    if distances_complete(registry, start) {
        lemma_complete_distances_cover_route(
            registry,
            start,
            arranged(other_positions(registry.len(), start), ordering),
        );
    }
}

/// What the record holds after one more candidate, and what was reported
/// by then.
proof fn lemma_search_step(
    registry: Seq<SystemView>,
    start: usize,
    step: usize,
    listing: Seq<Seq<usize>>,
    examined: nat,
)
    requires
        examined < listing.len(),
    ensures
        ({
            let routes = candidate_routes(registry.len(), start, listing);
            let route = arranged(other_positions(registry.len(), start), listing[examined as int]);
            &&& routes[examined as int] == route
            &&& shortest_of(candidates(registry, start, routes), (examined + 1) as nat) == keep_shorter(
                shortest_of(candidates(registry, start, routes), examined),
                candidate(registry, start, route),
            )
            &&& routes_known(registry, start, routes, examined as int) && route_known(
                registry,
                start,
                route,
            ) ==> routes_known(registry, start, routes, examined as int + 1)
        }),
        periodic_reports(step, (examined + 1) as nat) == (if saturated(examined) as int % step as int
            == 0 {
            periodic_reports(step, examined).push(saturated(examined))
        } else {
            periodic_reports(step, examined)
        }),
{
}

/// A search that found the distances of all its routes known ends with
/// the shortest route, and the registry is complete.
proof fn lemma_search_succeeds(
    registry: Seq<SystemView>,
    start: usize,
    step: usize,
    total: Option<u128>,
    listing: Seq<Seq<usize>>,
    record: CurrentShortest,
    reports: Seq<u128>,
)
    requires
        start < registry.len() <= usize::MAX,
        lists_every_ordering(listing, (registry.len() - 1) as nat),
        routes_known(
            registry,
            start,
            candidate_routes(registry.len(), start, listing),
            listing.len() as int,
        ),
        record@ == shortest_of(
            candidates(registry, start, candidate_routes(registry.len(), start, listing)),
            listing.len(),
        ),
        reports == periodic_reports(step, listing.len()).push(completion_mark(total)),
    ensures
        search_outcome(registry, start, step, total, listing, Ok(record), reports),
        distances_complete(registry, start),
        is_shortest_route(registry, start, record@),
        latest(reports) == completion_mark(total),
{
    lemma_search_succeeds_iff_complete(registry, start, listing);
    lemma_exhaustive_search_is_optimal(registry, start, listing);
}

/// The positions of `0..count` other than `start`, rising.
pub fn positions_except(count: usize, start: usize) -> (pool: Vec<usize>)
    requires
        start < count,
    ensures
        pool@ == other_positions(count as nat, start),
{
    let mut pool: Vec<usize> = Vec::new();
    let mut position: usize = 0;
    while position < count
        invariant
            0 <= position <= count,
            start < count,
            pool@.len() == (if position <= start {
                position as int
            } else {
                position - 1
            }),
            forall|k: int| 0 <= k < pool@.len() ==> pool@[k] == other_positions(count as nat, start)[k],
        decreases count - position,
    {
        if position != start {
            pool.push(position);
        }
        position += 1;
    }
    assert(pool@ =~= other_positions(count as nat, start));
    pool
}

/// The route that visits the items of `pool` in the given ordering of their
/// places in it.
pub fn arrange(pool: &Vec<usize>, ordering: &Vec<usize>) -> (route: Vec<usize>)
    requires
        forall|k: int| 0 <= k < ordering@.len() ==> ordering@[k] < pool@.len(),
    ensures
        route@ == arranged(pool@, ordering@),
{
    let mut route: Vec<usize> = Vec::new();
    let mut k: usize = 0;
    while k < ordering.len()
        invariant
            0 <= k <= ordering.len(),
            forall|j: int| 0 <= j < ordering@.len() ==> ordering@[j] < pool@.len(),
            route@ == arranged(pool@, ordering@).take(k as int),
        decreases ordering.len() - k,
    {
        route.push(pool[ordering[k]]);
        assert(route@ =~= arranged(pool@, ordering@).take(k + 1));
        k += 1;
    }
    assert(route@ =~= arranged(pool@, ordering@));
    route
}

impl SystemHolder {
    /// How many orderings a search from one of the registered systems tries:
    /// the factorial of the number of the others, where that fits in 128 bits.
    pub fn permutation_size_hint(&self) -> (hint: Option<u128>)
        requires
            self@.len() >= 1,
        ensures
            hint == representable_factorial((self@.len() - 1) as nat),
    {
        checked_factorial(self.len() - 1)
    }

    /// The length of the route that sets out at `start` and visits the
    /// systems at the positions of `route`, in order; or, where a distance
    /// that it needs is not known, the first such hop.
    pub fn route_length(&self, start: usize, route: &Vec<usize>) -> (outcome: Result<
        u128,
        SearchError,
    >)
        requires
            start < self@.len(),
            forall|k: int| 0 <= k < route@.len() ==> route@[k] < self@.len(),
        ensures
            match outcome {
                Ok(length) => {
                    &&& route_known(self@, start, route@)
                    &&& length == route_length(self@, start, route@)
                },
                Err(error) => {
                    &&& !route_known(self@, start, route@)
                    &&& names_hop(
                        error,
                        self@,
                        hop_origin(start, route@, first_unknown_hop(self@, start, route@)),
                        route@[first_unknown_hop(self@, start, route@)],
                    )
                },
            },
    {
        let mut length: u128 = 0;
        let mut origin: usize = start;
        let mut hop: usize = 0;
        while hop < route.len()
            invariant
                0 <= hop <= route.len(),
                start < self@.len(),
                forall|k: int| 0 <= k < route@.len() ==> route@[k] < self@.len(),
                origin == hop_origin(start, route@, hop as int),
                hops_known(self@, start, route@, hop as int),
                length == hops_length(self@, start, route@, hop as nat),
            decreases route.len() - hop,
        {
            let target: usize = route[hop];
            let from = self.system(origin);
            let to = self.system(target);
            match from.get_distance_to(to.name()) {
                Some(distance) => {
                    proof {
                        lemma_hops_length_bound(self@, start, route@, hop as nat);
                        assert(hop * u64::MAX + u64::MAX <= u128::MAX) by (nonlinear_arith)
                            requires
                                hop <= u64::MAX,
                        ;
                    }
                    length = length + distance as u128;
                },
                None => {
                    proof {
                        let first = first_unknown_hop(self@, start, route@);
                        assert(!hop_known(self@, start, route@, hop as int));
                        if first < hop {
                            assert(hop_known(self@, start, route@, first));
                        } else if hop < first {
                            assert(hop_known(self@, start, route@, hop as int));
                        }
                    }
                    return Err(
                        SearchError::MissingDistance {
                            from: from.name().clone(),
                            to: to.name().clone(),
                        },
                    );
                },
            }
            origin = target;
            hop += 1;
        }
        Ok(length)
    }

    /// Tries one ordering of the systems of `pool`: offers the route that
    /// visits them in that ordering to `record`, unless a distance that the
    /// route needs is not known.
    pub fn try_ordering(
        &self,
        start: usize,
        pool: &Vec<usize>,
        ordering: &Vec<usize>,
        record: &mut CurrentShortest,
    ) -> (outcome: Result<(), SearchError>)
        requires
            start < self@.len(),
            forall|k: int| 0 <= k < pool@.len() ==> pool@[k] < self@.len(),
            forall|k: int| 0 <= k < ordering@.len() ==> ordering@[k] < pool@.len(),
        ensures
            match outcome {
                Ok(()) => {
                    &&& route_known(self@, start, arranged(pool@, ordering@))
                    &&& final(record)@ == keep_shorter(
                        old(record)@,
                        candidate(self@, start, arranged(pool@, ordering@)),
                    )
                },
                Err(error) => {
                    let route = arranged(pool@, ordering@);
                    let hop = first_unknown_hop(self@, start, route);
                    &&& !route_known(self@, start, route)
                    &&& names_hop(error, self@, hop_origin(start, route, hop), route[hop])
                    &&& final(record)@ == old(record)@
                },
            },
    {
        let route = arrange(pool, ordering);
        match self.route_length(start, &route) {
            Ok(length) => {
                record.register(&route, length);
                Ok(())
            },
            Err(error) => Err(error),
        }
    }

    /// Finds the shortest route that sets out at the system named `start`
    /// and visits every other registered system once, by trying every order
    /// of visiting them.
    ///
    /// Before every `feedback_step`-th candidate the number of candidates
    /// done is reported to `progress`, and after the last the total. A
    /// `feedback_step` of 0 is refused. The search stops at the first route
    /// that needs a distance which is not known.
    pub fn build_shortest_path(
        &self,
        start: &String,
        feedback_step: usize,
        progress: &mut ProgressHolder,
    ) -> (outcome: Result<CurrentShortest, SearchError>)
        requires
            is_registered(self@, start@),
        ensures
            feedback_step == 0 ==> {
                &&& outcome matches Err(SearchError::ZeroFeedbackStep)
                &&& final(progress)@ == old(progress)@
            },
            feedback_step != 0 ==> {
                &&& final(progress)@.total == representable_factorial((self@.len() - 1) as nat)
                &&& search_outcome(
                    self@,
                    position_of(self@, start@) as usize,
                    feedback_step,
                    final(progress)@.total,
                    orderings((self@.len() - 1) as usize),
                    outcome,
                    final(progress)@.reports,
                )
                &&& orderings((self@.len() - 1) as usize).len() == factorial(
                    (self@.len() - 1) as nat,
                )
                &&& outcome is Ok <==> distances_complete(
                    self@,
                    position_of(self@, start@) as usize,
                )
                &&& outcome matches Ok(record) ==> is_shortest_route(
                    self@,
                    position_of(self@, start@) as usize,
                    record@,
                )
                &&& outcome is Ok ==> latest(final(progress)@.reports) == completion_mark(
                    representable_factorial((self@.len() - 1) as nat),
                )
            },
    {
        if feedback_step == 0 {
            return Err(SearchError::ZeroFeedbackStep);
        }
        let count: usize = self.len();
        let at: usize = self.position(start).unwrap();
        let total = self.permutation_size_hint();
        progress.reset(total);
        let pool = positions_except(count, at);
        let mut enumeration = enumerate_orderings(pool.len());
        let mut record = CurrentShortest::new();
        let mut done: u128 = 0;
        let ghost listing = orderings(pool.len());
        let ghost mut examined: nat = 0;
        proof {
            assert(listing.skip(0) =~= listing);
            lemma_length_of_listing(listing, (count - 1) as nat);
        }
        loop
            invariant_except_break
                examined <= listing.len(),
                pending(enumeration) == listing.skip(examined as int),
            invariant
                feedback_step != 0,
                at == position_of(self@, start@),
                at < count == self@.len(),
                pool@ == other_positions(count as nat, at),
                listing == orderings((count - 1) as usize),
                listing.len() == factorial((count - 1) as nat),
                forall|k: int|
                    0 <= k < listing.len() ==> is_ordering(
                        #[trigger] listing[k],
                        (count - 1) as nat,
                    ),
                total == representable_factorial((count - 1) as nat),
                done == saturated(examined),
                routes_known(
                    self@,
                    at,
                    candidate_routes(count as nat, at, listing),
                    examined as int,
                ),
                record@ == shortest_of(
                    candidates(self@, at, candidate_routes(count as nat, at, listing)),
                    examined,
                ),
                progress@.total == total,
                progress@.reports == periodic_reports(feedback_step, examined),
            ensures
                examined == listing.len(),
            decreases listing.len() - examined,
        {
            let next = next_ordering(&mut enumeration);
            let ordering = match next {
                Some(ordering) => ordering,
                None => {
                    break ;
                },
            };
            proof {
                assert(ordering@ == listing[examined as int]);
                assert(is_ordering(listing[examined as int], (count - 1) as nat));
                assert(pending(enumeration) =~= listing.skip(examined as int + 1));
                lemma_search_step(self@, at, feedback_step, listing, examined);
            }
            if done % (feedback_step as u128) == 0 {
                progress.feedback(done);
            }
            match self.try_ordering(at, &pool, &ordering, &mut record) {
                Ok(()) => {},
                Err(error) => {
                    proof {
                        lemma_search_fails(
                            self@,
                            at,
                            feedback_step,
                            total,
                            listing,
                            examined as int,
                            error,
                            progress@.reports,
                        );
                        lemma_unknown_distance_is_needed(self@, at, ordering@);
                    }
                    return Err(error);
                },
            }
            if done < u128::MAX {
                done = done + 1;
            }
            proof {
                examined = examined + 1;
            }
        }
        progress.feedback(
            match total {
                Some(all) => all,
                None => u128::MAX,
            },
        );
        proof {
            lemma_search_succeeds(
                self@,
                at,
                feedback_step,
                total,
                listing,
                record,
                progress@.reports,
            );
        }
        Ok(record)
    }
}

} // verus!
