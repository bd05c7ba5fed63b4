//! The shortest route seen so far.

use vstd::prelude::*;

verus! {

/// A route offered to the record: the positions it visits, in order, and its length.
pub struct Candidate {
    pub ordering: Seq<usize>,
    pub length: u128,
}

/// What the record holds once `candidate` was offered to it while it held
/// `held`: the candidate where it is strictly shorter, or where nothing was
/// held; else what was held.
pub open spec fn keep_shorter(held: Option<Candidate>, candidate: Candidate) -> Option<Candidate> {
    match held {
        Some(best) => if candidate.length < best.length {
            Some(candidate)
        } else {
            held
        },
        None => Some(candidate),
    }
}

/// What the record holds once the first `count` of `candidates` were offered
/// to an empty record, one after the other.
pub open spec fn shortest_of(candidates: Seq<Candidate>, count: nat) -> Option<Candidate>
    decreases count,
{
    if count == 0 {
        None
    } else {
        keep_shorter(shortest_of(candidates, (count - 1) as nat), candidates[count - 1])
    }
}

#[derive(Debug)]
struct Best {
    ordering: Vec<usize>,
    length: u128,
}

/// The running minimum of the routes registered with it: the first of the
/// shortest.
#[derive(Debug)]
pub struct CurrentShortest {
    best: Option<Best>,
}

impl View for CurrentShortest {
    type V = Option<Candidate>;

    closed spec fn view(&self) -> Option<Candidate> {
        match self.best {
            Some(best) => Some(Candidate { ordering: best.ordering@, length: best.length }),
            None => None,
        }
    }
}

impl CurrentShortest {
    /// A record that holds no route yet.
    pub fn new() -> (record: CurrentShortest)
        ensures
            record@ is None,
    {
        CurrentShortest { best: None }
    }

    /// Offers a route to the record, which keeps it if it is strictly shorter
    /// than the one it holds, or if it holds none.
    pub fn register(&mut self, ordering: &Vec<usize>, length: u128)
        ensures
            final(self)@ == keep_shorter(
                old(self)@,
                Candidate { ordering: ordering@, length },
            ),
    {
        let replace = match &self.best {
            Some(best) => length < best.length,
            None => true,
        };
        if replace {
            let mut copy: Vec<usize> = Vec::new();
            let mut i: usize = 0;
            while i < ordering.len()
                invariant
                    0 <= i <= ordering.len(),
                    copy@ == ordering@.take(i as int),
                decreases ordering.len() - i,
            {
                copy.push(ordering[i]);
                assert(copy@ =~= ordering@.take(i + 1));
                i += 1;
            }
            assert(copy@ =~= ordering@);
            self.best = Some(Best { ordering: copy, length });
        }
    }

    /// The positions that the held route visits, in order.
    pub fn ordering(&self) -> (ordering: Option<&Vec<usize>>)
        ensures
            match ordering {
                Some(positions) => self@ is Some && positions@ == self@->0.ordering,
                None => self@ is None,
            },
    {
        match &self.best {
            Some(best) => Some(&best.ordering),
            None => None,
        }
    }

    /// The length of the held route.
    pub fn length(&self) -> (length: Option<u128>)
        ensures
            match length {
                Some(total) => self@ is Some && total == self@->0.length,
                None => self@ is None,
            },
    {
        match &self.best {
            Some(best) => Some(best.length),
            None => None,
        }
    }
}

/// Offering the same route twice leaves the record as the first offer left it.
pub proof fn lemma_register_twice(held: Option<Candidate>, candidate: Candidate)
    ensures
        keep_shorter(keep_shorter(held, candidate), candidate) == keep_shorter(held, candidate),
{
}

/// A strictly shorter route offered to a record that holds a longer one
/// takes its place.
pub proof fn lemma_shorter_replaces(longer: Candidate, shorter: Candidate)
    requires
        shorter.length < longer.length,
    ensures
        keep_shorter(Some(longer), shorter) == Some(shorter),
        keep_shorter(keep_shorter(None, longer), shorter) == Some(shorter),
{
}

/// A route offered after one that is no longer than it changes nothing,
/// whatever the record held before the two.
pub proof fn lemma_not_shorter_is_ignored(
    held: Option<Candidate>,
    earlier: Candidate,
    later: Candidate,
)
    requires
        earlier.length <= later.length,
    ensures
        keep_shorter(keep_shorter(held, earlier), later) == keep_shorter(held, earlier),
{
}

/// After any number of offers the record holds one of the routes offered,
/// none of those offered is shorter, and none of those as short was offered
/// before it.
pub proof fn lemma_shortest_of_is_first_minimum(candidates: Seq<Candidate>, count: nat)
    requires
        0 < count <= candidates.len(),
    ensures
        shortest_of(candidates, count) is Some,
        exists|i: int|
            {
                &&& 0 <= i < count
                &&& #[trigger] candidates[i] == shortest_of(candidates, count)->0
                &&& forall|j: int| 0 <= j < i ==> (#[trigger] candidates[j]).length > candidates[i].length
            },
        forall|j: int|
            0 <= j < count ==> shortest_of(candidates, count)->0.length <= (
            #[trigger] candidates[j]).length,
    decreases count,
{
    if count == 1 {
        assert(shortest_of(candidates, 0) is None);
        assert(candidates[0] == shortest_of(candidates, count)->0);
    } else {
        let before = (count - 1) as nat;
        lemma_shortest_of_is_first_minimum(candidates, before);
        let held = shortest_of(candidates, before)->0;
        let i = choose|i: int|
            {
                &&& 0 <= i < before
                &&& #[trigger] candidates[i] == held
                &&& forall|j: int| 0 <= j < i ==> (#[trigger] candidates[j]).length > candidates[i].length
            };
        if candidates[count - 1].length < held.length {
            assert(candidates[count - 1] == shortest_of(candidates, count)->0);
        } else {
            assert(candidates[i] == shortest_of(candidates, count)->0);
        }
    }
}

} // verus!
