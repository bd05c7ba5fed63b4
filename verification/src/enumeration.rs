//! Orderings and pairings of positions, as the crate `itertools` enumerates them.
//!
//! Both are taken over the positions `0..n` of a list, not over its items: the
//! caller maps each position back to the item that stands there.

use itertools::Itertools;
use itertools::Permutations;
use std::ops::Range;
use vstd::prelude::*;

verus! {

/// The iterator that `Itertools::permutations` returns.
#[verifier::external_type_specification]
#[verifier::external_body]
#[verifier::reject_recursive_types(I)]
pub struct ExPermutations<I: Iterator>(Permutations<I>);

/// An ordering of `n` positions names each of `0..n` exactly once.
pub open spec fn is_ordering(ordering: Seq<usize>, n: nat) -> bool {
    &&& ordering.len() == n
    &&& forall|i: int| 0 <= i < n ==> #[trigger] ordering[i] < n
    &&& forall|i: int, j: int| 0 <= i < j < n ==> ordering[i] != ordering[j]
}

/// `listing` holds orderings of `n` positions only, and holds every one of them.
pub open spec fn lists_every_ordering(listing: Seq<Seq<usize>>, n: nat) -> bool {
    &&& forall|i: int| 0 <= i < listing.len() ==> is_ordering(#[trigger] listing[i], n)
    &&& forall|ordering: Seq<usize>| #[trigger]
        is_ordering(ordering, n) ==> listing.contains(ordering)
}

/// What `(0..n).permutations(n)` yields, first to last.
pub uninterp spec fn orderings(n: usize) -> Seq<Seq<usize>>;

/// What an enumeration of orderings has yet to yield, next one first.
pub uninterp spec fn pending(enumeration: Permutations<Range<usize>>) -> Seq<Seq<usize>>;

/// Calls `Itertools::permutations` on the positions `0..n`, taking all `n` at a time.
///
/// Not proved: that what the iterator will yield are orderings of the `n`
/// positions, that every such ordering is among them, and that none comes
/// twice. The order in which they come is left open: it is only given the
/// name [`orderings`].
#[verifier::external_body]
pub(crate) fn enumerate_orderings(n: usize) -> (enumeration: Permutations<Range<usize>>)
    ensures
        pending(enumeration) == orderings(n),
        lists_every_ordering(pending(enumeration), n as nat),
        pending(enumeration).no_duplicates(),
{
    (0..n).permutations(n)
}

/// Calls `Iterator::next` on an enumeration of orderings.
///
/// Not proved: that it hands out what was pending in front and leaves the
/// rest pending, and that it returns `None` once nothing is pending.
#[verifier::external_body]
pub(crate) fn next_ordering(enumeration: &mut Permutations<Range<usize>>) -> (next: Option<
    Vec<usize>,
>)
    ensures
        match next {
            Some(ordering) => {
                &&& pending(*old(enumeration)).len() > 0
                &&& ordering@ == pending(*old(enumeration)).first()
                &&& pending(*final(enumeration)) == pending(*old(enumeration)).drop_first()
            },
            None => {
                &&& pending(*old(enumeration)).len() == 0
                &&& pending(*final(enumeration)).len() == 0
            },
        },
{
    enumeration.next()
}

/// The pairs that begin with `first` among the positions `0..n`, by rising second position.
pub open spec fn pairs_led_by(first: nat, n: nat) -> Seq<(usize, usize)> {
    Seq::new((n - 1 - first) as nat, |k: int| (first as usize, (first + 1 + k) as usize))
}

/// The pairs of the positions `0..n` whose first position is below `bound`.
pub open spec fn pairs_below(bound: nat, n: nat) -> Seq<(usize, usize)>
    decreases bound,
{
    if bound == 0 {
        Seq::empty()
    } else {
        pairs_below((bound - 1) as nat, n) + pairs_led_by((bound - 1) as nat, n)
    }
}

/// Every pair of two different positions among `0..n`, the lower position
/// first, in lexicographic order: `(0, 1), (0, 2), .., (1, 2), ..`.
pub open spec fn pairings(n: nat) -> Seq<(usize, usize)> {
    pairs_below(n, n)
}

/// Calls `Itertools::combinations` on the positions `0..n`, two at a time,
/// and collects what it yields.
///
/// Not proved: that it yields the pairs of [`pairings`], each as a list of
/// two positions, in that order.
#[verifier::external_body]
pub(crate) fn enumerate_pairings(n: usize) -> (pairs: Vec<Vec<usize>>)
    ensures
        pairs@.len() == pairings(n as nat).len(),
        forall|i: int|
            0 <= i < pairs@.len() ==> (#[trigger] pairs@[i])@ == seq![
                pairings(n as nat)[i].0,
                pairings(n as nat)[i].1,
            ],
{
    (0..n).combinations(2).collect()
}

/// One pair comes before another in lexicographic order.
pub open spec fn pair_precedes(earlier: (usize, usize), later: (usize, usize)) -> bool {
    earlier.0 < later.0 || (earlier.0 == later.0 && earlier.1 < later.1)
}

/// The pairs whose first position is below `bound`: each holds two
/// positions, the lower one first; each such pair is among them; they
/// rise in lexicographic order, so none comes twice; and their number is
/// known.
pub proof fn lemma_pairs_below(bound: nat, n: nat)
    requires
        bound <= n <= usize::MAX,
    ensures
        forall|i: int|
            0 <= i < pairs_below(bound, n).len() ==> {
                let pair = #[trigger] pairs_below(bound, n)[i];
                pair.0 < pair.1 < n && pair.0 < bound
            },
        forall|first: usize, second: usize|
            first < bound && first < second < n ==> #[trigger] pairs_below(bound, n).contains(
                (first, second),
            ),
        forall|i: int, j: int|
            0 <= i < j < pairs_below(bound, n).len() ==> pair_precedes(
                #[trigger] pairs_below(bound, n)[i],
                #[trigger] pairs_below(bound, n)[j],
            ),
        2 * pairs_below(bound, n).len() == bound * (2 * n - 1 - bound),
    decreases bound,
{
    if bound > 0 {
        let lower = (bound - 1) as nat;
        let before = pairs_below(lower, n);
        let led = pairs_led_by(lower, n);
        let all = pairs_below(bound, n);
        lemma_pairs_below(lower, n);
        assert forall|first: usize, second: usize|
            first < bound && first < second < n implies #[trigger] all.contains(
            (first, second),
        ) by {
            if first < lower {
                assert(before.contains((first, second)));
                let i = choose|i: int| 0 <= i < before.len() && before[i] == (first, second);
                assert(all[i] == (first, second));
            } else {
                let k = second - first - 1;
                assert(led[k] == (first, second));
                assert(all[before.len() + k] == (first, second));
            }
        }
        assert forall|i: int, j: int| 0 <= i < j < all.len() implies pair_precedes(
            #[trigger] all[i],
            #[trigger] all[j],
        ) by {
            if j < before.len() {
                assert(all[i] == before[i]);
                assert(all[j] == before[j]);
            } else if i < before.len() {
                assert(all[i] == before[i]);
                assert(all[j] == led[j - before.len()]);
            } else {
                assert(all[i] == led[i - before.len()]);
                assert(all[j] == led[j - before.len()]);
            }
        }
        assert(bound * (2 * n - 1 - bound) == lower * (2 * n - 1 - lower) + 2 * (n - 1 - lower))
            by (nonlinear_arith)
            requires
                bound == lower + 1,
        ;
    }
}

/// The pairings of `n` positions are the pairs of two different positions,
/// the lower one first, each once, and there are `n * (n - 1) / 2` of them.
pub proof fn lemma_pairings(n: nat)
    requires
        n <= usize::MAX,
    ensures
        forall|i: int|
            0 <= i < pairings(n).len() ==> (#[trigger] pairings(n)[i]).0 < pairings(n)[i].1 < n,
        forall|first: usize, second: usize|
            first < second < n ==> #[trigger] pairings(n).contains((first, second)),
        forall|i: int, j: int|
            0 <= i < j < pairings(n).len() ==> #[trigger] pairings(n)[i] != #[trigger] pairings(
                n,
            )[j],
        2 * pairings(n).len() == n * (n - 1),
{
    lemma_pairs_below(n, n);
    assert forall|i: int, j: int| 0 <= i < j < pairings(n).len() implies #[trigger] pairings(
        n,
    )[i] != #[trigger] pairings(n)[j] by {
        assert(pair_precedes(pairings(n)[i], pairings(n)[j]));
    }
    assert(n * (2 * n - 1 - n) == n * (n - 1)) by (nonlinear_arith);
}

} // verus!
