//! There are `n!` orderings of `n` positions.

use crate::counting::factorial;
use crate::enumeration::is_ordering;
use crate::enumeration::lists_every_ordering;
use vstd::prelude::*;
use vstd::relations::injective_on;
use vstd::set_lib::lemma_map_size;
use vstd::set_lib::lemma_set_disjoint_lens;

verus! {

/// The set of all orderings of `n` positions.
pub open spec fn all_orderings(n: nat) -> Set<Seq<usize>> {
    Set::new(|ordering: Seq<usize>| is_ordering(ordering, n))
}

/// The orderings of `n + 1` positions that begin with `first`.
pub open spec fn orderings_from(n: nat, first: usize) -> Set<Seq<usize>> {
    Set::new(|ordering: Seq<usize>| is_ordering(ordering, n + 1) && ordering[0] == first)
}

/// The orderings of `n + 1` positions that begin with a position below `bound`.
pub open spec fn orderings_from_below(n: nat, bound: nat) -> Set<Seq<usize>> {
    Set::new(|ordering: Seq<usize>| is_ordering(ordering, n + 1) && ordering[0] < bound)
}

/// A position of `0..n` as it is called once `first` has been put among
/// them: those from `first` on move up by one.
pub open spec fn lifted(position: usize, first: usize) -> usize {
    if position >= first {
        (position + 1) as usize
    } else {
        position
    }
}

/// A position other than `first` as it is called once `first` has been
/// taken away: those above `first` move down by one.
pub open spec fn lowered(position: usize, first: usize) -> usize {
    if position > first {
        (position - 1) as usize
    } else {
        position
    }
}

/// The ordering of `n + 1` positions that begins with `first` and goes on
/// as `rest` orders the others.
pub open spec fn prefixed(rest: Seq<usize>, first: usize) -> Seq<usize> {
    Seq::new(
        rest.len() + 1,
        |k: int|
            if k == 0 {
                first
            } else {
                lifted(rest[k - 1], first)
            },
    )
}

/// How an ordering orders the positions other than its first.
pub open spec fn unprefixed(ordering: Seq<usize>) -> Seq<usize> {
    Seq::new((ordering.len() - 1) as nat, |k: int| lowered(ordering[k + 1], ordering[0]))
}

/// Putting a position in front of an ordering of the others gives an
/// ordering, from which the ordering of the others is had back.
pub proof fn lemma_prefixed(rest: Seq<usize>, n: nat, first: usize)
    requires
        is_ordering(rest, n),
        first <= n < usize::MAX,
    ensures
        is_ordering(prefixed(rest, first), n + 1),
        prefixed(rest, first)[0] == first,
        unprefixed(prefixed(rest, first)) == rest,
{
    let whole = prefixed(rest, first);
    assert forall|k: int| 0 <= k < n + 1 implies #[trigger] whole[k] < n + 1 by {
        if k > 0 {
            assert(rest[k - 1] < n);
        }
    }
    assert forall|j: int, k: int| 0 <= j < k < n + 1 implies whole[j] != whole[k] by {
        assert(rest[k - 1] < n);
        if j > 0 {
            assert(rest[j - 1] < n);
            assert(rest[j - 1] != rest[k - 1]);
        }
    }
    assert forall|k: int| 0 <= k < n implies unprefixed(whole)[k] == rest[k] by {
        assert(rest[k] < n);
    }
    assert(unprefixed(whole) =~= rest);
}

/// Taking the first position off an ordering leaves an ordering of the
/// others, from which the ordering is had back.
pub proof fn lemma_unprefixed(ordering: Seq<usize>, n: nat)
    requires
        is_ordering(ordering, n + 1),
        n < usize::MAX,
    ensures
        is_ordering(unprefixed(ordering), n),
        prefixed(unprefixed(ordering), ordering[0]) == ordering,
{
    let first = ordering[0];
    let rest = unprefixed(ordering);
    assert(first < n + 1);
    assert forall|k: int| 0 <= k < n implies #[trigger] rest[k] < n by {
        assert(ordering[k + 1] < n + 1);
        assert(ordering[0] != ordering[k + 1]);
    }
    assert forall|j: int, k: int| 0 <= j < k < n implies rest[j] != rest[k] by {
        assert(ordering[j + 1] < n + 1);
        assert(ordering[k + 1] < n + 1);
        assert(ordering[0] != ordering[j + 1]);
        assert(ordering[0] != ordering[k + 1]);
        assert(ordering[j + 1] != ordering[k + 1]);
    }
    assert forall|k: int| 0 <= k < n + 1 implies prefixed(rest, first)[k] == ordering[k] by {
        if k > 0 {
            assert(ordering[k] < n + 1);
            assert(ordering[0] != ordering[k]);
        }
    }
    assert(prefixed(rest, first) =~= ordering);
}

/// As many orderings of `n + 1` positions begin with a given position as
/// there are orderings of `n` positions.
pub proof fn lemma_orderings_from(n: nat, first: usize)
    requires
        first <= n < usize::MAX,
        all_orderings(n).finite(),
    ensures
        orderings_from(n, first).finite(),
        orderings_from(n, first).len() == all_orderings(n).len(),
{
    let put = |rest: Seq<usize>| prefixed(rest, first);
    let smaller = all_orderings(n);
    let larger = orderings_from(n, first);
    assert forall|a: Seq<usize>, b: Seq<usize>|
        smaller.contains(a) && smaller.contains(b) && #[trigger] put(a) == #[trigger] put(
            b,
        ) implies a == b by {
        lemma_prefixed(a, n, first);
        lemma_prefixed(b, n, first);
    }
    assert(injective_on(put, smaller));
    assert forall|ordering: Seq<usize>| smaller.map(put).contains(ordering) <==> larger.contains(
        ordering,
    ) by {
        if smaller.map(put).contains(ordering) {
            let rest = choose|rest: Seq<usize>| smaller.contains(rest) && ordering == put(rest);
            lemma_prefixed(rest, n, first);
        }
        if larger.contains(ordering) {
            lemma_unprefixed(ordering, n);
            let rest = unprefixed(ordering);
            assert(smaller.contains(rest) && ordering == put(rest));
        }
    }
    assert(smaller.map(put) =~= larger);
    lemma_map_size(smaller, larger, put);
}

/// The orderings of `n + 1` positions that begin below `bound` are `bound`
/// times as many as the orderings of `n` positions.
pub proof fn lemma_orderings_from_below(n: nat, bound: nat)
    requires
        bound <= n + 1 <= usize::MAX,
        all_orderings(n).finite(),
    ensures
        orderings_from_below(n, bound).finite(),
        orderings_from_below(n, bound).len() == bound * all_orderings(n).len(),
    decreases bound,
{
    if bound == 0 {
        assert(orderings_from_below(n, 0) =~= Set::<Seq<usize>>::empty());
    } else {
        let first = (bound - 1) as usize;
        let before = orderings_from_below(n, (bound - 1) as nat);
        let added = orderings_from(n, first);
        lemma_orderings_from_below(n, (bound - 1) as nat);
        lemma_orderings_from(n, first);
        assert(before.disjoint(added));
        assert(orderings_from_below(n, bound) =~= before + added);
        lemma_set_disjoint_lens(before, added);
        assert(bound * all_orderings(n).len() == (bound - 1) * all_orderings(n).len()
            + all_orderings(n).len()) by (nonlinear_arith);
    }
}

/// There are `n!` orderings of `n` positions.
pub proof fn lemma_count_of_orderings(n: nat)
    requires
        n <= usize::MAX,
    ensures
        all_orderings(n).finite(),
        all_orderings(n).len() == factorial(n),
    decreases n,
{
    if n == 0 {
        let none = Seq::<usize>::empty();
        assert(is_ordering(none, 0));
        assert forall|ordering: Seq<usize>| all_orderings(0).contains(ordering) <==> set![
            none,
        ].contains(ordering) by {
            if is_ordering(ordering, 0) {
                assert(ordering =~= none);
            }
        }
        assert(all_orderings(0) =~= set![none]);
    } else {
        let fewer = (n - 1) as nat;
        lemma_count_of_orderings(fewer);
        lemma_orderings_from_below(fewer, n);
        assert forall|ordering: Seq<usize>| all_orderings(n).contains(ordering)
            <==> orderings_from_below(fewer, n).contains(ordering) by {
            if is_ordering(ordering, n) {
                assert(ordering[0] < n);
            }
        }
        assert(all_orderings(n) =~= orderings_from_below(fewer, n));
    }
}

/// A listing that holds every ordering of `n` positions, and none twice,
/// holds `n!` of them.
pub proof fn lemma_length_of_listing(listing: Seq<Seq<usize>>, n: nat)
    requires
        n <= usize::MAX,
        lists_every_ordering(listing, n),
        listing.no_duplicates(),
    ensures
        listing.len() == factorial(n),
{
    lemma_count_of_orderings(n);
    assert forall|ordering: Seq<usize>| listing.to_set().contains(ordering) <==> all_orderings(
        n,
    ).contains(ordering) by {
        if listing.to_set().contains(ordering) {
            let k = choose|k: int| 0 <= k < listing.len() && listing[k] == ordering;
            assert(is_ordering(listing[k], n));
        }
    }
    assert(listing.to_set() =~= all_orderings(n));
    listing.unique_seq_to_set();
}

} // verus!
