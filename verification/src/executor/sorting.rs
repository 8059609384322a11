//! Sorting names: in natural order, or in the order of the human-sort
//! crate.

use crate::executor::human::{compare_human, has_readable_digit_runs, human_order, readable_digit_runs};
use crate::executor::natural::{
    compare_natural, lemma_natural_order_reverses, natural_order, Precedence,
};
use crate::text::views_of;
use vstd::prelude::*;

verus! {

/// The orders in which names can be sorted.
#[derive(Clone, Copy, Debug, PartialEq, Eq, Structural)]
pub enum SortOrder {
    /// By natural sort key.
    Natural,
    /// By the verdicts of the human-sort crate.
    Human,
}

/// `a` comes strictly before `b` in the given order.
pub open spec fn comes_before(order: SortOrder, a: Seq<char>, b: Seq<char>) -> bool {
    match order {
        SortOrder::Natural => natural_order(a, b) == Precedence::Before,
        SortOrder::Human => human_order(a, b) == Precedence::Before,
    }
}

/// `a` comes strictly before `b` in natural order.
pub open spec fn precedes(a: Seq<char>, b: Seq<char>) -> bool {
    comes_before(SortOrder::Natural, a, b)
}

/// Where `x` goes into `sorted`: behind the last name that `x` does not
/// come strictly before, so that names that rank the same keep their order.
pub open spec fn insertion_point_in(order: SortOrder, sorted: Seq<Seq<char>>, x: Seq<char>) -> int
    decreases sorted.len(),
{
    if sorted.len() > 0 && comes_before(order, x, sorted.last()) {
        insertion_point_in(order, sorted.drop_last(), x)
    } else {
        sorted.len() as int
    }
}

/// The names in the given order: each name in turn is put at its insertion
/// point among those before it.
pub open spec fn sorted_in(order: SortOrder, names: Seq<Seq<char>>) -> Seq<Seq<char>>
    decreases names.len(),
{
    if names.len() == 0 {
        Seq::empty()
    } else {
        let rest = sorted_in(order, names.drop_last());
        rest.insert(insertion_point_in(order, rest, names.last()), names.last())
    }
}

/// Where `x` goes into `sorted` in natural order.
pub open spec fn insertion_point(sorted: Seq<Seq<char>>, x: Seq<char>) -> int {
    insertion_point_in(SortOrder::Natural, sorted, x)
}

/// The names in natural order.
pub open spec fn natural_sorted(names: Seq<Seq<char>>) -> Seq<Seq<char>> {
    sorted_in(SortOrder::Natural, names)
}

/// The names in human-friendly order.
pub open spec fn human_sorted(names: Seq<Seq<char>>) -> Seq<Seq<char>> {
    sorted_in(SortOrder::Human, names)
}

/// Whether every name can be compared in the given order: in
/// human-friendly order every run of digits must denote a number that fits
/// 32 bits.
pub open spec fn sortable(order: SortOrder, names: Seq<Seq<char>>) -> bool {
    order == SortOrder::Human ==> forall|i: int|
        0 <= i < names.len() ==> readable_digit_runs(#[trigger] names[i])
}

/// The insertion point lies behind a name that `x` does not precede, and
/// `x` precedes every name behind it.
pub proof fn lemma_insertion_point_in(order: SortOrder, sorted: Seq<Seq<char>>, x: Seq<char>)
    ensures
        0 <= insertion_point_in(order, sorted, x) <= sorted.len(),
        insertion_point_in(order, sorted, x) > 0 ==> !comes_before(
            order,
            x,
            sorted[insertion_point_in(order, sorted, x) - 1],
        ),
        forall|j: int|
            insertion_point_in(order, sorted, x) <= j < sorted.len() ==> comes_before(
                order,
                x,
                #[trigger] sorted[j],
            ),
    decreases sorted.len(),
{
    if sorted.len() > 0 && comes_before(order, x, sorted.last()) {
        lemma_insertion_point_in(order, sorted.drop_last(), x);
        let at = insertion_point_in(order, sorted, x);
        assert forall|j: int| at <= j < sorted.len() implies comes_before(
            order,
            x,
            #[trigger] sorted[j],
        ) by {
            if j < sorted.len() - 1 {
                assert(sorted.drop_last()[j] == sorted[j]);
            }
        }
        if at > 0 {
            assert(sorted.drop_last()[at - 1] == sorted[at - 1]);
        }
    }
}

/// The insertion point in natural order lies behind a name that `x` does
/// not precede, and `x` precedes every name behind it.
pub proof fn lemma_insertion_point(sorted: Seq<Seq<char>>, x: Seq<char>)
    ensures
        0 <= insertion_point(sorted, x) <= sorted.len(),
        insertion_point(sorted, x) > 0 ==> !precedes(x, sorted[insertion_point(sorted, x) - 1]),
        forall|j: int|
            insertion_point(sorted, x) <= j < sorted.len() ==> precedes(x, #[trigger] sorted[j]),
{
    lemma_insertion_point_in(SortOrder::Natural, sorted, x);
}

/// Sorting loses no name and adds none, whatever the order: the result
/// holds each name as often as the input does.
pub proof fn lemma_sorted_is_permutation(order: SortOrder, names: Seq<Seq<char>>)
    ensures
        sorted_in(order, names).len() == names.len(),
        sorted_in(order, names).to_multiset() == names.to_multiset(),
        forall|name: Seq<char>| sorted_in(order, names).contains(name) <==> names.contains(name),
    decreases names.len(),
{
    broadcast use vstd::seq_lib::group_to_multiset_ensures;

    if names.len() == 0 {
        assert(sorted_in(order, names) =~= names);
    } else {
        let rest = sorted_in(order, names.drop_last());
        lemma_sorted_is_permutation(order, names.drop_last());
        lemma_insertion_point_in(order, rest, names.last());
        vstd::seq_lib::to_multiset_insert(
            rest,
            insertion_point_in(order, rest, names.last()),
            names.last(),
        );
        assert(names == names.drop_last().push(names.last()));
        assert(names.to_multiset() =~= names.drop_last().to_multiset().insert(names.last()));
    }
    assert forall|name: Seq<char>| sorted_in(order, names).contains(name) <==> names.contains(
        name,
    ) by {
        assert(sorted_in(order, names).to_multiset().count(name) == names.to_multiset().count(
            name,
        ));
    }
}

/// Sorting in natural order loses no name and adds none.
pub proof fn lemma_natural_sorted_is_permutation(names: Seq<Seq<char>>)
    ensures
        natural_sorted(names).len() == names.len(),
        natural_sorted(names).to_multiset() == names.to_multiset(),
        forall|name: Seq<char>| natural_sorted(names).contains(name) <==> names.contains(name),
{
    lemma_sorted_is_permutation(SortOrder::Natural, names);
}

/// In the sorted names no name strictly precedes the one before it.
pub proof fn lemma_natural_sorted_is_ordered(names: Seq<Seq<char>>)
    ensures
        forall|i: int|
            0 <= i < natural_sorted(names).len() - 1 ==> !precedes(
                natural_sorted(names)[i + 1],
                #[trigger] natural_sorted(names)[i],
            ),
    decreases names.len(),
{
    if names.len() > 0 {
        let rest = natural_sorted(names.drop_last());
        let x = names.last();
        let at = insertion_point(rest, x);
        let sorted = natural_sorted(names);
        lemma_natural_sorted_is_ordered(names.drop_last());
        lemma_insertion_point(rest, x);
        assert forall|i: int| 0 <= i < sorted.len() - 1 implies !precedes(
            sorted[i + 1],
            #[trigger] sorted[i],
        ) by {
            if i + 1 < at {
                assert(sorted[i] == rest[i] && sorted[i + 1] == rest[i + 1]);
            } else if i + 1 == at {
                assert(sorted[i] == rest[i] && sorted[i + 1] == x);
            } else if i == at {
                assert(sorted[i] == x && sorted[i + 1] == rest[i]);
                lemma_natural_order_reverses(x, rest[i]);
            } else {
                assert(sorted[i] == rest[i - 1] && sorted[i + 1] == rest[i]);
            }
        }
    }
}

/// Where natural order agrees with a ranking of the names at hand, the
/// sorted names are in the order of their ranks throughout, not only from
/// one name to the next.
pub proof fn lemma_natural_sorted_by_rank(names: Seq<Seq<char>>, rank: spec_fn(Seq<char>) -> int)
    requires
        forall|a: Seq<char>, b: Seq<char>|
            names.contains(a) && names.contains(b) ==> (#[trigger] precedes(a, b) <==> rank(a)
                < rank(b)),
    ensures
        forall|i: int, j: int|
            0 <= i < j < natural_sorted(names).len() ==> rank(natural_sorted(names)[i]) <= rank(
                natural_sorted(names)[j],
            ),
    decreases names.len(),
{
    if names.len() > 0 {
        let fewer = names.drop_last();
        let rest = natural_sorted(fewer);
        let x = names.last();
        let at = insertion_point(rest, x);
        let sorted = natural_sorted(names);
        assert forall|a: Seq<char>| fewer.contains(a) implies names.contains(a) by {
            let i = fewer.index_of(a);
            assert(names[i] == a);
        }
        assert(names.contains(x)) by {
            assert(names[names.len() - 1] == x);
        }
        lemma_natural_sorted_by_rank(fewer, rank);
        lemma_natural_sorted_is_permutation(fewer);
        lemma_insertion_point(rest, x);
        assert forall|k: int| 0 <= k < rest.len() implies names.contains(#[trigger] rest[k]) by {
            assert(rest.contains(rest[k]));
        }
        assert forall|i: int, j: int| 0 <= i < j < sorted.len() implies rank(sorted[i]) <= rank(
            sorted[j],
        ) by {
            if j < at {
                assert(sorted[i] == rest[i] && sorted[j] == rest[j]);
            } else if j == at {
                assert(sorted[i] == rest[i] && sorted[j] == x);
                assert(names.contains(rest[at - 1]));
                assert(!precedes(x, rest[at - 1]));
                if i < at - 1 {
                    assert(rank(rest[i]) <= rank(rest[at - 1]));
                }
            } else if i < at {
                assert(sorted[i] == rest[i] && sorted[j] == rest[j - 1]);
            } else if i == at {
                assert(sorted[i] == x && sorted[j] == rest[j - 1]);
                assert(names.contains(rest[j - 1]));
                assert(precedes(x, rest[j - 1]));
            } else {
                assert(sorted[i] == rest[i - 1] && sorted[j] == rest[j - 1]);
            }
        }
    }
}

proof fn lemma_climbing_from_below(ranks: Seq<int>, k: int)
    requires
        forall|i: int| 0 <= i < ranks.len() ==> 0 <= #[trigger] ranks[i] < ranks.len(),
        forall|i: int, j: int| 0 <= i < j < ranks.len() ==> ranks[i] < ranks[j],
        0 <= k < ranks.len(),
    ensures
        ranks[k] >= k,
    decreases k,
{
    if k > 0 {
        lemma_climbing_from_below(ranks, k - 1);
    }
}

proof fn lemma_climbing_from_above(ranks: Seq<int>, k: int)
    requires
        forall|i: int| 0 <= i < ranks.len() ==> 0 <= #[trigger] ranks[i] < ranks.len(),
        forall|i: int, j: int| 0 <= i < j < ranks.len() ==> ranks[i] < ranks[j],
        0 <= k < ranks.len(),
    ensures
        ranks[k] <= k,
    decreases ranks.len() - k,
{
    if k < ranks.len() - 1 {
        lemma_climbing_from_above(ranks, k + 1);
    }
}

/// Where natural order arranges the names of `goal` just as `goal` lists
/// them, sorting any rearrangement of `goal` gives `goal`.
pub proof fn lemma_natural_sorted_restores(names: Seq<Seq<char>>, goal: Seq<Seq<char>>)
    requires
        names.to_multiset() == goal.to_multiset(),
        forall|i: int, j: int|
            0 <= i < goal.len() && 0 <= j < goal.len() ==> (precedes(
                #[trigger] goal[i],
                #[trigger] goal[j],
            ) <==> i < j),
    ensures
        natural_sorted(names) == goal,
{
    broadcast use vstd::seq_lib::group_to_multiset_ensures;

    let sorted = natural_sorted(names);
    let rank = |name: Seq<char>| goal.index_of(name);
    assert(goal.no_duplicates()) by {
        assert forall|i: int, j: int|
            0 <= i < goal.len() && 0 <= j < goal.len() && i != j implies goal[i] != goal[j] by {
            if goal[i] == goal[j] {
                lemma_natural_order_reverses(goal[i], goal[i]);
                assert(precedes(goal[i], goal[j]) <==> i < j);
                assert(precedes(goal[j], goal[i]) <==> j < i);
            }
        }
    }
    assert forall|a: Seq<char>, b: Seq<char>| names.contains(a) && names.contains(b) implies (
    #[trigger] precedes(a, b) <==> rank(a) < rank(b)) by {
        assert(names.to_multiset().count(a) > 0 && names.to_multiset().count(b) > 0);
        assert(goal.contains(a) && goal.contains(b));
        let i = goal.index_of(a);
        let j = goal.index_of(b);
        assert(precedes(goal[i], goal[j]) <==> i < j);
    }
    lemma_natural_sorted_by_rank(names, rank);
    lemma_natural_sorted_is_permutation(names);
    goal.lemma_multiset_has_no_duplicates();
    sorted.lemma_multiset_has_no_duplicates_conv();
    let ranks = Seq::new(sorted.len(), |k: int| goal.index_of(sorted[k]));
    assert forall|k: int| 0 <= k < sorted.len() implies 0 <= #[trigger] ranks[k] < goal.len()
        && goal[ranks[k]] == sorted[k] by {
        assert(sorted.contains(sorted[k]));
        assert(sorted.to_multiset().count(sorted[k]) > 0);
        assert(goal.contains(sorted[k]));
    }
    assert forall|i: int, j: int| 0 <= i < j < ranks.len() implies ranks[i] < ranks[j] by {
        assert(rank(sorted[i]) <= rank(sorted[j]));
        assert(goal[ranks[i]] == sorted[i] && goal[ranks[j]] == sorted[j]);
        assert(sorted[i] != sorted[j]);
    }
    assert(sorted.len() == goal.len()) by {
        assert(names.len() == names.to_multiset().len());
        assert(goal.len() == goal.to_multiset().len());
    }
    assert forall|k: int| 0 <= k < sorted.len() implies sorted[k] == goal[k] by {
        lemma_climbing_from_below(ranks, k);
        lemma_climbing_from_above(ranks, k);
        assert(goal[ranks[k]] == sorted[k]);
    }
    assert(sorted =~= goal);
}

fn goes_before(order: SortOrder, a: &str, b: &str) -> (before: bool)
    requires
        order == SortOrder::Human ==> readable_digit_runs(a@) && readable_digit_runs(b@),
    ensures
        before == comes_before(order, a@, b@),
{
    match order {
        SortOrder::Natural => compare_natural(a, b) == Precedence::Before,
        SortOrder::Human => match compare_human(a, b) {
            Some(verdict) => verdict == Precedence::Before,
            None => false,
        },
    }
}

fn all_sortable(order: SortOrder, files: &Vec<String>) -> (yes: bool)
    ensures
        yes == sortable(order, views_of(files@)),
{
    match order {
        SortOrder::Natural => true,
        SortOrder::Human => {
            let mut i: usize = 0;
            while i < files.len()
                invariant
                    order == SortOrder::Human,
                    i <= files.len(),
                    forall|k: int| 0 <= k < i ==> readable_digit_runs(#[trigger] views_of(files@)[k]),
                decreases files.len() - i,
            {
                assert(views_of(files@)[i as int] == files[i as int]@);
                if !has_readable_digit_runs(files[i].as_str()) {
                    return false;
                }
                i += 1;
            }
            true
        },
    }
}

/// Sorts the names in the given order, where every name can be compared in
/// it, and leaves them as they are where not. Names that rank the same
/// stay in the order in which they came.
pub fn sort_in_order(files: &mut Vec<String>, order: SortOrder) -> (sorted: bool)
    ensures
        sorted == sortable(order, views_of(old(files)@)),
        sorted ==> views_of(final(files)@) == sorted_in(order, views_of(old(files)@)),
        !sorted ==> views_of(final(files)@) == views_of(old(files)@),
        final(files).len() == old(files).len(),
        views_of(final(files)@).to_multiset() == views_of(old(files)@).to_multiset(),
{
    proof {
        lemma_sorted_is_permutation(order, views_of(files@));
    }
    if !all_sortable(order, files) {
        return false;
    }
    let mut input: Vec<String> = Vec::new();
    std::mem::swap(files, &mut input);
    let mut sorted: Vec<String> = Vec::new();
    let ghost given = views_of(input@);
    for name in it: input
        invariant
            views_of(it.seq()) == given,
            sortable(order, given),
            views_of(sorted@) == sorted_in(order, given.take(it.index() as int)),
    {
        let ghost before = views_of(sorted@);
        proof {
            lemma_sorted_is_permutation(order, given.take(it.index() as int));
            assert(given[it.index() as int] == name@);
            assert forall|k: int|
                0 <= k < before.len() && order == SortOrder::Human implies readable_digit_runs(
                #[trigger] before[k],
            ) by {
                let taken = given.take(it.index() as int);
                assert(before.contains(before[k]));
                assert(taken.contains(before[k]));
                let i = taken.index_of(before[k]);
                assert(taken[i] == before[k]);
                assert(given[i] == taken[i]);
            }
        }
        let mut at: usize = sorted.len();
        assert(before.take(at as int) == before);
        while at > 0 && goes_before(order, name.as_str(), sorted[at - 1].as_str())
            invariant
                at <= sorted.len(),
                before == views_of(sorted@),
                order == SortOrder::Human ==> readable_digit_runs(name@),
                forall|k: int|
                    0 <= k < before.len() && order == SortOrder::Human ==> readable_digit_runs(
                        #[trigger] before[k],
                    ),
                insertion_point_in(order, before, name@) == insertion_point_in(
                    order,
                    before.take(at as int),
                    name@,
                ),
            decreases at,
        {
            assert(before.take(at as int).drop_last() == before.take(at as int - 1));
            at -= 1;
        }
        proof {
            assert(before.take(at as int).len() == at);
            if at > 0 {
                assert(before.take(at as int).last() == sorted[at as int - 1]@);
            }
            assert(given.take(it.index() + 1).drop_last() == given.take(it.index() as int));
            assert(given.take(it.index() + 1).last() == name@);
        }
        sorted.insert(at, name);
        assert(views_of(sorted@) == before.insert(at as int, name@));
    }
    assert(given.take(given.len() as int) == given);
    *files = sorted;
    true
}

/// Sorts the names in natural order. Names that rank the same stay in the
/// order in which they came.
pub fn sort_natural(files: &mut Vec<String>)
    ensures
        views_of(final(files)@) == natural_sorted(views_of(old(files)@)),
        final(files).len() == old(files).len(),
        views_of(final(files)@).to_multiset() == views_of(old(files)@).to_multiset(),
{
    sort_in_order(files, SortOrder::Natural);
}

/// Sorts the names in human-friendly order, unless one of them holds a run
/// of digits that denotes a number beyond 32 bits: then they stay as they
/// are.
pub fn sort_human(files: &mut Vec<String>) -> (sorted: bool)
    ensures
        sorted == sortable(SortOrder::Human, views_of(old(files)@)),
        sorted ==> views_of(final(files)@) == human_sorted(views_of(old(files)@)),
        !sorted ==> views_of(final(files)@) == views_of(old(files)@),
        views_of(final(files)@).to_multiset() == views_of(old(files)@).to_multiset(),
{
    sort_in_order(files, SortOrder::Human)
}

} // verus!
