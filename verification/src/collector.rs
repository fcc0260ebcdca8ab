//! The result collector: puts the outcomes of a batch, which arrive in any
//! order, back into the order of their positions and joins their items.

use vstd::prelude::*;
use crate::counting::{is_arrangement, lemma_arrangement_covers, occurs};
use crate::worker::{contribution, decision_for, Outcome, OutcomeView};

verus! {

/// The outcomes as plain values, in arrival order.
pub open spec fn views(outcomes: Seq<Outcome>) -> Seq<OutcomeView> {
    outcomes.map_values(|outcome: Outcome| outcome@)
}

/// The positions that the outcomes are tagged with, in arrival order.
pub open spec fn positions(outcomes: Seq<OutcomeView>) -> Seq<nat> {
    outcomes.map_values(|outcome: OutcomeView| outcome.position)
}

/// The items of the outcomes tagged `position`, in arrival order.
pub open spec fn items_tagged(outcomes: Seq<OutcomeView>, position: nat) -> Seq<Seq<char>>
    decreases outcomes.len(),
{
    if outcomes.len() == 0 {
        Seq::empty()
    } else {
        items_tagged(outcomes.drop_last(), position) + if outcomes.last().position == position {
            outcomes.last().items
        } else {
            Seq::empty()
        }
    }
}

/// The items of the outcomes tagged below `bound`, by ascending position.
pub open spec fn assembled_below(outcomes: Seq<OutcomeView>, bound: nat) -> Seq<Seq<char>>
    decreases bound,
{
    if bound == 0 {
        Seq::empty()
    } else {
        assembled_below(outcomes, (bound - 1) as nat) + items_tagged(
            outcomes,
            (bound - 1) as nat,
        )
    }
}

/// A bound above every position that the outcomes are tagged with: one more
/// than the highest of them.
pub open spec fn position_bound(outcomes: Seq<OutcomeView>) -> nat
    decreases outcomes.len(),
{
    if outcomes.len() == 0 {
        0
    } else if position_bound(outcomes.drop_last()) > outcomes.last().position {
        position_bound(outcomes.drop_last())
    } else {
        outcomes.last().position + 1
    }
}

/// The items of all the outcomes, by ascending position; the outcomes that
/// share a position keep their arrival order.
pub open spec fn assembled(outcomes: Seq<OutcomeView>) -> Seq<Seq<char>> {
    assembled_below(outcomes, position_bound(outcomes))
}

/// The outcomes that the workers delivered, as plain values, in arrival
/// order.
pub open spec fn delivered<E>(results: Seq<Result<Outcome, E>>) -> Seq<OutcomeView> {
    results.map_values(
        |result: Result<Outcome, E>|
            match result {
                Ok(outcome) => outcome@,
                Err(_) => arbitrary(),
            },
    )
}

/// What each position contributes to a batch: nothing where the total that
/// its worker observed had reached the threshold, else what its job
/// produced.
pub open spec fn contributions(
    observed: Seq<nat>,
    produced: Seq<Seq<Seq<char>>>,
    threshold: nat,
) -> Seq<Seq<Seq<char>>> {
    Seq::new(
        produced.len(),
        |p: int| contribution(decision_for(observed[p], threshold), produced[p]),
    )
}

/// `index` is where the first of the outcomes with the lowest position
/// stands.
pub open spec fn is_earliest_lowest(outcomes: Seq<OutcomeView>, index: int) -> bool {
    &&& 0 <= index < outcomes.len()
    &&& forall|j: int|
        0 <= j < outcomes.len() ==> outcomes[index].position <= (#[trigger] outcomes[j]).position
    &&& forall|j: int|
        0 <= j < index ==> outcomes[index].position < (#[trigger] outcomes[j]).position
}

/// Where the first of the outcomes with the lowest position stands.
fn earliest_lowest(outcomes: &Vec<Outcome>) -> (index: usize)
    requires
        outcomes.len() > 0,
    ensures
        is_earliest_lowest(views(outcomes@), index as int),
{
    let mut index: usize = 0;
    let mut j: usize = 1;
    while j < outcomes.len()
        invariant
            0 <= index < j <= outcomes.len(),
            forall|k: int|
                0 <= k < j ==> outcomes[index as int].position <= (#[trigger] outcomes[k]).position,
            forall|k: int|
                0 <= k < index ==> outcomes[index as int].position < (
                #[trigger] outcomes[k]).position,
        decreases outcomes.len() - j,
    {
        if outcomes[j].position < outcomes[index].position {
            index = j;
        }
        j += 1;
    }
    index
}

/// Sorts the outcomes by position and joins their items in that order: the
/// outcome with the lowest position is taken out and its items are moved to
/// the end of the result, until no outcome is left. The time this takes
/// grows with the square of the number of outcomes.
pub fn collect(outcomes: Vec<Outcome>) -> (items: Vec<String>)
    ensures
        items.deep_view() == assembled(views(outcomes@)),
{
    let ghost arrived = views(outcomes@);
    let mut rest = outcomes;
    let mut items: Vec<String> = Vec::new();
    while rest.len() > 0
        invariant
            items.deep_view() + assembled(views(rest@)) == assembled(arrived),
        decreases rest.len(),
    {
        let index = earliest_lowest(&rest);
        let ghost before = views(rest@);
        let ghost joined = items.deep_view();
        proof {
            lemma_assembled_starts_with_earliest_lowest(before, index as int);
        }
        let mut next = rest.remove(index);
        items.append(&mut next.items);
        assert(views(rest@) =~= before.remove(index as int));
        assert(items.deep_view() =~= joined + before[index as int].items);
    }
    items
}

/// Ends a batch: if a job failed, the batch fails with the failure that
/// arrived first and gives no items; else the items of all the outcomes are
/// joined in the order of their positions.
pub fn conclude<E>(results: Vec<Result<Outcome, E>>) -> (batch: Result<Vec<String>, E>)
    ensures
        batch is Ok <==> forall|i: int| 0 <= i < results@.len() ==> (#[trigger] results@[i]) is Ok,
        match batch {
            Ok(items) => items.deep_view() == assembled(delivered(results@)),
            Err(failure) => exists|i: int|
                {
                    &&& 0 <= i < results@.len()
                    &&& (#[trigger] results@[i]) == Err::<Outcome, E>(failure)
                    &&& forall|j: int| 0 <= j < i ==> (#[trigger] results@[j]) is Ok
                },
        },
{
    let mut outcomes: Vec<Outcome> = Vec::new();
    for result in it: results.into_iter()
        invariant
            it.seq() == results@,
            outcomes@.len() == it.index(),
            forall|j: int|
                0 <= j < it.index() ==> (#[trigger] results@[j]) == Ok::<Outcome, E>(outcomes@[j]),
    {
        match result {
            Ok(outcome) => {
                outcomes.push(outcome);
            },
            Err(failure) => {
                return Err(failure);
            },
        }
    }
    assert(views(outcomes@) =~= delivered(results@));
    Ok(collect(outcomes))
}

/// Order preservation: where the outcomes are tagged with each of the
/// positions `0..n` once, the assembled items are what the positions hold,
/// joined in the order `0..n`, whatever the order of arrival.
pub proof fn lemma_assembled_in_position_order(
    outcomes: Seq<OutcomeView>,
    by_position: Seq<Seq<Seq<char>>>,
)
    requires
        is_arrangement(positions(outcomes)),
        by_position.len() == outcomes.len(),
        forall|i: int|
            0 <= i < outcomes.len() ==> (#[trigger] outcomes[i]).items
                == by_position[outcomes[i].position as int],
    ensures
        assembled(outcomes) == by_position.flatten(),
{
    let len = outcomes.len();
    lemma_arrangement_covers(positions(outcomes));
    assert forall|p: nat| p < len implies #[trigger] items_tagged(outcomes, p)
        == by_position[p as int] by {
        assert(occurs(positions(outcomes), p));
        let index = choose|k: int|
            0 <= k < len && (#[trigger] positions(outcomes)[k]) == p;
        assert forall|j: int| 0 <= j < len && j != index implies (#[trigger] outcomes[j]).position
            != outcomes[index].position by {
            if j < index {
                assert(positions(outcomes)[j] != positions(outcomes)[index]);
            } else {
                assert(positions(outcomes)[index] != positions(outcomes)[j]);
            }
        }
        lemma_items_tagged_single(outcomes, index);
    }
    lemma_assembled_below_joins(outcomes, by_position, len);
    assert(by_position.take(len as int) =~= by_position);
    assert(position_bound(outcomes) <= len) by {
        if len > 0 {
            lemma_position_bound_is_reached(outcomes);
            let j = choose|j: int|
                0 <= j < len && (#[trigger] outcomes[j]).position + 1 == position_bound(outcomes);
            assert(positions(outcomes)[j] < len);
        }
    }
    lemma_assembled_below_settles(outcomes, len);
}

/// Skipping and running, seen from the end of the batch: a position whose
/// worker observed a total at or above the threshold adds no items, and a
/// position whose worker observed less adds what its job produced, in the
/// place of that position.
pub proof fn lemma_batch_joins_contributions(
    outcomes: Seq<OutcomeView>,
    observed: Seq<nat>,
    produced: Seq<Seq<Seq<char>>>,
    threshold: nat,
)
    requires
        is_arrangement(positions(outcomes)),
        observed.len() == outcomes.len(),
        produced.len() == outcomes.len(),
        forall|i: int|
            0 <= i < outcomes.len() ==> (#[trigger] outcomes[i]).items == contribution(
                decision_for(observed[outcomes[i].position as int], threshold),
                produced[outcomes[i].position as int],
            ),
    ensures
        assembled(outcomes) == contributions(observed, produced, threshold).flatten(),
        forall|p: int|
            0 <= p < outcomes.len() && observed[p] >= threshold ==> (#[trigger] contributions(
                observed,
                produced,
                threshold,
            )[p]) == Seq::<Seq<char>>::empty(),
        forall|p: int|
            0 <= p < outcomes.len() && observed[p] < threshold ==> (#[trigger] contributions(
                observed,
                produced,
                threshold,
            )[p]) == produced[p],
{
    let by_position = contributions(observed, produced, threshold);
    assert forall|i: int| 0 <= i < outcomes.len() implies (#[trigger] outcomes[i]).items
        == by_position[outcomes[i].position as int] by {
        assert(positions(outcomes)[i] < outcomes.len());
    }
    lemma_assembled_in_position_order(outcomes, by_position);
}

/// The first of the outcomes with the lowest position comes first in the
/// assembled items; the rest follows as if that outcome had never arrived.
pub proof fn lemma_assembled_starts_with_earliest_lowest(outcomes: Seq<OutcomeView>, index: int)
    requires
        is_earliest_lowest(outcomes, index),
    ensures
        assembled(outcomes) == outcomes[index].items + assembled(outcomes.remove(index)),
{
    let rest = outcomes.remove(index);
    let bound = position_bound(outcomes);
    lemma_positions_below_bound(outcomes);
    assert(position_bound(rest) <= bound) by {
        if rest.len() > 0 && position_bound(rest) > bound {
            lemma_position_bound_is_reached(rest);
            let j = choose|j: int|
                0 <= j < rest.len() && (#[trigger] rest[j]).position + 1 == position_bound(rest);
            if j < index {
                assert(outcomes[j] == rest[j]);
            } else {
                assert(outcomes[j + 1] == rest[j]);
            }
        }
    }
    lemma_assembled_below_split(outcomes, index, bound);
    lemma_assembled_below_settles(rest, bound);
}

/// Every position lies below the bound.
proof fn lemma_positions_below_bound(outcomes: Seq<OutcomeView>)
    ensures
        forall|j: int|
            0 <= j < outcomes.len() ==> (#[trigger] outcomes[j]).position < position_bound(
                outcomes,
            ),
    decreases outcomes.len(),
{
    if outcomes.len() > 0 {
        lemma_positions_below_bound(outcomes.drop_last());
        assert forall|j: int| 0 <= j < outcomes.len() implies (#[trigger] outcomes[j]).position
            < position_bound(outcomes) by {
            if j < outcomes.len() - 1 {
                assert(outcomes.drop_last()[j] == outcomes[j]);
            }
        }
    }
}

/// Some outcome is tagged with the highest position, one below the bound.
proof fn lemma_position_bound_is_reached(outcomes: Seq<OutcomeView>)
    requires
        outcomes.len() > 0,
    ensures
        exists|j: int|
            0 <= j < outcomes.len() && (#[trigger] outcomes[j]).position + 1 == position_bound(
                outcomes,
            ),
    decreases outcomes.len(),
{
    let earlier = outcomes.drop_last();
    if position_bound(earlier) > outcomes.last().position {
        lemma_position_bound_is_reached(earlier);
        let j = choose|j: int|
            0 <= j < earlier.len() && (#[trigger] earlier[j]).position + 1 == position_bound(
                earlier,
            );
        assert(outcomes[j] == earlier[j]);
    } else {
        assert(outcomes[outcomes.len() - 1].position + 1 == position_bound(outcomes));
    }
}

/// A position that tags no outcome has no items.
proof fn lemma_items_tagged_absent(outcomes: Seq<OutcomeView>, position: nat)
    requires
        forall|j: int| 0 <= j < outcomes.len() ==> (#[trigger] outcomes[j]).position != position,
    ensures
        items_tagged(outcomes, position) == Seq::<Seq<char>>::empty(),
    decreases outcomes.len(),
{
    if outcomes.len() > 0 {
        let earlier = outcomes.drop_last();
        assert forall|j: int| 0 <= j < earlier.len() implies (#[trigger] earlier[j]).position
            != position by {
            assert(earlier[j] == outcomes[j]);
        }
        lemma_items_tagged_absent(earlier, position);
        assert(outcomes[outcomes.len() - 1].position != position);
    }
}

/// Taking out the outcome at `index` takes its items out of those tagged
/// with its position, from the front if it is the first so tagged, and
/// leaves the items of every other position as they are.
proof fn lemma_items_tagged_remove(outcomes: Seq<OutcomeView>, index: int, position: nat)
    requires
        0 <= index < outcomes.len(),
        forall|j: int| 0 <= j < index ==> (#[trigger] outcomes[j]).position != outcomes[index].position,
    ensures
        items_tagged(outcomes, position) == if outcomes[index].position == position {
            outcomes[index].items + items_tagged(outcomes.remove(index), position)
        } else {
            items_tagged(outcomes.remove(index), position)
        },
    decreases outcomes.len(),
{
    let rest = outcomes.remove(index);
    let earlier = outcomes.drop_last();
    if index == outcomes.len() - 1 {
        assert(rest =~= earlier);
        if outcomes[index].position == position {
            assert forall|j: int| 0 <= j < earlier.len() implies (#[trigger] earlier[j]).position
                != position by {
                assert(earlier[j] == outcomes[j]);
            }
            lemma_items_tagged_absent(earlier, position);
        }
    } else {
        assert(earlier[index] == outcomes[index]);
        assert forall|j: int| 0 <= j < index implies (#[trigger] earlier[j]).position
            != earlier[index].position by {
            assert(earlier[j] == outcomes[j]);
        }
        lemma_items_tagged_remove(earlier, index, position);
        assert(rest.drop_last() =~= earlier.remove(index));
        assert(rest.last() == outcomes.last());
    }
}

/// Where a single outcome is tagged with a position, the items of that
/// position are the items of that outcome.
proof fn lemma_items_tagged_single(outcomes: Seq<OutcomeView>, index: int)
    requires
        0 <= index < outcomes.len(),
        forall|j: int|
            0 <= j < outcomes.len() && j != index ==> (#[trigger] outcomes[j]).position
                != outcomes[index].position,
    ensures
        items_tagged(outcomes, outcomes[index].position) == outcomes[index].items,
{
    let position = outcomes[index].position;
    let rest = outcomes.remove(index);
    lemma_items_tagged_remove(outcomes, index, position);
    assert forall|j: int| 0 <= j < rest.len() implies (#[trigger] rest[j]).position
        != position by {
        if j < index {
            assert(rest[j] == outcomes[j]);
        } else {
            assert(rest[j] == outcomes[j + 1]);
        }
    }
    lemma_items_tagged_absent(rest, position);
}

/// Past the bound there is nothing left to add.
proof fn lemma_assembled_below_settles(outcomes: Seq<OutcomeView>, bound: nat)
    requires
        bound >= position_bound(outcomes),
    ensures
        assembled_below(outcomes, bound) == assembled(outcomes),
    decreases bound,
{
    if bound > position_bound(outcomes) {
        lemma_positions_below_bound(outcomes);
        lemma_items_tagged_absent(outcomes, (bound - 1) as nat);
        lemma_assembled_below_settles(outcomes, (bound - 1) as nat);
    }
}

/// Up to any bound, the first of the outcomes with the lowest position
/// stands before everything else, or has not been reached yet.
proof fn lemma_assembled_below_split(outcomes: Seq<OutcomeView>, index: int, bound: nat)
    requires
        is_earliest_lowest(outcomes, index),
    ensures
        assembled_below(outcomes, bound) == if bound > outcomes[index].position {
            outcomes[index].items + assembled_below(outcomes.remove(index), bound)
        } else {
            assembled_below(outcomes.remove(index), bound)
        },
        bound <= outcomes[index].position ==> assembled_below(outcomes, bound) == Seq::<
            Seq<char>,
        >::empty(),
    decreases bound,
{
    let rest = outcomes.remove(index);
    let lowest = outcomes[index].position;
    if bound > 0 {
        let tag = (bound - 1) as nat;
        lemma_assembled_below_split(outcomes, index, tag);
        lemma_items_tagged_remove(outcomes, index, tag);
        if tag < lowest {
            lemma_items_tagged_absent(outcomes, tag);
        }
        if tag >= lowest {
            assert(assembled_below(outcomes, bound) =~= outcomes[index].items + assembled_below(
                rest,
                bound,
            ));
        }
    }
}

/// Where the items of each position are known, the items below a bound are
/// those of the positions below it, joined.
proof fn lemma_assembled_below_joins(
    outcomes: Seq<OutcomeView>,
    by_position: Seq<Seq<Seq<char>>>,
    bound: nat,
)
    requires
        bound <= by_position.len(),
        forall|p: nat|
            p < by_position.len() ==> #[trigger] items_tagged(outcomes, p) == by_position[p as int],
    ensures
        assembled_below(outcomes, bound) == by_position.take(bound as int).flatten(),
    decreases bound,
{
    if bound > 0 {
        let tag = (bound - 1) as nat;
        lemma_assembled_below_joins(outcomes, by_position, tag);
        assert(by_position.take(bound as int) =~= by_position.take(tag as int).push(
            by_position[tag as int],
        ));
        by_position.take(tag as int).lemma_flatten_push(by_position[tag as int]);
    }
}

} // verus!
