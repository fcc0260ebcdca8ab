//! The mathematical model of the accumulator: a sequence of slots, each unset
//! or holding the cost of the job at that position, together with the
//! frontier and the prefix total that such a sequence determines.

use vstd::prelude::*;

verus! {

/// The first position at or after `from` whose slot is unset; the length of
/// `slots` if there is none.
pub open spec fn first_unset_from(slots: Seq<Option<nat>>, from: nat) -> nat
    decreases slots.len() - from,
{
    if from >= slots.len() || slots[from as int] is None {
        from
    } else {
        first_unset_from(slots, from + 1)
    }
}

/// The frontier: the smallest position whose slot is unset, that is the
/// length of the longest run of filled slots that starts at position 0.
pub open spec fn frontier_of(slots: Seq<Option<nat>>) -> nat {
    first_unset_from(slots, 0)
}

/// What the slot at `position` adds to a sum: its value, or nothing while it
/// is unset.
pub open spec fn value_at(slots: Seq<Option<nat>>, position: int) -> nat {
    match slots[position] {
        Some(value) => value,
        None => 0,
    }
}

/// The sum of the values held by the first `end` slots.
pub open spec fn sum_below(slots: Seq<Option<nat>>, end: nat) -> nat
    decreases end,
{
    if end == 0 {
        0
    } else {
        sum_below(slots, (end - 1) as nat) + value_at(slots, end - 1)
    }
}

/// The prefix total: the sum of the slots below the frontier.
pub open spec fn prefix_total(slots: Seq<Option<nat>>) -> nat {
    sum_below(slots, frontier_of(slots))
}

/// The sum of every filled slot, whether or not it lies below the frontier.
pub open spec fn filled_total(slots: Seq<Option<nat>>) -> nat {
    sum_below(slots, slots.len())
}

/// Every slot below `end` is filled.
pub open spec fn filled_below(slots: Seq<Option<nat>>, end: nat) -> bool {
    forall|i: int| 0 <= i < end ==> (#[trigger] slots[i]) is Some
}

/// `slots` with `value` stored at `position`.
pub open spec fn stored(slots: Seq<Option<nat>>, position: nat, value: nat) -> Seq<Option<nat>> {
    slots.update(position as int, Some(value))
}

/// The positions whose slots are filled.
pub open spec fn filled_positions(slots: Seq<Option<nat>>) -> Set<nat> {
    Set::new(|p: nat| p < slots.len() && slots[p as int] is Some)
}

/// All of the positions `0..end` lie in `written`.
pub open spec fn covers_prefix(written: Set<nat>, end: nat) -> bool {
    forall|p: nat| p < end ==> #[trigger] written.contains(p)
}

/// The search from `from` stops within the sequence, passes filled slots
/// only, and stops at an unset slot unless it runs out of slots.
proof fn lemma_first_unset_from(slots: Seq<Option<nat>>, from: nat)
    requires
        from <= slots.len(),
    ensures
        from <= first_unset_from(slots, from) <= slots.len(),
        forall|i: int| from <= i < first_unset_from(slots, from) ==> (#[trigger] slots[i]) is Some,
        first_unset_from(slots, from) < slots.len() ==> slots[first_unset_from(
            slots,
            from,
        ) as int] is None,
    decreases slots.len() - from,
{
    if from < slots.len() && slots[from as int] is Some {
        lemma_first_unset_from(slots, from + 1);
    }
}

/// A filled run that starts at `from` and stops at `end` ends the search
/// from `from` at `end`.
proof fn lemma_first_unset_is(slots: Seq<Option<nat>>, from: nat, end: nat)
    requires
        from <= end <= slots.len(),
        forall|i: int| from <= i < end ==> (#[trigger] slots[i]) is Some,
        end < slots.len() ==> slots[end as int] is None,
    ensures
        first_unset_from(slots, from) == end,
    decreases end - from,
{
    if from < end {
        lemma_first_unset_is(slots, from + 1, end);
    }
}

/// The frontier is a position of its own kind: the only `end` with every
/// slot below it filled and no filled slot at it.
pub proof fn lemma_frontier_is(slots: Seq<Option<nat>>, end: nat)
    requires
        end <= slots.len(),
        filled_below(slots, end),
        end < slots.len() ==> slots[end as int] is None,
    ensures
        frontier_of(slots) == end,
{
    lemma_first_unset_is(slots, 0, end);
}

/// The frontier lies within the sequence, every slot below it is filled,
/// and the slot at it, if there is one, is unset.
pub proof fn lemma_frontier_bounds(slots: Seq<Option<nat>>)
    ensures
        frontier_of(slots) <= slots.len(),
        filled_below(slots, frontier_of(slots)),
        frontier_of(slots) < slots.len() ==> slots[frontier_of(slots) as int] is None,
{
    lemma_first_unset_from(slots, 0);
}

/// A sum over more slots is no smaller.
pub proof fn lemma_sum_below_grows(slots: Seq<Option<nat>>, low: nat, high: nat)
    requires
        low <= high,
    ensures
        sum_below(slots, low) <= sum_below(slots, high),
    decreases high - low,
{
    if low < high {
        lemma_sum_below_grows(slots, low, (high - 1) as nat);
    }
}

/// Unset slots add nothing to a sum.
pub proof fn lemma_sum_below_unset(slots: Seq<Option<nat>>, end: nat)
    requires
        forall|i: int| 0 <= i < end ==> (#[trigger] slots[i]) is None,
    ensures
        sum_below(slots, end) == 0,
    decreases end,
{
    if end > 0 {
        lemma_sum_below_unset(slots, (end - 1) as nat);
    }
}

/// Filling an unset slot adds its value to every sum that reaches past it
/// and leaves the shorter sums alone.
pub proof fn lemma_sum_below_stored(slots: Seq<Option<nat>>, position: nat, value: nat, end: nat)
    requires
        position < slots.len(),
        slots[position as int] is None,
        end <= slots.len(),
    ensures
        sum_below(stored(slots, position, value), end) == sum_below(slots, end) + if position
            < end {
            value
        } else {
            0
        },
    decreases end,
{
    if end > 0 {
        lemma_sum_below_stored(slots, position, value, (end - 1) as nat);
    }
}

/// Frontier correctness: the frontier is the length of the longest prefix
/// `0..k` that lies wholly within the filled positions.
pub proof fn lemma_frontier_is_longest_filled_prefix(slots: Seq<Option<nat>>)
    ensures
        frontier_of(slots) <= slots.len(),
        covers_prefix(filled_positions(slots), frontier_of(slots)),
        forall|k: nat| covers_prefix(filled_positions(slots), k) ==> k <= frontier_of(slots),
{
    lemma_frontier_bounds(slots);
    let frontier = frontier_of(slots);
    let written = filled_positions(slots);
    assert forall|p: nat| p < frontier implies #[trigger] written.contains(p) by {
        assert(slots[p as int] is Some);
    }
    assert forall|k: nat| covers_prefix(written, k) implies k <= frontier by {
        if k > frontier {
            assert(written.contains(frontier));
        }
    }
}

/// An unset slot holds the frontier back: the frontier never lies beyond
/// it, however many of the later slots are filled. So a position that is
/// never written, as a skipped one is, freezes the frontier and the prefix
/// total at the latest when the frontier reaches it.
pub proof fn lemma_unset_slot_holds_frontier(slots: Seq<Option<nat>>, position: nat)
    requires
        position < slots.len(),
        slots[position as int] is None,
    ensures
        frontier_of(slots) <= position,
        prefix_total(slots) <= sum_below(slots, position),
{
    lemma_frontier_bounds(slots);
    if frontier_of(slots) > position {
        assert(slots[position as int] is Some);
    }
    lemma_sum_below_grows(slots, frontier_of(slots), position);
}

/// Filling a hole beyond the frontier moves neither the frontier nor the
/// prefix total.
pub proof fn lemma_hole_write_keeps_prefix(slots: Seq<Option<nat>>, position: nat, value: nat)
    requires
        position < slots.len(),
        slots[position as int] is None,
        position != frontier_of(slots),
    ensures
        frontier_of(stored(slots, position, value)) == frontier_of(slots),
        prefix_total(stored(slots, position, value)) == prefix_total(slots),
{
    let after = stored(slots, position, value);
    let frontier = frontier_of(slots);
    lemma_frontier_bounds(slots);
    assert(position > frontier) by {
        if position < frontier {
            assert(slots[position as int] is Some);
        }
    }
    assert(filled_below(after, frontier)) by {
        assert forall|i: int| 0 <= i < frontier implies (#[trigger] after[i]) is Some by {
            assert(slots[i] is Some);
        }
    }
    lemma_frontier_is(after, frontier);
    lemma_sum_below_stored(slots, position, value, frontier);
}

/// Prefix monotonicity, one write at a time: filling an unset slot never
/// moves the frontier back and never lowers the prefix total.
pub proof fn lemma_write_never_lowers_total(slots: Seq<Option<nat>>, position: nat, value: nat)
    requires
        position < slots.len(),
        slots[position as int] is None,
    ensures
        frontier_of(stored(slots, position, value)) >= frontier_of(slots),
        prefix_total(stored(slots, position, value)) >= prefix_total(slots),
{
    let after = stored(slots, position, value);
    let frontier = frontier_of(slots);
    if position != frontier {
        lemma_hole_write_keeps_prefix(slots, position, value);
    } else {
        lemma_frontier_bounds(slots);
        lemma_frontier_bounds(after);
        let moved = frontier_of(after);
        assert(moved > frontier) by {
            if moved <= frontier {
                assert(after[moved as int] is Some);
            }
        }
        lemma_sum_below_stored(slots, position, value, frontier);
        lemma_sum_below_grows(after, frontier, moved);
    }
}

/// Once every slot is filled, the prefix total is the sum of all slot
/// values.
pub proof fn lemma_full_slots_total(slots: Seq<Option<nat>>)
    requires
        filled_below(slots, slots.len()),
    ensures
        frontier_of(slots) == slots.len(),
        prefix_total(slots) == filled_total(slots),
{
    lemma_frontier_is(slots, slots.len());
}

} // verus!
