//! Runs of writes: what a sequence of writes, made in any order, leaves in
//! the slots, and what that means for the frontier and the prefix total.

use vstd::prelude::*;
use crate::counting::{is_arrangement, lemma_arrangement_covers, occurs};
use crate::slots::{
    covers_prefix, filled_below, filled_positions, filled_total, frontier_of,
    lemma_frontier_is_longest_filled_prefix, lemma_full_slots_total, lemma_sum_below_stored,
    lemma_sum_below_unset, lemma_write_never_lowers_total, prefix_total, stored,
};

verus! {

/// One write: a value for a position.
pub struct Entry {
    pub position: nat,
    pub value: nat,
}

/// The slots after the writes of `log`, made in order to `len` unset slots.
pub open spec fn replay(len: nat, log: Seq<Entry>) -> Seq<Option<nat>>
    decreases log.len(),
{
    if log.len() == 0 {
        Seq::new(len, |i: int| None)
    } else {
        stored(replay(len, log.drop_last()), log.last().position, log.last().value)
    }
}

/// Each write of `log` goes to one of the positions `0..len`, and no two go
/// to the same one.
pub open spec fn write_once(len: nat, log: Seq<Entry>) -> bool {
    &&& forall|k: int| 0 <= k < log.len() ==> (#[trigger] log[k]).position < len
    &&& forall|j: int, k: int|
        0 <= j < k < log.len() ==> (#[trigger] log[j]).position != (#[trigger] log[k]).position
}

/// The positions that `log` writes to.
pub open spec fn written_positions(log: Seq<Entry>) -> Set<nat> {
    Set::new(|p: nat| exists|k: int| 0 <= k < log.len() && (#[trigger] log[k]).position == p)
}

/// The sum of the values that `log` writes.
pub open spec fn written_sum(log: Seq<Entry>) -> nat
    decreases log.len(),
{
    if log.len() == 0 {
        0
    } else {
        written_sum(log.drop_last()) + log.last().value
    }
}

/// What a run of writes leaves behind: each written position holds the
/// value written to it, every other position is unset, and the sum of the
/// filled slots is the sum of the values written.
pub proof fn lemma_replay_holds_what_was_written(len: nat, log: Seq<Entry>)
    requires
        write_once(len, log),
    ensures
        replay(len, log).len() == len,
        forall|k: int|
            0 <= k < log.len() ==> replay(len, log)[(#[trigger] log[k]).position as int] == Some(
                log[k].value,
            ),
        forall|p: nat|
            p < len && !written_positions(log).contains(p) ==> (#[trigger] replay(
                len,
                log,
            )[p as int]) is None,
        filled_positions(replay(len, log)) == written_positions(log),
        filled_total(replay(len, log)) == written_sum(log),
    decreases log.len(),
{
    let slots = replay(len, log);
    if log.len() > 0 {
        let earlier = log.drop_last();
        let last = log.last();
        let before = replay(len, earlier);
        lemma_replay_holds_what_was_written(len, earlier);
        assert(!written_positions(earlier).contains(last.position)) by {
            if written_positions(earlier).contains(last.position) {
                let k = choose|k: int|
                    0 <= k < earlier.len() && (#[trigger] earlier[k]).position == last.position;
                assert(log[k].position == log[log.len() - 1].position);
            }
        }
        assert(before[last.position as int] is None);
        assert forall|k: int| 0 <= k < log.len() implies slots[(#[trigger] log[k]).position as int]
            == Some(log[k].value) by {
            if k < log.len() - 1 {
                assert(earlier[k] == log[k]);
                assert(log[k].position != log[log.len() - 1].position);
            }
        }
        assert forall|p: nat| p < len && !written_positions(log).contains(p) implies (
        #[trigger] slots[p as int]) is None by {
            assert(p != last.position) by {
                if p == last.position {
                    assert(log[log.len() - 1].position == p);
                }
            }
            assert(!written_positions(earlier).contains(p)) by {
                if written_positions(earlier).contains(p) {
                    let k = choose|k: int|
                        0 <= k < earlier.len() && (#[trigger] earlier[k]).position == p;
                    assert(log[k].position == p);
                }
            }
        }
        lemma_sum_below_stored(before, last.position, last.value, len);
    } else {
        lemma_sum_below_unset(slots, len);
    }
    assert(filled_positions(slots) =~= written_positions(log)) by {
        assert forall|p: nat| filled_positions(slots).contains(p) implies written_positions(
            log,
        ).contains(p) by {
            if !written_positions(log).contains(p) {
                assert(slots[p as int] is None);
            }
        }
        assert forall|p: nat| written_positions(log).contains(p) implies filled_positions(
            slots,
        ).contains(p) by {
            let k = choose|k: int| 0 <= k < log.len() && (#[trigger] log[k]).position == p;
            assert(slots[log[k].position as int] is Some);
        }
    }
}

/// Frontier correctness after writes to any set of positions, made in any
/// order: the frontier is the length of the longest prefix `0..k` that lies
/// wholly within the positions written.
pub proof fn lemma_frontier_after_writes(len: nat, log: Seq<Entry>)
    requires
        write_once(len, log),
    ensures
        frontier_of(replay(len, log)) <= len,
        covers_prefix(written_positions(log), frontier_of(replay(len, log))),
        forall|k: nat|
            covers_prefix(written_positions(log), k) ==> k <= frontier_of(replay(len, log)),
{
    lemma_replay_holds_what_was_written(len, log);
    lemma_frontier_is_longest_filled_prefix(replay(len, log));
}

/// Prefix monotonicity: at no point of a run of writes is the prefix total
/// lower than it was at an earlier point.
pub proof fn lemma_total_never_falls(len: nat, log: Seq<Entry>, earlier: nat, later: nat)
    requires
        write_once(len, log),
        earlier <= later <= log.len(),
    ensures
        prefix_total(replay(len, log.take(earlier as int))) <= prefix_total(
            replay(len, log.take(later as int)),
        ),
    decreases later - earlier,
{
    if earlier < later {
        let shorter = log.take(later - 1);
        let longer = log.take(later as int);
        lemma_total_never_falls(len, log, earlier, (later - 1) as nat);
        assert(longer.drop_last() =~= shorter);
        assert(longer.last() == log[later - 1]);
        assert(write_once(len, longer));
        assert(write_once(len, shorter));
        lemma_replay_holds_what_was_written(len, shorter);
        lemma_replay_holds_what_was_written(len, longer);
        let entry = longer.last();
        assert(!written_positions(shorter).contains(entry.position)) by {
            if written_positions(shorter).contains(entry.position) {
                let k = choose|k: int|
                    0 <= k < shorter.len() && (#[trigger] shorter[k]).position == entry.position;
                assert(log[k].position == log[later - 1].position);
            }
        }
        lemma_write_never_lowers_total(replay(len, shorter), entry.position, entry.value);
    }
}

/// A run of writes that fills as many positions as there are fills them all.
pub proof fn lemma_full_run_fills_every_slot(len: nat, log: Seq<Entry>)
    requires
        write_once(len, log),
        log.len() == len,
    ensures
        filled_below(replay(len, log), len),
{
    let targets = Seq::new(len, |k: int| log[k].position);
    assert(is_arrangement(targets)) by {
        assert forall|j: int, k: int| 0 <= j < k < len implies (#[trigger] targets[j]) != (
        #[trigger] targets[k]) by {
            assert(log[j].position != log[k].position);
        }
    }
    lemma_arrangement_covers(targets);
    lemma_replay_holds_what_was_written(len, log);
    let slots = replay(len, log);
    assert forall|i: int| 0 <= i < len implies (#[trigger] slots[i]) is Some by {
        assert(occurs(targets, i as nat));
        let k = choose|k: int| 0 <= k < len && (#[trigger] targets[k]) == i as nat;
        assert(slots[log[k].position as int] is Some);
    }
}

/// Once every position has been written, in whatever order, the prefix
/// total is the sum of all the values written.
pub proof fn lemma_total_after_all_writes(len: nat, log: Seq<Entry>)
    requires
        write_once(len, log),
        log.len() == len,
    ensures
        frontier_of(replay(len, log)) == len,
        prefix_total(replay(len, log)) == written_sum(log),
{
    lemma_replay_holds_what_was_written(len, log);
    lemma_full_run_fills_every_slot(len, log);
    lemma_full_slots_total(replay(len, log));
}

} // verus!
