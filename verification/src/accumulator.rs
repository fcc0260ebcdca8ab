//! The prefix accumulator: for a fixed set of positions it records the cost
//! of each finished job and keeps the sum of the longest finished prefix.

use vstd::prelude::*;
use crate::slots::{
    filled_below, filled_total, frontier_of, lemma_frontier_bounds, lemma_frontier_is,
    lemma_hole_write_keeps_prefix, lemma_sum_below_grows, lemma_sum_below_stored,
    lemma_write_never_lowers_total, prefix_total, stored, sum_below, value_at,
};

verus! {

/// The stored word that marks a slot as unset. No job may report it as its
/// cost.
pub const UNSET: usize = usize::MAX;

/// Why a write was turned down.
#[derive(Clone, Copy, Debug, PartialEq, Eq, Structural)]
pub enum WriteError {
    /// The position is not one of the accumulator's positions.
    OutOfRange,
    /// The position was written before.
    AlreadyWritten,
    /// The value is the one reserved for unset slots.
    ReservedValue,
    /// The prefix total would no longer fit in a `usize`.
    Overflow,
}

/// What a stored word stands for.
pub open spec fn slot_of(word: usize) -> Option<nat> {
    if word == UNSET {
        None
    } else {
        Some(word as nat)
    }
}

/// The reason for which writing `value` at `position` is turned down, if it
/// is. The reasons are tried in the order of the variants of [`WriteError`].
pub open spec fn rejection(slots: Seq<Option<nat>>, position: nat, value: nat) -> Option<
    WriteError,
> {
    if position >= slots.len() {
        Some(WriteError::OutOfRange)
    } else if slots[position as int] is Some {
        Some(WriteError::AlreadyWritten)
    } else if value == UNSET {
        Some(WriteError::ReservedValue)
    } else if prefix_total(stored(slots, position, value)) > usize::MAX {
        Some(WriteError::Overflow)
    } else {
        None
    }
}

/// Writing `value` at `position` is in order.
pub open spec fn accepts(slots: Seq<Option<nat>>, position: nat, value: nat) -> bool {
    rejection(slots, position, value) is None
}

/// Write-once: after a write to a position every further write to it is
/// turned down as [`WriteError::AlreadyWritten`], whatever the two values.
pub proof fn lemma_second_write_is_rejected(
    slots: Seq<Option<nat>>,
    position: nat,
    first: nat,
    second: nat,
)
    requires
        position < slots.len(),
    ensures
        rejection(stored(slots, position, first), position, second) == Some(
            WriteError::AlreadyWritten,
        ),
{
}

/// The accumulator. Its view is the sequence of its slots, by position;
/// the frontier and the total are those of that sequence.
pub struct PrefixAccumulator {
    slots: Vec<usize>,
    frontier: usize,
    total: usize,
}

impl View for PrefixAccumulator {
    type V = Seq<Option<nat>>;

    /// The slots, by position.
    closed spec fn view(&self) -> Seq<Option<nat>> {
        self.slots@.map_values(|word: usize| slot_of(word))
    }
}

impl PrefixAccumulator {
    /// The stored frontier and total are those of the slots.
    pub closed spec fn wf(&self) -> bool {
        &&& self.frontier == frontier_of(self@)
        &&& self.total == prefix_total(self@)
    }

    /// An accumulator for the positions `0..len`, all unset.
    pub fn new(len: usize) -> (acc: PrefixAccumulator)
        ensures
            acc.wf(),
            acc@ == Seq::new(len as nat, |i: int| None::<nat>),
    {
        let slots: Vec<usize> = vec![UNSET; len];
        let acc = PrefixAccumulator { slots, frontier: 0, total: 0 };
        assert(acc@ =~= Seq::new(len as nat, |i: int| None::<nat>));
        acc
    }

    /// The number of positions.
    pub fn len(&self) -> (len: usize)
        ensures
            len == self@.len(),
    {
        self.slots.len()
    }

    /// The sum of the longest filled prefix.
    pub fn current_total(&self) -> (total: usize)
        requires
            self.wf(),
        ensures
            total == prefix_total(self@),
    {
        self.total
    }

    /// The smallest position not yet counted into the total.
    pub fn frontier(&self) -> (frontier: usize)
        requires
            self.wf(),
        ensures
            frontier == frontier_of(self@),
    {
        self.frontier
    }

    /// Stores `value` at `position`, then moves the frontier over every
    /// filled slot that it now reaches and adds their values to the total.
    ///
    /// The write has to be in order: to a position of the accumulator that
    /// was not written before, of a value other than [`UNSET`], and with a
    /// total that still fits. [`PrefixAccumulator::try_write`] tests this
    /// at run time.
    pub fn write(&mut self, position: usize, value: usize)
        requires
            old(self).wf(),
            accepts(old(self)@, position as nat, value as nat),
        ensures
            final(self).wf(),
            final(self)@ == stored(old(self)@, position as nat, value as nat),
            frontier_of(final(self)@) >= frontier_of(old(self)@),
            prefix_total(final(self)@) >= prefix_total(old(self)@),
            position != frontier_of(old(self)@) ==> prefix_total(final(self)@) == prefix_total(
                old(self)@,
            ),
    {
        let ghost before = self@;
        let ghost after = stored(before, position as nat, value as nat);
        self.slots.set(position, value);
        assert(self@ =~= after);
        proof {
            lemma_frontier_bounds(before);
            lemma_frontier_bounds(after);
            lemma_write_never_lowers_total(before, position as nat, value as nat);
            if position != frontier_of(before) {
                lemma_hole_write_keeps_prefix(before, position as nat, value as nat);
            }
            lemma_sum_below_stored(before, position as nat, value as nat, frontier_of(before));
            assert(filled_below(after, self.frontier as nat)) by {
                assert forall|i: int| 0 <= i < self.frontier implies (#[trigger] after[i])
                    is Some by {
                    assert(before[i] is Some);
                }
            }
        }
        while self.frontier < self.slots.len()
            invariant_except_break
                self.frontier <= self.slots.len(),
                filled_below(self@, self.frontier as nat),
                self.total == sum_below(self@, self.frontier as nat),
            invariant
                self@ == after,
                prefix_total(after) <= usize::MAX,
            ensures
                self.frontier <= self.slots.len(),
                filled_below(self@, self.frontier as nat),
                self.total == sum_below(self@, self.frontier as nat),
                self.frontier < self.slots.len() ==> self@[self.frontier as int] is None,
            decreases self.slots.len() - self.frontier,
        {
            let word = self.slots[self.frontier];
            if word == UNSET {
                break ;
            }
            proof {
                let reached = (self.frontier + 1) as nat;
                lemma_frontier_bounds(after);
                assert(reached <= frontier_of(after)) by {
                    if frontier_of(after) < reached {
                        assert(after[frontier_of(after) as int] is Some);
                    }
                }
                lemma_sum_below_grows(after, reached, frontier_of(after));
                assert(value_at(after, self.frontier as int) == word);
            }
            self.total += word;
            self.frontier += 1;
        }
        proof {
            lemma_frontier_is(after, self.frontier as nat);
        }
    }

    /// Whether the prefix total still fits in a `usize` once `value` is
    /// stored at `position`.
    fn total_fits(&self, position: usize, value: usize) -> (fits: bool)
        requires
            self.wf(),
            position < self@.len(),
            self@[position as int] is None,
            value != UNSET,
        ensures
            fits <==> prefix_total(stored(self@, position as nat, value as nat)) <= usize::MAX,
    {
        let ghost after = stored(self@, position as nat, value as nat);
        if position != self.frontier {
            proof {
                lemma_hole_write_keeps_prefix(self@, position as nat, value as nat);
            }
            return true;
        }
        proof {
            lemma_frontier_bounds(self@);
            lemma_sum_below_stored(self@, position as nat, value as nat, self.frontier as nat);
            assert(filled_below(after, self.frontier as nat)) by {
                assert forall|i: int| 0 <= i < self.frontier implies (#[trigger] after[i])
                    is Some by {
                    assert(self@[i] is Some);
                }
            }
        }
        let mut total: usize = self.total;
        let mut reached: usize = self.frontier;
        while reached < self.slots.len()
            invariant_except_break
                reached <= self.slots.len(),
                filled_below(after, reached as nat),
                total == sum_below(after, reached as nat),
            invariant
                after == stored(self@, position as nat, value as nat),
                position < self.slots.len(),
                value != UNSET,
            ensures
                reached <= self.slots.len(),
                filled_below(after, reached as nat),
                total == sum_below(after, reached as nat),
                reached < self.slots.len() ==> after[reached as int] is None,
            decreases self.slots.len() - reached,
        {
            let word = if reached == position {
                value
            } else {
                self.slots[reached]
            };
            if word == UNSET {
                break ;
            }
            assert(value_at(after, reached as int) == word);
            match total.checked_add(word) {
                Some(sum) => {
                    total = sum;
                },
                None => {
                    proof {
                        let next = (reached + 1) as nat;
                        lemma_frontier_bounds(after);
                        assert(next <= frontier_of(after)) by {
                            if frontier_of(after) < next {
                                assert(after[frontier_of(after) as int] is Some);
                            }
                        }
                        lemma_sum_below_grows(after, next, frontier_of(after));
                    }
                    return false;
                },
            }
            reached += 1;
        }
        proof {
            lemma_frontier_is(after, reached as nat);
        }
        true
    }

    /// Writes `value` at `position` if that is in order, and says why not
    /// otherwise; a write that is turned down changes nothing.
    pub fn try_write(&mut self, position: usize, value: usize) -> (result: Result<(), WriteError>)
        requires
            old(self).wf(),
        ensures
            final(self).wf(),
            match result {
                Ok(()) => {
                    &&& accepts(old(self)@, position as nat, value as nat)
                    &&& final(self)@ == stored(old(self)@, position as nat, value as nat)
                },
                Err(reason) => {
                    &&& rejection(old(self)@, position as nat, value as nat) == Some(reason)
                    &&& final(self)@ == old(self)@
                },
            },
            prefix_total(final(self)@) >= prefix_total(old(self)@),
    {
        if position >= self.slots.len() {
            return Err(WriteError::OutOfRange);
        }
        if self.slots[position] != UNSET {
            return Err(WriteError::AlreadyWritten);
        }
        if value == UNSET {
            return Err(WriteError::ReservedValue);
        }
        if !self.total_fits(position, value) {
            return Err(WriteError::Overflow);
        }
        self.write(position, value);
        Ok(())
    }

    /// The sum of every slot written so far, in or beyond the finished
    /// prefix; `None` if it does not fit in a `usize`.
    pub fn written_total(&self) -> (total: Option<usize>)
        ensures
            match total {
                Some(sum) => sum == filled_total(self@),
                None => filled_total(self@) > usize::MAX,
            },
    {
        let mut sum: usize = 0;
        let mut i: usize = 0;
        while i < self.slots.len()
            invariant
                i <= self.slots.len(),
                sum == sum_below(self@, i as nat),
            decreases self.slots.len() - i,
        {
            let word = self.slots[i];
            if word != UNSET {
                match sum.checked_add(word) {
                    Some(next) => {
                        sum = next;
                    },
                    None => {
                        proof {
                            lemma_sum_below_grows(self@, (i + 1) as nat, self@.len());
                        }
                        return None;
                    },
                }
            }
            i += 1;
        }
        Some(sum)
    }
}

} // verus!
