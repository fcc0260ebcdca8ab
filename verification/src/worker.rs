//! What a worker decides and records for the position that it has claimed.
//!
//! A worker observes the accumulator's total and decides. If it skips, it
//! hands in an outcome without items, and writes nothing: the slot of a
//! skipped position stays unset for good. If it executes, it runs the job,
//! which is not this library's business, and then records what the job
//! produced. The total may have grown between the observation and the
//! record: a worker may run a job that a later look would have skipped,
//! never the other way round.

use vstd::prelude::*;
use crate::accumulator::{accepts, rejection, PrefixAccumulator, WriteError};
use crate::slots::{lemma_write_never_lowers_total, prefix_total, stored};

verus! {

/// What a worker does with its position.
#[derive(Clone, Copy, Debug, PartialEq, Eq, Structural)]
pub enum Decision {
    /// Enough of the prefix is finished: the job is not run.
    Skip,
    /// The job is run.
    Execute,
}

/// The result for one position: the items that its job produced, in order,
/// or none where the job was skipped.
#[derive(Debug, PartialEq, Eq)]
pub struct Outcome {
    pub position: usize,
    pub items: Vec<String>,
}

/// An outcome as a plain value.
pub struct OutcomeView {
    pub position: nat,
    pub items: Seq<Seq<char>>,
}

impl View for Outcome {
    type V = OutcomeView;

    open spec fn view(&self) -> OutcomeView {
        OutcomeView { position: self.position as nat, items: self.items.deep_view() }
    }
}

/// The decision rule: skip as soon as the observed total has reached the
/// threshold.
pub open spec fn decision_for(observed_total: nat, threshold: nat) -> Decision {
    if observed_total >= threshold {
        Decision::Skip
    } else {
        Decision::Execute
    }
}

/// What the position contributes: nothing where the decision was to skip,
/// else what its job produced.
pub open spec fn contribution(decision: Decision, produced: Seq<Seq<char>>) -> Seq<Seq<char>> {
    match decision {
        Decision::Skip => Seq::empty(),
        Decision::Execute => produced,
    }
}

/// Decides from the total that the worker observed.
pub fn decide(observed_total: usize, threshold: usize) -> (decision: Decision)
    ensures
        decision == decision_for(observed_total as nat, threshold as nat),
{
    if observed_total >= threshold {
        Decision::Skip
    } else {
        Decision::Execute
    }
}

impl Outcome {
    /// The outcome of a skipped position: no items.
    pub fn skipped(position: usize) -> (outcome: Outcome)
        ensures
            outcome.position == position,
            outcome.items@ == Seq::<String>::empty(),
            outcome@ == (OutcomeView { position: position as nat, items: Seq::empty() }),
    {
        let outcome = Outcome { position, items: Vec::new() };
        assert(outcome@.items =~= Seq::empty());
        outcome
    }
}

/// Records a job that was run: writes its cost, the number of `items`, at
/// `position`, and tags the items with the position. Where the write is
/// turned down nothing is recorded, and the items are dropped.
pub fn complete(acc: &mut PrefixAccumulator, position: usize, items: Vec<String>) -> (result:
    Result<Outcome, WriteError>)
    requires
        old(acc).wf(),
    ensures
        final(acc).wf(),
        match result {
            Ok(outcome) => {
                &&& accepts(old(acc)@, position as nat, items@.len())
                &&& final(acc)@ == stored(old(acc)@, position as nat, items@.len())
                &&& outcome.position == position
                &&& outcome.items == items
            },
            Err(reason) => {
                &&& rejection(old(acc)@, position as nat, items@.len()) == Some(reason)
                &&& final(acc)@ == old(acc)@
            },
        },
        prefix_total(final(acc)@) >= prefix_total(old(acc)@),
{
    match acc.try_write(position, items.len()) {
        Ok(()) => Ok(Outcome { position, items }),
        Err(reason) => Err(reason),
    }
}

/// Skipping is conservative: the total only grows, so once it has reached
/// the threshold every later observation leads to the same decision.
pub proof fn lemma_skip_stays_justified(
    slots: Seq<Option<nat>>,
    position: nat,
    value: nat,
    threshold: nat,
)
    requires
        position < slots.len(),
        slots[position as int] is None,
        decision_for(prefix_total(slots), threshold) == Decision::Skip,
    ensures
        decision_for(prefix_total(stored(slots, position, value)), threshold) == Decision::Skip,
{
    lemma_write_never_lowers_total(slots, position, value);
}

} // verus!
