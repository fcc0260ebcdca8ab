//! The job dispatcher: hands out the positions `0..len`, each of them once,
//! in increasing order of the calls. A worker makes one claim and owns the
//! position that it gets, whenever it finishes: this is no work queue.
//!
//! A claim takes the dispatcher by `&mut`, so claims cannot overlap; workers
//! on several threads share a dispatcher behind a lock.

use vstd::prelude::*;

verus! {

/// What a dispatcher stands for: how many positions it has handed out, of
/// how many.
pub struct Claims {
    pub claimed: nat,
    pub len: nat,
}

/// A dispatcher for `len` positions that has handed out none yet.
pub open spec fn fresh(len: nat) -> Claims {
    Claims { claimed: 0, len }
}

/// What the next claim returns: the lowest position not yet handed out, or
/// nothing once all are.
pub open spec fn next_claim(state: Claims) -> Option<nat> {
    if state.claimed < state.len {
        Some(state.claimed)
    } else {
        None
    }
}

/// The state after the next claim.
pub open spec fn after_claim(state: Claims) -> Claims {
    if state.claimed < state.len {
        Claims { claimed: state.claimed + 1, len: state.len }
    } else {
        state
    }
}

/// What `calls` claims in a row return, from `state` on.
pub open spec fn claims(state: Claims, calls: nat) -> Seq<Option<nat>>
    decreases calls,
{
    if calls == 0 {
        Seq::empty()
    } else {
        seq![next_claim(state)] + claims(after_claim(state), (calls - 1) as nat)
    }
}

/// The dispatcher. Its view says how many of its positions it has handed
/// out.
pub struct Dispatcher {
    next: usize,
    len: usize,
}

impl View for Dispatcher {
    type V = Claims;

    closed spec fn view(&self) -> Claims {
        Claims { claimed: self.next as nat, len: self.len as nat }
    }
}

impl Dispatcher {
    /// A dispatcher for the positions `0..len`.
    pub fn new(len: usize) -> (dispatcher: Dispatcher)
        ensures
            dispatcher@ == fresh(len as nat),
    {
        Dispatcher { next: 0, len }
    }

    /// The number of positions, handed out or not.
    pub fn len(&self) -> (len: usize)
        ensures
            len == self@.len,
    {
        self.len
    }

    /// The number of positions handed out so far.
    pub fn claimed(&self) -> (claimed: usize)
        ensures
            claimed == self@.claimed,
    {
        self.next
    }

    /// Claims the next position: the lowest one that no earlier call
    /// returned, or `None` once all of `0..len` have been returned.
    pub fn next_position(&mut self) -> (position: Option<usize>)
        ensures
            final(self)@ == after_claim(old(self)@),
            match position {
                Some(p) => next_claim(old(self)@) == Some(p as nat),
                None => next_claim(old(self)@) is None,
            },
    {
        if self.next < self.len {
            let position = self.next;
            self.next = position + 1;
            Some(position)
        } else {
            None
        }
    }
}

/// `calls` claims, made after `state.claimed` earlier ones, return the
/// positions that follow, then nothing.
pub proof fn lemma_claims_count_up(state: Claims, calls: nat)
    ensures
        claims(state, calls) == Seq::new(
            calls,
            |i: int|
                if state.claimed + i < state.len {
                    Some((state.claimed + i) as nat)
                } else {
                    None
                },
        ),
    decreases calls,
{
    let expected = Seq::new(
        calls,
        |i: int|
            if state.claimed + i < state.len {
                Some((state.claimed + i) as nat)
            } else {
                None
            },
    );
    if calls > 0 {
        lemma_claims_count_up(after_claim(state), (calls - 1) as nat);
    }
    assert(claims(state, calls) =~= expected);
}

/// No duplicate dispatch: the first `len` claims on a dispatcher for `len`
/// positions return each of the positions `0..len`, the `i`-th claim the
/// position `i`, so no two return the same; every claim after them returns
/// nothing.
pub proof fn lemma_each_position_is_claimed_once(len: nat, calls: nat)
    ensures
        claims(fresh(len), calls).len() == calls,
        forall|i: int|
            0 <= i < calls && i < len ==> (#[trigger] claims(fresh(len), calls)[i]) == Some(
                i as nat,
            ),
        forall|i: int| len <= i < calls ==> (#[trigger] claims(fresh(len), calls)[i]) is None,
        forall|i: int, j: int|
            0 <= i < j < calls && j < len ==> claims(fresh(len), calls)[i] != claims(
                fresh(len),
                calls,
            )[j],
        forall|p: nat|
            p < len && p < calls ==> #[trigger] claims(fresh(len), calls).contains(Some(p)),
{
    lemma_claims_count_up(fresh(len), calls);
    let run = claims(fresh(len), calls);
    assert forall|p: nat| p < len && p < calls implies #[trigger] run.contains(Some(p)) by {
        assert(run[p as int] == Some(p));
    }
}

} // verus!
