//! A counting argument that both the accumulator's and the collector's laws
//! rest on.

use vstd::prelude::*;
use vstd::set_lib::{lemma_int_range, lemma_len_subset, lemma_subset_equality, set_int_range};

verus! {

/// `positions` holds each of `0..positions.len()` exactly once.
pub open spec fn is_arrangement(positions: Seq<nat>) -> bool {
    &&& forall|k: int| 0 <= k < positions.len() ==> (#[trigger] positions[k]) < positions.len()
    &&& forall|j: int, k: int|
        0 <= j < k < positions.len() ==> (#[trigger] positions[j]) != (#[trigger] positions[k])
}

/// `position` occurs in `positions`.
pub open spec fn occurs(positions: Seq<nat>, position: nat) -> bool {
    exists|k: int| 0 <= k < positions.len() && (#[trigger] positions[k]) == position
}

/// As many distinct positions as there are positions to take leave none out.
pub proof fn lemma_arrangement_covers(positions: Seq<nat>)
    requires
        is_arrangement(positions),
    ensures
        forall|p: nat| p < positions.len() ==> #[trigger] occurs(positions, p),
{
    let len = positions.len();
    let hit = Seq::new(len, |k: int| positions[k] as int);
    let all = set_int_range(0, len as int);
    assert(hit.no_duplicates()) by {
        assert forall|j: int, k: int| 0 <= j < hit.len() && 0 <= k < hit.len() && j != k implies hit[j]
            != hit[k] by {
            if j < k {
                assert(positions[j] != positions[k]);
            } else {
                assert(positions[k] != positions[j]);
            }
        }
    }
    hit.unique_seq_to_set();
    lemma_int_range(0, len as int);
    assert(hit.to_set().subset_of(all)) by {
        assert forall|p: int| hit.to_set().contains(p) implies all.contains(p) by {
            let k = choose|k: int| 0 <= k < hit.len() && hit[k] == p;
            assert(positions[k] < len);
        }
    }
    lemma_len_subset(hit.to_set(), all);
    lemma_subset_equality(hit.to_set(), all);
    assert forall|p: nat| p < len implies #[trigger] occurs(positions, p) by {
        assert(all.contains(p as int));
        assert(hit.to_set().contains(p as int));
        let k = choose|k: int| 0 <= k < hit.len() && hit[k] == p as int;
        assert(positions[k] == p);
    }
}

} // verus!
