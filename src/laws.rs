use vstd::prelude::*;

use crate::bins::{total_size, Bin, ObjectTooBigError, Pack};
use crate::placement::contents;
use crate::strategies::{lemma_first_oversized_unique, next_fit_outcome, packs};

verus! {

/// Two results are the same packing: the same error, or bins holding the same
/// items in the same order with the same free space.
pub open spec fn same_packing<T>(
    r1: Result<Vec<Bin<T>>, ObjectTooBigError>,
    r2: Result<Vec<Bin<T>>, ObjectTooBigError>,
) -> bool {
    match (r1, r2) {
        (Err(e1), Err(e2)) => e1 == e2,
        (Ok(b1), Ok(b2)) => {
            &&& b1@.len() == b2@.len()
            &&& forall|k: int|
                0 <= k < b1@.len() ==> #[trigger] b1@[k].items@ == b2@[k].items@
                    && b1@[k].remaining_space == b2@[k].remaining_space
        },
        _ => false,
    }
}

/// Next fit is deterministic: the same items and capacity always give the
/// same packing.
pub proof fn next_fit_is_deterministic<T: Pack>(
    items: Seq<T>,
    capacity: u64,
    r1: Result<Vec<Bin<T>>, ObjectTooBigError>,
    r2: Result<Vec<Bin<T>>, ObjectTooBigError>,
)
    requires
        next_fit_outcome(items, capacity, r1),
        next_fit_outcome(items, capacity, r2),
    ensures
        same_packing(r1, r2),
{
    match (r1, r2) {
        (Err(e1), Err(e2)) => {
            let i = choose|i: int|
                crate::strategies::first_oversized(items, capacity, i) && e1.0 == items[i].spec_size()
                    && e1.1 == capacity;
            let j = choose|j: int|
                crate::strategies::first_oversized(items, capacity, j) && e2.0 == items[j].spec_size()
                    && e2.1 == capacity;
            lemma_first_oversized_unique(items, capacity, i, j);
        },
        (Ok(b1), Ok(b2)) => {
            assert(contents(b1@) == contents(b2@));
            assert(contents(b1@).len() == b1@.len());
            assert forall|k: int| 0 <= k < b1@.len() implies #[trigger] b1@[k].items@
                == b2@[k].items@ && b1@[k].remaining_space == b2@[k].remaining_space by {
                assert(contents(b1@)[k] == b1@[k].items@);
                assert(contents(b2@)[k] == b2@[k].items@);
                assert(b1@[k].conserves(capacity));
                assert(b2@[k].conserves(capacity));
            }
        },
        _ => {},
    }
}

/// No strategy overfills a bin: the items of each bin never take more than
/// the capacity, so the free space is never negative.
pub proof fn packed_bins_never_overfull<T: Pack>(
    items: Seq<T>,
    capacity: u64,
    r: Result<Vec<Bin<T>>, ObjectTooBigError>,
)
    requires
        packs(items, capacity, r),
    ensures
        r matches Ok(bins) ==> forall|k: int|
            0 <= k < bins@.len() ==> total_size(#[trigger] bins@[k].items@) <= capacity
                && bins@[k].remaining_space <= capacity,
{
    if let Ok(bins) = r {
        assert forall|k: int| 0 <= k < bins@.len() implies total_size(#[trigger] bins@[k].items@)
            <= capacity && bins@[k].remaining_space <= capacity by {
            assert(bins@[k].conserves(capacity));
        }
    }
}

} // verus!
