//! The entries that wait to be examined, and the choice of the next one.

use vstd::prelude::*;

verus! {

/// A state that waits to be examined: its index in the table, the cost at
/// which it was reached, and that cost plus the estimate of what remains.
#[derive(Clone, Copy, Debug)]
pub struct Entry {
    pub priority: u128,
    pub cost: u128,
    pub node: usize,
}

/// `a` is examined no later than `b`: its priority is lower, or equal with
/// a cost that is no lower.
pub open spec fn goes_before(a: Entry, b: Entry) -> bool {
    a.priority < b.priority || (a.priority == b.priority && a.cost >= b.cost)
}

/// `a` is examined before `b` even where `b` was put on the frontier first:
/// its priority is lower, or equal with a higher cost.
pub open spec fn overtakes(a: Entry, b: Entry) -> bool {
    a.priority < b.priority || (a.priority == b.priority && a.cost > b.cost)
}

/// The index of the entry that is examined next: the first that no later
/// one overtakes.
pub open spec fn lowest(frontier: Seq<Entry>) -> int
    decreases frontier.len(),
{
    if frontier.len() <= 1 {
        0
    } else {
        let best = lowest(frontier.drop_last());
        if overtakes(frontier.last(), frontier[best]) {
            frontier.len() - 1
        } else {
            best
        }
    }
}

/// Takes out the entry that goes before all others; of several such, the
/// one that was put in first.
pub fn pop_lowest(frontier: &mut Vec<Entry>) -> (e: Entry)
    requires
        old(frontier)@.len() > 0,
    ensures
        0 <= lowest(old(frontier)@) < old(frontier)@.len(),
        e == old(frontier)@[lowest(old(frontier)@)],
        final(frontier)@ == old(frontier)@.remove(lowest(old(frontier)@)),
        forall|k: int| 0 <= k < old(frontier)@.len() ==> goes_before(e, #[trigger] old(frontier)@[k]),
        forall|k: int|
            0 <= k < lowest(old(frontier)@) ==> !goes_before(#[trigger] old(frontier)@[k], e),
{
    let mut best: usize = 0;
    let mut k: usize = 1;
    proof {
        assert(lowest(frontier@.take(1)) == 0);
    }
    while k < frontier.len()
        invariant
            frontier@ == old(frontier)@,
            best < frontier@.len(),
            1 <= k <= frontier@.len(),
            best < k,
            best == lowest(frontier@.take(k as int)),
            forall|j: int|
                0 <= j < k ==> goes_before(
                    frontier@[best as int],
                    #[trigger] frontier@[j],
                ),
            forall|j: int| 0 <= j < best ==> !goes_before(#[trigger] frontier@[j], frontier@[best as int]),
        decreases frontier@.len() - k,
    {
        let cand = frontier[k];
        let lead = frontier[best];
        proof {
            let wider = frontier@.take(k + 1);
            assert(wider.drop_last() =~= frontier@.take(k as int));
            assert(wider.last() == cand);
            assert(wider[best as int] == lead);
        }
        if cand.priority < lead.priority || (cand.priority == lead.priority && cand.cost
            > lead.cost) {
            best = k;
        }
        k += 1;
    }
    proof {
        assert(frontier@.take(frontier@.len() as int) =~= frontier@);
    }
    frontier.remove(best)
}

} // verus!
