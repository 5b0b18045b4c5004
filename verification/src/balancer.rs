//! States, problems and results.

use vstd::prelude::*;
use vstd::std_specs::cmp::PartialEqSpecImpl;
use crate::engine::{path_view, Found};
use crate::operation::Operation;

verus! {

/// The flow values of the channels that are present at one moment.
///
/// A state built by [`crate::helpers::multiset`] is ascending; `new` stores
/// the values as they are given.
#[derive(Debug)]
pub struct BalancerState {
    pub values: Vec<u64>,
}

impl View for BalancerState {
    type V = Seq<u64>;

    open spec fn view(&self) -> Seq<u64> {
        self.values@
    }
}

impl BalancerState {
    /// The state that holds `state` as it is given, in the given order.
    pub fn new(state: Vec<u64>) -> (s: BalancerState)
        ensures
            s@ == state@,
    {
        BalancerState { values: state }
    }

    /// A copy of the values.
    pub fn to_vec(&self) -> (v: Vec<u64>)
        ensures
            v@ == self@,
    {
        self.values.clone()
    }

    /// The values, front to back.
    pub fn iter(&self) -> (it: std::slice::Iter<'_, u64>)
        ensures
            vstd::std_specs::iter::IteratorSpec::remaining(&it) == self@.as_ref(),
    {
        broadcast use vstd::std_specs::slice::axiom_spec_slice_iter;

        self.values.as_slice().iter()
    }

    /// The number of channels.
    pub fn len(&self) -> (n: usize)
        ensures
            n == self@.len(),
    {
        self.values.len()
    }
}

impl Clone for BalancerState {
    fn clone(&self) -> (s: BalancerState)
        ensures
            s@ == self@,
    {
        BalancerState { values: self.values.clone() }
    }
}

/// Two states are equal when they hold the same values in the same order.
impl PartialEq for BalancerState {
    fn eq(&self, other: &BalancerState) -> (r: bool) {
        if self.values.len() != other.values.len() {
            return false;
        }
        let mut i: usize = 0;
        while i < self.values.len()
            invariant
                i <= self.values.len(),
                self.values.len() == other.values.len(),
                forall|k: int| 0 <= k < i ==> self.values@[k] == other.values@[k],
            decreases self.values.len() - i,
        {
            if self.values[i] != other.values[i] {
                return false;
            }
            i += 1;
        }
        assert(self.values@ =~= other.values@);
        true
    }
}

impl PartialEqSpecImpl for BalancerState {
    open spec fn obeys_eq_spec() -> bool {
        true
    }

    open spec fn eq_spec(&self, other: &BalancerState) -> bool {
        self@ == other@
    }
}

impl Eq for BalancerState {

}

/// A query: the flow values that are given, those that are wanted, and the
/// largest value that a single channel may carry.
#[derive(Debug)]
pub struct Balancer {
    pub max_belt: u64,
    pub inputs: Vec<u64>,
    pub outputs: Vec<u64>,
}

impl Balancer {
    /// The query for a way from `inputs` to `outputs` through states with no
    /// value above `max_belt`.
    pub fn new(inputs: Vec<u64>, outputs: Vec<u64>, max_belt: u64) -> (b: Balancer)
        ensures
            b.inputs@ == inputs@,
            b.outputs@ == outputs@,
            b.max_belt == max_belt,
    {
        Balancer { max_belt, inputs, outputs }
    }
}

/// How a search ended.
#[derive(Clone, Copy, Debug, PartialEq, Eq, Structural)]
pub enum Outcome {
    /// A sequence of operations from the given values to the wanted ones was
    /// found.
    Solved,
    /// The given and the wanted values differ in total; nothing was searched.
    Unbalanced,
    /// Both frontiers ran empty before they met: no sequence of moves leads
    /// from the given values to the wanted ones.
    Exhausted,
    /// The budget of time or of steps ran out before the frontiers met;
    /// whether there is a solution is not known.
    TimedOut,
}

/// What a search returns: how it ended, the operations of the solution in
/// the order in which they are carried out, each with the state that it
/// leaves, and how much work was done.
#[derive(Debug)]
pub struct BalancerResult {
    pub path: Vec<(Operation, BalancerState)>,
    pub outcome: Outcome,
    /// Successor and predecessor states generated.
    pub total_states: u64,
    /// Frontier entries examined.
    pub checked_states: u64,
    pub elapsed_millis: u64,
}

impl BalancerResult {
    /// The result without the time that the search took, its states by
    /// their values.
    pub open spec fn found(&self) -> Found {
        Found {
            path: path_view(self.path@),
            outcome: self.outcome,
            total_states: self.total_states,
            checked_states: self.checked_states as nat,
        }
    }

    /// The result of a search that found `path`.
    pub fn new(
        path: Vec<(Operation, BalancerState)>,
        total_states: u64,
        checked_states: u64,
        elapsed_millis: u64,
    ) -> (r: BalancerResult)
        ensures
            r.path == path,
            r.outcome == Outcome::Solved,
            r.total_states == total_states,
            r.checked_states == checked_states,
            r.elapsed_millis == elapsed_millis,
    {
        BalancerResult { path, outcome: Outcome::Solved, total_states, checked_states, elapsed_millis }
    }

    /// The result of a search that found no path, which `outcome` gives the
    /// reason for. With `Outcome::Solved` it stands for the empty solution.
    pub fn without_path(
        outcome: Outcome,
        total_states: u64,
        checked_states: u64,
        elapsed_millis: u64,
    ) -> (r: BalancerResult)
        ensures
            r.path@.len() == 0,
            r.outcome == outcome,
            r.total_states == total_states,
            r.checked_states == checked_states,
            r.elapsed_millis == elapsed_millis,
    {
        BalancerResult { path: Vec::new(), outcome, total_states, checked_states, elapsed_millis }
    }

    /// The steps of the solution, first to last.
    pub fn iter(&self) -> (it: std::slice::Iter<'_, (Operation, BalancerState)>)
        ensures
            vstd::std_specs::iter::IteratorSpec::remaining(&it) == self.path@.as_ref(),
    {
        broadcast use vstd::std_specs::slice::axiom_spec_slice_iter;

        self.path.as_slice().iter()
    }
}

/// No path and no work: the result of a search that found nothing.
impl Default for BalancerResult {
    fn default() -> (r: BalancerResult)
        ensures
            r.path@.len() == 0,
            r.outcome == Outcome::Exhausted,
            r.total_states == 0,
            r.checked_states == 0,
            r.elapsed_millis == 0,
    {
        BalancerResult::without_path(Outcome::Exhausted, 0, 0, 0)
    }
}

} // verus!
