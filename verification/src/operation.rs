//! The closed set of transitions between states, and their cost weights.

use vstd::prelude::*;
use vstd::std_specs::cmp::PartialEqSpecImpl;

verus! {

/// Up to three flow values; the first two slots are filled in every
/// operation that a generator produces.
pub type Parts = (Option<u64>, Option<u64>, Option<u64>);

/// A forward transition: a merge of two or three values into their sum, or
/// a split of one value into two or three parts.
#[allow(inconsistent_fields)]
#[derive(Clone, Copy, Debug)]
pub enum Operation {
    Merge { input: Parts, output: u64 },
    Split { input: u64, output: Parts },
}

/// A transition discovered while walking from the target towards the start.
///
/// A reverse split undoes a merge and a reverse merge undoes a split; see
/// [`ReverseOperation::forward`].
#[allow(inconsistent_fields)]
#[derive(Clone, Copy, Debug)]
pub enum ReverseOperation {
    Merge { input: Parts, output: u64 },
    Split { input: u64, output: Parts },
}

/// The total of the filled slots.
pub open spec fn parts_sum(p: Parts) -> int {
    (match p.0 {
        Some(a) => a as int,
        None => 0,
    }) + (match p.1 {
        Some(b) => b as int,
        None => 0,
    }) + (match p.2 {
        Some(c) => c as int,
        None => 0,
    })
}

/// The filled slots, in slot order.
pub open spec fn parts_seq(p: Parts) -> Seq<u64> {
    (match p.0 {
        Some(a) => seq![a],
        None => Seq::<u64>::empty(),
    }) + (match p.1 {
        Some(b) => seq![b],
        None => Seq::<u64>::empty(),
    }) + (match p.2 {
        Some(c) => seq![c],
        None => Seq::<u64>::empty(),
    })
}

/// Two or three slots are filled, from the front.
pub open spec fn parts_well_formed(p: Parts) -> bool {
    p.0 is Some && p.1 is Some
}

impl Operation {
    /// The weight of an operation: 1 for a split, 3 for a merge.
    pub open spec fn spec_cost(self) -> nat {
        match self {
            Operation::Split { .. } => 1,
            Operation::Merge { .. } => 3,
        }
    }

    /// The values that the operation takes out of a state.
    pub open spec fn consumed(self) -> Seq<u64> {
        match self {
            Operation::Split { input, .. } => seq![input],
            Operation::Merge { input, .. } => parts_seq(input),
        }
    }

    /// The values that the operation puts into a state.
    pub open spec fn produced(self) -> Seq<u64> {
        match self {
            Operation::Split { output, .. } => parts_seq(output),
            Operation::Merge { output, .. } => seq![output],
        }
    }

    /// The operation is a split or a merge of two or three parts whose total
    /// equals the single value on its other side.
    pub open spec fn conserves(self) -> bool {
        match self {
            Operation::Split { input, output } => parts_well_formed(output) && parts_sum(output)
                == input,
            Operation::Merge { input, output } => parts_well_formed(input) && parts_sum(input)
                == output,
        }
    }

    /// Both operations are of the same kind, whatever values they carry.
    pub open spec fn same_kind(self, other: Operation) -> bool {
        match (self, other) {
            (Operation::Split { .. }, Operation::Split { .. }) => true,
            (Operation::Merge { .. }, Operation::Merge { .. }) => true,
            _ => false,
        }
    }

    /// The weight of the operation: 1 for a split, 3 for a merge.
    pub fn cost(&self) -> (c: u64)
        ensures
            c == self.spec_cost(),
            c <= 3,
    {
        match self {
            Operation::Split { .. } => 1,
            Operation::Merge { .. } => 3,
        }
    }

}

/// Operations compare equal when they are of the same kind.
impl PartialEq for Operation {
    fn eq(&self, other: &Operation) -> (r: bool) {
        match (self, other) {
            (Operation::Split { .. }, Operation::Split { .. }) => true,
            (Operation::Merge { .. }, Operation::Merge { .. }) => true,
            _ => false,
        }
    }
}

impl PartialEqSpecImpl for Operation {
    open spec fn obeys_eq_spec() -> bool {
        true
    }

    open spec fn eq_spec(&self, other: &Operation) -> bool {
        self.same_kind(*other)
    }
}

impl ReverseOperation {
    /// The forward operation that this step stands for: a reverse split is a
    /// merge of its parts into its input, a reverse merge is a split of its
    /// output into its parts.
    pub open spec fn spec_forward(self) -> Operation {
        match self {
            ReverseOperation::Split { input, output } => Operation::Merge {
                input: output,
                output: input,
            },
            ReverseOperation::Merge { input, output } => Operation::Split {
                input: output,
                output: input,
            },
        }
    }

    /// The weight of the forward operation that this step stands for.
    pub open spec fn spec_cost(self) -> nat {
        self.spec_forward().spec_cost()
    }

    /// The forward operation that this step stands for.
    pub fn forward(self) -> (op: Operation)
        ensures
            op == self.spec_forward(),
    {
        match self {
            ReverseOperation::Split { input, output } => Operation::Merge {
                input: output,
                output: input,
            },
            ReverseOperation::Merge { input, output } => Operation::Split {
                input: output,
                output: input,
            },
        }
    }

    /// The weight of the forward operation that this step stands for: 3 for a
    /// reverse split, 1 for a reverse merge.
    pub fn cost(&self) -> (c: u64)
        ensures
            c == self.spec_cost(),
            c <= 3,
    {
        match self {
            ReverseOperation::Split { .. } => 3,
            ReverseOperation::Merge { .. } => 1,
        }
    }
}

} // verus!
