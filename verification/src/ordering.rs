use vstd::prelude::*;

verus! {

/// Condition under which a `Sequence` group lets a later sibling start.
#[derive(Debug, Clone, Copy, PartialEq, Eq, Structural)]
pub enum OrderingCondition {
    /// the previous tests must all have succeeded for the next one to run
    Success,
    /// the previous test only needs to have finished, whatever its outcome
    Finish,
}

/// How the children of a group are scheduled.
#[derive(Debug, Clone, Copy, PartialEq, Eq, Structural)]
pub enum Ordering {
    /// no gating between siblings
    Any,
    /// run strictly one after the other, gated by the condition
    Sequence { on_condition: OrderingCondition },
}

} // verus!
