//! The capability contract shared by the three solvers: an external driver
//! repeatedly asks the active solver to advance by a bounded amount of work,
//! then reads its observable state for rendering.

use vstd::prelude::*;

use crate::maze::GridPosition;

verus! {

/// A resumable maze solver as the driver sees it.
///
/// Every implementation carries a well-formedness invariant `inv`, which its
/// constructor establishes and `update` preserves, and exposes its observable
/// state through the `*_spec` functions. Each implementation additionally
/// pins `update` down exactly, as a pure transition function of its own
/// abstract model.
pub trait MazeSolverDrawable: Sized {
    /// Well-formedness of the solver's internal state.
    spec fn inv(&self) -> bool;

    spec fn start_spec(&self) -> GridPosition;

    spec fn end_spec(&self) -> GridPosition;

    /// The goal has been reached and the final path reconstructed.
    spec fn complete_spec(&self) -> bool;

    /// Path reconstruction was attempted and did not connect goal to start;
    /// an internal-invariant violation, surfaced rather than panicked on.
    spec fn failed_spec(&self) -> bool;

    /// How many entries the frontier currently holds.
    spec fn frontier_size(&self) -> nat;

    spec fn path_spec(&self) -> Seq<GridPosition>;

    spec fn expanded_spec(&self) -> Seq<GridPosition>;

    /// The search has drained its frontier without reaching the goal and can
    /// make no further progress: the goal is unreachable.
    open spec fn exhausted_spec(&self) -> bool {
        self.frontier_size() == 0 && !self.complete_spec() && !self.failed_spec()
    }

    /// Performs this solver's bounded amount of work for one tick.
    fn update(&mut self)
        requires
            old(self).inv(),
        ensures
            final(self).inv(),
            final(self).start_spec() == old(self).start_spec(),
            final(self).end_spec() == old(self).end_spec(),
            old(self).complete_spec() || old(self).failed_spec() ==> *final(self) == *old(self),
            old(self).complete_spec() ==> final(self).complete_spec(),
            old(self).expanded_spec().is_prefix_of(final(self).expanded_spec()),
            !final(self).complete_spec() ==> final(self).path_spec().len() == 0,
    ;

    /// The cells expanded so far, in expansion order.
    fn expanded_nodes(&self) -> (r: &Vec<GridPosition>)
        ensures
            r@ == self.expanded_spec(),
    ;

    fn start(&self) -> (r: &GridPosition)
        ensures
            *r == self.start_spec(),
    ;

    fn end(&self) -> (r: &GridPosition)
        ensures
            *r == self.end_spec(),
    ;

    fn is_complete(&self) -> (r: bool)
        ensures
            r == self.complete_spec(),
    ;

    /// Distinct terminal status for an unreachable goal.
    fn is_exhausted(&self) -> (r: bool)
        ensures
            r == self.exhausted_spec(),
    ;

    /// Distinct terminal status for a failed path reconstruction.
    fn is_failed(&self) -> (r: bool)
        ensures
            r == self.failed_spec(),
    ;

    /// The finished path; empty until the search completes.
    fn path(&self) -> (r: &Vec<GridPosition>)
        ensures
            r@ == self.path_spec(),
    ;
}

} // verus!
