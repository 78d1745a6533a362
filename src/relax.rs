//! The decisions of the relaxation loop.
//!
//! The solver runs on the constraint set; when the set has no solution every
//! neighbour constraint is moved outward by one fixed step and the solver runs
//! again. The number of such rounds is capped, so the loop always ends.
use vstd::prelude::*;

verus! {

/// What the loop does after one run of the solver.
#[derive(Clone, Copy, Debug, PartialEq, Eq, Structural)]
pub enum Step {
    /// The solver found a velocity: take it.
    Accept,
    /// No velocity: move the neighbour constraints outward and run again.
    Relax,
    /// No velocity, and the cap on rounds is reached.
    GiveUp,
}

/// The loop's state: the relaxation rounds done so far, and the cap on them.
#[derive(Clone, Copy, Debug, PartialEq, Eq, Structural)]
pub struct Relaxation {
    pub rounds: u64,
    pub limit: u64,
}

impl Relaxation {
    pub open spec fn well_formed(self) -> bool {
        self.rounds <= self.limit
    }

    /// The step the loop takes after a run whose outcome was `feasible`.
    pub open spec fn step_after(self, feasible: bool) -> Step {
        if feasible {
            Step::Accept
        } else if self.rounds < self.limit {
            Step::Relax
        } else {
            Step::GiveUp
        }
    }

    /// A loop that may relax at most `limit` times.
    pub fn new(limit: u64) -> (r: Relaxation)
        ensures
            r.rounds == 0,
            r.limit == limit,
            r.well_formed(),
    {
        Relaxation { rounds: 0, limit }
    }

    /// Decides what follows a run of the solver; a relaxation round is
    /// counted.
    pub fn next(&mut self, feasible: bool) -> (s: Step)
        requires
            old(self).well_formed(),
        ensures
            s == old(self).step_after(feasible),
            final(self).limit == old(self).limit,
            final(self).rounds == if s == Step::Relax {
                old(self).rounds + 1
            } else {
                old(self).rounds as int
            },
            final(self).well_formed(),
    {
        if feasible {
            Step::Accept
        } else if self.rounds < self.limit {
            self.rounds = self.rounds + 1;
            Step::Relax
        } else {
            Step::GiveUp
        }
    }
}

} // verus!
