use vstd::prelude::*;

use crate::error::Result;

use super::traits::{zeroed_stats, Kernel, StepOutcome, SteppingUpdateSet, UpdateSet};

verus! {

/// Metropolis kernel over a static update set.
///
/// The same kernel serves stateless (`Kernel<(), R>`) and stateful simulations: the
/// state is a parameter of the `Kernel` impl, not of the kernel.
pub struct MetropolisKernel<S> {
    updates: S,
}

impl<S> MetropolisKernel<S> {
    pub closed spec fn updates_spec(&self) -> S {
        self.updates
    }

    /// A kernel around `updates`.
    pub fn new(updates: S) -> (r: Self)
        ensures
            r.updates_spec() == updates,
    {
        Self { updates }
    }

    /// Borrow the contained update set.
    pub fn updates(&self) -> (r: &S)
        ensures
            *r == self.updates_spec(),
    {
        &self.updates
    }

    /// Mutably borrow the contained update set.
    pub fn updates_mut(&mut self) -> (r: &mut S)
        ensures
            *r == old(self).updates_spec(),
            final(self).updates_spec() == *final(r),
    {
        &mut self.updates
    }

    /// Consume the kernel and return its update set.
    pub fn into_updates(self) -> (r: S)
        ensures
            r == self.updates_spec(),
    {
        self.updates
    }
}

impl<State, R, S> Kernel<State, R> for MetropolisKernel<S> where S: SteppingUpdateSet<State, R> {
    /// Preparing is preparing the update set.
    open spec fn prepares_to(&self, state: State, next: &Self, next_state: State, r: Result<()>) -> bool {
        self.updates_spec().prepared(state, &next.updates_spec(), next_state, r)
    }

    /// A step is one step of the update set.
    open spec fn steps_to(&self, state: State, rng: R, next: &Self, next_state: State, next_rng: R, r: Result<StepOutcome>) -> bool {
        self.updates_spec().stepped(state, rng, &next.updates_spec(), next_state, next_rng, r)
    }

    /// Clearing zeroes every counter of the update set, one per update as before,
    /// and keeps what the set says it keeps.
    open spec fn resets_to(&self, next: &Self) -> bool {
        &&& next.updates_spec().stats_view() == zeroed_stats(self.updates_spec().stats_view().len())
        &&& self.updates_spec().cleared_to(&next.updates_spec())
    }

    fn prepare(&mut self, state: &mut State) -> (r: Result<()>) {
        self.updates.prepare(state)
    }

    fn step(&mut self, state: &mut State, rng: &mut R) -> (r: Result<StepOutcome>) {
        self.updates.select_and_step(state, rng)
    }

    fn reset_stats(&mut self) {
        self.updates.reset_stats()
    }
}

} // verus!
