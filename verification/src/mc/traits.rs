use vstd::prelude::*;

use crate::error::Result;

verus! {

/// The Metropolis decision on one proposed move.
#[derive(Clone, Copy, Debug, PartialEq, Eq, Structural)]
pub enum Verdict {
    /// The move cannot be made (a negative acceptance weight); it is rejected and
    /// counted separately.
    Impossible,
    /// The move passed the acceptance test.
    Accepted,
    /// The move failed the acceptance test.
    Rejected,
}

/// A single Monte Carlo update acting on a chain's `State`.
///
/// `attempt` proposes a move and runs its acceptance test, drawing from `rng` as it
/// needs; the caller then commits the move with `accept` or rolls it back with
/// `reject`. A stateless update is `Update<(), R>`. What each method does is left
/// unspecified unless an implementation states it in the matching spec function.
pub trait Update<State, R> {
    /// `attempt` on `state` with the generator `rng` can leave the update `next`,
    /// the state `next_state`, the generator `next_rng` and the verdict `v`.
    open spec fn attempts_to(&self, state: State, rng: R, next: &Self, next_state: State, next_rng: R, v: Verdict) -> bool {
        arbitrary()
    }

    /// `accept` on `state` can leave the update `next` and the state `next_state`.
    open spec fn accepts_to(&self, state: State, next: &Self, next_state: State) -> bool {
        arbitrary()
    }

    /// `reject` on `state` can leave the update `next` and the state `next_state`.
    open spec fn rejects_to(&self, state: State, next: &Self, next_state: State) -> bool {
        arbitrary()
    }

    fn attempt(&mut self, state: &mut State, rng: &mut R) -> (v: Verdict)
        ensures
            old(self).attempts_to(*old(state), *old(rng), final(self), *final(state), *final(rng), v),
    ;

    fn accept(&mut self, state: &mut State)
        ensures
            old(self).accepts_to(*old(state), final(self), *final(state)),
    ;

    /// Roll back the proposed move.
    fn reject(&mut self, state: &mut State)
        ensures
            old(self).rejects_to(*old(state), final(self), *final(state)),
    ;
}

/// A per-cycle measurement of a chain's `State`, returning a typed `Output`. What
/// each method does is left unspecified unless an implementation states it in the
/// matching spec function.
pub trait Measurement<State> {
    type Output;

    /// Measuring `state` can leave the measurement `next`.
    open spec fn measures_to(&self, state: State, next: &Self) -> bool {
        arbitrary()
    }

    /// `finish` can return `out`.
    open spec fn finishes_with(&self, out: Self::Output) -> bool {
        arbitrary()
    }

    fn measure(&mut self, state: &State)
        ensures
            old(self).measures_to(*state, final(self)),
    ;

    fn finish(self) -> (out: Self::Output)
        ensures
            self.finishes_with(out),
    ;
}

/// What one step of an update set did.
#[derive(Clone, Copy, Debug, PartialEq, Eq, Structural)]
pub struct StepOutcome {
    pub update_index: usize,
    pub accepted: bool,
    pub impossible: bool,
}

/// Proposal, acceptance and impossible-move counters of one update.
#[derive(Clone, Copy, Debug, PartialEq, Eq, Structural)]
pub struct UpdateStats {
    pub nprops: u64,
    pub naccs: u64,
    pub nimps: u64,
}

impl UpdateStats {
    /// Every accepted or impossible move was first proposed.
    pub open spec fn wf(self) -> bool {
        self.naccs + self.nimps <= self.nprops
    }

    /// Counters that one more step could overflow.
    pub open spec fn saturated(self) -> bool {
        self.nprops == u64::MAX || self.naccs == u64::MAX || self.nimps == u64::MAX
    }

    /// The counters after recording `outcome`.
    pub open spec fn after(self, outcome: StepOutcome) -> UpdateStats {
        UpdateStats {
            nprops: (self.nprops + 1) as u64,
            naccs: (self.naccs + if outcome.accepted { 1int } else { 0int }) as u64,
            nimps: (self.nimps + if outcome.impossible { 1int } else { 0int }) as u64,
        }
    }

    pub open spec fn zero() -> UpdateStats {
        UpdateStats { nprops: 0, naccs: 0, nimps: 0 }
    }
}

impl Default for UpdateStats {
    fn default() -> (r: Self)
        ensures
            r == UpdateStats::zero(),
    {
        UpdateStats { nprops: 0, naccs: 0, nimps: 0 }
    }
}

/// `n` fresh counters.
pub open spec fn zeroed_stats(n: nat) -> Seq<UpdateStats> {
    Seq::new(n, |i: int| UpdateStats::zero())
}

/// Dispatch-free view over an update set's per-update statistics.
pub trait UpdateSet {
    /// The counters of the updates, one per update; left unspecified unless an
    /// implementation states it.
    open spec fn stats_view(&self) -> Seq<UpdateStats> {
        arbitrary()
    }

    fn stats(&self) -> (r: &[UpdateStats])
        ensures
            r@ == self.stats_view(),
    ;

    /// Zeroing the counters can leave the set `next`: what besides the counters
    /// it keeps is left unspecified unless an implementation states it.
    open spec fn cleared_to(&self, next: &Self) -> bool {
        arbitrary()
    }

    /// Zero every counter, keeping one per update.
    fn reset_stats(&mut self)
        ensures
            final(self).stats_view() == zeroed_stats(old(self).stats_view().len()),
            old(self).cleared_to(final(self)),
    ;
}

/// An update set that can be driven for one MC step against a chain's `State`.
pub trait SteppingUpdateSet<State, R>: UpdateSet {
    /// Preparing `self` against `state` can leave the set `next`, the state
    /// `next_state` and the result `r`; left unspecified unless an implementation
    /// states it.
    open spec fn prepared(&self, state: State, next: &Self, next_state: State, r: Result<()>) -> bool {
        arbitrary()
    }

    /// One step of `self` against `state` with the generator `rng` can leave the
    /// set `next`, the state `next_state`, the generator `next_rng` and the result
    /// `r`; left unspecified unless an implementation states it.
    open spec fn stepped(&self, state: State, rng: R, next: &Self, next_state: State, next_rng: R, r: Result<StepOutcome>) -> bool {
        arbitrary()
    }

    fn prepare(&mut self, state: &mut State) -> (r: Result<()>)
        ensures
            old(self).prepared(*old(state), final(self), *final(state), r),
    ;

    fn select_and_step(&mut self, state: &mut State, rng: &mut R) -> (r: Result<StepOutcome>)
        ensures
            old(self).stepped(*old(state), *old(rng), final(self), *final(state), *final(rng), r),
    ;
}

/// A kernel advances a chain by one MC step. A stateless kernel is `Kernel<(), R>`.
/// What each method does is left unspecified unless an implementation states it in
/// the matching spec function.
pub trait Kernel<State, R> {
    /// Preparing against `state` can leave the kernel `next`, the state
    /// `next_state` and the result `r`.
    open spec fn prepares_to(&self, state: State, next: &Self, next_state: State, r: Result<()>) -> bool {
        arbitrary()
    }

    /// One step on `state` with the generator `rng` can leave the kernel `next`,
    /// the state `next_state`, the generator `next_rng` and the result `r`.
    open spec fn steps_to(&self, state: State, rng: R, next: &Self, next_state: State, next_rng: R, r: Result<StepOutcome>) -> bool {
        arbitrary()
    }

    /// Clearing the counters can leave the kernel `next`.
    open spec fn resets_to(&self, next: &Self) -> bool {
        arbitrary()
    }

    /// Prepare the kernel for a run against `state`.
    fn prepare(&mut self, state: &mut State) -> (r: Result<()>)
        ensures
            old(self).prepares_to(*old(state), final(self), *final(state), r),
    ;

    fn step(&mut self, state: &mut State, rng: &mut R) -> (r: Result<StepOutcome>)
        ensures
            old(self).steps_to(*old(state), *old(rng), final(self), *final(state), *final(rng), r),
    ;

    /// Clear per-update counters, for example after a warmup phase.
    fn reset_stats(&mut self)
        ensures
            old(self).resets_to(final(self)),
    ;
}

/// Hooks called by the run loop.
pub trait RunCallbacks<C> {
    /// Callbacks of this type never ask a run to stop.
    open spec fn never_stops() -> bool {
        false
    }

    /// `on_step` at `ctx` can leave the callbacks `next`; left unspecified unless an
    /// implementation states it.
    open spec fn steps_on(&self, ctx: C, next: &Self) -> bool {
        arbitrary()
    }

    /// `on_cycle` at `ctx` can leave the callbacks `next`; left unspecified unless an
    /// implementation states it.
    open spec fn cycles_on(&self, ctx: C, next: &Self) -> bool {
        arbitrary()
    }

    /// `on_checkpoint` at `ctx` can leave the callbacks `next`; left unspecified
    /// unless an implementation states it.
    open spec fn checkpoints_on(&self, ctx: C, next: &Self) -> bool {
        arbitrary()
    }

    /// Called after every successful step.
    fn on_step(&mut self, ctx: &C)
        ensures
            old(self).steps_on(*ctx, final(self)),
    ;

    /// Called after every measured cycle.
    fn on_cycle(&mut self, ctx: &C)
        ensures
            old(self).cycles_on(*ctx, final(self)),
    ;

    /// Called at every checkpoint, before `stop_when`.
    fn on_checkpoint(&mut self, ctx: &C)
        ensures
            old(self).checkpoints_on(*ctx, final(self)),
    ;

    /// `stop_when` at `ctx` can leave the callbacks `next` and answer `r`; left
    /// unspecified unless an implementation states it.
    open spec fn stop_answer(&self, ctx: C, next: &Self, r: bool) -> bool {
        arbitrary()
    }

    /// Whether the run should stop, asked at each checkpoint.
    fn stop_when(&mut self, ctx: &C) -> (r: bool)
        ensures
            Self::never_stops() ==> !r,
            old(self).stop_answer(*ctx, final(self), r),
    ;
}

} // verus!
