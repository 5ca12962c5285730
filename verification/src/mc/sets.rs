use vstd::prelude::*;

use crate::error::{Result, RmcError};

use super::traits::{zeroed_stats, StepOutcome, SteppingUpdateSet, Update, UpdateSet, UpdateStats, Verdict};

verus! {

/// The error returned when a counter of an update has no room for one more step.
pub open spec fn overflow_error(err: RmcError) -> bool {
    err matches RmcError::InvalidState(m) && m@ == "update statistics overflow"@
}

/// One Metropolis step from update `u0`, state `s0` and generator `g0` to `u`, `s`
/// and `g`, with outcome `o`: `attempt` gives a verdict, the move is committed with
/// `accept` when the verdict is `Accepted` and rolled back with `reject` otherwise,
/// and the outcome reports the verdict.
pub open spec fn metropolis_step<State, R, U: Update<State, R>>(
    u0: U,
    s0: State,
    g0: R,
    u: U,
    s: State,
    g: R,
    o: StepOutcome,
) -> bool {
    exists|u1: U, s1: State, v: Verdict|
        {
            &&& #[trigger] u0.attempts_to(s0, g0, &u1, s1, g, v)
            &&& o.accepted == (v == Verdict::Accepted)
            &&& o.impossible == (v == Verdict::Impossible)
            &&& if v == Verdict::Accepted {
                u1.accepts_to(s1, &u, s)
            } else {
                u1.rejects_to(s1, &u, s)
            }
        }
}

/// One Metropolis step of `update`, recorded in `stats`: the move is proposed and
/// tested, then committed when accepted and rolled back otherwise.
pub fn step_update<State, R, U>(
    state: &mut State,
    rng: &mut R,
    update_index: usize,
    update: &mut U,
    stats: &mut UpdateStats,
) -> (r: Result<StepOutcome>)
    where
        U: Update<State, R>,
    ensures
        r is Err <==> old(stats).saturated(),
        r matches Err(e) ==> {
            &&& overflow_error(e)
            &&& *final(stats) == *old(stats)
            &&& *final(state) == *old(state)
            &&& *final(rng) == *old(rng)
            &&& *final(update) == *old(update)
        },
        r matches Ok(o) ==> {
            &&& o.update_index == update_index
            &&& !(o.accepted && o.impossible)
            &&& *final(stats) == old(stats).after(o)
            &&& metropolis_step::<State, R, U>(*old(update), *old(state), *old(rng), *final(update), *final(state), *final(rng), o)
        },
{
    if stats.nprops == u64::MAX || stats.naccs == u64::MAX || stats.nimps == u64::MAX {
        proof {
            reveal_strlit("update statistics overflow");
        }
        return Err(RmcError::InvalidState(String::from_str("update statistics overflow")));
    }
    let ghost u0 = *update;
    let ghost s0 = *state;
    let ghost g0 = *rng;
    stats.nprops = stats.nprops + 1;
    let verdict = update.attempt(state, rng);
    let ghost u1 = *update;
    let ghost s1 = *state;
    let (accepted, impossible) = match verdict {
        Verdict::Impossible => {
            stats.nimps = stats.nimps + 1;
            update.reject(state);
            (false, true)
        },
        Verdict::Accepted => {
            stats.naccs = stats.naccs + 1;
            update.accept(state);
            (true, false)
        },
        Verdict::Rejected => {
            update.reject(state);
            (false, false)
        },
    };
    let o = StepOutcome { update_index, accepted, impossible };
    proof {
        assert(u0.attempts_to(s0, g0, &u1, s1, *rng, verdict));
        assert(metropolis_step::<State, R, U>(u0, s0, g0, *update, *state, *rng, o));
    }
    Ok(o)
}

/// Update set holding one concrete update.
pub struct SingleUpdateSet<U> {
    update: U,
    stats: [UpdateStats; 1],
}

impl<U> SingleUpdateSet<U> {
    pub closed spec fn update_spec(&self) -> U {
        self.update
    }

    pub closed spec fn stats_spec(&self) -> UpdateStats {
        self.stats[0]
    }

    /// A set around `update` with zeroed counters.
    pub fn new(update: U) -> (r: Self)
        ensures
            r.update_spec() == update,
            r.stats_spec() == UpdateStats::zero(),
    {
        Self { update, stats: [UpdateStats { nprops: 0, naccs: 0, nimps: 0 }] }
    }

    pub fn update(&self) -> (r: &U)
        ensures
            *r == self.update_spec(),
    {
        &self.update
    }

    pub fn update_mut(&mut self) -> (r: &mut U)
        ensures
            *r == old(self).update_spec(),
            final(self).update_spec() == *final(r),
            final(self).stats_spec() == old(self).stats_spec(),
    {
        &mut self.update
    }

    pub fn into_update(self) -> (r: U)
        ensures
            r == self.update_spec(),
    {
        self.update
    }
}

impl<U> UpdateSet for SingleUpdateSet<U> {
    open spec fn stats_view(&self) -> Seq<UpdateStats> {
        seq![self.stats_spec()]
    }

    fn stats(&self) -> (r: &[UpdateStats])
        ensures
            r@ == seq![self.stats_spec()],
    {
        assert(self.stats@ =~= seq![self.stats_spec()]);
        self.stats.as_slice()
    }

    /// Zeroing the counter keeps the update.
    open spec fn cleared_to(&self, next: &Self) -> bool {
        next.update_spec() == self.update_spec()
    }

    fn reset_stats(&mut self)
        ensures
            final(self).stats_spec() == UpdateStats::zero(),
            final(self).update_spec() == old(self).update_spec(),
    {
        self.stats = [UpdateStats { nprops: 0, naccs: 0, nimps: 0 }];
        assert(self.stats_view() =~= zeroed_stats(1));
    }
}

impl<State, R, U> SteppingUpdateSet<State, R> for SingleUpdateSet<U> where U: Update<State, R> {
    /// Preparing does nothing and succeeds.
    open spec fn prepared(&self, state: State, next: &Self, next_state: State, r: Result<()>) -> bool {
        &&& r is Ok
        &&& *next == *self
        &&& next_state == state
    }

    /// A step is one Metropolis step of the update, recorded in the one counter,
    /// or fails, changing nothing, when the counter is saturated.
    open spec fn stepped(&self, state: State, rng: R, next: &Self, next_state: State, next_rng: R, r: Result<StepOutcome>) -> bool {
        &&& r is Err <==> self.stats_spec().saturated()
        &&& r matches Err(e) ==> {
            &&& overflow_error(e)
            &&& next.stats_spec() == self.stats_spec()
            &&& next.update_spec() == self.update_spec()
            &&& next_state == state
            &&& next_rng == rng
        }
        &&& r matches Ok(o) ==> {
            &&& o.update_index == 0
            &&& !(o.accepted && o.impossible)
            &&& next.stats_spec() == self.stats_spec().after(o)
            &&& metropolis_step::<State, R, U>(self.update_spec(), state, rng, next.update_spec(), next_state, next_rng, o)
        }
    }

    fn prepare(&mut self, state: &mut State) -> (r: Result<()>)
        ensures
            r is Ok,
            *final(self) == *old(self),
    {
        Ok(())
    }

    fn select_and_step(&mut self, state: &mut State, rng: &mut R) -> (r: Result<StepOutcome>)
    {
        let mut stats = self.stats[0];
        let r = step_update(state, rng, 0, &mut self.update, &mut stats);
        self.stats[0] = stats;
        r
    }
}

} // verus!
