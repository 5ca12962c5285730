//! Integer bookkeeping of batched chain groups: which update a group runs at a
//! step, how many samples a chain records, and which jackknife batch a chain feeds.
use vstd::prelude::*;

use crate::philox::{keyed_draw, keyed_draw_spec};

verus! {

/// Number of updates a group chooses from.
pub const GROUP_UPDATES: usize = 8;

/// The update that every chain of group `group_id` runs at `step`: the first word
/// of the group's reserved draw (`u32::MAX`), reduced modulo the number of updates.
pub fn group_update_index(seed: u64, group_id: u64, step: u64) -> (r: usize)
    ensures
        r == keyed_draw_spec(seed, group_id, step, u32::MAX)[0] as nat % (GROUP_UPDATES as nat),
        r < GROUP_UPDATES,
{
    let words = keyed_draw(seed, group_id, step, u32::MAX);
    (words[0] as usize) % GROUP_UPDATES
}

/// The cycle length used when counting cycles: a zero length counts as one.
pub open spec fn effective_cycle(steps_per_cycle: u64) -> int {
    if steps_per_cycle == 0 {
        1
    } else {
        steps_per_cycle as int
    }
}

/// Number of measured cycles of a run of `max_steps` steps with cycles of
/// `steps_per_cycle` steps (a zero cycle length is taken as one).
pub fn cycle_count(max_steps: u64, steps_per_cycle: u64) -> (r: u64)
    ensures
        r == (max_steps + effective_cycle(steps_per_cycle) - 1) / effective_cycle(steps_per_cycle),
{
    let spc = if steps_per_cycle == 0 { 1 } else { steps_per_cycle };
    let q = max_steps / spc;
    let rem = max_steps % spc;
    proof {
        let n = max_steps as int;
        let d = spc as int;
        let qi = q as int;
        let ri = rem as int;
        vstd::arithmetic::div_mod::lemma_fundamental_div_mod(n, d);
        assert(n == d * qi + ri);
        if ri == 0 {
            assert((n + d - 1) / d == qi) by (nonlinear_arith)
                requires
                    n == d * qi,
                    d > 0,
            ;
        } else {
            assert((n + d - 1) / d == qi + 1) by (nonlinear_arith)
                requires
                    n == d * qi + ri,
                    0 < ri < d,
            ;
            assert(qi < u64::MAX) by (nonlinear_arith)
                requires
                    n == d * qi + ri,
                    0 < ri < d,
                    n <= u64::MAX,
            ;
        }
    }
    if rem == 0 {
        q
    } else {
        q + 1
    }
}

/// The jackknife batch fed by `chain` when `n_chains` chains share `n_batches`
/// batches in order.
pub fn group_batch_index(chain: usize, n_batches: usize, n_chains: usize) -> (r: usize)
    requires
        n_chains > 0,
        n_batches > 0,
        chain * n_batches <= usize::MAX,
    ensures
        r == if (chain * n_batches) / (n_chains as int) < n_batches - 1 {
            (chain * n_batches) / (n_chains as int)
        } else {
            n_batches - 1
        },
        r < n_batches,
{
    let b = chain * n_batches / n_chains;
    if b < n_batches - 1 {
        b
    } else {
        n_batches - 1
    }
}

} // verus!
