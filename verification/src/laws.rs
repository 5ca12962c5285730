//! Properties that span several operations of the library.
use vstd::prelude::*;

use crate::batched::effective_cycle;
use crate::mc::parallel::{fold_mergeable, fold_merged};
use crate::mc::run::{run_accounting, SimulationParams, SimulationStats};
use crate::mc::traits::{StepOutcome, UpdateStats};
use crate::merge::Merge;
use crate::philox::{
    draw_counter, key_after, keyed_draw_spec, mulhi, mullo, philox_spec, round_spec, rounds, stream_word,
    M0, M1, STREAM_WORDS,
};
use crate::random::seed_source::{chain_state, le_byte, mix64_spec, seed_spec, wadd, wmul, GOLDEN_GAMMA};

verus! {

/// Merging run counters is associative.
pub proof fn lemma_stats_merge_associative(a: SimulationStats, b: SimulationStats, c: SimulationStats)
    requires
        a.can_merge(b),
        a.merged(b).can_merge(c),
    ensures
        b.can_merge(c),
        a.can_merge(b.merged(c)),
        a.merged(b).merged(c) == a.merged(b.merged(c)),
{
}

/// Merging run counters is commutative.
pub proof fn lemma_stats_merge_commutative(a: SimulationStats, b: SimulationStats)
    requires
        a.can_merge(b),
    ensures
        b.can_merge(a),
        a.merged(b) == b.merged(a),
{
}

/// Zeroed run counters are the unit of merging.
pub proof fn lemma_stats_merge_identity(a: SimulationStats)
    ensures
        (SimulationStats { steps_done: 0, cycles_done: 0 }).can_merge(a),
        (SimulationStats { steps_done: 0, cycles_done: 0 }).merged(a) == a,
        a.merged(SimulationStats { steps_done: 0, cycles_done: 0 }) == a,
{
}

/// Total steps of a sequence of run counters.
pub open spec fn total_steps(s: Seq<SimulationStats>) -> int
    decreases s.len(),
{
    if s.len() == 0 {
        0
    } else {
        total_steps(s.drop_last()) + s.last().steps_done
    }
}

/// Total cycles of a sequence of run counters.
pub open spec fn total_cycles(s: Seq<SimulationStats>) -> int
    decreases s.len(),
{
    if s.len() == 0 {
        0
    } else {
        total_cycles(s.drop_last()) + s.last().cycles_done
    }
}

/// The reduction of per-chain counters is their componentwise total, and it is
/// defined whenever the totals fit.
pub proof fn lemma_reduced_stats_are_totals(s: Seq<SimulationStats>)
    requires
        s.len() > 0,
        total_steps(s) <= u64::MAX,
        total_cycles(s) <= u64::MAX,
    ensures
        fold_mergeable(s),
        fold_merged(s).steps_done == total_steps(s),
        fold_merged(s).cycles_done == total_cycles(s),
    decreases s.len(),
{
    let t = s.drop_last();
    lemma_totals_nonneg(t);
    if s.len() > 1 {
        lemma_reduced_stats_are_totals(t);
        assert(fold_merged(s) == fold_merged(t).merged(s.last()));
    } else {
        assert(t.len() == 0);
        assert(total_steps(t) == 0);
        assert(total_cycles(t) == 0);
        assert(fold_merged(s) == s[0]);
    }
}

/// Reducing chains in two consecutive groups and merging the two results gives the
/// same counters as reducing them all at once: the aggregate does not depend on how
/// chains are split among workers.
pub proof fn lemma_reduction_is_split_independent(a: Seq<SimulationStats>, b: Seq<SimulationStats>)
    requires
        a.len() > 0,
        b.len() > 0,
        total_steps(a + b) <= u64::MAX,
        total_cycles(a + b) <= u64::MAX,
    ensures
        fold_mergeable(a + b),
        fold_merged(a).can_merge(fold_merged(b)),
        fold_merged(a + b) == fold_merged(a).merged(fold_merged(b)),
{
    lemma_totals_concat(a, b);
    lemma_reduced_stats_are_totals(a + b);
    lemma_reduced_stats_are_totals(a);
    lemma_reduced_stats_are_totals(b);
}

proof fn lemma_totals_concat(a: Seq<SimulationStats>, b: Seq<SimulationStats>)
    ensures
        total_steps(a + b) == total_steps(a) + total_steps(b),
        total_cycles(a + b) == total_cycles(a) + total_cycles(b),
        total_steps(a) >= 0,
        total_steps(b) >= 0,
        total_cycles(a) >= 0,
        total_cycles(b) >= 0,
    decreases b.len(),
{
    lemma_totals_nonneg(a);
    lemma_totals_nonneg(b);
    if b.len() > 0 {
        assert((a + b).drop_last() =~= a + b.drop_last());
        lemma_totals_concat(a, b.drop_last());
    } else {
        assert(a + b =~= a);
    }
}

proof fn lemma_totals_nonneg(s: Seq<SimulationStats>)
    ensures
        total_steps(s) >= 0,
        total_cycles(s) >= 0,
    decreases s.len(),
{
    if s.len() > 0 {
        lemma_totals_nonneg(s.drop_last());
    }
}

/// A run that cannot be stopped early performs every step, and its cycle count is
/// the number of (possibly partial) cycles of `max_steps` steps.
pub proof fn lemma_unstopped_run_is_complete(params: SimulationParams, stats: SimulationStats)
    requires
        params.steps_per_cycle > 0,
        run_accounting(params, stats, false),
    ensures
        stats.steps_done == params.max_steps,
        stats.cycles_done == (params.max_steps + effective_cycle(params.steps_per_cycle) - 1)
            / effective_cycle(params.steps_per_cycle),
{
    let d = params.steps_per_cycle as int;
    let c = stats.cycles_done as int;
    let s = stats.steps_done as int;
    if c > 0 {
        assert((s + d - 1) / d == c) by (nonlinear_arith)
            requires
                (c - 1) * d < s,
                s <= c * d,
                d > 0,
        ;
    } else {
        assert(s == 0) by (nonlinear_arith)
            requires
                s <= c * d,
                c == 0,
                s >= 0,
        ;
        assert((d - 1) / d == 0) by (nonlinear_arith)
            requires
                d > 0,
        ;
    }
}

/// Recording a step keeps every accepted or impossible move among the proposed ones.
pub proof fn lemma_recording_keeps_counts_consistent(stats: UpdateStats, outcome: StepOutcome)
    requires
        stats.wf(),
        !stats.saturated(),
        !(outcome.accepted && outcome.impossible),
    ensures
        stats.after(outcome).wf(),
        stats.after(outcome).nprops == stats.nprops + 1,
{
}

/// Word `k` of a Philox stream is word `k % 4` of draw `k / 4`.
pub proof fn lemma_stream_is_counter_addressable(run_seed: u64, chain_id: u64, step: u64, k: nat)
    requires
        k < STREAM_WORDS,
    ensures
        stream_word(run_seed, chain_id, step, k) == keyed_draw_spec(run_seed, chain_id, step, (k / 4) as u32)[(k % 4) as int],
{
    assert((k / 4) % 0x1_0000_0000 == k / 4);
}

/// Multiplying by an odd constant modulo 2^64 is invertible, hence injective.
proof fn lemma_wmul_injective(x: u64, y: u64, c: u64, c_inv: u64)
    requires
        (c as int * c_inv as int) % 0x1_0000_0000_0000_0000 == 1,
        wmul(x, c) == wmul(y, c),
    ensures
        x == y,
{
    let m: int = 0x1_0000_0000_0000_0000;
    let xi = x as int;
    let yi = y as int;
    let ci = c as int;
    let di = c_inv as int;
    assert(wmul(x, c) as int == (xi * ci) % m);
    assert(wmul(y, c) as int == (yi * ci) % m);
    vstd::arithmetic::div_mod::lemma_mul_mod_noop_left(xi * ci, di, m);
    vstd::arithmetic::div_mod::lemma_mul_mod_noop_left(yi * ci, di, m);
    assert((xi * ci) * di == xi * (ci * di)) by (nonlinear_arith);
    assert((yi * ci) * di == yi * (ci * di)) by (nonlinear_arith);
    vstd::arithmetic::div_mod::lemma_mul_mod_noop_right(xi, ci * di, m);
    vstd::arithmetic::div_mod::lemma_mul_mod_noop_right(yi, ci * di, m);
    vstd::arithmetic::div_mod::lemma_small_mod(x as nat, m as nat);
    vstd::arithmetic::div_mod::lemma_small_mod(y as nat, m as nat);
}

proof fn lemma_xorshift30_injective(x: u64, y: u64)
    requires
        x ^ (x >> 30u64) == y ^ (y >> 30u64),
    ensures
        x == y,
{
    assert(x ^ (x >> 30u64) == y ^ (y >> 30u64) ==> x == y) by (bit_vector);
}

proof fn lemma_xorshift27_injective(x: u64, y: u64)
    requires
        x ^ (x >> 27u64) == y ^ (y >> 27u64),
    ensures
        x == y,
{
    assert(x ^ (x >> 27u64) == y ^ (y >> 27u64) ==> x == y) by (bit_vector);
}

proof fn lemma_xorshift31_injective(x: u64, y: u64)
    requires
        x ^ (x >> 31u64) == y ^ (y >> 31u64),
    ensures
        x == y,
{
    assert(x ^ (x >> 31u64) == y ^ (y >> 31u64) ==> x == y) by (bit_vector);
}

/// The SplitMix64 finalizer is injective.
pub proof fn lemma_mix64_injective(x: u64, y: u64)
    requires
        mix64_spec(x) == mix64_spec(y),
    ensures
        x == y,
{
    let ax = wadd(x, GOLDEN_GAMMA);
    let ay = wadd(y, GOLDEN_GAMMA);
    let bx = wmul(ax ^ (ax >> 30u64), 0xbf58_476d_1ce4_e5b9);
    let by_ = wmul(ay ^ (ay >> 30u64), 0xbf58_476d_1ce4_e5b9);
    let cx = wmul(bx ^ (bx >> 27u64), 0x94d0_49bb_1331_11eb);
    let cy = wmul(by_ ^ (by_ >> 27u64), 0x94d0_49bb_1331_11eb);
    lemma_xorshift31_injective(cx, cy);
    assert((0x94d0_49bb_1331_11ebint * 0x3196_42b2_d24d_8ec3int) % 0x1_0000_0000_0000_0000 == 1);
    lemma_wmul_injective(bx ^ (bx >> 27u64), by_ ^ (by_ >> 27u64), 0x94d0_49bb_1331_11eb, 0x3196_42b2_d24d_8ec3);
    lemma_xorshift27_injective(bx, by_);
    assert((0xbf58_476d_1ce4_e5b9int * 0x96de_1b17_3f11_9089int) % 0x1_0000_0000_0000_0000 == 1);
    lemma_wmul_injective(ax ^ (ax >> 30u64), ay ^ (ay >> 30u64), 0xbf58_476d_1ce4_e5b9, 0x96de_1b17_3f11_9089);
    lemma_xorshift30_injective(ax, ay);
}

proof fn lemma_le_bytes_determine_word(x: u64, y: u64)
    requires
        forall|j: nat| j < 8 ==> #[trigger] le_byte(x, j) == le_byte(y, j),
    ensures
        x == y,
{
    assert(le_byte(x, 0) == le_byte(y, 0));
    assert(le_byte(x, 1) == le_byte(y, 1));
    assert(le_byte(x, 2) == le_byte(y, 2));
    assert(le_byte(x, 3) == le_byte(y, 3));
    assert(le_byte(x, 4) == le_byte(y, 4));
    assert(le_byte(x, 5) == le_byte(y, 5));
    assert(le_byte(x, 6) == le_byte(y, 6));
    assert(le_byte(x, 7) == le_byte(y, 7));
    assert(((x >> 0u64) as u8 == (y >> 0u64) as u8 && (x >> 8u64) as u8 == (y >> 8u64) as u8
        && (x >> 16u64) as u8 == (y >> 16u64) as u8 && (x >> 24u64) as u8 == (y >> 24u64) as u8
        && (x >> 32u64) as u8 == (y >> 32u64) as u8 && (x >> 40u64) as u8 == (y >> 40u64) as u8
        && (x >> 48u64) as u8 == (y >> 48u64) as u8 && (x >> 56u64) as u8 == (y >> 56u64) as u8)
        ==> x == y) by (bit_vector);
}

/// Distinct chains of one seed source receive distinct seeds.
pub proof fn lemma_distinct_chains_get_distinct_seeds(master: u64, c1: u64, c2: u64)
    requires
        c1 != c2,
    ensures
        seed_spec(master, c1) != seed_spec(master, c2),
{
    let s1 = chain_state(master, c1, 0);
    let s2 = chain_state(master, c2, 0);
    if s1 == s2 {
        let m1 = wmul(c1, GOLDEN_GAMMA);
        let m2 = wmul(c2, GOLDEN_GAMMA);
        assert(master ^ m1 == master ^ m2 ==> m1 == m2) by (bit_vector);
        assert((0x9e37_79b9_7f4a_7c15int * 0xf1de_83e1_9937_733dint) % 0x1_0000_0000_0000_0000 == 1);
        lemma_wmul_injective(c1, c2, GOLDEN_GAMMA, 0xf1de_83e1_9937_733d);
    }
    let w1 = chain_state(master, c1, 1);
    let w2 = chain_state(master, c2, 1);
    if w1 == w2 {
        lemma_mix64_injective(s1, s2);
    }
    if seed_spec(master, c1) == seed_spec(master, c2) {
        assert forall|j: nat| j < 8 implies #[trigger] le_byte(w1, j) == le_byte(w2, j) by {
            let k = j as int;
            assert(seed_spec(master, c1)[k] == seed_spec(master, c2)[k]);
            assert(k / 8 + 1 == 1);
        }
        lemma_le_bytes_determine_word(w1, w2);
    }
}

/// One chain of two seed sources with distinct masters receives distinct seeds.
pub proof fn lemma_distinct_masters_give_distinct_seeds(m1: u64, m2: u64, chain: u64)
    requires
        m1 != m2,
    ensures
        seed_spec(m1, chain) != seed_spec(m2, chain),
{
    let s1 = chain_state(m1, chain, 0);
    let s2 = chain_state(m2, chain, 0);
    let g = wmul(chain, GOLDEN_GAMMA);
    assert(m1 != m2 ==> m1 ^ g != m2 ^ g) by (bit_vector);
    let w1 = chain_state(m1, chain, 1);
    let w2 = chain_state(m2, chain, 1);
    if w1 == w2 {
        lemma_mix64_injective(s1, s2);
    }
    if seed_spec(m1, chain) == seed_spec(m2, chain) {
        assert forall|j: nat| j < 8 implies #[trigger] le_byte(w1, j) == le_byte(w2, j) by {
            let k = j as int;
            assert(seed_spec(m1, chain)[k] == seed_spec(m2, chain)[k]);
            assert(k / 8 + 1 == 1);
        }
        lemma_le_bytes_determine_word(w1, w2);
    }
}

/// Multiplying a 32-bit word by an odd constant modulo 2^32 is injective.
proof fn lemma_mullo_injective(c: u32, c_inv: u32, x: u32, y: u32)
    requires
        (c as int * c_inv as int) % 0x1_0000_0000 == 1,
        mullo(c, x) == mullo(c, y),
    ensures
        x == y,
{
    let m: int = 0x1_0000_0000;
    let xi = x as int;
    let yi = y as int;
    let ci = c as int;
    let di = c_inv as int;
    assert(0 <= ci * xi) by (nonlinear_arith)
        requires
            0 <= ci,
            0 <= xi,
    ;
    assert(0 <= ci * yi) by (nonlinear_arith)
        requires
            0 <= ci,
            0 <= yi,
    ;
    assert(mullo(c, x) as int == (xi * ci) % m) by {
        assert(c as nat * x as nat == xi * ci) by (nonlinear_arith)
            requires
                xi == x as int,
                ci == c as int,
        ;
    }
    assert(mullo(c, y) as int == (yi * ci) % m) by {
        assert(c as nat * y as nat == yi * ci) by (nonlinear_arith)
            requires
                yi == y as int,
                ci == c as int,
        ;
    }
    vstd::arithmetic::div_mod::lemma_mul_mod_noop_left(xi * ci, di, m);
    vstd::arithmetic::div_mod::lemma_mul_mod_noop_left(yi * ci, di, m);
    assert((xi * ci) * di == xi * (ci * di)) by (nonlinear_arith);
    assert((yi * ci) * di == yi * (ci * di)) by (nonlinear_arith);
    vstd::arithmetic::div_mod::lemma_mul_mod_noop_right(xi, ci * di, m);
    vstd::arithmetic::div_mod::lemma_mul_mod_noop_right(yi, ci * di, m);
    vstd::arithmetic::div_mod::lemma_small_mod(x as nat, m as nat);
    vstd::arithmetic::div_mod::lemma_small_mod(y as nat, m as nat);
}

/// One Philox round is injective in the counter under a fixed key.
proof fn lemma_round_injective(a: Seq<u32>, b: Seq<u32>, key: Seq<u32>)
    requires
        a.len() == 4,
        b.len() == 4,
        round_spec(a, key) == round_spec(b, key),
    ensures
        a == b,
{
    reveal(round_spec);
    let ra = round_spec(a, key);
    let rb = round_spec(b, key);
    assert(ra[3] == rb[3]);
    assert(ra[1] == rb[1]);
    assert((M0 as int * 0x991a_7cdbint) % 0x1_0000_0000 == 1);
    assert((M1 as int * 0x6d7c_ae67int) % 0x1_0000_0000 == 1);
    lemma_mullo_injective(M0, 0x991a_7cdb, a[0], b[0]);
    lemma_mullo_injective(M1, 0x6d7c_ae67, a[2], b[2]);
    assert(ra[0] == rb[0]);
    assert(ra[2] == rb[2]);
    let h1 = mulhi(M1, a[2]);
    let h0 = mulhi(M0, a[0]);
    let (a1, b1, a3, b3, k0, k1) = (a[1], b[1], a[3], b[3], key[0], key[1]);
    assert(h1 ^ a1 ^ k0 == h1 ^ b1 ^ k0 ==> a1 == b1) by (bit_vector);
    assert(h0 ^ a3 ^ k1 == h0 ^ b3 ^ k1 ==> a3 == b3) by (bit_vector);
    assert(a =~= b);
}

proof fn lemma_rounds_injective(a: Seq<u32>, b: Seq<u32>, key: Seq<u32>, n: nat)
    requires
        a.len() == 4,
        b.len() == 4,
        rounds(a, key, n) == rounds(b, key, n),
    ensures
        a == b,
    decreases n,
{
    if n > 0 {
        let pa = rounds(a, key, (n - 1) as nat);
        let pb = rounds(b, key, (n - 1) as nat);
        if n > 1 {
            reveal(round_spec);
        }
        assert(pa.len() == 4);
        assert(pb.len() == 4);
        lemma_round_injective(pa, pb, key_after(key, (n - 1) as nat));
        lemma_rounds_injective(a, b, key, (n - 1) as nat);
    }
}

/// Under a fixed key, Philox4x32-10 maps distinct counters to distinct blocks.
pub proof fn lemma_philox_injective_in_counter(a: Seq<u32>, b: Seq<u32>, key: Seq<u32>)
    requires
        a.len() == 4,
        b.len() == 4,
        philox_spec(a, key) == philox_spec(b, key),
    ensures
        a == b,
{
    lemma_rounds_injective(a, b, key, 10);
}

/// Distinct draw indices of one `(run seed, chain id, step)` give distinct blocks.
pub proof fn lemma_distinct_draws_give_distinct_blocks(
    run_seed: u64,
    chain_id: u64,
    step: u64,
    d1: u32,
    d2: u32,
)
    requires
        d1 != d2,
    ensures
        keyed_draw_spec(run_seed, chain_id, step, d1) != keyed_draw_spec(run_seed, chain_id, step, d2),
{
    let c1 = draw_counter(chain_id, step, d1);
    let c2 = draw_counter(chain_id, step, d2);
    let hi = (step >> 32u64) as u32;
    assert(d1 != d2 ==> hi ^ d1 != hi ^ d2) by (bit_vector);
    assert(c1[3] != c2[3]);
    if keyed_draw_spec(run_seed, chain_id, step, d1) == keyed_draw_spec(run_seed, chain_id, step, d2) {
        lemma_philox_injective_in_counter(c1, c2, crate::philox::seed_key(run_seed));
    }
}

} // verus!
