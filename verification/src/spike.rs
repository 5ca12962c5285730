//! Reference kernel with a data-dependent trip count and a branch per iteration.
use vstd::prelude::*;

verus! {

/// Number of loop iterations for position `pos` (taken as a `u32`).
pub open spec fn divergent_steps(pos: nat, iterations: u32) -> nat {
    iterations as nat + (pos % 0x1_0000_0000) % 3
}

/// Iterations `i < n` with `i + p` even.
pub open spec fn even_hits(p: nat, n: nat) -> nat {
    if p % 2 == 0 {
        (n + 1) / 2
    } else {
        n / 2
    }
}

/// Inputs on which the reference loop stays within `u32` counters.
pub open spec fn divergent_in_range(pos: nat, iterations: u32) -> bool {
    let p = pos % 0x1_0000_0000;
    let n = divergent_steps(pos, iterations);
    &&& n <= u32::MAX
    &&& (n == 0 || p + n - 1 <= u32::MAX)
}

/// Final accumulator for input `x` at `pos`: each even step adds 3, each odd step adds 1.
pub open spec fn divergent_value(x: u32, pos: nat, iterations: u32) -> u32 {
    let p = pos % 0x1_0000_0000;
    let n = divergent_steps(pos, iterations);
    ((x + 2 * even_hits(p, n) + n) % 0x1_0000_0000) as u32
}

/// For each position, run `iterations + pos % 3` steps that add 3 when
/// `i + pos` is even and 1 otherwise (wrapping).
pub fn divergent_loop_reference(input: &[u32], iterations: u32) -> (r: Vec<u32>)
    requires
        forall|pos: nat| pos < input@.len() ==> #[trigger] divergent_in_range(pos, iterations),
    ensures
        r@.len() == input@.len(),
        forall|pos: int|
            0 <= pos < input@.len() ==> #[trigger] r@[pos] == divergent_value(input@[pos], pos as nat, iterations),
{
    let mut out: Vec<u32> = Vec::new();
    let mut pos: usize = 0;
    while pos < input.len()
        invariant
            pos <= input@.len(),
            out@.len() == pos,
            forall|pos: nat| pos < input@.len() ==> #[trigger] divergent_in_range(pos, iterations),
            forall|k: int|
                0 <= k < pos ==> #[trigger] out@[k] == divergent_value(input@[k], k as nat, iterations),
        decreases input@.len() - pos,
    {
        assert(divergent_in_range(pos as nat, iterations));
        let pos64: u64 = pos as u64;
        let p: u32 = pos64 as u32;
        assert(p == pos64 % 0x1_0000_0000) by (bit_vector)
            requires
                p == pos64 as u32,
        ;
        let n: u32 = iterations + p % 3;
        let x = input[pos];
        let mut acc: u32 = x;
        let mut i: u32 = 0;
        while i < n
            invariant
                i <= n,
                n == divergent_steps(pos as nat, iterations),
                p as nat == pos as nat % 0x1_0000_0000,
                n == 0 || p + n - 1 <= u32::MAX,
                acc as nat == (x + 2 * even_hits(p as nat, i as nat) + i) % 0x1_0000_0000,
            decreases n - i,
        {
            if (i + p) % 2 == 0 {
                acc = acc.wrapping_add(3);
            } else {
                acc = acc.wrapping_add(1);
            }
            i = i + 1;
        }
        out.push(acc);
        pos = pos + 1;
    }
    out
}

} // verus!
