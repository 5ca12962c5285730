//! Deterministic per-chain seeding and the random-draw helpers that the
//! framework's verified code uses.
use rand::Rng;
use vstd::prelude::*;

pub mod seed_source;

pub use seed_source::{ChainId, DefaultRng, SeedSource};

verus! {

/// What `rand::Rng::gen_range(0..len)` gives on the chain generator `rng`: the index
/// drawn and the generator after the draw. The draw reads words from the generator
/// by rejection sampling, so both depend on the generator's state and `len` alone.
pub uninterp spec fn gen_range_draw(rng: DefaultRng, len: usize) -> (usize, DefaultRng);

/// Calls `rand::Rng::gen_range(0..len)` on the chain generator. The call panics on
/// an empty range, and otherwise returns an index in `0..len` by rejection sampling
/// (no modulo bias); the contract names the index and the generator it leaves
/// without stating which index comes out.
#[verifier::external_body]
fn gen_index(rng: &mut DefaultRng, len: usize) -> (r: usize)
    requires
        len > 0,
    ensures
        r < len,
        (r, *final(rng)) == gen_range_draw(*old(rng), len),
{
    rng.gen_range(0..len)
}

/// Draw a uniform index in `0..len` without modulo bias: the index that
/// `gen_range(0..len)` draws from the generator's current state, leaving the
/// generator as that draw does.
pub fn uniform_index(rng: &mut DefaultRng, len: usize) -> (r: usize)
    requires
        len > 0,
    ensures
        r < len,
        r == gen_range_draw(*old(rng), len).0,
        *final(rng) == gen_range_draw(*old(rng), len).1,
{
    gen_index(rng, len)
}

} // verus!
