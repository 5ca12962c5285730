use rand_core::SeedableRng;
use rand_xoshiro::Xoshiro256PlusPlus;
use vstd::prelude::*;

verus! {

#[verifier::external_type_specification]
#[verifier::external_body]
pub struct ExXoshiro256PlusPlus(Xoshiro256PlusPlus);

/// The generator handed to every chain.
pub type DefaultRng = Xoshiro256PlusPlus;

/// Golden-ratio increment used both to spread chain ids and inside the finalizer.
pub const GOLDEN_GAMMA: u64 = 0x9e37_79b9_7f4a_7c15;

/// Identifier of an independent Markov chain.
///
/// Chain ids are stable data, not thread ids: the RNG stream a chain receives does
/// not depend on how chains are scheduled.
#[derive(Clone, Copy, Debug, PartialEq, Eq, Structural, Hash)]
pub struct ChainId(pub u64);

/// Deterministic source of per-chain RNG streams.
#[derive(Clone, Copy, Debug, PartialEq, Eq, Structural)]
pub struct SeedSource {
    master: u64,
}

pub open spec fn wmul(x: u64, y: u64) -> u64 {
    vstd::wrapping::u64_specs::wrapping_mul(x, y)
}

pub open spec fn wadd(x: u64, y: u64) -> u64 {
    vstd::wrapping::u64_specs::wrapping_add(x, y)
}

/// SplitMix64 finalizer.
pub open spec fn mix64_spec(x: u64) -> u64 {
    let a = wadd(x, GOLDEN_GAMMA);
    let b = wmul(a ^ (a >> 30u64), 0xbf58_476d_1ce4_e5b9);
    let c = wmul(b ^ (b >> 27u64), 0x94d0_49bb_1331_11eb);
    c ^ (c >> 31u64)
}

/// State from which the `i`-th 8-byte word of a chain's seed is drawn (`i >= 1`),
/// starting from the chain's initial state at `i == 0`.
pub open spec fn chain_state(master: u64, chain: u64, i: nat) -> u64
    decreases i,
{
    if i == 0 {
        master ^ wmul(chain, GOLDEN_GAMMA)
    } else {
        mix64_spec(chain_state(master, chain, (i - 1) as nat))
    }
}

/// Byte `j` (little-endian) of `x`.
pub open spec fn le_byte(x: u64, j: nat) -> u8 {
    (x >> ((8 * j) as u64)) as u8
}

/// The 32-byte seed of `chain`: four successive finalizer outputs in little-endian order.
pub open spec fn seed_spec(master: u64, chain: u64) -> Seq<u8> {
    Seq::new(32, |k: int| le_byte(chain_state(master, chain, (k / 8 + 1) as nat), (k % 8) as nat))
}

/// What `Xoshiro256PlusPlus::from_seed` builds from a 32-byte seed.
pub uninterp spec fn xoshiro_from_seed(seed: Seq<u8>) -> Xoshiro256PlusPlus;

/// Calls `rand_xoshiro::Xoshiro256PlusPlus::from_seed` (through `rand_core::SeedableRng`).
/// Its result is a function of the seed alone; this contract names it and says no more.
#[verifier::external_body]
fn xoshiro_seeded(seed: [u8; 32]) -> (r: Xoshiro256PlusPlus)
    ensures
        r == xoshiro_from_seed(seed@),
{
    Xoshiro256PlusPlus::from_seed(seed)
}

fn mix64(x: u64) -> (r: u64)
    ensures
        r == mix64_spec(x),
{
    let a = x.wrapping_add(GOLDEN_GAMMA);
    let b = (a ^ (a >> 30)).wrapping_mul(0xbf58_476d_1ce4_e5b9);
    let c = (b ^ (b >> 27)).wrapping_mul(0x94d0_49bb_1331_11eb);
    c ^ (c >> 31)
}

impl SeedSource {
    pub closed spec fn master_spec(&self) -> u64 {
        self.master
    }

    pub fn new(master: u64) -> (r: Self)
        ensures
            r.master_spec() == master,
    {
        Self { master }
    }

    /// The master seed from which all chain seeds are derived.
    pub fn master(&self) -> (r: u64)
        ensures
            r == self.master_spec(),
    {
        self.master
    }

    /// The default RNG for `chain`.
    pub fn rng_for(&self, chain: ChainId) -> (r: DefaultRng)
        ensures
            r == xoshiro_from_seed(seed_spec(self.master_spec(), chain.0)),
    {
        let seed = self.seed_for(chain);
        xoshiro_seeded(seed)
    }

    /// The raw 256-bit seed used for `chain`.
    pub fn seed_for(&self, chain: ChainId) -> (r: [u8; 32])
        ensures
            r@ == seed_spec(self.master_spec(), chain.0),
    {
        let mut seed = [0u8; 32];
        let mut state = self.master ^ chain.0.wrapping_mul(GOLDEN_GAMMA);
        let mut i: usize = 0;
        while i < 4
            invariant
                0 <= i <= 4,
                state == chain_state(self.master, chain.0, i as nat),
                seed@.len() == 32,
                forall|k: int|
                    0 <= k < 8 * i ==> #[trigger] seed@[k] == seed_spec(self.master, chain.0)[k],
            decreases 4 - i,
        {
            state = mix64(state);
            let mut j: usize = 0;
            while j < 8
                invariant
                    0 <= i < 4,
                    0 <= j <= 8,
                    state == chain_state(self.master, chain.0, (i + 1) as nat),
                    seed@.len() == 32,
                    forall|k: int|
                        0 <= k < 8 * i + j ==> #[trigger] seed@[k] == seed_spec(
                            self.master,
                            chain.0,
                        )[k],
                decreases 8 - j,
            {
                let shift: u64 = 8 * j as u64;
                seed[8 * i + j] = (state >> shift) as u8;
                proof {
                    let k = 8 * i + j;
                    assert(k / 8 == i as int);
                    assert(k % 8 == j as int);
                }
                j = j + 1;
            }
            i = i + 1;
        }
        proof {
            assert(seed@ =~= seed_spec(self.master, chain.0));
        }
        seed
    }
}

} // verus!
