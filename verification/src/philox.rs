//! Philox4x32-10 counter-based generator and the per-draw stream keyed by
//! `(run seed, chain id, step)`.
use vstd::prelude::*;

verus! {

pub const M0: u32 = 0xd251_1f53;
pub const M1: u32 = 0xcd9e_8d57;
pub const W0: u32 = 0x9e37_79b9;
pub const W1: u32 = 0xbb67_ae85;

/// 2^32.
pub const TWO32: u64 = 0x1_0000_0000;

pub open spec fn mulhi(a: u32, b: u32) -> u32 {
    ((a as nat * b as nat) / (TWO32 as nat)) as u32
}

pub open spec fn mullo(a: u32, b: u32) -> u32 {
    ((a as nat * b as nat) % (TWO32 as nat)) as u32
}

/// One Philox round on a 4-word counter under a 2-word key.
#[verifier::opaque]
pub open spec fn round_spec(ctr: Seq<u32>, key: Seq<u32>) -> Seq<u32> {
    seq![
        mulhi(M1, ctr[2]) ^ ctr[1] ^ key[0],
        mullo(M1, ctr[2]),
        mulhi(M0, ctr[0]) ^ ctr[3] ^ key[1],
        mullo(M0, ctr[0]),
    ]
}

/// The key after `r` Weyl increments.
pub open spec fn key_after(key: Seq<u32>, r: nat) -> Seq<u32>
    decreases r,
{
    if r == 0 {
        key
    } else {
        let k = key_after(key, (r - 1) as nat);
        seq![
            vstd::wrapping::u32_specs::wrapping_add(k[0], W0),
            vstd::wrapping::u32_specs::wrapping_add(k[1], W1),
        ]
    }
}

/// The counter after `n` rounds, the `i`-th round using the key bumped `i` times.
pub open spec fn rounds(ctr: Seq<u32>, key: Seq<u32>, n: nat) -> Seq<u32>
    decreases n,
{
    if n == 0 {
        ctr
    } else {
        round_spec(rounds(ctr, key, (n - 1) as nat), key_after(key, (n - 1) as nat))
    }
}

/// Philox4x32 with ten rounds.
pub open spec fn philox_spec(ctr: Seq<u32>, key: Seq<u32>) -> Seq<u32> {
    rounds(ctr, key, 10)
}

/// The counter that addresses draw `draw_index` of `(chain_id, step)`.
pub open spec fn draw_counter(chain_id: u64, step: u64, draw_index: u32) -> Seq<u32> {
    seq![
        chain_id as u32,
        (chain_id >> 32u64) as u32,
        step as u32,
        ((step >> 32u64) as u32) ^ draw_index,
    ]
}

/// The key derived from the run seed.
pub open spec fn seed_key(run_seed: u64) -> Seq<u32> {
    seq![run_seed as u32, (run_seed >> 32u64) as u32]
}

/// The four words of draw `draw_index` of `(run_seed, chain_id, step)`.
pub open spec fn keyed_draw_spec(run_seed: u64, chain_id: u64, step: u64, draw_index: u32) -> Seq<u32> {
    philox_spec(draw_counter(chain_id, step, draw_index), seed_key(run_seed))
}

fn mulhilo(a: u32, b: u32) -> (r: (u32, u32))
    ensures
        r.0 == mulhi(a, b),
        r.1 == mullo(a, b),
{
    assert(a as nat * b as nat <= 0xffff_fffe_0000_0001) by (nonlinear_arith)
        requires
            a <= 0xffff_ffff,
            b <= 0xffff_ffff,
    ;
    let product: u64 = (a as u64) * (b as u64);
    assert(product >> 32u64 == product / 0x1_0000_0000) by (bit_vector);
    assert(product as u32 == product % 0x1_0000_0000) by (bit_vector);
    assert(product / 0x1_0000_0000 <= 0xffff_ffff) by (bit_vector);
    ((product >> 32) as u32, product as u32)
}

fn round(ctr: [u32; 4], key: [u32; 2]) -> (r: [u32; 4])
    ensures
        r@ == round_spec(ctr@, key@),
{
    let (hi0, lo0) = mulhilo(M0, ctr[0]);
    let (hi1, lo1) = mulhilo(M1, ctr[2]);
    let r = [hi1 ^ ctr[1] ^ key[0], lo1, hi0 ^ ctr[3] ^ key[1], lo0];
    proof {
        reveal(round_spec);
        assert(r@ =~= round_spec(ctr@, key@));
    }
    r
}

/// Philox4x32-10 block function.
pub fn philox4x32_10(ctr: [u32; 4], key: [u32; 2]) -> (r: [u32; 4])
    ensures
        r@ == philox_spec(ctr@, key@),
{
    let mut key = key;
    let ghost key0 = key@;
    let mut ctr_i = round(ctr, key);
    assert(key_after(key0, 0) == key0);
    assert(rounds(ctr@, key0, 0) == ctr@);
    assert(ctr_i@ == rounds(ctr@, key0, 1));
    let mut i: u32 = 1;
    while i < 10
        invariant
            1 <= i <= 10,
            key@ == key_after(key0, (i - 1) as nat),
            ctr_i@ == rounds(ctr@, key0, i as nat),
        decreases 10 - i,
    {
        key[0] = key[0].wrapping_add(W0);
        key[1] = key[1].wrapping_add(W1);
        assert(key@ =~= key_after(key0, i as nat));
        let ghost prev = ctr_i@;
        ctr_i = round(ctr_i, key);
        assert(ctr_i@ == rounds(ctr@, key0, (i + 1) as nat));
        i = i + 1;
    }
    ctr_i
}

/// The four words of draw `draw_index` for `(run_seed, chain_id, step)`.
pub fn keyed_draw(run_seed: u64, chain_id: u64, step: u64, draw_index: u32) -> (r: [u32; 4])
    ensures
        r@ == keyed_draw_spec(run_seed, chain_id, step, draw_index),
{
    let ctr = [chain_id as u32, (chain_id >> 32) as u32, step as u32, ((step >> 32) as u32) ^ draw_index];
    let key = [run_seed as u32, (run_seed >> 32) as u32];
    assert(ctr@ =~= draw_counter(chain_id, step, draw_index));
    assert(key@ =~= seed_key(run_seed));
    philox4x32_10(ctr, key)
}

/// 2^34: the number of words a stream addresses before its block counter wraps.
pub const STREAM_WORDS: u64 = 0x4_0000_0000;

/// Word `p` of the stream of `(run_seed, chain_id, step)`: word `p % 4` of draw `p / 4`.
pub open spec fn stream_word(run_seed: u64, chain_id: u64, step: u64, p: nat) -> u32 {
    keyed_draw_spec(run_seed, chain_id, step, ((p / 4) % (TWO32 as nat)) as u32)[(p % 4) as int]
}

/// Byte `j` (little-endian) of the 32-bit word `w`.
pub open spec fn le_byte32(w: u32, j: nat) -> u8 {
    (w >> ((8 * j) as u32)) as u8
}

/// Counter-based generator whose `k`-th word is word `k % 4` of
/// `keyed_draw(seed, chain_id, step, k / 4)`.
#[derive(Clone, Debug)]
pub struct PhiloxRng {
    seed: u64,
    chain_id: u64,
    step: u64,
    block: u32,
    words: [u32; 4],
    next_word: usize,
}

impl PhiloxRng {
    /// The buffered words are those of the block before `block`.
    pub closed spec fn wf(&self) -> bool {
        &&& self.next_word <= 4
        &&& self.next_word < 4 ==> self.words@ == keyed_draw_spec(
            self.seed,
            self.chain_id,
            self.step,
            vstd::wrapping::u32_specs::wrapping_sub(self.block, 1),
        )
    }

    pub closed spec fn run_seed(&self) -> u64 {
        self.seed
    }

    pub closed spec fn chain(&self) -> u64 {
        self.chain_id
    }

    pub closed spec fn step_index(&self) -> u64 {
        self.step
    }

    /// Index of the next word that the stream hands out.
    pub closed spec fn position(&self) -> nat {
        ((4 * self.block + self.next_word + STREAM_WORDS - 4) % (STREAM_WORDS as int)) as nat
    }

    /// The next word the stream hands out.
    pub open spec fn peek(&self) -> u32 {
        stream_word(self.run_seed(), self.chain(), self.step_index(), self.position())
    }

    pub fn new(seed: u64, chain_id: u64, step: u64) -> (r: Self)
        ensures
            r.wf(),
            r.run_seed() == seed,
            r.chain() == chain_id,
            r.step_index() == step,
            r.position() == 0,
    {
        Self { seed, chain_id, step, block: 0, words: [0; 4], next_word: 4 }
    }

    fn refill(&mut self)
        requires
            old(self).next_word == 4,
        ensures
            final(self).wf(),
            final(self).seed == old(self).seed,
            final(self).chain_id == old(self).chain_id,
            final(self).step == old(self).step,
            final(self).next_word == 0,
            final(self).block == vstd::wrapping::u32_specs::wrapping_add(old(self).block, 1),
            final(self).words@ == keyed_draw_spec(old(self).seed, old(self).chain_id, old(self).step, old(self).block),
    {
        self.words = keyed_draw(self.seed, self.chain_id, self.step, self.block);
        self.block = self.block.wrapping_add(1);
        self.next_word = 0;
    }

    /// The next 32-bit word of the stream.
    pub fn next_u32(&mut self) -> (r: u32)
        requires
            old(self).wf(),
        ensures
            final(self).wf(),
            r == old(self).peek(),
            final(self).run_seed() == old(self).run_seed(),
            final(self).chain() == old(self).chain(),
            final(self).step_index() == old(self).step_index(),
            final(self).position() == (old(self).position() + 1) % (STREAM_WORDS as nat),
    {
        if self.next_word == 4 {
            self.refill();
        }
        let word = self.words[self.next_word];
        self.next_word = self.next_word + 1;
        proof {
            let b = old(self).block as int;
            let nw = old(self).next_word as int;
            let pos = old(self).position() as int;
            if nw == 4 {
                assert(pos == 4 * b);
                assert(pos / 4 == b);
                assert(pos % 4 == 0);
            } else if b >= 1 {
                assert(pos == 4 * (b - 1) + nw);
                assert(pos / 4 == b - 1);
                assert(pos % 4 == nw);
            } else {
                assert(pos == 4 * 0xffff_ffff + nw);
                assert(pos / 4 == 0xffff_ffff);
                assert(pos % 4 == nw);
            }
        }
        word
    }

    /// Two consecutive words of the stream, the first in the low half.
    pub fn next_u64(&mut self) -> (r: u64)
        requires
            old(self).wf(),
        ensures
            final(self).wf(),
            r == stream_word(old(self).run_seed(), old(self).chain(), old(self).step_index(), old(self).position()) as int
                + stream_word(
                old(self).run_seed(),
                old(self).chain(),
                old(self).step_index(),
                (old(self).position() + 1) % (STREAM_WORDS as nat),
            ) as int * (TWO32 as int),
            final(self).run_seed() == old(self).run_seed(),
            final(self).chain() == old(self).chain(),
            final(self).step_index() == old(self).step_index(),
            final(self).position() == (old(self).position() + 2) % (STREAM_WORDS as nat),
    {
        let lo = self.next_u32();
        let hi = self.next_u32();
        let r = (lo as u64) | ((hi as u64) << 32u64);
        assert((lo as u64) | ((hi as u64) << 32u64) == lo as u64 + hi as u64 * 0x1_0000_0000)
            by (bit_vector);
        r
    }

    /// Fill `dest` with the little-endian bytes of the next words of the stream; a
    /// final partial word uses its low bytes and is consumed whole.
    pub fn fill_bytes(&mut self, dest: &mut [u8])
        requires
            old(self).wf(),
        ensures
            final(self).wf(),
            final(dest)@.len() == old(dest)@.len(),
            forall|i: int|
                0 <= i < old(dest)@.len() ==> #[trigger] final(dest)@[i] == le_byte32(
                    stream_word(
                        old(self).run_seed(),
                        old(self).chain(),
                        old(self).step_index(),
                        ((old(self).position() + i / 4) % (STREAM_WORDS as int)) as nat,
                    ),
                    (i % 4) as nat,
                ),
            final(self).run_seed() == old(self).run_seed(),
            final(self).chain() == old(self).chain(),
            final(self).step_index() == old(self).step_index(),
            final(self).position() == (old(self).position() + (old(dest)@.len() + 3) / 4) % (
            STREAM_WORDS as nat),
    {
        let len = dest.len();
        let ghost p0 = self.position();
        let ghost s0 = self.seed;
        let ghost c0 = self.chain_id;
        let ghost t0 = self.step;
        let mut i: usize = 0;
        let ghost mut n: nat = 0;
        while i < len
            invariant
                self.wf(),
                len == dest@.len(),
                len == old(dest)@.len(),
                i <= len,
                i <= 4 * n < i + 4,
                i < len ==> i == 4 * n,
                self.seed == s0,
                self.chain_id == c0,
                self.step == t0,
                self.position() == (p0 + n) % (STREAM_WORDS as nat),
                forall|k: int|
                    0 <= k < i ==> #[trigger] dest@[k] == le_byte32(
                        stream_word(s0, c0, t0, ((p0 + k / 4) % (STREAM_WORDS as int)) as nat),
                        (k % 4) as nat,
                    ),
            decreases len - i,
        {
            let w = self.next_u32();
            proof {
                assert(i / 4 == n);
            }
            let mut j: usize = 0;
            while j < 4 && i + j < len
                invariant
                    len == dest@.len(),
                    i < len,
                    i % 4 == 0,
                    j <= 4,
                    i + j <= len,
                    w == stream_word(s0, c0, t0, ((p0 + i / 4) % (STREAM_WORDS as int)) as nat),
                    forall|k: int|
                        0 <= k < i + j ==> #[trigger] dest@[k] == le_byte32(
                            stream_word(s0, c0, t0, ((p0 + k / 4) % (STREAM_WORDS as int)) as nat),
                            (k % 4) as nat,
                        ),
                decreases 4 - j,
            {
                let shift: u32 = 8 * j as u32;
                dest[i + j] = (w >> shift) as u8;
                proof {
                    let k = (i + j) as int;
                    assert(k / 4 == i / 4);
                    assert(k % 4 == j);
                }
                j = j + 1;
            }
            proof {
                n = n + 1;
            }
            i = i + j;
        }
    }
}

} // verus!
