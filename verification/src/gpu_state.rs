//! The integer state of many chains' flat diagrams, packed chain after chain in
//! shared arrays the way a device kernel reads them: chain `c` owns entries
//! `c * capacity .. (c + 1) * capacity` of each per-slot array, the same range of
//! the storage array for its storage list, and entry `c` of each per-chain array.
use vstd::prelude::*;
use crate::flat::{layout_wf, FlatTopology, NULL};

verus! {

pub struct GpuStateBuffers {
    chains: usize,
    capacity: usize,
    link: Vec<u32>,
    prev: Vec<u32>,
    next: Vec<u32>,
    storage_idx: Vec<u32>,
    phonons_above: Vec<u32>,
    storage: Vec<u32>,
    storage_len: Vec<u32>,
    head: Vec<u32>,
    tail: Vec<u32>,
    order: Vec<u32>,
    lists: Ghost<Seq<Seq<u32>>>,
}

/// The entries of chain `c` in a per-slot array of chains of `cap` slots.
pub open spec fn chain_range(a: Seq<u32>, c: int, cap: int) -> Seq<u32> {
    a.subrange(c * cap, c * cap + cap)
}

proof fn lemma_chain_bounds(c: int, chains: int, cap: int)
    requires
        0 <= c < chains,
        0 <= cap,
    ensures
        0 <= c * cap,
        c * cap + cap <= chains * cap,
{
    assert(0 <= c * cap) by (nonlinear_arith)
        requires
            0 <= c,
            0 <= cap,
    ;
    assert(c * cap + cap <= chains * cap) by (nonlinear_arith)
        requires
            c + 1 <= chains,
            0 <= cap,
    ;
}

proof fn lemma_chains_apart(c: int, d: int, cap: int)
    requires
        0 <= c < d,
        0 <= cap,
    ensures
        c * cap + cap <= d * cap,
{
    assert(c * cap + cap <= d * cap) by (nonlinear_arith)
        requires
            c + 1 <= d,
            0 <= cap,
    ;
}

/// `dst` with `src` written from `base` on.
fn copy_into(dst: &mut Vec<u32>, base: usize, src: &[u32])
    requires
        base + src@.len() <= old(dst)@.len(),
    ensures
        final(dst)@.len() == old(dst)@.len(),
        forall|k: int|
            0 <= k < old(dst)@.len() ==> #[trigger] final(dst)@[k] == if base <= k < base + src@.len() {
                src@[k - base]
            } else {
                old(dst)@[k]
            },
{
    let total = dst.len();
    let mut s: usize = 0;
    while s < src.len()
        invariant
            total == dst@.len(),
            base + src@.len() <= dst@.len(),
            dst@.len() == old(dst)@.len(),
            s <= src@.len(),
            forall|k: int|
                0 <= k < old(dst)@.len() ==> #[trigger] dst@[k] == if base <= k < base + s {
                    src@[k - base]
                } else {
                    old(dst)@[k]
                },
        decreases src@.len() - s,
    {
        dst.set(base + s, src[s]);
        s = s + 1;
    }
}

/// The `len` entries of `src` from `base` on.
fn copy_out(src: &Vec<u32>, base: usize, len: usize) -> (r: Vec<u32>)
    requires
        base + len <= src@.len(),
    ensures
        r@ == src@.subrange(base as int, base + len),
{
    let total = src.len();
    let mut r: Vec<u32> = Vec::new();
    let mut s: usize = 0;
    while s < len
        invariant
            total == src@.len(),
            base + len <= src@.len(),
            s <= len,
            r@ == src@.subrange(base as int, base + s),
        decreases len - s,
    {
        r.push(src[base + s]);
        s = s + 1;
        assert(r@ =~= src@.subrange(base as int, base + s));
    }
    r
}

impl GpuStateBuffers {
    pub closed spec fn chain_count(&self) -> nat {
        self.chains as nat
    }

    pub closed spec fn slots_per_chain(&self) -> nat {
        self.capacity as nat
    }

    pub closed spec fn chain_links(&self, c: int) -> Seq<u32> {
        chain_range(self.link@, c, self.capacity as int)
    }

    pub closed spec fn chain_prevs(&self, c: int) -> Seq<u32> {
        chain_range(self.prev@, c, self.capacity as int)
    }

    pub closed spec fn chain_nexts(&self, c: int) -> Seq<u32> {
        chain_range(self.next@, c, self.capacity as int)
    }

    pub closed spec fn chain_storage_indices(&self, c: int) -> Seq<u32> {
        chain_range(self.storage_idx@, c, self.capacity as int)
    }

    pub closed spec fn chain_phonons(&self, c: int) -> Seq<u32> {
        chain_range(self.phonons_above@, c, self.capacity as int)
    }

    pub closed spec fn chain_storage(&self, c: int) -> Seq<u32> {
        self.storage@.subrange(c * self.capacity, c * self.capacity + self.storage_len@[c])
    }

    pub closed spec fn chain_head(&self, c: int) -> u32 {
        self.head@[c]
    }

    pub closed spec fn chain_tail(&self, c: int) -> u32 {
        self.tail@[c]
    }

    pub closed spec fn chain_order(&self, c: int) -> u32 {
        self.order@[c]
    }

    pub closed spec fn chain_list(&self, c: int) -> Seq<u32> {
        self.lists@[c]
    }

    /// Chain `c` holds the arrays, the vertex list and the end slots of `t`.
    pub open spec fn holds_layout(&self, c: int, t: FlatTopology) -> bool {
        &&& t.links() == self.chain_links(c)
        &&& t.prevs() == self.chain_prevs(c)
        &&& t.nexts() == self.chain_nexts(c)
        &&& t.storage_indices() == self.chain_storage_indices(c)
        &&& t.phonon_counts() == self.chain_phonons(c)
        &&& t.storage_view() == self.chain_storage(c)
        &&& t.head_slot() == self.chain_head(c)
        &&& t.tail_slot() == self.chain_tail(c)
        &&& t.list() == self.chain_list(c)
    }

    /// Every chain's slice is a well-formed topology.
    pub closed spec fn wf(&self) -> bool {
        let cap = self.capacity as int;
        let ch = self.chains as int;
        &&& cap < NULL
        &&& self.link@.len() == ch * cap
        &&& self.prev@.len() == ch * cap
        &&& self.next@.len() == ch * cap
        &&& self.storage_idx@.len() == ch * cap
        &&& self.phonons_above@.len() == ch * cap
        &&& self.storage@.len() == ch * cap
        &&& self.storage_len@.len() == ch
        &&& self.head@.len() == ch
        &&& self.tail@.len() == ch
        &&& self.order@.len() == ch
        &&& self.lists@.len() == ch
        &&& forall|c: int|
            0 <= c < ch ==> #[trigger] self.storage_len@[c] <= cap && layout_wf(
                self.chain_links(c),
                self.chain_prevs(c),
                self.chain_nexts(c),
                self.chain_storage_indices(c),
                self.chain_phonons(c),
                self.chain_storage(c),
                self.chain_head(c),
                self.chain_tail(c),
                self.chain_list(c),
            )
    }

    /// Offset of chain `chain`'s slots.
    fn base(&self, chain: usize) -> (r: usize)
        requires
            chain < self.chains,
            self.link@.len() == self.chains * self.capacity,
        ensures
            r == chain * self.capacity,
            r + self.capacity <= self.link@.len(),
    {
        let total = self.link.len();
        proof {
            lemma_chain_bounds(chain as int, self.chains as int, self.capacity as int);
        }
        chain * self.capacity
    }

    /// Write the topology `t` into chain `chain`, leaving the other chains alone.
    fn write_chain(&mut self, chain: usize, t: &FlatTopology)
        requires
            chain < old(self).chains,
            t.wf(),
            t.cap() == old(self).capacity,
            old(self).link@.len() == old(self).chains * old(self).capacity,
            old(self).prev@.len() == old(self).chains * old(self).capacity,
            old(self).next@.len() == old(self).chains * old(self).capacity,
            old(self).storage_idx@.len() == old(self).chains * old(self).capacity,
            old(self).phonons_above@.len() == old(self).chains * old(self).capacity,
            old(self).storage@.len() == old(self).chains * old(self).capacity,
            old(self).storage_len@.len() == old(self).chains,
            old(self).head@.len() == old(self).chains,
            old(self).tail@.len() == old(self).chains,
            old(self).order@.len() == old(self).chains,
            old(self).lists@.len() == old(self).chains,
            old(self).lists@[chain as int] == t.list(),
            forall|c: int| 0 <= c < old(self).chains ==> #[trigger] old(self).storage_len@[c] <= old(self).capacity,
        ensures
            final(self).chains == old(self).chains,
            final(self).capacity == old(self).capacity,
            final(self).lists == old(self).lists,
            final(self).link@.len() == old(self).link@.len(),
            final(self).prev@.len() == old(self).prev@.len(),
            final(self).next@.len() == old(self).next@.len(),
            final(self).storage_idx@.len() == old(self).storage_idx@.len(),
            final(self).phonons_above@.len() == old(self).phonons_above@.len(),
            final(self).storage@.len() == old(self).storage@.len(),
            final(self).storage_len@.len() == old(self).storage_len@.len(),
            final(self).head@.len() == old(self).head@.len(),
            final(self).tail@.len() == old(self).tail@.len(),
            final(self).order@.len() == old(self).order@.len(),
            final(self).holds_layout(chain as int, *t),
            final(self).chain_order(chain as int) == t.order_spec() as u32,
            final(self).storage_len@[chain as int] == t.storage_view().len(),
            forall|c: int|
                0 <= c < old(self).chains && c != chain ==> {
                    &&& #[trigger] final(self).chain_links(c) == old(self).chain_links(c)
                    &&& final(self).chain_prevs(c) == old(self).chain_prevs(c)
                    &&& final(self).chain_nexts(c) == old(self).chain_nexts(c)
                    &&& final(self).chain_storage_indices(c) == old(self).chain_storage_indices(c)
                    &&& final(self).chain_phonons(c) == old(self).chain_phonons(c)
                    &&& final(self).chain_storage(c) == old(self).chain_storage(c)
                    &&& final(self).chain_head(c) == old(self).chain_head(c)
                    &&& final(self).chain_tail(c) == old(self).chain_tail(c)
                    &&& final(self).chain_order(c) == old(self).chain_order(c)
                    &&& final(self).storage_len@[c] == old(self).storage_len@[c]
                },
    {
        let base = self.base(chain);
        let cap = self.capacity;
        proof {
            t.lemma_wf_is_layout_wf();
            crate::flat::lemma_wf_views(*t);
        }
        let ghost old_self = *self;
        copy_into(&mut self.link, base, t.link_array());
        copy_into(&mut self.prev, base, t.prev_array());
        copy_into(&mut self.next, base, t.next_array());
        copy_into(&mut self.storage_idx, base, t.storage_index_array());
        copy_into(&mut self.phonons_above, base, t.phonons_above_array());
        copy_into(&mut self.storage, base, t.storage());
        let n = t.vertex_count();
        self.storage_len.set(chain, n as u32);
        self.head.set(chain, t.head());
        self.tail.set(chain, t.tail());
        self.order.set(chain, #[verifier::truncate] (t.order() as u32));
        proof {
            let c0 = chain as int;
            let capi = cap as int;
            assert(self.chain_links(c0) =~= t.links());
            assert(self.chain_prevs(c0) =~= t.prevs());
            assert(self.chain_nexts(c0) =~= t.nexts());
            assert(self.chain_storage_indices(c0) =~= t.storage_indices());
            assert(self.chain_phonons(c0) =~= t.phonon_counts());
            assert(self.chain_storage(c0) =~= t.storage_view());
            assert forall|c: int| 0 <= c < old_self.chains && c != chain implies {
                &&& #[trigger] self.chain_links(c) == old_self.chain_links(c)
                &&& self.chain_prevs(c) == old_self.chain_prevs(c)
                &&& self.chain_nexts(c) == old_self.chain_nexts(c)
                &&& self.chain_storage_indices(c) == old_self.chain_storage_indices(c)
                &&& self.chain_phonons(c) == old_self.chain_phonons(c)
                &&& self.chain_storage(c) == old_self.chain_storage(c)
                &&& self.chain_head(c) == old_self.chain_head(c)
                &&& self.chain_tail(c) == old_self.chain_tail(c)
                &&& self.chain_order(c) == old_self.chain_order(c)
                &&& self.storage_len@[c] == old_self.storage_len@[c]
            } by {
                lemma_chain_bounds(c, self.chains as int, capi);
                if c < c0 {
                    lemma_chains_apart(c, c0, capi);
                } else {
                    lemma_chains_apart(c0, c, capi);
                }
                assert(old_self.storage_len@[c] <= capi);
                assert(self.chain_storage(c) =~= old_self.chain_storage(c));
                assert(self.chain_links(c) =~= old_self.chain_links(c));
                assert(self.chain_prevs(c) =~= old_self.chain_prevs(c));
                assert(self.chain_nexts(c) =~= old_self.chain_nexts(c));
                assert(self.chain_storage_indices(c) =~= old_self.chain_storage_indices(c));
                assert(self.chain_phonons(c) =~= old_self.chain_phonons(c));
            }
        }
    }
    /// Pack the topologies, one chain each, in order. They must share one capacity;
    /// each chain's order is kept modulo 2^32.
    pub fn from_flat_diagrams(diagrams: &[FlatTopology]) -> (r: Self)
        requires
            diagrams@.len() > 0,
            forall|i: int| 0 <= i < diagrams@.len() ==> (#[trigger] diagrams@[i]).wf() && diagrams@[i].cap() == diagrams@[0].cap(),
            diagrams@.len() * diagrams@[0].cap() <= usize::MAX,
        ensures
            r.wf(),
            r.chain_count() == diagrams@.len(),
            r.slots_per_chain() == diagrams@[0].cap(),
            forall|c: int| 0 <= c < diagrams@.len() ==> #[trigger] r.holds_layout(c, diagrams@[c]),
            forall|c: int| 0 <= c < diagrams@.len() ==> #[trigger] r.chain_order(c) == diagrams@[c].order_spec() as u32,
    {
        let chains = diagrams.len();
        let capacity = diagrams[0].capacity();
        proof {
            crate::flat::lemma_wf_views(diagrams@[0]);
            assert(0 <= chains * capacity) by (nonlinear_arith);
        }
        let len = chains * capacity;
        let ghost lists = Seq::new(chains as nat, |c: int| diagrams@[c].list());
        let mut buffers = GpuStateBuffers {
            chains,
            capacity,
            link: vec![NULL; len],
            prev: vec![NULL; len],
            next: vec![NULL; len],
            storage_idx: vec![NULL; len],
            phonons_above: vec![0; len],
            storage: vec![NULL; len],
            storage_len: vec![0; chains],
            head: vec![NULL; chains],
            tail: vec![NULL; chains],
            order: vec![0; chains],
            lists: Ghost(lists),
        };
        let mut chain: usize = 0;
        assert(chains == diagrams@.len());
        assert(capacity == diagrams@[0].cap());
        while chain < chains
            invariant
                chains == diagrams@.len(),
                capacity == diagrams@[0].cap(),
                capacity < NULL,
                forall|i: int| 0 <= i < diagrams@.len() ==> (#[trigger] diagrams@[i]).wf() && diagrams@[i].cap() == diagrams@[0].cap(),
                buffers.chains == chains,
                buffers.capacity == capacity,
                buffers.lists@ == lists,
                lists.len() == chains,
                forall|c: int| 0 <= c < chains ==> #[trigger] lists[c] == diagrams@[c].list(),
                buffers.link@.len() == chains * capacity,
                buffers.prev@.len() == chains * capacity,
                buffers.next@.len() == chains * capacity,
                buffers.storage_idx@.len() == chains * capacity,
                buffers.phonons_above@.len() == chains * capacity,
                buffers.storage@.len() == chains * capacity,
                buffers.storage_len@.len() == chains,
                buffers.head@.len() == chains,
                buffers.tail@.len() == chains,
                buffers.order@.len() == chains,
                chain <= chains,
                forall|c: int| 0 <= c < chains ==> #[trigger] buffers.storage_len@[c] <= capacity,
                forall|c: int|
                    0 <= c < chain ==> #[trigger] buffers.holds_layout(c, diagrams@[c]) && buffers.chain_order(c)
                        == diagrams@[c].order_spec() as u32,
            decreases chains - chain,
        {
            let ghost before = buffers;
            proof {
                crate::flat::lemma_wf_views(diagrams@[chain as int]);
            }
            buffers.write_chain(chain, &diagrams[chain]);
            proof {
                assert forall|c: int| 0 <= c < chains implies #[trigger] buffers.storage_len@[c] <= capacity by {
                    if c != chain {
                        assert(buffers.chain_links(c) == before.chain_links(c));
                        assert(buffers.storage_len@[c] == before.storage_len@[c]);
                    }
                }
                assert forall|c: int|
                    0 <= c < chain + 1 implies #[trigger] buffers.holds_layout(c, diagrams@[c]) && buffers.chain_order(c)
                        == diagrams@[c].order_spec() as u32 by {
                    if c < chain {
                        assert(buffers.chain_links(c) == before.chain_links(c));
                        assert(before.holds_layout(c, diagrams@[c]));
                    }
                }
            }
            chain = chain + 1;
        }
        proof {
            assert forall|c: int|
                0 <= c < chains implies #[trigger] buffers.storage_len@[c] <= capacity && layout_wf(
                    buffers.chain_links(c),
                    buffers.chain_prevs(c),
                    buffers.chain_nexts(c),
                    buffers.chain_storage_indices(c),
                    buffers.chain_phonons(c),
                    buffers.chain_storage(c),
                    buffers.chain_head(c),
                    buffers.chain_tail(c),
                    buffers.chain_list(c),
                ) by {
                assert(buffers.holds_layout(c, diagrams@[c]));
                diagrams@[c].lemma_wf_is_layout_wf();
            }
            assert(chain == chains);
            assert forall|c: int| 0 <= c < diagrams@.len() implies #[trigger] buffers.chain_order(c) == diagrams@[c].order_spec() as u32 by {
                assert(buffers.holds_layout(c, diagrams@[c]));
            }
        }
        buffers
    }

    /// Every chain holding the zeroth-order topology for `max_order_gpu`.
    pub fn initial(max_order_gpu: usize, chains: usize) -> (r: Self)
        requires
            chains > 0,
            2 * max_order_gpu + 2 < NULL,
            chains * (2 * max_order_gpu + 2) <= usize::MAX,
        ensures
            r.wf(),
            r.chain_count() == chains,
            r.slots_per_chain() == 2 * max_order_gpu + 2,
            forall|c: int|
                0 <= c < chains ==> {
                    &&& #[trigger] r.chain_list(c) == seq![0u32, 1u32]
                    &&& r.chain_storage(c) == seq![0u32, 1u32]
                    &&& r.chain_order(c) == 0
                    &&& forall|s: int|
                        0 <= s < 2 * max_order_gpu + 2 ==> r.chain_links(c)[s] == NULL && r.chain_phonons(c)[s] == 0
                },
    {
        let mut diagrams: Vec<FlatTopology> = Vec::new();
        let mut c: usize = 0;
        while c < chains
            invariant
                2 * max_order_gpu + 2 < NULL,
                c <= chains,
                diagrams@.len() == c,
                forall|i: int|
                    0 <= i < c ==> (#[trigger] diagrams@[i]).wf() && diagrams@[i].cap() == 2 * max_order_gpu + 2
                        && diagrams@[i].is_zeroth_order(),
            decreases chains - c,
        {
            diagrams.push(FlatTopology::with_capacity(max_order_gpu));
            c = c + 1;
        }
        assert(diagrams@[0].cap() == 2 * max_order_gpu + 2);
        let r = Self::from_flat_diagrams(diagrams.as_slice());
        proof {
            assert forall|c: int|
                0 <= c < chains implies {
                    &&& #[trigger] r.chain_list(c) == seq![0u32, 1u32]
                    &&& r.chain_storage(c) == seq![0u32, 1u32]
                    &&& r.chain_order(c) == 0
                    &&& forall|s: int|
                        0 <= s < 2 * max_order_gpu + 2 ==> r.chain_links(c)[s] == NULL && r.chain_phonons(c)[s] == 0
                } by {
                let t = diagrams@[c];
                assert(r.holds_layout(c, t));
                assert forall|s: int| 0 <= s < 2 * max_order_gpu + 2 implies r.chain_links(c)[s] == NULL && r.chain_phonons(
                    c,
                )[s] == 0 by {
                    crate::flat::lemma_link_and_phonon_views(t, s as u32);
                }
            }
        }
        r
    }

    /// Read chain `chain` back as a topology.
    pub fn to_flat_diagram(&self, chain: usize) -> (r: FlatTopology)
        requires
            self.wf(),
            chain < self.chain_count(),
        ensures
            r.wf(),
            self.holds_layout(chain as int, r),
            r.order_spec() == self.chain_order(chain as int),
            r.cap() == self.slots_per_chain(),
    {
        let base = self.base(chain);
        let cap = self.capacity;
        proof {
            lemma_chain_bounds(chain as int, self.chains as int, cap as int);
        }
        let link = copy_out(&self.link, base, cap);
        let prev = copy_out(&self.prev, base, cap);
        let next = copy_out(&self.next, base, cap);
        let storage_idx = copy_out(&self.storage_idx, base, cap);
        let phonons_above = copy_out(&self.phonons_above, base, cap);
        let n = self.storage_len[chain] as usize;
        let storage = copy_out(&self.storage, base, n);
        let r = FlatTopology::from_layout(
            link,
            prev,
            next,
            storage_idx,
            phonons_above,
            storage,
            self.head[chain],
            self.tail[chain],
            self.order[chain] as usize,
            Ghost(self.lists@[chain as int]),
        );
        proof {
            crate::flat::lemma_wf_views(r);
        }
        r
    }
}

/// Reading a chain back gives the topology written into it: two topologies held
/// by one chain have the same arrays, vertex list and end slots.
pub proof fn lemma_read_back_is_written(b: GpuStateBuffers, c: int, written: FlatTopology, read: FlatTopology)
    requires
        b.holds_layout(c, written),
        b.holds_layout(c, read),
    ensures
        read.links() == written.links(),
        read.prevs() == written.prevs(),
        read.nexts() == written.nexts(),
        read.storage_indices() == written.storage_indices(),
        read.phonon_counts() == written.phonon_counts(),
        read.storage_view() == written.storage_view(),
        read.head_slot() == written.head_slot(),
        read.tail_slot() == written.tail_slot(),
        read.list() == written.list(),
{
}

} // verus!
