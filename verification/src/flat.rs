//! Linked-list and arc structure of a fixed-capacity diagram: vertices live in
//! slots of equal-length arrays, are chained in time order through `prev`/`next`,
//! are paired into phonon arcs through `link`, and the occupied slots are listed in
//! `storage`, with `storage_idx` giving each occupied slot's position there.
use vstd::prelude::*;
use vstd::set_lib::{lemma_len_subset, lemma_map_size, set_int_range};
use crate::arcs::{
    lemma_insert_arc_keeps_phonons_consistent, lemma_joined_pair_is_consistent,
    lemma_remove_arc_keeps_phonons_consistent, lemma_unlinked_is_consistent, opens_arc, phonons_consistent,
};

verus! {

/// Sentinel for "no slot".
pub const NULL: u32 = 0xffff_ffff;

pub struct FlatTopology {
    link: Vec<u32>,
    prev: Vec<u32>,
    next: Vec<u32>,
    storage_idx: Vec<u32>,
    phonons_above: Vec<u32>,
    storage: Vec<u32>,
    head: u32,
    tail: u32,
    order: usize,
    list: Ghost<Seq<u32>>,
}

impl FlatTopology {
    /// Slots of the vertices in time order, head first.
    pub closed spec fn list(&self) -> Seq<u32> {
        self.list@
    }

    pub closed spec fn cap(&self) -> nat {
        self.link@.len()
    }

    pub closed spec fn storage_view(&self) -> Seq<u32> {
        self.storage@
    }

    /// Partner slot of every slot, `NULL` where there is none.
    pub closed spec fn links(&self) -> Seq<u32> {
        self.link@
    }

    pub closed spec fn prevs(&self) -> Seq<u32> {
        self.prev@
    }

    pub closed spec fn nexts(&self) -> Seq<u32> {
        self.next@
    }

    pub closed spec fn storage_indices(&self) -> Seq<u32> {
        self.storage_idx@
    }

    pub closed spec fn phonon_counts(&self) -> Seq<u32> {
        self.phonons_above@
    }

    pub closed spec fn head_slot(&self) -> u32 {
        self.head
    }

    pub closed spec fn tail_slot(&self) -> u32 {
        self.tail
    }

    /// Well-formedness is that of the arrays.
    pub proof fn lemma_wf_is_layout_wf(&self)
        ensures
            self.wf() == layout_wf(
                self.links(),
                self.prevs(),
                self.nexts(),
                self.storage_indices(),
                self.phonon_counts(),
                self.storage_view(),
                self.head_slot(),
                self.tail_slot(),
                self.list(),
            ),
    {
    }

    /// The topology made of the given arrays, listed in the order `list`.
    pub(crate) fn from_layout(
        link: Vec<u32>,
        prev: Vec<u32>,
        next: Vec<u32>,
        storage_idx: Vec<u32>,
        phonons_above: Vec<u32>,
        storage: Vec<u32>,
        head: u32,
        tail: u32,
        order: usize,
        list: Ghost<Seq<u32>>,
    ) -> (r: Self)
        requires
            layout_wf(link@, prev@, next@, storage_idx@, phonons_above@, storage@, head, tail, list@),
        ensures
            r.wf(),
            r.links() == link@,
            r.prevs() == prev@,
            r.nexts() == next@,
            r.storage_indices() == storage_idx@,
            r.phonon_counts() == phonons_above@,
            r.storage_view() == storage@,
            r.head_slot() == head,
            r.tail_slot() == tail,
            r.order_spec() == order,
            r.list() == list@,
    {
        FlatTopology { link, prev, next, storage_idx, phonons_above, storage, head, tail, order, list }
    }

    pub fn link_array(&self) -> (r: &[u32])
        ensures
            r@ == self.links(),
    {
        self.link.as_slice()
    }

    pub fn prev_array(&self) -> (r: &[u32])
        ensures
            r@ == self.prevs(),
    {
        self.prev.as_slice()
    }

    pub fn next_array(&self) -> (r: &[u32])
        ensures
            r@ == self.nexts(),
    {
        self.next.as_slice()
    }

    pub fn storage_index_array(&self) -> (r: &[u32])
        ensures
            r@ == self.storage_indices(),
    {
        self.storage_idx.as_slice()
    }

    pub fn phonons_above_array(&self) -> (r: &[u32])
        ensures
            r@ == self.phonon_counts(),
    {
        self.phonons_above.as_slice()
    }

    pub closed spec fn link_of(&self, slot: u32) -> u32 {
        self.link@[slot as int]
    }

    pub closed spec fn phonons_of(&self, slot: u32) -> u32 {
        self.phonons_above@[slot as int]
    }

    pub closed spec fn slot_index(&self, slot: u32) -> u32 {
        self.storage_idx@[slot as int]
    }

    pub closed spec fn order_spec(&self) -> nat {
        self.order as nat
    }

    /// Whether `slot` holds a vertex.
    pub open spec fn occupied(&self, slot: u32) -> bool {
        self.list().contains(slot)
    }

    /// Index of a listed slot in time order.
    pub open spec fn position(&self, slot: u32) -> int {
        self.list().index_of(slot)
    }

    pub closed spec fn wf(&self) -> bool {
        layout_wf(
            self.link@,
            self.prev@,
            self.next@,
            self.storage_idx@,
            self.phonons_above@,
            self.storage@,
            self.head,
            self.tail,
            self.list@,
        )
    }

    /// Whether `slot` is unoccupied (absent from storage).
    pub open spec fn is_free(&self, slot: u32) -> bool {
        self.slot_index(slot) == NULL
    }

    /// The lowest free slot, if any.
    pub open spec fn first_free(&self, slot: u32) -> bool {
        &&& slot < self.cap()
        &&& self.is_free(slot)
        &&& forall|t: u32| t < slot ==> !#[trigger] self.is_free(t)
    }

    /// When no slot is free, every slot is occupied.
    proof fn lemma_full_when_no_free(&self)
        requires
            self.wf(),
            forall|t: int| 0 <= t < self.cap() ==> #[trigger] self.storage_idx@[t] != NULL,
        ensures
            self.storage@.len() == self.cap(),
    {
        let cap = self.cap() as int;
        let n = self.storage@.len() as int;
        let x = set_int_range(0, cap);
        let f = |t: int| self.storage_idx@[t] as int;
        let y = x.map(f);
        vstd::set_lib::lemma_int_range(0, cap);
        vstd::set_lib::lemma_int_range(0, n);
        assert forall|a: int, b: int| x.contains(a) && x.contains(b) && f(a) == f(b) implies a == b by {
            assert(self.storage@[self.storage_idx@[a] as int] == a);
            assert(self.storage@[self.storage_idx@[b] as int] == b);
        }
        assert(vstd::relations::injective_on(f, x));
        lemma_map_size(x, y, f);
        assert forall|v: int| y.contains(v) implies set_int_range(0, n).contains(v) by {
            let t = choose|t: int| x.contains(t) && f(t) == v;
            assert(self.storage_idx@[t] != NULL);
        }
        lemma_len_subset(y, set_int_range(0, n));
    }

    /// When every slot is occupied, no slot is free.
    proof fn lemma_no_free_when_full(&self, slot: int)
        requires
            self.wf(),
            self.storage@.len() == self.cap(),
            0 <= slot < self.cap(),
        ensures
            self.storage_idx@[slot] != NULL,
    {
        let cap = self.cap() as int;
        let x = set_int_range(0, cap);
        let g = |i: int| self.storage@[i] as int;
        let y = x.map(g);
        vstd::set_lib::lemma_int_range(0, cap);
        assert forall|a: int, b: int| x.contains(a) && x.contains(b) && g(a) == g(b) implies a == b by {
            assert(self.storage_idx@[self.storage@[a] as int] == a);
            assert(self.storage_idx@[self.storage@[b] as int] == b);
        }
        assert(vstd::relations::injective_on(g, x));
        lemma_map_size(x, y, g);
        assert forall|v: int| y.contains(v) implies x.contains(v) by {
            let i = choose|i: int| x.contains(i) && g(i) == v;
            assert(self.storage@[i] < cap);
        }
        vstd::set_lib::lemma_subset_equality(y, x);
        assert(y.contains(slot));
        let i = choose|i: int| x.contains(i) && g(i) == slot;
        assert(self.storage_idx@[self.storage@[i] as int] == i);
    }

    /// The lowest free slot, or `None` when every slot is occupied.
    fn alloc_slot(&self) -> (r: Option<u32>)
        requires
            self.wf(),
        ensures
            r matches Some(s) ==> self.first_free(s),
            r is None <==> self.storage@.len() == self.cap(),
    {
        let cap = self.storage_idx.len();
        let mut s: usize = 0;
        while s < cap
            invariant
                self.wf(),
                cap == self.cap(),
                s <= cap,
                forall|t: int| 0 <= t < s ==> #[trigger] self.storage_idx@[t] != NULL,
            decreases cap - s,
        {
            if self.storage_idx[s] == NULL {
                let r = s as u32;
                proof {
                    if self.storage@.len() == self.cap() {
                        self.lemma_no_free_when_full(s as int);
                    }
                }
                assert forall|t: u32| t < r implies !#[trigger] self.is_free(t) by {
                    assert(self.storage_idx@[t as int] != NULL);
                }
                return Some(r);
            }
            s = s + 1;
        }
        proof {
            self.lemma_full_when_no_free();
        }
        None
    }

    /// Everything but the list and storage of occupied slots is unchanged, except
    /// for `slot`, which holds a fresh unlinked vertex.
    pub open spec fn same_arcs_except(&self, other: &Self, slot: u32) -> bool {
        &&& self.cap() == other.cap()
        &&& self.order_spec() == other.order_spec()
        &&& forall|t: u32| t < self.cap() && t != slot ==> #[trigger] self.link_of(t) == other.link_of(t)
        &&& forall|t: u32| t < self.cap() && t != slot ==> #[trigger] self.phonons_of(t) == other.phonons_of(t)
        &&& self.link_of(slot) == NULL
        &&& self.phonons_of(slot) == 0
    }

    /// Place a fresh vertex in the lowest free slot, right after the listed slot
    /// `left`; `None` when every slot is occupied.
    fn splice_after(&mut self, left: u32) -> (r: Option<u32>)
        requires
            old(self).wf(),
            old(self).occupied(left),
        ensures
            final(self).wf(),
            r is None <==> old(self).list().len() == old(self).cap(),
            r is None ==> *final(self) == *old(self),
            r matches Some(s) ==> {
                &&& old(self).first_free(s)
                &&& final(self).list() == old(self).list().insert(old(self).position(left) + 1, s)
                &&& final(self).storage_view() == old(self).storage_view().push(s)
                &&& final(self).same_arcs_except(old(self), s)
            },
    {
        let slot = match self.alloc_slot() {
            Some(slot) => slot,
            None => {
                return None;
            },
        };
        let ghost l = self.list@;
        let ghost p = l.index_of(left);
        let ghost old_self = *self;
        assert(!l.contains(slot)) by {
            if l.contains(slot) {
                let i = choose|i: int| 0 <= i < l.len() && l[i] == slot;
                assert(self.storage_idx@[l[i] as int] != NULL);
            }
        }
        let right = self.next[left as usize];
        self.prev.set(slot as usize, left);
        self.next.set(slot as usize, right);
        self.next.set(left as usize, slot);
        if right == NULL {
            self.tail = slot;
        } else {
            self.prev.set(right as usize, slot);
        }
        self.push_storage(slot);
        let ghost nl = l.insert(p + 1, slot);
        self.list = Ghost(nl);
        proof {
            assert(p + 1 < l.len() ==> right == l[p + 1]);
            assert(p + 1 == l.len() ==> right == NULL);
            lemma_insert_no_duplicates(l, p + 1, slot);
            lemma_storage_push(old_self.storage@, old_self.storage_idx@, self.storage@, self.storage_idx@, slot);
            lemma_splice_free_clear(old_self, *self, slot, left, right);
            lemma_splice_list_covers(old_self, *self, l, nl, p, slot);
            lemma_splice_chained(old_self, *self, l, nl, p, slot, left, right);
        }
        Some(slot)
    }

    /// Remove `slot` from the storage list by moving the last entry into its place.
    fn swap_remove_storage(&mut self, slot: u32)
        requires
            slot < old(self).cap(),
            old(self).storage_idx@.len() == old(self).cap(),
            old(self).cap() < NULL,
            old(self).storage@.len() <= old(self).cap(),
            old(self).storage_idx@[slot as int] != NULL,
            forall|i: int| 0 <= i < old(self).storage@.len() ==> #[trigger] old(self).storage@[i] < old(self).cap()
                && old(self).storage_idx@[old(self).storage@[i] as int] == i,
            forall|s: int| 0 <= s < old(self).cap() && #[trigger] old(self).storage_idx@[s] != NULL ==> {
                &&& old(self).storage_idx@[s] < old(self).storage@.len()
                &&& old(self).storage@[old(self).storage_idx@[s] as int] == s
            },
        ensures
            final(self).storage@ == swap_removed(old(self).storage@, old(self).storage_idx@[slot as int] as int),
            final(self).storage_idx@ == if old(self).storage_idx@[slot as int] + 1 < old(self).storage@.len() {
                old(self).storage_idx@.update(slot as int, NULL).update(
                    old(self).storage@.last() as int,
                    old(self).storage_idx@[slot as int],
                )
            } else {
                old(self).storage_idx@.update(slot as int, NULL)
            },
            final(self).link@ == old(self).link@,
            final(self).prev@ == old(self).prev@,
            final(self).next@ == old(self).next@,
            final(self).phonons_above@ == old(self).phonons_above@,
            final(self).head == old(self).head,
            final(self).tail == old(self).tail,
            final(self).order == old(self).order,
            final(self).list == old(self).list,
    {
        let idx = self.storage_idx[slot as usize] as usize;
        let ghost n = self.storage@.len();
        let ghost last = self.storage@.last();
        self.storage.swap_remove(idx);
        self.storage_idx.set(slot as usize, NULL);
        if idx < self.storage.len() {
            let moved = self.storage[idx];
            assert(moved == last);
            self.storage_idx.set(moved as usize, idx as u32);
        }
    }

    /// Take the listed `slot` out of the list and storage and clear it.
    fn unlink(&mut self, slot: u32)
        requires
            old(self).wf(),
            old(self).occupied(slot),
        ensures
            final(self).wf(),
            final(self).list() == old(self).list().remove(old(self).position(slot)),
            final(self).storage_view() == unlinked_storage(old(self).storage_view(), slot),
            final(self).cap() == old(self).cap(),
            final(self).order_spec() == old(self).order_spec(),
            forall|t: u32| t < old(self).cap() && t != slot ==> #[trigger] final(self).link_of(t) == old(self).link_of(t),
            forall|t: u32| t < old(self).cap() && t != slot ==> #[trigger] final(self).phonons_of(t) == old(self).phonons_of(t),
            final(self).link_of(slot) == NULL,
            final(self).phonons_of(slot) == 0,
    {
        let ghost old_self = *self;
        let ghost l = self.list@;
        let ghost p = l.index_of(slot);
        proof {
            lemma_storage_index_of(old_self, slot);
            assert(old_self.storage_idx@[l[p] as int] != NULL);
        }
        let prv = self.prev[slot as usize];
        let nxt = self.next[slot as usize];
        proof {
            assert(l[p] == slot);
            if p > 0 {
                assert(l[p - 1] != slot);
            }
            if p + 1 < l.len() {
                assert(l[p + 1] != slot);
            }
        }
        if prv == NULL {
            self.head = nxt;
        } else {
            self.next.set(prv as usize, nxt);
        }
        if nxt == NULL {
            self.tail = prv;
        } else {
            self.prev.set(nxt as usize, prv);
        }
        let ghost mid = *self;
        self.swap_remove_storage(slot);
        self.link.set(slot as usize, NULL);
        self.prev.set(slot as usize, NULL);
        self.next.set(slot as usize, NULL);
        self.phonons_above.set(slot as usize, 0);
        let ghost nl = l.remove(p);
        self.list = Ghost(nl);
        proof {
            lemma_remove_no_duplicates(l, p);
            lemma_storage_swap_remove(old_self.storage@, old_self.storage_idx@, self.storage@, self.storage_idx@, slot);
            lemma_unlink_free_clear(old_self, *self, slot, prv, nxt);
            lemma_unlink_list_covers(old_self, *self, l, nl, p, slot);
            lemma_unlink_chained(old_self, *self, l, nl, p, slot, prv, nxt);
        }
    }

    /// Listed slots strictly between the listed slots `a` and `b`, in time order.
    pub open spec fn inner_slots(&self, a: u32, b: u32) -> Seq<u32> {
        self.list().subrange(self.position(a) + 1, self.position(b))
    }

    /// Whether the listed slot `a` comes before the listed slot `b` in time order.
    pub fn precedes(&self, a: u32, b: u32) -> (r: bool)
        requires
            self.wf(),
            self.occupied(a),
            self.occupied(b),
        ensures
            r == (self.position(a) < self.position(b)),
    {
        proof {
            lemma_wf_views(*self);
            lemma_wf_arrays(*self);
        }
        let ghost l = self.list@;
        let ghost pa = self.position(a);
        let mut k = self.next[a as usize];
        let ghost mut p: int = pa + 1;
        proof {
            assert(l[pa] == a);
        }
        while k != NULL && k != b
            invariant
                self.wf(),
                l == self.list(),
                l.len() <= self.cap(),
                self.cap() < NULL,
                self.nexts().len() == self.cap(),
                0 <= pa < l.len(),
                pa < p <= l.len(),
                k == if p < l.len() { l[p] } else { NULL },
                forall|q: int| pa < q < p ==> #[trigger] l[q] != b,
                forall|i: int| 0 <= i < l.len() ==> #[trigger] l[i] < self.cap(),
                forall|i: int|
                    0 <= i < l.len() ==> #[trigger] self.nexts()[l[i] as int] == if i + 1 < l.len() {
                        l[i + 1]
                    } else {
                        NULL
                    },
            decreases l.len() - p,
        {
            proof {
                assert(l[p] < self.cap());
                assert(self.nexts()[l[p] as int] == self.next@[k as int]);
            }
            k = self.next[k as usize];
            proof {
                p = p + 1;
            }
        }
        proof {
            let pb = self.position(b);
            assert(l[pb] == b);
            if k == b {
                assert(p < l.len());
                assert(self.position(l[p]) == p);
            } else {
                assert(p == l.len());
                if pa < pb {
                    assert(l[pb] != b);
                }
            }
        }
        k == b
    }

    /// Whether removing the arc from `left` to `right` is ruled out on topology
    /// alone: past second order, some vertex strictly between its ends other than
    /// the second-to-last vertex has exactly one phonon above it.
    pub open spec fn removal_blocked(&self, left: u32, right: u32) -> bool {
        &&& self.order_spec() != 2
        &&& exists|t: u32|
            #[trigger] self.inner_slots(left, right).contains(t) && self.phonons_of(t) == 1 && t != self.list()[self.list().len() - 2]
    }

    /// Decide `removal_blocked` by walking from `left` to `right`.
    pub fn blocks_phonon_removal(&self, left: u32, right: u32) -> (r: bool)
        requires
            self.wf(),
            self.occupied(left),
            self.occupied(right),
            self.position(left) < self.position(right),
            self.list().len() >= 2,
        ensures
            r == self.removal_blocked(left, right),
            r == (self.order_spec() != 2 && exists|j: int|
                self.position(left) < j < self.position(right) && #[trigger] self.phonons_of(self.list()[j]) == 1
                    && self.list()[j] != self.prevs()[self.tail_slot() as int]),
    {
        proof {
            lemma_removal_blocked_by_inner_vertex(*self, left, right);
        }
        if self.order == 2 {
            return false;
        }
        proof {
            lemma_wf_views(*self);
            lemma_wf_arrays(*self);
        }
        let ghost l = self.list@;
        let ghost pl = self.position(left);
        let ghost pr = self.position(right);
        let second_last = self.prev[self.tail as usize];
        proof {
            assert(l[l.len() - 1] == self.tail);
            assert(self.prevs()[l[l.len() - 1] as int] == l[l.len() - 2]);
            assert(l[pl] == left);
            assert(l[pr] == right);
        }
        let mut slot = self.next[left as usize];
        let ghost mut p: int = pl + 1;
        while slot != right
            invariant
                self.wf(),
                l == self.list(),
                l.len() <= self.cap(),
                self.cap() < NULL,
                self.nexts().len() == self.cap(),
                self.phonon_counts().len() == self.cap(),
                0 <= pl < pr < l.len(),
                pl == self.position(left),
                pr == self.position(right),
                self.order_spec() != 2,
                l[pr] == right,
                pl < p <= pr,
                slot == l[p],
                second_last == l[l.len() - 2],
                forall|q: int| pl < q < p ==> !(self.phonons_of(#[trigger] l[q]) == 1 && l[q] != second_last),
                forall|i: int| 0 <= i < l.len() ==> #[trigger] l[i] < self.cap(),
                forall|i: int| 0 <= i < l.len() ==> self.position(#[trigger] l[i]) == i,
                forall|i: int|
                    0 <= i < l.len() ==> #[trigger] self.nexts()[l[i] as int] == if i + 1 < l.len() {
                        l[i + 1]
                    } else {
                        NULL
                    },
            decreases pr - p,
        {
            proof {
                assert(l[p] < self.cap());
                if p == pr {
                    assert(l[p] == right);
                }
                assert(p < pr) by {
                    if p == pr {
                        assert(slot == right);
                    }
                }
            }
            if self.phonons_above[slot as usize] == 1 && slot != second_last {
                proof {
                    let inner = self.inner_slots(left, right);
                    assert(inner[p - pl - 1] == slot);
                    assert(inner.contains(slot));
                    assert(self.phonons_of(slot) == 1);
                    assert(slot != self.list()[self.list().len() - 2]);
                    assert(self.order_spec() != 2);
                    assert(self.removal_blocked(left, right));
                }
                return true;
            }
            proof {
                assert(self.nexts()[l[p] as int] == self.next@[slot as int]);
            }
            slot = self.next[slot as usize];
            proof {
                p = p + 1;
            }
        }
        proof {
            if p < pr {
                assert(self.position(l[p]) == p);
            }
            assert(p == pr);
            let inner = self.inner_slots(left, right);
            assert forall|t: u32| #[trigger] inner.contains(t) implies !(self.phonons_of(t) == 1 && t != l[l.len() - 2]) by {
                let j = choose|j: int| 0 <= j < inner.len() && inner[j] == t;
                assert(l[pl + 1 + j] == t);
            }
        }
        false
    }

    /// The end of the arc between `a` and `b` that comes first in time.
    pub open spec fn first_end(&self, a: u32, b: u32) -> u32 {
        if self.position(a) < self.position(b) {
            a
        } else {
            b
        }
    }

    /// The end of the arc between `a` and `b` that comes last in time.
    pub open spec fn last_end(&self, a: u32, b: u32) -> u32 {
        if self.position(a) < self.position(b) {
            b
        } else {
            a
        }
    }

    /// Remove the phonon arc joining `a` and `b`, given in either order: every
    /// vertex strictly between its ends loses one phonon above, both ends leave the
    /// diagram, and the order drops by one.
    pub fn remove_arc(&mut self, a: u32, b: u32)
        requires
            old(self).wf(),
            old(self).occupied(a),
            old(self).occupied(b),
            a != b,
            old(self).link_of(a) == b,
            old(self).link_of(b) == a,
            old(self).order_spec() >= 1,
            forall|t: u32|
                #[trigger] old(self).inner_slots(old(self).first_end(a, b), old(self).last_end(a, b)).contains(t)
                    ==> old(self).phonons_of(t) >= 1,
        ensures
            final(self).wf(),
            arc_removed(*old(self), *final(self), old(self).first_end(a, b), old(self).last_end(a, b)),
            phonons_consistent(*old(self)) ==> phonons_consistent(*final(self)),
    {
        proof {
            lemma_wf_views(*self);
        }
        if self.precedes(a, b) {
            proof {
                assert(self.first_end(a, b) == a && self.last_end(a, b) == b);
            }
            self.remove_ordered_arc(a, b);
        } else {
            proof {
                assert(self.position(a) != self.position(b)) by {
                    assert(self.list()[self.position(a)] == a);
                    assert(self.list()[self.position(b)] == b);
                }
                assert(self.first_end(a, b) == b && self.last_end(a, b) == a);
            }
            self.remove_ordered_arc(b, a);
        }
    }

    /// Remove the phonon arc joining `left` and `right`, `left` first in time.
    #[verifier::rlimit(40)]
    #[verifier::spinoff_prover]
    fn remove_ordered_arc(&mut self, left: u32, right: u32)
        requires
            old(self).wf(),
            old(self).occupied(left),
            old(self).occupied(right),
            old(self).position(left) < old(self).position(right),
            old(self).link_of(left) == right,
            old(self).link_of(right) == left,
            old(self).order_spec() >= 1,
            forall|t: u32| #[trigger] old(self).inner_slots(left, right).contains(t) ==> old(self).phonons_of(t) >= 1,
        ensures
            final(self).wf(),
            arc_removed(*old(self), *final(self), left, right),
            phonons_consistent(*old(self)) ==> phonons_consistent(*final(self)),
    {
        let ghost old_self = *self;
        let ghost l = self.list@;
        let ghost pl = l.index_of(left);
        let ghost pr = l.index_of(right);
        proof {
            lemma_storage_index_of(old_self, left);
            lemma_storage_index_of(old_self, right);
            assert forall|j: int| pl < j < pr implies old_self.phonons_above@[#[trigger] l[j] as int] >= 1 by {
                assert(self.inner_slots(left, right)[j - pl - 1] == l[j]);
                assert(self.inner_slots(left, right).contains(l[j]));
            }
        }
        self.drop_phonon_between(left, right);
        let ghost mid = *self;
        proof {
            lemma_index_of_nodup(l.remove(pl), pr - 1);
            assert(l.remove(pl)[pr - 1] == right);
        }
        self.unlink(left);
        let ghost mid2 = *self;
        self.unlink(right);
        let ghost fin = *self;
        self.order = self.order - 1;
        proof {
            assert(l.remove(pl).remove(pr - 1) =~= l.remove(pr).remove(pl));
            assert(mid.cap() == old_self.cap());
            assert(mid2.cap() == old_self.cap());
            assert(left != right);
            assert(fin.link_of(left) == mid2.link_of(left));
            assert(fin.phonons_of(left) == mid2.phonons_of(left));
            assert forall|t: u32| t < old_self.cap() && t != left && t != right implies #[trigger] self.link_of(t) == old_self.link_of(t) by {
                assert(fin.link_of(t) == mid2.link_of(t));
                assert(mid2.link_of(t) == mid.link_of(t));
            }
            assert forall|t: u32| t < old_self.cap() && t != left && t != right implies #[trigger] self.phonons_of(t) == old_self.phonons_of(t) - if old_self.inner_slots(left, right).contains(t) {
                1int
            } else {
                0int
            } by {
                assert(fin.phonons_of(t) == mid2.phonons_of(t));
                assert(mid2.phonons_of(t) == mid.phonons_of(t));
                lemma_inner_slots_contains(l, pl, pr, t);
                if l.contains(t) {
                    let j = choose|j: int| 0 <= j < l.len() && l[j] == t;
                    lemma_index_of_nodup(l, j);
                }
            }
            if phonons_consistent(old_self) {
                lemma_remove_arc_keeps_phonons_consistent(old_self, *self, left, right);
            }
        }
    }

    /// Take one phonon off every vertex strictly between the listed `left` and `right`.
    fn drop_phonon_between(&mut self, left: u32, right: u32)
        requires
            old(self).wf(),
            old(self).occupied(left),
            old(self).occupied(right),
            old(self).position(left) < old(self).position(right),
            forall|j: int|
                old(self).position(left) < j < old(self).position(right) ==> old(self).phonons_above@[#[trigger] old(
                    self,
                ).list@[j] as int] >= 1,
        ensures
            final(self).wf(),
            final(self).list@ == old(self).list@,
            final(self).link@ == old(self).link@,
            final(self).prev@ == old(self).prev@,
            final(self).next@ == old(self).next@,
            final(self).storage@ == old(self).storage@,
            final(self).storage_idx@ == old(self).storage_idx@,
            final(self).head == old(self).head,
            final(self).tail == old(self).tail,
            final(self).order == old(self).order,
            final(self).phonons_above@.len() == old(self).phonons_above@.len(),
            forall|j: int|
                0 <= j < old(self).list@.len() ==> #[trigger] final(self).phonons_above@[old(self).list@[j] as int]
                    == old(self).phonons_above@[old(self).list@[j] as int] - if old(self).position(left) < j < old(
                    self,
                ).position(right) {
                    1int
                } else {
                    0int
                },
            forall|t: int|
                0 <= t < old(self).phonons_above@.len() && !old(self).list@.contains(t as u32)
                    ==> #[trigger] final(self).phonons_above@[t] == old(self).phonons_above@[t],
    {
        let ghost l = self.list@;
        let ghost pl = l.index_of(left);
        let ghost pr = l.index_of(right);
        let ghost old_ph = self.phonons_above@;
        let ghost old_self = *self;
        let mut slot = self.next[left as usize];
        let ghost mut k: int = pl + 1;
        while slot != right
            invariant
                self.wf(),
                self.list@ == l,
                self.link@ == old_self.link@,
                self.prev@ == old_self.prev@,
                self.next@ == old_self.next@,
                self.storage@ == old_self.storage@,
                self.storage_idx@ == old_self.storage_idx@,
                self.head == old_self.head,
                self.tail == old_self.tail,
                self.order == old_self.order,
                self.phonons_above@.len() == old_ph.len(),
                l.no_duplicates(),
                0 <= pl < pr < l.len(),
                l[pl] == left,
                l[pr] == right,
                pl < k <= pr,
                slot == l[k],
                forall|j: int| pl < j < pr ==> old_ph[#[trigger] l[j] as int] >= 1,
                forall|j: int| 0 <= j < l.len() ==> #[trigger] self.phonons_above@[l[j] as int] == old_ph[l[j] as int] - if pl < j < k {
                    1int
                } else {
                    0int
                },
                forall|t: int| 0 <= t < old_ph.len() && !l.contains(t as u32) ==> #[trigger] self.phonons_above@[t] == old_ph[t],
            decreases pr - k,
        {
            proof {
                assert(l[k] < self.link@.len());
                assert(self.storage_idx@[l[k] as int] != NULL);
                assert(self.phonons_above@[l[k] as int] == old_ph[l[k] as int]);
            }
            let cur = self.phonons_above[slot as usize];
            self.phonons_above.set(slot as usize, cur - 1);
            proof {
                assert forall|j: int| 0 <= j < l.len() implies #[trigger] self.phonons_above@[l[j] as int] == old_ph[l[j] as int] - if pl < j < k + 1 {
                    1int
                } else {
                    0int
                } by {
                    if j != k {
                        assert(l[j] != l[k]);
                    }
                }
                assert forall|t: int| 0 <= t < old_ph.len() && !l.contains(t as u32) implies #[trigger] self.phonons_above@[t] == old_ph[t] by {
                    assert(t != l[k] as int);
                }
            }
            slot = self.next[slot as usize];
            proof {
                k = k + 1;
            }
        }
    }

    /// Add one phonon above every vertex strictly between the listed `left` and `right`.
    fn raise_phonon_between(&mut self, left: u32, right: u32)
        requires
            old(self).wf(),
            old(self).occupied(left),
            old(self).occupied(right),
            old(self).position(left) < old(self).position(right),
            forall|j: int|
                old(self).position(left) < j < old(self).position(right) ==> old(self).phonons_above@[#[trigger] old(
                    self,
                ).list@[j] as int] < u32::MAX,
        ensures
            final(self).wf(),
            final(self).list@ == old(self).list@,
            final(self).link@ == old(self).link@,
            final(self).prev@ == old(self).prev@,
            final(self).next@ == old(self).next@,
            final(self).storage@ == old(self).storage@,
            final(self).storage_idx@ == old(self).storage_idx@,
            final(self).head == old(self).head,
            final(self).tail == old(self).tail,
            final(self).order == old(self).order,
            final(self).phonons_above@.len() == old(self).phonons_above@.len(),
            forall|j: int|
                0 <= j < old(self).list@.len() ==> #[trigger] final(self).phonons_above@[old(self).list@[j] as int]
                    == old(self).phonons_above@[old(self).list@[j] as int] + if old(self).position(left) < j < old(
                    self,
                ).position(right) {
                    1int
                } else {
                    0int
                },
            forall|t: int|
                0 <= t < old(self).phonons_above@.len() && !old(self).list@.contains(t as u32)
                    ==> #[trigger] final(self).phonons_above@[t] == old(self).phonons_above@[t],
    {
        let ghost l = self.list@;
        let ghost pl = l.index_of(left);
        let ghost pr = l.index_of(right);
        let ghost old_ph = self.phonons_above@;
        let ghost old_self = *self;
        let mut slot = self.next[left as usize];
        let ghost mut k: int = pl + 1;
        while slot != right
            invariant
                self.wf(),
                self.list@ == l,
                self.link@ == old_self.link@,
                self.prev@ == old_self.prev@,
                self.next@ == old_self.next@,
                self.storage@ == old_self.storage@,
                self.storage_idx@ == old_self.storage_idx@,
                self.head == old_self.head,
                self.tail == old_self.tail,
                self.order == old_self.order,
                self.phonons_above@.len() == old_ph.len(),
                l.no_duplicates(),
                0 <= pl < pr < l.len(),
                l[pl] == left,
                l[pr] == right,
                pl < k <= pr,
                slot == l[k],
                forall|j: int| pl < j < pr ==> old_ph[#[trigger] l[j] as int] < u32::MAX,
                forall|j: int| 0 <= j < l.len() ==> #[trigger] self.phonons_above@[l[j] as int] == old_ph[l[j] as int] + if pl < j < k {
                    1int
                } else {
                    0int
                },
                forall|t: int| 0 <= t < old_ph.len() && !l.contains(t as u32) ==> #[trigger] self.phonons_above@[t] == old_ph[t],
            decreases pr - k,
        {
            proof {
                assert(l[k] < self.link@.len());
                assert(self.storage_idx@[l[k] as int] != NULL);
                assert(self.phonons_above@[l[k] as int] == old_ph[l[k] as int]);
            }
            let cur = self.phonons_above[slot as usize];
            self.phonons_above.set(slot as usize, cur + 1);
            proof {
                assert forall|j: int| 0 <= j < l.len() implies #[trigger] self.phonons_above@[l[j] as int] == old_ph[l[j] as int] + if pl < j < k + 1 {
                    1int
                } else {
                    0int
                } by {
                    if j != k {
                        assert(l[j] != l[k]);
                    }
                }
                assert forall|t: int| 0 <= t < old_ph.len() && !l.contains(t as u32) implies #[trigger] self.phonons_above@[t] == old_ph[t] by {
                    assert(t != l[k] as int);
                }
            }
            slot = self.next[slot as usize];
            proof {
                k = k + 1;
            }
        }
    }

    /// Set the phonon count of an occupied slot.
    fn set_phonons(&mut self, slot: u32, count: u32)
        requires
            old(self).wf(),
            old(self).occupied(slot),
        ensures
            final(self).wf(),
            final(self).list@ == old(self).list@,
            final(self).link@ == old(self).link@,
            final(self).storage@ == old(self).storage@,
            final(self).storage_idx@ == old(self).storage_idx@,
            final(self).order == old(self).order,
            final(self).phonons_above@ == old(self).phonons_above@.update(slot as int, count),
    {
        proof {
            lemma_storage_index_of(*self, slot);
        }
        self.phonons_above.set(slot as usize, count);
    }

    /// Make the occupied slots `a` and `b` the two ends of one arc.
    fn join(&mut self, a: u32, b: u32)
        requires
            old(self).wf(),
            old(self).occupied(a),
            old(self).occupied(b),
        ensures
            final(self).wf(),
            final(self).list@ == old(self).list@,
            final(self).phonons_above@ == old(self).phonons_above@,
            final(self).storage@ == old(self).storage@,
            final(self).storage_idx@ == old(self).storage_idx@,
            final(self).order == old(self).order,
            final(self).link@ == old(self).link@.update(a as int, b).update(b as int, a),
    {
        proof {
            lemma_storage_index_of(*self, a);
            lemma_storage_index_of(*self, b);
        }
        self.link.set(a as usize, b);
        self.link.set(b as usize, a);
    }

    /// Position in time order at which a vertex placed before `before_right` ends
    /// up: the end of the list when `before_right` is `NULL`.
    pub open spec fn insertion_point(&self, before_right: u32) -> int {
        if before_right == NULL {
            self.list().len() as int
        } else {
            self.position(before_right)
        }
    }

    /// `a` is the lowest free slot and `b` the lowest free slot besides it.
    pub open spec fn first_two_free(&self, a: u32, b: u32) -> bool {
        &&& self.first_free(a)
        &&& a < b < self.cap()
        &&& self.is_free(b)
        &&& forall|t: u32| t < b && t != a ==> !#[trigger] self.is_free(t)
    }

    /// Whether the listed vertex in `slot` opens an arc: its partner is listed
    /// after it.
    pub fn opens_arc_at(&self, slot: u32) -> (r: bool)
        requires
            self.wf(),
            self.occupied(slot),
        ensures
            r == opens_arc(*self, self.position(slot)),
    {
        proof {
            lemma_wf_views(*self);
            lemma_storage_index_of(*self, slot);
        }
        let ghost l = self.list@;
        let ghost p = l.index_of(slot);
        let link = self.link[slot as usize];
        if link == NULL || link as usize >= self.link.len() || self.storage_idx[link as usize] == NULL {
            proof {
                if self.occupied(link) {
                    assert(!self.is_free(link));
                }
            }
            return false;
        }
        proof {
            assert(!self.is_free(link));
            assert(self.occupied(link));
        }
        let mut cur = self.next[slot as usize];
        let ghost mut j: int = p + 1;
        while cur != NULL
            invariant
                self.wf(),
                l == self.list@,
                l.no_duplicates(),
                0 <= p < l.len(),
                l[p] == slot,
                link == self.link_of(slot),
                self.occupied(link),
                p < j <= l.len(),
                cur == if j < l.len() { l[j] } else { NULL },
                forall|m: int| p < m < j ==> l[m] != link,
                forall|m: int| 0 <= m < l.len() ==> #[trigger] l[m] < self.cap(),
            decreases l.len() - j,
        {
            if cur == link {
                proof {
                    lemma_index_of_nodup(l, j);
                }
                return true;
            }
            proof {
                assert(l[j] < self.cap());
            }
            cur = self.next[cur as usize];
            proof {
                j = j + 1;
            }
        }
        proof {
            let q = l.index_of(link);
            assert(0 <= q < l.len() && l[q] == link);
            assert(q <= p);
        }
        false
    }

    /// Insert a phonon arc: one new vertex right after the listed `left`, another
    /// right before `before_right` (at the end when it is `NULL`), linked to each
    /// other. Each new vertex takes the phonon count of the vertex just before it,
    /// plus one when that vertex opens an arc; every vertex between the two gains a
    /// phonon, and the order grows by one. `None`, with nothing changed, when two
    /// more vertices do not fit.
    pub fn insert_arc_between(&mut self, left: u32, before_right: u32) -> (r: Option<(u32, u32)>)
        requires
            old(self).wf(),
            old(self).occupied(left),
            before_right == NULL || (old(self).occupied(before_right) && old(self).position(left) < old(
                self,
            ).position(before_right)),
            old(self).order_spec() < usize::MAX,
            opens_arc(*old(self), old(self).position(left)) ==> old(self).phonons_of(left) < u32::MAX,
            opens_arc(*old(self), old(self).insertion_point(before_right) - 1) && old(self).insertion_point(before_right)
                > old(self).position(left) + 1 ==> old(self).phonons_of(
                old(self).list()[old(self).insertion_point(before_right) - 1],
            ) < u32::MAX,
            forall|t: u32|
                #[trigger] old(self).list().subrange(old(self).position(left) + 1, old(self).insertion_point(before_right)).contains(t)
                    ==> old(self).phonons_of(t) < u32::MAX,
        ensures
            final(self).wf(),
            final(self).cap() == old(self).cap(),
            r is None <==> old(self).list().len() + 2 > old(self).cap(),
            r is None ==> *final(self) == *old(self),
            r matches Some((a, b)) ==> arc_inserted(
                *old(self),
                *final(self),
                left,
                before_right,
                opens_arc(*old(self), old(self).position(left)),
                opens_arc(*old(self), old(self).insertion_point(before_right) - 1),
                a,
                b,
            ),
            phonons_consistent(*old(self)) ==> phonons_consistent(*final(self)),
    {
        let ghost s0 = *self;
        let ghost l = self.list@;
        let ghost pl = s0.position(left);
        let ghost pb = s0.insertion_point(before_right);
        proof {
            lemma_wf_views(s0);
            lemma_storage_index_of(s0, left);
            if before_right != NULL {
                lemma_storage_index_of(s0, before_right);
            }
        }
        let left_outgoing = self.opens_arc_at(left);
        let right_left = if before_right == NULL {
            self.tail
        } else {
            self.prev[before_right as usize]
        };
        proof {
            assert(right_left == l[pb - 1]);
            assert(l.contains(right_left));
            lemma_index_of_nodup(l, pb - 1);
        }
        let right_left_outgoing = self.opens_arc_at(right_left);
        let r = self.place_arc(left, before_right, left_outgoing, right_left_outgoing);
        proof {
            if let Some((a, b)) = r {
                if phonons_consistent(s0) {
                    lemma_insert_arc_keeps_phonons_consistent(
                        s0,
                        *self,
                        left,
                        before_right,
                        left_outgoing,
                        right_left_outgoing,
                        a,
                        b,
                    );
                }
            }
        }
        r
    }

    /// Place the two ends of a new arc; see `insert_arc_between`.
    #[verifier::rlimit(80)]
    fn place_arc(
        &mut self,
        left: u32,
        before_right: u32,
        left_outgoing: bool,
        right_left_outgoing: bool,
    ) -> (r: Option<(u32, u32)>)
        requires
            old(self).wf(),
            old(self).occupied(left),
            before_right == NULL || (old(self).occupied(before_right) && old(self).position(left) < old(
                self,
            ).position(before_right)),
            old(self).order_spec() < usize::MAX,
            left_outgoing ==> old(self).phonons_of(left) < u32::MAX,
            right_left_outgoing && old(self).insertion_point(before_right) > old(self).position(left) + 1
                ==> old(self).phonons_of(old(self).list()[old(self).insertion_point(before_right) - 1]) < u32::MAX,
            forall|t: u32|
                #[trigger] old(self).list().subrange(old(self).position(left) + 1, old(self).insertion_point(before_right)).contains(t)
                    ==> old(self).phonons_of(t) < u32::MAX,
        ensures
            final(self).wf(),
            final(self).cap() == old(self).cap(),
            r is None <==> old(self).list().len() + 2 > old(self).cap(),
            r is None ==> *final(self) == *old(self),
            r matches Some((a, b)) ==> arc_inserted(
                *old(self),
                *final(self),
                left,
                before_right,
                left_outgoing,
                right_left_outgoing,
                a,
                b,
            ),
    {
        if !self.has_arc_capacity() {
            return None;
        }
        let ghost s0 = *self;
        let ghost l = self.list@;
        let ghost pl = l.index_of(left);
        let ghost pb = s0.insertion_point(before_right);
        proof {
            lemma_storage_index_of(s0, left);
            if before_right != NULL {
                lemma_storage_index_of(s0, before_right);
            }
        }
        let mut phonons1 = self.phonons_above[left as usize];
        if left_outgoing {
            phonons1 = phonons1 + 1;
        }
        let new1 = match self.splice_after(left) {
            Some(slot) => slot,
            None => {
                return None;
            },
        };
        let ghost s1 = *self;
        let ghost l1 = s1.list@;
        proof {
            lemma_index_of_nodup(l1, pl + 1);
            assert(l1[pl + 1] == new1);
        }
        self.set_phonons(new1, phonons1);
        let ghost s2 = *self;
        proof {
            if before_right != NULL {
                assert(l1[pb + 1] == before_right);
                lemma_index_of_nodup(l1, pb + 1);
                lemma_storage_index_of(s1, before_right);
            }
            assert(l1.len() == l.len() + 1);
        }
        let right_left = if before_right == NULL {
            self.tail
        } else {
            self.prev[before_right as usize]
        };
        proof {
            assert(right_left == l1[pb]);
            lemma_index_of_nodup(l1, pb);
            if pb == pl + 1 {
                assert(right_left == new1);
            } else {
                assert(right_left == l[pb - 1]);
                assert(right_left != new1);
                assert(s1.phonons_of(right_left) == s0.phonons_of(right_left));
            }
        }
        let mut phonons2 = self.phonons_above[right_left as usize];
        if right_left != new1 && right_left_outgoing {
            phonons2 = phonons2 + 1;
        }
        let new2 = match self.splice_after(right_left) {
            Some(slot) => slot,
            None => {
                return None;
            },
        };
        let ghost s3 = *self;
        let ghost l2 = s3.list@;
        proof {
            assert(l2 == l1.insert(pb + 1, new2));
            lemma_index_of_nodup(l2, pb + 1);
            lemma_index_of_nodup(l2, pl + 1);
            assert(l2[pl + 1] == new1);
        }
        self.set_phonons(new2, phonons2);
        self.join(new1, new2);
        let ghost s5 = *self;
        proof {
            assert forall|t: u32| t < s0.cap() && t != new1 && t != new2 implies #[trigger] s5.phonons_above@[t as int] == s0.phonons_above@[t as int] by {
                assert(s3.phonons_of(t) == s2.phonons_of(t));
                assert(s1.phonons_of(t) == s0.phonons_of(t));
            }
            assert forall|j: int| pl + 1 < j < pb + 1 implies s5.phonons_above@[#[trigger] l2[j] as int] < u32::MAX by {
                assert(l2[j] == l[j - 1]);
                assert(l.subrange(pl + 1, pb)[j - pl - 2] == l[j - 1]);
                assert(l.subrange(pl + 1, pb).contains(l[j - 1]));
                assert(l[j - 1] != new1 && l[j - 1] != new2);
                assert(s5.phonons_above@[l[j - 1] as int] == s0.phonons_above@[l[j - 1] as int]);
            }
        }
        self.order = self.order + 1;
        self.raise_phonon_between(new1, new2);
        let ghost s6 = *self;
        proof {
            lemma_first_two_free(s0, s1, s2, new1, new2);
            lemma_insert_arc_phonons(s0, s5, s6, l, l2, pl, pb, new1, new2);
            assert(s3.phonons_of(new1) == s2.phonons_of(new1));
            assert(s6.phonons_above@[l2[pl + 1] as int] == s5.phonons_above@[l2[pl + 1] as int]);
            assert forall|t: u32| t < s0.cap() && t != new1 && t != new2 implies #[trigger] self.link_of(t) == s0.link_of(t) by {
                assert(s3.link_of(t) == s2.link_of(t));
                assert(s1.link_of(t) == s0.link_of(t));
            }
        }
        Some((new1, new2))
    }

    /// Turn a two-vertex zeroth-order diagram into the fake first-order one: its two
    /// vertices become the ends of one arc.
    pub fn set_to_fake_order_one(&mut self)
        requires
            old(self).wf(),
            old(self).list().len() == 2,
            old(self).order_spec() == 0,
        ensures
            final(self).wf(),
            final(self).cap() == old(self).cap(),
            final(self).list() == old(self).list(),
            final(self).storage_view() == old(self).storage_view(),
            final(self).order_spec() == 1,
            final(self).link_of(old(self).list()[0]) == old(self).list()[1],
            final(self).link_of(old(self).list()[1]) == old(self).list()[0],
            forall|t: u32|
                t < old(self).cap() && t != old(self).list()[0] && t != old(self).list()[1]
                    ==> #[trigger] final(self).link_of(t) == old(self).link_of(t),
            forall|t: u32| t < old(self).cap() ==> #[trigger] final(self).phonons_of(t) == old(self).phonons_of(t),
            phonons_consistent(*old(self)) ==> phonons_consistent(*final(self)),
    {
        proof {
            assert(self.list@.contains(self.list@[0]));
            assert(self.list@.contains(self.list@[1]));
        }
        let ghost s0 = *self;
        let head = self.head;
        let tail = self.tail;
        self.join(head, tail);
        self.order = 1;
        proof {
            if phonons_consistent(s0) {
                lemma_joined_pair_is_consistent(s0, *self);
            }
        }
    }

    /// Undo the fake first-order diagram: its two vertices lose their arc and their
    /// phonon counts.
    pub fn clear_fake_order_one(&mut self)
        requires
            old(self).wf(),
            old(self).list().len() == 2,
            old(self).order_spec() == 1,
        ensures
            final(self).wf(),
            final(self).cap() == old(self).cap(),
            final(self).list() == old(self).list(),
            final(self).storage_view() == old(self).storage_view(),
            final(self).order_spec() == 0,
            final(self).link_of(old(self).list()[0]) == NULL,
            final(self).link_of(old(self).list()[1]) == NULL,
            final(self).phonons_of(old(self).list()[0]) == 0,
            final(self).phonons_of(old(self).list()[1]) == 0,
            forall|t: u32|
                t < old(self).cap() && t != old(self).list()[0] && t != old(self).list()[1]
                    ==> #[trigger] final(self).link_of(t) == old(self).link_of(t)
                    && final(self).phonons_of(t) == old(self).phonons_of(t),
            phonons_consistent(*final(self)),
    {
        proof {
            lemma_storage_index_of(*self, self.list@[0]);
            lemma_storage_index_of(*self, self.list@[1]);
        }
        let head = self.head;
        let tail = self.tail;
        self.link.set(head as usize, NULL);
        self.link.set(tail as usize, NULL);
        self.phonons_above.set(head as usize, 0);
        self.phonons_above.set(tail as usize, 0);
        self.order = 0;
        proof {
            lemma_unlinked_is_consistent(*self);
        }
    }

    /// Exchange the partners of the occupied slots `i` and `j`: `i` takes `j`'s
    /// partner and `j` takes `i`'s, and the partners point back accordingly.
    pub fn swap_arc_connectivity(&mut self, i: u32, j: u32)
        requires
            old(self).wf(),
            old(self).occupied(i),
            old(self).occupied(j),
            old(self).occupied(old(self).link_of(i)),
            old(self).occupied(old(self).link_of(j)),
        ensures
            final(self).wf(),
            final(self).cap() == old(self).cap(),
            final(self).list() == old(self).list(),
            final(self).storage_view() == old(self).storage_view(),
            final(self).order_spec() == old(self).order_spec(),
            final(self).links() == old(self).links().update(i as int, old(self).link_of(j)).update(
                j as int,
                old(self).link_of(i),
            ).update(old(self).link_of(j) as int, i).update(old(self).link_of(i) as int, j),
            forall|t: u32| t < old(self).cap() ==> #[trigger] final(self).phonons_of(t) == old(self).phonons_of(t),
    {
        proof {
            lemma_storage_index_of(*self, i);
            lemma_storage_index_of(*self, j);
            lemma_storage_index_of(*self, self.link@[i as int]);
            lemma_storage_index_of(*self, self.link@[j as int]);
        }
        let link_i = self.link[i as usize];
        let link_j = self.link[j as usize];
        self.link.set(i as usize, link_j);
        self.link.set(j as usize, link_i);
        self.link.set(link_j as usize, i);
        self.link.set(link_i as usize, j);
    }

    /// The zeroth-order diagram: two unlinked vertices in slots 0 and 1, every other
    /// slot free.
    pub open spec fn is_zeroth_order(&self) -> bool {
        &&& self.list() == seq![0u32, 1u32]
        &&& self.storage_view() == seq![0u32, 1u32]
        &&& self.order_spec() == 0
        &&& forall|s: u32| s < self.cap() ==> #[trigger] self.link_of(s) == NULL && self.phonons_of(s) == 0
    }

    /// Storage, links and counters all cleared.
    fn clear_storage(&mut self)
        requires
            old(self).wf(),
        ensures
            final(self).cap() == old(self).cap(),
            final(self).storage@.len() == 0,
            final(self).link@.len() == old(self).link@.len(),
            final(self).prev@.len() == old(self).prev@.len(),
            final(self).next@.len() == old(self).next@.len(),
            final(self).storage_idx@.len() == old(self).storage_idx@.len(),
            final(self).phonons_above@.len() == old(self).phonons_above@.len(),
            forall|s: int| 0 <= s < old(self).cap() ==> #[trigger] final(self).storage_idx@[s] == NULL,
            forall|s: int| 0 <= s < old(self).cap() ==> #[trigger] final(self).link@[s] == NULL,
            forall|s: int| 0 <= s < old(self).cap() ==> #[trigger] final(self).prev@[s] == NULL,
            forall|s: int| 0 <= s < old(self).cap() ==> #[trigger] final(self).next@[s] == NULL,
            forall|s: int| 0 <= s < old(self).cap() ==> #[trigger] final(self).phonons_above@[s] == 0,
            final(self).order == old(self).order,
    {
        self.storage.clear();
        let cap = self.link.len();
        let mut s: usize = 0;
        while s < cap
            invariant
                cap == self.link@.len(),
                self.prev@.len() == cap,
                self.next@.len() == cap,
                self.storage_idx@.len() == cap,
                self.phonons_above@.len() == cap,
                self.storage@.len() == 0,
                self.order == old(self).order,
                s <= cap,
                forall|t: int| 0 <= t < s ==> #[trigger] self.storage_idx@[t] == NULL,
                forall|t: int| 0 <= t < s ==> #[trigger] self.link@[t] == NULL,
                forall|t: int| 0 <= t < s ==> #[trigger] self.prev@[t] == NULL,
                forall|t: int| 0 <= t < s ==> #[trigger] self.next@[t] == NULL,
                forall|t: int| 0 <= t < s ==> #[trigger] self.phonons_above@[t] == 0,
            decreases cap - s,
        {
            self.storage_idx.set(s, NULL);
            self.link.set(s, NULL);
            self.prev.set(s, NULL);
            self.next.set(s, NULL);
            self.phonons_above.set(s, 0);
            s = s + 1;
        }
    }

    /// Append an occupied slot to the storage list.
    fn push_storage(&mut self, slot: u32)
        requires
            slot < old(self).cap(),
            old(self).storage@.len() < old(self).cap(),
            old(self).storage_idx@.len() == old(self).cap(),
            old(self).cap() < NULL,
        ensures
            final(self).storage@ == old(self).storage@.push(slot),
            final(self).storage_idx@ == old(self).storage_idx@.update(slot as int, old(self).storage@.len() as u32),
            final(self).link@ == old(self).link@,
            final(self).prev@ == old(self).prev@,
            final(self).next@ == old(self).next@,
            final(self).phonons_above@ == old(self).phonons_above@,
            final(self).head == old(self).head,
            final(self).tail == old(self).tail,
            final(self).order == old(self).order,
            final(self).list == old(self).list,
    {
        let idx = self.storage.len() as u32;
        self.storage.push(slot);
        self.storage_idx.set(slot as usize, idx);
    }

    /// The zeroth-order topology for `max_order_gpu`: `2 * max_order_gpu + 2` slots.
    pub fn with_capacity(max_order_gpu: usize) -> (r: Self)
        requires
            2 * max_order_gpu + 2 < NULL,
        ensures
            r.wf(),
            r.cap() == 2 * max_order_gpu + 2,
            r.is_zeroth_order(),
            phonons_consistent(r),
    {
        let capacity = 2 * max_order_gpu + 2;
        let mut r = FlatTopology {
            link: vec![NULL; capacity],
            prev: vec![NULL; capacity],
            next: vec![NULL; capacity],
            storage_idx: vec![NULL; capacity],
            phonons_above: vec![0; capacity],
            storage: Vec::new(),
            head: NULL,
            tail: NULL,
            order: 0,
            list: Ghost(Seq::empty()),
        };
        assert(r.wf());
        r.set_to_0th_order();
        r
    }

    /// Reset to the zeroth-order diagram.
    pub fn set_to_0th_order(&mut self)
        requires
            old(self).wf(),
            old(self).cap() >= 2,
        ensures
            final(self).wf(),
            final(self).cap() == old(self).cap(),
            final(self).is_zeroth_order(),
            phonons_consistent(*final(self)),
    {
        self.clear_storage();
        self.order = 0;
        self.head = 0;
        self.tail = 1;
        self.next.set(0, 1);
        self.prev.set(1, 0);
        self.push_storage(0);
        self.push_storage(1);
        let ghost l = seq![0u32, 1u32];
        self.list = Ghost(l);
        proof {
            let cap = self.link@.len();
            assert(self.storage@ =~= seq![0u32, 1u32]);
            assert(self.list@.no_duplicates());
            assert(self.storage_idx@[0] == 0);
            assert(self.storage_idx@[1] == 1);
            assert forall|t: int| 0 <= t < cap implies #[trigger] self.link@[t] == NULL && self.phonons_above@[t] == 0 by {
            }
            assert forall|t: int| 0 <= t < cap && #[trigger] self.storage_idx@[t] == NULL implies {
                &&& self.link@[t] == NULL
                &&& self.prev@[t] == NULL
                &&& self.next@[t] == NULL
                &&& self.phonons_above@[t] == 0
            } by {
                assert(t != 0 && t != 1);
            }
            assert forall|t: int| 0 <= t < cap && #[trigger] self.storage_idx@[t] != NULL implies {
                &&& self.storage_idx@[t] < 2
                &&& self.storage@[self.storage_idx@[t] as int] == t
            } by {
                assert(t == 0 || t == 1);
            }
            assert forall|i: int| 0 <= i < 2 implies #[trigger] self.next@[self.list@[i] as int] == if i + 1 < 2 {
                self.list@[i + 1]
            } else {
                NULL
            } by {
                if i == 1 {
                    assert(self.next@[1] == NULL);
                }
            }
            assert forall|i: int| 0 <= i < 2 implies #[trigger] self.prev@[self.list@[i] as int] == if i > 0 {
                self.list@[i - 1]
            } else {
                NULL
            } by {
                if i == 0 {
                    assert(self.prev@[0] == NULL);
                }
            }
            assert(self.wf());
            lemma_unlinked_is_consistent(*self);
        }
    }

    /// Occupied slots in time order.
    pub fn ordered_slots(&self) -> (r: Vec<u32>)
        requires
            self.wf(),
        ensures
            r@ == self.list(),
    {
        let mut slots: Vec<u32> = Vec::new();
        let mut slot = self.head;
        let ghost l = self.list@;
        while slot != NULL
            invariant
                self.wf(),
                l == self.list@,
                slots@.len() <= l.len(),
                slots@ == l.take(slots@.len() as int),
                slot == if slots@.len() < l.len() { l[slots@.len() as int] } else { NULL },
            decreases l.len() - slots@.len(),
        {
            let ghost k = slots@.len() as int;
            slots.push(slot);
            slot = self.next[slot as usize];
            assert(slots@ =~= l.take(k + 1));
        }
        assert(slots@ =~= l);
        slots
    }

    /// Number of slots.
    pub fn capacity(&self) -> (r: usize)
        ensures
            r == self.cap(),
    {
        self.link.len()
    }

    /// Number of occupied slots.
    pub fn vertex_count(&self) -> (r: usize)
        requires
            self.wf(),
        ensures
            r == self.list().len(),
    {
        self.storage.len()
    }

    /// Whether two more vertices fit.
    pub fn has_arc_capacity(&self) -> (r: bool)
        requires
            self.wf(),
        ensures
            r == (self.list().len() + 2 <= self.cap()),
    {
        self.link.len() >= 2 && self.storage.len() <= self.link.len() - 2
    }

    pub fn head(&self) -> (r: u32)
        ensures
            self.wf() ==> r == if self.list().len() > 0 { self.list()[0] } else { NULL },
            r == self.head_slot(),
    {
        self.head
    }

    pub fn tail(&self) -> (r: u32)
        ensures
            self.wf() ==> r == if self.list().len() > 0 { self.list().last() } else { NULL },
            r == self.tail_slot(),
    {
        self.tail
    }

    pub fn order(&self) -> (r: usize)
        ensures
            r == self.order_spec(),
    {
        self.order
    }

    /// The slot after a listed slot, `NULL` after the tail.
    pub fn next(&self, slot: u32) -> (r: u32)
        requires
            self.wf(),
            self.occupied(slot),
        ensures
            self.position(slot) + 1 < self.list().len() ==> r == self.list()[self.position(slot) + 1],
            self.position(slot) + 1 == self.list().len() ==> r == NULL,
    {
        self.next[slot as usize]
    }

    /// The slot before a listed slot, `NULL` before the head.
    pub fn prev(&self, slot: u32) -> (r: u32)
        requires
            self.wf(),
            self.occupied(slot),
        ensures
            self.position(slot) > 0 ==> r == self.list()[self.position(slot) - 1],
            self.position(slot) == 0 ==> r == NULL,
    {
        self.prev[slot as usize]
    }

    pub fn link(&self, slot: u32) -> (r: u32)
        requires
            slot < self.cap(),
        ensures
            r == self.link_of(slot),
    {
        self.link[slot as usize]
    }

    pub fn phonons_above(&self, slot: u32) -> (r: u32)
        requires
            self.wf(),
            slot < self.cap(),
        ensures
            r == self.phonons_of(slot),
    {
        self.phonons_above[slot as usize]
    }

    pub fn storage_index(&self, slot: u32) -> (r: u32)
        requires
            self.wf(),
            slot < self.cap(),
        ensures
            r == self.slot_index(slot),
    {
        self.storage_idx[slot as usize]
    }

    pub fn storage(&self) -> (r: &[u32])
        ensures
            r@ == self.storage_view(),
    {
        self.storage.as_slice()
    }
}

proof fn lemma_insert_no_duplicates(l: Seq<u32>, k: int, x: u32)
    requires
        l.no_duplicates(),
        !l.contains(x),
        0 <= k <= l.len(),
    ensures
        l.insert(k, x).no_duplicates(),
        l.insert(k, x).len() == l.len() + 1,
{
    let nl = l.insert(k, x);
    assert forall|i: int, j: int| 0 <= i < nl.len() && 0 <= j < nl.len() && i != j implies nl[i] != nl[j] by {
        if i == k {
            assert(l.contains(nl[j]));
        } else if j == k {
            assert(l.contains(nl[i]));
        }
    }
}

proof fn lemma_storage_push(storage: Seq<u32>, sidx: Seq<u32>, nstorage: Seq<u32>, nsidx: Seq<u32>, slot: u32)
    requires
        sidx.len() < NULL,
        storage.len() < sidx.len(),
        slot < sidx.len(),
        sidx[slot as int] == NULL,
        nstorage == storage.push(slot),
        nsidx == sidx.update(slot as int, storage.len() as u32),
        forall|i: int| 0 <= i < storage.len() ==> #[trigger] storage[i] < sidx.len() && sidx[storage[i] as int] == i,
        forall|s: int| 0 <= s < sidx.len() && #[trigger] sidx[s] != NULL ==> {
            &&& sidx[s] < storage.len()
            &&& storage[sidx[s] as int] == s
        },
    ensures
        forall|i: int| 0 <= i < nstorage.len() ==> #[trigger] nstorage[i] < nsidx.len() && nsidx[nstorage[i] as int] == i,
        forall|s: int| 0 <= s < nsidx.len() && #[trigger] nsidx[s] != NULL ==> {
            &&& nsidx[s] < nstorage.len()
            &&& nstorage[nsidx[s] as int] == s
        },
{
    assert forall|i: int| 0 <= i < nstorage.len() implies #[trigger] nstorage[i] < nsidx.len() && nsidx[nstorage[i] as int] == i by {
        if i < storage.len() {
            assert(storage[i] != slot);
        }
    }
    assert forall|s: int| 0 <= s < nsidx.len() && #[trigger] nsidx[s] != NULL implies {
        &&& nsidx[s] < nstorage.len()
        &&& nstorage[nsidx[s] as int] == s
    } by {
        if s != slot {
            assert(sidx[s] != NULL);
        }
    }
}

proof fn lemma_splice_free_clear(old: FlatTopology, new: FlatTopology, slot: u32, left: u32, right: u32)
    requires
        old.wf(),
        slot < old.cap(),
        left < old.cap(),
        old.storage_idx@[slot as int] == NULL,
        old.storage_idx@[left as int] != NULL,
        right != NULL ==> right < old.cap() && old.storage_idx@[right as int] != NULL,
        new.link@ == old.link@,
        new.phonons_above@ == old.phonons_above@,
        new.storage_idx@ == old.storage_idx@.update(slot as int, old.storage@.len() as u32),
        right != NULL ==> new.prev@ == old.prev@.update(slot as int, left).update(right as int, slot),
        right == NULL ==> new.prev@ == old.prev@.update(slot as int, left),
        new.next@ == old.next@.update(slot as int, right).update(left as int, slot),
    ensures
        forall|s: int| 0 <= s < new.storage_idx@.len() && #[trigger] new.storage_idx@[s] == NULL ==> {
            &&& new.link@[s] == NULL
            &&& new.prev@[s] == NULL
            &&& new.next@[s] == NULL
            &&& new.phonons_above@[s] == 0
        },
{
    assert forall|s: int| 0 <= s < new.storage_idx@.len() && #[trigger] new.storage_idx@[s] == NULL implies {
        &&& new.link@[s] == NULL
        &&& new.prev@[s] == NULL
        &&& new.next@[s] == NULL
        &&& new.phonons_above@[s] == 0
    } by {
        assert(s != slot);
        assert(old.storage_idx@[s] == NULL);
        assert(s != left);
        if right != NULL {
            assert(s != right);
        }
    }
}

proof fn lemma_splice_list_covers(old: FlatTopology, new: FlatTopology, l: Seq<u32>, nl: Seq<u32>, p: int, slot: u32)
    requires
        old.wf(),
        l == old.list@,
        0 <= p < l.len(),
        nl == l.insert(p + 1, slot),
        !l.contains(slot),
        slot < old.cap(),
        new.link@.len() == old.link@.len(),
        new.storage_idx@ == old.storage_idx@.update(slot as int, old.storage@.len() as u32),
    ensures
        forall|i: int| 0 <= i < nl.len() ==> #[trigger] nl[i] < new.link@.len() && new.storage_idx@[nl[i] as int] != NULL,
{
    assert forall|i: int| 0 <= i < nl.len() implies #[trigger] nl[i] < new.link@.len() && new.storage_idx@[nl[i] as int] != NULL by {
        if i != p + 1 {
            let j = if i < p + 1 { i } else { i - 1 };
            assert(nl[i] == l[j]);
            assert(old.storage_idx@[l[j] as int] != NULL);
        }
    }
}

proof fn lemma_splice_chained(old: FlatTopology, new: FlatTopology, l: Seq<u32>, nl: Seq<u32>, p: int, slot: u32, left: u32, right: u32)
    requires
        old.wf(),
        l == old.list@,
        0 <= p < l.len(),
        l[p] == left,
        nl == l.insert(p + 1, slot),
        !l.contains(slot),
        slot < old.cap(),
        p + 1 < l.len() ==> right == l[p + 1],
        p + 1 == l.len() ==> right == NULL,
        right != NULL ==> new.prev@ == old.prev@.update(slot as int, left).update(right as int, slot),
        right == NULL ==> new.prev@ == old.prev@.update(slot as int, left),
        new.next@ == old.next@.update(slot as int, right).update(left as int, slot),
        new.head == old.head,
        right == NULL ==> new.tail == slot,
        right != NULL ==> new.tail == old.tail,
    ensures
        forall|i: int| 0 <= i < nl.len() ==> #[trigger] new.next@[nl[i] as int] == if i + 1 < nl.len() {
            nl[i + 1]
        } else {
            NULL
        },
        forall|i: int| 0 <= i < nl.len() ==> #[trigger] new.prev@[nl[i] as int] == if i > 0 {
            nl[i - 1]
        } else {
            NULL
        },
        new.head == nl[0],
        new.tail == nl.last(),
{
    assert(l.contains(left));
    assert(slot != left);
    if right != NULL {
        assert(l.contains(right));
        assert(slot != right);
        assert(right != left);
    }
    assert forall|i: int| 0 <= i < nl.len() implies #[trigger] new.next@[nl[i] as int] == if i + 1 < nl.len() {
        nl[i + 1]
    } else {
        NULL
    } by {
        if i < p {
            assert(nl[i] == l[i]);
            assert(l[i] != left);
            assert(l[i] != slot);
            assert(old.next@[l[i] as int] == l[i + 1]);
            assert(nl[i + 1] == l[i + 1]);
        } else if i == p {
            assert(nl[i] == left);
            assert(nl[i + 1] == slot);
        } else if i == p + 1 {
            assert(nl[i] == slot);
            if p + 1 < l.len() {
                assert(nl[i + 1] == l[p + 1]);
            }
        } else {
            assert(nl[i] == l[i - 1]);
            assert(l[i - 1] != left);
            assert(l[i - 1] != slot);
            assert(old.next@[l[i - 1] as int] == if i < l.len() { l[i] } else { NULL });
            if i + 1 < nl.len() {
                assert(nl[i + 1] == l[i]);
            }
        }
    }
    assert forall|i: int| 0 <= i < nl.len() implies #[trigger] new.prev@[nl[i] as int] == if i > 0 {
        nl[i - 1]
    } else {
        NULL
    } by {
        if i <= p {
            assert(nl[i] == l[i]);
            assert(l[i] != slot);
            if right != NULL {
                assert(l[i] != right);
            }
            assert(old.prev@[l[i] as int] == if i > 0 { l[i - 1] } else { NULL });
            if i > 0 {
                assert(nl[i - 1] == l[i - 1]);
            }
        } else if i == p + 1 {
            assert(nl[i] == slot);
            assert(nl[i - 1] == left);
        } else if i == p + 2 {
            assert(nl[i] == l[p + 1]);
            assert(nl[i] == right);
            assert(nl[i - 1] == slot);
        } else {
            assert(nl[i] == l[i - 1]);
            assert(l[i - 1] != slot);
            assert(l[i - 1] != right);
            assert(old.prev@[l[i - 1] as int] == l[i - 2]);
            assert(nl[i - 1] == l[i - 2]);
        }
    }
    if p == 0 {
        assert(nl[0] == l[0]);
    }
}

/// Well-formedness of a topology given by its arrays: equal lengths below `NULL`,
/// `storage` and `storage_idx` inverse to each other, free slots cleared, and
/// `list` a duplicate-free listing of the stored slots chained by `prev`/`next`
/// from `head` to `tail`.
pub closed spec fn layout_wf(
    link: Seq<u32>,
    prev: Seq<u32>,
    next: Seq<u32>,
    storage_idx: Seq<u32>,
    phonons: Seq<u32>,
    storage: Seq<u32>,
    head: u32,
    tail: u32,
    list: Seq<u32>,
) -> bool {
    let cap = link.len();
    let n = storage.len();
    let l = list;
    &&& prev.len() == cap
    &&& next.len() == cap
    &&& storage_idx.len() == cap
    &&& phonons.len() == cap
    &&& cap < NULL
    &&& n <= cap
    &&& forall|i: int| 0 <= i < n ==> #[trigger] storage[i] < cap && storage_idx[storage[i] as int] == i
    &&& forall|s: int| 0 <= s < cap && #[trigger] storage_idx[s] != NULL ==> {
        &&& storage_idx[s] < n
        &&& storage[storage_idx[s] as int] == s
    }
    &&& forall|s: int| 0 <= s < cap && #[trigger] storage_idx[s] == NULL ==> {
        &&& link[s] == NULL
        &&& prev[s] == NULL
        &&& next[s] == NULL
        &&& phonons[s] == 0
    }
    &&& l.len() == n
    &&& l.no_duplicates()
    &&& forall|i: int| 0 <= i < l.len() ==> #[trigger] l[i] < cap && storage_idx[l[i] as int] != NULL
    &&& l.len() == 0 ==> head == NULL && tail == NULL
    &&& l.len() > 0 ==> head == l[0] && tail == l.last()
    &&& forall|i: int| 0 <= i < l.len() ==> #[trigger] next[l[i] as int] == if i + 1 < l.len() {
        l[i + 1]
    } else {
        NULL
    }
    &&& forall|i: int| 0 <= i < l.len() ==> #[trigger] prev[l[i] as int] == if i > 0 {
        l[i - 1]
    } else {
        NULL
    }
}

/// `after` is `before` with a new arc inserted whose ends `a` and `b` sit right
/// after `left` and right before `before_right` (at the end when it is `NULL`): they
/// are the two lowest free slots, they point to each other, each takes the phonon
/// count of the vertex before it plus one when that vertex opens an arc, the
/// vertices between them gain a phonon, and the order grows by one.
pub open spec fn arc_inserted(
    before: FlatTopology,
    after: FlatTopology,
    left: u32,
    before_right: u32,
    left_outgoing: bool,
    right_left_outgoing: bool,
    a: u32,
    b: u32,
) -> bool {
    let l = before.list();
    let pl = before.position(left);
    let pb = before.insertion_point(before_right);
    let ph_a = before.phonons_of(left) + if left_outgoing { 1int } else { 0int };
    &&& before.first_two_free(a, b)
    &&& after.cap() == before.cap()
    &&& after.list() == l.insert(pl + 1, a).insert(pb + 1, b)
    &&& after.storage_view() == before.storage_view().push(a).push(b)
    &&& after.order_spec() == before.order_spec() + 1
    &&& after.link_of(a) == b
    &&& after.link_of(b) == a
    &&& after.phonons_of(a) == ph_a
    &&& after.phonons_of(b) == if pb == pl + 1 {
        ph_a
    } else {
        before.phonons_of(l[pb - 1]) + if right_left_outgoing { 1int } else { 0int }
    }
    &&& forall|t: u32| t < before.cap() && t != a && t != b ==> #[trigger] after.link_of(t) == before.link_of(t)
    &&& forall|t: u32|
        t < before.cap() && t != a && t != b ==> #[trigger] after.phonons_of(t) == before.phonons_of(t) + if l.subrange(
            pl + 1,
            pb,
        ).contains(t) {
            1int
        } else {
            0int
        }
}

/// `after` is `before` without the arc joining `left` and `right`: both ends leave
/// the list and storage and are cleared, the vertices between them lose a phonon,
/// and the order drops by one.
pub open spec fn arc_removed(before: FlatTopology, after: FlatTopology, left: u32, right: u32) -> bool {
    &&& after.cap() == before.cap()
    &&& after.list() == before.list().remove(before.position(right)).remove(before.position(left))
    &&& after.storage_view() == unlinked_storage(unlinked_storage(before.storage_view(), left), right)
    &&& after.order_spec() == before.order_spec() - 1
    &&& forall|t: u32| t < before.cap() && t != left && t != right ==> #[trigger] after.link_of(t) == before.link_of(t)
    &&& forall|t: u32|
        t < before.cap() && t != left && t != right ==> #[trigger] after.phonons_of(t) == before.phonons_of(t)
            - if before.inner_slots(left, right).contains(t) {
            1int
        } else {
            0int
        }
    &&& after.link_of(left) == NULL
    &&& after.link_of(right) == NULL
    &&& after.phonons_of(left) == 0
    &&& after.phonons_of(right) == 0
}

/// The arc just inserted can be removed: its ends are listed in time order, point
/// to each other, and every vertex between them has a phonon above it.
pub proof fn lemma_inserted_arc_is_removable(
    t0: FlatTopology,
    t1: FlatTopology,
    left: u32,
    before_right: u32,
    left_outgoing: bool,
    right_left_outgoing: bool,
    a: u32,
    b: u32,
)
    requires
        t0.wf(),
        t1.wf(),
        t0.occupied(left),
        before_right == NULL || (t0.occupied(before_right) && t0.position(left) < t0.position(before_right)),
        arc_inserted(t0, t1, left, before_right, left_outgoing, right_left_outgoing, a, b),
    ensures
        t1.occupied(a),
        t1.occupied(b),
        a != b,
        t1.position(a) < t1.position(b),
        t1.first_end(a, b) == a,
        t1.last_end(a, b) == b,
        t1.link_of(a) == b,
        t1.link_of(b) == a,
        t1.order_spec() >= 1,
        forall|t: u32| #[trigger] t1.inner_slots(a, b).contains(t) ==> t1.phonons_of(t) >= 1,
        !t0.occupied(a),
        !t0.occupied(b),
        t1.position(a) == t0.position(left) + 1,
        t1.position(b) == t0.insertion_point(before_right) + 1,
        t1.inner_slots(a, b) == t0.list().subrange(t0.position(left) + 1, t0.insertion_point(before_right)),
{
    let l = t0.list@;
    let pl = t0.position(left);
    let pb = t0.insertion_point(before_right);
    let l2 = t1.list@;
    lemma_storage_index_of(t0, left);
    if before_right != NULL {
        lemma_storage_index_of(t0, before_right);
    }
    assert(!l.contains(a)) by {
        if l.contains(a) {
            let i = choose|i: int| 0 <= i < l.len() && l[i] == a;
            assert(t0.storage_idx@[l[i] as int] != NULL);
        }
    }
    assert(!l.contains(b)) by {
        if l.contains(b) {
            let i = choose|i: int| 0 <= i < l.len() && l[i] == b;
            assert(t0.storage_idx@[l[i] as int] != NULL);
        }
    }
    assert(l2[pl + 1] == a);
    assert(l2[pb + 1] == b);
    lemma_index_of_nodup(l2, pl + 1);
    lemma_index_of_nodup(l2, pb + 1);
    let inner = l.subrange(pl + 1, pb);
    assert(t1.inner_slots(a, b) =~= inner);
    assert forall|t: u32| #[trigger] t1.inner_slots(a, b).contains(t) implies t1.phonons_of(t) >= 1 by {
        let i = choose|i: int| 0 <= i < inner.len() && inner[i] == t;
        assert(l[pl + 1 + i] == t);
        assert(t < t0.cap());
    }
}

/// Removing the arc that was just inserted gives back the diagram it was inserted
/// into: the same vertices in the same time order, the same storage list and
/// storage indices, the same links, phonon counts and order.
pub proof fn lemma_remove_arc_undoes_insert(
    t0: FlatTopology,
    t1: FlatTopology,
    t2: FlatTopology,
    left: u32,
    before_right: u32,
    left_outgoing: bool,
    right_left_outgoing: bool,
    a: u32,
    b: u32,
)
    requires
        t0.wf(),
        t1.wf(),
        t2.wf(),
        t0.occupied(left),
        before_right == NULL || (t0.occupied(before_right) && t0.position(left) < t0.position(before_right)),
        arc_inserted(t0, t1, left, before_right, left_outgoing, right_left_outgoing, a, b),
        arc_removed(t1, t2, a, b),
    ensures
        t2.list() == t0.list(),
        t2.storage_view() == t0.storage_view(),
        t2.links() == t0.links(),
        forall|t: u32| t < t0.cap() ==> #[trigger] t2.phonons_of(t) == t0.phonons_of(t),
        forall|t: u32| t < t0.cap() ==> #[trigger] t2.slot_index(t) == t0.slot_index(t),
        t2.order_spec() == t0.order_spec(),
{
    lemma_inserted_arc_is_removable(t0, t1, left, before_right, left_outgoing, right_left_outgoing, a, b);
    let l = t0.list@;
    let pl = t0.position(left);
    let pb = t0.insertion_point(before_right);
    let l2 = t1.list@;
    let inner = l.subrange(pl + 1, pb);
    assert(l2[pl + 1] == a);
    assert(l2[pb + 1] == b);
    assert(l2.remove(pb + 1).remove(pl + 1) =~= l);
    // storage
    let st = t0.storage@;
    let n = st.len() as int;
    lemma_storage_no_duplicates(t1);
    lemma_index_of_nodup(t1.storage@, n);
    assert(t1.storage@[n] == a);
    let st1 = unlinked_storage(t1.storage@, a);
    assert(st1 =~= st.push(b));
    lemma_storage_no_duplicates(t0);
    lemma_free_iff_unstored(t0, b);
    assert(st.push(b).no_duplicates()) by {
        assert forall|i: int, j: int| 0 <= i < n + 1 && 0 <= j < n + 1 && i != j implies st.push(b)[i] != st.push(b)[j] by {
            if i == n {
                assert(st.contains(st[j]));
            } else if j == n {
                assert(st.contains(st[i]));
            }
        }
    }
    lemma_index_of_nodup(st.push(b), n);
    assert(unlinked_storage(st1, b) =~= st);
    // links and phonons
    assert(t0.is_free(a));
    assert(t0.is_free(b));
    assert(t2.links() =~= t0.links()) by {
        assert forall|k: int| 0 <= k < t0.cap() implies t2.link@[k] == t0.link@[k] by {
            let t = k as u32;
            if t != a && t != b {
                assert(t2.link_of(t) == t1.link_of(t));
                assert(t1.link_of(t) == t0.link_of(t));
            }
        }
    }
    assert forall|t: u32| t < t0.cap() implies #[trigger] t2.phonons_of(t) == t0.phonons_of(t) by {
        if t != a && t != b {
            assert(t2.phonons_of(t) == t1.phonons_of(t) - if t1.inner_slots(a, b).contains(t) { 1int } else { 0int });
            assert(t1.phonons_of(t) == t0.phonons_of(t) + if inner.contains(t) { 1int } else { 0int });
        }
    }
    assert forall|t: u32| t < t0.cap() implies #[trigger] t2.slot_index(t) == t0.slot_index(t) by {
        lemma_free_iff_unstored(t0, t);
        lemma_free_iff_unstored(t2, t);
        if t0.storage@.contains(t) {
            let i = choose|i: int| 0 <= i < n && st[i] == t;
            assert(t0.storage_idx@[st[i] as int] == i);
            assert(t2.storage@[i] == t);
            assert(t2.storage_idx@[t2.storage@[i] as int] == i);
        }
    }
}

proof fn lemma_storage_no_duplicates(t: FlatTopology)
    requires
        t.wf(),
    ensures
        t.storage@.no_duplicates(),
{
    assert forall|i: int, j: int| 0 <= i < t.storage@.len() && 0 <= j < t.storage@.len() && i != j implies t.storage@[i] != t.storage@[j] by {
        assert(t.storage_idx@[t.storage@[i] as int] == i);
        assert(t.storage_idx@[t.storage@[j] as int] == j);
    }
}

/// What well-formedness says of the views: the list holds distinct slots below
/// the capacity, a listed slot is not free, and a slot outside the list has no
/// partner and no phonon count.
pub proof fn lemma_wf_views(t: FlatTopology)
    requires
        t.wf(),
    ensures
        t.list().no_duplicates(),
        t.list().len() <= t.cap(),
        t.cap() < NULL,
        forall|i: int| 0 <= i < t.list().len() ==> #[trigger] t.list()[i] < t.cap(),
        forall|s: u32| #[trigger] t.occupied(s) ==> !t.is_free(s) && s < t.cap(),
        forall|s: u32| s < t.cap() && !#[trigger] t.occupied(s) ==> t.link_of(s) == NULL && t.phonons_of(s) == 0 && t.is_free(s),
        forall|i: int| 0 <= i < t.list().len() ==> t.position(#[trigger] t.list()[i]) == i,
        t.links().len() == t.cap(),
        t.prevs().len() == t.cap(),
        t.nexts().len() == t.cap(),
        t.storage_indices().len() == t.cap(),
        t.phonon_counts().len() == t.cap(),
        t.storage_view().len() == t.list().len(),
{
    assert forall|s: u32| #[trigger] t.occupied(s) implies !t.is_free(s) && s < t.cap() by {
        let i = choose|i: int| 0 <= i < t.list@.len() && t.list@[i] == s;
        assert(t.storage_idx@[t.list@[i] as int] != NULL);
    }
    assert forall|s: u32| s < t.cap() && !#[trigger] t.occupied(s) implies t.link_of(s) == NULL && t.phonons_of(s) == 0 && t.is_free(s) by {
        if t.storage_idx@[s as int] != NULL {
            let k = t.storage_idx@[s as int] as int;
            assert(t.storage@[k] == s);
            // every stored slot is listed
            lemma_stored_is_listed(t, s);
        }
    }
    assert forall|i: int| 0 <= i < t.list().len() implies t.position(#[trigger] t.list()[i]) == i by {
        lemma_index_of_nodup(t.list@, i);
    }
}

/// What well-formedness says of the raw arrays: storage and storage indices are
/// inverse, `next` and `prev` chain the listed slots in order, and head and tail
/// are the ends of the list.
pub proof fn lemma_wf_arrays(t: FlatTopology)
    requires
        t.wf(),
    ensures
        forall|i: int|
            0 <= i < t.storage_view().len() ==> #[trigger] t.storage_view()[i] < t.cap()
                && t.storage_indices()[t.storage_view()[i] as int] == i,
        forall|s: int|
            0 <= s < t.cap() && #[trigger] t.storage_indices()[s] != NULL ==> t.storage_indices()[s]
                < t.storage_view().len() && t.storage_view()[t.storage_indices()[s] as int] == s,
        forall|i: int|
            0 <= i < t.list().len() ==> #[trigger] t.nexts()[t.list()[i] as int] == if i + 1 < t.list().len() {
                t.list()[i + 1]
            } else {
                NULL
            },
        forall|i: int|
            0 <= i < t.list().len() ==> #[trigger] t.prevs()[t.list()[i] as int] == if i > 0 {
                t.list()[i - 1]
            } else {
                NULL
            },
        forall|i: int| 0 <= i < t.list().len() ==> #[trigger] t.storage_indices()[t.list()[i] as int] != NULL,
        t.list().len() > 0 ==> t.head_slot() == t.list()[0] && t.tail_slot() == t.list().last(),
{
}

/// The `links` and `phonon_counts` views hold the partner and phonon count of
/// each slot.
pub proof fn lemma_link_and_phonon_views(t: FlatTopology, slot: u32)
    ensures
        t.links()[slot as int] == t.link_of(slot),
        t.phonon_counts()[slot as int] == t.phonons_of(slot),
{
}

/// A stored slot is listed: the list and the storage hold the same slots.
proof fn lemma_stored_is_listed(t: FlatTopology, s: u32)
    requires
        t.wf(),
        s < t.cap(),
        t.storage_idx@[s as int] != NULL,
    ensures
        t.list@.contains(s),
{
    let l = t.list@;
    let n = l.len() as int;
    let st = t.storage@;
    if !l.contains(s) {
        // The listed slots are n distinct stored slots other than s, yet only n
        // slots are stored.
        let f = |i: int| t.storage_idx@[l[i] as int] as int;
        let x = set_int_range(0, n);
        let y = x.map(f);
        vstd::set_lib::lemma_int_range(0, n);
        assert forall|i: int, j: int| x.contains(i) && x.contains(j) && f(i) == f(j) implies i == j by {
            assert(st[t.storage_idx@[l[i] as int] as int] == l[i]);
            assert(st[t.storage_idx@[l[j] as int] as int] == l[j]);
        }
        assert(vstd::relations::injective_on(f, x));
        lemma_map_size(x, y, f);
        let k = t.storage_idx@[s as int] as int;
        let z = set_int_range(0, n).remove(k);
        assert forall|v: int| y.contains(v) implies z.contains(v) by {
            let i = choose|i: int| x.contains(i) && f(i) == v;
            assert(t.storage_idx@[l[i] as int] != NULL);
            assert(st[t.storage_idx@[l[i] as int] as int] == l[i]);
            assert(l[i] != s);
        }
        lemma_len_subset(y, z);
    }
}

/// `s` with its entry at `i` replaced by its last entry, and the last entry dropped.
pub open spec fn swap_removed(s: Seq<u32>, i: int) -> Seq<u32> {
    s.update(i, s.last()).drop_last()
}

/// The storage list after the vertex in `slot` leaves it.
pub open spec fn unlinked_storage(storage: Seq<u32>, slot: u32) -> Seq<u32> {
    swap_removed(storage, storage.index_of(slot))
}

proof fn lemma_storage_index_of(t: FlatTopology, slot: u32)
    requires
        t.wf(),
        t.occupied(slot),
    ensures
        t.storage@.index_of(slot) == t.storage_idx@[slot as int],
        t.storage_idx@[slot as int] != NULL,
        t.list@.index_of(slot) == t.list@.index_of(slot),
        0 <= t.list@.index_of(slot) < t.list@.len(),
        t.list@[t.list@.index_of(slot)] == slot,
{
    let l = t.list@;
    let i = choose|i: int| 0 <= i < l.len() && l[i] == slot;
    assert(t.storage_idx@[l[i] as int] != NULL);
    let k = t.storage_idx@[slot as int] as int;
    assert(t.storage@[k] == slot);
    assert(t.storage@.contains(slot));
    let j = t.storage@.index_of(slot);
    assert(t.storage_idx@[t.storage@[j] as int] == j);
}

proof fn lemma_remove_no_duplicates(l: Seq<u32>, k: int)
    requires
        l.no_duplicates(),
        0 <= k < l.len(),
    ensures
        l.remove(k).no_duplicates(),
        l.remove(k).len() == l.len() - 1,
        forall|t: u32| #[trigger] l.remove(k).contains(t) <==> l.contains(t) && t != l[k],
{
    let nl = l.remove(k);
    assert forall|t: u32| #[trigger] nl.contains(t) <==> l.contains(t) && t != l[k] by {
        if nl.contains(t) {
            let i = choose|i: int| 0 <= i < nl.len() && nl[i] == t;
            if i < k {
                assert(l[i] == t);
            } else {
                assert(l[i + 1] == t);
            }
        }
        if l.contains(t) && t != l[k] {
            let i = choose|i: int| 0 <= i < l.len() && l[i] == t;
            if i < k {
                assert(nl[i] == t);
            } else {
                assert(nl[i - 1] == t);
            }
        }
    }
}

proof fn lemma_storage_swap_remove(storage: Seq<u32>, sidx: Seq<u32>, nstorage: Seq<u32>, nsidx: Seq<u32>, slot: u32)
    requires
        sidx.len() < NULL,
        storage.len() <= sidx.len(),
        slot < sidx.len(),
        sidx[slot as int] != NULL,
        forall|i: int| 0 <= i < storage.len() ==> #[trigger] storage[i] < sidx.len() && sidx[storage[i] as int] == i,
        forall|s: int| 0 <= s < sidx.len() && #[trigger] sidx[s] != NULL ==> {
            &&& sidx[s] < storage.len()
            &&& storage[sidx[s] as int] == s
        },
        nstorage == swap_removed(storage, sidx[slot as int] as int),
        nsidx == if sidx[slot as int] + 1 < storage.len() {
            sidx.update(slot as int, NULL).update(storage.last() as int, sidx[slot as int])
        } else {
            sidx.update(slot as int, NULL)
        },
    ensures
        forall|i: int| 0 <= i < nstorage.len() ==> #[trigger] nstorage[i] < nsidx.len() && nsidx[nstorage[i] as int] == i,
        forall|s: int| 0 <= s < nsidx.len() && #[trigger] nsidx[s] != NULL ==> {
            &&& nsidx[s] < nstorage.len()
            &&& nstorage[nsidx[s] as int] == s
        },
        nstorage.len() == storage.len() - 1,
        nsidx.len() == sidx.len(),
        nsidx[slot as int] == NULL,
        forall|s: int| 0 <= s < sidx.len() && s != slot ==> (#[trigger] nsidx[s] == NULL <==> sidx[s] == NULL),
{
    let n = storage.len() as int;
    let idx = sidx[slot as int] as int;
    let moved = storage.last();
    assert(storage[idx] == slot);
    assert(sidx[moved as int] == n - 1);
    assert forall|i: int| 0 <= i < nstorage.len() implies #[trigger] nstorage[i] < nsidx.len() && nsidx[nstorage[i] as int] == i by {
        if i != idx {
            assert(nstorage[i] == storage[i]);
            assert(sidx[storage[i] as int] == i);
        }
    }
    assert forall|s: int| 0 <= s < nsidx.len() && #[trigger] nsidx[s] != NULL implies {
        &&& nsidx[s] < nstorage.len()
        &&& nstorage[nsidx[s] as int] == s
    } by {
        if s != slot && !(idx + 1 < n && s == moved) {
            assert(nsidx[s] == sidx[s]);
            assert(storage[sidx[s] as int] == s);
        }
    }
    assert forall|s: int| 0 <= s < sidx.len() && s != slot implies (#[trigger] nsidx[s] == NULL <==> sidx[s] == NULL) by {
        if idx + 1 < n && s == moved {
            assert(sidx[s] == n - 1);
        }
    }
}

proof fn lemma_unlink_free_clear(old: FlatTopology, new: FlatTopology, slot: u32, prv: u32, nxt: u32)
    requires
        old.wf(),
        slot < old.cap(),
        old.storage_idx@[slot as int] != NULL,
        prv != NULL ==> prv < old.cap() && old.storage_idx@[prv as int] != NULL,
        nxt != NULL ==> nxt < old.cap() && old.storage_idx@[nxt as int] != NULL,
        new.link@ == old.link@.update(slot as int, NULL),
        new.phonons_above@ == old.phonons_above@.update(slot as int, 0),
        new.storage_idx@.len() == old.storage_idx@.len(),
        new.storage_idx@[slot as int] == NULL,
        forall|s: int| 0 <= s < old.storage_idx@.len() && s != slot ==> (#[trigger] new.storage_idx@[s] == NULL <==> old.storage_idx@[s] == NULL),
        new.prev@.len() == old.prev@.len(),
        new.next@.len() == old.next@.len(),
        forall|s: int| 0 <= s < old.cap() && s != slot && s != nxt ==> #[trigger] new.prev@[s] == old.prev@[s],
        forall|s: int| 0 <= s < old.cap() && s != slot && s != prv ==> #[trigger] new.next@[s] == old.next@[s],
        new.prev@[slot as int] == NULL,
        new.next@[slot as int] == NULL,
    ensures
        forall|s: int| 0 <= s < new.storage_idx@.len() && #[trigger] new.storage_idx@[s] == NULL ==> {
            &&& new.link@[s] == NULL
            &&& new.prev@[s] == NULL
            &&& new.next@[s] == NULL
            &&& new.phonons_above@[s] == 0
        },
{
    assert forall|s: int| 0 <= s < new.storage_idx@.len() && #[trigger] new.storage_idx@[s] == NULL implies {
        &&& new.link@[s] == NULL
        &&& new.prev@[s] == NULL
        &&& new.next@[s] == NULL
        &&& new.phonons_above@[s] == 0
    } by {
        if s != slot {
            assert(old.storage_idx@[s] == NULL);
            assert(s != prv);
            assert(s != nxt);
            assert(new.prev@[s] == old.prev@[s]);
            assert(new.next@[s] == old.next@[s]);
        }
    }
}

proof fn lemma_unlink_list_covers(old: FlatTopology, new: FlatTopology, l: Seq<u32>, nl: Seq<u32>, p: int, slot: u32)
    requires
        old.wf(),
        l == old.list@,
        0 <= p < l.len(),
        l[p] == slot,
        nl == l.remove(p),
        new.link@.len() == old.link@.len(),
        new.storage_idx@.len() == old.storage_idx@.len(),
        forall|s: int| 0 <= s < old.storage_idx@.len() && s != slot ==> (#[trigger] new.storage_idx@[s] == NULL <==> old.storage_idx@[s] == NULL),
    ensures
        forall|i: int| 0 <= i < nl.len() ==> #[trigger] nl[i] < new.link@.len() && new.storage_idx@[nl[i] as int] != NULL,
{
    assert forall|i: int| 0 <= i < nl.len() implies #[trigger] nl[i] < new.link@.len() && new.storage_idx@[nl[i] as int] != NULL by {
        let j = if i < p { i } else { i + 1 };
        assert(nl[i] == l[j]);
        assert(l[j] != slot);
        assert(old.storage_idx@[l[j] as int] != NULL);
    }
}

proof fn lemma_unlink_chained(old: FlatTopology, new: FlatTopology, l: Seq<u32>, nl: Seq<u32>, p: int, slot: u32, prv: u32, nxt: u32)
    requires
        old.wf(),
        l == old.list@,
        0 <= p < l.len(),
        l[p] == slot,
        nl == l.remove(p),
        prv == if p > 0 { l[p - 1] } else { NULL },
        nxt == if p + 1 < l.len() { l[p + 1] } else { NULL },
        new.prev@.len() == old.prev@.len(),
        new.next@.len() == old.next@.len(),
        forall|s: int| 0 <= s < old.cap() && s != slot && s != nxt ==> #[trigger] new.prev@[s] == old.prev@[s],
        forall|s: int| 0 <= s < old.cap() && s != slot && s != prv ==> #[trigger] new.next@[s] == old.next@[s],
        nxt != NULL ==> new.prev@[nxt as int] == prv,
        prv != NULL ==> new.next@[prv as int] == nxt,
        prv == NULL ==> new.head == nxt,
        prv != NULL ==> new.head == old.head,
        nxt == NULL ==> new.tail == prv,
        nxt != NULL ==> new.tail == old.tail,
    ensures
        forall|i: int| 0 <= i < nl.len() ==> #[trigger] new.next@[nl[i] as int] == if i + 1 < nl.len() {
            nl[i + 1]
        } else {
            NULL
        },
        forall|i: int| 0 <= i < nl.len() ==> #[trigger] new.prev@[nl[i] as int] == if i > 0 {
            nl[i - 1]
        } else {
            NULL
        },
        nl.len() == 0 ==> new.head == NULL && new.tail == NULL,
        nl.len() > 0 ==> new.head == nl[0] && new.tail == nl.last(),
{
    assert forall|i: int| 0 <= i < nl.len() implies #[trigger] new.next@[nl[i] as int] == if i + 1 < nl.len() {
        nl[i + 1]
    } else {
        NULL
    } by {
        let j = if i < p { i } else { i + 1 };
        assert(nl[i] == l[j]);
        assert(l[j] != slot);
        assert(l[j] < old.cap());
        if j == p - 1 {
            assert(l[j] == prv);
        } else {
            if prv != NULL {
                assert(l[j] != prv);
            }
            assert(old.next@[l[j] as int] == if j + 1 < l.len() { l[j + 1] } else { NULL });
            if i + 1 < nl.len() {
                assert(nl[i + 1] == l[j + 1]);
            }
        }
    }
    assert forall|i: int| 0 <= i < nl.len() implies #[trigger] new.prev@[nl[i] as int] == if i > 0 {
        nl[i - 1]
    } else {
        NULL
    } by {
        let j = if i < p { i } else { i + 1 };
        assert(nl[i] == l[j]);
        assert(l[j] != slot);
        assert(l[j] < old.cap());
        if j == p + 1 {
            assert(l[j] == nxt);
            if i > 0 {
                assert(nl[i - 1] == l[p - 1]);
            }
        } else {
            if nxt != NULL {
                assert(l[j] != nxt);
            }
            assert(old.prev@[l[j] as int] == if j > 0 { l[j - 1] } else { NULL });
            if i > 0 {
                assert(nl[i - 1] == l[j - 1]);
            }
        }
    }
    if nl.len() > 0 {
        if p == 0 {
            assert(nl[0] == l[1]);
        } else {
            assert(nl[0] == l[0]);
        }
        if p == l.len() - 1 {
            assert(nl.last() == l[p - 1]);
        } else {
            assert(nl.last() == l.last());
        }
    }
}

proof fn lemma_index_of_nodup(l: Seq<u32>, i: int)
    requires
        l.no_duplicates(),
        0 <= i < l.len(),
    ensures
        l.index_of(l[i]) == i,
        l.contains(l[i]),
{
    assert(l.contains(l[i]));
}

proof fn lemma_inner_slots_contains(l: Seq<u32>, pl: int, pr: int, t: u32)
    requires
        l.no_duplicates(),
        0 <= pl < pr < l.len(),
    ensures
        l.subrange(pl + 1, pr).contains(t) <==> (l.contains(t) && pl < l.index_of(t) < pr),
{
    let sub = l.subrange(pl + 1, pr);
    if sub.contains(t) {
        let i = choose|i: int| 0 <= i < sub.len() && sub[i] == t;
        assert(l[pl + 1 + i] == t);
        lemma_index_of_nodup(l, pl + 1 + i);
    }
    if l.contains(t) && pl < l.index_of(t) < pr {
        let j = l.index_of(t);
        assert(sub[j - pl - 1] == t);
    }
}

proof fn lemma_free_iff_unstored(t: FlatTopology, slot: u32)
    requires
        t.wf(),
        slot < t.cap(),
    ensures
        t.is_free(slot) <==> !t.storage@.contains(slot),
{
    if t.storage@.contains(slot) {
        let i = choose|i: int| 0 <= i < t.storage@.len() && t.storage@[i] == slot;
        assert(t.storage_idx@[t.storage@[i] as int] == i);
    }
    if t.storage_idx@[slot as int] != NULL {
        assert(t.storage@[t.storage_idx@[slot as int] as int] == slot);
    }
}

proof fn lemma_first_two_free(s0: FlatTopology, s1: FlatTopology, s2: FlatTopology, a: u32, b: u32)
    requires
        s0.wf(),
        s1.wf(),
        s2.wf(),
        s0.first_free(a),
        s1.storage@ == s0.storage@.push(a),
        s2.storage@ == s1.storage@,
        s1.cap() == s0.cap(),
        s2.cap() == s0.cap(),
        s2.first_free(b),
    ensures
        s0.first_two_free(a, b),
{
    assert forall|t: u32| t < s0.cap() && t != a implies (#[trigger] s0.is_free(t) <==> s2.is_free(t)) by {
        lemma_free_iff_unstored(s0, t);
        lemma_free_iff_unstored(s2, t);
        if s0.storage@.contains(t) {
            let i = choose|i: int| 0 <= i < s0.storage@.len() && s0.storage@[i] == t;
            assert(s2.storage@[i] == t);
        }
        if s2.storage@.contains(t) {
            let i = choose|i: int| 0 <= i < s2.storage@.len() && s2.storage@[i] == t;
            assert(i < s0.storage@.len());
            assert(s0.storage@[i] == t);
        }
    }
    lemma_free_iff_unstored(s2, a);
    assert(s2.storage@.last() == a);
    assert(!s2.is_free(a));
    lemma_free_iff_unstored(s0, b);
    assert(b != a);
    if b < a {
        assert(!s0.is_free(b));
    }
    assert forall|t: u32| t < b && t != a implies !#[trigger] s0.is_free(t) by {
        assert(!s2.is_free(t));
    }
}

proof fn lemma_insert_arc_phonons(
    s0: FlatTopology,
    s5: FlatTopology,
    s6: FlatTopology,
    l: Seq<u32>,
    l2: Seq<u32>,
    pl: int,
    pb: int,
    a: u32,
    b: u32,
)
    requires
        s0.wf(),
        l == s0.list@,
        0 <= pl < pb <= l.len(),
        !l.contains(a),
        !l.contains(b),
        a != b,
        l2 == l.insert(pl + 1, a).insert(pb + 1, b),
        l2.no_duplicates(),
        s5.list@ == l2,
        s5.phonons_above@.len() == s0.phonons_above@.len(),
        forall|t: u32| t < s0.cap() && t != a && t != b ==> #[trigger] s5.phonons_above@[t as int] == s0.phonons_above@[t as int],
        s6.phonons_above@.len() == s5.phonons_above@.len(),
        forall|j: int|
            0 <= j < l2.len() ==> #[trigger] s6.phonons_above@[l2[j] as int] == s5.phonons_above@[l2[j] as int] + if pl + 1 < j < pb + 1 {
                1int
            } else {
                0int
            },
        forall|t: int| 0 <= t < s5.phonons_above@.len() && !l2.contains(t as u32) ==> #[trigger] s6.phonons_above@[t] == s5.phonons_above@[t],
        s0.phonons_above@.len() == s0.cap(),
    ensures
        forall|t: u32|
            t < s0.cap() && t != a && t != b ==> #[trigger] s6.phonons_of(t) == s0.phonons_of(t) + if l.subrange(pl + 1, pb).contains(t) {
                1int
            } else {
                0int
            },
{
    assert(l2.subrange(pl + 2, pb + 1) =~= l.subrange(pl + 1, pb));
    assert forall|t: u32| t < s0.cap() && t != a && t != b implies #[trigger] s6.phonons_of(t) == s0.phonons_of(t) + if l.subrange(pl + 1, pb).contains(t) {
        1int
    } else {
        0int
    } by {
        lemma_inner_slots_contains(l2, pl + 1, pb + 1, t);
        if l2.contains(t) {
            let j = choose|j: int| 0 <= j < l2.len() && l2[j] == t;
            lemma_index_of_nodup(l2, j);
            assert(s6.phonons_above@[l2[j] as int] == s5.phonons_above@[l2[j] as int] + if pl + 1 < j < pb + 1 { 1int } else { 0int });
        } else {
            assert(s6.phonons_above@[t as int] == s5.phonons_above@[t as int]);
        }
    }
}


/// Removing the arc from `left` to `right` is blocked exactly when the diagram is
/// not of second order and some vertex strictly between the two ends, other than
/// the vertex just before the tail, has exactly one phonon above it.
pub proof fn lemma_removal_blocked_by_inner_vertex(t: FlatTopology, left: u32, right: u32)
    requires
        t.wf(),
        t.occupied(left),
        t.occupied(right),
        t.position(left) < t.position(right),
        t.list().len() >= 2,
    ensures
        t.removal_blocked(left, right) == (t.order_spec() != 2 && exists|j: int|
            t.position(left) < j < t.position(right) && #[trigger] t.phonons_of(t.list()[j]) == 1 && t.list()[j]
                != t.prevs()[t.tail_slot() as int]),
{
    lemma_wf_views(t);
    lemma_wf_arrays(t);
    let l = t.list();
    let n = l.len() as int;
    let pl = t.position(left);
    let pr = t.position(right);
    assert(t.prevs()[l[n - 1] as int] == l[n - 2]);
    assert(t.tail_slot() == l[n - 1]);
    let second_last = t.prevs()[t.tail_slot() as int];
    assert(second_last == l[n - 2]);
    let inner = t.inner_slots(left, right);
    assert(inner == l.subrange(pl + 1, pr));
    if t.order_spec() != 2 {
        if t.removal_blocked(left, right) {
            let s = choose|s: u32| #[trigger] inner.contains(s) && t.phonons_of(s) == 1 && s != l[n - 2];
            let k = choose|k: int| 0 <= k < inner.len() && inner[k] == s;
            assert(l[pl + 1 + k] == s);
            assert(t.phonons_of(l[pl + 1 + k]) == 1);
        }
        if exists|j: int| pl < j < pr && #[trigger] t.phonons_of(l[j]) == 1 && l[j] != second_last {
            let j = choose|j: int| pl < j < pr && #[trigger] t.phonons_of(l[j]) == 1 && l[j] != second_last;
            assert(inner[j - pl - 1] == l[j]);
            assert(inner.contains(l[j]));
            assert(t.removal_blocked(left, right));
        }
    }
}

/// In particular, when the only vertices between the ends that have exactly one
/// phonon above them are the vertex just before the tail, removal is not blocked.
pub proof fn lemma_second_to_last_vertex_does_not_block(t: FlatTopology, left: u32, right: u32)
    requires
        t.wf(),
        t.occupied(left),
        t.occupied(right),
        t.position(left) < t.position(right),
        t.list().len() >= 2,
        forall|j: int|
            t.position(left) < j < t.position(right) && #[trigger] t.phonons_of(t.list()[j]) == 1 ==> t.list()[j]
                == t.prevs()[t.tail_slot() as int],
    ensures
        !t.removal_blocked(left, right),
{
    lemma_removal_blocked_by_inner_vertex(t, left, right);
}

} // verus!
