//! Phonon counts of a flat diagram: the phonon count of a vertex is the number of
//! arcs passing over it, that is, opened before it and closed after it in time
//! order. Inserting or removing an arc keeps the counts right, and run-time checks
//! of the links and of the counts succeed exactly when they hold.
use vstd::prelude::*;
use crate::flat::{arc_inserted, arc_removed, lemma_wf_arrays, lemma_wf_views, FlatTopology, NULL};
use vstd::string::*;

verus! {

/// Number of indices `i` in `[lo, hi)` with `p(i)`.
pub open spec fn count_where(p: spec_fn(int) -> bool, lo: int, hi: int) -> nat
    decreases hi - lo,
{
    if hi <= lo {
        0
    } else {
        count_where(p, lo, hi - 1) + if p(hi - 1) {
            1nat
        } else {
            0nat
        }
    }
}

proof fn lemma_count_split(p: spec_fn(int) -> bool, lo: int, mid: int, hi: int)
    requires
        lo <= mid <= hi,
    ensures
        count_where(p, lo, hi) == count_where(p, lo, mid) + count_where(p, mid, hi),
    decreases hi - mid,
{
    if hi > mid {
        lemma_count_split(p, lo, mid, hi - 1);
    }
}

proof fn lemma_count_shift(p: spec_fn(int) -> bool, q: spec_fn(int) -> bool, lo: int, hi: int, d: int)
    requires
        forall|i: int| lo <= i < hi ==> q(i + d) == #[trigger] p(i),
    ensures
        count_where(q, lo + d, hi + d) == count_where(p, lo, hi),
    decreases hi - lo,
{
    if hi > lo {
        lemma_count_shift(p, q, lo, hi - 1, d);
        assert(q(hi - 1 + d) == p(hi - 1));
    }
}

proof fn lemma_count_none(p: spec_fn(int) -> bool, lo: int, hi: int)
    requires
        forall|i: int| lo <= i < hi ==> !#[trigger] p(i),
    ensures
        count_where(p, lo, hi) == 0,
    decreases hi - lo,
{
    if hi > lo {
        lemma_count_none(p, lo, hi - 1);
    }
}

/// Position of an old index once two vertices are placed at `pl + 1` and `pb + 1`
/// of the longer list.
pub open spec fn shifted(i: int, pl: int, pb: int) -> int {
    if i <= pl {
        i
    } else if i < pb {
        i + 1
    } else {
        i + 2
    }
}

/// Counting over a list with two more entries: the old entries are counted where
/// they moved to, and the two new entries on their own.
proof fn lemma_count_two_inserted(c_old: spec_fn(int) -> bool, c_new: spec_fn(int) -> bool, n: int, pl: int, pb: int)
    requires
        -1 <= pl < pb <= n,
        forall|i: int| 0 <= i < n ==> c_new(#[trigger] shifted(i, pl, pb)) == c_old(i),
    ensures
        count_where(c_new, 0, n + 2) == count_where(c_old, 0, n) + (if c_new(pl + 1) {
            1nat
        } else {
            0nat
        }) + (if c_new(pb + 1) {
            1nat
        } else {
            0nat
        }),
{
    lemma_count_split(c_new, 0, pl + 1, n + 2);
    lemma_count_split(c_new, pl + 1, pl + 2, n + 2);
    lemma_count_split(c_new, pl + 2, pb + 1, n + 2);
    lemma_count_split(c_new, pb + 1, pb + 2, n + 2);
    lemma_count_split(c_old, 0, pl + 1, n);
    lemma_count_split(c_old, pl + 1, pb, n);
    assert forall|i: int| 0 <= i < pl + 1 implies c_new(i + 0) == #[trigger] c_old(i) by {
        assert(shifted(i, pl, pb) == i);
    }
    lemma_count_shift(c_old, c_new, 0, pl + 1, 0);
    assert forall|i: int| pl + 1 <= i < pb implies c_new(i + 1) == #[trigger] c_old(i) by {
        assert(shifted(i, pl, pb) == i + 1);
    }
    lemma_count_shift(c_old, c_new, pl + 1, pb, 1);
    assert forall|i: int| pb <= i < n implies c_new(i + 2) == #[trigger] c_old(i) by {
        assert(shifted(i, pl, pb) == i + 2);
    }
    lemma_count_shift(c_old, c_new, pb, n, 2);
    assert(count_where(c_new, pl + 1, pl + 1) == 0);
    assert(count_where(c_new, pb + 1, pb + 1) == 0);
    assert(count_where(c_new, pl + 1, pl + 2) == if c_new(pl + 1) { 1nat } else { 0nat });
    assert(count_where(c_new, pb + 1, pb + 2) == if c_new(pb + 1) { 1nat } else { 0nat });
    assert(count_where(c_new, 0, pl + 1) == count_where(c_old, 0, pl + 1));
    assert(count_where(c_new, pl + 2, pb + 1) == count_where(c_old, pl + 1, pb));
    assert(count_where(c_new, pb + 2, n + 2) == count_where(c_old, pb, n));
}

/// Position of the partner of the vertex at position `i`, or -1 when its partner
/// is not in the list.
pub open spec fn partner_pos(t: FlatTopology, i: int) -> int {
    let o = t.list()[i];
    if t.occupied(t.link_of(o)) {
        t.position(t.link_of(o))
    } else {
        -1
    }
}

/// The arc opened at position `i` passes over position `k`.
pub open spec fn passes_over(t: FlatTopology, i: int, k: int) -> bool {
    i < k < partner_pos(t, i)
}

/// The vertex at position `i` opens an arc: its partner comes later.
pub open spec fn opens_arc(t: FlatTopology, i: int) -> bool {
    partner_pos(t, i) > i
}

/// Number of arcs passing over the vertex at position `k`.
pub open spec fn arcs_over(t: FlatTopology, k: int) -> nat {
    count_where(|i: int| passes_over(t, i, k), 0, t.list().len() as int)
}

/// Every listed vertex either has no partner or has a listed partner that points
/// back to it.
pub open spec fn arcs_paired(t: FlatTopology) -> bool {
    forall|i: int|
        0 <= i < t.list().len() ==> {
            let o = #[trigger] t.list()[i];
            t.link_of(o) == NULL || (t.occupied(t.link_of(o)) && t.link_of(t.link_of(o)) == o)
        }
}

/// Arcs are paired, and every vertex's phonon count is the number of arcs passing
/// over it.
pub open spec fn phonons_consistent(t: FlatTopology) -> bool {
    &&& arcs_paired(t)
    &&& forall|k: int| 0 <= k < t.list().len() ==> #[trigger] t.phonons_of(t.list()[k]) == arcs_over(t, k)
}

/// Inverse of `shifted` on the positions other than `pl + 1` and `pb + 1`.
pub open spec fn unshifted(j: int, pl: int, pb: int) -> int {
    if j <= pl {
        j
    } else if j <= pb {
        j - 1
    } else {
        j - 2
    }
}

/// Partner position of an old vertex after two vertices are placed at `pl + 1`
/// and `pb + 1`: it moves with the partner, and stays -1 for none.
pub open spec fn shifted_partner(pp: int, pl: int, pb: int) -> int {
    if pp < 0 {
        -1
    } else {
        shifted(pp, pl, pb)
    }
}

/// `big` is `small` with `a` placed at `pl + 1` and `b` at `pb + 1`, both new, and
/// every old vertex keeping its partner.
pub open spec fn two_placed(small: FlatTopology, big: FlatTopology, pl: int, pb: int, a: u32, b: u32) -> bool {
    let l = small.list();
    let n = l.len() as int;
    &&& -1 <= pl < pb <= n
    &&& big.list() == l.insert(pl + 1, a).insert(pb + 1, b)
    &&& !l.contains(a)
    &&& !l.contains(b)
    &&& a != b
    &&& a != NULL
    &&& b != NULL
    &&& forall|i: int| 0 <= i < n ==> #[trigger] big.link_of(l[i]) == small.link_of(l[i])
}

/// Where the vertices and partners of `small` end up in `big`.
proof fn lemma_two_placed_positions(small: FlatTopology, big: FlatTopology, pl: int, pb: int, a: u32, b: u32)
    requires
        small.wf(),
        big.wf(),
        two_placed(small, big, pl, pb, a, b),
    ensures
        big.list().len() == small.list().len() + 2,
        big.list()[pl + 1] == a,
        big.list()[pb + 1] == b,
        big.position(a) == pl + 1,
        big.position(b) == pb + 1,
        forall|i: int|
            0 <= i < small.list().len() ==> big.list()[#[trigger] shifted(i, pl, pb)] == small.list()[i] && big.position(
                small.list()[i],
            ) == shifted(i, pl, pb),
        forall|x: u32| #[trigger] big.occupied(x) <==> (small.occupied(x) || x == a || x == b),
{
    let l = small.list();
    let n = l.len() as int;
    let bl = big.list();
    lemma_wf_views(small);
    lemma_wf_views(big);
    assert(bl[pl + 1] == a);
    assert(bl[pb + 1] == b);
    assert forall|i: int| 0 <= i < n implies bl[#[trigger] shifted(i, pl, pb)] == l[i] && big.position(l[i]) == shifted(i, pl, pb) by {
        assert(bl[shifted(i, pl, pb)] == l[i]);
        assert(big.position(bl[shifted(i, pl, pb)]) == shifted(i, pl, pb));
    }
    assert forall|x: u32| #[trigger] big.occupied(x) <==> (small.occupied(x) || x == a || x == b) by {
        if big.occupied(x) {
            let j = choose|j: int| 0 <= j < bl.len() && bl[j] == x;
            if j != pl + 1 && j != pb + 1 {
                let i = unshifted(j, pl, pb);
                assert(shifted(i, pl, pb) == j);
                assert(l[i] == x);
            }
        }
        if small.occupied(x) {
            let i = choose|i: int| 0 <= i < n && l[i] == x;
            assert(bl[shifted(i, pl, pb)] == x);
        }
        if x == a {
            assert(bl[pl + 1] == a);
        }
        if x == b {
            assert(bl[pb + 1] == b);
        }
    }
}

/// Partner positions of the old vertices move with them.
proof fn lemma_two_placed_partners(small: FlatTopology, big: FlatTopology, pl: int, pb: int, a: u32, b: u32)
    requires
        small.wf(),
        big.wf(),
        two_placed(small, big, pl, pb, a, b),
        arcs_paired(small),
    ensures
        forall|i: int|
            0 <= i < small.list().len() ==> #[trigger] partner_pos(big, shifted(i, pl, pb)) == shifted_partner(
                partner_pos(small, i),
                pl,
                pb,
            ),
{
    let l = small.list();
    let n = l.len() as int;
    lemma_two_placed_positions(small, big, pl, pb, a, b);
    lemma_wf_views(small);
    assert forall|i: int| 0 <= i < n implies #[trigger] partner_pos(big, shifted(i, pl, pb)) == shifted_partner(
        partner_pos(small, i),
        pl,
        pb,
    ) by {
        let o = l[i];
        assert(big.list()[shifted(i, pl, pb)] == o);
        assert(big.link_of(o) == small.link_of(o));
        let p = small.link_of(o);
        assert(p == NULL || small.occupied(p));
        if small.occupied(p) {
            let q = small.position(p);
            assert(0 <= q < n && l[q] == p);
            assert(big.position(l[q]) == shifted(q, pl, pb));
        } else {
            assert(p != a && p != b);
            assert(!big.occupied(p));
        }
    }
}

/// The arcs over an old vertex after the insertion: the old ones, plus the new arc
/// when the vertex lies between its ends.
proof fn lemma_two_placed_old_count(small: FlatTopology, big: FlatTopology, pl: int, pb: int, a: u32, b: u32, k: int)
    requires
        small.wf(),
        big.wf(),
        two_placed(small, big, pl, pb, a, b),
        arcs_paired(small),
        big.link_of(a) == b,
        big.link_of(b) == a,
        0 <= k < small.list().len(),
    ensures
        arcs_over(big, shifted(k, pl, pb)) == arcs_over(small, k) + if pl < k < pb {
            1nat
        } else {
            0nat
        },
{
    let n = small.list().len() as int;
    let kk = shifted(k, pl, pb);
    lemma_two_placed_positions(small, big, pl, pb, a, b);
    lemma_two_placed_partners(small, big, pl, pb, a, b);
    let c_old = |i: int| passes_over(small, i, k);
    let c_new = |j: int| passes_over(big, j, kk);
    assert forall|i: int| 0 <= i < n implies c_new(#[trigger] shifted(i, pl, pb)) == c_old(i) by {
        assert(partner_pos(big, shifted(i, pl, pb)) == shifted_partner(partner_pos(small, i), pl, pb));
    }
    lemma_count_two_inserted(c_old, c_new, n, pl, pb);
    lemma_wf_views(big);
    assert(big.occupied(b));
    assert(partner_pos(big, pl + 1) == pb + 1);
    assert(big.occupied(a));
    assert(partner_pos(big, pb + 1) == pl + 1);
}

/// The arcs over the vertex placed right after position `pl`: those over the
/// vertex at `pl`, plus its own arc when it opens one.
proof fn lemma_two_placed_first_count(small: FlatTopology, big: FlatTopology, pl: int, pb: int, a: u32, b: u32)
    requires
        small.wf(),
        big.wf(),
        two_placed(small, big, pl, pb, a, b),
        arcs_paired(small),
        big.link_of(a) == b,
        big.link_of(b) == a,
        0 <= pl,
    ensures
        arcs_over(big, pl + 1) == arcs_over(small, pl) + if opens_arc(small, pl) {
            1nat
        } else {
            0nat
        },
        pb == pl + 1 ==> arcs_over(big, pb + 1) == arcs_over(big, pl + 1),
{
    let n = small.list().len() as int;
    lemma_two_placed_positions(small, big, pl, pb, a, b);
    lemma_two_placed_partners(small, big, pl, pb, a, b);
    lemma_wf_views(big);
    assert(big.occupied(b));
    assert(partner_pos(big, pl + 1) == pb + 1);
    assert(big.occupied(a));
    assert(partner_pos(big, pb + 1) == pl + 1);
    let d = |i: int| i <= pl && partner_pos(small, i) > pl;
    let c_new = |j: int| passes_over(big, j, pl + 1);
    assert forall|i: int| 0 <= i < n implies c_new(#[trigger] shifted(i, pl, pb)) == d(i) by {
        assert(partner_pos(big, shifted(i, pl, pb)) == shifted_partner(partner_pos(small, i), pl, pb));
    }
    lemma_count_two_inserted(d, c_new, n, pl, pb);
    let c_old = |i: int| passes_over(small, i, pl);
    lemma_count_split(d, 0, pl, n);
    lemma_count_split(d, pl, pl + 1, n);
    lemma_count_split(c_old, 0, pl, n);
    lemma_count_split(c_old, pl, pl + 1, n);
    assert(count_where(d, pl, pl) == 0);
    assert(count_where(c_old, pl, pl) == 0);
    lemma_count_none(d, pl + 1, n);
    lemma_count_none(c_old, pl + 1, n);
    assert forall|i: int| 0 <= i < pl implies d(i + 0) == #[trigger] c_old(i) by {
    }
    lemma_count_shift(c_old, d, 0, pl, 0);
    if pb == pl + 1 {
        let c_b = |j: int| passes_over(big, j, pb + 1);
        assert forall|i: int| 0 <= i < n implies c_b(#[trigger] shifted(i, pl, pb)) == d(i) by {
            assert(partner_pos(big, shifted(i, pl, pb)) == shifted_partner(partner_pos(small, i), pl, pb));
        }
        lemma_count_two_inserted(d, c_b, n, pl, pb);
    }
}

/// The arcs over the vertex placed right before position `pb`, when an old vertex
/// stands just before it: those over that vertex, plus its own arc when it opens
/// one.
proof fn lemma_two_placed_second_count(small: FlatTopology, big: FlatTopology, pl: int, pb: int, a: u32, b: u32)
    requires
        small.wf(),
        big.wf(),
        two_placed(small, big, pl, pb, a, b),
        arcs_paired(small),
        big.link_of(a) == b,
        big.link_of(b) == a,
        pl + 1 < pb,
    ensures
        arcs_over(big, pb + 1) == arcs_over(small, pb - 1) + if opens_arc(small, pb - 1) {
            1nat
        } else {
            0nat
        },
{
    let n = small.list().len() as int;
    let m = pb - 1;
    lemma_two_placed_positions(small, big, pl, pb, a, b);
    lemma_two_placed_partners(small, big, pl, pb, a, b);
    lemma_wf_views(big);
    assert(big.occupied(b));
    assert(partner_pos(big, pl + 1) == pb + 1);
    assert(big.occupied(a));
    assert(partner_pos(big, pb + 1) == pl + 1);
    let e = |i: int| i < pb && partner_pos(small, i) >= pb;
    let c_new = |j: int| passes_over(big, j, pb + 1);
    assert forall|i: int| 0 <= i < n implies c_new(#[trigger] shifted(i, pl, pb)) == e(i) by {
        assert(partner_pos(big, shifted(i, pl, pb)) == shifted_partner(partner_pos(small, i), pl, pb));
    }
    lemma_count_two_inserted(e, c_new, n, pl, pb);
    let c_old = |i: int| passes_over(small, i, m);
    lemma_count_split(e, 0, m, n);
    lemma_count_split(e, m, m + 1, n);
    lemma_count_split(c_old, 0, m, n);
    lemma_count_split(c_old, m, m + 1, n);
    assert(count_where(e, m, m) == 0);
    assert(count_where(c_old, m, m) == 0);
    lemma_count_none(e, m + 1, n);
    lemma_count_none(c_old, m + 1, n);
    assert forall|i: int| 0 <= i < m implies e(i + 0) == #[trigger] c_old(i) by {
    }
    lemma_count_shift(c_old, e, 0, m, 0);
}

proof fn lemma_subrange_contains_at(l: Seq<u32>, lo: int, hi: int, k: int)
    requires
        l.no_duplicates(),
        0 <= lo <= hi <= l.len(),
        0 <= k < l.len(),
    ensures
        l.subrange(lo, hi).contains(l[k]) <==> lo <= k < hi,
{
    if l.subrange(lo, hi).contains(l[k]) {
        let i = choose|i: int| 0 <= i < hi - lo && l.subrange(lo, hi)[i] == l[k];
        assert(l[lo + i] == l[k]);
    }
    if lo <= k < hi {
        assert(l.subrange(lo, hi)[k - lo] == l[k]);
    }
}

/// Inserting an arc keeps every phonon count equal to the number of arcs passing
/// over its vertex, when the caller says truly whether the vertex before each new
/// one opens an arc.
pub proof fn lemma_insert_arc_keeps_phonons_consistent(
    t0: FlatTopology,
    t1: FlatTopology,
    left: u32,
    before_right: u32,
    left_outgoing: bool,
    right_left_outgoing: bool,
    a: u32,
    b: u32,
)
    requires
        t0.wf(),
        t1.wf(),
        t0.occupied(left),
        before_right == NULL || (t0.occupied(before_right) && t0.position(left) < t0.position(before_right)),
        arc_inserted(t0, t1, left, before_right, left_outgoing, right_left_outgoing, a, b),
        phonons_consistent(t0),
        left_outgoing == opens_arc(t0, t0.position(left)),
        t0.insertion_point(before_right) > t0.position(left) + 1 ==> right_left_outgoing == opens_arc(
            t0,
            t0.insertion_point(before_right) - 1,
        ),
    ensures
        phonons_consistent(t1),
{
    let l = t0.list();
    let n = l.len() as int;
    let pl = t0.position(left);
    let pb = t0.insertion_point(before_right);
    let bl = t1.list();
    lemma_wf_views(t0);
    lemma_wf_views(t1);
    assert(t0.occupied(l[0]));
    assert(0 <= pl < n && l[pl] == left) by {
        let i = choose|i: int| 0 <= i < n && l[i] == left;
        assert(t0.position(l[i]) == i);
    }
    if before_right != NULL {
        let i = choose|i: int| 0 <= i < n && l[i] == before_right;
        assert(t0.position(l[i]) == i);
    }
    assert(!t0.occupied(a));
    assert(!t0.occupied(b));
    assert(two_placed(t0, t1, pl, pb, a, b)) by {
        assert forall|i: int| 0 <= i < n implies #[trigger] t1.link_of(l[i]) == t0.link_of(l[i]) by {
            assert(t0.occupied(l[i]));
        }
    }
    lemma_two_placed_positions(t0, t1, pl, pb, a, b);
    assert(arcs_paired(t1)) by {
        assert forall|j: int| 0 <= j < bl.len() implies {
            let o = #[trigger] bl[j];
            t1.link_of(o) == NULL || (t1.occupied(t1.link_of(o)) && t1.link_of(t1.link_of(o)) == o)
        } by {
            if j != pl + 1 && j != pb + 1 {
                let i = unshifted(j, pl, pb);
                assert(shifted(i, pl, pb) == j);
                let o = l[i];
                assert(bl[j] == o);
                assert(t1.link_of(o) == t0.link_of(o));
                let p = t0.link_of(o);
                if p != NULL {
                    assert(t0.occupied(p));
                    assert(p != a && p != b);
                    assert(t1.link_of(p) == t0.link_of(p));
                }
            }
        }
    }
    assert forall|j: int| 0 <= j < bl.len() implies #[trigger] t1.phonons_of(bl[j]) == arcs_over(t1, j) by {
        if j == pl + 1 {
            lemma_two_placed_first_count(t0, t1, pl, pb, a, b);
        } else if j == pb + 1 {
            lemma_two_placed_first_count(t0, t1, pl, pb, a, b);
            if pb > pl + 1 {
                lemma_two_placed_second_count(t0, t1, pl, pb, a, b);
            }
        } else {
            let k = unshifted(j, pl, pb);
            assert(shifted(k, pl, pb) == j);
            assert(bl[j] == l[k]);
            lemma_two_placed_old_count(t0, t1, pl, pb, a, b, k);
            lemma_subrange_contains_at(l, pl + 1, pb, k);
            assert(t0.phonons_of(l[k]) == arcs_over(t0, k));
        }
    }
}

/// Removing an arc keeps every phonon count equal to the number of arcs passing
/// over its vertex.
pub proof fn lemma_remove_arc_keeps_phonons_consistent(t1: FlatTopology, t2: FlatTopology, left: u32, right: u32)
    requires
        t1.wf(),
        t2.wf(),
        t1.occupied(left),
        t1.occupied(right),
        t1.position(left) < t1.position(right),
        t1.link_of(left) == right,
        t1.link_of(right) == left,
        arc_removed(t1, t2, left, right),
        phonons_consistent(t1),
    ensures
        phonons_consistent(t2),
{
    let bl = t1.list();
    let l = t2.list();
    let n = l.len() as int;
    let pa = t1.position(left);
    let pr = t1.position(right);
    lemma_wf_views(t1);
    lemma_wf_views(t2);
    assert(0 <= pa < bl.len() && bl[pa] == left) by {
        let i = choose|i: int| 0 <= i < bl.len() && bl[i] == left;
        assert(t1.position(bl[i]) == i);
    }
    assert(0 <= pr < bl.len() && bl[pr] == right) by {
        let i = choose|i: int| 0 <= i < bl.len() && bl[i] == right;
        assert(t1.position(bl[i]) == i);
    }
    assert(l =~= bl.remove(pr).remove(pa));
    assert(bl =~= l.insert(pa, left).insert(pr, right));
    assert(!l.contains(left)) by {
        if l.contains(left) {
            let i = choose|i: int| 0 <= i < n && l[i] == left;
            let j = if i < pa { i } else if i < pr - 1 { i + 1 } else { i + 2 };
            assert(bl[j] == left);
        }
    }
    assert(!l.contains(right)) by {
        if l.contains(right) {
            let i = choose|i: int| 0 <= i < n && l[i] == right;
            let j = if i < pa { i } else if i < pr - 1 { i + 1 } else { i + 2 };
            assert(bl[j] == right);
        }
    }
    assert(two_placed(t2, t1, pa - 1, pr - 1, left, right)) by {
        assert forall|i: int| 0 <= i < n implies #[trigger] t1.link_of(l[i]) == t2.link_of(l[i]) by {
            assert(t2.occupied(l[i]));
        }
    }
    lemma_two_placed_positions(t2, t1, pa - 1, pr - 1, left, right);
    assert(arcs_paired(t2)) by {
        assert forall|i: int| 0 <= i < n implies {
            let o = #[trigger] l[i];
            t2.link_of(o) == NULL || (t2.occupied(t2.link_of(o)) && t2.link_of(t2.link_of(o)) == o)
        } by {
            let o = l[i];
            let j = shifted(i, pa - 1, pr - 1);
            assert(bl[j] == o);
            assert(t1.link_of(o) == t2.link_of(o));
            let p = t1.link_of(o);
            if p != NULL {
                assert(t1.occupied(p) && t1.link_of(p) == o);
                assert(o != left && o != right);
                assert(p != left && p != right);
                assert(t2.occupied(p));
                assert(t2.link_of(p) == t1.link_of(p));
            }
        }
    }
    assert forall|k: int| 0 <= k < n implies #[trigger] t2.phonons_of(l[k]) == arcs_over(t2, k) by {
        let j = shifted(k, pa - 1, pr - 1);
        lemma_two_placed_old_count(t2, t1, pa - 1, pr - 1, left, right, k);
        assert(bl[j] == l[k]);
        assert(t1.phonons_of(bl[j]) == arcs_over(t1, j));
        assert(t1.inner_slots(left, right) == bl.subrange(pa + 1, pr));
        lemma_subrange_contains_at(bl, pa + 1, pr, j);
        assert(l[k] != left && l[k] != right);
    }
}

/// A diagram whose vertices have no partners and no phonons is consistent.
pub proof fn lemma_unlinked_is_consistent(t: FlatTopology)
    requires
        t.wf(),
        forall|i: int| 0 <= i < t.list().len() ==> #[trigger] t.link_of(t.list()[i]) == NULL && t.phonons_of(t.list()[i]) == 0,
    ensures
        phonons_consistent(t),
{
    lemma_wf_views(t);
    let n = t.list().len() as int;
    assert forall|k: int| 0 <= k < n implies #[trigger] t.phonons_of(t.list()[k]) == arcs_over(t, k) by {
        assert forall|i: int| 0 <= i < n implies !#[trigger] passes_over(t, i, k) by {
            assert(t.link_of(t.list()[i]) == NULL);
            assert(!t.occupied(NULL));
        }
        lemma_count_none(|i: int| passes_over(t, i, k), 0, n);
        assert(t.link_of(t.list()[k]) == NULL);
    }
    assert forall|i: int| 0 <= i < n implies #[trigger] t.link_of(t.list()[i]) == NULL by {
    }
}

/// Joining the two vertices of a consistent two-vertex diagram into one arc keeps
/// it consistent: no arc passes over either end.
pub proof fn lemma_joined_pair_is_consistent(t0: FlatTopology, t1: FlatTopology)
    requires
        t0.wf(),
        t1.wf(),
        t0.list().len() == 2,
        t1.list() == t0.list(),
        phonons_consistent(t0),
        t1.link_of(t0.list()[0]) == t0.list()[1],
        t1.link_of(t0.list()[1]) == t0.list()[0],
        t1.phonons_of(t0.list()[0]) == t0.phonons_of(t0.list()[0]),
        t1.phonons_of(t0.list()[1]) == t0.phonons_of(t0.list()[1]),
    ensures
        phonons_consistent(t1),
{
    let l = t0.list();
    lemma_wf_views(t0);
    lemma_wf_views(t1);
    assert(t0.occupied(l[0]) && t0.occupied(l[1]));
    assert(t1.position(l[0]) == 0 && t1.position(l[1]) == 1);
    assert(t0.position(l[0]) == 0 && t0.position(l[1]) == 1);
    assert forall|k: int| 0 <= k < 2 implies arcs_over(t0, k) == 0 && arcs_over(t1, k) == 0 by {
        let c0 = |i: int| passes_over(t0, i, k);
        let c1 = |i: int| passes_over(t1, i, k);
        assert forall|i: int| 0 <= i < 2 implies !#[trigger] c0(i) && !c1(i) by {
            if t0.occupied(t0.link_of(l[i])) {
                let q = t0.position(t0.link_of(l[i]));
                assert(0 <= q < 2) by {
                    let j = choose|j: int| 0 <= j < 2 && l[j] == t0.link_of(l[i]);
                    assert(t0.position(l[j]) == j);
                }
            }
        }
        lemma_count_none(c0, 0, 2);
        lemma_count_none(c1, 0, 2);
    }
    assert(t1.phonons_of(l[0]) == arcs_over(t1, 0));
    assert(t1.phonons_of(l[1]) == arcs_over(t1, 1));
}

/// The vertices are linked as the order says: at order zero there are two vertices
/// and neither has a partner; at a higher order there are two vertices per arc and
/// every vertex's partner is listed and points back to it.
pub open spec fn links_match_order(t: FlatTopology) -> bool {
    let l = t.list();
    &&& l.len() == if t.order_spec() == 0 {
        2
    } else {
        2 * t.order_spec()
    }
    &&& forall|i: int|
        0 <= i < l.len() ==> if t.order_spec() == 0 {
            t.link_of(#[trigger] l[i]) == NULL
        } else {
            t.occupied(t.link_of(l[i])) && t.link_of(t.link_of(l[i])) == l[i]
        }
}

/// The message for an order-0 vertex that has a link, made by std's `format!`;
/// nothing is stated of its text.
#[verifier::external_body]
fn order_zero_link_message(slot: u32) -> String {
    format!("order-0 vertex {} unexpectedly has a link", slot)
}

/// The message for a vertex whose link is not a live slot, made by std's
/// `format!`; nothing is stated of its text.
#[verifier::external_body]
fn invalid_link_message(slot: u32, link: u32) -> String {
    format!("vertex {} has invalid link {}", slot, link)
}

/// The message for a vertex whose partner does not link back, made by std's
/// `format!`; nothing is stated of its text.
#[verifier::external_body]
fn not_reciprocal_message(slot: u32) -> String {
    format!("vertex {} link is not reciprocal", slot)
}

/// The message for a wrong phonon count, made by std's `format!`; nothing is
/// stated of its text.
#[verifier::external_body]
fn phonons_mismatch_message(slot: u32, got: u32, expected: u32) -> String {
    format!("vertex {} phonons_above mismatch: got {}, expected {}", slot, got, expected)
}

/// The message for a storage entry that is not a live slot, made by std's
/// `format!`; nothing is stated of its text.
#[verifier::external_body]
fn stale_storage_message(idx: usize) -> String {
    format!("storage[{}] contains a stale key", idx)
}

/// The message for a storage index that does not point back, made by std's
/// `format!`; nothing is stated of its text.
#[verifier::external_body]
fn storage_index_mismatch_message(slot: u32, got: u32, expected: usize) -> String {
    format!("storage index mismatch for vertex {}: got {}, expected {}", slot, got, expected)
}

/// The message for a `prev` link that does not match the walk, made by std's
/// `format!`; nothing is stated of its text.
#[verifier::external_body]
fn prev_mismatch_message(slot: u32) -> String {
    format!("prev pointer mismatch at {}", slot)
}

/// The message for a vertex other than the tail with no `next`, made by std's
/// `format!`; nothing is stated of its text.
#[verifier::external_body]
fn null_next_message(slot: u32) -> String {
    format!("non-tail vertex {} points to null next", slot)
}

/// The message for a vertex count that does not fit the order, made by std's
/// `format!`; nothing is stated of its text.
#[verifier::external_body]
fn vertex_count_message(count: usize, order: usize) -> String {
    format!("vertex count {} does not match order {}", count, order)
}

/// The message for a storage whose size differs from the number of live slots,
/// made by std's `format!`; nothing is stated of its text.
#[verifier::external_body]
fn storage_size_message(size: usize, live: usize) -> String {
    format!("storage size {} differs from arena size {}", size, live)
}

/// The message for a list whose length differs from the number of live slots,
/// made by std's `format!`; nothing is stated of its text.
#[verifier::external_body]
fn list_count_message(count: usize, live: usize) -> String {
    format!("list count {} differs from arena size {}", count, live)
}

/// Check that the vertex count matches the order and that every vertex is linked
/// as the order says. `Ok` exactly when it is.
pub fn check_links(t: &FlatTopology) -> (r: Result<(), String>)
    requires
        t.wf(),
    ensures
        r is Ok <==> links_match_order(*t),
{
    proof {
        lemma_wf_views(*t);
    }
    let order = t.order();
    let n = t.vertex_count();
    let count_ok = if order == 0 {
        n == 2
    } else {
        order <= n / 2 && n == 2 * order
    };
    if !count_ok {
        return Err(vertex_count_message(n, order));
    }
    let slots = t.ordered_slots();
    let cap = t.capacity();
    let mut i: usize = 0;
    while i < slots.len()
        invariant
            t.wf(),
            slots@ == t.list(),
            cap == t.cap(),
            cap < NULL,
            order == t.order_spec(),
            i <= slots@.len(),
            forall|j: int| 0 <= j < slots@.len() ==> #[trigger] slots@[j] < cap,
            forall|s: u32| #[trigger] t.occupied(s) ==> !t.is_free(s) && s < t.cap(),
            forall|s: u32| s < t.cap() && !#[trigger] t.occupied(s) ==> t.is_free(s),
            forall|j: int|
                0 <= j < i ==> if order == 0 {
                    t.link_of(#[trigger] slots@[j]) == NULL
                } else {
                    t.occupied(t.link_of(slots@[j])) && t.link_of(t.link_of(slots@[j])) == slots@[j]
                },
        decreases slots@.len() - i,
    {
        let k = slots[i];
        let link = t.link(k);
        if order == 0 {
            if link != NULL {
                return Err(order_zero_link_message(k));
            }
        } else {
            if link == NULL || (link as usize) >= cap || t.storage_index(link) == NULL {
                return Err(invalid_link_message(k, link));
            }
            if t.link(link) != k {
                return Err(not_reciprocal_message(k));
            }
        }
        i = i + 1;
    }
    Ok(())
}

/// Check that every vertex's phonon count is the number of arcs passing over it,
/// the first and last vertex's being zero. `Ok` exactly when it is.
pub fn check_phonons_above(t: &FlatTopology) -> (r: Result<(), String>)
    requires
        t.wf(),
        t.list().len() > 0,
    ensures
        r is Ok <==> forall|k: int| 0 <= k < t.list().len() ==> #[trigger] t.phonons_of(t.list()[k]) == arcs_over(*t, k),
{
    proof {
        lemma_wf_views(*t);
    }
    let slots = t.ordered_slots();
    let n = slots.len();
    let cap = t.capacity();
    proof {
        lemma_no_arc_over_ends(*t);
    }
    if t.phonons_above(slots[0]) > 0 {
        return Err(String::from_str("first vertex has phonons_above > 0"));
    }
    if t.phonons_above(slots[n - 1]) > 0 {
        return Err(String::from_str("last vertex has phonons_above > 0"));
    }
    let pos = positions_of(t, &slots);
    let mut k: usize = 0;
    while k < n
        invariant
            t.wf(),
            slots@ == t.list(),
            n == slots@.len(),
            cap == t.cap(),
            cap < NULL,
            pos@.len() == cap,
            forall|j: int| 0 <= j < n ==> #[trigger] slots@[j] < cap,
            forall|s: int|
                0 <= s < cap ==> #[trigger] pos@[s] == if t.occupied(s as u32) {
                    t.position(s as u32) as u32
                } else {
                    NULL
                },
            forall|s: u32| #[trigger] t.occupied(s) ==> 0 <= t.position(s) < n,
            k <= n,
            forall|j: int| 0 <= j < k ==> #[trigger] t.phonons_of(slots@[j]) == arcs_over(*t, j),
        decreases n - k,
    {
        let expected = arcs_over_at(t, &slots, &pos, k);
        if t.phonons_above(slots[k]) != expected {
            return Err(phonons_mismatch_message(slots[k], t.phonons_above(slots[k]), expected));
        }
        k = k + 1;
    }
    Ok(())
}

/// No arc passes over the first or the last vertex.
proof fn lemma_no_arc_over_ends(t: FlatTopology)
    requires
        t.wf(),
        t.list().len() > 0,
    ensures
        arcs_over(t, 0) == 0,
        arcs_over(t, t.list().len() - 1) == 0,
{
    lemma_wf_views(t);
    let n = t.list().len() as int;
    lemma_count_none(|i: int| passes_over(t, i, 0), 0, n);
    assert forall|i: int| 0 <= i < n implies !#[trigger] passes_over(t, i, n - 1) by {
        let p = t.link_of(t.list()[i]);
        if t.occupied(p) {
            let j = choose|j: int| 0 <= j < n && t.list()[j] == p;
            assert(t.position(t.list()[j]) == j);
        }
    }
    lemma_count_none(|i: int| passes_over(t, i, n - 1), 0, n);
}

/// Position of each slot in time order, `NULL` for a free slot.
fn positions_of(t: &FlatTopology, slots: &Vec<u32>) -> (pos: Vec<u32>)
    requires
        t.wf(),
        slots@ == t.list(),
    ensures
        pos@.len() == t.cap(),
        forall|s: int|
            0 <= s < t.cap() ==> #[trigger] pos@[s] == if t.occupied(s as u32) {
                t.position(s as u32) as u32
            } else {
                NULL
            },
        forall|s: u32| #[trigger] t.occupied(s) ==> 0 <= t.position(s) < slots@.len(),
{
    proof {
        lemma_wf_views(*t);
    }
    let cap = t.capacity();
    let mut pos: Vec<u32> = vec![NULL; cap];
    let n = slots.len();
    let mut i: usize = 0;
    while i < n
        invariant
            t.wf(),
            slots@ == t.list(),
            n == slots@.len(),
            n <= cap,
            cap == t.cap(),
            cap < NULL,
            pos@.len() == cap,
            slots@.no_duplicates(),
            forall|j: int| 0 <= j < n ==> #[trigger] slots@[j] < cap,
            forall|j: int| 0 <= j < n ==> t.position(#[trigger] slots@[j]) == j,
            i <= n,
            forall|s: int|
                0 <= s < cap ==> #[trigger] pos@[s] == if slots@.subrange(0, i as int).contains(s as u32) {
                    t.position(s as u32) as u32
                } else {
                    NULL
                },
        decreases n - i,
    {
        let slot = slots[i];
        pos.set(slot as usize, i as u32);
        proof {
            assert forall|s: int| 0 <= s < cap implies #[trigger] pos@[s] == if slots@.subrange(0, i + 1).contains(s as u32) {
                t.position(s as u32) as u32
            } else {
                NULL
            } by {
                if s == slot as int {
                    assert(slots@.subrange(0, i + 1)[i as int] == slot);
                } else {
                    if slots@.subrange(0, i + 1).contains(s as u32) {
                        let j = choose|j: int| 0 <= j < i + 1 && #[trigger] slots@.subrange(0, i + 1)[j] == s as u32;
                        assert(slots@.subrange(0, i as int)[j] == s as u32);
                    }
                    if slots@.subrange(0, i as int).contains(s as u32) {
                        let j = choose|j: int| 0 <= j < i && #[trigger] slots@.subrange(0, i as int)[j] == s as u32;
                        assert(slots@.subrange(0, i + 1)[j] == s as u32);
                    }
                }
            }
        }
        i = i + 1;
    }
    proof {
        assert(slots@.subrange(0, n as int) =~= slots@);
        assert forall|s: u32| #[trigger] t.occupied(s) implies 0 <= t.position(s) < slots@.len() by {
            let j = choose|j: int| 0 <= j < n && slots@[j] == s;
            assert(t.position(slots@[j]) == j);
        }
    }
    pos
}

/// The number of arcs passing over position `k`, counted from the positions.
fn arcs_over_at(t: &FlatTopology, slots: &Vec<u32>, pos: &Vec<u32>, k: usize) -> (r: u32)
    requires
        t.wf(),
        slots@ == t.list(),
        k < slots@.len(),
        pos@.len() == t.cap(),
        t.cap() < NULL,
        forall|j: int| 0 <= j < slots@.len() ==> #[trigger] slots@[j] < t.cap(),
        forall|s: int|
            0 <= s < t.cap() ==> #[trigger] pos@[s] == if t.occupied(s as u32) {
                t.position(s as u32) as u32
            } else {
                NULL
            },
        forall|s: u32| #[trigger] t.occupied(s) ==> 0 <= t.position(s) < slots@.len(),
    ensures
        r == arcs_over(*t, k as int),
{
    let cap = t.capacity();
    let n = slots.len();
    proof {
        lemma_wf_views(*t);
    }
    let ghost p = |i: int| passes_over(*t, i, k as int);
    let mut expected: u32 = 0;
    let mut i: usize = 0;
    while i < k
        invariant
            t.wf(),
            slots@ == t.list(),
            n == slots@.len(),
            n <= cap,
            k < n,
            cap == t.cap(),
            cap < NULL,
            pos@.len() == cap,
            forall|j: int| 0 <= j < n ==> #[trigger] slots@[j] < cap,
            forall|s: int|
                0 <= s < cap ==> #[trigger] pos@[s] == if t.occupied(s as u32) {
                    t.position(s as u32) as u32
                } else {
                    NULL
                },
            forall|s: u32| #[trigger] t.occupied(s) ==> 0 <= t.position(s) < n,
            i <= k,
            p == (|x: int| passes_over(*t, x, k as int)),
            expected <= i,
            expected == count_where(p, 0, i as int),
        decreases k - i,
    {
        let link = t.link(slots[i]);
        let over = if link != NULL && (link as usize) < cap {
            let at = pos[link as usize];
            at != NULL && (at as usize) > k
        } else {
            false
        };
        proof {
            if t.occupied(link) {
                assert(pos@[link as int] == t.position(link) as u32);
            } else if link != NULL && (link as usize) < cap {
                assert(pos@[link as int] == NULL);
            }
            assert(over == p(i as int));
        }
        if over {
            expected = expected + 1;
        }
        i = i + 1;
    }
    proof {
        lemma_count_split(p, 0, k as int, n as int);
        assert forall|i: int| k <= i < n implies !#[trigger] p(i) by {
        }
        lemma_count_none(p, k as int, n as int);
    }
    expected
}

/// Whether slot `s` holds a vertex by its storage index: it is in range and the
/// index is set.
pub open spec fn live_slot(t: FlatTopology, s: u32) -> bool {
    &&& (s as int) < t.storage_indices().len()
    &&& t.storage_indices()[s as int] != NULL
}

/// Whether the storage index at `s` is set.
pub open spec fn live_at(t: FlatTopology) -> spec_fn(int) -> bool {
    |s: int| t.storage_indices()[s] != NULL
}

/// Number of slots whose storage index is set.
pub open spec fn live_count(t: FlatTopology) -> nat {
    count_where(live_at(t), 0, t.storage_indices().len() as int)
}

/// The slot reached after `i` steps along `next` from the head.
pub open spec fn walk_slot(t: FlatTopology, i: nat) -> u32
    decreases i,
{
    if i == 0 {
        t.head_slot()
    } else {
        t.nexts()[walk_slot(t, (i - 1) as nat) as int]
    }
}

/// Step `i` of the walk is sound: it is at a live slot whose `prev` is the slot
/// visited before (`NULL` at the head), and only the tail has no `next`.
pub open spec fn walk_step_ok(t: FlatTopology, i: nat) -> bool {
    let k = walk_slot(t, i);
    &&& k != NULL
    &&& live_slot(t, k)
    &&& t.prevs()[k as int] == if i == 0 {
        NULL
    } else {
        walk_slot(t, (i - 1) as nat)
    }
    &&& t.nexts()[k as int] == NULL ==> k == t.tail_slot()
}

/// The arrays form a consistent vertex list: head and tail are set, the slot
/// arrays have one length, storage holds as many slots as are live and storage
/// and storage indices are inverse, and the `next` walk from the head takes one
/// sound step per live slot, leaves the list right after the tail, and ends there.
pub open spec fn list_storage_consistent(t: FlatTopology) -> bool {
    let n = live_count(t);
    &&& t.head_slot() != NULL
    &&& t.tail_slot() != NULL
    &&& t.prevs().len() == t.storage_indices().len()
    &&& t.nexts().len() == t.storage_indices().len()
    &&& t.storage_view().len() == n
    &&& forall|i: int|
        0 <= i < t.storage_view().len() ==> live_slot(t, #[trigger] t.storage_view()[i])
            && t.storage_indices()[t.storage_view()[i] as int] as int == i
    &&& forall|i: nat| i < n ==> #[trigger] walk_step_ok(t, i)
    &&& walk_slot(t, n) == NULL
    &&& n > 0
    &&& walk_slot(t, (n - 1) as nat) == t.tail_slot()
}

/// Check that the vertex list and the storage agree: head and tail are set,
/// storage and storage indices are inverse, and walking `next` from the head
/// visits every live slot once with matching `prev` links and ends at the tail.
pub fn check_list_and_storage(t: &FlatTopology) -> (r: Result<(), String>)
    ensures
        r is Ok <==> list_storage_consistent(*t),
{
    let head = t.head();
    let tail = t.tail();
    if head == NULL || tail == NULL {
        return Err(String::from_str("head/tail must be set"));
    }
    let si = t.storage_index_array();
    let prevs = t.prev_array();
    let nexts = t.next_array();
    if prevs.len() != si.len() || nexts.len() != si.len() {
        return Err(String::from_str("slot arrays differ in length"));
    }
    let mut n: usize = 0;
    let mut s: usize = 0;
    while s < si.len()
        invariant
            si@ == t.storage_indices(),
            s <= si@.len(),
            n <= s,
            n == count_where(live_at(*t), 0, s as int),
        decreases si.len() - s,
    {
        if si[s] != NULL {
            n = n + 1;
        }
        s = s + 1;
    }
    assert(n == live_count(*t));
    let storage = t.storage();
    if storage.len() != n {
        return Err(storage_size_message(storage.len(), n));
    }
    let mut idx: usize = 0;
    while idx < storage.len()
        invariant
            storage@ == t.storage_view(),
            si@ == t.storage_indices(),
            idx <= storage@.len(),
            forall|i: int|
                0 <= i < idx ==> live_slot(*t, #[trigger] t.storage_view()[i])
                    && t.storage_indices()[t.storage_view()[i] as int] as int == i,
        decreases storage.len() - idx,
    {
        let slot = storage[idx];
        if slot as usize >= si.len() || si[slot as usize] == NULL {
            return Err(stale_storage_message(idx));
        }
        if si[slot as usize] as usize != idx {
            return Err(storage_index_mismatch_message(slot, si[slot as usize], idx));
        }
        idx = idx + 1;
    }
    let mut count: usize = 0;
    let mut prev: u32 = NULL;
    let mut k: u32 = head;
    while k != NULL
        invariant
            si@ == t.storage_indices(),
            prevs@ == t.prevs(),
            nexts@ == t.nexts(),
            prevs@.len() == si@.len(),
            nexts@.len() == si@.len(),
            head == t.head_slot(),
            tail == t.tail_slot(),
            tail != NULL,
            n == live_count(*t),
            count <= n,
            k == walk_slot(*t, count as nat),
            prev == if count == 0 {
                NULL
            } else {
                walk_slot(*t, (count - 1) as nat)
            },
            forall|i: nat| i < count ==> #[trigger] walk_step_ok(*t, i),
        decreases n - count,
    {
        proof {
            if list_storage_consistent(*t) {
                assert(count < n);
                assert(walk_step_ok(*t, count as nat));
            }
        }
        if k as usize >= si.len() || si[k as usize] == NULL {
            return Err(String::from_str("list contains a stale key"));
        }
        if prevs[k as usize] != prev {
            return Err(prev_mismatch_message(k));
        }
        let nx = nexts[k as usize];
        if nx == NULL && k != tail {
            return Err(null_next_message(k));
        }
        proof {
            assert(walk_step_ok(*t, count as nat));
            assert(walk_slot(*t, (count + 1) as nat) == nx);
        }
        if count >= n {
            return Err(String::from_str("cycle detected in vertex list"));
        }
        prev = k;
        k = nx;
        count = count + 1;
    }
    proof {
        if list_storage_consistent(*t) {
            if count < n {
                assert(walk_step_ok(*t, count as nat));
            }
            assert(count == n);
        }
    }
    if prev != tail {
        return Err(String::from_str("tail is not the last list vertex"));
    }
    if count != n {
        return Err(list_count_message(count, n));
    }
    Ok(())
}

proof fn lemma_count_all(p: spec_fn(int) -> bool, lo: int, hi: int)
    requires
        lo <= hi,
        forall|i: int| lo <= i < hi ==> #[trigger] p(i),
    ensures
        count_where(p, lo, hi) == hi - lo,
    decreases hi - lo,
{
    if hi > lo {
        lemma_count_all(p, lo, hi - 1);
    }
}

proof fn lemma_count_disjoint_union(p: spec_fn(int) -> bool, q: spec_fn(int) -> bool, r: spec_fn(int) -> bool, lo: int, hi: int)
    requires
        forall|i: int| lo <= i < hi ==> #[trigger] p(i) == (q(i) || r(i)) && !(q(i) && r(i)),
    ensures
        count_where(p, lo, hi) == count_where(q, lo, hi) + count_where(r, lo, hi),
    decreases hi - lo,
{
    if hi > lo {
        lemma_count_disjoint_union(p, q, r, lo, hi - 1);
        assert(p(hi - 1) == (q(hi - 1) || r(hi - 1)));
    }
}

proof fn lemma_count_one(p: spec_fn(int) -> bool, lo: int, hi: int, j: int)
    requires
        lo <= j < hi,
        p(j),
        forall|i: int| lo <= i < hi && i != j ==> !#[trigger] p(i),
    ensures
        count_where(p, lo, hi) == 1,
{
    lemma_count_split(p, lo, j, hi);
    lemma_count_split(p, j, j + 1, hi);
    lemma_count_none(p, lo, j);
    lemma_count_none(p, j + 1, hi);
    assert(count_where(p, j, j) == 0);
}

/// Whether entry `i` of storage is a slot below `m`.
pub open spec fn stored_below(t: FlatTopology, m: int) -> spec_fn(int) -> bool {
    |i: int| (t.storage_view()[i] as int) < m
}

/// Whether entry `i` of storage is slot `m`.
pub open spec fn stored_at(t: FlatTopology, m: int) -> spec_fn(int) -> bool {
    |i: int| t.storage_view()[i] as int == m
}

proof fn lemma_live_prefix(t: FlatTopology, m: int)
    requires
        t.wf(),
        0 <= m <= t.cap(),
    ensures
        count_where(live_at(t), 0, m) == count_where(stored_below(t, m), 0, t.storage_view().len() as int),
    decreases m,
{
    lemma_wf_arrays(t);
    lemma_wf_views(t);
    let n = t.storage_view().len() as int;
    if m == 0 {
        lemma_count_none(stored_below(t, 0), 0, n);
    } else {
        lemma_live_prefix(t, m - 1);
        let q = stored_below(t, m - 1);
        let e = stored_at(t, m - 1);
        assert forall|i: int| 0 <= i < n implies #[trigger] stored_below(t, m)(i) == (q(i) || e(i)) && !(q(i) && e(i)) by {}
        lemma_count_disjoint_union(stored_below(t, m), q, e, 0, n);
        if live_at(t)(m - 1) {
            let j = t.storage_indices()[m - 1] as int;
            assert forall|i: int| 0 <= i < n && i != j implies !#[trigger] e(i) by {
                if e(i) {
                    assert(t.storage_indices()[t.storage_view()[i] as int] == i);
                }
            }
            lemma_count_one(e, 0, n, j);
        } else {
            assert forall|i: int| 0 <= i < n implies !#[trigger] e(i) by {
                if e(i) {
                    assert(t.storage_indices()[t.storage_view()[i] as int] == i);
                }
            }
            lemma_count_none(e, 0, n);
        }
    }
}

/// On a well-formed topology the live slots are exactly the stored ones.
proof fn lemma_live_count_is_stored(t: FlatTopology)
    requires
        t.wf(),
    ensures
        live_count(t) == t.storage_view().len(),
{
    lemma_wf_arrays(t);
    lemma_wf_views(t);
    lemma_live_prefix(t, t.cap() as int);
    let n = t.storage_view().len() as int;
    assert forall|i: int| 0 <= i < n implies #[trigger] stored_below(t, t.cap() as int)(i) by {}
    lemma_count_all(stored_below(t, t.cap() as int), 0, n);
}

proof fn lemma_walk_follows_list(t: FlatTopology, i: nat)
    requires
        t.wf(),
        i <= t.list().len(),
        t.list().len() > 0,
    ensures
        i < t.list().len() ==> walk_slot(t, i) == t.list()[i as int],
        i == t.list().len() ==> walk_slot(t, i) == NULL,
    decreases i,
{
    lemma_wf_arrays(t);
    if i > 0 {
        lemma_walk_follows_list(t, (i - 1) as nat);
        assert(t.nexts()[t.list()[i - 1] as int] == if i < t.list().len() {
            t.list()[i as int]
        } else {
            NULL
        });
    }
}

/// A well-formed topology with vertices passes the list and storage check.
pub proof fn lemma_well_formed_lists_are_consistent(t: FlatTopology)
    requires
        t.wf(),
        t.list().len() > 0,
    ensures
        list_storage_consistent(t),
{
    lemma_wf_arrays(t);
    lemma_wf_views(t);
    lemma_live_count_is_stored(t);
    let n = t.list().len();
    assert(t.list()[0] < t.cap());
    assert(t.list()[n - 1] < t.cap());
    assert forall|i: int|
        0 <= i < t.storage_view().len() implies live_slot(t, #[trigger] t.storage_view()[i])
            && t.storage_indices()[t.storage_view()[i] as int] as int == i by {}
    assert forall|i: nat| i < n implies #[trigger] walk_step_ok(t, i) by {
        lemma_walk_follows_list(t, i);
        assert(t.list()[i as int] < t.cap());
        if i > 0 {
            lemma_walk_follows_list(t, (i - 1) as nat);
        }
        if i + 1 < n {
            assert(t.list()[i + 1int] < t.cap());
        }
    }
    lemma_walk_follows_list(t, n);
    lemma_walk_follows_list(t, (n - 1) as nat);
}

} // verus!
