//! Merging unit cells into the fewest axis-aligned boxes.
//!
//! A greedy pass comes first: the cells are visited in (z, y, x) order,
//! and each cell not yet claimed starts a box that is grown along X as
//! far as the cells run, then along Y while every row has the full X
//! run, then along Z while every layer has the full rectangle; the box's
//! cells are then claimed. Its boxes cover the cells exactly, without
//! overlap. The search of `cover` then looks for an exact cover with
//! fewer boxes and, when there is one, returns a cover with the fewest.

use vstd::prelude::*;
use crate::bounds::Bounds;
use crate::occupancy::CellPos;
use crate::cover::{exact_cover, lemma_search, no_cover_below, search, search_exec};

verus! {

// =====================================================================
// Order
// =====================================================================

/// `a` comes before `b` by z, then y, then x.
pub open spec fn cell_lt(a: CellPos, b: CellPos) -> bool {
    a.2 < b.2 || (a.2 == b.2 && (a.1 < b.1 || (a.1 == b.1 && a.0 < b.0)))
}

pub open spec fn strictly_sorted(s: Seq<CellPos>) -> bool {
    forall|i: int, j: int| 0 <= i < j < s.len() ==> cell_lt(#[trigger] s[i], #[trigger] s[j])
}

/// The cells of `s`, each once, in (z, y, x) order.
pub open spec fn sorted_cells(s: Set<CellPos>) -> Seq<CellPos> {
    choose|q: Seq<CellPos>| strictly_sorted(q) && forall|c: CellPos| #[trigger] q.contains(c) <==> s.contains(c)
}

proof fn lemma_lt_trans(a: CellPos, b: CellPos, c: CellPos)
    requires
        cell_lt(a, b),
        cell_lt(b, c),
    ensures
        cell_lt(a, c),
{
}

/// Two sorted lists holding the same cells are equal.
proof fn lemma_sorted_unique(p: Seq<CellPos>, q: Seq<CellPos>)
    requires
        strictly_sorted(p),
        strictly_sorted(q),
        forall|c: CellPos| #[trigger] p.contains(c) <==> q.contains(c),
    ensures
        p == q,
    decreases p.len(),
{
    if p.len() == 0 {
        if q.len() > 0 {
            assert(q.contains(q[0]));
            assert(p.contains(q[0]));
            assert(false);
        }
        assert(q =~= p);
    } else if q.len() == 0 {
        assert(p.contains(p[0]));
        assert(q.contains(p[0]));
    } else {
        let a = p.last();
        let b = q.last();
        assert(p.contains(a));
        assert(q.contains(a));
        assert(q.contains(b));
        assert(p.contains(b));
        let ia = choose|i: int| 0 <= i < q.len() && q[i] == a;
        let ib = choose|i: int| 0 <= i < p.len() && p[i] == b;
        if ia < q.len() - 1 {
            assert(cell_lt(q[ia], q[q.len() - 1]));
            if ib < p.len() - 1 {
                assert(cell_lt(p[ib], p[p.len() - 1]));
            }
        }
        if ib < p.len() - 1 {
            assert(cell_lt(p[ib], p[p.len() - 1]));
        }
        assert(a == b);
        let p0 = p.drop_last();
        let q0 = q.drop_last();
        assert forall|c: CellPos| #[trigger] p0.contains(c) <==> q0.contains(c) by {
            if p0.contains(c) {
                let i = choose|i: int| 0 <= i < p0.len() && p0[i] == c;
                assert(cell_lt(p[i], p[p.len() - 1]));
                assert(p.contains(c));
                let j = choose|j: int| 0 <= j < q.len() && q[j] == c;
                assert(j != q.len() - 1);
                assert(q0[j] == c);
            }
            if q0.contains(c) {
                let i = choose|i: int| 0 <= i < q0.len() && q0[i] == c;
                assert(cell_lt(q[i], q[q.len() - 1]));
                assert(q.contains(c));
                assert(p.contains(c));
                let j = choose|j: int| 0 <= j < p.len() && p[j] == c;
                assert(j != p.len() - 1);
                assert(p0[j] == c);
            }
        }
        lemma_sorted_unique(p0, q0);
        assert(p =~= p0.push(a));
        assert(q =~= q0.push(b));
    }
}

fn cell_less(a: CellPos, b: CellPos) -> (r: bool)
    ensures
        r == cell_lt(a, b),
{
    a.2 < b.2 || (a.2 == b.2 && (a.1 < b.1 || (a.1 == b.1 && a.0 < b.0)))
}

fn same_cell(a: CellPos, b: CellPos) -> (r: bool)
    ensures
        r == (a == b),
{
    a.0 == b.0 && a.1 == b.1 && a.2 == b.2
}

/// The first position whose cell is not before `p`.
fn lower_bound(v: &Vec<CellPos>, p: CellPos) -> (r: usize)
    requires
        strictly_sorted(v@),
    ensures
        r <= v@.len(),
        forall|i: int| 0 <= i < r ==> cell_lt(#[trigger] v@[i], p),
        forall|i: int| r <= i < v@.len() ==> !cell_lt(#[trigger] v@[i], p),
{
    let mut lo: usize = 0;
    let mut hi: usize = v.len();
    while lo < hi
        invariant
            lo <= hi <= v@.len(),
            strictly_sorted(v@),
            forall|i: int| 0 <= i < lo ==> cell_lt(#[trigger] v@[i], p),
            forall|i: int| hi <= i < v@.len() ==> !cell_lt(#[trigger] v@[i], p),
        decreases hi - lo,
    {
        let mid = lo + (hi - lo) / 2;
        if cell_less(v[mid], p) {
            proof {
                assert forall|i: int| 0 <= i < mid + 1 implies cell_lt(#[trigger] v@[i], p) by {
                    if i < mid {
                        assert(cell_lt(v@[i], v@[mid as int]));
                        lemma_lt_trans(v@[i], v@[mid as int], p);
                    }
                }
            }
            lo = mid + 1;
        } else {
            proof {
                assert forall|i: int| mid <= i < v@.len() implies !cell_lt(#[trigger] v@[i], p) by {
                    if i > mid {
                        assert(cell_lt(v@[mid as int], v@[i]));
                        if cell_lt(v@[i], p) {
                            lemma_lt_trans(v@[mid as int], v@[i], p);
                        }
                    }
                }
            }
            hi = mid;
        }
    }
    lo
}

/// Add `p` to a sorted list of distinct cells.
fn sorted_insert(v: &mut Vec<CellPos>, p: CellPos)
    requires
        strictly_sorted(old(v)@),
    ensures
        strictly_sorted(final(v)@),
        forall|c: CellPos| #[trigger] final(v)@.contains(c) <==> (old(v)@.contains(c) || c == p),
{
    let i = lower_bound(v, p);
    if i < v.len() && same_cell(v[i], p) {
        assert(v@.contains(p));
        return;
    }
    proof {
        assert forall|k: int| i <= k < v@.len() implies cell_lt(p, #[trigger] v@[k]) by {
            if k == i {
                assert(!cell_lt(v@[k], p));
                assert(v@[k] != p);
            } else {
                assert(cell_lt(v@[i as int], v@[k]));
                assert(v@[i as int] != p);
                assert(!cell_lt(v@[i as int], p));
                lemma_lt_trans(p, v@[i as int], v@[k]);
            }
        }
    }
    v.insert(i, p);
    proof {
        let nv = v@;
        let ov = old(v)@;
        assert forall|a: int, b: int| 0 <= a < b < nv.len() implies cell_lt(#[trigger] nv[a], #[trigger] nv[b]) by {
            if b < i {
                assert(nv[a] == ov[a] && nv[b] == ov[b]);
            } else if b == i {
                assert(nv[a] == ov[a]);
            } else if a < i {
                assert(nv[a] == ov[a] && nv[b] == ov[b - 1]);
                assert(cell_lt(ov[a], p));
                lemma_lt_trans(ov[a], p, ov[b - 1]);
            } else if a == i {
                assert(nv[b] == ov[b - 1]);
            } else {
                assert(nv[a] == ov[a - 1] && nv[b] == ov[b - 1]);
            }
        }
        assert forall|c: CellPos| #[trigger] nv.contains(c) <==> (ov.contains(c) || c == p) by {
            if nv.contains(c) {
                let k = choose|k: int| 0 <= k < nv.len() && nv[k] == c;
                if k < i {
                    assert(ov[k] == c);
                } else if k > i {
                    assert(ov[k - 1] == c);
                }
            }
            if ov.contains(c) {
                let k = choose|k: int| 0 <= k < ov.len() && ov[k] == c;
                if k < i {
                    assert(nv[k] == c);
                } else {
                    assert(nv[k + 1] == c);
                }
            }
            if c == p {
                assert(nv[i as int] == p);
            }
        }
    }
}

/// The distinct cells of `positions`, sorted.
fn sort_cells(positions: &Vec<CellPos>) -> (r: Vec<CellPos>)
    ensures
        strictly_sorted(r@),
        forall|c: CellPos| #[trigger] r@.contains(c) <==> positions@.contains(c),
{
    let mut out: Vec<CellPos> = Vec::new();
    let mut i: usize = 0;
    while i < positions.len()
        invariant
            i <= positions@.len(),
            strictly_sorted(out@),
            forall|c: CellPos| #[trigger] out@.contains(c) <==> positions@.take(i as int).contains(c),
        decreases positions@.len() - i,
    {
        sorted_insert(&mut out, positions[i]);
        proof {
            let t = positions@.take(i + 1);
            assert forall|c: CellPos| #[trigger] t.contains(c) <==> (positions@.take(i as int).contains(c) || c
                == positions@[i as int]) by {
                if t.contains(c) {
                    let k = choose|k: int| 0 <= k < t.len() && t[k] == c;
                    if k < i {
                        assert(positions@.take(i as int)[k] == c);
                    }
                }
                if positions@.take(i as int).contains(c) {
                    let k = choose|k: int| 0 <= k < i && positions@.take(i as int)[k] == c;
                    assert(t[k] == c);
                }
                if c == positions@[i as int] {
                    assert(t[i as int] == c);
                }
            }
        }
        i = i + 1;
    }
    assert(positions@.take(positions@.len() as int) =~= positions@);
    out
}

// =====================================================================
// The greedy merge
// =====================================================================

/// Where the run of cells from `x` along +X ends.
pub open spec fn run_x(occ: Set<CellPos>, x: int, y: i32, z: i32) -> int
    decreases i32::MAX - x,
{
    if x < i32::MAX && occ.contains((x as i32, y, z)) {
        run_x(occ, x + 1, y, z)
    } else {
        x
    }
}

/// Every cell of row `y` over `[x0, x1)` is in `occ`.
pub open spec fn row_full(occ: Set<CellPos>, x0: int, x1: int, y: int, z: i32) -> bool {
    forall|x: int| x0 <= x < x1 ==> #[trigger] occ.contains((x as i32, y as i32, z))
}

/// Where the run of full rows from `y` along +Y ends.
pub open spec fn run_y(occ: Set<CellPos>, x0: int, x1: int, y: int, z: i32) -> int
    decreases i32::MAX - y,
{
    if y < i32::MAX && row_full(occ, x0, x1, y, z) {
        run_y(occ, x0, x1, y + 1, z)
    } else {
        y
    }
}

/// Every cell of layer `z` over `[x0, x1) × [y0, y1)` is in `occ`.
pub open spec fn layer_full(occ: Set<CellPos>, x0: int, x1: int, y0: int, y1: int, z: int) -> bool {
    forall|y: int| y0 <= y < y1 ==> #[trigger] row_full(occ, x0, x1, y, z as i32)
}

/// Where the run of full layers from `z` along +Z ends.
pub open spec fn run_z(occ: Set<CellPos>, x0: int, x1: int, y0: int, y1: int, z: int) -> int
    decreases i32::MAX - z,
{
    if z < i32::MAX && layer_full(occ, x0, x1, y0, y1, z) {
        run_z(occ, x0, x1, y0, y1, z + 1)
    } else {
        z
    }
}

/// The box grown from cell `s`.
pub open spec fn grow_spec(occ: Set<CellPos>, s: CellPos) -> Bounds {
    let x1 = run_x(occ, s.0 + 1, s.1, s.2);
    let y1 = run_y(occ, s.0 as int, x1, s.1 + 1, s.2);
    let z1 = run_z(occ, s.0 as int, x1, s.1 as int, y1, s.2 + 1);
    Bounds(s.0, s.1, s.2, x1 as i32, y1 as i32, z1 as i32)
}

/// Cell `c` lies in the box `[b.0, b.3) × [b.1, b.4) × [b.2, b.5)`.
pub open spec fn in_box(b: Bounds, c: CellPos) -> bool {
    &&& b.0 <= c.0 < b.3
    &&& b.1 <= c.1 < b.4
    &&& b.2 <= c.2 < b.5
}

pub open spec fn box_cells(b: Bounds) -> Set<CellPos> {
    Set::new(|c: CellPos| in_box(b, c))
}

/// The boxes the merge produces, visiting `order` with `occ` unclaimed.
pub open spec fn greedy_spec(order: Seq<CellPos>, occ: Set<CellPos>) -> Seq<Bounds>
    decreases order.len(),
{
    if order.len() == 0 {
        Seq::empty()
    } else {
        let s = order[0];
        if occ.contains(s) {
            let b = grow_spec(occ, s);
            seq![b] + greedy_spec(order.drop_first(), occ.difference(box_cells(b)))
        } else {
            greedy_spec(order.drop_first(), occ)
        }
    }
}

/// The set of a list's cells.
pub open spec fn cell_set(s: Seq<CellPos>) -> Set<CellPos> {
    Set::new(|c: CellPos| s.contains(c))
}

/// The merge of a list of cells: the greedy pass, unless the search
/// finds a cover with fewer boxes, which it then returns.
pub open spec fn merge_spec(positions: Seq<CellPos>) -> Seq<Bounds> {
    let order = sorted_cells(cell_set(positions));
    let g = greedy_spec(order, cell_set(positions));
    match search(order, g.len() as int) {
        Some(q) => q,
        None => g,
    }
}

/// No cell sits at `i32::MAX` on any axis.
pub open spec fn below_max(c: CellPos) -> bool {
    c.0 < i32::MAX && c.1 < i32::MAX && c.2 < i32::MAX
}

proof fn lemma_run_x(occ: Set<CellPos>, x: int, y: i32, z: i32)
    requires
        x <= i32::MAX,
    ensures
        x <= run_x(occ, x, y, z) <= i32::MAX,
        forall|k: int| x <= k < run_x(occ, x, y, z) ==> #[trigger] occ.contains((k as i32, y, z)),
    decreases i32::MAX - x,
{
    if x < i32::MAX && occ.contains((x as i32, y, z)) {
        lemma_run_x(occ, x + 1, y, z);
    }
}

proof fn lemma_run_y(occ: Set<CellPos>, x0: int, x1: int, y: int, z: i32)
    requires
        y <= i32::MAX,
    ensures
        y <= run_y(occ, x0, x1, y, z) <= i32::MAX,
        forall|k: int| y <= k < run_y(occ, x0, x1, y, z) ==> #[trigger] row_full(occ, x0, x1, k, z),
    decreases i32::MAX - y,
{
    if y < i32::MAX && row_full(occ, x0, x1, y, z) {
        lemma_run_y(occ, x0, x1, y + 1, z);
    }
}

proof fn lemma_run_z(occ: Set<CellPos>, x0: int, x1: int, y0: int, y1: int, z: int)
    requires
        z <= i32::MAX,
    ensures
        z <= run_z(occ, x0, x1, y0, y1, z) <= i32::MAX,
        forall|k: int| z <= k < run_z(occ, x0, x1, y0, y1, z) ==> #[trigger] layer_full(occ, x0, x1, y0, y1, k),
    decreases i32::MAX - z,
{
    if z < i32::MAX && layer_full(occ, x0, x1, y0, y1, z) {
        lemma_run_z(occ, x0, x1, y0, y1, z + 1);
    }
}

/// The grown box holds its start cell, only cells of `occ`, and no cell
/// at `i32::MAX`.
proof fn lemma_grow(occ: Set<CellPos>, s: CellPos)
    requires
        occ.contains(s),
        below_max(s),
    ensures
        in_box(grow_spec(occ, s), s),
        forall|c: CellPos| #[trigger] in_box(grow_spec(occ, s), c) ==> occ.contains(c),
{
    let b = grow_spec(occ, s);
    let x1 = run_x(occ, s.0 + 1, s.1, s.2);
    lemma_run_x(occ, s.0 + 1, s.1, s.2);
    let y1 = run_y(occ, s.0 as int, x1, s.1 + 1, s.2);
    lemma_run_y(occ, s.0 as int, x1, s.1 + 1, s.2);
    let z1 = run_z(occ, s.0 as int, x1, s.1 as int, y1, s.2 + 1);
    lemma_run_z(occ, s.0 as int, x1, s.1 as int, y1, s.2 + 1);
    assert(row_full(occ, s.0 as int, x1, s.1 as int, s.2)) by {
        assert forall|x: int| s.0 <= x < x1 implies #[trigger] occ.contains((x as i32, s.1 as i32, s.2)) by {
            if x > s.0 {
                assert(occ.contains((x as i32, s.1, s.2)));
            } else {
                assert((x as i32, s.1 as i32, s.2) == s);
            }
        }
    }
    assert(layer_full(occ, s.0 as int, x1, s.1 as int, y1, s.2 as int)) by {
        assert forall|y: int| s.1 <= y < y1 implies #[trigger] row_full(occ, s.0 as int, x1, y, s.2 as int as i32) by {
            if y > s.1 {
                assert(row_full(occ, s.0 as int, x1, y, s.2));
            }
        }
    }
    assert forall|c: CellPos| #[trigger] in_box(b, c) implies occ.contains(c) by {
        let z = c.2 as int;
        if z > s.2 {
            assert(layer_full(occ, s.0 as int, x1, s.1 as int, y1, z));
        }
        assert(layer_full(occ, s.0 as int, x1, s.1 as int, y1, z));
        assert(row_full(occ, s.0 as int, x1, c.1 as int, z as i32));
        assert(occ.contains((c.0 as int as i32, c.1 as int as i32, z as i32)));
        assert((c.0 as int as i32, c.1 as int as i32, z as i32) == c);
    }
}

/// The merge covers the unclaimed cells exactly: every unclaimed cell
/// lies in exactly one box, and every cell of a box was unclaimed.
#[verifier::spinoff_prover]
#[verifier::rlimit(40)]
proof fn lemma_greedy_cover(order: Seq<CellPos>, occ: Set<CellPos>)
    requires
        forall|c: CellPos| #[trigger] occ.contains(c) ==> order.contains(c) && below_max(c),
    ensures
        forall|c: CellPos|
            occ.contains(c) <==> exists|k: int| 0 <= k < greedy_spec(order, occ).len() && #[trigger] in_box(
                greedy_spec(order, occ)[k],
                c,
            ),
        forall|k1: int, k2: int, c: CellPos|
            0 <= k1 < k2 < greedy_spec(order, occ).len() ==> !(#[trigger] in_box(greedy_spec(order, occ)[k1], c)
                && #[trigger] in_box(greedy_spec(order, occ)[k2], c)),
    decreases order.len(),
{
    if order.len() == 0 {
        assert forall|c: CellPos| !occ.contains(c) by {
            if occ.contains(c) {
                assert(order.contains(c));
            }
        }
        assert(greedy_spec(order, occ).len() == 0);
    } else {
        let s = order[0];
        let rest = order.drop_first();
        if occ.contains(s) {
            let b = grow_spec(occ, s);
            lemma_grow(occ, s);
            let occ2 = occ.difference(box_cells(b));
            assert forall|c: CellPos| #[trigger] occ2.contains(c) implies rest.contains(c) && below_max(c) by {
                assert(order.contains(c));
                let i = choose|i: int| 0 <= i < order.len() && order[i] == c;
                if i == 0 {
                    assert(in_box(b, c));
                    assert(box_cells(b).contains(c));
                } else {
                    assert(rest[i - 1] == c);
                }
            }
            lemma_greedy_cover(rest, occ2);
            let g = greedy_spec(order, occ);
            let g2 = greedy_spec(rest, occ2);
            assert(g == seq![b] + g2);
            assert forall|c: CellPos|
                occ.contains(c) <==> exists|k: int| 0 <= k < g.len() && #[trigger] in_box(g[k], c) by {
                if occ.contains(c) {
                    if in_box(b, c) {
                        assert(in_box(g[0], c));
                    } else {
                        assert(occ2.contains(c));
                        let k = choose|k: int| 0 <= k < g2.len() && #[trigger] in_box(g2[k], c);
                        assert(g[k + 1] == g2[k]);
                        assert(in_box(g[k + 1], c));
                    }
                }
                if exists|k: int| 0 <= k < g.len() && #[trigger] in_box(g[k], c) {
                    let k = choose|k: int| 0 <= k < g.len() && #[trigger] in_box(g[k], c);
                    if k > 0 {
                        assert(g[k] == g2[k - 1]);
                        assert(in_box(g2[k - 1], c));
                        assert(occ2.contains(c));
                    }
                }
            }
            assert forall|k1: int, k2: int, c: CellPos|
                0 <= k1 < k2 < g.len() implies !(#[trigger] in_box(g[k1], c) && #[trigger] in_box(g[k2], c)) by {
                assert(g[k2] == g2[k2 - 1]);
                if k1 > 0 {
                    assert(g[k1] == g2[k1 - 1]);
                } else if in_box(g[k1], c) && in_box(g[k2], c) {
                    assert(in_box(g2[k2 - 1], c));
                    assert(occ2.contains(c));
                    assert(box_cells(b).contains(c));
                }
            }
        } else {
            assert forall|c: CellPos| #[trigger] occ.contains(c) implies rest.contains(c) && below_max(c) by {
                assert(order.contains(c));
                let i = choose|i: int| 0 <= i < order.len() && order[i] == c;
                assert(i != 0);
                assert(rest[i - 1] == c);
            }
            lemma_greedy_cover(rest, occ);
            assert(greedy_spec(order, occ) == greedy_spec(rest, occ));
        }
    }
}

/// The merge covers the given cells exactly with the fewest boxes: no
/// exact cover of the cells by boxes has fewer.
pub proof fn lemma_merge_fewest(positions: Seq<CellPos>)
    requires
        forall|i: int| 0 <= i < positions.len() ==> below_max(#[trigger] positions[i]),
    ensures
        exact_cover(merge_spec(positions), cell_set(positions)),
        no_cover_below(cell_set(positions), merge_spec(positions).len() as int),
{
    let s = cell_set(positions);
    lemma_sorted_cells_exist(positions);
    let order = sorted_cells(s);
    assert forall|c: CellPos| #[trigger] s.contains(c) implies order.contains(c) && below_max(c) by {
        let i = choose|i: int| 0 <= i < positions.len() && positions[i] == c;
    }
    lemma_greedy_cover(order, s);
    let g = greedy_spec(order, s);
    assert(exact_cover(g, s));
    assert forall|i: int| 0 <= i < order.len() implies below_max(#[trigger] order[i]) by {
        assert(order.contains(order[i]));
        assert(positions.contains(order[i]));
        let k = choose|k: int| 0 <= k < positions.len() && positions[k] == order[i];
    }
    lemma_search(order, g.len() as int);
    assert(cell_set(order) =~= s);
}

/// The merged boxes cover exactly the given cells, and no two boxes
/// share a cell.
pub proof fn lemma_merge_exact_cover(positions: Seq<CellPos>)
    requires
        forall|i: int| 0 <= i < positions.len() ==> below_max(#[trigger] positions[i]),
    ensures
        forall|c: CellPos|
            positions.contains(c) <==> exists|k: int| 0 <= k < merge_spec(positions).len() && #[trigger] in_box(
                merge_spec(positions)[k],
                c,
            ),
        forall|k1: int, k2: int, c: CellPos|
            0 <= k1 < k2 < merge_spec(positions).len() ==> !(#[trigger] in_box(merge_spec(positions)[k1], c)
                && #[trigger] in_box(merge_spec(positions)[k2], c)),
{
    lemma_merge_fewest(positions);
    let g = merge_spec(positions);
    assert forall|c: CellPos|
        positions.contains(c) <==> exists|k: int| 0 <= k < g.len() && #[trigger] in_box(g[k], c) by {
        assert(positions.contains(c) <==> cell_set(positions).contains(c));
    }
}

proof fn lemma_sorted_cells_exist(positions: Seq<CellPos>)
    ensures
        strictly_sorted(sorted_cells(cell_set(positions))),
        forall|c: CellPos| #[trigger] sorted_cells(cell_set(positions)).contains(c) <==> positions.contains(c),
{
    let w = sorted_witness(positions);
    assert forall|c: CellPos| #[trigger] w.contains(c) <==> cell_set(positions).contains(c) by {}
}

/// A sorted list of the distinct cells of `positions`, built in ghost
/// code: it shows that `sorted_cells` picks a real one.
proof fn sorted_witness(positions: Seq<CellPos>) -> (w: Seq<CellPos>)
    ensures
        strictly_sorted(w),
        forall|c: CellPos| #[trigger] w.contains(c) <==> positions.contains(c),
    decreases positions.len(),
{
    if positions.len() == 0 {
        Seq::empty()
    } else {
        let w0 = sorted_witness(positions.drop_last());
        let p = positions.last();
        let w = ghost_insert(w0, p);
        assert forall|c: CellPos| #[trigger] w.contains(c) <==> positions.contains(c) by {
            if positions.contains(c) {
                let k = choose|k: int| 0 <= k < positions.len() && positions[k] == c;
                if k < positions.len() - 1 {
                    assert(positions.drop_last()[k] == c);
                }
            }
            if positions.drop_last().contains(c) {
                let k = choose|k: int| 0 <= k < positions.len() - 1 && positions.drop_last()[k] == c;
                assert(positions[k] == c);
            }
        }
        w
    }
}

proof fn ghost_insert(v: Seq<CellPos>, p: CellPos) -> (w: Seq<CellPos>)
    requires
        strictly_sorted(v),
    ensures
        strictly_sorted(w),
        forall|c: CellPos| #[trigger] w.contains(c) <==> (v.contains(c) || c == p),
    decreases v.len(),
{
    if v.len() == 0 {
        let w = seq![p];
        assert(w[0] == p);
        assert(w.contains(p));
        assert forall|c: CellPos| #[trigger] w.contains(c) implies c == p by {}
        w
    } else if v.last() == p {
        assert(v.contains(p));
        v
    } else if cell_lt(v.last(), p) {
        let w = v.push(p);
        assert forall|a: int, b: int| 0 <= a < b < w.len() implies cell_lt(#[trigger] w[a], #[trigger] w[b]) by {
            if b == v.len() && a < v.len() - 1 {
                lemma_lt_trans(v[a], v.last(), p);
            }
        }
        assert forall|c: CellPos| #[trigger] w.contains(c) <==> (v.contains(c) || c == p) by {
            if w.contains(c) {
                let k = choose|k: int| 0 <= k < w.len() && w[k] == c;
                if k < v.len() {
                    assert(v[k] == c);
                }
            }
            if v.contains(c) {
                let k = choose|k: int| 0 <= k < v.len() && v[k] == c;
                assert(w[k] == c);
            }
            if c == p {
                assert(w[v.len() as int] == p);
            }
        }
        w
    } else {
        let v0 = v.drop_last();
        assert forall|a: int, b: int| 0 <= a < b < v0.len() implies cell_lt(#[trigger] v0[a], #[trigger] v0[b]) by {
            assert(v0[a] == v[a] && v0[b] == v[b]);
        }
        let w0 = ghost_insert(v0, p);
        let w = w0.push(v.last());
        assert(cell_lt(p, v.last()));
        assert forall|a: int, b: int| 0 <= a < b < w.len() implies cell_lt(#[trigger] w[a], #[trigger] w[b]) by {
            if b == w0.len() {
                let c = w0[a];
                assert(w0.contains(c));
                if c == p {
                } else {
                    assert(v0.contains(c));
                    let k = choose|k: int| 0 <= k < v0.len() && v0[k] == c;
                    assert(cell_lt(v[k], v[v.len() - 1]));
                }
            }
        }
        assert forall|c: CellPos| #[trigger] w.contains(c) <==> (v.contains(c) || c == p) by {
            if w.contains(c) {
                let k = choose|k: int| 0 <= k < w.len() && w[k] == c;
                if k < w0.len() {
                    assert(w0.contains(c));
                    if v0.contains(c) {
                        let j = choose|j: int| 0 <= j < v0.len() && v0[j] == c;
                        assert(v[j] == c);
                    }
                } else {
                    assert(v[v.len() - 1] == c);
                }
            }
            if v.contains(c) {
                let k = choose|k: int| 0 <= k < v.len() && v[k] == c;
                if k < v.len() - 1 {
                    assert(v0[k] == c);
                    assert(w0.contains(c));
                    let j = choose|j: int| 0 <= j < w0.len() && w0[j] == c;
                    assert(w[j] == c);
                } else {
                    assert(w[w0.len() as int] == c);
                }
            }
            if c == p {
                assert(w0.contains(p));
                let j = choose|j: int| 0 <= j < w0.len() && w0[j] == p;
                assert(w[j] == p);
            }
        }
        w
    }
}


/// The unclaimed cells, as a sorted list of cells and a flag per cell.
pub open spec fn tracks(cells: Seq<CellPos>, alive: Seq<bool>, occ: Set<CellPos>) -> bool {
    &&& strictly_sorted(cells)
    &&& alive.len() == cells.len()
    &&& forall|k: int| 0 <= k < cells.len() ==> alive[k] == occ.contains(#[trigger] cells[k])
    &&& forall|c: CellPos| #[trigger] occ.contains(c) ==> cells.contains(c) && below_max(c)
}

fn occ_contains(cells: &Vec<CellPos>, alive: &Vec<bool>, c: CellPos, Ghost(occ): Ghost<Set<CellPos>>) -> (r: bool)
    requires
        tracks(cells@, alive@, occ),
    ensures
        r == occ.contains(c),
{
    let i = lower_bound(cells, c);
    let r = i < cells.len() && same_cell(cells[i], c) && alive[i];
    proof {
        if occ.contains(c) {
            assert(cells@.contains(c));
            let k = choose|k: int| 0 <= k < cells@.len() && cells@[k] == c;
            if k < i {
                assert(cell_lt(cells@[k], c));
            } else if k > i {
                assert(cell_lt(cells@[i as int], cells@[k]));
            }
            assert(k == i);
        }
    }
    r
}

fn row_is_full(
    cells: &Vec<CellPos>,
    alive: &Vec<bool>,
    x0: i32,
    x1: i32,
    y: i32,
    z: i32,
    Ghost(occ): Ghost<Set<CellPos>>,
) -> (r: bool)
    requires
        tracks(cells@, alive@, occ),
    ensures
        r == row_full(occ, x0 as int, x1 as int, y as int, z),
{
    let mut x: i32 = x0;
    if x1 <= x0 {
        return true;
    }
    while x < x1
        invariant
            x0 <= x <= x1,
            tracks(cells@, alive@, occ),
            forall|k: int| x0 <= k < x ==> #[trigger] occ.contains((k as i32, y as int as i32, z)),
        decreases x1 - x,
    {
        if !occ_contains(cells, alive, (x, y, z), Ghost(occ)) {
            assert(!occ.contains((x as int as i32, y as int as i32, z)));
            return false;
        }
        x = x + 1;
    }
    true
}

pub(crate) fn layer_is_full(
    cells: &Vec<CellPos>,
    alive: &Vec<bool>,
    x0: i32,
    x1: i32,
    y0: i32,
    y1: i32,
    z: i32,
    Ghost(occ): Ghost<Set<CellPos>>,
) -> (r: bool)
    requires
        tracks(cells@, alive@, occ),
    ensures
        r == layer_full(occ, x0 as int, x1 as int, y0 as int, y1 as int, z as int),
{
    let mut y: i32 = y0;
    if y1 <= y0 {
        return true;
    }
    while y < y1
        invariant
            y0 <= y <= y1,
            tracks(cells@, alive@, occ),
            forall|k: int| y0 <= k < y ==> #[trigger] row_full(occ, x0 as int, x1 as int, k, z as int as i32),
        decreases y1 - y,
    {
        if !row_is_full(cells, alive, x0, x1, y, z, Ghost(occ)) {
            assert(!row_full(occ, x0 as int, x1 as int, y as int, z as int as i32));
            return false;
        }
        y = y + 1;
    }
    true
}

pub(crate) fn in_box_exec(b: Bounds, c: CellPos) -> (r: bool)
    ensures
        r == in_box(b, c),
{
    b.0 <= c.0 && c.0 < b.3 && b.1 <= c.1 && c.1 < b.4 && b.2 <= c.2 && c.2 < b.5
}

/// The greedy pass: the sorted distinct cells, and the boxes grown from
/// them in order.
fn greedy_pass(positions: &Vec<CellPos>) -> (r: (Vec<CellPos>, Vec<Bounds>))
    requires
        forall|i: int| 0 <= i < positions@.len() ==> below_max(#[trigger] positions@[i]),
    ensures
        r.0@ == sorted_cells(cell_set(positions@)),
        r.1@ == greedy_spec(r.0@, cell_set(positions@)),
{
    let cells = sort_cells(positions);
    let ghost all = cell_set(positions@);
    let ghost order = cells@;
    proof {
        lemma_sorted_cells_exist(positions@);
        lemma_sorted_unique(cells@, sorted_cells(all));
    }
    let mut alive: Vec<bool> = Vec::new();
    let mut k: usize = 0;
    while k < cells.len()
        invariant
            k <= cells@.len(),
            alive@.len() == k,
            forall|j: int| 0 <= j < k ==> alive@[j],
        decreases cells@.len() - k,
    {
        alive.push(true);
        k = k + 1;
    }
    let ghost mut occ = all;
    proof {
        assert forall|j: int| 0 <= j < cells@.len() implies alive@[j] == occ.contains(#[trigger] cells@[j]) by {
            assert(cells@.contains(cells@[j]));
        }
        assert forall|c: CellPos| #[trigger] occ.contains(c) implies cells@.contains(c) && below_max(c) by {
            let i = choose|i: int| 0 <= i < positions@.len() && positions@[i] == c;
        }
    }
    let mut result: Vec<Bounds> = Vec::new();
    let mut i: usize = 0;
    assert(order.skip(0) =~= order);
    while i < cells.len()
        invariant
            i <= cells@.len(),
            order == cells@,
            order == sorted_cells(all),
            tracks(cells@, alive@, occ),
            result@ + greedy_spec(order.skip(i as int), occ) == greedy_spec(order, all),
        decreases cells@.len() - i,
    {
        let start = cells[i];
        let ghost tail = order.skip(i as int);
        assert(tail[0] == start);
        assert(tail.drop_first() =~= order.skip(i + 1));
        if alive[i] {
            assert(occ.contains(start));
            assert(below_max(start));
            let mut x_end: i32 = start.0 + 1;
            while occ_contains(&cells, &alive, (x_end, start.1, start.2), Ghost(occ))
                invariant
                    start.0 < x_end <= i32::MAX,
                    tracks(cells@, alive@, occ),
                    run_x(occ, x_end as int, start.1, start.2) == run_x(occ, start.0 + 1, start.1, start.2),
                decreases i32::MAX - x_end,
            {
                assert(below_max((x_end, start.1, start.2)));
                x_end = x_end + 1;
            }
            let mut y_end: i32 = start.1 + 1;
            while row_is_full(&cells, &alive, start.0, x_end, y_end, start.2, Ghost(occ))
                invariant
                    start.0 < x_end <= i32::MAX,
                    start.1 < y_end <= i32::MAX,
                    tracks(cells@, alive@, occ),
                    run_y(occ, start.0 as int, x_end as int, y_end as int, start.2) == run_y(
                        occ,
                        start.0 as int,
                        x_end as int,
                        start.1 + 1,
                        start.2,
                    ),
                decreases i32::MAX - y_end,
            {
                assert(occ.contains((start.0 as int as i32, y_end as int as i32, start.2)));
                assert(below_max((start.0, y_end, start.2)));
                y_end = y_end + 1;
            }
            let mut z_end: i32 = start.2 + 1;
            while layer_is_full(&cells, &alive, start.0, x_end, start.1, y_end, z_end, Ghost(occ))
                invariant
                    start.0 < x_end <= i32::MAX,
                    start.1 < y_end <= i32::MAX,
                    start.2 < z_end <= i32::MAX,
                    tracks(cells@, alive@, occ),
                    run_z(occ, start.0 as int, x_end as int, start.1 as int, y_end as int, z_end as int) == run_z(
                        occ,
                        start.0 as int,
                        x_end as int,
                        start.1 as int,
                        y_end as int,
                        start.2 + 1,
                    ),
                decreases i32::MAX - z_end,
            {
                assert(row_full(occ, start.0 as int, x_end as int, start.1 as int, z_end as int as i32));
                assert(occ.contains((start.0 as int as i32, start.1 as int as i32, z_end as int as i32)));
                assert(below_max((start.0, start.1, z_end)));
                z_end = z_end + 1;
            }
            let b = Bounds(start.0, start.1, start.2, x_end, y_end, z_end);
            assert(b == grow_spec(occ, start));
            let ghost occ2 = occ.difference(box_cells(b));
            let mut k: usize = 0;
            while k < cells.len()
                invariant
                    k <= cells@.len(),
                    alive@.len() == cells@.len(),
                    forall|j: int| 0 <= j < k ==> alive@[j] == occ2.contains(#[trigger] cells@[j]),
                    forall|j: int| k <= j < cells@.len() ==> alive@[j] == occ.contains(#[trigger] cells@[j]),
                    occ2 == occ.difference(box_cells(b)),
                decreases cells@.len() - k,
            {
                if alive[k] && in_box_exec(b, cells[k]) {
                    alive.set(k, false);
                }
                proof {
                    assert(box_cells(b).contains(cells@[k as int]) == in_box(b, cells@[k as int]));
                }
                k = k + 1;
            }
            let ghost before = result@;
            let ghost occ1 = occ;
            proof {
                assert(greedy_spec(tail, occ1) == seq![b] + greedy_spec(order.skip(i + 1), occ2));
                occ = occ2;
            }
            result.push(b);
            proof {
                assert(result@ + greedy_spec(order.skip(i + 1), occ) =~= before + (seq![b] + greedy_spec(
                    order.skip(i + 1),
                    occ2,
                )));
            }
        } else {
            assert(greedy_spec(tail, occ) == greedy_spec(order.skip(i + 1), occ));
        }
        i = i + 1;
    }
    assert(order.skip(cells@.len() as int) =~= Seq::<CellPos>::empty());
    assert(result@ + Seq::<Bounds>::empty() =~= result@);
    (cells, result)
}

/// 3D box merge: the given unit-cell positions (duplicates count once)
/// become the smallest set of axis-aligned boxes that covers them
/// exactly. The greedy pass gives a first cover; the search then looks
/// for one with fewer boxes.
pub fn greedy_merge(positions: Vec<CellPos>) -> (r: Vec<Bounds>)
    requires
        forall|i: int| 0 <= i < positions@.len() ==> below_max(#[trigger] positions@[i]),
    ensures
        r@ == merge_spec(positions@),
{
    let (cells, greedy) = greedy_pass(&positions);
    proof {
        lemma_sorted_cells_exist(positions@);
        assert forall|i: int| 0 <= i < cells@.len() implies below_max(#[trigger] cells@[i]) by {
            assert(cells@.contains(cells@[i]));
            let k = choose|k: int| 0 <= k < positions@.len() && positions@[k] == cells@[i];
        }
    }
    match search_exec(&cells, greedy.len()) {
        Some(q) => q,
        None => greedy,
    }
}

} // verus!
