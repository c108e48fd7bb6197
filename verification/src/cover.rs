//! Covering unit cells with the fewest boxes.
//!
//! In any exact cover of a set of cells, the box holding the first cell
//! (in (z, y, x) order) starts at that cell, and its far corner is a
//! cell of the set. The search tries every such box for the first cell
//! and covers what is left the same way, keeping a cover only when it is
//! smaller than the best one found so far or than the budget it was
//! given.

use vstd::prelude::*;
use crate::bounds::Bounds;
use crate::merge::{
    below_max, box_cells, cell_lt, cell_set, in_box, in_box_exec, layer_full, layer_is_full, row_full, strictly_sorted, tracks,
};
use crate::occupancy::CellPos;

verus! {

// =====================================================================
// Covers
// =====================================================================

/// `boxes` cover exactly the cells of `occ`, and no two boxes share a
/// cell.
pub open spec fn exact_cover(boxes: Seq<Bounds>, occ: Set<CellPos>) -> bool {
    &&& forall|c: CellPos| occ.contains(c) <==> exists|k: int| 0 <= k < boxes.len() && #[trigger] in_box(boxes[k], c)
    &&& forall|k1: int, k2: int, c: CellPos|
        0 <= k1 < k2 < boxes.len() ==> !(#[trigger] in_box(boxes[k1], c) && #[trigger] in_box(boxes[k2], c))
}

/// Every exact cover of `occ` has at least `n` boxes.
pub open spec fn no_cover_below(occ: Set<CellPos>, n: int) -> bool {
    forall|q: Seq<Bounds>| #[trigger] exact_cover(q, occ) ==> n <= q.len()
}

/// The box from cell `c` to cell `d`, both included.
pub open spec fn span_box(c: CellPos, d: CellPos) -> Bounds {
    Bounds(c.0, c.1, c.2, (d.0 + 1) as i32, (d.1 + 1) as i32, (d.2 + 1) as i32)
}

/// Every cell of `b` is one of `s`.
pub open spec fn box_within(b: Bounds, s: Seq<CellPos>) -> bool {
    forall|c: CellPos| #[trigger] in_box(b, c) ==> s.contains(c)
}

/// The box from the first cell of `s` to its `j`-th cell is a box of
/// cells of `s`.
pub open spec fn fits(s: Seq<CellPos>, j: int) -> bool {
    let c = s[0];
    let d = s[j];
    &&& c.0 <= d.0 && c.1 <= d.1 && c.2 <= d.2
    &&& below_max(d)
    &&& box_within(span_box(c, d), s)
}

/// The cells of `s` outside box `b`, in order.
pub open spec fn without_box(s: Seq<CellPos>, b: Bounds) -> Seq<CellPos>
    decreases s.len(),
{
    if s.len() == 0 {
        s
    } else {
        let r = without_box(s.drop_last(), b);
        if in_box(b, s.last()) {
            r
        } else {
            r.push(s.last())
        }
    }
}

/// The size a new cover must stay under: the best cover so far, or the
/// budget while there is none.
pub open spec fn limit(best: Option<Seq<Bounds>>, budget: int) -> int {
    match best {
        Some(q) => q.len() as int,
        None => budget,
    }
}

/// A cover of the cells of the sorted list `s` with the fewest boxes,
/// when that is fewer than `budget`.
pub open spec fn search(s: Seq<CellPos>, budget: int) -> Option<Seq<Bounds>>
    decreases s.len(), 1int, 0int,
{
    if budget <= 0 {
        None
    } else if s.len() == 0 {
        Some(Seq::empty())
    } else {
        scan(s, 0, budget, None)
    }
}

/// The search over the boxes from the first cell of `s` to its cells
/// from the `j`-th on, with `best` found so far.
pub open spec fn scan(s: Seq<CellPos>, j: int, budget: int, best: Option<Seq<Bounds>>) -> Option<Seq<Bounds>>
    decreases s.len(), 0int, s.len() - j,
{
    if j < 0 || j >= s.len() {
        best
    } else if fits(s, j) {
        let b = span_box(s[0], s[j]);
        proof {
            lemma_without_shorter(s, b);
        }
        let next = match search(without_box(s, b), limit(best, budget) - 1) {
            Some(q) => Some(seq![b] + q),
            None => best,
        };
        scan(s, j + 1, budget, next)
    } else {
        scan(s, j + 1, budget, best)
    }
}

// =====================================================================
// Removing a box
// =====================================================================

proof fn lemma_without_len(s: Seq<CellPos>, b: Bounds)
    ensures
        without_box(s, b).len() <= s.len(),
    decreases s.len(),
{
    if s.len() > 0 {
        lemma_without_len(s.drop_last(), b);
    }
}

pub proof fn lemma_without_shorter(s: Seq<CellPos>, b: Bounds)
    requires
        s.len() > 0,
        in_box(b, s[0]),
    ensures
        without_box(s, b).len() < s.len(),
    decreases s.len(),
{
    if s.len() > 1 {
        assert(s.drop_last()[0] == s[0]);
        lemma_without_shorter(s.drop_last(), b);
    } else {
        assert(s.last() == s[0]);
        assert(without_box(s.drop_last(), b).len() == 0);
    }
}

/// What is left is the cells of `s` outside `b`, still sorted and below
/// the maximum.
proof fn lemma_without(s: Seq<CellPos>, b: Bounds)
    requires
        strictly_sorted(s),
    ensures
        strictly_sorted(without_box(s, b)),
        forall|c: CellPos| #[trigger] without_box(s, b).contains(c) <==> (s.contains(c) && !in_box(b, c)),
    decreases s.len(),
{
    if s.len() > 0 {
        let s0 = s.drop_last();
        assert(strictly_sorted(s0)) by {
            assert forall|i: int, j: int| 0 <= i < j < s0.len() implies cell_lt(#[trigger] s0[i], #[trigger] s0[j]) by {
                assert(s0[i] == s[i] && s0[j] == s[j]);
            }
        }
        lemma_without(s0, b);
        let r = without_box(s0, b);
        let x = s.last();
        assert forall|c: CellPos| #[trigger] s.contains(c) <==> (s0.contains(c) || c == x) by {
            if s.contains(c) {
                let i = choose|i: int| 0 <= i < s.len() && s[i] == c;
                if i < s.len() - 1 {
                    assert(s0[i] == c);
                }
            }
            if s0.contains(c) {
                let i = choose|i: int| 0 <= i < s0.len() && s0[i] == c;
                assert(s[i] == c);
            }
            if c == x {
                assert(s[s.len() - 1] == c);
            }
        }
        if !in_box(b, x) {
            let w = r.push(x);
            assert forall|i: int, j: int| 0 <= i < j < w.len() implies cell_lt(#[trigger] w[i], #[trigger] w[j]) by {
                if j == w.len() - 1 {
                    assert(r.contains(w[i]));
                    assert(s0.contains(w[i]));
                    let k = choose|k: int| 0 <= k < s0.len() && s0[k] == w[i];
                    assert(s[k] == w[i]);
                } else {
                    assert(w[i] == r[i] && w[j] == r[j]);
                }
            }
            assert forall|c: CellPos| #[trigger] w.contains(c) <==> (r.contains(c) || c == x) by {
                if w.contains(c) {
                    let i = choose|i: int| 0 <= i < w.len() && w[i] == c;
                    if i < r.len() {
                        assert(r[i] == c);
                    }
                }
                if r.contains(c) {
                    let i = choose|i: int| 0 <= i < r.len() && r[i] == c;
                    assert(w[i] == c);
                }
                if c == x {
                    assert(w[r.len() as int] == c);
                }
            }
        }
    }
}

/// The cells left after taking out a box of `s` are the cells of `s`
/// less those of the box.
proof fn lemma_without_set(s: Seq<CellPos>, b: Bounds)
    requires
        strictly_sorted(s),
    ensures
        cell_set(without_box(s, b)) == cell_set(s).difference(box_cells(b)),
{
    lemma_without(s, b);
    assert(cell_set(without_box(s, b)) =~= cell_set(s).difference(box_cells(b)));
}

// =====================================================================
// Covers, one box at a time
// =====================================================================

/// Without one of its boxes, an exact cover covers the rest exactly.
proof fn lemma_cover_remove(q: Seq<Bounds>, occ: Set<CellPos>, k: int)
    requires
        exact_cover(q, occ),
        0 <= k < q.len(),
    ensures
        exact_cover(q.remove(k), occ.difference(box_cells(q[k]))),
{
    let r = q.remove(k);
    let occ2 = occ.difference(box_cells(q[k]));
    assert forall|c: CellPos| occ2.contains(c) <==> exists|i: int| 0 <= i < r.len() && #[trigger] in_box(r[i], c) by {
        if occ2.contains(c) {
            let i = choose|i: int| 0 <= i < q.len() && #[trigger] in_box(q[i], c);
            assert(i != k);
            if i < k {
                assert(in_box(r[i], c));
            } else {
                assert(r[i - 1] == q[i]);
                assert(in_box(r[i - 1], c));
            }
        }
        if exists|i: int| 0 <= i < r.len() && #[trigger] in_box(r[i], c) {
            let i = choose|i: int| 0 <= i < r.len() && #[trigger] in_box(r[i], c);
            let i0 = if i < k { i } else { i + 1 };
            assert(q[i0] == r[i]);
            assert(in_box(q[i0], c));
            assert(occ.contains(c));
            if box_cells(q[k]).contains(c) {
                assert(in_box(q[k], c));
                if i0 < k {
                    assert(!(in_box(q[i0], c) && in_box(q[k], c)));
                } else {
                    assert(!(in_box(q[k], c) && in_box(q[i0], c)));
                }
            }
        }
    }
    assert forall|k1: int, k2: int, c: CellPos|
        0 <= k1 < k2 < r.len() implies !(#[trigger] in_box(r[k1], c) && #[trigger] in_box(r[k2], c)) by {
        let i1 = if k1 < k { k1 } else { k1 + 1 };
        let i2 = if k2 < k { k2 } else { k2 + 1 };
        assert(q[i1] == r[k1] && q[i2] == r[k2]);
        assert(!(in_box(q[i1], c) && in_box(q[i2], c)));
    }
}

/// A box of cells of `occ`, before an exact cover of the cells of `occ`
/// outside it, covers `occ` exactly.
proof fn lemma_cover_prepend(b: Bounds, q: Seq<Bounds>, occ: Set<CellPos>)
    requires
        exact_cover(q, occ.difference(box_cells(b))),
        forall|c: CellPos| #[trigger] in_box(b, c) ==> occ.contains(c),
    ensures
        exact_cover(seq![b] + q, occ),
{
    let w = seq![b] + q;
    let occ2 = occ.difference(box_cells(b));
    assert forall|c: CellPos| occ.contains(c) <==> exists|i: int| 0 <= i < w.len() && #[trigger] in_box(w[i], c) by {
        if occ.contains(c) {
            if in_box(b, c) {
                assert(in_box(w[0], c));
            } else {
                assert(occ2.contains(c));
                let i = choose|i: int| 0 <= i < q.len() && #[trigger] in_box(q[i], c);
                assert(w[i + 1] == q[i]);
                assert(in_box(w[i + 1], c));
            }
        }
        if exists|i: int| 0 <= i < w.len() && #[trigger] in_box(w[i], c) {
            let i = choose|i: int| 0 <= i < w.len() && #[trigger] in_box(w[i], c);
            if i > 0 {
                assert(w[i] == q[i - 1]);
                assert(in_box(q[i - 1], c));
                assert(occ2.contains(c));
            }
        }
    }
    assert forall|k1: int, k2: int, c: CellPos|
        0 <= k1 < k2 < w.len() implies !(#[trigger] in_box(w[k1], c) && #[trigger] in_box(w[k2], c)) by {
        assert(w[k2] == q[k2 - 1]);
        if k1 > 0 {
            assert(w[k1] == q[k1 - 1]);
        } else if in_box(w[k1], c) && in_box(w[k2], c) {
            assert(in_box(q[k2 - 1], c));
            assert(occ2.contains(c));
            assert(box_cells(b).contains(c));
        }
    }
}

/// Box `k` of cover `q` of the cells of `s` holds the first cell of `s`
/// and spans from it to the `j`-th cell.
pub open spec fn first_box(q: Seq<Bounds>, s: Seq<CellPos>, k: int, j: int) -> bool {
    &&& exact_cover(q, cell_set(s))
    &&& 0 <= k < q.len()
    &&& 0 <= j < s.len()
    &&& in_box(q[k], s[0])
    &&& q[k] == span_box(s[0], s[j])
}

/// In an exact cover of the cells of a sorted list, the box holding the
/// first cell starts at that cell and ends at another cell of the list.
proof fn lemma_first_box(s: Seq<CellPos>, q: Seq<Bounds>)
    requires
        s.len() > 0,
        strictly_sorted(s),
        forall|i: int| 0 <= i < s.len() ==> below_max(#[trigger] s[i]),
        exact_cover(q, cell_set(s)),
    ensures
        exists|k: int, j: int| first_box(q, s, k, j),
{
    let s0 = s[0];
    assert(cell_set(s).contains(s0));
    let k = choose|k: int| 0 <= k < q.len() && #[trigger] in_box(q[k], s0);
    let b = q[k];
    let m: CellPos = (b.0, b.1, b.2);
    assert(in_box(b, m));
    assert(cell_set(s).contains(m));
    let i = choose|i: int| 0 <= i < s.len() && s[i] == m;
    if i > 0 {
        assert(cell_lt(s[0], s[i]));
        assert(false);
    }
    assert(m == s0);
    let mx: CellPos = ((b.3 - 1) as i32, (b.4 - 1) as i32, (b.5 - 1) as i32);
    assert(in_box(b, mx));
    assert(cell_set(s).contains(mx));
    let j = choose|j: int| 0 <= j < s.len() && s[j] == mx;
    assert(below_max(s[j]));
    assert(b == span_box(s0, s[j]));
    assert(first_box(q, s, k, j));
}

/// A box that holds the first cell of a cover spans to a cell of `s`
/// that fits.
proof fn lemma_first_box_fits(s: Seq<CellPos>, q: Seq<Bounds>, k: int, j: int)
    requires
        first_box(q, s, k, j),
        forall|i: int| 0 <= i < s.len() ==> below_max(#[trigger] s[i]),
    ensures
        fits(s, j),
{
    let b = q[k];
    assert(below_max(s[j]));
    assert forall|c: CellPos| #[trigger] in_box(span_box(s[0], s[j]), c) implies s.contains(c) by {
        assert(in_box(b, c));
        assert(cell_set(s).contains(c));
    }
}

// =====================================================================
// The search finds the fewest boxes
// =====================================================================

/// What the search promises: a cover under the budget with the fewest
/// boxes, or, when it finds none, that every cover reaches the budget.
pub open spec fn search_ok(s: Seq<CellPos>, budget: int, r: Option<Seq<Bounds>>) -> bool {
    match r {
        Some(q) => exact_cover(q, cell_set(s)) && q.len() < budget && no_cover_below(cell_set(s), q.len() as int),
        None => no_cover_below(cell_set(s), budget),
    }
}

/// The search returns a cover with the fewest boxes when one has fewer
/// boxes than the budget, and nothing otherwise.
pub proof fn lemma_search(s: Seq<CellPos>, budget: int)
    requires
        strictly_sorted(s),
        forall|i: int| 0 <= i < s.len() ==> below_max(#[trigger] s[i]),
    ensures
        search_ok(s, budget, search(s, budget)),
    decreases s.len(), 1int, 0int,
{
    if budget <= 0 {
    } else if s.len() == 0 {
        let e = Seq::<Bounds>::empty();
        assert forall|c: CellPos| cell_set(s).contains(c) <==> exists|k: int| 0 <= k < e.len() && #[trigger] in_box(e[k], c) by {}
        assert(exact_cover(e, cell_set(s)));
    } else {
        lemma_scan(s, 0, budget, None);
    }
}

proof fn lemma_scan(s: Seq<CellPos>, j: int, budget: int, best: Option<Seq<Bounds>>)
    requires
        s.len() > 0,
        budget > 0,
        strictly_sorted(s),
        forall|i: int| 0 <= i < s.len() ==> below_max(#[trigger] s[i]),
        0 <= j <= s.len(),
        best matches Some(q) ==> exact_cover(q, cell_set(s)) && q.len() < budget,
        forall|q: Seq<Bounds>, k: int, jj: int| #[trigger] first_box(q, s, k, jj) && jj < j ==> limit(best, budget) <= q.len(),
    ensures
        search_ok(s, budget, scan(s, j, budget, best)),
    decreases s.len(), 0int, s.len() - j,
{
    let lim = limit(best, budget);
    if j >= s.len() {
        assert forall|q: Seq<Bounds>| #[trigger] exact_cover(q, cell_set(s)) implies lim <= q.len() by {
            lemma_first_box(s, q);
            let (k, jj) = choose|k: int, jj: int| first_box(q, s, k, jj);
        }
    } else if fits(s, j) {
        let b = span_box(s[0], s[j]);
        let rest = without_box(s, b);
        lemma_without_shorter(s, b);
        lemma_without(s, b);
        lemma_without_set(s, b);
        assert forall|i: int| 0 <= i < rest.len() implies below_max(#[trigger] rest[i]) by {
            assert(rest.contains(rest[i]));
            assert(s.contains(rest[i]));
        }
        lemma_search(rest, lim - 1);
        let sub = search(rest, lim - 1);
        let next = match sub {
            Some(q) => Some(seq![b] + q),
            None => best,
        };
        assert(scan(s, j, budget, best) == scan(s, j + 1, budget, next));
        if let Some(q) = sub {
            assert forall|c: CellPos| #[trigger] in_box(b, c) implies cell_set(s).contains(c) by {
                assert(s.contains(c));
            }
            lemma_cover_prepend(b, q, cell_set(s));
        }
        assert forall|q: Seq<Bounds>, k: int, jj: int| #[trigger] first_box(q, s, k, jj) && jj < j + 1 implies limit(
            next,
            budget,
        ) <= q.len() by {
            if jj == j {
                lemma_cover_remove(q, cell_set(s), k);
                assert(q[k] == b);
                assert(exact_cover(q.remove(k), cell_set(rest)));
            }
        }
        lemma_scan(s, j + 1, budget, next);
    } else {
        assert(scan(s, j, budget, best) == scan(s, j + 1, budget, best));
        assert forall|q: Seq<Bounds>, k: int, jj: int| #[trigger] first_box(q, s, k, jj) && jj < j + 1 implies lim
            <= q.len() by {
            if jj == j {
                lemma_first_box_fits(s, q, k, jj);
            }
        }
        lemma_scan(s, j + 1, budget, best);
    }
}


/// Nothing covers cells with fewer than one box.
proof fn lemma_scan_none(s: Seq<CellPos>, j: int)
    requires
        s.len() > 0,
    ensures
        scan(s, j, 1, None) is None,
    decreases s.len() - j,
{
    if 0 <= j < s.len() {
        if fits(s, j) {
            assert(search(without_box(s, span_box(s[0], s[j])), 0) is None);
        }
        lemma_scan_none(s, j + 1);
    }
}

// =====================================================================
// The search, run
// =====================================================================

/// The boxes of a search result, as a list.
pub open spec fn opt_view(r: Option<Vec<Bounds>>) -> Option<Seq<Bounds>> {
    match r {
        Some(v) => Some(v@),
        None => None,
    }
}

fn without_box_exec(s: &Vec<CellPos>, b: Bounds) -> (r: Vec<CellPos>)
    ensures
        r@ == without_box(s@, b),
{
    let mut out: Vec<CellPos> = Vec::new();
    let mut k: usize = 0;
    assert(s@.take(0) =~= Seq::<CellPos>::empty());
    while k < s.len()
        invariant
            k <= s@.len(),
            out@ == without_box(s@.take(k as int), b),
        decreases s@.len() - k,
    {
        proof {
            assert(s@.take(k + 1).drop_last() =~= s@.take(k as int));
            assert(s@.take(k + 1).last() == s@[k as int]);
        }
        if !in_box_exec(b, s[k]) {
            out.push(s[k]);
        }
        k = k + 1;
    }
    assert(s@.take(s@.len() as int) =~= s@);
    out
}

/// Whether the box from `c` to `d` holds only cells of `s`.
fn span_fits(s: &Vec<CellPos>, alive: &Vec<bool>, c: CellPos, d: CellPos, Ghost(occ): Ghost<Set<CellPos>>) -> (r: bool)
    requires
        tracks(s@, alive@, occ),
        occ == cell_set(s@),
        c.0 <= d.0,
        c.1 <= d.1,
        c.2 <= d.2,
        below_max(d),
    ensures
        r == box_within(span_box(c, d), s@),
{
    let x1: i32 = d.0 + 1;
    let y1: i32 = d.1 + 1;
    let mut z: i32 = c.2;
    while z <= d.2
        invariant
            c.2 <= z <= d.2 + 1,
            d.2 < i32::MAX,
            x1 == d.0 + 1,
            y1 == d.1 + 1,
            tracks(s@, alive@, occ),
            occ == cell_set(s@),
            forall|zz: int| c.2 <= zz < z ==> #[trigger] layer_full(occ, c.0 as int, x1 as int, c.1 as int, y1 as int, zz),
        decreases d.2 as int + 1 - z as int,
    {
        if !layer_is_full(s, alive, c.0, x1, c.1, y1, z, Ghost(occ)) {
            proof {
                let y = choose|y: int|
                    !(c.1 <= y < y1 ==> #[trigger] row_full(occ, c.0 as int, x1 as int, y, z as int as i32));
                let x = choose|x: int|
                    !(c.0 <= x < x1 ==> #[trigger] occ.contains((x as i32, y as i32, z as int as i32)));
                let cell: CellPos = (x as i32, y as i32, z);
                assert(in_box(span_box(c, d), cell));
                assert(!s@.contains(cell));
            }
            return false;
        }
        z = z + 1;
    }
    proof {
        assert forall|cell: CellPos| #[trigger] in_box(span_box(c, d), cell) implies s@.contains(cell) by {
            assert(layer_full(occ, c.0 as int, x1 as int, c.1 as int, y1 as int, cell.2 as int));
            assert(row_full(occ, c.0 as int, x1 as int, cell.1 as int, cell.2 as int as i32));
            assert(occ.contains((cell.0 as int as i32, cell.1 as int as i32, cell.2 as int as i32)));
            assert((cell.0 as int as i32, cell.1 as int as i32, cell.2 as int as i32) == cell);
        }
    }
    true
}

/// Runs the search on the sorted distinct cells `s`.
pub(crate) fn search_exec(s: &Vec<CellPos>, budget: usize) -> (r: Option<Vec<Bounds>>)
    requires
        strictly_sorted(s@),
        forall|i: int| 0 <= i < s@.len() ==> below_max(#[trigger] s@[i]),
    ensures
        opt_view(r) == search(s@, budget as int),
    decreases s@.len(),
{
    if budget == 0 {
        return None;
    }
    if s.len() == 0 {
        let e: Vec<Bounds> = Vec::new();
        assert(e@ =~= Seq::<Bounds>::empty());
        return Some(e);
    }
    if budget == 1 {
        proof {
            lemma_scan_none(s@, 0);
        }
        return None;
    }
    let mut alive: Vec<bool> = Vec::new();
    let mut k: usize = 0;
    while k < s.len()
        invariant
            k <= s@.len(),
            alive@.len() == k,
            forall|i: int| 0 <= i < k ==> alive@[i],
        decreases s@.len() - k,
    {
        alive.push(true);
        k = k + 1;
    }
    let ghost occ = cell_set(s@);
    proof {
        assert forall|i: int| 0 <= i < s@.len() implies alive@[i] == occ.contains(#[trigger] s@[i]) by {
            assert(s@.contains(s@[i]));
        }
        assert forall|cell: CellPos| #[trigger] occ.contains(cell) implies s@.contains(cell) && below_max(cell) by {
            let i = choose|i: int| 0 <= i < s@.len() && s@[i] == cell;
        }
    }
    let c = s[0];
    let mut best: Option<Vec<Bounds>> = None;
    let mut j: usize = 0;
    while j < s.len()
        invariant
            0 < s@.len(),
            j <= s@.len(),
            budget > 0,
            strictly_sorted(s@),
            forall|i: int| 0 <= i < s@.len() ==> below_max(#[trigger] s@[i]),
            tracks(s@, alive@, occ),
            occ == cell_set(s@),
            c == s@[0],
            scan(s@, j as int, budget as int, opt_view(best)) == search(s@, budget as int),
        decreases s@.len() - j,
    {
        let d = s[j];
        assert(below_max(s@[j as int]));
        let ghost prev = opt_view(best);
        let ok = c.0 <= d.0 && c.1 <= d.1 && c.2 <= d.2 && span_fits(s, &alive, c, d, Ghost(occ));
        assert(ok == fits(s@, j as int));
        if ok {
            let b = Bounds(c.0, c.1, c.2, d.0 + 1, d.1 + 1, d.2 + 1);
            assert(b == span_box(s@[0], s@[j as int]));
            let lim: usize = match &best {
                Some(q) => q.len(),
                None => budget,
            };
            assert(lim as int == limit(prev, budget as int));
            let ghost nextv = match search(without_box(s@, b), limit(prev, budget as int) - 1) {
                Some(q) => Some(seq![b] + q),
                None => prev,
            };
            assert(scan(s@, j as int, budget as int, prev) == scan(s@, j + 1, budget as int, nextv));
            if lim >= 2 {
                let rest = without_box_exec(s, b);
                proof {
                    assert(in_box(b, s@[0]));
                    lemma_without_shorter(s@, b);
                    lemma_without(s@, b);
                    assert forall|i: int| 0 <= i < rest@.len() implies below_max(#[trigger] rest@[i]) by {
                        assert(rest@.contains(rest@[i]));
                        assert(s@.contains(rest@[i]));
                    }
                }
                let sub = search_exec(&rest, lim - 1);
                match sub {
                    Some(q) => {
                        let mut nb: Vec<Bounds> = Vec::new();
                        nb.push(b);
                        let mut t: usize = 0;
                        while t < q.len()
                            invariant
                                t <= q@.len(),
                                nb@ == seq![b] + q@.take(t as int),
                            decreases q@.len() - t,
                        {
                            assert(q@.take(t + 1) =~= q@.take(t as int).push(q@[t as int]));
                            nb.push(q[t]);
                            t = t + 1;
                        }
                        assert(q@.take(q@.len() as int) =~= q@);
                        best = Some(nb);
                    },
                    None => {},
                }
            }
            assert(opt_view(best) == nextv);
        } else {
            assert(scan(s@, j as int, budget as int, prev) == scan(s@, j + 1, budget as int, prev));
        }
        j = j + 1;
    }
    best
}

} // verus!
