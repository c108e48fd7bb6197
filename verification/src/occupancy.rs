//! Cell occupancy: the integer-space index of which authored primitive
//! claims which unit cell, with the collisions found on the way.

use vstd::prelude::*;
use crate::bounds::{hi, is_canonical, lo, Bounds};
use crate::csg::{cell_inside_spec, has_volume, is_cell_inside_primitive, PrimitiveShape};
use crate::placement::{
    apply_cell_spec, apply_placement_to_cell, identity_placement, identity_spec, Placement,
};
use crate::text::to_owned_string;

verus! {

/// A unit cell in integer world space.
pub type CellPos = (i32, i32, i32);

/// Two primitives (named by their authored paths) claim the same cell.
#[derive(Debug)]
pub struct Collision {
    pub first_path: String,
    pub second_path: String,
    pub cell: CellPos,
}

/// A subtract volume recorded during the walk. After all union cells are
/// claimed, cells fully inside a subtract are removed.
#[derive(Clone, Copy, Debug)]
pub struct SubtractVolume {
    pub shape: PrimitiveShape,
    pub orient_placement: Placement,
    pub bounds: Bounds,
}

/// The cell-level index of a compiled shape.
pub struct Occupancy {
    cells: Vec<(CellPos, String)>,
    subtracts: Vec<SubtractVolume>,
    collisions: Vec<Collision>,
}

/// Abstract state of an occupancy index: the claimed cells (each with the
/// path of its first claimant, in claim order), pending subtract volumes,
/// and the recorded collisions `(first path, second path, cell)`.
pub struct OccView {
    pub cells: Seq<(CellPos, Seq<char>)>,
    pub subtracts: Seq<SubtractVolume>,
    pub collisions: Seq<(Seq<char>, Seq<char>, CellPos)>,
}

/// The cells of a list of `(cell, path)` claims.
pub open spec fn cells_of(cells: Seq<(CellPos, Seq<char>)>) -> Seq<CellPos> {
    cells.map_values(|e: (CellPos, Seq<char>)| e.0)
}

/// Index of `cell` among the claimed cells, or -1.
pub open spec fn cell_index(cells: Seq<(CellPos, Seq<char>)>, cell: CellPos) -> int
    decreases cells.len(),
{
    if cells.len() == 0 {
        -1
    } else if cells.last().0 == cell {
        cells.len() - 1
    } else {
        cell_index(cells.drop_last(), cell)
    }
}

/// Claiming a free cell records its claimant; claiming a taken cell
/// records a collision between the first claimant and the new one.
pub open spec fn claim_spec(v: OccView, cell: CellPos, path: Seq<char>) -> OccView {
    let i = cell_index(v.cells, cell);
    if i < 0 {
        OccView { cells: v.cells.push((cell, path)), ..v }
    } else {
        OccView { collisions: v.collisions.push((v.cells[i].1, path, cell)), ..v }
    }
}

/// Whether a subtract volume removes the cell.
pub open spec fn removes(sub: SubtractVolume, cell: CellPos) -> bool {
    &&& lo(sub.bounds, 0) <= cell.0 < hi(sub.bounds, 0)
    &&& lo(sub.bounds, 1) <= cell.1 < hi(sub.bounds, 1)
    &&& lo(sub.bounds, 2) <= cell.2 < hi(sub.bounds, 2)
    &&& cell_inside_spec(
        sub.shape,
        sub.orient_placement,
        sub.bounds,
        (cell.0 as int, cell.1 as int, cell.2 as int),
    )
}

/// The cell survives every subtract volume.
pub open spec fn survives(subs: Seq<SubtractVolume>, cell: CellPos) -> bool {
    forall|k: int| 0 <= k < subs.len() ==> !removes(#[trigger] subs[k], cell)
}

/// Remove the cells fully covered by subtract volumes, then drop the
/// collisions recorded at cells that no longer exist.
pub open spec fn apply_subtracts_spec(v: OccView) -> OccView {
    let cells = v.cells.filter(|e: (CellPos, Seq<char>)| survives(v.subtracts, e.0));
    OccView {
        cells,
        subtracts: Seq::empty(),
        collisions: v.collisions.filter(
            |c: (Seq<char>, Seq<char>, CellPos)| cell_index(cells, c.2) >= 0,
        ),
    }
}

pub open spec fn min_over(s: Seq<CellPos>, k: int) -> int
    decreases s.len(),
{
    if s.len() == 1 {
        crate::bounds::first(Bounds(s[0].0, s[0].1, s[0].2, 0, 0, 0), k)
    } else if s.len() == 0 {
        0
    } else {
        crate::bounds::imin(
            min_over(s.drop_last(), k),
            crate::bounds::first(Bounds(s.last().0, s.last().1, s.last().2, 0, 0, 0), k),
        )
    }
}

pub open spec fn max_over(s: Seq<CellPos>, k: int) -> int
    decreases s.len(),
{
    if s.len() == 1 {
        crate::bounds::first(Bounds(s[0].0, s[0].1, s[0].2, 0, 0, 0), k)
    } else if s.len() == 0 {
        0
    } else {
        crate::bounds::imax(
            max_over(s.drop_last(), k),
            crate::bounds::first(Bounds(s.last().0, s.last().1, s.last().2, 0, 0, 0), k),
        )
    }
}

/// No claimed cell sits at `i32::MAX` on any axis, so every cell's upper
/// face is representable.
pub open spec fn cells_bounded(cells: Seq<(CellPos, Seq<char>)>) -> bool {
    forall|i: int|
        0 <= i < cells.len() ==> (#[trigger] cells[i]).0.0 < i32::MAX && cells[i].0.1 < i32::MAX
            && cells[i].0.2 < i32::MAX
}

/// The bounds enclosing every claimed cell, if any.
pub open spec fn aabb_spec(v: OccView) -> Option<Bounds> {
    let s = cells_of(v.cells);
    if s.len() == 0 {
        None
    } else {
        Some(
            Bounds(
                min_over(s, 0) as i32,
                min_over(s, 1) as i32,
                min_over(s, 2) as i32,
                (max_over(s, 0) + 1) as i32,
                (max_over(s, 1) + 1) as i32,
                (max_over(s, 2) + 1) as i32,
            ),
        )
    }
}

pub open spec fn collision_view(c: Collision) -> (Seq<char>, Seq<char>, CellPos) {
    (c.first_path@, c.second_path@, c.cell)
}

impl Occupancy {
    pub closed spec fn view(&self) -> OccView {
        OccView {
            cells: self.cells@.map_values(|e: (CellPos, String)| (e.0, e.1@)),
            subtracts: self.subtracts@,
            collisions: self.collisions@.map_values(|c: Collision| collision_view(c)),
        }
    }

    /// Each cell is claimed at most once.
    pub closed spec fn wf(&self) -> bool {
        cells_of(self@.cells).no_duplicates()
    }

    /// An empty index.
    pub fn new() -> (r: Occupancy)
        ensures
            r@.cells.len() == 0,
            r@.subtracts.len() == 0,
            r@.collisions.len() == 0,
            r.wf(),
    {
        Occupancy { cells: Vec::new(), subtracts: Vec::new(), collisions: Vec::new() }
    }

    pub fn collision_count(&self) -> (r: usize)
        ensures
            r == self@.collisions.len(),
    {
        self.collisions.len()
    }

    pub fn collisions(&self) -> (r: &[Collision])
        ensures
            r@.map_values(|c: Collision| collision_view(c)) == self@.collisions,
    {
        self.collisions.as_slice()
    }

    /// Number of claimed cells.
    pub fn cell_count(&self) -> (r: usize)
        ensures
            r == self@.cells.len(),
    {
        self.cells.len()
    }

    /// The `i`-th claimed cell and its first claimant's path.
    pub fn cell_at(&self, i: usize) -> (r: (CellPos, &str))
        requires
            i < self@.cells.len(),
        ensures
            r.0 == self@.cells[i as int].0,
            r.1@ == self@.cells[i as int].1,
    {
        (self.cells[i].0, self.cells[i].1.as_str())
    }

    /// Position of `cell` among the claimed cells.
    fn find_cell(&self, cell: CellPos) -> (r: Option<usize>)
        ensures
            match r {
                Some(i) => i == cell_index(self@.cells, cell) && i < self@.cells.len(),
                None => cell_index(self@.cells, cell) == -1,
            },
    {
        let ghost cv = self@.cells;
        let mut i: usize = self.cells.len();
        proof {
            assert(cv.take(cv.len() as int) =~= cv);
        }
        while i > 0
            invariant
                i <= self.cells@.len(),
                cv == self@.cells,
                cv.len() == self.cells@.len(),
                cell_index(cv, cell) == cell_index(cv.take(i as int), cell),
            decreases i,
        {
            let c = self.cells[i - 1].0;
            if c.0 == cell.0 && c.1 == cell.1 && c.2 == cell.2 {
                proof {
                    assert(cv.take(i as int).last() == cv[i - 1]);
                }
                return Some(i - 1);
            }
            assert(cv.take(i as int).drop_last() =~= cv.take(i - 1));
            i = i - 1;
        }
        None
    }

    /// Claim `cell` for `path`.
    pub fn claim(&mut self, cell: CellPos, path: &str)
        requires
            old(self).wf(),
        ensures
            final(self)@ == claim_spec(old(self)@, cell, path@),
            final(self).wf(),
            final(self)@.subtracts == old(self)@.subtracts,
    {
        proof {
            lemma_cell_index(self@.cells, cell);
        }
        match self.find_cell(cell) {
            None => {
                self.cells.push((cell, to_owned_string(path)));
                proof {
                    let old_cells = old(self)@.cells;
                    assert(self@.cells =~= old_cells.push((cell, path@)));
                    assert(cells_of(self@.cells) =~= cells_of(old_cells).push(cell));
                    assert forall|a: int, b: int|
                        0 <= a < cells_of(self@.cells).len() && 0 <= b < cells_of(
                            self@.cells,
                        ).len() && a != b implies cells_of(self@.cells)[a] != cells_of(
                        self@.cells,
                    )[b] by {
                        if a == old_cells.len() {
                            assert(old_cells[b].0 != cell);
                        } else if b == old_cells.len() {
                            assert(old_cells[a].0 != cell);
                        }
                    }
                }
            },
            Some(i) => {
                let first = to_owned_string(self.cells[i].1.as_str());
                self.collisions.push(
                    Collision { first_path: first, second_path: to_owned_string(path), cell },
                );
                proof {
                    assert(self@.collisions =~= old(self)@.collisions.push(
                        (old(self)@.cells[i as int].1, path@, cell),
                    ));
                }
            },
        }
    }

    /// Record a subtract volume to be applied later.
    pub fn add_subtract(&mut self, sub: SubtractVolume)
        ensures
            final(self)@ == (OccView { subtracts: old(self)@.subtracts.push(sub), ..old(self)@ }),
            old(self).wf() ==> final(self).wf(),
    {
        self.subtracts.push(sub);
    }

    /// The bounds enclosing every claimed cell (each cell spans one unit),
    /// or None when nothing is claimed.
    pub fn aabb(&self) -> (r: Option<Bounds>)
        requires
            cells_bounded(self@.cells),
        ensures
            r == aabb_spec(self@),
    {
        if self.cells.len() == 0 {
            return None;
        }
        let ghost s = cells_of(self@.cells);
        let first = self.cells[0].0;
        let mut mn = first;
        let mut mx = first;
        let mut i: usize = 1;
        assert(s.take(1) =~= seq![first]);
        while i < self.cells.len()
            invariant
                1 <= i <= self.cells@.len(),
                s == cells_of(self@.cells),
                s.len() == self.cells@.len(),
                cells_bounded(self@.cells),
                mn.0 == min_over(s.take(i as int), 0),
                mn.1 == min_over(s.take(i as int), 1),
                mn.2 == min_over(s.take(i as int), 2),
                mx.0 == max_over(s.take(i as int), 0),
                mx.1 == max_over(s.take(i as int), 1),
                mx.2 == max_over(s.take(i as int), 2),
                mx.0 < i32::MAX && mx.1 < i32::MAX && mx.2 < i32::MAX,
            decreases self.cells@.len() - i,
        {
            let (x, y, z) = self.cells[i].0;
            assert(s.take(i + 1).drop_last() =~= s.take(i as int));
            assert(s.take(i + 1).last() == (x, y, z));
            if x < mn.0 {
                mn.0 = x;
            }
            if y < mn.1 {
                mn.1 = y;
            }
            if z < mn.2 {
                mn.2 = z;
            }
            if x > mx.0 {
                mx.0 = x;
            }
            if y > mx.1 {
                mx.1 = y;
            }
            if z > mx.2 {
                mx.2 = z;
            }
            i = i + 1;
        }
        assert(s.take(s.len() as int) =~= s);
        Some(Bounds(mn.0, mn.1, mn.2, mx.0 + 1, mx.1 + 1, mx.2 + 1))
    }

    /// Remove cells fully covered by subtract volumes. Collisions were
    /// recorded at claim time, before subtracts; those at cells that no
    /// longer exist are dropped.
    pub fn apply_subtracts(&mut self)
        requires
            old(self).wf(),
            forall|k: int|
                0 <= k < old(self)@.subtracts.len() ==> is_canonical(
                    (#[trigger] old(self)@.subtracts[k]).bounds,
                ),
        ensures
            final(self)@ == apply_subtracts_spec(old(self)@),
            final(self).wf(),
    {
        let ghost v = self@;
        let mut subtracts: Vec<SubtractVolume> = Vec::new();
        std::mem::swap(&mut subtracts, &mut self.subtracts);
        let mut cells: Vec<(CellPos, String)> = Vec::new();
        std::mem::swap(&mut cells, &mut self.cells);
        let ghost keep = |e: (CellPos, Seq<char>)| survives(v.subtracts, e.0);
        let ghost cv = v.cells;
        let mut kept: Vec<(CellPos, String)> = Vec::new();
        let mut i: usize = 0;
        while i < cells.len()
            invariant
                i <= cells@.len(),
                cells@.map_values(|e: (CellPos, String)| (e.0, e.1@)) == cv,
                subtracts@ == v.subtracts,
                forall|k: int|
                    0 <= k < v.subtracts.len() ==> is_canonical(#[trigger] v.subtracts[k].bounds),
                keep == (|e: (CellPos, Seq<char>)| survives(v.subtracts, e.0)),
                kept@.map_values(|e: (CellPos, String)| (e.0, e.1@)) == cv.take(i as int).filter(
                    keep,
                ),
            decreases cells@.len() - i,
        {
            let cell = cells[i].0;
            let alive = survives_exec(&subtracts, cell);
            proof {
                assert(cv.take(i + 1).drop_last() =~= cv.take(i as int));
                assert(cv.take(i + 1).last() == cv[i as int]);
                reveal_with_fuel(Seq::<_>::filter, 1);
            }
            if alive {
                let path = to_owned_string(cells[i].1.as_str());
                kept.push((cell, path));
                proof {
                    assert(kept@.map_values(|e: (CellPos, String)| (e.0, e.1@)) =~= cv.take(
                        i as int,
                    ).filter(keep).push(cv[i as int]));
                }
            }
            i = i + 1;
        }
        assert(cv.take(cv.len() as int) =~= cv);
        self.cells = kept;
        let ghost new_cells = self@.cells;
        proof {
            lemma_filter_keeps_unique(cv, keep);
        }
        let mut collisions: Vec<Collision> = Vec::new();
        std::mem::swap(&mut collisions, &mut self.collisions);
        let ghost colv = v.collisions;
        let ghost keep_c = |c: (Seq<char>, Seq<char>, CellPos)| cell_index(new_cells, c.2) >= 0;
        let mut kept_c: Vec<Collision> = Vec::new();
        let mut j: usize = 0;
        while j < collisions.len()
            invariant
                j <= collisions@.len(),
                collisions@.map_values(|c: Collision| collision_view(c)) == colv,
                self@.cells == new_cells,
                keep_c == (|c: (Seq<char>, Seq<char>, CellPos)| cell_index(new_cells, c.2) >= 0),
                kept_c@.map_values(|c: Collision| collision_view(c)) == colv.take(j as int).filter(
                    keep_c,
                ),
            decreases collisions@.len() - j,
        {
            let cell = collisions[j].cell;
            let found = self.find_cell(cell);
            proof {
                assert(colv.take(j + 1).drop_last() =~= colv.take(j as int));
                assert(colv.take(j + 1).last() == colv[j as int]);
                reveal_with_fuel(Seq::<_>::filter, 1);
            }
            if found.is_some() {
                let c = Collision {
                    first_path: to_owned_string(collisions[j].first_path.as_str()),
                    second_path: to_owned_string(collisions[j].second_path.as_str()),
                    cell,
                };
                kept_c.push(c);
                proof {
                    assert(kept_c@.map_values(|c: Collision| collision_view(c)) =~= colv.take(
                        j as int,
                    ).filter(keep_c).push(colv[j as int]));
                }
            }
            j = j + 1;
        }
        assert(colv.take(colv.len() as int) =~= colv);
        self.collisions = kept_c;
        assert(self@.subtracts =~= Seq::<SubtractVolume>::empty());
    }
}

fn survives_exec(subs: &Vec<SubtractVolume>, cell: CellPos) -> (r: bool)
    requires
        forall|k: int| 0 <= k < subs@.len() ==> is_canonical(#[trigger] subs@[k].bounds),
    ensures
        r == survives(subs@, cell),
{
    let mut k: usize = 0;
    while k < subs.len()
        invariant
            k <= subs@.len(),
            forall|m: int| 0 <= m < subs@.len() ==> is_canonical(#[trigger] subs@[m].bounds),
            forall|m: int| 0 <= m < k ==> !removes(#[trigger] subs@[m], cell),
        decreases subs@.len() - k,
    {
        let sub = subs[k];
        let mn = sub.bounds.min();
        let mx = sub.bounds.max();
        if cell.0 >= mn.0 && cell.0 < mx.0 && cell.1 >= mn.1 && cell.1 < mx.1 && cell.2 >= mn.2
            && cell.2 < mx.2 {
            assert(has_volume(sub.bounds));
            if is_cell_inside_primitive(sub.shape, sub.orient_placement, &sub.bounds, cell) {
                return false;
            }
        }
        k = k + 1;
    }
    true
}

proof fn lemma_cell_index(cells: Seq<(CellPos, Seq<char>)>, cell: CellPos)
    ensures
        -1 <= cell_index(cells, cell) < cells.len(),
        cell_index(cells, cell) >= 0 ==> cells[cell_index(cells, cell)].0 == cell,
        cell_index(cells, cell) < 0 ==> forall|i: int| 0 <= i < cells.len() ==> cells[i].0 != cell,
    decreases cells.len(),
{
    if cells.len() > 0 && cells.last().0 != cell {
        lemma_cell_index(cells.drop_last(), cell);
        assert forall|i: int| 0 <= i < cells.len() - 1 implies cells[i] == cells.drop_last()[i] by {}
    }
}

proof fn lemma_filter_keeps_unique(cells: Seq<(CellPos, Seq<char>)>, keep: spec_fn((CellPos, Seq<char>)) -> bool)
    requires
        cells_of(cells).no_duplicates(),
    ensures
        cells_of(cells.filter(keep)).no_duplicates(),
    decreases cells.len(),
{
    reveal_with_fuel(Seq::<_>::filter, 1);
    if cells.len() > 0 {
        let prev = cells.drop_last();
        assert(cells_of(prev) =~= cells_of(cells).drop_last());
        lemma_filter_keeps_unique(prev, keep);
        if keep(cells.last()) {
            let f = prev.filter(keep);
            assert forall|i: int| 0 <= i < f.len() implies f[i].0 != cells.last().0 by {
                assert(f.contains(f[i]));
                prev.lemma_filter_contains_rev(keep, f[i]);
                let j = choose|j: int| 0 <= j < prev.len() && prev[j] == f[i];
                assert(cells_of(cells)[j] != cells_of(cells)[cells.len() - 1]);
            }
            assert forall|a: int, b: int|
                0 <= a < cells_of(f.push(cells.last())).len() && 0 <= b < cells_of(
                    f.push(cells.last()),
                ).len() && a != b implies cells_of(f.push(cells.last()))[a] != cells_of(
                f.push(cells.last()),
            )[b] by {
                if a == f.len() {
                    assert(f[b].0 != cells.last().0);
                } else if b == f.len() {
                    assert(f[a].0 != cells.last().0);
                } else {
                    assert(cells_of(f)[a] != cells_of(f)[b]);
                }
            }
        }
    }
}

/// Claim, for `path`, the image under `p` of every cell of the box
/// `[x0, x1) × [y0, y1) × [z0, z1)`, visiting z-major, then y, then x.
pub open spec fn claim_box_spec(
    v: OccView,
    x0: int,
    x1: int,
    y0: int,
    y1: int,
    z0: int,
    z1: int,
    p: Placement,
    path: Seq<char>,
) -> OccView
    decreases z1 - z0,
{
    if z1 <= z0 {
        v
    } else {
        claim_layer_spec(claim_box_spec(v, x0, x1, y0, y1, z0, z1 - 1, p, path), x0, x1, y0, y1, z1 - 1, p, path)
    }
}

/// Claim the cells of one z-layer of a box.
pub open spec fn claim_layer_spec(
    v: OccView,
    x0: int,
    x1: int,
    y0: int,
    y1: int,
    z: int,
    p: Placement,
    path: Seq<char>,
) -> OccView
    decreases y1 - y0,
{
    if y1 <= y0 {
        v
    } else {
        claim_row_spec(claim_layer_spec(v, x0, x1, y0, y1 - 1, z, p, path), x0, x1, y1 - 1, z, p, path)
    }
}

/// Claim the cells of one x-row of a box.
pub open spec fn claim_row_spec(v: OccView, x0: int, x1: int, y: int, z: int, p: Placement, path: Seq<char>) -> OccView
    decreases x1 - x0,
{
    if x1 <= x0 {
        v
    } else {
        claim_mapped_spec(claim_row_spec(v, x0, x1 - 1, y, z, p, path), p, (x1 - 1, y, z), path)
    }
}

/// Claim the image of one cell (an image outside the `i32` range, which no
/// cell of the `i32` range has, claims nothing).
pub open spec fn claim_mapped_spec(v: OccView, p: Placement, c: (int, int, int), path: Seq<char>) -> OccView {
    let m = apply_cell_spec(p, c);
    if m.0 <= i32::MAX && m.1 <= i32::MAX && m.2 <= i32::MAX && m.0 >= i32::MIN && m.1 >= i32::MIN
        && m.2 >= i32::MIN {
        claim_spec(v, (m.0 as i32, m.1 as i32, m.2 as i32), path)
    } else {
        v
    }
}

fn claim_mapped(occ: &mut Occupancy, p: Placement, c: CellPos, path: &str)
    requires
        old(occ).wf(),
    ensures
        final(occ)@ == claim_mapped_spec(old(occ)@, p, (c.0 as int, c.1 as int, c.2 as int), path@),
        final(occ).wf(),
        final(occ)@.subtracts == old(occ)@.subtracts,
{
    let m = apply_placement_to_cell(p, c);
    occ.claim(m, path);
}

/// Claim the image under `p` of every cell in `[mn, mx)` for `path`.
pub fn claim_box(occ: &mut Occupancy, mn: CellPos, mx: CellPos, p: Placement, path: &str)
    requires
        old(occ).wf(),
    ensures
        final(occ)@ == claim_box_spec(
            old(occ)@,
            mn.0 as int,
            mx.0 as int,
            mn.1 as int,
            mx.1 as int,
            mn.2 as int,
            mx.2 as int,
            p,
            path@,
        ),
        final(occ).wf(),
        final(occ)@.subtracts == old(occ)@.subtracts,
{
    let ghost v0 = occ@;
    if mx.2 <= mn.2 {
        return;
    }
    let mut z: i32 = mn.2;
    while z < mx.2
        invariant
            mn.2 <= z <= mx.2,
            occ.wf(),
            occ@.subtracts == v0.subtracts,
            occ@ == claim_box_spec(v0, mn.0 as int, mx.0 as int, mn.1 as int, mx.1 as int, mn.2 as int, z as int, p, path@),
        decreases mx.2 - z,
    {
        let ghost vz = occ@;
        let mut y: i32 = mn.1;
        if mx.1 > mn.1 {
            while y < mx.1
                invariant
                    mn.1 <= y <= mx.1,
                    occ.wf(),
                    occ@.subtracts == v0.subtracts,
            occ@ == claim_layer_spec(vz, mn.0 as int, mx.0 as int, mn.1 as int, y as int, z as int, p, path@),
                decreases mx.1 - y,
            {
                let ghost vy = occ@;
                let mut x: i32 = mn.0;
                if mx.0 > mn.0 {
                    while x < mx.0
                        invariant
                            mn.0 <= x <= mx.0,
                            occ.wf(),
                            occ@.subtracts == v0.subtracts,
            occ@ == claim_row_spec(vy, mn.0 as int, x as int, y as int, z as int, p, path@),
                        decreases mx.0 - x,
                    {
                        claim_mapped(occ, p, (x, y, z), path);
                        x = x + 1;
                    }
                }
                assert(occ@ == claim_row_spec(vy, mn.0 as int, mx.0 as int, y as int, z as int, p, path@));
                y = y + 1;
            }
        }
        assert(occ@ == claim_layer_spec(vz, mn.0 as int, mx.0 as int, mn.1 as int, mx.1 as int, z as int, p, path@));
        z = z + 1;
    }
}

/// Claim every integer cell inside the given bounds for `path`.
pub fn claim_cells(occ: &mut Occupancy, bounds: &Bounds, path: &str)
    requires
        old(occ).wf(),
    ensures
        final(occ)@ == claim_box_spec(
            old(occ)@,
            lo(*bounds, 0),
            hi(*bounds, 0),
            lo(*bounds, 1),
            hi(*bounds, 1),
            lo(*bounds, 2),
            hi(*bounds, 2),
            identity_spec(),
            path@,
        ),
        final(occ).wf(),
        final(occ)@.subtracts == old(occ)@.subtracts,
{
    let mn = bounds.min();
    let mx = bounds.max();
    claim_box(occ, mn, mx, identity_placement(), path);
}

} // verus!
