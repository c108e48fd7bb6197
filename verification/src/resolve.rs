//! Subtract resolution: what survives of the union primitives of a group.
//!
//! Union primitives are recorded whole, with their world bounds in units
//! `1/scale` of a cell. A union primitive that no subtract reaches stays
//! whole; one that shares a world cell with a subtract is decomposed into
//! unit cells, and each cell is carved by the union of the subtract
//! signatures at that cell.

use vstd::prelude::*;
use crate::bounds::{hi, lo, Bounds};
use crate::color::Color3;
use crate::compile::CompiledShape;
use crate::csg::{
    cell_near, cell_result_spec, lemma_carve_within, representable, signature_spec, cell_signature_spec, cell_subtract_with_sig, has_volume, compute_signature_at_cell,
    CellResult, PrimitiveShape,
};
use crate::fusion::{ceil_div, ceil_div_spec, floor_div, floor_div_spec};
use crate::placement::{coord, Placement};

verus! {

/// A union primitive as recorded by the walk.
#[derive(Clone, Copy, Debug)]
pub struct UnionPrimitive {
    pub shape: PrimitiveShape,
    /// Post-placement bounds in world units `1/scale` of a cell.
    pub world_bounds: Bounds,
    /// Final orientation: the placement composed with the authored one.
    pub orient: Placement,
    pub color: Color3,
    pub emissive: bool,
    /// The orientation turns space inside out.
    pub is_mirrored: bool,
    pub scale: (i32, i32, i32),
}

/// A subtract primitive as recorded by the walk.
#[derive(Clone, Copy, Debug)]
pub struct SubtractPrimitive {
    pub shape: PrimitiveShape,
    pub world_bounds: Bounds,
    pub orient: Placement,
    pub scale: (i32, i32, i32),
}

/// A primitive after subtract resolution: either a whole primitive that
/// no subtract reaches, or a single carved unit cell.
#[derive(Clone, Copy, Debug)]
pub struct ResolvedPrimitive {
    pub shape: PrimitiveShape,
    pub bounds: Bounds,
    pub orient: Placement,
    pub scale: (i32, i32, i32),
    pub color: Color3,
    pub emissive: bool,
    /// Taken from the union primitive it came from.
    pub is_mirrored: bool,
    /// The cell shows a subtract primitive as a translucent preview.
    pub subtract_preview: bool,
}

pub open spec fn scale_int(s: (i32, i32, i32)) -> (int, int, int) {
    (s.0 as int, s.1 as int, s.2 as int)
}

/// Every component of the scale is positive.
pub open spec fn scale_ok(s: (i32, i32, i32)) -> bool {
    s.0 > 0 && s.1 > 0 && s.2 > 0
}

// =====================================================================
// World cells reached by a primitive
// =====================================================================

/// The lowest world cell a box in units `1/s` reaches on axis `k`.
pub open spec fn cell_lo(b: Bounds, s: (i32, i32, i32), k: int) -> int {
    floor_div_spec(lo(b, k), coord(scale_int(s), k))
}

/// One past the highest world cell a box in units `1/s` reaches on axis
/// `k`.
pub open spec fn cell_hi(b: Bounds, s: (i32, i32, i32), k: int) -> int {
    ceil_div_spec(hi(b, k), coord(scale_int(s), k))
}

/// World cell `c` lies in the range of cells the box reaches.
pub open spec fn in_cell_range(b: Bounds, s: (i32, i32, i32), c: (int, int, int)) -> bool {
    &&& cell_lo(b, s, 0) <= c.0 < cell_hi(b, s, 0)
    &&& cell_lo(b, s, 1) <= c.1 < cell_hi(b, s, 1)
    &&& cell_lo(b, s, 2) <= c.2 < cell_hi(b, s, 2)
}

proof fn lemma_axis_range(l: int, h: int, s: int, c: int)
    requires
        s > 0,
        i32::MIN <= l <= i32::MAX,
        i32::MIN <= h <= i32::MAX,
        floor_div_spec(l, s) <= c < ceil_div_spec(h, s),
    ensures
        l - s < s * c < h,
        i32::MIN <= c < i32::MAX,
{
    vstd::arithmetic::div_mod::lemma_fundamental_div_mod(l, s);
    vstd::arithmetic::div_mod::lemma_fundamental_div_mod(h, s);
    let fl = l / s;
    let hq = h / s;
    let hr = h % s;
    let ch = ceil_div_spec(h, s);
    assert(s * c >= s * fl) by (nonlinear_arith)
        requires
            s > 0,
            c >= fl,
    ;
    assert(s * c <= s * ch - s) by (nonlinear_arith)
        requires
            s > 0,
            c <= ch - 1,
    ;
    if hr == 0 {
        assert(ch == hq);
    } else {
        assert(ch == hq + 1);
        assert(s * ch == s * hq + s) by (nonlinear_arith)
            requires
                ch == hq + 1,
        ;
    }
    assert(l - s < s * c < h);
    assert(i32::MIN <= c < i32::MAX) by (nonlinear_arith)
        requires
            s > 0,
            l - s < s * c < h,
            i32::MIN <= l,
            h <= i32::MAX,
    ;
}

/// A cell in the range is near the box, and it and its successor fit in
/// an `i32`.
pub proof fn lemma_cell_range(b: Bounds, s: (i32, i32, i32), c: (int, int, int))
    requires
        scale_ok(s),
        in_cell_range(b, s, c),
    ensures
        cell_near(b, scale_int(s), c),
        i32::MIN <= c.0 < i32::MAX,
        i32::MIN <= c.1 < i32::MAX,
        i32::MIN <= c.2 < i32::MAX,
{
    lemma_axis_range(lo(b, 0), hi(b, 0), s.0 as int, c.0);
    lemma_axis_range(lo(b, 1), hi(b, 1), s.1 as int, c.1);
    lemma_axis_range(lo(b, 2), hi(b, 2), s.2 as int, c.2);
}

/// The range of world cells the box reaches: lowest corner and one past
/// the highest.
fn cell_range(b: &Bounds, s: (i32, i32, i32)) -> (r: ((i32, i32, i32), (i32, i32, i32)))
    requires
        scale_ok(s),
    ensures
        r.0.0 == cell_lo(*b, s, 0),
        r.0.1 == cell_lo(*b, s, 1),
        r.0.2 == cell_lo(*b, s, 2),
        r.1.0 == cell_hi(*b, s, 0),
        r.1.1 == cell_hi(*b, s, 1),
        r.1.2 == cell_hi(*b, s, 2),
{
    let mn = b.min();
    let mx = b.max();
    (
        (floor_div(mn.0, s.0), floor_div(mn.1, s.1), floor_div(mn.2, s.2)),
        (ceil_div(mx.0, s.0), ceil_div(mx.1, s.1), ceil_div(mx.2, s.2)),
    )
}

fn has_volume_exec(b: &Bounds) -> (r: bool)
    ensures
        r == has_volume(*b),
{
    let mn = b.min();
    let mx = b.max();
    mn.0 < mx.0 && mn.1 < mx.1 && mn.2 < mx.2
}

// =====================================================================
// Subtract signatures
// =====================================================================

/// The subtract reaches world cell `c`: the cell lies in the range of
/// cells from the floor of its low corner to the ceiling of its high
/// corner (a subtract without volume reaches the cells of that range
/// too).
pub open spec fn sub_reaches(sub: SubtractPrimitive, c: (int, int, int)) -> bool {
    in_cell_range(sub.world_bounds, sub.scale, c)
}

/// The signature of a subtract without volume at a cell it reaches: a box
/// holds every sample point of the cell, since its point test accepts any
/// point; the plane test of a sloped shape fails on a flat extent, so it
/// holds none.
pub open spec fn flat_sig(shape: PrimitiveShape) -> u64 {
    if shape is Box {
        0xFFFF_FFFF_FFFF_FFFFu64
    } else {
        0
    }
}

/// The subtract's signature at world cell `c` (zero where it does not
/// reach).
pub open spec fn sub_sig_at(sub: SubtractPrimitive, c: (int, int, int)) -> u64 {
    if !sub_reaches(sub, c) {
        0
    } else if has_volume(sub.world_bounds) {
        cell_signature_spec(sub.shape, sub.orient, sub.world_bounds, scale_int(sub.scale), c) as u64
    } else {
        flat_sig(sub.shape)
    }
}

/// Union of the signatures of the first `n` subtracts at world cell `c`.
pub open spec fn subs_sig(subs: Seq<SubtractPrimitive>, c: (int, int, int), n: int) -> u64
    decreases n,
{
    if n <= 0 {
        0
    } else {
        subs_sig(subs, c, n - 1) | sub_sig_at(subs[n - 1], c)
    }
}

pub open spec fn subs_ok(subs: Seq<SubtractPrimitive>) -> bool {
    forall|k: int| 0 <= k < subs.len() ==> scale_ok(#[trigger] subs[k].scale)
}

pub open spec fn unions_ok(unions: Seq<UnionPrimitive>) -> bool {
    forall|k: int| 0 <= k < unions.len() ==> scale_ok(#[trigger] unions[k].scale)
}

/// The union of all subtract signatures at world cell `c`.
fn subtract_signature(subs: &[SubtractPrimitive], c: (i32, i32, i32)) -> (r: u64)
    requires
        subs_ok(subs@),
    ensures
        r == subs_sig(subs@, (c.0 as int, c.1 as int, c.2 as int), subs@.len() as int),
{
    let ghost ci = (c.0 as int, c.1 as int, c.2 as int);
    let mut sig: u64 = 0;
    let mut k: usize = 0;
    while k < subs.len()
        invariant
            k <= subs@.len(),
            subs_ok(subs@),
            ci == (c.0 as int, c.1 as int, c.2 as int),
            sig == subs_sig(subs@, ci, k as int),
        decreases subs@.len() - k,
    {
        let sub = subs[k];
        assert(scale_ok(subs@[k as int].scale));
        let ghost old_sig = sig;
        assert(old_sig | 0u64 == old_sig) by (bit_vector);
        let (lo3, hi3) = cell_range(&sub.world_bounds, sub.scale);
        if lo3.0 <= c.0 && c.0 < hi3.0 && lo3.1 <= c.1 && c.1 < hi3.1 && lo3.2 <= c.2 && c.2 < hi3.2 {
            proof {
                lemma_cell_range(sub.world_bounds, sub.scale, ci);
            }
            let s = if has_volume_exec(&sub.world_bounds) {
                compute_signature_at_cell(sub.shape, sub.orient, &sub.world_bounds, sub.scale, c)
            } else {
                match sub.shape {
                    PrimitiveShape::Box => 0xFFFF_FFFF_FFFF_FFFFu64,
                    _ => 0u64,
                }
            };
            sig = sig | s;
        }
        k = k + 1;
    }
    sig
}

/// Some subtract reaches a world cell of the union primitive.
pub open spec fn touched(prim: UnionPrimitive, subs: Seq<SubtractPrimitive>) -> bool {
    exists|k: int, c: (int, int, int)|
        0 <= k < subs.len() && in_cell_range(prim.world_bounds, prim.scale, c) && #[trigger] sub_reaches(
            subs[k],
            c,
        )
}

fn imax32(a: i32, b: i32) -> (r: i32)
    ensures
        r == if a >= b { a } else { b },
{
    if a >= b {
        a
    } else {
        b
    }
}

fn imin32(a: i32, b: i32) -> (r: i32)
    ensures
        r == if a <= b { a } else { b },
{
    if a <= b {
        a
    } else {
        b
    }
}

/// Does any subtract reach a world cell of the union primitive?
fn primitive_touches_subtracts(prim: &UnionPrimitive, subs: &[SubtractPrimitive]) -> (r: bool)
    requires
        scale_ok(prim.scale),
        subs_ok(subs@),
    ensures
        r == touched(*prim, subs@),
{
    let (plo, phi) = cell_range(&prim.world_bounds, prim.scale);
    let mut k: usize = 0;
    while k < subs.len()
        invariant
            k <= subs@.len(),
            subs_ok(subs@),
            scale_ok(prim.scale),
            plo.0 == cell_lo(prim.world_bounds, prim.scale, 0),
            plo.1 == cell_lo(prim.world_bounds, prim.scale, 1),
            plo.2 == cell_lo(prim.world_bounds, prim.scale, 2),
            phi.0 == cell_hi(prim.world_bounds, prim.scale, 0),
            phi.1 == cell_hi(prim.world_bounds, prim.scale, 1),
            phi.2 == cell_hi(prim.world_bounds, prim.scale, 2),
            forall|m: int, c: (int, int, int)|
                0 <= m < k && in_cell_range(prim.world_bounds, prim.scale, c) ==> !#[trigger] sub_reaches(
                    subs@[m],
                    c,
                ),
        decreases subs@.len() - k,
    {
        let sub = subs[k];
        assert(scale_ok(subs@[k as int].scale));
        let (slo, shi) = cell_range(&sub.world_bounds, sub.scale);
        let x0 = imax32(plo.0, slo.0);
        let y0 = imax32(plo.1, slo.1);
        let z0 = imax32(plo.2, slo.2);
        if x0 < imin32(phi.0, shi.0) && y0 < imin32(phi.1, shi.1) && z0 < imin32(phi.2, shi.2) {
            let ghost c = (x0 as int, y0 as int, z0 as int);
            assert(in_cell_range(prim.world_bounds, prim.scale, c) && sub_reaches(subs@[k as int], c));
            return true;
        }
        k = k + 1;
    }
    false
}

// =====================================================================
// Resolution
// =====================================================================

/// A unit cell of the union primitive's color at world cell `c`.
pub open spec fn unit_cell(prim: UnionPrimitive, shape: PrimitiveShape, orient: Placement, c: (int, int, int)) -> ResolvedPrimitive {
    ResolvedPrimitive {
        shape,
        bounds: Bounds(
            c.0 as i32,
            c.1 as i32,
            c.2 as i32,
            (c.0 + 1) as i32,
            (c.1 + 1) as i32,
            (c.2 + 1) as i32,
        ),
        orient,
        scale: (1i32, 1i32, 1i32),
        color: prim.color,
        emissive: prim.emissive,
        is_mirrored: prim.is_mirrored,
        subtract_preview: false,
    }
}

/// What survives of the union primitive at world cell `c`: the cell
/// whole when no subtract signature falls there, else the carved shape
/// when the table has one. An empty or unrepresentable result leaves
/// nothing.
pub open spec fn cell_outcome(prim: UnionPrimitive, subs: Seq<SubtractPrimitive>, c: (int, int, int)) -> Seq<ResolvedPrimitive> {
    let sig = subs_sig(subs, c, subs.len() as int);
    if sig == 0 {
        seq![unit_cell(prim, prim.shape, prim.orient, c)]
    } else {
        match cell_result_spec((prim.shape, prim.orient), sig) {
            CellResult::Keep { shape, placement } => seq![unit_cell(prim, shape, placement, c)],
            _ => seq![],
        }
    }
}

/// What resolution leaves of a union primitive in world cell `c`: at
/// most one unit cell at `c`, of the primitive's color and flags. Where
/// no subtract reaches, it keeps the primitive's shape and orientation.
/// Where subtracts reach, its samples are exactly the primitive's
/// samples outside the subtracted ones, and the cell is gone exactly
/// when no sample is left or no table primitive has those samples.
pub proof fn lemma_cell_outcome_carves(prim: UnionPrimitive, subs: Seq<SubtractPrimitive>, c: (int, int, int))
    ensures
        ({
            let sig = subs_sig(subs, c, subs.len() as int);
            let m = signature_spec(prim.shape, prim.orient) as u64;
            let out = cell_outcome(prim, subs, c);
            &&& out.len() <= 1
            &&& forall|k: int|
                0 <= k < out.len() ==> {
                    &&& (#[trigger] out[k]).bounds == Bounds(
                        c.0 as i32,
                        c.1 as i32,
                        c.2 as i32,
                        (c.0 + 1) as i32,
                        (c.1 + 1) as i32,
                        (c.2 + 1) as i32,
                    )
                    &&& out[k].scale == (1i32, 1i32, 1i32)
                    &&& out[k].color == prim.color
                    &&& out[k].emissive == prim.emissive
                    &&& out[k].is_mirrored == prim.is_mirrored
                    &&& !out[k].subtract_preview
                }
            &&& sig == 0 ==> out.len() == 1 && out[0].shape == prim.shape && out[0].orient == prim.orient
            &&& sig != 0 && m & !sig == 0 ==> out.len() == 0
            &&& sig != 0 && m & !sig != 0 && representable((m & !sig) as nat) ==> out.len() == 1
            &&& sig != 0 && out.len() == 1 ==> signature_spec(out[0].shape, out[0].orient) == (m & !sig) as nat
        }),
{
    let sig = subs_sig(subs, c, subs.len() as int);
    let m = signature_spec(prim.shape, prim.orient) as u64;
    let out = cell_outcome(prim, subs, c);
    lemma_carve_within((prim.shape, prim.orient), sig);
    if sig == 0 {
        assert(out == seq![unit_cell(prim, prim.shape, prim.orient, c)]);
    } else {
        match cell_result_spec((prim.shape, prim.orient), sig) {
            CellResult::Keep { shape, placement } => {
                assert(out == seq![unit_cell(prim, shape, placement, c)]);
                assert(out[0].shape == shape && out[0].orient == placement);
            },
            _ => {
                assert(out == Seq::<ResolvedPrimitive>::empty());
            },
        }
    }
}

/// Outcomes of the cells of row `(y, z)` below `x`, in increasing `x`.
pub open spec fn row_spec(prim: UnionPrimitive, subs: Seq<SubtractPrimitive>, y: int, z: int, x: int) -> Seq<ResolvedPrimitive>
    decreases x - cell_lo(prim.world_bounds, prim.scale, 0),
{
    if x <= cell_lo(prim.world_bounds, prim.scale, 0) {
        seq![]
    } else {
        row_spec(prim, subs, y, z, x - 1) + cell_outcome(prim, subs, (x - 1, y, z))
    }
}

/// Outcomes of the rows of layer `z` below `y`, in increasing `y`.
pub open spec fn layer_spec(prim: UnionPrimitive, subs: Seq<SubtractPrimitive>, z: int, y: int) -> Seq<ResolvedPrimitive>
    decreases y - cell_lo(prim.world_bounds, prim.scale, 1),
{
    if y <= cell_lo(prim.world_bounds, prim.scale, 1) {
        seq![]
    } else {
        layer_spec(prim, subs, z, y - 1) + row_spec(
            prim,
            subs,
            y - 1,
            z,
            cell_hi(prim.world_bounds, prim.scale, 0),
        )
    }
}

/// Outcomes of the layers below `z`, in increasing `z`.
pub open spec fn block_spec(prim: UnionPrimitive, subs: Seq<SubtractPrimitive>, z: int) -> Seq<ResolvedPrimitive>
    decreases z - cell_lo(prim.world_bounds, prim.scale, 2),
{
    if z <= cell_lo(prim.world_bounds, prim.scale, 2) {
        seq![]
    } else {
        block_spec(prim, subs, z - 1) + layer_spec(prim, subs, z - 1, cell_hi(prim.world_bounds, prim.scale, 1))
    }
}

/// The union primitive kept whole.
pub open spec fn whole(prim: UnionPrimitive) -> ResolvedPrimitive {
    ResolvedPrimitive {
        shape: prim.shape,
        bounds: prim.world_bounds,
        orient: prim.orient,
        scale: prim.scale,
        color: prim.color,
        emissive: prim.emissive,
        is_mirrored: prim.is_mirrored,
        subtract_preview: false,
    }
}

/// A primitive no subtract reaches stays whole; otherwise each of its
/// world cells, `z` outermost and `x` innermost, gives its outcome.
pub open spec fn resolve_prim_spec(prim: UnionPrimitive, subs: Seq<SubtractPrimitive>) -> Seq<ResolvedPrimitive> {
    if touched(prim, subs) {
        block_spec(prim, subs, cell_hi(prim.world_bounds, prim.scale, 2))
    } else {
        seq![whole(prim)]
    }
}

/// `o` is what carving the union primitive leaves in world cell `c`: a
/// unit cell there of the primitive's color and flags, with the
/// primitive's own shape and orientation where no subtract reaches, and
/// otherwise a primitive whose samples are exactly the primitive's
/// samples outside the subtracted ones.
pub open spec fn carved_at(prim: UnionPrimitive, subs: Seq<SubtractPrimitive>, o: ResolvedPrimitive, c: (int, int, int)) -> bool {
    let sig = subs_sig(subs, c, subs.len() as int);
    &&& o.bounds == Bounds(c.0 as i32, c.1 as i32, c.2 as i32, (c.0 + 1) as i32, (c.1 + 1) as i32, (c.2 + 1) as i32)
    &&& o.scale == (1i32, 1i32, 1i32)
    &&& o.color == prim.color
    &&& o.emissive == prim.emissive
    &&& o.is_mirrored == prim.is_mirrored
    &&& !o.subtract_preview
    &&& sig == 0 ==> o.shape == prim.shape && o.orient == prim.orient
    &&& sig != 0 ==> signature_spec(o.shape, o.orient) == (signature_spec(prim.shape, prim.orient) as u64 & !sig) as nat
}

/// `o` is what carving leaves in one of the cells of row `(y, z)` below `x`.
pub open spec fn row_carved(prim: UnionPrimitive, subs: Seq<SubtractPrimitive>, y: int, z: int, x: int, o: ResolvedPrimitive) -> bool {
    exists|xx: int| cell_lo(prim.world_bounds, prim.scale, 0) <= xx < x && #[trigger] carved_at(prim, subs, o, (xx, y, z))
}

/// `o` is what carving leaves in one of the cells of layer `z` below `y`.
pub open spec fn layer_carved(prim: UnionPrimitive, subs: Seq<SubtractPrimitive>, z: int, y: int, o: ResolvedPrimitive) -> bool {
    exists|xx: int, yy: int|
        cell_lo(prim.world_bounds, prim.scale, 0) <= xx < cell_hi(prim.world_bounds, prim.scale, 0) && cell_lo(
            prim.world_bounds,
            prim.scale,
            1,
        ) <= yy < y && #[trigger] carved_at(prim, subs, o, (xx, yy, z))
}

/// `o` is what carving the union primitive leaves in one of the world
/// cells it reaches.
pub open spec fn carved_from(prim: UnionPrimitive, subs: Seq<SubtractPrimitive>, o: ResolvedPrimitive) -> bool {
    exists|c: (int, int, int)| in_cell_range(prim.world_bounds, prim.scale, c) && #[trigger] carved_at(prim, subs, o, c)
}

/// `o` is what carving leaves in one of the reached cells below layer `z`.
pub open spec fn block_carved(prim: UnionPrimitive, subs: Seq<SubtractPrimitive>, z: int, o: ResolvedPrimitive) -> bool {
    exists|c: (int, int, int)|
        in_cell_range(prim.world_bounds, prim.scale, c) && c.2 < z && #[trigger] carved_at(prim, subs, o, c)
}

proof fn lemma_row_carves(prim: UnionPrimitive, subs: Seq<SubtractPrimitive>, y: int, z: int, x: int)
    ensures
        forall|k: int|
            0 <= k < row_spec(prim, subs, y, z, x).len() ==> row_carved(prim, subs, y, z, x, #[trigger] row_spec(prim, subs, y, z, x)[k]),
    decreases x - cell_lo(prim.world_bounds, prim.scale, 0),
{
    if x > cell_lo(prim.world_bounds, prim.scale, 0) {
        lemma_row_carves(prim, subs, y, z, x - 1);
        lemma_cell_outcome_carves(prim, subs, (x - 1, y, z));
        let prev = row_spec(prim, subs, y, z, x - 1);
        let out = cell_outcome(prim, subs, (x - 1, y, z));
        let r = row_spec(prim, subs, y, z, x);
        assert(r == prev + out);
        assert forall|k: int| 0 <= k < r.len() implies row_carved(prim, subs, y, z, x, #[trigger] r[k]) by {
            if k < prev.len() {
                assert(r[k] == prev[k]);
                assert(row_carved(prim, subs, y, z, x - 1, prev[k]));
                let xx = choose|xx: int|
                    cell_lo(prim.world_bounds, prim.scale, 0) <= xx < x - 1 && #[trigger] carved_at(prim, subs, prev[k], (xx, y, z));
                assert(carved_at(prim, subs, r[k], (xx, y, z)));
            } else {
                assert(k - prev.len() == 0);
                assert(r[k] == out[0]);
                assert(carved_at(prim, subs, r[k], (x - 1, y, z)));
            }
        }
    }
}

proof fn lemma_layer_carves(prim: UnionPrimitive, subs: Seq<SubtractPrimitive>, z: int, y: int)
    ensures
        forall|k: int|
            0 <= k < layer_spec(prim, subs, z, y).len() ==> layer_carved(prim, subs, z, y, #[trigger] layer_spec(prim, subs, z, y)[k]),
    decreases y - cell_lo(prim.world_bounds, prim.scale, 1),
{
    if y > cell_lo(prim.world_bounds, prim.scale, 1) {
        lemma_layer_carves(prim, subs, z, y - 1);
        let hx = cell_hi(prim.world_bounds, prim.scale, 0);
        lemma_row_carves(prim, subs, y - 1, z, hx);
        let prev = layer_spec(prim, subs, z, y - 1);
        let row = row_spec(prim, subs, y - 1, z, hx);
        let r = layer_spec(prim, subs, z, y);
        assert(r == prev + row);
        assert forall|k: int| 0 <= k < r.len() implies layer_carved(prim, subs, z, y, #[trigger] r[k]) by {
            if k < prev.len() {
                assert(r[k] == prev[k]);
                assert(layer_carved(prim, subs, z, y - 1, prev[k]));
                let (xx, yy) = choose|xx: int, yy: int|
                    cell_lo(prim.world_bounds, prim.scale, 0) <= xx < hx && cell_lo(prim.world_bounds, prim.scale, 1)
                        <= yy < y - 1 && #[trigger] carved_at(prim, subs, prev[k], (xx, yy, z));
                assert(carved_at(prim, subs, r[k], (xx, yy, z)));
            } else {
                let kk = k - prev.len();
                assert(r[k] == row[kk]);
                assert(row_carved(prim, subs, y - 1, z, hx, row[kk]));
                let xx = choose|xx: int|
                    cell_lo(prim.world_bounds, prim.scale, 0) <= xx < hx && #[trigger] carved_at(prim, subs, row[kk], (xx, y - 1, z));
                assert(carved_at(prim, subs, r[k], (xx, y - 1, z)));
            }
        }
    }
}

proof fn lemma_block_carves(prim: UnionPrimitive, subs: Seq<SubtractPrimitive>, z: int)
    requires
        z <= cell_hi(prim.world_bounds, prim.scale, 2),
    ensures
        forall|k: int|
            0 <= k < block_spec(prim, subs, z).len() ==> block_carved(prim, subs, z, #[trigger] block_spec(prim, subs, z)[k]),
    decreases z - cell_lo(prim.world_bounds, prim.scale, 2),
{
    if z > cell_lo(prim.world_bounds, prim.scale, 2) {
        lemma_block_carves(prim, subs, z - 1);
        let hy = cell_hi(prim.world_bounds, prim.scale, 1);
        lemma_layer_carves(prim, subs, z - 1, hy);
        let prev = block_spec(prim, subs, z - 1);
        let layer = layer_spec(prim, subs, z - 1, hy);
        let r = block_spec(prim, subs, z);
        assert(r == prev + layer);
        assert forall|k: int| 0 <= k < r.len() implies block_carved(prim, subs, z, #[trigger] r[k]) by {
            if k < prev.len() {
                assert(r[k] == prev[k]);
                assert(block_carved(prim, subs, z - 1, prev[k]));
                let c = choose|c: (int, int, int)|
                    in_cell_range(prim.world_bounds, prim.scale, c) && c.2 < z - 1 && #[trigger] carved_at(prim, subs, prev[k], c);
                assert(carved_at(prim, subs, r[k], c));
            } else {
                let kk = k - prev.len();
                assert(r[k] == layer[kk]);
                assert(layer_carved(prim, subs, z - 1, hy, layer[kk]));
                let (xx, yy) = choose|xx: int, yy: int|
                    cell_lo(prim.world_bounds, prim.scale, 0) <= xx < cell_hi(prim.world_bounds, prim.scale, 0)
                        && cell_lo(prim.world_bounds, prim.scale, 1) <= yy < hy && #[trigger] carved_at(
                        prim,
                        subs,
                        layer[kk],
                        (xx, yy, z - 1),
                    );
                assert(in_cell_range(prim.world_bounds, prim.scale, (xx, yy, z - 1)));
                assert(carved_at(prim, subs, r[k], (xx, yy, z - 1)));
            }
        }
    }
}

proof fn lemma_row_complete(prim: UnionPrimitive, subs: Seq<SubtractPrimitive>, y: int, z: int, x: int, xx: int)
    requires
        cell_lo(prim.world_bounds, prim.scale, 0) <= xx < x,
        cell_outcome(prim, subs, (xx, y, z)).len() == 1,
    ensures
        row_spec(prim, subs, y, z, x).contains(cell_outcome(prim, subs, (xx, y, z))[0]),
    decreases x - cell_lo(prim.world_bounds, prim.scale, 0),
{
    let prev = row_spec(prim, subs, y, z, x - 1);
    let out = cell_outcome(prim, subs, (x - 1, y, z));
    let r = row_spec(prim, subs, y, z, x);
    assert(r == prev + out);
    if xx < x - 1 {
        lemma_row_complete(prim, subs, y, z, x - 1, xx);
        let k = choose|k: int| 0 <= k < prev.len() && prev[k] == cell_outcome(prim, subs, (xx, y, z))[0];
        assert(r[k] == prev[k]);
    } else {
        assert(r[prev.len() as int] == out[0]);
    }
}

proof fn lemma_layer_complete(prim: UnionPrimitive, subs: Seq<SubtractPrimitive>, z: int, y: int, c: (int, int, int))
    requires
        cell_lo(prim.world_bounds, prim.scale, 0) <= c.0 < cell_hi(prim.world_bounds, prim.scale, 0),
        cell_lo(prim.world_bounds, prim.scale, 1) <= c.1 < y,
        c.2 == z,
        cell_outcome(prim, subs, c).len() == 1,
    ensures
        layer_spec(prim, subs, z, y).contains(cell_outcome(prim, subs, c)[0]),
    decreases y - cell_lo(prim.world_bounds, prim.scale, 1),
{
    let hx = cell_hi(prim.world_bounds, prim.scale, 0);
    let prev = layer_spec(prim, subs, z, y - 1);
    let row = row_spec(prim, subs, y - 1, z, hx);
    let r = layer_spec(prim, subs, z, y);
    assert(r == prev + row);
    let o = cell_outcome(prim, subs, c)[0];
    if c.1 < y - 1 {
        lemma_layer_complete(prim, subs, z, y - 1, c);
        let k = choose|k: int| 0 <= k < prev.len() && prev[k] == o;
        assert(r[k] == prev[k]);
    } else {
        assert(c == (c.0, y - 1, z));
        lemma_row_complete(prim, subs, y - 1, z, hx, c.0);
        let k = choose|k: int| 0 <= k < row.len() && row[k] == o;
        assert(r[prev.len() + k] == row[k]);
    }
}

proof fn lemma_block_complete(prim: UnionPrimitive, subs: Seq<SubtractPrimitive>, z: int, c: (int, int, int))
    requires
        in_cell_range(prim.world_bounds, prim.scale, c),
        c.2 < z,
        cell_outcome(prim, subs, c).len() == 1,
    ensures
        block_spec(prim, subs, z).contains(cell_outcome(prim, subs, c)[0]),
    decreases z - cell_lo(prim.world_bounds, prim.scale, 2),
{
    let hy = cell_hi(prim.world_bounds, prim.scale, 1);
    let prev = block_spec(prim, subs, z - 1);
    let layer = layer_spec(prim, subs, z - 1, hy);
    let r = block_spec(prim, subs, z);
    assert(r == prev + layer);
    let o = cell_outcome(prim, subs, c)[0];
    if c.2 < z - 1 {
        lemma_block_complete(prim, subs, z - 1, c);
        let k = choose|k: int| 0 <= k < prev.len() && prev[k] == o;
        assert(r[k] == prev[k]);
    } else {
        lemma_layer_complete(prim, subs, z - 1, hy, c);
        let k = choose|k: int| 0 <= k < layer.len() && layer[k] == o;
        assert(r[prev.len() + k] == layer[k]);
    }
}

/// Resolving a touched union primitive loses no cell: in every world
/// cell it reaches where no subtract reaches, or where the samples left
/// after the subtracts are non-empty and make up a table primitive, a
/// resolved cell sits at that cell with what carving leaves there.
pub proof fn lemma_resolve_prim_keeps_cells(prim: UnionPrimitive, subs: Seq<SubtractPrimitive>, c: (int, int, int))
    requires
        touched(prim, subs),
        in_cell_range(prim.world_bounds, prim.scale, c),
        ({
            let sig = subs_sig(subs, c, subs.len() as int);
            let left = signature_spec(prim.shape, prim.orient) as u64 & !sig;
            sig == 0 || (left != 0 && representable(left as nat))
        }),
    ensures
        exists|k: int|
            0 <= k < resolve_prim_spec(prim, subs).len() && carved_at(
                prim,
                subs,
                #[trigger] resolve_prim_spec(prim, subs)[k],
                c,
            ),
{
    lemma_cell_outcome_carves(prim, subs, c);
    let out = cell_outcome(prim, subs, c);
    assert(out.len() == 1);
    assert(carved_at(prim, subs, out[0], c));
    lemma_block_complete(prim, subs, cell_hi(prim.world_bounds, prim.scale, 2), c);
    let r = resolve_prim_spec(prim, subs);
    let k = choose|k: int| 0 <= k < r.len() && r[k] == out[0];
    assert(carved_at(prim, subs, r[k], c));
}

/// Resolving a union primitive: untouched by every subtract it stays one
/// whole primitive of its own bounds, shape and orientation; touched,
/// every cell it leaves is what carving leaves in one of the world cells
/// it reaches (`carved_from`): the primitive's own shape and orientation
/// where no subtract reaches that cell, otherwise exactly the
/// primitive's samples outside the subtracted ones.
pub proof fn lemma_resolve_prim_carves(prim: UnionPrimitive, subs: Seq<SubtractPrimitive>)
    ensures
        !touched(prim, subs) ==> {
            let out = resolve_prim_spec(prim, subs);
            &&& out.len() == 1
            &&& out[0].bounds == prim.world_bounds && out[0].shape == prim.shape && out[0].orient == prim.orient
            &&& out[0].scale == prim.scale && out[0].color == prim.color && out[0].emissive == prim.emissive
            &&& !out[0].subtract_preview
        },
        touched(prim, subs) ==> forall|k: int|
            0 <= k < resolve_prim_spec(prim, subs).len() ==> carved_from(prim, subs, #[trigger] resolve_prim_spec(prim, subs)[k]),
{
    if touched(prim, subs) {
        let hz = cell_hi(prim.world_bounds, prim.scale, 2);
        lemma_block_carves(prim, subs, hz);
        let r = resolve_prim_spec(prim, subs);
        assert(r == block_spec(prim, subs, hz));
        assert forall|k: int| 0 <= k < r.len() implies carved_from(prim, subs, #[trigger] r[k]) by {
            assert(block_carved(prim, subs, hz, r[k]));
            let c = choose|c: (int, int, int)|
                in_cell_range(prim.world_bounds, prim.scale, c) && c.2 < hz && #[trigger] carved_at(prim, subs, r[k], c);
            assert(carved_at(prim, subs, r[k], c));
        }
    }
}

pub open spec fn resolve_upto(unions: Seq<UnionPrimitive>, subs: Seq<SubtractPrimitive>, n: int) -> Seq<ResolvedPrimitive>
    decreases n,
{
    if n <= 0 {
        seq![]
    } else {
        resolve_upto(unions, subs, n - 1) + resolve_prim_spec(unions[n - 1], subs)
    }
}

/// All union primitives resolved against all subtracts, in order.
pub open spec fn resolve_spec(unions: Seq<UnionPrimitive>, subs: Seq<SubtractPrimitive>) -> Seq<ResolvedPrimitive> {
    resolve_upto(unions, subs, unions.len() as int)
}

/// A subtract primitive shown as a preview cell.
pub open spec fn preview_cell(p: UnionPrimitive) -> ResolvedPrimitive {
    ResolvedPrimitive {
        shape: p.shape,
        bounds: p.world_bounds,
        orient: p.orient,
        scale: p.scale,
        color: p.color,
        emissive: false,
        is_mirrored: p.is_mirrored,
        subtract_preview: true,
    }
}

/// What a group resolves to: its union primitives resolved against its
/// subtracts, then its subtract previews as preview cells.
pub open spec fn group_resolve_spec(
    unions: Seq<UnionPrimitive>,
    subs: Seq<SubtractPrimitive>,
    previews: Seq<UnionPrimitive>,
) -> Seq<ResolvedPrimitive> {
    resolve_spec(unions, subs) + previews.map_values(|p: UnionPrimitive| preview_cell(p))
}

fn push_cell_outcome(
    prim: &UnionPrimitive,
    subs: &[SubtractPrimitive],
    c: (i32, i32, i32),
    out: &mut Vec<ResolvedPrimitive>,
)
    requires
        scale_ok(prim.scale),
        subs_ok(subs@),
        in_cell_range(prim.world_bounds, prim.scale, (c.0 as int, c.1 as int, c.2 as int)),
    ensures
        final(out)@ == old(out)@ + cell_outcome(*prim, subs@, (c.0 as int, c.1 as int, c.2 as int)),
{
    proof {
        lemma_cell_range(prim.world_bounds, prim.scale, (c.0 as int, c.1 as int, c.2 as int));
    }
    let bounds = Bounds(c.0, c.1, c.2, c.0 + 1, c.1 + 1, c.2 + 1);
    let sig = subtract_signature(subs, c);
    if sig == 0 {
        out.push(
            ResolvedPrimitive {
                shape: prim.shape,
                bounds,
                orient: prim.orient,
                scale: (1, 1, 1),
                color: prim.color,
                emissive: prim.emissive,
                is_mirrored: prim.is_mirrored,
                subtract_preview: false,
            },
        );
    } else {
        match cell_subtract_with_sig((prim.shape, prim.orient), sig) {
            CellResult::Keep { shape, placement } => {
                out.push(
                    ResolvedPrimitive {
                        shape,
                        bounds,
                        orient: placement,
                        scale: (1, 1, 1),
                        color: prim.color,
                        emissive: prim.emissive,
                        is_mirrored: prim.is_mirrored,
                        subtract_preview: false,
                    },
                );
            },
            _ => {},
        }
    }
}

fn resolve_row(
    prim: &UnionPrimitive,
    subs: &[SubtractPrimitive],
    lo3: (i32, i32, i32),
    hi3: (i32, i32, i32),
    y: i32,
    z: i32,
    out: &mut Vec<ResolvedPrimitive>,
)
    requires
        scale_ok(prim.scale),
        subs_ok(subs@),
        lo3.0 == cell_lo(prim.world_bounds, prim.scale, 0),
        hi3.0 == cell_hi(prim.world_bounds, prim.scale, 0),
        cell_lo(prim.world_bounds, prim.scale, 1) <= y < cell_hi(prim.world_bounds, prim.scale, 1),
        cell_lo(prim.world_bounds, prim.scale, 2) <= z < cell_hi(prim.world_bounds, prim.scale, 2),
    ensures
        final(out)@ == old(out)@ + row_spec(*prim, subs@, y as int, z as int, hi3.0 as int),
{
    let ghost out0 = out@;
    let mut x = lo3.0;
    while x < hi3.0
        invariant
            lo3.0 <= x <= hi3.0 || (hi3.0 < lo3.0 && x == lo3.0),
            scale_ok(prim.scale),
            subs_ok(subs@),
            lo3.0 == cell_lo(prim.world_bounds, prim.scale, 0),
            hi3.0 == cell_hi(prim.world_bounds, prim.scale, 0),
            cell_lo(prim.world_bounds, prim.scale, 1) <= y < cell_hi(prim.world_bounds, prim.scale, 1),
            cell_lo(prim.world_bounds, prim.scale, 2) <= z < cell_hi(prim.world_bounds, prim.scale, 2),
            out@ == out0 + row_spec(*prim, subs@, y as int, z as int, x as int),
        decreases hi3.0 - x,
    {
        let ghost before = out@;
        push_cell_outcome(prim, subs, (x, y, z), out);
        assert(out0 + row_spec(*prim, subs@, y as int, z as int, x + 1) =~= before + cell_outcome(
            *prim,
            subs@,
            (x as int, y as int, z as int),
        ));
        x = x + 1;
    }
    assert(row_spec(*prim, subs@, y as int, z as int, x as int) == row_spec(*prim, subs@, y as int, z as int, hi3.0 as int));
}

fn resolve_layer(
    prim: &UnionPrimitive,
    subs: &[SubtractPrimitive],
    lo3: (i32, i32, i32),
    hi3: (i32, i32, i32),
    z: i32,
    out: &mut Vec<ResolvedPrimitive>,
)
    requires
        scale_ok(prim.scale),
        subs_ok(subs@),
        lo3.0 == cell_lo(prim.world_bounds, prim.scale, 0),
        hi3.0 == cell_hi(prim.world_bounds, prim.scale, 0),
        lo3.1 == cell_lo(prim.world_bounds, prim.scale, 1),
        hi3.1 == cell_hi(prim.world_bounds, prim.scale, 1),
        cell_lo(prim.world_bounds, prim.scale, 2) <= z < cell_hi(prim.world_bounds, prim.scale, 2),
    ensures
        final(out)@ == old(out)@ + layer_spec(*prim, subs@, z as int, hi3.1 as int),
{
    let ghost out0 = out@;
    let mut y = lo3.1;
    while y < hi3.1
        invariant
            lo3.1 <= y <= hi3.1 || (hi3.1 < lo3.1 && y == lo3.1),
            scale_ok(prim.scale),
            subs_ok(subs@),
            lo3.0 == cell_lo(prim.world_bounds, prim.scale, 0),
            hi3.0 == cell_hi(prim.world_bounds, prim.scale, 0),
            lo3.1 == cell_lo(prim.world_bounds, prim.scale, 1),
            hi3.1 == cell_hi(prim.world_bounds, prim.scale, 1),
            cell_lo(prim.world_bounds, prim.scale, 2) <= z < cell_hi(prim.world_bounds, prim.scale, 2),
            out@ == out0 + layer_spec(*prim, subs@, z as int, y as int),
        decreases hi3.1 - y,
    {
        let ghost before = out@;
        resolve_row(prim, subs, lo3, hi3, y, z, out);
        assert(out0 + layer_spec(*prim, subs@, z as int, y + 1) =~= before + row_spec(
            *prim,
            subs@,
            y as int,
            z as int,
            hi3.0 as int,
        ));
        y = y + 1;
    }
    assert(layer_spec(*prim, subs@, z as int, y as int) == layer_spec(*prim, subs@, z as int, hi3.1 as int));
}

fn resolve_block(prim: &UnionPrimitive, subs: &[SubtractPrimitive], out: &mut Vec<ResolvedPrimitive>)
    requires
        scale_ok(prim.scale),
        subs_ok(subs@),
    ensures
        final(out)@ == old(out)@ + block_spec(*prim, subs@, cell_hi(prim.world_bounds, prim.scale, 2)),
{
    let ghost out0 = out@;
    let (lo3, hi3) = cell_range(&prim.world_bounds, prim.scale);
    let mut z = lo3.2;
    while z < hi3.2
        invariant
            lo3.2 <= z <= hi3.2 || (hi3.2 < lo3.2 && z == lo3.2),
            scale_ok(prim.scale),
            subs_ok(subs@),
            lo3.0 == cell_lo(prim.world_bounds, prim.scale, 0),
            hi3.0 == cell_hi(prim.world_bounds, prim.scale, 0),
            lo3.1 == cell_lo(prim.world_bounds, prim.scale, 1),
            hi3.1 == cell_hi(prim.world_bounds, prim.scale, 1),
            lo3.2 == cell_lo(prim.world_bounds, prim.scale, 2),
            hi3.2 == cell_hi(prim.world_bounds, prim.scale, 2),
            out@ == out0 + block_spec(*prim, subs@, z as int),
        decreases hi3.2 - z,
    {
        let ghost before = out@;
        resolve_layer(prim, subs, lo3, hi3, z, out);
        assert(out0 + block_spec(*prim, subs@, z + 1) =~= before + layer_spec(
            *prim,
            subs@,
            z as int,
            hi3.1 as int,
        ));
        z = z + 1;
    }
    assert(block_spec(*prim, subs@, z as int) == block_spec(*prim, subs@, hi3.2 as int));
}

/// What one group gathers while the shape is walked: its union
/// primitives, the subtracts that carve them, the subtract previews, and
/// the compiled named parts below it.
pub struct GroupAccumulator {
    pub union_primitives: Vec<UnionPrimitive>,
    pub subtract_primitives: Vec<SubtractPrimitive>,
    /// Subtract primitives recorded to be shown as translucent previews.
    pub preview_primitives: Vec<UnionPrimitive>,
    /// The compiled named parts below this group.
    pub children: Vec<CompiledShape>,
}

impl GroupAccumulator {
    pub fn new() -> (r: GroupAccumulator)
        ensures
            r.union_primitives@ == Seq::<UnionPrimitive>::empty(),
            r.subtract_primitives@ == Seq::<SubtractPrimitive>::empty(),
            r.preview_primitives@ == Seq::<UnionPrimitive>::empty(),
            r.children@ == Seq::<CompiledShape>::empty(),
    {
        GroupAccumulator {
            union_primitives: Vec::new(),
            subtract_primitives: Vec::new(),
            preview_primitives: Vec::new(),
            children: Vec::new(),
        }
    }

    /// Resolve the subtracts: a union primitive that no subtract reaches
    /// is kept whole; one that shares a world cell with a subtract is
    /// decomposed into unit cells, each carved by the union of the
    /// subtract signatures there. The subtract previews follow, marked
    /// as previews.
    pub fn resolve(&self) -> (r: Vec<ResolvedPrimitive>)
        requires
            unions_ok(self.union_primitives@),
            subs_ok(self.subtract_primitives@),
        ensures
            r@ == group_resolve_spec(self.union_primitives@, self.subtract_primitives@, self.preview_primitives@),
    {
        let unions = &self.union_primitives;
        let subs = self.subtract_primitives.as_slice();
        let mut out: Vec<ResolvedPrimitive> = Vec::new();
        let mut k: usize = 0;
        while k < unions.len()
            invariant
                k <= unions@.len(),
                unions@ == self.union_primitives@,
                subs@ == self.subtract_primitives@,
                unions_ok(unions@),
                subs_ok(subs@),
                out@ == resolve_upto(unions@, subs@, k as int),
            decreases unions@.len() - k,
        {
            let prim = &unions[k];
            assert(scale_ok(unions@[k as int].scale));
            let ghost before = out@;
            if primitive_touches_subtracts(prim, subs) {
                resolve_block(prim, subs, &mut out);
            } else {
                out.push(
                    ResolvedPrimitive {
                        shape: prim.shape,
                        bounds: prim.world_bounds,
                        orient: prim.orient,
                        scale: prim.scale,
                        color: prim.color,
                        emissive: prim.emissive,
                        is_mirrored: prim.is_mirrored,
                        subtract_preview: false,
                    },
                );
            }
            assert(resolve_upto(unions@, subs@, k + 1) =~= before + resolve_prim_spec(unions@[k as int], subs@));
            k = k + 1;
        }
        let ghost resolved = out@;
        let mut j: usize = 0;
        while j < self.preview_primitives.len()
            invariant
                j <= self.preview_primitives@.len(),
                resolved == resolve_spec(self.union_primitives@, self.subtract_primitives@),
                out@ == resolved + self.preview_primitives@.take(j as int).map_values(|p: UnionPrimitive| preview_cell(p)),
            decreases self.preview_primitives@.len() - j,
        {
            let p = self.preview_primitives[j];
            out.push(
                ResolvedPrimitive {
                    shape: p.shape,
                    bounds: p.world_bounds,
                    orient: p.orient,
                    scale: p.scale,
                    color: p.color,
                    emissive: false,
                    is_mirrored: p.is_mirrored,
                    subtract_preview: true,
                },
            );
            assert(self.preview_primitives@.take(j + 1).map_values(|p: UnionPrimitive| preview_cell(p))
                =~= self.preview_primitives@.take(j as int).map_values(|p: UnionPrimitive| preview_cell(p)).push(
                preview_cell(p),
            ));
            j = j + 1;
        }
        assert(self.preview_primitives@.take(self.preview_primitives@.len() as int) =~= self.preview_primitives@);
        out
    }
}

} // verus!
