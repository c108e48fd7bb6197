//! Triangle counting with face culling.
//!
//! Each primitive has full axis-aligned faces (quads or triangles) and,
//! for the sloped shapes, non-axis faces. An axis face is culled when the
//! neighbouring cell holds a primitive with a full face on the opposite
//! side. A fused multi-cell box culls a whole side only when every
//! neighbouring cell along that side covers it.

use vstd::prelude::*;
use crate::bounds::{cell_in, extent, hi, imin, lo, Bounds};
use crate::csg::PrimitiveShape;
use crate::placement::{apply_point, axis_of, faces_placement_spec, take, Face, Placement, SignedAxis};
use crate::resolve::ResolvedPrimitive;

verus! {

// =====================================================================
// Face directions
// =====================================================================

/// The six axis directions, in face order: +Y, -Y, +Z, -Z, +X, -X.
pub open spec fn face_dir(i: int) -> (int, int, int) {
    if i == 0 {
        (0, 1, 0)
    } else if i == 1 {
        (0, -1, 0)
    } else if i == 2 {
        (0, 0, 1)
    } else if i == 3 {
        (0, 0, -1)
    } else if i == 4 {
        (1, 0, 0)
    } else {
        (-1, 0, 0)
    }
}

/// The component of `w` along face direction `i` (`w · face_dir(i)`).
pub open spec fn along(w: (int, int, int), i: int) -> int {
    if i == 0 {
        w.1
    } else if i == 1 {
        -w.1
    } else if i == 2 {
        w.2
    } else if i == 3 {
        -w.2
    } else if i == 4 {
        w.0
    } else {
        -w.0
    }
}

/// The first face direction from `i` on that `w` points along by at
/// least one unit; 6 when there is none.
pub open spec fn first_face_from(w: (int, int, int), i: int) -> int
    decreases 6 - i,
{
    if i >= 6 {
        6
    } else if along(w, i) >= 1 {
        i
    } else {
        first_face_from(w, i + 1)
    }
}

/// The world face that identity face `f` becomes under orientation `p`
/// (6 when it matches none).
pub open spec fn world_face(p: Placement, f: int) -> int {
    first_face_from(apply_point(p, face_dir(f)), 0)
}

/// The face opposite face `i`.
pub open spec fn opposite(i: int) -> int {
    if i % 2 == 0 {
        i + 1
    } else {
        i - 1
    }
}

/// The cell next to `c` in face direction `i`.
pub open spec fn step(c: (int, int, int), i: int) -> (int, int, int) {
    (c.0 + face_dir(i).0, c.1 + face_dir(i).1, c.2 + face_dir(i).2)
}

// =====================================================================
// Faces of the primitives
// =====================================================================

/// The identity axis faces of the non-box shapes with their triangle
/// counts.
pub open spec fn face_list(shape: PrimitiveShape) -> Seq<(usize, usize)> {
    match shape {
        PrimitiveShape::Box => seq![],
        PrimitiveShape::Wedge => seq![(1usize, 2usize), (3, 2), (4, 1), (5, 1)],
        PrimitiveShape::Corner => seq![(1usize, 1usize), (3, 1), (5, 1)],
        PrimitiveShape::InverseCorner => seq![(0usize, 2usize), (1, 1), (2, 2), (3, 1), (4, 2), (5, 1)],
    }
}

/// Triangles of the sloped (non-axis) faces.
pub open spec fn non_axis_tris(shape: PrimitiveShape) -> int {
    match shape {
        PrimitiveShape::Box => 0,
        PrimitiveShape::Wedge => 2,
        PrimitiveShape::Corner => 1,
        PrimitiveShape::InverseCorner => 1,
    }
}

/// Triangles on world face `i` from the first `n` listed faces: the
/// last listed face landing on `i` wins.
pub open spec fn tris_upto(list: Seq<(usize, usize)>, p: Placement, i: int, n: int) -> int
    decreases n,
{
    if n <= 0 {
        0
    } else if world_face(p, list[n - 1].0 as int) == i {
        list[n - 1].1 as int
    } else {
        tris_upto(list, p, i, n - 1)
    }
}

/// Triangles of the oriented primitive on world face `i`.
pub open spec fn face_tris_spec(shape: PrimitiveShape, p: Placement, i: int) -> int {
    if shape == PrimitiveShape::Box {
        2
    } else {
        tris_upto(face_list(shape), p, i, face_list(shape).len() as int)
    }
}

/// The oriented primitive has a full face toward world direction `i`.
pub open spec fn covers(shape: PrimitiveShape, p: Placement, i: int) -> bool {
    ||| shape == PrimitiveShape::Box
    ||| shape == PrimitiveShape::InverseCorner
    ||| exists|k: int|
        0 <= k < face_list(shape).len() && #[trigger] world_face(p, face_list(shape)[k].0 as int) == i
}

/// Bit `i` of a face mask.
pub open spec fn has_bit(m: u8, i: u8) -> bool {
    m & (1u8 << i) != 0
}

proof fn lemma_bit_or(m: u8, w: u8, j: u8)
    requires
        w < 8,
        j < 8,
    ensures
        has_bit(m | (1u8 << w), j) == (w == j || has_bit(m, j)),
{
    assert(((m | (1u8 << w)) & (1u8 << j) != 0) == (w == j || m & (1u8 << j) != 0)) by (bit_vector)
        requires
            w < 8,
            j < 8,
    ;
}

proof fn lemma_bit_zero_full(j: u8)
    requires
        j < 6,
    ensures
        !has_bit(0u8, j),
        has_bit(0x3fu8, j),
{
    assert(0u8 & (1u8 << j) == 0) by (bit_vector)
        requires
            j < 6,
    ;
    assert(0x3fu8 & (1u8 << j) != 0) by (bit_vector)
        requires
            j < 6,
    ;
}

fn take_exec(a: SignedAxis, v: (i64, i64, i64)) -> (r: i64)
    requires
        -1 <= v.0 <= 1,
        -1 <= v.1 <= 1,
        -1 <= v.2 <= 1,
    ensures
        r == take(a, (v.0 as int, v.1 as int, v.2 as int)),
        -1 <= r <= 1,
{
    match a {
        SignedAxis::PosX => v.0,
        SignedAxis::NegX => -v.0,
        SignedAxis::PosY => v.1,
        SignedAxis::NegY => -v.1,
        SignedAxis::PosZ => v.2,
        SignedAxis::NegZ => -v.2,
    }
}

fn face_dir_exec(i: usize) -> (r: (i64, i64, i64))
    ensures
        (r.0 as int, r.1 as int, r.2 as int) == face_dir(i as int),
        -1 <= r.0 <= 1,
        -1 <= r.1 <= 1,
        -1 <= r.2 <= 1,
{
    if i == 0 {
        (0, 1, 0)
    } else if i == 1 {
        (0, -1, 0)
    } else if i == 2 {
        (0, 0, 1)
    } else if i == 3 {
        (0, 0, -1)
    } else if i == 4 {
        (1, 0, 0)
    } else {
        (-1, 0, 0)
    }
}

fn along_exec(w: (i64, i64, i64), i: usize) -> (r: i64)
    requires
        -1 <= w.0 <= 1,
        -1 <= w.1 <= 1,
        -1 <= w.2 <= 1,
    ensures
        r == along((w.0 as int, w.1 as int, w.2 as int), i as int),
{
    if i == 0 {
        w.1
    } else if i == 1 {
        -w.1
    } else if i == 2 {
        w.2
    } else if i == 3 {
        -w.2
    } else if i == 4 {
        w.0
    } else {
        -w.0
    }
}

/// The world face that identity face `f` becomes under `p`, or 6.
fn world_face_exec(p: Placement, f: usize) -> (r: usize)
    ensures
        r == world_face(p, f as int),
        r <= 6,
{
    let d = face_dir_exec(f);
    let w = (take_exec(p.0, d), take_exec(p.1, d), take_exec(p.2, d));
    let ghost wi = (w.0 as int, w.1 as int, w.2 as int);
    assert(wi == apply_point(p, face_dir(f as int)));
    let mut i: usize = 0;
    while i < 6
        invariant
            i <= 6,
            wi == (w.0 as int, w.1 as int, w.2 as int),
            wi == apply_point(p, face_dir(f as int)),
            -1 <= w.0 <= 1,
            -1 <= w.1 <= 1,
            -1 <= w.2 <= 1,
            first_face_from(wi, 0) == first_face_from(wi, i as int),
        decreases 6 - i,
    {
        if along_exec(w, i) >= 1 {
            return i;
        }
        i = i + 1;
    }
    6
}

fn face_list_exec(shape: PrimitiveShape) -> (r: Vec<(usize, usize)>)
    ensures
        r@ == face_list(shape),
{
    match shape {
        PrimitiveShape::Box => Vec::new(),
        PrimitiveShape::Wedge => vec![(1usize, 2usize), (3, 2), (4, 1), (5, 1)],
        PrimitiveShape::Corner => vec![(1usize, 1usize), (3, 1), (5, 1)],
        PrimitiveShape::InverseCorner => vec![(0usize, 2usize), (1, 1), (2, 2), (3, 1), (4, 2), (5, 1)],
    }
}

/// Triangles of the oriented primitive on world face `i`.
fn face_tris_at(shape: PrimitiveShape, p: Placement, i: usize) -> (r: usize)
    ensures
        r == face_tris_spec(shape, p, i as int),
        r <= 2,
{
    if shape == PrimitiveShape::Box {
        return 2;
    }
    let list = face_list_exec(shape);
    let mut t: usize = 0;
    let mut k: usize = 0;
    while k < list.len()
        invariant
            k <= list@.len(),
            list@ == face_list(shape),
            t == tris_upto(list@, p, i as int, k as int),
            t <= 2,
        decreases list@.len() - k,
    {
        if world_face_exec(p, list[k].0) == i {
            t = list[k].1;
        }
        k = k + 1;
    }
    t
}

/// For an oriented primitive, the triangles on each of the six world
/// faces and the triangles of its non-axis faces.
pub fn compute_face_tris(shape: PrimitiveShape, p: Placement) -> (r: ([usize; 6], usize))
    ensures
        forall|i: int| 0 <= i < 6 ==> r.0@[i] == face_tris_spec(shape, p, i),
        r.1 == non_axis_tris(shape),
{
    let ft = [
        face_tris_at(shape, p, 0),
        face_tris_at(shape, p, 1),
        face_tris_at(shape, p, 2),
        face_tris_at(shape, p, 3),
        face_tris_at(shape, p, 4),
        face_tris_at(shape, p, 5),
    ];
    let non_axis: usize = match shape {
        PrimitiveShape::Box => 0,
        PrimitiveShape::Wedge => 2,
        PrimitiveShape::Corner => 1,
        PrimitiveShape::InverseCorner => 1,
    };
    (ft, non_axis)
}

/// Bitmask of the world directions toward which the oriented primitive
/// has a full axis-aligned face: bit `i` for face direction `i`.
pub fn face_coverage(shape: PrimitiveShape, p: Placement) -> (r: u8)
    ensures
        forall|i: u8| i < 6 ==> has_bit(r, i) == covers(shape, p, i as int),
{
    if shape == PrimitiveShape::Box || shape == PrimitiveShape::InverseCorner {
        proof {
            assert forall|i: u8| i < 6 implies has_bit(0x3fu8, i) == covers(shape, p, i as int) by {
                lemma_bit_zero_full(i);
            }
        }
        return 0x3f;
    }
    let list = face_list_exec(shape);
    let mut mask: u8 = 0;
    let mut k: usize = 0;
    proof {
        assert forall|i: u8| i < 6 implies !has_bit(mask, i) by {
            lemma_bit_zero_full(i);
        }
    }
    while k < list.len()
        invariant
            k <= list@.len(),
            list@ == face_list(shape),
            shape != PrimitiveShape::Box,
            shape != PrimitiveShape::InverseCorner,
            forall|i: u8|
                i < 6 ==> has_bit(mask, i) == exists|m: int|
                    0 <= m < k && #[trigger] world_face(p, list@[m].0 as int) == i,
        decreases list@.len() - k,
    {
        let w = world_face_exec(p, list[k].0);
        let ghost old_mask = mask;
        if w < 6 {
            mask = mask | (1u8 << (w as u8));
        }
        proof {
            assert forall|i: u8| i < 6 implies has_bit(mask, i) == exists|m: int|
                0 <= m < k + 1 && #[trigger] world_face(p, list@[m].0 as int) == i by {
                if w < 6 {
                    lemma_bit_or(old_mask, w as u8, i);
                }
                if world_face(p, list@[k as int].0 as int) == i {
                    assert(0 <= k < k + 1);
                }
                if exists|m: int| 0 <= m < k + 1 && #[trigger] world_face(p, list@[m].0 as int) == i {
                    let m = choose|m: int| 0 <= m < k + 1 && #[trigger] world_face(p, list@[m].0 as int) == i;
                    if m < k {
                        assert(exists|m2: int| 0 <= m2 < k && #[trigger] world_face(p, list@[m2].0 as int) == i);
                    }
                }
            }
        }
        k = k + 1;
    }
    mask
}

// =====================================================================
// Counting
// =====================================================================

/// `r` is no preview, occupies cell `c` and has a full face toward
/// direction `i`.
pub open spec fn prim_covers(r: ResolvedPrimitive, c: (int, int, int), i: int) -> bool {
    !r.subtract_preview && cell_in(r.bounds, c) && covers(r.shape, r.orient, i)
}

/// Some primitive of `cells` occupies `c` with a full face toward `i`.
pub open spec fn cell_covered(cells: Seq<ResolvedPrimitive>, c: (int, int, int), i: int) -> bool {
    exists|k: int| 0 <= k < cells.len() && #[trigger] prim_covers(cells[k], c, i)
}

pub open spec fn min_corner(b: Bounds) -> (int, int, int) {
    (lo(b, 0), lo(b, 1), lo(b, 2))
}

/// Triangles a unit-cell primitive keeps on world face `i`: its face
/// there, unless the neighbouring cell covers it.
pub open spec fn unit_face(cells: Seq<ResolvedPrimitive>, r: ResolvedPrimitive, i: int) -> int {
    let t = face_tris_spec(r.shape, r.orient, i);
    if t != 0 && !cell_covered(cells, step(min_corner(r.bounds), i), opposite(i)) {
        t
    } else {
        0
    }
}

pub open spec fn unit_faces_upto(cells: Seq<ResolvedPrimitive>, r: ResolvedPrimitive, n: int) -> int
    decreases n,
{
    if n <= 0 {
        0
    } else {
        unit_faces_upto(cells, r, n - 1) + unit_face(cells, r, n - 1)
    }
}

/// Triangles a primitive counted by its cell at the minimum corner keeps.
pub open spec fn unit_tris(cells: Seq<ResolvedPrimitive>, r: ResolvedPrimitive) -> int {
    non_axis_tris(r.shape) + unit_faces_upto(cells, r, 6)
}

/// The axis of face direction `i`, and the two other axes in order.
pub open spec fn face_axis(i: int) -> int {
    if i < 2 {
        1
    } else if i < 4 {
        2
    } else {
        0
    }
}

pub open spec fn u_axis(i: int) -> int {
    if face_axis(i) == 0 {
        1
    } else {
        0
    }
}

pub open spec fn v_axis(i: int) -> int {
    if face_axis(i) == 2 {
        1
    } else {
        2
    }
}

/// The coordinate of the layer of cells just outside side `i` of `b`.
pub open spec fn side_level(b: Bounds, i: int) -> int {
    if i % 2 == 0 {
        hi(b, face_axis(i))
    } else {
        lo(b, face_axis(i)) - 1
    }
}

/// The cell at `level` on axis `a`, `u` and `v` on the other two axes.
pub open spec fn slab_point(a: int, level: int, u: int, v: int) -> (int, int, int) {
    if a == 0 {
        (level, u, v)
    } else if a == 1 {
        (u, level, v)
    } else {
        (u, v, level)
    }
}

/// Every cell just outside side `i` of box `b` covers it.
pub open spec fn side_covered(cells: Seq<ResolvedPrimitive>, b: Bounds, i: int) -> bool {
    forall|u: int, v: int|
        lo(b, u_axis(i)) <= u < hi(b, u_axis(i)) && lo(b, v_axis(i)) <= v < hi(b, v_axis(i))
            ==> cell_covered(cells, #[trigger] slab_point(face_axis(i), side_level(b, i), u, v), opposite(i))
}

pub open spec fn box_sides_upto(cells: Seq<ResolvedPrimitive>, b: Bounds, n: int) -> int
    decreases n,
{
    if n <= 0 {
        0
    } else {
        box_sides_upto(cells, b, n - 1) + if side_covered(cells, b, n - 1) {
            0int
        } else {
            2int
        }
    }
}

/// A box spanning more than one cell on some axis.
pub open spec fn multi_cell_box(r: ResolvedPrimitive) -> bool {
    r.shape == PrimitiveShape::Box && (extent(r.bounds, 0) > 1 || extent(r.bounds, 1) > 1 || extent(
        r.bounds,
        2,
    ) > 1)
}

/// Triangles primitive `r` keeps among `cells`: a fused box two per
/// uncovered side, anything else per face of its minimum cell.
pub open spec fn prim_tris(cells: Seq<ResolvedPrimitive>, r: ResolvedPrimitive) -> int {
    if multi_cell_box(r) {
        box_sides_upto(cells, r.bounds, 6)
    } else {
        unit_tris(cells, r)
    }
}

pub open spec fn total_upto(cells: Seq<ResolvedPrimitive>, n: int) -> int
    decreases n,
{
    if n <= 0 {
        0
    } else {
        total_upto(cells, n - 1) + if cells[n - 1].subtract_preview {
            0
        } else {
            prim_tris(cells, cells[n - 1])
        }
    }
}

/// Triangles of all primitives but the previews after face culling.
pub open spec fn triangle_total(cells: Seq<ResolvedPrimitive>) -> int {
    total_upto(cells, cells.len() as int)
}

/// `masks[k]` is the face coverage of `cells[k]`, none for a preview.
pub open spec fn masks_ok(cells: Seq<ResolvedPrimitive>, masks: Seq<u8>) -> bool {
    &&& masks.len() == cells.len()
    &&& forall|k: int, j: u8|
        0 <= k < cells.len() && j < 6 ==> #[trigger] has_bit(masks[k], j) == (!cells[k].subtract_preview && covers(
            cells[k].shape,
            cells[k].orient,
            j as int,
        ))
}

/// Is cell `c` covered toward direction `i` by some primitive?
fn covered_exec(cells: &[ResolvedPrimitive], masks: &Vec<u8>, c: (i64, i64, i64), i: usize) -> (r: bool)
    requires
        masks_ok(cells@, masks@),
        i < 6,
    ensures
        r == cell_covered(cells@, (c.0 as int, c.1 as int, c.2 as int), i as int),
{
    let ghost ci = (c.0 as int, c.1 as int, c.2 as int);
    let mut k: usize = 0;
    while k < cells.len()
        invariant
            k <= cells@.len(),
            masks_ok(cells@, masks@),
            i < 6,
            ci == (c.0 as int, c.1 as int, c.2 as int),
            forall|m: int| 0 <= m < k ==> !#[trigger] prim_covers(cells@[m], ci, i as int),
        decreases cells@.len() - k,
    {
        let b = cells[k].bounds;
        let mn = b.min();
        let mx = b.max();
        let inside = mn.0 as i64 <= c.0 && c.0 < mx.0 as i64 && mn.1 as i64 <= c.1 && c.1 < mx.1 as i64
            && mn.2 as i64 <= c.2 && c.2 < mx.2 as i64;
        proof {
            assert(has_bit(masks@[k as int], i as u8) == (!cells@[k as int].subtract_preview && covers(
                cells@[k as int].shape,
                cells@[k as int].orient,
                i as int,
            )));
        }
        if inside && masks[k] & (1u8 << (i as u8)) != 0 {
            assert(prim_covers(cells@[k as int], ci, i as int));
            return true;
        }
        k = k + 1;
    }
    false
}

fn slab_point_exec(a: usize, level: i64, u: i64, v: i64) -> (r: (i64, i64, i64))
    ensures
        (r.0 as int, r.1 as int, r.2 as int) == slab_point(a as int, level as int, u as int, v as int),
{
    if a == 0 {
        (level, u, v)
    } else if a == 1 {
        (u, level, v)
    } else {
        (u, v, level)
    }
}

fn lo_hi(b: &Bounds, k: usize) -> (r: (i64, i64))
    requires
        k < 3,
    ensures
        r.0 == lo(*b, k as int),
        r.1 == hi(*b, k as int),
{
    let mn = b.min();
    let mx = b.max();
    if k == 0 {
        (mn.0 as i64, mx.0 as i64)
    } else if k == 1 {
        (mn.1 as i64, mx.1 as i64)
    } else {
        (mn.2 as i64, mx.2 as i64)
    }
}

/// Is every cell just outside side `i` of `b` covering it?
fn side_covered_exec(cells: &[ResolvedPrimitive], masks: &Vec<u8>, b: &Bounds, i: usize) -> (r: bool)
    requires
        masks_ok(cells@, masks@),
        i < 6,
    ensures
        r == side_covered(cells@, *b, i as int),
{
    let a: usize = if i < 2 {
        1
    } else if i < 4 {
        2
    } else {
        0
    };
    let ua: usize = if a == 0 {
        1
    } else {
        0
    };
    let va: usize = if a == 2 {
        1
    } else {
        2
    };
    let (alo, ahi) = lo_hi(b, a);
    let level: i64 = if i % 2 == 0 {
        ahi
    } else {
        alo - 1
    };
    let (ulo, uhi) = lo_hi(b, ua);
    let (vlo, vhi) = lo_hi(b, va);
    let opp: usize = if i % 2 == 0 {
        i + 1
    } else {
        i - 1
    };
    let ghost fa = face_axis(i as int);
    let ghost lv = side_level(*b, i as int);
    assert(a == fa && ua == u_axis(i as int) && va == v_axis(i as int) && level == lv && opp == opposite(i as int));
    let mut u = ulo;
    while u < uhi
        invariant
            ulo <= u <= uhi || uhi <= ulo == u,
            masks_ok(cells@, masks@),
            a == fa && ua == u_axis(i as int) && va == v_axis(i as int) && level == lv,
            fa == face_axis(i as int) && lv == side_level(*b, i as int),
            opp == opposite(i as int),
            opp < 6,
            ulo == lo(*b, u_axis(i as int)) && uhi == hi(*b, u_axis(i as int)),
            vlo == lo(*b, v_axis(i as int)) && vhi == hi(*b, v_axis(i as int)),
            forall|uu: int, vv: int|
                ulo <= uu < u && vlo <= vv < vhi ==> cell_covered(
                    cells@,
                    #[trigger] slab_point(fa, lv, uu, vv),
                    opp as int,
                ),
        decreases uhi - u,
    {
        let mut v = vlo;
        while v < vhi
            invariant
                ulo <= u < uhi,
                vlo <= v <= vhi || vhi <= vlo == v,
                masks_ok(cells@, masks@),
                a == fa && level == lv,
                fa == face_axis(i as int) && lv == side_level(*b, i as int),
                opp == opposite(i as int),
                opp < 6,
                ulo == lo(*b, u_axis(i as int)) && uhi == hi(*b, u_axis(i as int)),
                vlo == lo(*b, v_axis(i as int)) && vhi == hi(*b, v_axis(i as int)),
                forall|vv: int| vlo <= vv < v ==> cell_covered(cells@, #[trigger] slab_point(fa, lv, u as int, vv), opp as int),
            decreases vhi - v,
        {
            let c = slab_point_exec(a, level, u, v);
            if !covered_exec(cells, masks, c, opp) {
                assert(!cell_covered(cells@, slab_point(fa, lv, u as int, v as int), opp as int));
                return false;
            }
            v = v + 1;
        }
        u = u + 1;
    }
    true
}

/// Triangles of a fused box: two per side that is not fully covered.
fn count_fused_box_faces(cells: &[ResolvedPrimitive], masks: &Vec<u8>, b: &Bounds) -> (r: usize)
    requires
        masks_ok(cells@, masks@),
    ensures
        r == box_sides_upto(cells@, *b, 6),
        r <= 12,
{
    let mut tris: usize = 0;
    let mut i: usize = 0;
    while i < 6
        invariant
            i <= 6,
            masks_ok(cells@, masks@),
            tris == box_sides_upto(cells@, *b, i as int),
            tris <= 2 * i,
        decreases 6 - i,
    {
        if !side_covered_exec(cells, masks, b, i) {
            tris = tris + 2;
        }
        i = i + 1;
    }
    tris
}

/// Triangles of a primitive counted at its minimum cell: its non-axis
/// faces plus every axis face whose neighbour does not cover it.
fn count_unit_cell_faces(cells: &[ResolvedPrimitive], masks: &Vec<u8>, r: &ResolvedPrimitive) -> (t: usize)
    requires
        masks_ok(cells@, masks@),
    ensures
        t == unit_tris(cells@, *r),
        t <= 14,
{
    let pos = r.bounds.min();
    let (axis_tris, non_axis) = compute_face_tris(r.shape, r.orient);
    let mut tris: usize = non_axis;
    let ghost mc = min_corner(r.bounds);
    assert(mc == (pos.0 as int, pos.1 as int, pos.2 as int));
    let mut i: usize = 0;
    while i < 6
        invariant
            i <= 6,
            masks_ok(cells@, masks@),
            mc == min_corner(r.bounds),
            mc == (pos.0 as int, pos.1 as int, pos.2 as int),
            forall|j: int| 0 <= j < 6 ==> axis_tris@[j] == face_tris_spec(r.shape, r.orient, j),
            tris == non_axis_tris(r.shape) + unit_faces_upto(cells@, *r, i as int),
            tris <= 2 + 2 * i,
        decreases 6 - i,
    {
        let t = axis_tris[i];
        assert(t == face_tris_spec(r.shape, r.orient, i as int));
        if t != 0 {
            let d = face_dir_exec(i);
            let neighbor = (pos.0 as i64 + d.0, pos.1 as i64 + d.1, pos.2 as i64 + d.2);
            let opp: usize = if i % 2 == 0 {
                i + 1
            } else {
                i - 1
            };
            assert((neighbor.0 as int, neighbor.1 as int, neighbor.2 as int) == step(mc, i as int));
            if !covered_exec(cells, masks, neighbor, opp) {
                assert(t <= 2) by {
                    assert(face_tris_spec(r.shape, r.orient, i as int) <= 2) by {
                        lemma_face_tris_bound(r.shape, r.orient, i as int);
                    }
                }
                tris = tris + t;
            }
        }
        i = i + 1;
    }
    tris
}

proof fn lemma_tris_upto_bound(list: Seq<(usize, usize)>, p: Placement, i: int, n: int)
    requires
        forall|k: int| 0 <= k < list.len() ==> list[k].1 <= 2,
        n <= list.len(),
    ensures
        0 <= tris_upto(list, p, i, n) <= 2,
    decreases n,
{
    if n > 0 {
        lemma_tris_upto_bound(list, p, i, n - 1);
    }
}

proof fn lemma_face_tris_bound(shape: PrimitiveShape, p: Placement, i: int)
    ensures
        0 <= face_tris_spec(shape, p, i) <= 2,
{
    let list = face_list(shape);
    if shape != PrimitiveShape::Box {
        assert forall|k: int| 0 <= k < list.len() implies list[k].1 <= 2 by {}
        lemma_tris_upto_bound(list, p, i, list.len() as int);
    }
}

/// Count triangles after face culling: shared axis-aligned faces between
/// neighbouring primitives are removed from both sides; previews neither
/// count nor cover. The count saturates at `usize::MAX`.
pub fn count_triangles_with_face_culling(cells: &[ResolvedPrimitive]) -> (r: usize)
    ensures
        r == imin(triangle_total(cells@), usize::MAX as int),
{
    let mut masks: Vec<u8> = Vec::new();
    let mut k: usize = 0;
    while k < cells.len()
        invariant
            k <= cells@.len(),
            masks@.len() == k,
            forall|m: int, j: u8|
                0 <= m < k && j < 6 ==> #[trigger] has_bit(masks@[m], j) == (!cells@[m].subtract_preview && covers(
                    cells@[m].shape,
                    cells@[m].orient,
                    j as int,
                )),
        decreases cells@.len() - k,
    {
        if cells[k].subtract_preview {
            assert forall|j: u8| j < 6 implies !#[trigger] has_bit(0u8, j) by {
                assert(0u8 & (1u8 << j) == 0) by (bit_vector);
            }
            masks.push(0);
        } else {
            masks.push(face_coverage(cells[k].shape, cells[k].orient));
        }
        k = k + 1;
    }
    let mut total: usize = 0;
    let mut k: usize = 0;
    while k < cells.len()
        invariant
            k <= cells@.len(),
            masks_ok(cells@, masks@),
            total == imin(total_upto(cells@, k as int), usize::MAX as int),
            total_upto(cells@, k as int) >= 0,
        decreases cells@.len() - k,
    {
        let r = &cells[k];
        if r.subtract_preview {
            k = k + 1;
            continue;
        }
        let mn = r.bounds.min();
        let mx = r.bounds.max();
        let multi = r.shape == PrimitiveShape::Box && (mx.0 as i64 - mn.0 as i64 > 1 || mx.1 as i64
            - mn.1 as i64 > 1 || mx.2 as i64 - mn.2 as i64 > 1);
        assert(multi == multi_cell_box(*r));
        let t = if multi {
            count_fused_box_faces(cells, &masks, &r.bounds)
        } else {
            count_unit_cell_faces(cells, &masks, r)
        };
        assert(t == prim_tris(cells@, cells@[k as int]));
        total = total.saturating_add(t);
        k = k + 1;
    }
    total
}


// =====================================================================
// Laws of culling
// =====================================================================

/// `r` is a primitive (no preview) filling exactly the cell `c`.
pub open spec fn fills_cell(r: ResolvedPrimitive, c: (int, int, int)) -> bool {
    &&& !r.subtract_preview
    &&& extent(r.bounds, 0) == 1 && extent(r.bounds, 1) == 1 && extent(r.bounds, 2) == 1
    &&& min_corner(r.bounds) == c
}

/// The triangles of a primitive with nothing around it: its sloped faces
/// and its faces toward all six directions.
pub open spec fn lone_tris(r: ResolvedPrimitive) -> int {
    non_axis_tris(r.shape) + face_tris_spec(r.shape, r.orient, 0) + face_tris_spec(r.shape, r.orient, 1)
        + face_tris_spec(r.shape, r.orient, 2) + face_tris_spec(r.shape, r.orient, 3) + face_tris_spec(
        r.shape,
        r.orient,
        4,
    ) + face_tris_spec(r.shape, r.orient, 5)
}

proof fn lemma_fills_cell_in(r: ResolvedPrimitive, c: (int, int, int), x: (int, int, int))
    requires
        fills_cell(r, c),
    ensures
        cell_in(r.bounds, x) <==> x == c,
{
    let b = r.bounds;
    assert(hi(b, 0) == lo(b, 0) + 1);
    assert(hi(b, 1) == lo(b, 1) + 1);
    assert(hi(b, 2) == lo(b, 2) + 1);
}

proof fn lemma_step_facts(c: (int, int, int), i: int, j: int)
    requires
        0 <= i < 6,
        0 <= j < 6,
    ensures
        step(c, j) != c,
        step(c, j) == step(c, i) <==> j == i,
        step(step(c, i), j) == c <==> j == opposite(i),
        0 <= opposite(i) < 6,
        opposite(opposite(i)) == i,
{
}

proof fn lemma_cover_one_two(a: ResolvedPrimitive, b: ResolvedPrimitive, x: (int, int, int), o: int)
    ensures
        cell_covered(seq![a, b], x, o) == (prim_covers(a, x, o) || prim_covers(b, x, o)),
        cell_covered(seq![a], x, o) == prim_covers(a, x, o),
{
    let s2 = seq![a, b];
    let s1 = seq![a];
    if prim_covers(a, x, o) {
        assert(prim_covers(s2[0], x, o));
        assert(prim_covers(s1[0], x, o));
    }
    if prim_covers(b, x, o) {
        assert(prim_covers(s2[1], x, o));
    }
}

proof fn lemma_unit_tris_sum(cells: Seq<ResolvedPrimitive>, r: ResolvedPrimitive)
    ensures
        unit_tris(cells, r) == non_axis_tris(r.shape) + unit_face(cells, r, 0) + unit_face(cells, r, 1) + unit_face(
            cells,
            r,
            2,
        ) + unit_face(cells, r, 3) + unit_face(cells, r, 4) + unit_face(cells, r, 5),
{
    reveal_with_fuel(unit_faces_upto, 7);
}

/// Two primitives in neighbouring cells: a primitive standing alone keeps
/// all its faces, and side by side each loses exactly its face toward
/// the other when the other has a full face facing back at it, and
/// nothing else.
#[verifier::spinoff_prover]
#[verifier::rlimit(60)]
pub proof fn lemma_neighbours_cull_facing_faces(a: ResolvedPrimitive, b: ResolvedPrimitive, c: (int, int, int), i: int)
    requires
        0 <= i < 6,
        fills_cell(a, c),
        fills_cell(b, step(c, i)),
    ensures
        triangle_total(seq![a]) == lone_tris(a),
        triangle_total(seq![a, b]) == lone_tris(a) + lone_tris(b) - (if covers(b.shape, b.orient, opposite(i)) {
            face_tris_spec(a.shape, a.orient, i)
        } else {
            0
        }) - (if covers(a.shape, a.orient, i) {
            face_tris_spec(b.shape, b.orient, opposite(i))
        } else {
            0
        }),
{
    let s1 = seq![a];
    let s2 = seq![a, b];
    let cb = step(c, i);
    assert(min_corner(a.bounds) == c);
    assert(min_corner(b.bounds) == cb);
    assert forall|j: int| 0 <= j < 6 implies {
        &&& #[trigger] unit_face(s1, a, j) == face_tris_spec(a.shape, a.orient, j)
        &&& unit_face(s2, a, j) == face_tris_spec(a.shape, a.orient, j) - (if j == i && covers(
            b.shape,
            b.orient,
            opposite(i),
        ) {
            face_tris_spec(a.shape, a.orient, i)
        } else {
            0
        })
        &&& unit_face(s2, b, j) == face_tris_spec(b.shape, b.orient, j) - (if j == opposite(i) && covers(
            a.shape,
            a.orient,
            i,
        ) {
            face_tris_spec(b.shape, b.orient, opposite(i))
        } else {
            0
        })
    } by {
        lemma_step_facts(c, i, j);
        lemma_step_facts(cb, opposite(i), j);
        lemma_fills_cell_in(a, c, step(c, j));
        lemma_fills_cell_in(b, cb, step(c, j));
        lemma_fills_cell_in(a, c, step(cb, j));
        lemma_fills_cell_in(b, cb, step(cb, j));
        lemma_cover_one_two(a, b, step(c, j), opposite(j));
        lemma_cover_one_two(a, b, step(cb, j), opposite(j));
        if j == i {
            assert(step(c, j) == cb);
        }
        if j == opposite(i) {
            assert(step(cb, j) == c);
            assert(opposite(j) == i);
        }
    }
    lemma_unit_tris_sum(s1, a);
    lemma_unit_tris_sum(s2, a);
    lemma_unit_tris_sum(s2, b);
    assert(!multi_cell_box(a));
    assert(!multi_cell_box(b));
    assert(s2[0] == a && s2[1] == b && s1[0] == a);
    assert(total_upto(s1, 0) == 0);
    assert(total_upto(s2, 0) == 0);
    assert(!s2[0].subtract_preview && !s2[1].subtract_preview);
    assert(total_upto(s2, 1) == prim_tris(s2, a));
    assert(triangle_total(s1) == prim_tris(s1, a));
    assert(triangle_total(s2) == prim_tris(s2, a) + prim_tris(s2, b));
}


/// A fused box standing alone keeps both triangles of each of its six
/// sides.
pub proof fn lemma_lone_fused_box(a: ResolvedPrimitive)
    requires
        multi_cell_box(a),
        !a.subtract_preview,
        extent(a.bounds, 0) >= 1 && extent(a.bounds, 1) >= 1 && extent(a.bounds, 2) >= 1,
    ensures
        triangle_total(seq![a]) == 12,
{
    let s1 = seq![a];
    let b = a.bounds;
    assert forall|i: int| 0 <= i < 6 implies !#[trigger] side_covered(s1, b, i) by {
        let u = lo(b, u_axis(i));
        let v = lo(b, v_axis(i));
        let x = slab_point(face_axis(i), side_level(b, i), u, v);
        lemma_cover_one_two(a, a, x, opposite(i));
        assert(!cell_in(b, x));
    }
    reveal_with_fuel(box_sides_upto, 7);
    assert(s1[0] == a);
    assert(total_upto(s1, 0) == 0);
    assert(triangle_total(s1) == prim_tris(s1, a));
}

/// The cell just outside side `i` of box `b` at the low corner of the
/// side.
pub open spec fn side_cell(b: Bounds, i: int) -> (int, int, int) {
    slab_point(face_axis(i), side_level(b, i), lo(b, u_axis(i)), lo(b, v_axis(i)))
}

proof fn lemma_axes(i: int)
    requires
        0 <= i < 6,
    ensures
        0 <= face_axis(i) < 3 && 0 <= u_axis(i) < 3 && 0 <= v_axis(i) < 3,
        face_axis(i) != u_axis(i) && face_axis(i) != v_axis(i) && u_axis(i) != v_axis(i),
        face_axis(opposite(i)) == face_axis(i),
        u_axis(opposite(i)) == u_axis(i),
        v_axis(opposite(i)) == v_axis(i),
{
}

/// A fused box one cell thick across its side `i`, with a primitive in
/// the cell just outside that side: the box loses that side's two
/// triangles exactly when the primitive has a full face facing back at
/// it, and the primitive always loses its face toward the box.
#[verifier::spinoff_prover]
#[verifier::rlimit(60)]
pub proof fn lemma_fused_box_beside_cell(a: ResolvedPrimitive, b: ResolvedPrimitive, i: int)
    requires
        0 <= i < 6,
        multi_cell_box(a),
        !a.subtract_preview,
        extent(a.bounds, u_axis(i)) == 1,
        extent(a.bounds, v_axis(i)) == 1,
        extent(a.bounds, face_axis(i)) >= 2,
        fills_cell(b, side_cell(a.bounds, i)),
    ensures
        triangle_total(seq![a, b]) == 12 - (if covers(b.shape, b.orient, opposite(i)) {
            2int
        } else {
            0int
        }) + lone_tris(b) - face_tris_spec(b.shape, b.orient, opposite(i)),
{
    let s2 = seq![a, b];
    let ab = a.bounds;
    let cb = side_cell(ab, i);
    lemma_axes(i);
    assert(hi(ab, 0) - lo(ab, 0) == extent(ab, 0));
    assert(hi(ab, 1) - lo(ab, 1) == extent(ab, 1));
    assert(hi(ab, 2) - lo(ab, 2) == extent(ab, 2));
    assert(!cell_in(ab, cb));
    // The sides of the box.
    assert forall|j: int| 0 <= j < 6 implies (#[trigger] side_covered(s2, ab, j)) == (j == i && covers(
        b.shape,
        b.orient,
        opposite(i),
    )) by {
        lemma_axes(j);
        let x = slab_point(face_axis(j), side_level(ab, j), lo(ab, u_axis(j)), lo(ab, v_axis(j)));
        lemma_cover_one_two(a, b, x, opposite(j));
        lemma_fills_cell_in(b, cb, x);
        assert(!cell_in(ab, x));
        if j == i {
            assert(x == cb);
            if covers(b.shape, b.orient, opposite(i)) {
                assert forall|u: int, v: int|
                    lo(ab, u_axis(j)) <= u < hi(ab, u_axis(j)) && lo(ab, v_axis(j)) <= v < hi(ab, v_axis(j)) implies cell_covered(
                    s2,
                    #[trigger] slab_point(face_axis(j), side_level(ab, j), u, v),
                    opposite(j),
                ) by {
                    assert(u == lo(ab, u_axis(j)) && v == lo(ab, v_axis(j)));
                    assert(prim_covers(s2[1], x, opposite(j)));
                }
            }
        } else {
            assert(x != cb);
            assert(!cell_covered(s2, x, opposite(j)));
        }
    }
    reveal_with_fuel(box_sides_upto, 7);
    // The faces of the cell beside it.
    assert forall|k: int| 0 <= k < 6 implies #[trigger] unit_face(s2, b, k) == face_tris_spec(b.shape, b.orient, k)
        - (if k == opposite(i) {
        face_tris_spec(b.shape, b.orient, k)
    } else {
        0
    }) by {
        lemma_step_facts(cb, i, k);
        let x = step(cb, k);
        lemma_cover_one_two(a, b, x, opposite(k));
        lemma_fills_cell_in(b, cb, x);
        assert(min_corner(b.bounds) == cb);
        if k == opposite(i) {
            assert(cell_in(ab, x));
            assert(prim_covers(a, x, opposite(k)));
        } else {
            assert(!cell_in(ab, x));
        }
    }
    lemma_unit_tris_sum(s2, b);
    assert(!multi_cell_box(b));
    assert(s2[0] == a && s2[1] == b);
    assert(total_upto(s2, 0) == 0);
    assert(total_upto(s2, 1) == prim_tris(s2, a));
    assert(triangle_total(s2) == prim_tris(s2, a) + prim_tris(s2, b));
}

// =====================================================================
// Placed primitives fill the sides their faces name
// =====================================================================

/// The face direction (numbered as in `face_dir`) of the side a face
/// names: `MinY` is the `-Y` side, `MaxY` the `+Y` side, and so on.
pub open spec fn named_side(f: Face) -> int {
    match f {
        Face::MaxY => 0,
        Face::MinY => 1,
        Face::MaxZ => 2,
        Face::MinZ => 3,
        Face::MaxX => 4,
        Face::MinX => 5,
    }
}

/// A wedge named by two faces on different axes, placed by those faces,
/// has its two square faces on exactly the two named sides.
#[verifier::spinoff_prover]
#[verifier::rlimit(60)]
pub proof fn lemma_wedge_fills_named_sides(f0: Face, f1: Face, i: int)
    requires
        axis_of(crate::placement::face_axis(f0)) != axis_of(crate::placement::face_axis(f1)),
        0 <= i < 6,
    ensures
        face_tris_spec(PrimitiveShape::Wedge, faces_placement_spec(seq![f0, f1]), i) == 2 <==> (i == named_side(f0)
            || i == named_side(f1)),
{
    let p = faces_placement_spec(seq![f0, f1]);
    assert(seq![f0, f1][0] == f0 && seq![f0, f1][1] == f1);
    reveal_with_fuel(first_face_from, 7);
    reveal_with_fuel(tris_upto, 5);
    assert(face_list(PrimitiveShape::Wedge).len() == 4);
}


/// A corner named by three faces on the three axes, placed by those
/// faces, has its three axis faces on exactly the three named sides.
#[verifier::spinoff_prover]
#[verifier::rlimit(60)]
pub proof fn lemma_corner_fills_named_sides(f0: Face, f1: Face, f2: Face, i: int)
    requires
        axis_of(crate::placement::face_axis(f0)) != axis_of(crate::placement::face_axis(f1)),
        axis_of(crate::placement::face_axis(f0)) != axis_of(crate::placement::face_axis(f2)),
        axis_of(crate::placement::face_axis(f1)) != axis_of(crate::placement::face_axis(f2)),
        0 <= i < 6,
    ensures
        face_tris_spec(PrimitiveShape::Corner, faces_placement_spec(seq![f0, f1, f2]), i) == 1 <==> (i == named_side(f0)
            || i == named_side(f1) || i == named_side(f2)),
{
    let fs = seq![f0, f1, f2];
    assert(fs[0] == f0 && fs[1] == f1 && fs[2] == f2);
    assert(fs.drop_last() =~= seq![f0, f1]);
    assert(fs.drop_last().drop_last() =~= seq![f0]);
    assert(fs.drop_last().drop_last().drop_last() =~= Seq::<Face>::empty());
    reveal_with_fuel(crate::placement::corner_slot, 4);
    reveal_with_fuel(first_face_from, 7);
    reveal_with_fuel(tris_upto, 4);
    assert(face_list(PrimitiveShape::Corner).len() == 3);
}

} // verus!
