//! Integer axis-aligned bounds and their transformation by placements.

use vstd::prelude::*;
use crate::placement::{
    apply_cell_spec, axis_of, compose_spec, identity_spec, is_permutation, is_pos, Placement,
    SignedAxis,
};

verus! {

/// Two opposite corners of an axis-aligned box: `(x0, y0, z0, x1, y1, z1)`.
/// The corners need not be ordered; `min` and `max` sort them per axis.
#[derive(Clone, Copy, Debug, PartialEq, Eq, Structural)]
pub struct Bounds(pub i32, pub i32, pub i32, pub i32, pub i32, pub i32);

/// The first corner's coordinate on axis `k`.
pub open spec fn first(b: Bounds, k: int) -> int {
    if k == 0 {
        b.0 as int
    } else if k == 1 {
        b.1 as int
    } else {
        b.2 as int
    }
}

/// The second corner's coordinate on axis `k`.
pub open spec fn second(b: Bounds, k: int) -> int {
    if k == 0 {
        b.3 as int
    } else if k == 1 {
        b.4 as int
    } else {
        b.5 as int
    }
}

pub open spec fn imin(a: int, b: int) -> int {
    if a <= b {
        a
    } else {
        b
    }
}

pub open spec fn imax(a: int, b: int) -> int {
    if a >= b {
        a
    } else {
        b
    }
}

pub open spec fn iabs(a: int) -> int {
    if a >= 0 {
        a
    } else {
        -a
    }
}

/// Lower end of the box on axis `k`.
pub open spec fn lo(b: Bounds, k: int) -> int {
    imin(first(b, k), second(b, k))
}

/// Upper end of the box on axis `k`.
pub open spec fn hi(b: Bounds, k: int) -> int {
    imax(first(b, k), second(b, k))
}

/// Extent of the box on axis `k`.
pub open spec fn extent(b: Bounds, k: int) -> int {
    iabs(second(b, k) - first(b, k))
}

/// The box has its lower corner first on every axis.
pub open spec fn is_canonical(b: Bounds) -> bool {
    &&& b.0 <= b.3
    &&& b.1 <= b.4
    &&& b.2 <= b.5
}

/// The box with its corners sorted per axis.
pub open spec fn canonical(b: Bounds) -> Bounds {
    Bounds(
        lo(b, 0) as i32,
        lo(b, 1) as i32,
        lo(b, 2) as i32,
        hi(b, 0) as i32,
        hi(b, 1) as i32,
        hi(b, 2) as i32,
    )
}

/// Every extent of the box fits in an `i32`.
pub open spec fn size_fits(b: Bounds) -> bool {
    &&& extent(b, 0) <= i32::MAX
    &&& extent(b, 1) <= i32::MAX
    &&& extent(b, 2) <= i32::MAX
}

/// No coordinate is `i32::MIN`, so every coordinate can be negated.
pub open spec fn negatable(b: Bounds) -> bool {
    &&& b.0 > i32::MIN
    &&& b.1 > i32::MIN
    &&& b.2 > i32::MIN
    &&& b.3 > i32::MIN
    &&& b.4 > i32::MIN
    &&& b.5 > i32::MIN
}

/// Whether unit cell `c` (covering `[c, c + 1)` per axis) lies inside
/// the box.
pub open spec fn cell_in(b: Bounds, c: (int, int, int)) -> bool {
    &&& lo(b, 0) <= c.0 < hi(b, 0)
    &&& lo(b, 1) <= c.1 < hi(b, 1)
    &&& lo(b, 2) <= c.2 < hi(b, 2)
}

fn abs_diff(a: i32, b: i32) -> (r: i32)
    requires
        iabs(b - a) <= i32::MAX,
    ensures
        r == iabs(b - a),
{
    if b >= a {
        (b as i64 - a as i64) as i32
    } else {
        (a as i64 - b as i64) as i32
    }
}

fn min_i32(a: i32, b: i32) -> (r: i32)
    ensures
        r == imin(a as int, b as int),
{
    if a <= b {
        a
    } else {
        b
    }
}

fn max_i32(a: i32, b: i32) -> (r: i32)
    ensures
        r == imax(a as int, b as int),
{
    if a >= b {
        a
    } else {
        b
    }
}

/// One axis of `remap`: `to_min * from_size + (val - from_min) * to_size`,
/// or `to_min` when the source extent is zero.
pub open spec fn remap_axis_spec(val: int, from_min: int, from_size: int, to_min: int, to_size: int) -> int {
    if from_size == 0 {
        to_min
    } else {
        to_min * from_size + (val - from_min) * to_size
    }
}

pub open spec fn in_i32(x: int) -> bool {
    i32::MIN <= x <= i32::MAX
}

/// Every intermediate value of one remapped coordinate fits in an `i32`.
pub open spec fn remap_axis_fits(val: int, from_min: int, from_size: int, to_min: int, to_size: int) -> bool {
    from_size != 0 ==> {
        &&& in_i32(to_min * from_size)
        &&& in_i32(val - from_min)
        &&& in_i32((val - from_min) * to_size)
        &&& in_i32(to_min * from_size + (val - from_min) * to_size)
    }
}

pub open spec fn remap_spec(b: Bounds, from: Bounds, to: Bounds) -> Bounds {
    Bounds(
        remap_axis_spec(b.0 as int, lo(from, 0), extent(from, 0), lo(to, 0), extent(to, 0)) as i32,
        remap_axis_spec(b.1 as int, lo(from, 1), extent(from, 1), lo(to, 1), extent(to, 1)) as i32,
        remap_axis_spec(b.2 as int, lo(from, 2), extent(from, 2), lo(to, 2), extent(to, 2)) as i32,
        remap_axis_spec(b.3 as int, lo(from, 0), extent(from, 0), lo(to, 0), extent(to, 0)) as i32,
        remap_axis_spec(b.4 as int, lo(from, 1), extent(from, 1), lo(to, 1), extent(to, 1)) as i32,
        remap_axis_spec(b.5 as int, lo(from, 2), extent(from, 2), lo(to, 2), extent(to, 2)) as i32,
    )
}

pub open spec fn remap_fits(b: Bounds, from: Bounds, to: Bounds) -> bool {
    &&& size_fits(from)
    &&& size_fits(to)
    &&& remap_axis_fits(b.0 as int, lo(from, 0), extent(from, 0), lo(to, 0), extent(to, 0))
    &&& remap_axis_fits(b.1 as int, lo(from, 1), extent(from, 1), lo(to, 1), extent(to, 1))
    &&& remap_axis_fits(b.2 as int, lo(from, 2), extent(from, 2), lo(to, 2), extent(to, 2))
    &&& remap_axis_fits(b.3 as int, lo(from, 0), extent(from, 0), lo(to, 0), extent(to, 0))
    &&& remap_axis_fits(b.4 as int, lo(from, 1), extent(from, 1), lo(to, 1), extent(to, 1))
    &&& remap_axis_fits(b.5 as int, lo(from, 2), extent(from, 2), lo(to, 2), extent(to, 2))
}

fn remap_axis(val: i32, from_min: i32, from_size: i32, to_min: i32, to_size: i32) -> (r: i32)
    requires
        remap_axis_fits(val as int, from_min as int, from_size as int, to_min as int, to_size as int),
    ensures
        r == remap_axis_spec(val as int, from_min as int, from_size as int, to_min as int, to_size as int),
{
    if from_size == 0 {
        to_min
    } else {
        to_min * from_size + (val - from_min) * to_size
    }
}

impl Bounds {
    /// Per-axis extent `|x1 - x0|`, `|y1 - y0|`, `|z1 - z0|`.
    pub fn size(&self) -> (r: (i32, i32, i32))
        requires
            size_fits(*self),
        ensures
            r.0 == extent(*self, 0),
            r.1 == extent(*self, 1),
            r.2 == extent(*self, 2),
    {
        (abs_diff(self.0, self.3), abs_diff(self.1, self.4), abs_diff(self.2, self.5))
    }

    /// The per-axis minimum corner.
    pub fn min(&self) -> (r: (i32, i32, i32))
        ensures
            r.0 == lo(*self, 0),
            r.1 == lo(*self, 1),
            r.2 == lo(*self, 2),
    {
        (min_i32(self.0, self.3), min_i32(self.1, self.4), min_i32(self.2, self.5))
    }

    /// The per-axis maximum corner.
    pub fn max(&self) -> (r: (i32, i32, i32))
        ensures
            r.0 == hi(*self, 0),
            r.1 == hi(*self, 1),
            r.2 == hi(*self, 2),
    {
        (max_i32(self.0, self.3), max_i32(self.1, self.4), max_i32(self.2, self.5))
    }

    /// Remap this bounds from `from` to `to` coordinate space using only
    /// integer multiplication. The result is in units scaled by the
    /// source extent per axis:
    /// `to_min * from_size + (val - from_min) * to_size`.
    pub fn remap(&self, from: &Bounds, to: &Bounds) -> (r: Bounds)
        requires
            remap_fits(*self, *from, *to),
        ensures
            r == remap_spec(*self, *from, *to),
    {
        let from_min = from.min();
        let from_size = from.size();
        let to_min = to.min();
        let to_size = to.size();
        Bounds(
            remap_axis(self.0, from_min.0, from_size.0, to_min.0, to_size.0),
            remap_axis(self.1, from_min.1, from_size.1, to_min.1, to_size.1),
            remap_axis(self.2, from_min.2, from_size.2, to_min.2, to_size.2),
            remap_axis(self.3, from_min.0, from_size.0, to_min.0, to_size.0),
            remap_axis(self.4, from_min.1, from_size.1, to_min.1, to_size.1),
            remap_axis(self.5, from_min.2, from_size.2, to_min.2, to_size.2),
        )
    }

    /// The per-axis scale factor a remap from `from` introduces: its
    /// extent, raised to at least 1.
    pub fn remap_scale(from: &Bounds) -> (r: (i32, i32, i32))
        requires
            size_fits(*from),
        ensures
            r.0 == imax(extent(*from, 0), 1),
            r.1 == imax(extent(*from, 1), 1),
            r.2 == imax(extent(*from, 2), 1),
    {
        let s = from.size();
        (max_i32(s.0, 1), max_i32(s.1, 1), max_i32(s.2, 1))
    }
}

/// Remapping a coordinate that sits at the source minimum lands on the
/// target minimum (scaled by the source extent), and one at the source
/// maximum lands on the target maximum (scaled likewise): a remap carries
/// the source box onto the target box.
pub proof fn lemma_remap_corners(from_min: int, from_size: int, to_min: int, to_size: int)
    requires
        from_size != 0,
    ensures
        remap_axis_spec(from_min, from_min, from_size, to_min, to_size) == to_min * from_size,
        remap_axis_spec(from_min + from_size, from_min, from_size, to_min, to_size)
            == (to_min + to_size) * from_size,
{
    assert((to_min + to_size) * from_size == to_min * from_size + to_size * from_size)
        by (nonlinear_arith);
    assert(from_size * to_size == to_size * from_size) by (nonlinear_arith);
}

/// Grow the running `min`/`max` corners to include `p`, and record that
/// a point was seen.
pub fn include_point(
    min: &mut (i32, i32, i32),
    max: &mut (i32, i32, i32),
    p: (i32, i32, i32),
    found: &mut bool,
)
    ensures
        final(min).0 == imin(old(min).0 as int, p.0 as int),
        final(min).1 == imin(old(min).1 as int, p.1 as int),
        final(min).2 == imin(old(min).2 as int, p.2 as int),
        final(max).0 == imax(old(max).0 as int, p.0 as int),
        final(max).1 == imax(old(max).1 as int, p.1 as int),
        final(max).2 == imax(old(max).2 as int, p.2 as int),
        *final(found),
{
    min.0 = min_i32(min.0, p.0);
    min.1 = min_i32(min.1, p.1);
    min.2 = min_i32(min.2, p.2);
    max.0 = max_i32(max.0, p.0);
    max.1 = max_i32(max.1, p.1);
    max.2 = max_i32(max.2, p.2);
    *found = true;
}

// =====================================================================
// Placements acting on bounds
// =====================================================================

/// The range a world axis draws from the source box: the source range on
/// the named axis, mirrored when the signed axis is negative.
pub open spec fn range_lo(sa: SignedAxis, b: Bounds) -> int {
    if is_pos(sa) {
        lo(b, axis_of(sa))
    } else {
        -hi(b, axis_of(sa))
    }
}

pub open spec fn range_hi(sa: SignedAxis, b: Bounds) -> int {
    if is_pos(sa) {
        hi(b, axis_of(sa))
    } else {
        -lo(b, axis_of(sa))
    }
}

pub open spec fn apply_bounds_spec(p: Placement, b: Bounds) -> Bounds {
    Bounds(
        range_lo(p.0, b) as i32,
        range_lo(p.1, b) as i32,
        range_lo(p.2, b) as i32,
        range_hi(p.0, b) as i32,
        range_hi(p.1, b) as i32,
        range_hi(p.2, b) as i32,
    )
}

fn resolve_axis_range(sa: SignedAxis, b: &Bounds) -> (r: (i32, i32))
    requires
        negatable(*b),
    ensures
        r.0 == range_lo(sa, *b),
        r.1 == range_hi(sa, *b),
        r.0 <= r.1,
        r.0 > i32::MIN,
{
    let mn = b.min();
    let mx = b.max();
    let (lo_v, hi_v) = match sa.axis_index() {
        0 => (mn.0, mx.0),
        1 => (mn.1, mx.1),
        _ => (mn.2, mx.2),
    };
    if sa.is_positive() {
        (lo_v, hi_v)
    } else {
        (-hi_v, -lo_v)
    }
}

/// Apply a placement to integer bounds. Each world axis range is drawn
/// from the source axis (and sign) named by the matching placement
/// component; the result has its lower corner first on every axis.
pub fn apply_placement_to_bounds(placement: Placement, b: Bounds) -> (r: Bounds)
    requires
        negatable(b),
    ensures
        r == apply_bounds_spec(placement, b),
        is_canonical(r),
        negatable(r),
{
    let (mn_x, mx_x) = resolve_axis_range(placement.0, &b);
    let (mn_y, mx_y) = resolve_axis_range(placement.1, &b);
    let (mn_z, mx_z) = resolve_axis_range(placement.2, &b);
    Bounds(mn_x, mn_y, mn_z, mx_x, mx_y, mx_z)
}

/// The identity placement leaves bounds unchanged up to sorting the
/// corners; on canonical bounds it is a no-op.
pub proof fn lemma_identity_on_bounds(b: Bounds)
    requires
        negatable(b),
    ensures
        apply_bounds_spec(identity_spec(), b) == canonical(b),
        is_canonical(b) ==> apply_bounds_spec(identity_spec(), b) == b,
{
}

/// Placing bounds with a composed placement is placing them with the inner
/// placement and then with the outer one.
pub proof fn lemma_compose_apply_bounds(outer: Placement, inner: Placement, b: Bounds)
    requires
        negatable(b),
    ensures
        apply_bounds_spec(compose_spec(outer, inner), b)
            == apply_bounds_spec(outer, apply_bounds_spec(inner, b)),
{
    lemma_apply_bounds_ranges(inner, b);
    lemma_compose_range(outer.0, inner, b);
    lemma_compose_range(outer.1, inner, b);
    lemma_compose_range(outer.2, inner, b);
}

proof fn lemma_apply_bounds_ranges(p: Placement, b: Bounds)
    requires
        negatable(b),
    ensures
        forall|k: int|
            0 <= k < 3 ==> lo(apply_bounds_spec(p, b), k) == range_lo(
                #[trigger] crate::placement::slot(p, k),
                b,
            ) && hi(apply_bounds_spec(p, b), k) == range_hi(crate::placement::slot(p, k), b),
{
}

proof fn lemma_compose_range(a: SignedAxis, inner: Placement, b: Bounds)
    requires
        negatable(b),
        forall|k: int|
            0 <= k < 3 ==> lo(apply_bounds_spec(inner, b), k) == range_lo(
                #[trigger] crate::placement::slot(inner, k),
                b,
            ) && hi(apply_bounds_spec(inner, b), k) == range_hi(
                crate::placement::slot(inner, k),
                b,
            ),
    ensures
        range_lo(crate::placement::compose_axis_spec(a, inner), b) == range_lo(
            a,
            apply_bounds_spec(inner, b),
        ),
        range_hi(crate::placement::compose_axis_spec(a, inner), b) == range_hi(
            a,
            apply_bounds_spec(inner, b),
        ),
{
    let k = axis_of(a);
    assert(0 <= k < 3);
    let _ = crate::placement::slot(inner, k);
}

/// A permutation placement maps the cells of a box exactly onto the cells
/// of the placed box.
pub proof fn lemma_cells_follow_placement(p: Placement, b: Bounds, c: (int, int, int))
    requires
        negatable(b),
        is_permutation(p),
    ensures
        cell_in(b, c) <==> cell_in(apply_bounds_spec(p, b), apply_cell_spec(p, c)),
{
}

} // verus!
