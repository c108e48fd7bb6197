//! Unit-cell sampling of oriented primitives.
//!
//! The unit cube `[-0.5, 0.5]³` is sampled at 64 fixed interior points: a
//! 4×4×4 grid nudged by small per-axis offsets (0.013, 0.027, 0.041) so
//! that no sample lies on any cut plane of a primitive. Each (shape,
//! placement) pair maps to a 64-bit signature that records which samples
//! lie inside the placed primitive. All coordinates are handled exactly,
//! in thousandths of a cell.

use vstd::prelude::*;
use crate::bounds::{hi, lo, Bounds};
use crate::placement::{axis_of, coord, is_permutation, is_pos, slot, Placement, SignedAxis};

verus! {

/// The primitive shapes a part can take.
#[derive(Clone, Copy, Debug, PartialEq, Eq, Hash, Structural)]
pub enum PrimitiveShape {
    Box,
    Wedge,
    Corner,
    /// Box with one corner clipped — the complement of Corner. Fills
    /// where x + y + z >= -0.5 in identity orientation.
    InverseCorner,
}

/// +1 for a positive signed axis, -1 for a negative one.
pub open spec fn sgn(a: SignedAxis) -> int {
    if is_pos(a) {
        1
    } else {
        -1
    }
}

/// Offset of the sample grid on axis `k`, in thousandths.
pub open spec fn sample_offset(k: int) -> int {
    if k == 0 {
        13
    } else if k == 1 {
        27
    } else {
        41
    }
}

/// Grid index of sample `i` on axis `k` (x varies fastest, then y, then z).
pub open spec fn sample_index(i: int, k: int) -> int {
    if k == 0 {
        i % 4
    } else if k == 1 {
        (i / 4) % 4
    } else {
        i / 16
    }
}

/// Coordinate of sample `i` on axis `k`, in thousandths of a cell,
/// relative to the cell center.
pub open spec fn sample_coord(i: int, k: int) -> int {
    -375 + 250 * sample_index(i, k) + sample_offset(k)
}

pub open spec fn sample_point(i: int) -> (int, int, int) {
    (sample_coord(i, 0), sample_coord(i, 1), sample_coord(i, 2))
}

/// `x + y + z` of the point pulled back through the placement: each world
/// coordinate contributes once, with the sign of its placement component.
pub open spec fn corner_sum(p: Placement, w: (int, int, int)) -> int {
    sgn(p.0) * w.0 + sgn(p.1) * w.1 + sgn(p.2) * w.2
}

/// Weight of world axis `k` in the pulled-back `y + z`.
pub open spec fn wedge_coef(a: SignedAxis) -> int {
    if axis_of(a) != 0 {
        sgn(a)
    } else {
        0
    }
}

/// `y + z` of the point pulled back through the placement.
pub open spec fn wedge_sum(p: Placement, w: (int, int, int)) -> int {
    wedge_coef(p.0) * w.0 + wedge_coef(p.1) * w.1 + wedge_coef(p.2) * w.2
}

/// Whether the world point `w` (in thousandths, relative to the cell
/// center) lies inside the primitive placed by `p`: the point pulled back
/// through the placement lies in the identity primitive — a Box fills the
/// cell, a Wedge fills `y + z <= 0`, a Corner fills `x + y + z <= -0.5`,
/// an InverseCorner fills `x + y + z >= -0.5`.
pub open spec fn inside_spec(shape: PrimitiveShape, p: Placement, w: (int, int, int)) -> bool {
    match shape {
        PrimitiveShape::Box => true,
        PrimitiveShape::Wedge => wedge_sum(p, w) <= 0,
        PrimitiveShape::Corner => corner_sum(p, w) <= -500,
        PrimitiveShape::InverseCorner => corner_sum(p, w) >= -500,
    }
}

/// Bits `i..64` of the signature, shifted down by `i`.
pub open spec fn sig_from(shape: PrimitiveShape, p: Placement, i: int) -> nat
    decreases 64 - i,
{
    if i >= 64 {
        0
    } else {
        (if inside_spec(shape, p, sample_point(i)) {
            1nat
        } else {
            0nat
        }) + 2 * sig_from(shape, p, i + 1)
    }
}

/// The signature: bit `i` is set exactly when sample `i` lies inside the
/// placed primitive.
pub open spec fn signature_spec(shape: PrimitiveShape, p: Placement) -> nat {
    sig_from(shape, p, 0)
}

pub open spec fn two_pow(n: nat) -> nat
    decreases n,
{
    if n == 0 {
        1
    } else {
        2 * two_pow((n - 1) as nat)
    }
}

proof fn lemma_sig_from_bound(shape: PrimitiveShape, p: Placement, i: int)
    requires
        0 <= i <= 64,
    ensures
        sig_from(shape, p, i) < two_pow((64 - i) as nat),
    decreases 64 - i,
{
    if i < 64 {
        lemma_sig_from_bound(shape, p, i + 1);
        assert(two_pow((64 - i) as nat) == 2 * two_pow((64 - (i + 1)) as nat));
    }
}

fn sample_point_exec(i: u64) -> (r: (i64, i64, i64))
    requires
        i < 64,
    ensures
        r.0 == sample_coord(i as int, 0),
        r.1 == sample_coord(i as int, 1),
        r.2 == sample_coord(i as int, 2),
        -375 <= r.0 <= 500,
        -375 <= r.1 <= 500,
        -375 <= r.2 <= 500,
{
    let xi = (i % 4) as i64;
    let yi = ((i / 4) % 4) as i64;
    let zi = (i / 16) as i64;
    (-375 + 250 * xi + 13, -375 + 250 * yi + 27, -375 + 250 * zi + 41)
}

fn signed_term(a: SignedAxis, v: i64) -> (r: i64)
    requires
        -1000 <= v <= 1000,
    ensures
        r == sgn(a) * v,
        -1000 <= r <= 1000,
{
    if a.is_positive() {
        v
    } else {
        -v
    }
}

fn wedge_term(a: SignedAxis, v: i64) -> (r: i64)
    requires
        -1000 <= v <= 1000,
    ensures
        r == wedge_coef(a) * v,
        -1000 <= r <= 1000,
{
    if a.axis_index() != 0 {
        signed_term(a, v)
    } else {
        0
    }
}

fn inside_exec(shape: PrimitiveShape, p: Placement, w: (i64, i64, i64)) -> (r: bool)
    requires
        -1000 <= w.0 <= 1000,
        -1000 <= w.1 <= 1000,
        -1000 <= w.2 <= 1000,
    ensures
        r == inside_spec(shape, p, (w.0 as int, w.1 as int, w.2 as int)),
{
    match shape {
        PrimitiveShape::Box => true,
        PrimitiveShape::Wedge => {
            wedge_term(p.0, w.0) + wedge_term(p.1, w.1) + wedge_term(p.2, w.2) <= 0
        },
        PrimitiveShape::Corner => {
            signed_term(p.0, w.0) + signed_term(p.1, w.1) + signed_term(p.2, w.2) <= -500
        },
        PrimitiveShape::InverseCorner => {
            signed_term(p.0, w.0) + signed_term(p.1, w.1) + signed_term(p.2, w.2) >= -500
        },
    }
}

/// Compute the 64-bit signature of a primitive oriented by `placement`.
pub fn compute_signature(shape: PrimitiveShape, placement: Placement) -> (r: u64)
    ensures
        r == signature_spec(shape, placement),
{
    let mut mask: u64 = 0;
    let mut i: u64 = 64;
    proof {
        lemma_sig_from_bound(shape, placement, 64);
    }
    while i > 0
        invariant
            i <= 64,
            mask == sig_from(shape, placement, i as int),
        decreases i,
    {
        i = i - 1;
        proof {
            lemma_sig_from_bound(shape, placement, i as int);
            lemma_two_pow_64();
            if i > 0 {
                lemma_two_pow_mono((64 - i) as nat, 64);
            }
        }
        let pt = sample_point_exec(i);
        let bit: u64 = if inside_exec(shape, placement, pt) {
            1
        } else {
            0
        };
        mask = mask * 2 + bit;
    }
    mask
}

proof fn lemma_two_pow_add(a: nat, b: nat)
    ensures
        two_pow(a + b) == two_pow(a) * two_pow(b),
    decreases a,
{
    if a > 0 {
        let a1 = (a - 1) as nat;
        lemma_two_pow_add(a1, b);
        assert(two_pow(a1 + b + 1) == 2 * two_pow(a1 + b));
        assert(a + b == a1 + b + 1);
        assert(two_pow(a) == 2 * two_pow(a1));
        let x = two_pow(a1);
        let y = two_pow(b);
        assert(2 * (x * y) == (2 * x) * y) by (nonlinear_arith);
    } else {
        assert(a + b == b);
        assert(two_pow(a) == 1);
        assert(1 * two_pow(b) == two_pow(b));
    }
}

proof fn lemma_two_pow_64()
    ensures
        two_pow(64) == 0x1_0000_0000_0000_0000,
{
    reveal_with_fuel(two_pow, 9);
    assert(two_pow(8) == 256);
    lemma_two_pow_add(8, 8);
    assert(two_pow(16) == 65536);
    lemma_two_pow_add(16, 16);
    assert(two_pow(32) == 0x1_0000_0000);
    lemma_two_pow_add(32, 32);
    assert(two_pow(64) == 0x1_0000_0000 * 0x1_0000_0000);
}

proof fn lemma_two_pow_mono(a: nat, b: nat)
    requires
        a <= b,
    ensures
        two_pow(a) <= two_pow(b),
    decreases b,
{
    if a < b {
        lemma_two_pow_mono(a, (b - 1) as nat);
    }
}

/// The signature of a full box: every sample is inside.
pub open spec fn full_signature() -> nat {
    0xFFFF_FFFF_FFFF_FFFF
}

proof fn lemma_box_all_ones(p: Placement, i: int)
    requires
        0 <= i <= 64,
    ensures
        sig_from(PrimitiveShape::Box, p, i) + 1 == two_pow((64 - i) as nat),
    decreases 64 - i,
{
    if i < 64 {
        lemma_box_all_ones(p, i + 1);
    }
}

/// A Box, however it is placed, contains every sample point.
pub proof fn lemma_box_signature_full(p: Placement)
    ensures
        signature_spec(PrimitiveShape::Box, p) == full_signature(),
{
    lemma_box_all_ones(p, 0);
    lemma_two_pow_64();
}


// =====================================================================
// Multi-cell primitives
// =====================================================================

/// Sample `i` of world cell `c`, measured from the center of the box `b`
/// on axis `k`, in thousandths of a cell.
pub open spec fn offset_from_center(b: Bounds, c: (int, int, int), i: int, k: int) -> int {
    1000 * coord(c, k) + 500 + sample_coord(i, k) - 500 * (lo(b, k) + hi(b, k))
}

/// Extent of `b` on axis `k`.
pub open spec fn span(b: Bounds, k: int) -> int {
    hi(b, k) - lo(b, k)
}

/// Product of the extents of the two axes other than `k`.
pub open spec fn cross_span(b: Bounds, k: int) -> int {
    if k == 0 {
        span(b, 1) * span(b, 2)
    } else if k == 1 {
        span(b, 0) * span(b, 2)
    } else {
        span(b, 0) * span(b, 1)
    }
}

pub open spec fn volume(b: Bounds) -> int {
    span(b, 0) * span(b, 1) * span(b, 2)
}

/// Scaled term of world axis `k`: its offset from the box center, divided
/// by the box extent on that axis, times the whole volume of the box.
pub open spec fn scaled_term(b: Bounds, c: (int, int, int), i: int, k: int) -> int {
    offset_from_center(b, c, i, k) * cross_span(b, k)
}

/// Whether sample `i` of cell `c` lies inside the primitive that fills the
/// box `b` and is oriented by `p`. The sample is normalized into the box's
/// `[-0.5, 0.5]³` frame, pulled back through the placement and tested
/// against the identity primitive; both sides of each test are multiplied
/// by the positive factor `1000 · volume(b)` (and by 2 for the corner
/// planes) so that the comparison is exact.
pub open spec fn sample_in_box(shape: PrimitiveShape, p: Placement, b: Bounds, c: (int, int, int), i: int) -> bool {
    match shape {
        PrimitiveShape::Box => true,
        PrimitiveShape::Wedge => wedge_coef(p.0) * scaled_term(b, c, i, 0) + wedge_coef(p.1)
            * scaled_term(b, c, i, 1) + wedge_coef(p.2) * scaled_term(b, c, i, 2) <= 0,
        PrimitiveShape::Corner => 2 * (sgn(p.0) * scaled_term(b, c, i, 0) + sgn(p.1) * scaled_term(
            b,
            c,
            i,
            1,
        ) + sgn(p.2) * scaled_term(b, c, i, 2)) <= -1000 * volume(b),
        PrimitiveShape::InverseCorner => 2 * (sgn(p.0) * scaled_term(b, c, i, 0) + sgn(p.1)
            * scaled_term(b, c, i, 1) + sgn(p.2) * scaled_term(b, c, i, 2)) >= -1000 * volume(b),
    }
}

/// The cell is fully inside the primitive: every one of its 64 samples is.
pub open spec fn cell_inside_spec(shape: PrimitiveShape, p: Placement, b: Bounds, c: (int, int, int)) -> bool {
    shape == PrimitiveShape::Box || forall|i: int| 0 <= i < 64 ==> sample_in_box(shape, p, b, c, i)
}

/// The box has a positive extent on every axis.
pub open spec fn has_volume(b: Bounds) -> bool {
    span(b, 0) > 0 && span(b, 1) > 0 && span(b, 2) > 0
}

proof fn lemma_mul_abs_le(a: int, b: int, x: int, y: int)
    requires
        -x <= a <= x,
        -y <= b <= y,
    ensures
        -(x * y) <= a * b <= x * y,
{
    assert(-(x * y) <= a * b <= x * y) by (nonlinear_arith)
        requires
            -x <= a <= x,
            -y <= b <= y,
    ;
}

proof fn lemma_mul_pos(a: int, b: int)
    requires
        a > 0,
        b > 0,
    ensures
        a * b > 0,
{
    assert(a * b > 0) by (nonlinear_arith)
        requires
            a > 0,
            b > 0,
    ;
}

const TWO_POW_32: i128 = 0x1_0000_0000;

const TWO_POW_43: i128 = 0x800_0000_0000;

const TWO_POW_64: i128 = 0x1_0000_0000_0000_0000;

fn offset_exec(cell_k: i32, lo_k: i32, hi_k: i32, sample_k: i64) -> (r: i128)
    requires
        -375 <= sample_k <= 500,
    ensures
        r == 1000 * cell_k + 500 + sample_k - 500 * (lo_k + hi_k),
        -TWO_POW_43 <= r <= TWO_POW_43,
{
    1000 * (cell_k as i128) + 500 + (sample_k as i128) - 500 * ((lo_k as i128) + (hi_k as i128))
}

/// Is this cell fully inside the given oriented primitive? Used by the
/// occupancy pass to decide which cells a subtract removes. A Box covers
/// every cell of its bounds; other shapes are tested at all 64 samples.
/// Partially covered cells are not inside.
pub fn is_cell_inside_primitive(
    shape: PrimitiveShape,
    placement: Placement,
    prim_bounds: &Bounds,
    cell: (i32, i32, i32),
) -> (r: bool)
    requires
        has_volume(*prim_bounds),
    ensures
        r == cell_inside_spec(
            shape,
            placement,
            *prim_bounds,
            (cell.0 as int, cell.1 as int, cell.2 as int),
        ),
{
    if shape == PrimitiveShape::Box {
        return true;
    }
    let mn = prim_bounds.min();
    let mx = prim_bounds.max();
    let s0 = (mx.0 as i128) - (mn.0 as i128);
    let s1 = (mx.1 as i128) - (mn.1 as i128);
    let s2 = (mx.2 as i128) - (mn.2 as i128);
    proof {
        lemma_mul_abs_le(s1 as int, s2 as int, TWO_POW_32 as int, TWO_POW_32 as int);
        lemma_mul_abs_le(s0 as int, s2 as int, TWO_POW_32 as int, TWO_POW_32 as int);
        lemma_mul_abs_le(s0 as int, s1 as int, TWO_POW_32 as int, TWO_POW_32 as int);
    }
    let w0 = s1 * s2;
    let w1 = s0 * s2;
    let w2 = s0 * s1;
    proof {
        lemma_mul_pos(s1 as int, s2 as int);
        lemma_mul_pos(s0 as int, s2 as int);
        lemma_mul_pos(s0 as int, s1 as int);
        lemma_mul_abs_le(s0 as int, w0 as int, TWO_POW_32 as int, TWO_POW_64 as int);
    }
    let vol = s0 * w0;
    assert(vol == volume(*prim_bounds)) by {
        assert(s0 * (s1 * s2) == s0 * s1 * s2) by (nonlinear_arith);
    }
    assert(-0x1_0000_0000_0000_0000_0000_0000 <= vol <= 0x1_0000_0000_0000_0000_0000_0000);
    let threshold: i128 = -1000 * vol;
    let ghost c = (cell.0 as int, cell.1 as int, cell.2 as int);
    let mut i: u64 = 0;
    while i < 64
        invariant
            i <= 64,
            shape != PrimitiveShape::Box,
            has_volume(*prim_bounds),
            c == (cell.0 as int, cell.1 as int, cell.2 as int),
            mn.0 == lo(*prim_bounds, 0),
            mn.1 == lo(*prim_bounds, 1),
            mn.2 == lo(*prim_bounds, 2),
            mx.0 == hi(*prim_bounds, 0),
            mx.1 == hi(*prim_bounds, 1),
            mx.2 == hi(*prim_bounds, 2),
            w0 == cross_span(*prim_bounds, 0),
            w1 == cross_span(*prim_bounds, 1),
            w2 == cross_span(*prim_bounds, 2),
            0 < w0 <= TWO_POW_64,
            0 < w1 <= TWO_POW_64,
            0 < w2 <= TWO_POW_64,
            vol == volume(*prim_bounds),
            threshold == -1000 * volume(*prim_bounds),
            -0x1_0000_0000_0000_0000_0000_0000 <= vol <= 0x1_0000_0000_0000_0000_0000_0000,
            forall|j: int| 0 <= j < i ==> sample_in_box(shape, placement, *prim_bounds, c, j),
        decreases 64 - i,
    {
        let pt = sample_point_exec(i);
        let n0 = offset_exec(cell.0, mn.0, mx.0, pt.0);
        let n1 = offset_exec(cell.1, mn.1, mx.1, pt.1);
        let n2 = offset_exec(cell.2, mn.2, mx.2, pt.2);
        proof {
            lemma_mul_abs_le(n0 as int, w0 as int, TWO_POW_43 as int, TWO_POW_64 as int);
            lemma_mul_abs_le(n1 as int, w1 as int, TWO_POW_43 as int, TWO_POW_64 as int);
            lemma_mul_abs_le(n2 as int, w2 as int, TWO_POW_43 as int, TWO_POW_64 as int);
        }
        let t0 = n0 * w0;
        let t1 = n1 * w1;
        let t2 = n2 * w2;
        assert(t0 == scaled_term(*prim_bounds, c, i as int, 0));
        assert(t1 == scaled_term(*prim_bounds, c, i as int, 1));
        assert(t2 == scaled_term(*prim_bounds, c, i as int, 2));
        let inside = match shape {
            PrimitiveShape::Wedge => {
                wide_wedge_term(placement.0, t0) + wide_wedge_term(placement.1, t1)
                    + wide_wedge_term(placement.2, t2) <= 0
            },
            PrimitiveShape::Corner => {
                2 * (wide_signed_term(placement.0, t0) + wide_signed_term(placement.1, t1)
                    + wide_signed_term(placement.2, t2)) <= threshold
            },
            _ => {
                2 * (wide_signed_term(placement.0, t0) + wide_signed_term(placement.1, t1)
                    + wide_signed_term(placement.2, t2)) >= threshold
            },
        };
        assert(inside == sample_in_box(shape, placement, *prim_bounds, c, i as int));
        if !inside {
            return false;
        }
        i = i + 1;
    }
    true
}

// =====================================================================
// Signatures of scaled primitives at world cells
// =====================================================================

/// Sample `i` of world cell `c`, measured from the center of the box `b`
/// (given in units `1/s` of a cell per axis) on axis `k`; in units of
/// `1/(1000 s)`, doubled.
pub open spec fn offset_scaled(b: Bounds, s: (int, int, int), c: (int, int, int), i: int, k: int) -> int {
    coord(s, k) * (1000 * coord(c, k) + 500 + sample_coord(i, k)) - 500 * (lo(b, k) + hi(b, k))
}

pub open spec fn scaled_term_s(b: Bounds, s: (int, int, int), c: (int, int, int), i: int, k: int) -> int {
    offset_scaled(b, s, c, i, k) * cross_span(b, k)
}

/// Whether sample `i` of world cell `c` lies inside the primitive that
/// fills the box `b` (in units `1/s` of a cell) and is oriented by `p`:
/// the sample is normalized into the box's `[-0.5, 0.5]³` frame, pulled
/// back through the placement and tested against the identity
/// primitive, with both sides scaled by `1000 · volume(b)`.
pub open spec fn sample_in_scaled_box(
    shape: PrimitiveShape,
    p: Placement,
    b: Bounds,
    s: (int, int, int),
    c: (int, int, int),
    i: int,
) -> bool {
    match shape {
        PrimitiveShape::Box => true,
        PrimitiveShape::Wedge => wedge_coef(p.0) * scaled_term_s(b, s, c, i, 0) + wedge_coef(p.1)
            * scaled_term_s(b, s, c, i, 1) + wedge_coef(p.2) * scaled_term_s(b, s, c, i, 2) <= 0,
        PrimitiveShape::Corner => 2 * (sgn(p.0) * scaled_term_s(b, s, c, i, 0) + sgn(p.1) * scaled_term_s(
            b,
            s,
            c,
            i,
            1,
        ) + sgn(p.2) * scaled_term_s(b, s, c, i, 2)) <= -1000 * volume(b),
        PrimitiveShape::InverseCorner => 2 * (sgn(p.0) * scaled_term_s(b, s, c, i, 0) + sgn(p.1)
            * scaled_term_s(b, s, c, i, 1) + sgn(p.2) * scaled_term_s(b, s, c, i, 2)) >= -1000 * volume(
            b,
        ),
    }
}

/// Bits `i..64` of a cell signature, shifted down by `i`.
pub open spec fn cell_sig_from(
    shape: PrimitiveShape,
    p: Placement,
    b: Bounds,
    s: (int, int, int),
    c: (int, int, int),
    i: int,
) -> nat
    decreases 64 - i,
{
    if i >= 64 {
        0
    } else {
        (if sample_in_scaled_box(shape, p, b, s, c, i) {
            1nat
        } else {
            0nat
        }) + 2 * cell_sig_from(shape, p, b, s, c, i + 1)
    }
}

/// The signature of the primitive's volume at world cell `c`: bit `i` is
/// set exactly when sample `i` of the cell lies inside.
pub open spec fn cell_signature_spec(shape: PrimitiveShape, p: Placement, b: Bounds, s: (int, int, int), c: (
    int,
    int,
    int,
)) -> nat {
    cell_sig_from(shape, p, b, s, c, 0)
}

/// The world cell lies in the scaled box's range of cells on every axis
/// (strictly: `lo - s < s · c < hi`).
pub open spec fn cell_near(b: Bounds, s: (int, int, int), c: (int, int, int)) -> bool {
    &&& lo(b, 0) - s.0 < s.0 * c.0 < hi(b, 0)
    &&& lo(b, 1) - s.1 < s.1 * c.1 < hi(b, 1)
    &&& lo(b, 2) - s.2 < s.2 * c.2 < hi(b, 2)
}

proof fn lemma_cell_sig_bound(shape: PrimitiveShape, p: Placement, b: Bounds, s: (int, int, int), c: (
    int,
    int,
    int,
), i: int)
    requires
        0 <= i <= 64,
    ensures
        cell_sig_from(shape, p, b, s, c, i) < two_pow((64 - i) as nat),
    decreases 64 - i,
{
    if i < 64 {
        lemma_cell_sig_bound(shape, p, b, s, c, i + 1);
        assert(two_pow((64 - i) as nat) == 2 * two_pow((64 - (i + 1)) as nat));
    }
}

fn offset_scaled_exec(scale_k: i32, cell_k: i32, lo_k: i32, hi_k: i32, sample_k: i64) -> (r: i128)
    requires
        scale_k > 0,
        lo_k - scale_k < scale_k * cell_k < hi_k,
        -375 <= sample_k <= 500,
    ensures
        r == scale_k * (1000 * cell_k + 500 + sample_k) - 500 * (lo_k + hi_k),
        -TWO_POW_47 <= r <= TWO_POW_47,
{
    let sc = (scale_k as i128) * (cell_k as i128);
    assert(-TWO_POW_33 <= sc <= TWO_POW_33);
    let a: i128 = 500 + sample_k as i128;
    assert(0 <= (scale_k as i128) * a <= 1000 * TWO_POW_32) by (nonlinear_arith)
        requires
            0 < scale_k <= TWO_POW_32,
            125 <= a <= 1000,
    ;
    let extra = (scale_k as i128) * a;
    let r = 1000 * sc + extra - 500 * ((lo_k as i128) + (hi_k as i128));
    assert(r == scale_k * (1000 * cell_k + 500 + sample_k) - 500 * (lo_k + hi_k)) by (nonlinear_arith)
        requires
            sc == scale_k * cell_k,
            extra == scale_k * (500 + sample_k),
            r == 1000 * sc + extra - 500 * (lo_k + hi_k),
    ;
    r
}

const TWO_POW_33: i128 = 0x2_0000_0000;

const TWO_POW_47: i128 = 0x8000_0000_0000;

/// The signature of a primitive's volume at world cell `cell`. The
/// primitive fills `prim_bounds`, given in units `1/scale` of a cell per
/// axis, and is oriented by `placement`.
pub fn compute_signature_at_cell(
    shape: PrimitiveShape,
    placement: Placement,
    prim_bounds: &Bounds,
    scale: (i32, i32, i32),
    cell: (i32, i32, i32),
) -> (r: u64)
    requires
        has_volume(*prim_bounds),
        scale.0 > 0 && scale.1 > 0 && scale.2 > 0,
        cell_near(
            *prim_bounds,
            (scale.0 as int, scale.1 as int, scale.2 as int),
            (cell.0 as int, cell.1 as int, cell.2 as int),
        ),
    ensures
        r == cell_signature_spec(
            shape,
            placement,
            *prim_bounds,
            (scale.0 as int, scale.1 as int, scale.2 as int),
            (cell.0 as int, cell.1 as int, cell.2 as int),
        ),
{
    let ghost sv = (scale.0 as int, scale.1 as int, scale.2 as int);
    let ghost c = (cell.0 as int, cell.1 as int, cell.2 as int);
    let mn = prim_bounds.min();
    let mx = prim_bounds.max();
    let s0 = (mx.0 as i128) - (mn.0 as i128);
    let s1 = (mx.1 as i128) - (mn.1 as i128);
    let s2 = (mx.2 as i128) - (mn.2 as i128);
    proof {
        lemma_mul_abs_le(s1 as int, s2 as int, TWO_POW_32 as int, TWO_POW_32 as int);
        lemma_mul_abs_le(s0 as int, s2 as int, TWO_POW_32 as int, TWO_POW_32 as int);
        lemma_mul_abs_le(s0 as int, s1 as int, TWO_POW_32 as int, TWO_POW_32 as int);
    }
    let w0 = s1 * s2;
    let w1 = s0 * s2;
    let w2 = s0 * s1;
    proof {
        lemma_mul_pos(s1 as int, s2 as int);
        lemma_mul_pos(s0 as int, s2 as int);
        lemma_mul_pos(s0 as int, s1 as int);
        lemma_mul_abs_le(s0 as int, w0 as int, TWO_POW_32 as int, TWO_POW_64 as int);
    }
    let vol = s0 * w0;
    assert(vol == volume(*prim_bounds)) by {
        assert(s0 * (s1 * s2) == s0 * s1 * s2) by (nonlinear_arith);
    }
    let threshold: i128 = -1000 * vol;
    let mut mask: u64 = 0;
    let mut i: u64 = 64;
    proof {
        lemma_cell_sig_bound(shape, placement, *prim_bounds, sv, c, 64);
    }
    while i > 0
        invariant
            i <= 64,
            has_volume(*prim_bounds),
            scale.0 > 0 && scale.1 > 0 && scale.2 > 0,
            sv == (scale.0 as int, scale.1 as int, scale.2 as int),
            c == (cell.0 as int, cell.1 as int, cell.2 as int),
            cell_near(*prim_bounds, sv, c),
            mn.0 == lo(*prim_bounds, 0),
            mn.1 == lo(*prim_bounds, 1),
            mn.2 == lo(*prim_bounds, 2),
            mx.0 == hi(*prim_bounds, 0),
            mx.1 == hi(*prim_bounds, 1),
            mx.2 == hi(*prim_bounds, 2),
            w0 == cross_span(*prim_bounds, 0),
            w1 == cross_span(*prim_bounds, 1),
            w2 == cross_span(*prim_bounds, 2),
            0 < w0 <= TWO_POW_64,
            0 < w1 <= TWO_POW_64,
            0 < w2 <= TWO_POW_64,
            vol == volume(*prim_bounds),
            threshold == -1000 * volume(*prim_bounds),
            -0x1_0000_0000_0000_0000_0000_0000 <= vol <= 0x1_0000_0000_0000_0000_0000_0000,
            mask == cell_sig_from(shape, placement, *prim_bounds, sv, c, i as int),
        decreases i,
    {
        i = i - 1;
        proof {
            lemma_cell_sig_bound(shape, placement, *prim_bounds, sv, c, i as int);
            lemma_two_pow_64();
            if i > 0 {
                lemma_two_pow_mono((64 - i) as nat, 64);
            }
        }
        let pt = sample_point_exec(i);
        let n0 = offset_scaled_exec(scale.0, cell.0, mn.0, mx.0, pt.0);
        let n1 = offset_scaled_exec(scale.1, cell.1, mn.1, mx.1, pt.1);
        let n2 = offset_scaled_exec(scale.2, cell.2, mn.2, mx.2, pt.2);
        proof {
            lemma_mul_abs_le(n0 as int, w0 as int, TWO_POW_47 as int, TWO_POW_64 as int);
            lemma_mul_abs_le(n1 as int, w1 as int, TWO_POW_47 as int, TWO_POW_64 as int);
            lemma_mul_abs_le(n2 as int, w2 as int, TWO_POW_47 as int, TWO_POW_64 as int);
        }
        let t0 = n0 * w0;
        let t1 = n1 * w1;
        let t2 = n2 * w2;
        assert(t0 == scaled_term_s(*prim_bounds, sv, c, i as int, 0));
        assert(t1 == scaled_term_s(*prim_bounds, sv, c, i as int, 1));
        assert(t2 == scaled_term_s(*prim_bounds, sv, c, i as int, 2));
        let inside = match shape {
            PrimitiveShape::Box => true,
            PrimitiveShape::Wedge => {
                wide_wedge_term(placement.0, t0) + wide_wedge_term(placement.1, t1)
                    + wide_wedge_term(placement.2, t2) <= 0
            },
            PrimitiveShape::Corner => {
                2 * (wide_signed_term(placement.0, t0) + wide_signed_term(placement.1, t1)
                    + wide_signed_term(placement.2, t2)) <= threshold
            },
            PrimitiveShape::InverseCorner => {
                2 * (wide_signed_term(placement.0, t0) + wide_signed_term(placement.1, t1)
                    + wide_signed_term(placement.2, t2)) >= threshold
            },
        };
        assert(inside == sample_in_scaled_box(shape, placement, *prim_bounds, sv, c, i as int));
        let bit: u64 = if inside {
            1
        } else {
            0
        };
        mask = mask * 2 + bit;
    }
    mask
}

const WIDE: i128 = 0x8_0000_0000_0000_0000_0000_0000_0000;

fn wide_signed_term(a: SignedAxis, v: i128) -> (r: i128)
    requires
        -WIDE <= v <= WIDE,
    ensures
        r == sgn(a) * v,
        -WIDE <= r <= WIDE,
{
    if a.is_positive() {
        v
    } else {
        -v
    }
}

fn wide_wedge_term(a: SignedAxis, v: i128) -> (r: i128)
    requires
        -WIDE <= v <= WIDE,
    ensures
        r == wedge_coef(a) * v,
        -WIDE <= r <= WIDE,
{
    if a.axis_index() != 0 {
        wide_signed_term(a, v)
    } else {
        0
    }
}


// =====================================================================
// Orientations and the signature table
// =====================================================================

/// The signed axis on axis `k`, negative when `neg`.
pub open spec fn signed_axis_spec(k: int, neg: bool) -> SignedAxis {
    if k == 0 {
        if neg { SignedAxis::NegX } else { SignedAxis::PosX }
    } else if k == 1 {
        if neg { SignedAxis::NegY } else { SignedAxis::PosY }
    } else {
        if neg { SignedAxis::NegZ } else { SignedAxis::PosZ }
    }
}

/// The axis that slot `j` of the `q`-th axis permutation reads.
pub open spec fn perm_axis(q: int, j: int) -> int {
    if q == 0 {
        j
    } else if q == 1 {
        if j == 0 { 0 } else if j == 1 { 2 } else { 1 }
    } else if q == 2 {
        if j == 0 { 1 } else if j == 1 { 0 } else { 2 }
    } else if q == 3 {
        if j == 0 { 1 } else if j == 1 { 2 } else { 0 }
    } else if q == 4 {
        if j == 0 { 2 } else if j == 1 { 0 } else { 1 }
    } else {
        if j == 0 { 2 } else if j == 1 { 1 } else { 0 }
    }
}

/// The `i`-th of the 48 orientations: axis permutation `i / 8`, with slot
/// `j` negated when bit `j` of `i % 8` is set.
pub open spec fn orientation_spec(i: int) -> Placement {
    let q = i / 8;
    let s = i % 8;
    Placement(
        signed_axis_spec(perm_axis(q, 0), s % 2 == 1),
        signed_axis_spec(perm_axis(q, 1), (s / 2) % 2 == 1),
        signed_axis_spec(perm_axis(q, 2), (s / 4) % 2 == 1),
    )
}

/// Position of a permutation placement in the orientation list.
pub open spec fn orientation_index(p: Placement) -> int {
    let a0 = axis_of(p.0);
    let a1 = axis_of(p.1);
    let q = if a0 == 0 {
        if a1 == 1 { 0int } else { 1 }
    } else if a0 == 1 {
        if a1 == 0 { 2int } else { 3 }
    } else {
        if a1 == 0 { 4int } else { 5 }
    };
    let s = (if is_pos(p.0) { 0int } else { 1 }) + (if is_pos(p.1) { 0int } else { 2 }) + (if is_pos(
        p.2,
    ) { 0int } else { 4 });
    8 * q + s
}

proof fn lemma_orientation_qs(q: int, t: int)
    requires
        0 <= q < 6,
        0 <= t < 8,
    ensures
        is_permutation(orientation_spec(8 * q + t)),
        orientation_index(orientation_spec(8 * q + t)) == 8 * q + t,
{
    assert((8 * q + t) / 8 == q);
    assert((8 * q + t) % 8 == t);
    assert(t % 2 == 1 <==> (t == 1 || t == 3 || t == 5 || t == 7));
    assert((t / 2) % 2 == 1 <==> (t == 2 || t == 3 || t == 6 || t == 7));
    assert((t / 4) % 2 == 1 <==> (t >= 4));
}

proof fn lemma_index_of_permutation(p: Placement)
    requires
        is_permutation(p),
    ensures
        0 <= orientation_index(p) < 48,
        orientation_spec(orientation_index(p)) == p,
{
    let i = orientation_index(p);
    let q = i / 8;
    let t = i % 8;
    assert(0 <= q < 6 && 0 <= t < 8 && i == 8 * q + t);
    assert(t % 2 == 1 <==> !is_pos(p.0));
    assert((t / 2) % 2 == 1 <==> !is_pos(p.1));
    assert((t / 4) % 2 == 1 <==> !is_pos(p.2));
}

/// The orientation list holds exactly the 48 signed permutations of the
/// axes, each once.
pub proof fn lemma_orientations_are_all_permutations()
    ensures
        forall|i: int| 0 <= i < 48 ==> is_permutation(#[trigger] orientation_spec(i)),
        forall|i: int|
            0 <= i < 48 ==> orientation_index(#[trigger] orientation_spec(i)) == i,
        forall|p: Placement|
            is_permutation(p) ==> 0 <= #[trigger] orientation_index(p) < 48 && orientation_spec(
                orientation_index(p),
            ) == p,
{
    assert forall|i: int| 0 <= i < 48 implies is_permutation(#[trigger] orientation_spec(i))
        && orientation_index(orientation_spec(i)) == i by {
        lemma_orientation_qs(i / 8, i % 8);
        assert(i == 8 * (i / 8) + (i % 8));
    }
    assert forall|p: Placement| is_permutation(p) implies 0 <= #[trigger] orientation_index(p) < 48
        && orientation_spec(orientation_index(p)) == p by {
        lemma_index_of_permutation(p);
    }
}

fn signed_axis_exec(k: usize, neg: bool) -> (r: SignedAxis)
    requires
        k < 3,
    ensures
        r == signed_axis_spec(k as int, neg),
{
    if k == 0 {
        if neg { SignedAxis::NegX } else { SignedAxis::PosX }
    } else if k == 1 {
        if neg { SignedAxis::NegY } else { SignedAxis::PosY }
    } else {
        if neg { SignedAxis::NegZ } else { SignedAxis::PosZ }
    }
}

fn perm_axis_exec(q: usize, j: usize) -> (r: usize)
    requires
        q < 6,
        j < 3,
    ensures
        r == perm_axis(q as int, j as int),
        r < 3,
{
    if q == 0 {
        j
    } else if q == 1 {
        if j == 0 { 0 } else if j == 1 { 2 } else { 1 }
    } else if q == 2 {
        if j == 0 { 1 } else if j == 1 { 0 } else { 2 }
    } else if q == 3 {
        if j == 0 { 1 } else if j == 1 { 2 } else { 0 }
    } else if q == 4 {
        if j == 0 { 2 } else if j == 1 { 0 } else { 1 }
    } else {
        if j == 0 { 2 } else if j == 1 { 1 } else { 0 }
    }
}

/// All 48 orientations of the cube: every signed permutation of the axes.
pub fn all_orientations() -> (r: Vec<Placement>)
    ensures
        r@.len() == 48,
        forall|i: int| 0 <= i < 48 ==> r@[i] == orientation_spec(i),
{
    let mut v: Vec<Placement> = Vec::new();
    let mut i: usize = 0;
    while i < 48
        invariant
            i <= 48,
            v@.len() == i,
            forall|j: int| 0 <= j < i ==> v@[j] == orientation_spec(j),
        decreases 48 - i,
    {
        let q = i / 8;
        let s = i % 8;
        let p = Placement(
            signed_axis_exec(perm_axis_exec(q, 0), s % 2 == 1),
            signed_axis_exec(perm_axis_exec(q, 1), (s / 2) % 2 == 1),
            signed_axis_exec(perm_axis_exec(q, 2), (s / 4) % 2 == 1),
        );
        v.push(p);
        i = i + 1;
    }
    v
}

/// Outcome of subtracting primitives from one union primitive within a
/// single unit cell.
#[derive(Clone, Copy, Debug, PartialEq, Eq, Structural)]
pub enum CellResult {
    /// The whole cell was removed.
    Empty,
    /// Something is left, and it is a primitive in some orientation.
    Keep { shape: PrimitiveShape, placement: Placement },
    /// The result is not expressible as any of the table's primitives.
    NotRepresentable { result_signature: u64 },
}

/// The shapes whose oriented signatures make up the lookup table.
pub open spec fn table_shape(shape: PrimitiveShape) -> bool {
    shape == PrimitiveShape::Box || shape == PrimitiveShape::Wedge || shape == PrimitiveShape::Corner
}

/// `sig` is the signature of some table shape in some orientation.
pub open spec fn representable(sig: nat) -> bool {
    exists|shape: PrimitiveShape, p: Placement|
        table_shape(shape) && is_permutation(p) && signature_spec(shape, p) == sig
}

/// The signature left when `sub_sig` is carved out of `minuend_sig`.
pub open spec fn carve(minuend_sig: u64, sub_sig: u64) -> u64 {
    minuend_sig & !sub_sig
}

/// Entry `t` of the lookup table: Box, Wedge, then Corner, each in all 48
/// orientations in list order.
pub open spec fn table_entry(t: int) -> (PrimitiveShape, Placement) {
    (
        if t < 48 {
            PrimitiveShape::Box
        } else if t < 96 {
            PrimitiveShape::Wedge
        } else {
            PrimitiveShape::Corner
        },
        orientation_spec(t % 48),
    )
}

/// The first table entry from `t` on whose signature is `sig`.
pub open spec fn first_match_from(sig: nat, t: int) -> Option<(PrimitiveShape, Placement)>
    decreases 144 - t,
{
    if t >= 144 {
        None
    } else if signature_spec(table_entry(t).0, table_entry(t).1) == sig {
        Some(table_entry(t))
    } else {
        first_match_from(sig, t + 1)
    }
}

/// The first table entry whose signature is `sig`.
pub open spec fn lookup_spec(sig: nat) -> Option<(PrimitiveShape, Placement)> {
    first_match_from(sig, 0)
}

/// The outcome of carving `sub_sig` out of the minuend within one cell.
pub open spec fn cell_result_spec(minuend: (PrimitiveShape, Placement), sub_sig: u64) -> CellResult {
    let result_sig = carve(signature_spec(minuend.0, minuend.1) as u64, sub_sig);
    if result_sig == 0 {
        CellResult::Empty
    } else {
        match lookup_spec(result_sig as nat) {
            Some((shape, placement)) => CellResult::Keep { shape, placement },
            None => CellResult::NotRepresentable { result_signature: result_sig },
        }
    }
}

/// The shape of table entry `t`, computed.
fn table_shape_at(t: usize) -> (r: PrimitiveShape)
    requires
        t < 144,
    ensures
        r == table_entry(t as int).0,
        table_shape(r),
{
    if t < 48 {
        PrimitiveShape::Box
    } else if t < 96 {
        PrimitiveShape::Wedge
    } else {
        PrimitiveShape::Corner
    }
}

/// Every table shape in every orientation occurs in the table.
proof fn lemma_table_covers(shape: PrimitiveShape, p: Placement)
    requires
        table_shape(shape),
        is_permutation(p),
    ensures
        exists|t: int| 0 <= t < 144 && #[trigger] table_entry(t) == (shape, p),
{
    lemma_orientations_are_all_permutations();
    let i = orientation_index(p);
    assert(orientation_spec(i) == p);
    let k: int = if shape == PrimitiveShape::Box {
        0
    } else if shape == PrimitiveShape::Wedge {
        1
    } else {
        2
    };
    let t = 48 * k + i;
    assert(t % 48 == i);
    assert(table_entry(t) == (shape, p));
}

/// Look up the first Box, Wedge or Corner orientation whose signature is
/// `sig`.
fn lookup_signature(sig: u64) -> (r: Option<(PrimitiveShape, Placement)>)
    ensures
        r == lookup_spec(sig as nat),
        match r {
            Some((shape, p)) => table_shape(shape) && is_permutation(p) && signature_spec(shape, p)
                == sig,
            None => !representable(sig as nat),
        },
{
    let orientations = all_orientations();
    let mut t: usize = 0;
    while t < 144
        invariant
            t <= 144,
            orientations@.len() == 48,
            forall|i: int| 0 <= i < 48 ==> orientations@[i] == orientation_spec(i),
            forall|i: int|
                0 <= i < t ==> signature_spec(#[trigger] table_entry(i).0, table_entry(i).1)
                    != sig,
            lookup_spec(sig as nat) == first_match_from(sig as nat, t as int),
        decreases 144 - t,
    {
        let shape = table_shape_at(t);
        let p = orientations[t % 48];
        assert(table_entry(t as int) == (shape, p));
        if compute_signature(shape, p) == sig {
            proof {
                lemma_orientations_are_all_permutations();
            }
            return Some((shape, p));
        }
        t = t + 1;
    }
    proof {
        assert forall|shape: PrimitiveShape, p: Placement|
            table_shape(shape) && is_permutation(p) implies signature_spec(shape, p)
            != sig as nat by {
            lemma_table_covers(shape, p);
            let t = choose|t: int| 0 <= t < 144 && #[trigger] table_entry(t) == (shape, p);
            assert(signature_spec(table_entry(t).0, table_entry(t).1) != sig);
        }
    }
    None
}

/// Compute `minuend − subtract` within one cell, where the subtract
/// signature is already known. An empty result is `Empty`; otherwise the
/// result is matched against the oriented Box, Wedge and Corner
/// signatures.
pub fn cell_subtract_with_sig(minuend: (PrimitiveShape, Placement), sub_sig: u64) -> (r: CellResult)
    ensures
        r == cell_result_spec(minuend, sub_sig),
        ({
            let result_sig = carve(signature_spec(minuend.0, minuend.1) as u64, sub_sig);
            match r {
                CellResult::Empty => result_sig == 0,
                CellResult::Keep { shape, placement } => result_sig != 0 && table_shape(shape)
                    && is_permutation(placement) && signature_spec(shape, placement) == result_sig,
                CellResult::NotRepresentable { result_signature } => result_sig != 0
                    && result_signature == result_sig && !representable(result_sig as nat),
            }
        }),
{
    let minuend_sig = compute_signature(minuend.0, minuend.1);
    let result_sig = minuend_sig & !sub_sig;
    if result_sig == 0 {
        return CellResult::Empty;
    }
    match lookup_signature(result_sig) {
        Some((shape, placement)) => CellResult::Keep { shape, placement },
        None => CellResult::NotRepresentable { result_signature: result_sig },
    }
}

/// Compute `minuend − ⋃ subtrahends` in a single unit cell.
pub fn cell_subtract(
    minuend: (PrimitiveShape, Placement),
    subtrahends: &[(PrimitiveShape, Placement)],
) -> (r: CellResult)
    ensures
        r == cell_result_spec(minuend, union_signature(subtrahends@)),
        ({
            let result_sig = carve(
                signature_spec(minuend.0, minuend.1) as u64,
                union_signature(subtrahends@),
            );
            match r {
                CellResult::Empty => result_sig == 0,
                CellResult::Keep { shape, placement } => result_sig != 0 && table_shape(shape)
                    && is_permutation(placement) && signature_spec(shape, placement) == result_sig,
                CellResult::NotRepresentable { result_signature } => result_sig != 0
                    && result_signature == result_sig && !representable(result_sig as nat),
            }
        }),
{
    let mut sub_sig: u64 = 0;
    let mut i: usize = 0;
    while i < subtrahends.len()
        invariant
            i <= subtrahends@.len(),
            sub_sig == union_signature(subtrahends@.take(i as int)),
        decreases subtrahends@.len() - i,
    {
        let (shape, p) = subtrahends[i];
        sub_sig = sub_sig | compute_signature(shape, p);
        assert(subtrahends@.take(i + 1).drop_last() =~= subtrahends@.take(i as int));
        i = i + 1;
    }
    assert(subtrahends@.take(subtrahends@.len() as int) =~= subtrahends@);
    cell_subtract_with_sig(minuend, sub_sig)
}

proof fn lemma_first_match_sig(sig: nat, t: int)
    ensures
        first_match_from(sig, t) matches Some(e) ==> signature_spec(e.0, e.1) == sig,
    decreases 144 - t,
{
    if t < 144 {
        lemma_first_match_sig(sig, t + 1);
    }
}

/// Carving keeps nothing outside the minuend and nothing of what was
/// subtracted: a kept cell's signature is exactly the minuend's samples
/// outside the subtracted ones, non-empty, within the minuend's signature
/// and sharing no sample with the subtracted one. An
/// empty result means the subtract covers every sample of the minuend.
pub proof fn lemma_carve_within(minuend: (PrimitiveShape, Placement), sub_sig: u64)
    ensures
        ({
            let m = signature_spec(minuend.0, minuend.1) as u64;
            match cell_result_spec(minuend, sub_sig) {
                CellResult::Empty => m & !sub_sig == 0,
                CellResult::Keep { shape, placement } => {
                    let kept = signature_spec(shape, placement) as u64;
                    &&& kept == m & !sub_sig
                    &&& signature_spec(shape, placement) == kept as nat
                    &&& kept != 0
                    &&& kept & !m == 0
                    &&& kept & sub_sig == 0
                },
                CellResult::NotRepresentable { result_signature } => {
                    &&& result_signature == m & !sub_sig
                    &&& result_signature != 0
                    &&& !representable(result_signature as nat)
                },
            }
        }),
{
    let m = signature_spec(minuend.0, minuend.1) as u64;
    let r = m & !sub_sig;
    lemma_first_match_sig(r as nat, 0);
    assert(r & !m == 0 && r & sub_sig == 0) by (bit_vector)
        requires
            r == m & !sub_sig,
    ;
    match cell_result_spec(minuend, sub_sig) {
        CellResult::Keep { shape, placement } => {
            lemma_sig_from_bound(shape, placement, 0);
            lemma_two_pow_64();
            assert(signature_spec(shape, placement) == r as nat);
        },
        CellResult::NotRepresentable { result_signature } => {
            if representable(r as nat) {
                let (shape, p) = choose|shape: PrimitiveShape, p: Placement|
                    table_shape(shape) && is_permutation(p) && signature_spec(shape, p) == r as nat;
                lemma_table_covers(shape, p);
                lemma_first_match_none(r as nat, 0);
                let t = choose|t: int| 0 <= t < 144 && #[trigger] table_entry(t) == (shape, p);
                assert(signature_spec(table_entry(t).0, table_entry(t).1) != r as nat);
            }
        },
        CellResult::Empty => {},
    }
}

proof fn lemma_first_match_none(sig: nat, t: int)
    requires
        0 <= t,
        first_match_from(sig, t) is None,
    ensures
        forall|i: int| t <= i < 144 ==> signature_spec(#[trigger] table_entry(i).0, table_entry(i).1) != sig,
    decreases 144 - t,
{
    if t < 144 {
        lemma_first_match_none(sig, t + 1);
    }
}

/// Bitwise union of the signatures of several placed primitives.
pub open spec fn union_signature(s: Seq<(PrimitiveShape, Placement)>) -> u64
    decreases s.len(),
{
    if s.len() == 0 {
        0
    } else {
        union_signature(s.drop_last()) | (signature_spec(s.last().0, s.last().1) as u64)
    }
}

} // verus!
