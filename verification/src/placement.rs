//! Signed permutations of the coordinate axes.
//!
//! A `Placement(a, b, c)` says where each world axis of a copy draws its
//! value from: world X from the source's `a`, world Y from `b`, world Z
//! from `c`. Placements act on points, on unit cells and on integer
//! bounds, and they compose.

use vstd::prelude::*;

verus! {

/// A coordinate axis together with a sign.
#[derive(Clone, Copy, Debug, PartialEq, Eq, Hash, Structural)]
pub enum SignedAxis {
    PosX,
    NegX,
    PosY,
    NegY,
    PosZ,
    NegZ,
}

/// The axis (0 = X, 1 = Y, 2 = Z) that a signed axis names.
pub open spec fn axis_of(a: SignedAxis) -> int {
    match a {
        SignedAxis::PosX | SignedAxis::NegX => 0,
        SignedAxis::PosY | SignedAxis::NegY => 1,
        SignedAxis::PosZ | SignedAxis::NegZ => 2,
    }
}

/// Whether a signed axis points along the positive direction.
pub open spec fn is_pos(a: SignedAxis) -> bool {
    a is PosX || a is PosY || a is PosZ
}

/// The same axis with the opposite sign.
pub open spec fn flip(a: SignedAxis) -> SignedAxis {
    match a {
        SignedAxis::PosX => SignedAxis::NegX,
        SignedAxis::NegX => SignedAxis::PosX,
        SignedAxis::PosY => SignedAxis::NegY,
        SignedAxis::NegY => SignedAxis::PosY,
        SignedAxis::PosZ => SignedAxis::NegZ,
        SignedAxis::NegZ => SignedAxis::PosZ,
    }
}

impl SignedAxis {
    pub fn axis_index(self) -> (r: usize)
        ensures
            r == axis_of(self),
    {
        match self {
            SignedAxis::PosX | SignedAxis::NegX => 0,
            SignedAxis::PosY | SignedAxis::NegY => 1,
            SignedAxis::PosZ | SignedAxis::NegZ => 2,
        }
    }

    pub fn is_positive(self) -> (r: bool)
        ensures
            r == is_pos(self),
    {
        matches!(self, SignedAxis::PosX | SignedAxis::PosY | SignedAxis::PosZ)
    }

    pub fn negate(self) -> (r: SignedAxis)
        ensures
            r == flip(self),
            axis_of(r) == axis_of(self),
            is_pos(r) == !is_pos(self),
    {
        match self {
            SignedAxis::PosX => SignedAxis::NegX,
            SignedAxis::NegX => SignedAxis::PosX,
            SignedAxis::PosY => SignedAxis::NegY,
            SignedAxis::NegY => SignedAxis::PosY,
            SignedAxis::PosZ => SignedAxis::NegZ,
            SignedAxis::NegZ => SignedAxis::PosZ,
        }
    }
}

/// A signed permutation of the coordinate axes (see the module doc).
#[derive(Clone, Copy, Debug, PartialEq, Eq, Hash, Structural)]
pub struct Placement(pub SignedAxis, pub SignedAxis, pub SignedAxis);

/// The `k`-th component of a placement.
pub open spec fn slot(p: Placement, k: int) -> SignedAxis {
    if k == 0 {
        p.0
    } else if k == 1 {
        p.1
    } else {
        p.2
    }
}

/// The `k`-th coordinate of a point.
pub open spec fn coord(v: (int, int, int), k: int) -> int {
    if k == 0 {
        v.0
    } else if k == 1 {
        v.1
    } else {
        v.2
    }
}

pub open spec fn identity_spec() -> Placement {
    Placement(SignedAxis::PosX, SignedAxis::PosY, SignedAxis::PosZ)
}

/// A placement whose three components name three different axes, so that
/// it permutes the axes (possibly flipping some).
pub open spec fn is_permutation(p: Placement) -> bool {
    &&& axis_of(p.0) != axis_of(p.1)
    &&& axis_of(p.0) != axis_of(p.2)
    &&& axis_of(p.1) != axis_of(p.2)
}

/// The axes of the placement are an odd permutation of X, Y, Z (a single
/// swap).
pub open spec fn odd_permutation(p: Placement) -> bool {
    ||| axis_of(p.0) == 0 && axis_of(p.1) == 2
    ||| axis_of(p.0) == 2 && axis_of(p.1) == 1
    ||| axis_of(p.0) == 1 && axis_of(p.1) == 0
}

/// How many components of the placement flip their axis.
pub open spec fn flips(p: Placement) -> int {
    (if is_pos(p.0) { 0int } else { 1int }) + (if is_pos(p.1) { 0int } else { 1int }) + (if is_pos(p.2) {
        0int
    } else {
        1int
    })
}

/// The placement turns space inside out: its matrix has determinant -1.
/// That is the case for a permutation when the parity of the axis
/// permutation and the parity of the number of flipped axes differ.
pub open spec fn mirrored(p: Placement) -> bool {
    is_permutation(p) && (odd_permutation(p) != (flips(p) % 2 == 1))
}

/// Whether the placement turns space inside out.
pub fn is_mirrored(p: Placement) -> (r: bool)
    ensures
        r == mirrored(p),
{
    let a = p.0.axis_index();
    let b = p.1.axis_index();
    let c = p.2.axis_index();
    if a == b || a == c || b == c {
        return false;
    }
    let odd = (a == 0 && b == 2) || (a == 2 && b == 1) || (a == 1 && b == 0);
    let n: u8 = (if p.0.is_positive() { 0 } else { 1 }) + (if p.1.is_positive() { 0 } else { 1 }) + (if p.2.is_positive() {
        0
    } else {
        1
    });
    odd != (n % 2 == 1)
}

/// The value a single world coordinate takes from a source point.
pub open spec fn take(a: SignedAxis, v: (int, int, int)) -> int {
    if is_pos(a) {
        coord(v, axis_of(a))
    } else {
        -coord(v, axis_of(a))
    }
}

/// The action of a placement on a point of space.
pub open spec fn apply_point(p: Placement, v: (int, int, int)) -> (int, int, int) {
    (take(p.0, v), take(p.1, v), take(p.2, v))
}

pub open spec fn compose_axis_spec(outer: SignedAxis, inner: Placement) -> SignedAxis {
    if is_pos(outer) {
        slot(inner, axis_of(outer))
    } else {
        flip(slot(inner, axis_of(outer)))
    }
}

pub open spec fn compose_spec(outer: Placement, inner: Placement) -> Placement {
    Placement(
        compose_axis_spec(outer.0, inner),
        compose_axis_spec(outer.1, inner),
        compose_axis_spec(outer.2, inner),
    )
}

/// Identity placement: no change to the primitive.
pub fn identity_placement() -> (r: Placement)
    ensures
        r == identity_spec(),
{
    Placement(SignedAxis::PosX, SignedAxis::PosY, SignedAxis::PosZ)
}

/// Compose two placements: `outer ∘ inner` (apply `inner` first, then
/// `outer`).
pub fn compose_placements(outer: Placement, inner: Placement) -> (r: Placement)
    ensures
        r == compose_spec(outer, inner),
{
    Placement(
        compose_axis(outer.0, inner),
        compose_axis(outer.1, inner),
        compose_axis(outer.2, inner),
    )
}

/// The outer signed axis picks one of the inner components (by axis
/// index), negated when the outer axis is negative.
pub fn compose_axis(outer: SignedAxis, inner: Placement) -> (r: SignedAxis)
    ensures
        r == compose_axis_spec(outer, inner),
{
    let picked = match outer.axis_index() {
        0 => inner.0,
        1 => inner.1,
        _ => inner.2,
    };
    if outer.is_positive() {
        picked
    } else {
        picked.negate()
    }
}

proof fn lemma_take_compose(a: SignedAxis, inner: Placement, v: (int, int, int))
    ensures
        take(compose_axis_spec(a, inner), v) == take(a, apply_point(inner, v)),
{
}

/// Applying `compose_placements(outer, inner)` to a point gives the same
/// result as applying `inner` first and then `outer`.
pub proof fn lemma_compose_apply(outer: Placement, inner: Placement, v: (int, int, int))
    ensures
        apply_point(compose_spec(outer, inner), v) == apply_point(outer, apply_point(inner, v)),
{
    lemma_take_compose(outer.0, inner, v);
    lemma_take_compose(outer.1, inner, v);
    lemma_take_compose(outer.2, inner, v);
}

/// The identity placement is a left and right unit of composition.
pub proof fn lemma_compose_identity(p: Placement)
    ensures
        compose_spec(identity_spec(), p) == p,
        compose_spec(p, identity_spec()) == p,
{
}

proof fn lemma_compose_axis_assoc(a: SignedAxis, b: Placement, c: Placement)
    ensures
        compose_axis_spec(a, compose_spec(b, c)) == compose_axis_spec(compose_axis_spec(a, b), c),
{
}

/// Composition of placements is associative.
pub proof fn lemma_compose_associative(a: Placement, b: Placement, c: Placement)
    ensures
        compose_spec(a, compose_spec(b, c)) == compose_spec(compose_spec(a, b), c),
{
    lemma_compose_axis_assoc(a.0, b, c);
    lemma_compose_axis_assoc(a.1, b, c);
    lemma_compose_axis_assoc(a.2, b, c);
}

/// Two placements that act the same on every point are the same
/// placement: a placement is determined by its action.
pub proof fn lemma_action_determines_placement(p: Placement, q: Placement)
    requires
        apply_point(p, (1, 2, 3)) == apply_point(q, (1, 2, 3)),
    ensures
        p == q,
{
}

/// Composing two permutations gives a permutation.
pub proof fn lemma_compose_permutation(a: Placement, b: Placement)
    requires
        is_permutation(a),
        is_permutation(b),
    ensures
        is_permutation(compose_spec(a, b)),
{
}


/// A single geometric operation, used both by `rotate` (composed
/// left-to-right into one transform) and by `symmetry` (closure taken over
/// generators).
#[allow(non_camel_case_types)]
#[derive(Clone, Copy, Debug, PartialEq, Eq, Structural)]
pub enum SymOp {
    MirrorX,
    MirrorY,
    MirrorZ,
    /// 90° rotation in the XY plane (X toward Y).
    Rotate90_XY,
    /// 90° rotation in the XZ plane (X toward Z).
    Rotate90_XZ,
    /// 90° rotation in the YZ plane (Y toward Z).
    Rotate90_YZ,
    /// 180° rotation in the XY plane.
    Rotate180_XY,
    /// 180° rotation in the XZ plane.
    Rotate180_XZ,
    /// 180° rotation in the YZ plane.
    Rotate180_YZ,
}

pub open spec fn symop_spec(op: SymOp) -> Placement {
    match op {
        SymOp::MirrorX => Placement(SignedAxis::NegX, SignedAxis::PosY, SignedAxis::PosZ),
        SymOp::MirrorY => Placement(SignedAxis::PosX, SignedAxis::NegY, SignedAxis::PosZ),
        SymOp::MirrorZ => Placement(SignedAxis::PosX, SignedAxis::PosY, SignedAxis::NegZ),
        SymOp::Rotate90_XY => Placement(SignedAxis::NegY, SignedAxis::PosX, SignedAxis::PosZ),
        SymOp::Rotate90_XZ => Placement(SignedAxis::NegZ, SignedAxis::PosY, SignedAxis::PosX),
        SymOp::Rotate90_YZ => Placement(SignedAxis::PosX, SignedAxis::NegZ, SignedAxis::PosY),
        SymOp::Rotate180_XY => Placement(SignedAxis::NegX, SignedAxis::NegY, SignedAxis::PosZ),
        SymOp::Rotate180_XZ => Placement(SignedAxis::NegX, SignedAxis::PosY, SignedAxis::NegZ),
        SymOp::Rotate180_YZ => Placement(SignedAxis::PosX, SignedAxis::NegY, SignedAxis::NegZ),
    }
}

impl SymOp {
    pub fn to_placement(self) -> (r: Placement)
        ensures
            r == symop_spec(self),
            is_permutation(r),
    {
        match self {
            SymOp::MirrorX => Placement(SignedAxis::NegX, SignedAxis::PosY, SignedAxis::PosZ),
            SymOp::MirrorY => Placement(SignedAxis::PosX, SignedAxis::NegY, SignedAxis::PosZ),
            SymOp::MirrorZ => Placement(SignedAxis::PosX, SignedAxis::PosY, SignedAxis::NegZ),
            // XY plane: X→Y, Y→−X (CCW from +Z)
            SymOp::Rotate90_XY => Placement(SignedAxis::NegY, SignedAxis::PosX, SignedAxis::PosZ),
            // XZ plane: X→Z, Z→−X (CCW from +Y)
            SymOp::Rotate90_XZ => Placement(SignedAxis::NegZ, SignedAxis::PosY, SignedAxis::PosX),
            // YZ plane: Y→Z, Z→−Y (CCW from +X)
            SymOp::Rotate90_YZ => Placement(SignedAxis::PosX, SignedAxis::NegZ, SignedAxis::PosY),
            SymOp::Rotate180_XY => Placement(SignedAxis::NegX, SignedAxis::NegY, SignedAxis::PosZ),
            SymOp::Rotate180_XZ => Placement(SignedAxis::NegX, SignedAxis::PosY, SignedAxis::NegZ),
            SymOp::Rotate180_YZ => Placement(SignedAxis::PosX, SignedAxis::NegY, SignedAxis::NegZ),
        }
    }
}

/// A mirror undoes itself, and a 180° rotation is the matching 90°
/// rotation done twice.
pub proof fn lemma_symop_relations()
    ensures
        compose_spec(symop_spec(SymOp::MirrorX), symop_spec(SymOp::MirrorX)) == identity_spec(),
        compose_spec(symop_spec(SymOp::MirrorY), symop_spec(SymOp::MirrorY)) == identity_spec(),
        compose_spec(symop_spec(SymOp::MirrorZ), symop_spec(SymOp::MirrorZ)) == identity_spec(),
        compose_spec(symop_spec(SymOp::Rotate90_XY), symop_spec(SymOp::Rotate90_XY))
            == symop_spec(SymOp::Rotate180_XY),
        compose_spec(symop_spec(SymOp::Rotate90_XZ), symop_spec(SymOp::Rotate90_XZ))
            == symop_spec(SymOp::Rotate180_XZ),
        compose_spec(symop_spec(SymOp::Rotate90_YZ), symop_spec(SymOp::Rotate90_YZ))
            == symop_spec(SymOp::Rotate180_YZ),
        compose_spec(symop_spec(SymOp::Rotate180_XY), symop_spec(SymOp::Rotate180_XY))
            == identity_spec(),
        compose_spec(symop_spec(SymOp::Rotate180_XZ), symop_spec(SymOp::Rotate180_XZ))
            == identity_spec(),
        compose_spec(symop_spec(SymOp::Rotate180_YZ), symop_spec(SymOp::Rotate180_YZ))
            == identity_spec(),
{
}

/// The placement obtained by applying `ops` in order, left to right.
pub open spec fn compose_orient_spec(ops: Seq<SymOp>) -> Placement
    decreases ops.len(),
{
    if ops.len() == 0 {
        identity_spec()
    } else {
        compose_spec(symop_spec(ops.last()), compose_orient_spec(ops.drop_last()))
    }
}

/// Compose a sequence of operations left-to-right into one placement.
pub fn compose_orient(ops: &[SymOp]) -> (r: Placement)
    ensures
        r == compose_orient_spec(ops@),
{
    let mut result = identity_placement();
    let mut i: usize = 0;
    while i < ops.len()
        invariant
            i <= ops@.len(),
            result == compose_orient_spec(ops@.take(i as int)),
        decreases ops@.len() - i,
    {
        let op = ops[i];
        result = compose_placements(op.to_placement(), result);
        assert(ops@.take(i + 1).drop_last() =~= ops@.take(i as int));
        i = i + 1;
    }
    assert(ops@.take(ops@.len() as int) =~= ops@);
    result
}

/// Orienting by `a` followed by `b` is orienting by `a`, then by `b`.
pub proof fn lemma_compose_orient_concat(a: Seq<SymOp>, b: Seq<SymOp>)
    ensures
        compose_orient_spec(a + b) == compose_spec(compose_orient_spec(b), compose_orient_spec(a)),
    decreases b.len(),
{
    if b.len() == 0 {
        assert(a + b =~= a);
        lemma_compose_identity(compose_orient_spec(a));
    } else {
        assert((a + b).drop_last() =~= a + b.drop_last());
        assert((a + b).last() == b.last());
        lemma_compose_orient_concat(a, b.drop_last());
        lemma_compose_associative(
            symop_spec(b.last()),
            compose_orient_spec(b.drop_last()),
            compose_orient_spec(a),
        );
    }
}

/// The action of a placement on a unit cell: a cell at `c` covers
/// `[c, c + 1)`, so a flipped coordinate becomes `-c - 1`.
pub open spec fn take_cell(a: SignedAxis, c: (int, int, int)) -> int {
    if is_pos(a) {
        coord(c, axis_of(a))
    } else {
        -coord(c, axis_of(a)) - 1
    }
}

pub open spec fn apply_cell_spec(p: Placement, c: (int, int, int)) -> (int, int, int) {
    (take_cell(p.0, c), take_cell(p.1, c), take_cell(p.2, c))
}

pub open spec fn cell_int(c: (i32, i32, i32)) -> (int, int, int) {
    (c.0 as int, c.1 as int, c.2 as int)
}

fn resolve_cell_coord(sa: SignedAxis, cell: (i32, i32, i32)) -> (r: i32)
    ensures
        r == take_cell(sa, cell_int(cell)),
{
    let val = match sa.axis_index() {
        0 => cell.0,
        1 => cell.1,
        _ => cell.2,
    };
    if sa.is_positive() {
        val
    } else {
        -1 - val
    }
}

/// Map a unit cell through a placement.
pub fn apply_placement_to_cell(placement: Placement, cell: (i32, i32, i32)) -> (r: (i32, i32, i32))
    ensures
        cell_int(r) == apply_cell_spec(placement, cell_int(cell)),
{
    (
        resolve_cell_coord(placement.0, cell),
        resolve_cell_coord(placement.1, cell),
        resolve_cell_coord(placement.2, cell),
    )
}

/// Mapping cells composes like placements do.
pub proof fn lemma_compose_apply_cell(outer: Placement, inner: Placement, c: (int, int, int))
    ensures
        apply_cell_spec(compose_spec(outer, inner), c) == apply_cell_spec(outer, apply_cell_spec(inner, c)),
{
}

// =====================================================================
// Faces
// =====================================================================

/// A face of the bounding box, used to say which sides of a cell are
/// adjacent to filled geometry.
#[derive(Clone, Copy, Debug, PartialEq, Eq, Structural)]
pub enum Face {
    MinX,
    MaxX,
    MinY,
    MaxY,
    MinZ,
    MaxZ,
}

/// The signed axis a face stands for: Min faces keep the axis, Max faces
/// flip it.
pub open spec fn face_axis(f: Face) -> SignedAxis {
    match f {
        Face::MinX => SignedAxis::PosX,
        Face::MaxX => SignedAxis::NegX,
        Face::MinY => SignedAxis::PosY,
        Face::MaxY => SignedAxis::NegY,
        Face::MinZ => SignedAxis::PosZ,
        Face::MaxZ => SignedAxis::NegZ,
    }
}

/// Corner placement: the component of axis `k` is set by the last face
/// in `faces` that lies on axis `k`, and is `+k` when no face does.
pub open spec fn corner_slot(faces: Seq<Face>, k: int) -> SignedAxis
    decreases faces.len(),
{
    if faces.len() == 0 {
        slot(identity_spec(), k)
    } else if axis_of(face_axis(faces.last())) == k {
        face_axis(faces.last())
    } else {
        corner_slot(faces.drop_last(), k)
    }
}

/// The identity axis `identity` carried over to the side named by `sa`.
pub open spec fn to_identity_axis(sa: SignedAxis, identity: SignedAxis) -> SignedAxis {
    if is_pos(sa) {
        identity
    } else {
        flip(identity)
    }
}

/// The first axis index that is neither `a` nor `b`.
pub open spec fn ridge_index(a: int, b: int) -> int {
    if 0 != a && 0 != b {
        0
    } else if 1 != a && 1 != b {
        1
    } else {
        2
    }
}

/// Wedge placement: the identity wedge's cut axes Y and Z are routed to
/// the world axes of the two faces (flipped for Max faces) and its ridge X
/// to the remaining axis.
pub open spec fn wedge_slot(f0: Face, f1: Face, k: int) -> SignedAxis {
    let a0 = axis_of(face_axis(f0));
    let a1 = axis_of(face_axis(f1));
    if k == ridge_index(a0, a1) {
        SignedAxis::PosX
    } else if k == a1 {
        to_identity_axis(face_axis(f1), SignedAxis::PosZ)
    } else if k == a0 {
        to_identity_axis(face_axis(f0), SignedAxis::PosY)
    } else {
        slot(identity_spec(), k)
    }
}

pub open spec fn faces_placement_spec(faces: Seq<Face>) -> Placement {
    if faces.len() == 3 {
        Placement(corner_slot(faces, 0), corner_slot(faces, 1), corner_slot(faces, 2))
    } else if faces.len() == 2 {
        Placement(
            wedge_slot(faces[0], faces[1], 0),
            wedge_slot(faces[0], faces[1], 1),
            wedge_slot(faces[0], faces[1], 2),
        )
    } else {
        identity_spec()
    }
}

fn face_to_signed_axis(f: Face) -> (r: SignedAxis)
    ensures
        r == face_axis(f),
{
    match f {
        Face::MinX => SignedAxis::PosX,
        Face::MaxX => SignedAxis::NegX,
        Face::MinY => SignedAxis::PosY,
        Face::MaxY => SignedAxis::NegY,
        Face::MinZ => SignedAxis::PosZ,
        Face::MaxZ => SignedAxis::NegZ,
    }
}

fn set_slot(p: Placement, k: usize, v: SignedAxis) -> (r: Placement)
    requires
        k < 3,
    ensures
        slot(r, k as int) == v,
        forall|j: int| 0 <= j < 3 && j != k ==> slot(r, j) == slot(p, j),
{
    if k == 0 {
        Placement(v, p.1, p.2)
    } else if k == 1 {
        Placement(p.0, v, p.2)
    } else {
        Placement(p.0, p.1, v)
    }
}

/// Compute the placement of a primitive from the faces it names. The
/// identity primitives fill the Min side of each axis, so Min faces keep
/// an axis and Max faces mirror it. Three faces orient a corner, two
/// faces orient a wedge (the unnamed axis is its ridge); any other count
/// gives the identity.
pub fn faces_to_placement(faces: &[Face]) -> (r: Placement)
    ensures
        r == faces_placement_spec(faces@),
{
    if faces.len() == 3 {
        let mut p = identity_placement();
        let mut i: usize = 0;
        while i < 3
            invariant
                faces@.len() == 3,
                i <= 3,
                forall|k: int|
                    0 <= k < 3 ==> #[trigger] slot(p, k) == corner_slot(faces@.take(i as int), k),
            decreases 3 - i,
        {
            let sa = face_to_signed_axis(faces[i]);
            let ghost prev = p;
            p = set_slot(p, sa.axis_index(), sa);
            assert(faces@.take(i + 1).drop_last() =~= faces@.take(i as int));
            assert forall|k: int| 0 <= k < 3 implies #[trigger] slot(p, k) == corner_slot(
                faces@.take(i + 1),
                k,
            ) by {
                assert(faces@.take(i + 1).last() == faces@[i as int]);
            }
            i = i + 1;
        }
        assert(faces@.take(3) =~= faces@);
        assert(slot(p, 0) == corner_slot(faces@, 0));
        assert(slot(p, 1) == corner_slot(faces@, 1));
        assert(slot(p, 2) == corner_slot(faces@, 2));
        p
    } else if faces.len() == 2 {
        let sa0 = face_to_signed_axis(faces[0]);
        let sa1 = face_to_signed_axis(faces[1]);
        let a0 = sa0.axis_index();
        let a1 = sa1.axis_index();
        let mut p = identity_placement();
        let y_side = if sa0.is_positive() { SignedAxis::PosY } else { SignedAxis::NegY };
        p = set_slot(p, a0, y_side);
        let z_side = if sa1.is_positive() { SignedAxis::PosZ } else { SignedAxis::NegZ };
        p = set_slot(p, a1, z_side);
        let ridge: usize = if 0 != a0 && 0 != a1 {
            0
        } else if 1 != a0 && 1 != a1 {
            1
        } else {
            2
        };
        p = set_slot(p, ridge, SignedAxis::PosX);
        assert(slot(p, 0) == wedge_slot(faces@[0], faces@[1], 0));
        assert(slot(p, 1) == wedge_slot(faces@[0], faces@[1], 1));
        assert(slot(p, 2) == wedge_slot(faces@[0], faces@[1], 2));
        p
    } else {
        identity_placement()
    }
}

} // verus!
