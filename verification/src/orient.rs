//! Axis labels, combine modes and the facing / mirroring / rotation
//! description of a primitive's orientation.

use vstd::prelude::*;
use crate::placement::{compose_placements, compose_spec, Placement, SignedAxis};

verus! {

/// A coordinate axis, used as a direction label (animation channels,
/// mirror axes). Unlike `SignedAxis` it carries no sign.
#[derive(Clone, Copy, Debug, PartialEq, Eq, Structural)]
pub enum Axis {
    X,
    Y,
    Z,
}

/// What an animation channel drives.
#[derive(Clone, Copy, Debug, PartialEq, Eq, Structural)]
pub enum AnimProperty {
    Rotation,
    Translation,
}

/// How a child merges with its siblings.
#[derive(Clone, Copy, Debug, PartialEq, Eq, Structural)]
pub enum CombineMode {
    Union,
    Subtract,
    Clip,
}

impl Default for CombineMode {
    fn default() -> (r: CombineMode)
        ensures
            r == CombineMode::Union,
    {
        CombineMode::Union
    }
}

/// Which way a primitive faces.
#[derive(Clone, Copy, Debug, PartialEq, Eq, Structural)]
pub enum Facing {
    Front,
    Back,
    Left,
    Right,
    Top,
    Bottom,
}

impl Default for Facing {
    fn default() -> (r: Facing)
        ensures
            r == Facing::Front,
    {
        Facing::Front
    }
}

/// Whether a primitive is mirrored across X.
#[derive(Clone, Copy, Debug, PartialEq, Eq, Structural)]
pub enum Mirroring {
    NoMirror,
    Mirror,
}

impl Default for Mirroring {
    fn default() -> (r: Mirroring)
        ensures
            r == Mirroring::NoMirror,
    {
        Mirroring::NoMirror
    }
}

/// A quarter-turn rotation about Z.
#[derive(Clone, Copy, Debug, PartialEq, Eq, Structural)]
pub enum Rotation {
    NoRotation,
    RotateClockwise,
    RotateHalf,
    RotateCounter,
}

impl Default for Rotation {
    fn default() -> (r: Rotation)
        ensures
            r == Rotation::NoRotation,
    {
        Rotation::NoRotation
    }
}

/// The corners of a box mirrored across the plane `axis = 0`.
pub open spec fn reflect_extents_spec(b_min: (i32, i32, i32), b_max: (i32, i32, i32), axis: Axis) -> (
    (int, int, int),
    (int, int, int),
) {
    match axis {
        Axis::X => ((-b_max.0, b_min.1 as int, b_min.2 as int), (-b_min.0, b_max.1 as int, b_max.2 as int)),
        Axis::Y => ((b_min.0 as int, -b_max.1, b_min.2 as int), (b_max.0 as int, -b_min.1, b_max.2 as int)),
        Axis::Z => ((b_min.0 as int, b_min.1 as int, -b_max.2), (b_max.0 as int, b_max.1 as int, -b_min.2)),
    }
}

/// The corners of the box `[b_min, b_max]` mirrored across the plane
/// `axis = 0`: the mirrored axis swaps and negates its ends.
pub fn reflect_extents(b_min: (i32, i32, i32), b_max: (i32, i32, i32), axis: Axis) -> (r: (
    (i32, i32, i32),
    (i32, i32, i32),
))
    requires
        b_min.0 > i32::MIN && b_min.1 > i32::MIN && b_min.2 > i32::MIN,
        b_max.0 > i32::MIN && b_max.1 > i32::MIN && b_max.2 > i32::MIN,
    ensures
        ((r.0.0 as int, r.0.1 as int, r.0.2 as int), (r.1.0 as int, r.1.1 as int, r.1.2 as int))
            == reflect_extents_spec(b_min, b_max, axis),
{
    match axis {
        Axis::X => ((-b_max.0, b_min.1, b_min.2), (-b_min.0, b_max.1, b_max.2)),
        Axis::Y => ((b_min.0, -b_max.1, b_min.2), (b_max.0, -b_min.1, b_max.2)),
        Axis::Z => ((b_min.0, b_min.1, -b_max.2), (b_max.0, b_max.1, -b_min.2)),
    }
}

/// The turn a facing applies: Back a half turn about Y, Left and Right
/// quarter turns about Y, Top and Bottom quarter turns about X.
pub open spec fn facing_spec(f: Facing) -> Placement {
    match f {
        Facing::Front => Placement(SignedAxis::PosX, SignedAxis::PosY, SignedAxis::PosZ),
        Facing::Back => Placement(SignedAxis::NegX, SignedAxis::PosY, SignedAxis::NegZ),
        Facing::Left => Placement(SignedAxis::NegZ, SignedAxis::PosY, SignedAxis::PosX),
        Facing::Right => Placement(SignedAxis::PosZ, SignedAxis::PosY, SignedAxis::NegX),
        Facing::Top => Placement(SignedAxis::PosX, SignedAxis::PosZ, SignedAxis::NegY),
        Facing::Bottom => Placement(SignedAxis::PosX, SignedAxis::NegZ, SignedAxis::PosY),
    }
}

/// The reflection a mirroring applies: X negated, or nothing.
pub open spec fn mirroring_spec(m: Mirroring) -> Placement {
    match m {
        Mirroring::NoMirror => Placement(SignedAxis::PosX, SignedAxis::PosY, SignedAxis::PosZ),
        Mirroring::Mirror => Placement(SignedAxis::NegX, SignedAxis::PosY, SignedAxis::PosZ),
    }
}

/// The turn about Z a rotation applies.
pub open spec fn rotation_spec(r: Rotation) -> Placement {
    match r {
        Rotation::NoRotation => Placement(SignedAxis::PosX, SignedAxis::PosY, SignedAxis::PosZ),
        Rotation::RotateClockwise => Placement(SignedAxis::PosY, SignedAxis::NegX, SignedAxis::PosZ),
        Rotation::RotateHalf => Placement(SignedAxis::NegX, SignedAxis::NegY, SignedAxis::PosZ),
        Rotation::RotateCounter => Placement(SignedAxis::NegY, SignedAxis::PosX, SignedAxis::PosZ),
    }
}

/// The orientation `(facing, mirroring, rotation)` as one placement: the
/// facing first, then the mirroring, then the rotation.
pub open spec fn orientation_placement_spec(f: Facing, m: Mirroring, r: Rotation) -> Placement {
    compose_spec(rotation_spec(r), compose_spec(mirroring_spec(m), facing_spec(f)))
}

fn facing_placement(f: Facing) -> (r: Placement)
    ensures
        r == facing_spec(f),
{
    match f {
        Facing::Front => Placement(SignedAxis::PosX, SignedAxis::PosY, SignedAxis::PosZ),
        Facing::Back => Placement(SignedAxis::NegX, SignedAxis::PosY, SignedAxis::NegZ),
        Facing::Left => Placement(SignedAxis::NegZ, SignedAxis::PosY, SignedAxis::PosX),
        Facing::Right => Placement(SignedAxis::PosZ, SignedAxis::PosY, SignedAxis::NegX),
        Facing::Top => Placement(SignedAxis::PosX, SignedAxis::PosZ, SignedAxis::NegY),
        Facing::Bottom => Placement(SignedAxis::PosX, SignedAxis::NegZ, SignedAxis::PosY),
    }
}

fn mirroring_placement(m: Mirroring) -> (r: Placement)
    ensures
        r == mirroring_spec(m),
{
    match m {
        Mirroring::NoMirror => Placement(SignedAxis::PosX, SignedAxis::PosY, SignedAxis::PosZ),
        Mirroring::Mirror => Placement(SignedAxis::NegX, SignedAxis::PosY, SignedAxis::PosZ),
    }
}

fn rotation_placement(r: Rotation) -> (p: Placement)
    ensures
        p == rotation_spec(r),
{
    match r {
        Rotation::NoRotation => Placement(SignedAxis::PosX, SignedAxis::PosY, SignedAxis::PosZ),
        Rotation::RotateClockwise => Placement(SignedAxis::PosY, SignedAxis::NegX, SignedAxis::PosZ),
        Rotation::RotateHalf => Placement(SignedAxis::NegX, SignedAxis::NegY, SignedAxis::PosZ),
        Rotation::RotateCounter => Placement(SignedAxis::NegY, SignedAxis::PosX, SignedAxis::PosZ),
    }
}

/// The signed-axis placement of an orientation given as facing,
/// mirroring and rotation.
pub fn orientation_placement(f: Facing, m: Mirroring, r: Rotation) -> (p: Placement)
    ensures
        p == orientation_placement_spec(f, m, r),
{
    compose_placements(rotation_placement(r), compose_placements(mirroring_placement(m), facing_placement(f)))
}

} // verus!
