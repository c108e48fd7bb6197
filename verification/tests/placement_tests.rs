use asset_creator::bounds::{apply_placement_to_bounds, Bounds};
use asset_creator::csg::PrimitiveShape;
use asset_creator::placement::{
    apply_placement_to_cell, compose_orient, compose_placements, identity_placement, Placement, SignedAxis,
    SymOp,
};
use asset_creator::spec::placements;

#[test]
fn identity_placement_is_no_op_on_bounds() {
    let b = Bounds(1, 2, 3, 4, 5, 6);
    assert_eq!(apply_placement_to_bounds(identity_placement(), b), b);
}

#[test]
fn flip_x_placement_negates_x_range() {
    let b = Bounds(1, 2, 3, 4, 5, 6);
    let p = Placement(SignedAxis::NegX, SignedAxis::PosY, SignedAxis::PosZ);
    let result = apply_placement_to_bounds(p, b);
    assert_eq!(result.min(), (-4, 2, 3));
    assert_eq!(result.max(), (-1, 5, 6));
}

#[test]
fn swap_xy_placement_swaps_ranges() {
    let b = Bounds(1, 3, 0, 2, 5, 1);
    let p = Placement(SignedAxis::PosY, SignedAxis::PosX, SignedAxis::PosZ);
    let result = apply_placement_to_bounds(p, b);
    assert_eq!(result.min(), (3, 1, 0));
    assert_eq!(result.max(), (5, 2, 1));
}

#[test]
fn compose_identity_is_identity() {
    let p = Placement(SignedAxis::NegX, SignedAxis::PosZ, SignedAxis::NegY);
    assert_eq!(compose_placements(identity_placement(), p), p);
    assert_eq!(compose_placements(p, identity_placement()), p);
}

#[test]
fn compose_is_associative_on_sample() {
    let a = Placement(SignedAxis::NegX, SignedAxis::PosY, SignedAxis::PosZ);
    let b = Placement(SignedAxis::PosX, SignedAxis::NegY, SignedAxis::PosZ);
    let c = Placement(SignedAxis::PosY, SignedAxis::PosX, SignedAxis::PosZ);

    let ab_then_c = compose_placements(c, compose_placements(b, a));
    let a_then_bc = compose_placements(compose_placements(c, b), a);
    assert_eq!(ab_then_c, a_then_bc);
}

#[test]
fn symmetry_placements_correct_counts() {
    let id = identity_placement();
    assert_eq!(placements(&[], None, None, id).len(), 1);
    assert_eq!(placements(&[SymOp::MirrorX], None, None, id).len(), 2);
    assert_eq!(placements(&[SymOp::MirrorX, SymOp::MirrorY, SymOp::MirrorZ], None, None, id).len(), 8);
    assert_eq!(placements(&[SymOp::MirrorX, SymOp::Rotate90_XZ], None, None, id).len(), 4);
    assert_eq!(placements(&[SymOp::MirrorY, SymOp::Rotate90_XY], None, None, id).len(), 4);
    assert_eq!(placements(&[SymOp::MirrorZ, SymOp::Rotate90_YZ], None, None, id).len(), 4);
    let rot = &[SymOp::Rotate90_XY, SymOp::Rotate90_XZ, SymOp::Rotate90_YZ];
    assert_eq!(placements(rot, Some(Bounds(1, -1, -1, 3, 1, 1)), Some(PrimitiveShape::Box), id).len(), 6);
    assert_eq!(placements(rot, Some(Bounds(-1, 1, 1, 1, 3, 3)), Some(PrimitiveShape::Wedge), id).len(), 12);
}

#[test]
fn placement_copies_are_named_by_index() {
    let id = identity_placement();
    let copies = placements(&[SymOp::MirrorX, SymOp::MirrorY], None, None, id);
    let suffixes: Vec<&str> = copies.iter().map(|(_, s)| s.as_str()).collect();
    assert_eq!(suffixes, vec!["", "_1", "_2", "_3"]);
    assert_eq!(copies[0].0, id);
}

#[test]
fn composing_applies_inner_first() {
    let outer = Placement(SignedAxis::PosY, SignedAxis::PosX, SignedAxis::PosZ);
    let inner = Placement(SignedAxis::NegX, SignedAxis::PosY, SignedAxis::PosZ);
    let composed = compose_placements(outer, inner);
    let b = Bounds(1, 2, 3, 4, 5, 6);
    assert_eq!(
        apply_placement_to_bounds(composed, b),
        apply_placement_to_bounds(outer, apply_placement_to_bounds(inner, b))
    );
}

#[test]
fn mirror_twice_is_identity() {
    let m = SymOp::MirrorX.to_placement();
    assert_eq!(compose_placements(m, m), identity_placement());
    let r = SymOp::Rotate90_XY.to_placement();
    assert_eq!(compose_placements(r, r), SymOp::Rotate180_XY.to_placement());
}

#[test]
fn rotate_sequence_composes_left_to_right() {
    let p = compose_orient(&[SymOp::Rotate90_XY, SymOp::MirrorX]);
    let expected = compose_placements(SymOp::MirrorX.to_placement(), SymOp::Rotate90_XY.to_placement());
    assert_eq!(p, expected);
    assert_eq!(compose_orient(&[]), identity_placement());
}

#[test]
fn cell_mirror_maps_cell_zero_to_minus_one() {
    let p = Placement(SignedAxis::NegX, SignedAxis::PosY, SignedAxis::PosZ);
    assert_eq!(apply_placement_to_cell(p, (0, 4, 5)), (-1, 4, 5));
    assert_eq!(apply_placement_to_cell(p, (-1, 4, 5)), (0, 4, 5));
}

#[test]
fn signed_axis_helpers() {
    assert_eq!(SignedAxis::NegY.axis_index(), 1);
    assert!(!SignedAxis::NegY.is_positive());
    assert_eq!(SignedAxis::NegY.negate(), SignedAxis::PosY);
    assert_eq!(SignedAxis::PosZ.negate(), SignedAxis::NegZ);
}

#[test]
fn bounds_size_min_max_and_remap() {
    let b = Bounds(4, 1, -2, 0, 3, 2);
    assert_eq!(b.size(), (4, 2, 4));
    assert_eq!(b.min(), (0, 1, -2));
    assert_eq!(b.max(), (4, 3, 2));
    // Remap from a 4-wide source onto an 8-wide target: units scaled by 4.
    let from = Bounds(0, 0, 0, 4, 4, 4);
    let to = Bounds(-4, 0, -4, 4, 8, 4);
    let r = Bounds(0, 0, 0, 2, 4, 4).remap(&from, &to);
    assert_eq!(r, Bounds(-16, 0, -16, 0, 32, 16));
    assert_eq!(Bounds::remap_scale(&from), (4, 4, 4));
    assert_eq!(Bounds::remap_scale(&Bounds(0, 0, 0, 0, 2, 3)), (1, 2, 3));
    // Zero source extent maps everything to the target minimum.
    let flat = Bounds(1, 1, 1, 1, 2, 2);
    assert_eq!(Bounds(1, 1, 1, 1, 2, 2).remap(&flat, &to).0, -4);
}

#[test]
fn two_quarter_turns_generate_all_cube_rotations() {
    let r = placements(
        &[SymOp::Rotate90_XY, SymOp::Rotate90_YZ],
        Some(Bounds(1, 2, 3, 2, 4, 7)),
        Some(PrimitiveShape::Box),
        identity_placement(),
    );
    assert_eq!(r.len(), 24);
    assert_eq!(r[0].0, identity_placement());
    assert_eq!(r[0].1, "");
    assert_eq!(r[23].1, "_23");
}
