use asset_creator::bounds::Bounds;
use asset_creator::csg::{
    all_orientations, cell_subtract, cell_subtract_with_sig, compute_signature, is_cell_inside_primitive,
    CellResult, PrimitiveShape,
};
use asset_creator::orient::{orientation_placement, Facing, Mirroring, Rotation};
use asset_creator::placement::{identity_placement, Placement, SignedAxis};

#[test]
fn box_has_all_samples_inside() {
    let sig = compute_signature(PrimitiveShape::Box, identity_placement());
    assert_eq!(sig, !0u64, "Box should contain every sample point");
}

#[test]
fn wedge_signature_is_a_proper_subset_of_box_signature() {
    let box_sig = compute_signature(PrimitiveShape::Box, identity_placement());
    let wedge_sig = compute_signature(PrimitiveShape::Wedge, identity_placement());
    assert_eq!(box_sig, !0u64);
    assert!(wedge_sig != 0);
    assert!(wedge_sig != box_sig);
    assert_eq!(wedge_sig & box_sig, wedge_sig);
}

#[test]
fn box_minus_identity_wedge_yields_a_wedge() {
    let minuend = (PrimitiveShape::Box, identity_placement());
    let wedge_p = orientation_placement(Facing::default(), Mirroring::default(), Rotation::default());
    let result = cell_subtract(minuend, &[(PrimitiveShape::Wedge, wedge_p)]);
    match result {
        CellResult::Keep { shape, .. } => {
            assert_eq!(shape, PrimitiveShape::Wedge);
        },
        other => panic!("expected Keep(Wedge), got {other:?}"),
    }
}

#[test]
fn box_minus_box_is_empty() {
    let result = cell_subtract(
        (PrimitiveShape::Box, identity_placement()),
        &[(PrimitiveShape::Box, identity_placement())],
    );
    assert!(matches!(result, CellResult::Empty));
}

#[test]
fn box_minus_corner_is_not_representable() {
    let result = cell_subtract(
        (PrimitiveShape::Box, identity_placement()),
        &[(PrimitiveShape::Corner, identity_placement())],
    );
    assert!(matches!(result, CellResult::NotRepresentable { .. }), "got {result:?}");
}

#[test]
fn wedge_and_its_complement_partition_the_cell() {
    let w = compute_signature(PrimitiveShape::Wedge, identity_placement());
    let flipped = Placement(SignedAxis::PosX, SignedAxis::NegY, SignedAxis::NegZ);
    let w2 = compute_signature(PrimitiveShape::Wedge, flipped);
    assert_eq!(w & w2, 0);
    assert_eq!(w | w2, !0u64);
}

#[test]
fn corner_and_inverse_corner_partition_the_cell() {
    let c = compute_signature(PrimitiveShape::Corner, identity_placement());
    let ic = compute_signature(PrimitiveShape::InverseCorner, identity_placement());
    assert_eq!(c & ic, 0);
    assert_eq!(c | ic, !0u64);
    assert!(c.count_ones() > 0);
}

#[test]
fn subtract_with_known_signature() {
    let w = compute_signature(PrimitiveShape::Wedge, identity_placement());
    assert_eq!(cell_subtract_with_sig((PrimitiveShape::Wedge, identity_placement()), w), CellResult::Empty);
    assert_eq!(
        cell_subtract_with_sig((PrimitiveShape::Box, identity_placement()), 0),
        CellResult::Keep { shape: PrimitiveShape::Box, placement: all_orientations()[0] }
    );
}

#[test]
fn there_are_48_distinct_orientations() {
    let all = all_orientations();
    assert_eq!(all.len(), 48);
    for i in 0..all.len() {
        for j in (i + 1)..all.len() {
            assert_ne!(all[i], all[j]);
        }
    }
}

#[test]
fn cells_inside_a_large_wedge() {
    let b = Bounds(0, 0, 0, 2, 2, 2);
    let id = identity_placement();
    assert!(is_cell_inside_primitive(PrimitiveShape::Wedge, id, &b, (0, 0, 0)));
    assert!(is_cell_inside_primitive(PrimitiveShape::Wedge, id, &b, (1, 0, 0)));
    assert!(!is_cell_inside_primitive(PrimitiveShape::Wedge, id, &b, (0, 1, 0)));
    assert!(!is_cell_inside_primitive(PrimitiveShape::Wedge, id, &b, (0, 1, 1)));
    assert!(is_cell_inside_primitive(PrimitiveShape::Box, id, &b, (1, 1, 1)));
}

#[test]
fn orientation_placements_follow_facing_mirroring_rotation() {
    assert_eq!(orientation_placement(Facing::Front, Mirroring::NoMirror, Rotation::NoRotation), identity_placement());
    assert_eq!(
        orientation_placement(Facing::Back, Mirroring::NoMirror, Rotation::NoRotation),
        Placement(SignedAxis::NegX, SignedAxis::PosY, SignedAxis::NegZ)
    );
    assert_eq!(
        orientation_placement(Facing::Front, Mirroring::Mirror, Rotation::RotateHalf),
        Placement(SignedAxis::PosX, SignedAxis::NegY, SignedAxis::PosZ)
    );
}
