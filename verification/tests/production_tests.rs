use asset_creator::bounds::Bounds;
use asset_creator::color::Color3;
use asset_creator::csg::PrimitiveShape;
use asset_creator::faces::{compute_face_tris, count_triangles_with_face_culling, face_coverage};
use asset_creator::fuse::fuse_boxes;
use asset_creator::placement::{identity_placement, Face, Placement, SignedAxis, SymOp};
use asset_creator::production::production_stats;
use asset_creator::registry::AssetRegistry;
use asset_creator::resolve::{GroupAccumulator, ResolvedPrimitive, SubtractPrimitive, UnionPrimitive};
use asset_creator::spec::SpecNode;

fn leaf_box(name: &str, bounds: Bounds) -> SpecNode {
    SpecNode {
        name: Some(name.to_string()),
        bounds: Some(bounds),
        corner: None,
        clip: None,
        faces: None,
        tags: vec![],
        import: None,
        children: vec![],
        rotate: vec![],
        symmetry: vec![],
        subtract: false,
    }
}

fn tagged(name: &str, bounds: Bounds, tags: &[&str]) -> SpecNode {
    let mut n = leaf_box(name, bounds);
    n.tags = tags.iter().map(|t| t.to_string()).collect();
    n
}

fn unit(shape: PrimitiveShape, x: i32, y: i32, z: i32, orient: Placement) -> ResolvedPrimitive {
    ResolvedPrimitive {
        shape,
        bounds: Bounds(x, y, z, x + 1, y + 1, z + 1),
        orient,
        scale: (1, 1, 1),
        color: Color3(1, 1, 1),
        emissive: false,
        is_mirrored: false,
        subtract_preview: false,
    }
}

#[test]
fn eight_unit_boxes_production_stats_twelve_triangles() {
    let mut parts = Vec::new();
    for z in 0..2 {
        for y in 0..2 {
            for x in 0..2 {
                parts.push(SpecNode {
                    name: Some(format!("b_{x}_{y}_{z}")),
                    bounds: Some(Bounds(x, y, z, x + 1, y + 1, z + 1)),
                    corner: None,
                    clip: None,
                    faces: None,
                    tags: vec!["red".into()],
                    import: None,
                    children: vec![],
                    rotate: vec![],
                    symmetry: vec![],
                    subtract: false,
                });
            }
        }
    }
    let stats = production_stats(&parts, &AssetRegistry::default());
    assert_eq!(stats.triangles, 12, "8 unit boxes should fuse into 12 triangles");
    assert_eq!(stats.draw_calls, 1);
}

#[test]
fn single_stretched_box_is_twelve_triangles() {
    let stats = production_stats(&[leaf_box("b", Bounds(1, 2, 3, 4, 5, 6))], &AssetRegistry::default());
    assert_eq!(stats.triangles, 12);
    assert_eq!(stats.draw_calls, 1);
}

#[test]
fn empty_shape_has_no_triangles_and_no_draw_calls() {
    let stats = production_stats(&[], &AssetRegistry::default());
    assert_eq!(stats.triangles, 0);
    assert_eq!(stats.draw_calls, 0);
}

#[test]
fn adjacent_boxes_of_different_colors_cull_their_shared_face() {
    let parts = vec![
        tagged("a", Bounds(0, 0, 0, 1, 1, 1), &["red"]),
        tagged("b", Bounds(1, 0, 0, 2, 1, 1), &["blue"]),
    ];
    let stats = production_stats(&parts, &AssetRegistry::default());
    assert_eq!(stats.triangles, 20);
    assert_eq!(stats.draw_calls, 1);
}

#[test]
fn emissive_and_normal_parts_take_two_draw_calls() {
    let parts = vec![
        tagged("a", Bounds(0, 0, 0, 1, 1, 1), &["red"]),
        tagged("b", Bounds(5, 0, 0, 6, 1, 1), &["red", "Emissive"]),
    ];
    let stats = production_stats(&parts, &AssetRegistry::default());
    assert_eq!(stats.triangles, 24);
    assert_eq!(stats.draw_calls, 2);
}

#[test]
fn flat_parts_are_dropped() {
    let stats = production_stats(&[leaf_box("flat", Bounds(0, 0, 0, 3, 0, 3))], &AssetRegistry::default());
    assert_eq!(stats.triangles, 0);
    assert_eq!(stats.draw_calls, 0);
}

#[test]
fn subtract_box_removes_the_cells_it_covers() {
    let mut hole = leaf_box("hole", Bounds(1, 0, 0, 2, 1, 1));
    hole.subtract = true;
    let parts = vec![leaf_box("bar", Bounds(0, 0, 0, 2, 1, 1)), hole];
    let stats = production_stats(&parts, &AssetRegistry::default());
    assert_eq!(stats.triangles, 12);
    assert_eq!(stats.draw_calls, 1);
}

#[test]
fn subtract_wedge_leaves_the_other_half_wedge() {
    let mut cut = leaf_box("cut", Bounds(0, 0, 0, 1, 1, 1));
    cut.faces = Some([Face::MinY, Face::MinZ]);
    cut.subtract = true;
    let parts = vec![leaf_box("cube", Bounds(0, 0, 0, 1, 1, 1)), cut];
    let stats = production_stats(&parts, &AssetRegistry::default());
    // A lone wedge: two quads, two triangles and the two-triangle slope.
    assert_eq!(stats.triangles, 8);
}

#[test]
fn transitive_stretching_through_import_keeps_two_boxes() {
    let shape_a = vec![
        leaf_box("spacer", Bounds(-2, -2, -2, 0, 2, 2)),
        leaf_box("leaf", Bounds(0, -2, -2, 2, 2, 2)),
    ];
    let mut registry = AssetRegistry::default();
    registry.insert_shape("shape_a.shape.ron".into(), "shapes/shape_a.shape.ron".into(), shape_a);
    let mut import_node = leaf_box("imported", Bounds(-4, 0, -4, 4, 8, 4));
    import_node.import = Some("shape_a".into());
    let stats = production_stats(&[import_node], &registry);
    // Two stretched boxes sharing one side: five sides each.
    assert_eq!(stats.triangles, 20);
    assert_eq!(stats.draw_calls, 1);
}

#[test]
fn unresolved_import_adds_nothing() {
    let mut import_node = leaf_box("imported", Bounds(0, 0, 0, 2, 2, 2));
    import_node.import = Some("missing".into());
    let stats = production_stats(&[import_node], &AssetRegistry::default());
    assert_eq!(stats.triangles, 0);
    assert_eq!(stats.draw_calls, 0);
}

#[test]
fn identity_wedge_face_triangles() {
    let (ft, non_axis) = compute_face_tris(PrimitiveShape::Wedge, identity_placement());
    assert_eq!(ft, [0, 2, 0, 2, 1, 1]);
    assert_eq!(non_axis, 2);
    let (ft, non_axis) = compute_face_tris(PrimitiveShape::Box, identity_placement());
    assert_eq!(ft, [2; 6]);
    assert_eq!(non_axis, 0);
}

#[test]
fn flipped_corner_face_triangles_follow_the_orientation() {
    let flip_y = Placement(SignedAxis::PosX, SignedAxis::NegY, SignedAxis::PosZ);
    let (ft, non_axis) = compute_face_tris(PrimitiveShape::Corner, flip_y);
    assert_eq!(ft, [1, 0, 0, 1, 0, 1]);
    assert_eq!(non_axis, 1);
}

#[test]
fn face_coverage_masks() {
    assert_eq!(face_coverage(PrimitiveShape::Box, identity_placement()), 0b111111);
    assert_eq!(face_coverage(PrimitiveShape::InverseCorner, identity_placement()), 0b111111);
    assert_eq!(face_coverage(PrimitiveShape::Corner, identity_placement()), 0b101010);
    assert_eq!(face_coverage(PrimitiveShape::Wedge, identity_placement()), 0b111010);
}

#[test]
fn lone_primitives_count_all_their_faces() {
    let id = identity_placement();
    assert_eq!(count_triangles_with_face_culling(&[unit(PrimitiveShape::Box, 0, 0, 0, id)]), 12);
    assert_eq!(count_triangles_with_face_culling(&[unit(PrimitiveShape::Wedge, 0, 0, 0, id)]), 8);
    assert_eq!(count_triangles_with_face_culling(&[unit(PrimitiveShape::Corner, 0, 0, 0, id)]), 4);
    assert_eq!(count_triangles_with_face_culling(&[unit(PrimitiveShape::InverseCorner, 0, 0, 0, id)]), 10);
}

#[test]
fn wedge_beside_box_culls_both_touching_faces() {
    let id = identity_placement();
    let cells = [unit(PrimitiveShape::Box, -1, 0, 0, id), unit(PrimitiveShape::Wedge, 0, 0, 0, id)];
    // The box loses its +X quad, the wedge its -X triangle.
    assert_eq!(count_triangles_with_face_culling(&cells), 10 + 7);
}

#[test]
fn fuse_boxes_merges_same_group_and_passes_others_through() {
    let id = identity_placement();
    let mut other = unit(PrimitiveShape::Box, 0, 0, 0, id);
    other.color = Color3(3, 0, 0);
    other.bounds = Bounds(5, 5, 5, 6, 6, 6);
    let cells = vec![
        unit(PrimitiveShape::Box, 0, 0, 0, id),
        unit(PrimitiveShape::Wedge, 4, 0, 0, id),
        other,
        unit(PrimitiveShape::Box, 1, 0, 0, id),
    ];
    let fused = fuse_boxes(&cells);
    assert_eq!(fused.len(), 3);
    assert_eq!(fused[0].shape, PrimitiveShape::Wedge);
    assert_eq!(fused[1].bounds, Bounds(0, 0, 0, 2, 1, 1));
    assert_eq!(fused[1].color, Color3(1, 1, 1));
    assert_eq!(fused[2].bounds, Bounds(5, 5, 5, 6, 6, 6));
    assert_eq!(fused[2].color, Color3(3, 0, 0));
}

#[test]
fn resolve_keeps_untouched_primitives_whole_and_carves_touched_ones() {
    let id = identity_placement();
    let mut group = GroupAccumulator::new();
    group.union_primitives.push(UnionPrimitive {
        shape: PrimitiveShape::Box,
        world_bounds: Bounds(0, 0, 0, 3, 1, 1),
        orient: id,
        color: Color3(1, 1, 1),
        emissive: false,
        is_mirrored: false,
        scale: (1, 1, 1),
    });
    group.union_primitives.push(UnionPrimitive {
        shape: PrimitiveShape::Box,
        world_bounds: Bounds(10, 0, 0, 12, 2, 2),
        orient: id,
        color: Color3(1, 1, 1),
        emissive: false,
        is_mirrored: false,
        scale: (1, 1, 1),
    });
    group.subtract_primitives.push(SubtractPrimitive {
        shape: PrimitiveShape::Box,
        world_bounds: Bounds(1, 0, 0, 2, 1, 1),
        orient: id,
        scale: (1, 1, 1),
    });
    let resolved = group.resolve();
    assert_eq!(resolved.len(), 3);
    assert_eq!(resolved[0].bounds, Bounds(0, 0, 0, 1, 1, 1));
    assert_eq!(resolved[1].bounds, Bounds(2, 0, 0, 3, 1, 1));
    assert_eq!(resolved[2].bounds, Bounds(10, 0, 0, 12, 2, 2));
}

#[test]
fn mirrored_import_copies_land_apart() {
    let shape_a = vec![leaf_box("cube", Bounds(0, 0, 0, 1, 1, 1))];
    let mut registry = AssetRegistry::default();
    registry.insert_shape("shape_a.shape.ron".into(), "shapes/shape_a.shape.ron".into(), shape_a);
    let mut import_node = leaf_box("imported", Bounds(1, 0, 0, 2, 1, 1));
    import_node.import = Some("shape_a".into());
    import_node.symmetry = vec![SymOp::MirrorX];
    let stats = production_stats(&[import_node], &registry);
    // One cube at x 1..2 and its mirror image at x -2..-1.
    assert_eq!(stats.triangles, 24);
    assert_eq!(stats.draw_calls, 1);
}

#[test]
fn resolve_appends_the_previews_last() {
    let id = identity_placement();
    let mut group = GroupAccumulator::new();
    group.union_primitives.push(UnionPrimitive {
        shape: PrimitiveShape::Box,
        world_bounds: Bounds(0, 0, 0, 2, 1, 1),
        orient: id,
        color: Color3(1, 1, 1),
        emissive: true,
        is_mirrored: false,
        scale: (1, 1, 1),
    });
    group.preview_primitives.push(UnionPrimitive {
        shape: PrimitiveShape::Wedge,
        world_bounds: Bounds(5, 0, 0, 6, 1, 1),
        orient: id,
        color: Color3(2, 2, 2),
        emissive: true,
        is_mirrored: false,
        scale: (1, 1, 1),
    });
    let resolved = group.resolve();
    assert_eq!(resolved.len(), 2);
    assert!(!resolved[0].subtract_preview);
    assert!(resolved[1].subtract_preview);
    assert!(!resolved[1].emissive);
    assert_eq!(resolved[1].bounds, Bounds(5, 0, 0, 6, 1, 1));
}

#[test]
fn previews_neither_count_nor_cover_nor_fuse() {
    let id = identity_placement();
    let a = unit(PrimitiveShape::Box, 0, 0, 0, id);
    let mut p = unit(PrimitiveShape::Box, 1, 0, 0, id);
    p.subtract_preview = true;
    assert_eq!(count_triangles_with_face_culling(&[a, p]), 12);
    let fused = fuse_boxes(&[a, p]);
    assert_eq!(fused.len(), 2);
    assert!(fused[0].subtract_preview);
    assert_eq!(fused[1].bounds, Bounds(0, 0, 0, 1, 1, 1));
}
