use asset_creator::bounds::Bounds;
use asset_creator::collect::collect_occupancy;
use asset_creator::extent::{aabb_for_parts, remap_bounds_for_parts};
use asset_creator::placement::{Face, SymOp};
use asset_creator::registry::AssetRegistry;
use asset_creator::spec::SpecNode;

fn leaf_spec(bounds: Bounds, symmetry: Vec<SymOp>) -> SpecNode {
    SpecNode {
        name: Some("leaf".into()),
        bounds: Some(bounds),
        corner: None,
        clip: None,
        faces: None,
        tags: vec![],
        import: None,
        children: vec![],
        rotate: vec![],
        symmetry,
        subtract: false,
    }
}

#[test]
fn faces_symmetry_produces_six_distinct_world_cells() {
    let spec = leaf_spec(Bounds(1, -1, -1, 3, 1, 1), vec![SymOp::Rotate90_XY, SymOp::Rotate90_XZ, SymOp::Rotate90_YZ]);
    let occ = collect_occupancy(&[spec], &AssetRegistry::default());
    assert_eq!(occ.collision_count(), 0);
    let aabb = occ.aabb().unwrap();
    assert_eq!(aabb.min(), (-3, -3, -3));
    assert_eq!(aabb.max(), (3, 3, 3));
}

#[test]
fn edges_symmetry_produces_twelve_distinct_world_cells() {
    let spec = leaf_spec(Bounds(-1, 1, 1, 1, 3, 3), vec![SymOp::Rotate90_XY, SymOp::Rotate90_XZ, SymOp::Rotate90_YZ]);
    let occ = collect_occupancy(&[spec], &AssetRegistry::default());
    assert_eq!(occ.collision_count(), 0);
    let aabb = occ.aabb().unwrap();
    assert_eq!(aabb.min(), (-3, -3, -3));
    assert_eq!(aabb.max(), (3, 3, 3));
}

#[test]
fn octants_symmetry_produces_eight_corners() {
    let spec = leaf_spec(Bounds(1, 1, 1, 3, 3, 3), vec![SymOp::MirrorX, SymOp::MirrorY, SymOp::MirrorZ]);
    let occ = collect_occupancy(&[spec], &AssetRegistry::default());
    assert_eq!(occ.collision_count(), 0);
    let aabb = occ.aabb().unwrap();
    assert_eq!(aabb.min(), (-3, -3, -3));
    assert_eq!(aabb.max(), (3, 3, 3));
}

#[test]
fn centered_box_mirror_x_deduplicates() {
    let spec = leaf_spec(Bounds(-1, -1, -1, 1, 1, 1), vec![SymOp::MirrorX]);
    let occ = collect_occupancy(&[spec], &AssetRegistry::default());
    assert_eq!(occ.collision_count(), 0);
}

#[test]
fn off_origin_pair_x_does_not_collide() {
    let spec = leaf_spec(Bounds(2, 0, 0, 3, 1, 1), vec![SymOp::MirrorX]);
    let occ = collect_occupancy(&[spec], &AssetRegistry::default());
    assert_eq!(occ.collision_count(), 0);
    assert_eq!(occ.aabb(), Some(Bounds(-3, 0, 0, 3, 1, 1)));
}

#[test]
fn overlapping_import_placements_are_reported() {
    let mut shape_a_import = leaf_spec(Bounds(0, 0, 0, 3, 3, 3), vec![]);
    shape_a_import.name = Some("a".into());
    shape_a_import.import = Some("dummy_a".into());

    let mut shape_b_import = leaf_spec(Bounds(2, 0, 0, 5, 3, 3), vec![]);
    shape_b_import.name = Some("b".into());
    shape_b_import.import = Some("dummy_b".into());

    let parts = vec![shape_a_import, shape_b_import];
    let occ = collect_occupancy(&parts, &AssetRegistry::default());
    assert_eq!(occ.collision_count(), 9);
}

#[test]
fn non_overlapping_imports_pass() {
    let mut import_a = leaf_spec(Bounds(0, 0, 0, 3, 3, 3), vec![]);
    import_a.name = Some("a".into());
    import_a.import = Some("dummy".into());

    let mut native = leaf_spec(Bounds(-5, 0, 0, -2, 3, 3), vec![]);
    native.name = Some("native".into());

    let parts = vec![import_a, native];
    let occ = collect_occupancy(&parts, &AssetRegistry::default());
    assert_eq!(occ.collision_count(), 0);
}

#[test]
fn collision_names_both_claimants() {
    let mut a = leaf_spec(Bounds(0, 0, 0, 2, 1, 1), vec![]);
    a.name = Some("left".into());
    let mut b = leaf_spec(Bounds(1, 0, 0, 3, 1, 1), vec![]);
    b.name = Some("right".into());
    let occ = collect_occupancy(&[a, b], &AssetRegistry::default());
    assert_eq!(occ.collision_count(), 1);
    let c = &occ.collisions()[0];
    assert_eq!(c.first_path, "left");
    assert_eq!(c.second_path, "right");
    assert_eq!(c.cell, (1, 0, 0));
    assert_eq!(occ.cell_count(), 3);
}

#[test]
fn child_paths_join_with_slash_and_copies_get_suffixes() {
    let mut child = leaf_spec(Bounds(1, 0, 0, 2, 1, 1), vec![SymOp::MirrorX]);
    child.name = Some("wheel".into());
    let mut parent = leaf_spec(Bounds(-1, 0, 0, 1, 1, 1), vec![]);
    parent.name = Some("body".into());
    parent.bounds = None;
    parent.children = vec![child];
    let occ = collect_occupancy(&[parent], &AssetRegistry::default());
    let mut paths: Vec<String> = (0..occ.cell_count()).map(|i| occ.cell_at(i).1.to_string()).collect();
    paths.sort();
    assert_eq!(paths, vec!["body/wheel".to_string(), "body/wheel_1".to_string()]);
}

#[test]
fn subtract_box_removes_covered_cells_and_their_collisions() {
    let a = leaf_spec(Bounds(0, 0, 0, 3, 1, 1), vec![]);
    let mut b = leaf_spec(Bounds(0, 0, 0, 1, 1, 1), vec![]);
    b.name = Some("dup".into());
    let mut hole = leaf_spec(Bounds(0, 0, 0, 1, 1, 1), vec![]);
    hole.name = Some("hole".into());
    hole.subtract = true;
    let occ = collect_occupancy(&[a, b, hole], &AssetRegistry::default());
    // Cell (0,0,0) collided, then was subtracted: both the cell and the
    // collision are gone.
    assert_eq!(occ.cell_count(), 2);
    assert_eq!(occ.collision_count(), 0);
}

#[test]
fn subtract_wedge_keeps_partly_covered_cells() {
    let a = leaf_spec(Bounds(0, 0, 0, 2, 2, 2), vec![]);
    let mut cut = leaf_spec(Bounds(0, 0, 0, 2, 2, 2), vec![]);
    cut.name = Some("cut".into());
    cut.faces = Some([Face::MinY, Face::MinZ]);
    cut.subtract = true;
    let occ = collect_occupancy(&[a, cut], &AssetRegistry::default());
    // The wedge fully covers only the cell at its filled edge; the cells
    // its slope crosses stay.
    assert_eq!(occ.cell_count(), 6);
}

#[test]
fn resolved_import_claims_its_whole_bounds() {
    let mut registry = AssetRegistry::default();
    let inner = leaf_spec(Bounds(0, 0, 0, 2, 2, 2), vec![]);
    registry.insert_shape("parts/cube.shape.ron".into(), "shapes/parts/cube.shape.ron".into(), vec![inner]);
    let mut imp = leaf_spec(Bounds(10, 0, 0, 14, 4, 4), vec![]);
    imp.name = None;
    imp.import = Some("parts/cube".into());
    let occ = collect_occupancy(&[imp], &registry);
    // The import is opaque: its 4×4×4 placement is claimed whole.
    assert_eq!(occ.cell_count(), 64);
    assert_eq!(occ.collision_count(), 0);
    assert_eq!(occ.aabb(), Some(Bounds(10, 0, 0, 14, 4, 4)));
    assert_eq!(occ.cell_at(0).1, "cube");
}

#[test]
fn import_without_bounds_uses_native_extent() {
    let mut registry = AssetRegistry::default();
    let inner = leaf_spec(Bounds(1, 1, 1, 3, 2, 2), vec![]);
    registry.insert_shape("bar.shape.ron".into(), "shapes/bar.shape.ron".into(), vec![inner]);
    let mut imp = leaf_spec(Bounds(0, 0, 0, 1, 1, 1), vec![]);
    imp.bounds = None;
    imp.import = Some("bar".into());
    let occ = collect_occupancy(&[imp], &registry);
    assert_eq!(occ.aabb(), Some(Bounds(1, 1, 1, 3, 2, 2)));
}

#[test]
fn aabb_for_parts_covers_symmetry_copies_and_children() {
    let mut parent = leaf_spec(Bounds(1, 0, 0, 2, 1, 1), vec![SymOp::MirrorX]);
    parent.children = vec![leaf_spec(Bounds(0, 5, 0, 1, 6, 1), vec![])];
    let aabb = aabb_for_parts(&[parent], &AssetRegistry::default());
    assert_eq!(aabb, Some(Bounds(-2, 0, 0, 2, 6, 1)));
    assert_eq!(aabb_for_parts(&[], &AssetRegistry::default()), None);
}

#[test]
fn aabb_for_parts_resolves_unbounded_imports() {
    let mut registry = AssetRegistry::default();
    registry.insert_shape("a.shape.ron".into(), "a.shape.ron".into(), vec![leaf_spec(Bounds(0, 0, 0, 2, 3, 4), vec![])]);
    let mut imp = leaf_spec(Bounds(0, 0, 0, 1, 1, 1), vec![]);
    imp.bounds = None;
    imp.import = Some("a".into());
    assert_eq!(aabb_for_parts(&[imp], &registry), Some(Bounds(0, 0, 0, 2, 3, 4)));
}

#[test]
fn remap_bounds_scales_every_node() {
    let registry = AssetRegistry::default();
    let mut parts = vec![leaf_spec(Bounds(0, 0, 0, 2, 2, 2), vec![])];
    parts[0].children = vec![leaf_spec(Bounds(1, 1, 1, 2, 2, 2), vec![])];
    let from = Bounds(0, 0, 0, 2, 2, 2);
    let to = Bounds(10, 10, 10, 14, 14, 14);
    remap_bounds_for_parts(&mut parts, &from, &to, &registry);
    assert_eq!(parts[0].bounds, Some(Bounds(20, 20, 20, 28, 28, 28)));
    assert_eq!(parts[0].children[0].bounds, Some(Bounds(24, 24, 24, 28, 28, 28)));
}

#[test]
fn import_is_opaque_to_its_siblings() {
    let mut registry = AssetRegistry::default();
    let mut p = leaf_spec(Bounds(0, 0, 0, 1, 1, 1), vec![]);
    p.name = Some("p".into());
    let mut q = leaf_spec(Bounds(2, 0, 0, 3, 1, 1), vec![]);
    q.name = Some("q".into());
    registry.test_insert_shape("hollow".into(), vec![p, q]);
    let mut imp = leaf_spec(Bounds(0, 0, 0, 3, 1, 1), vec![]);
    imp.name = Some("imp".into());
    imp.import = Some("hollow".into());
    let mut mid = leaf_spec(Bounds(1, 0, 0, 2, 1, 1), vec![]);
    mid.name = Some("mid".into());
    let occ = collect_occupancy(&[imp, mid], &registry);
    // The gap inside the imported shape still belongs to the import.
    assert_eq!(occ.collision_count(), 1);
}
