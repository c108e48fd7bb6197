use asset_creator::bounds::Bounds;
use asset_creator::compile::{compile, CompiledShape};
use asset_creator::placement::{Face, SymOp};
use asset_creator::registry::AssetRegistry;
use asset_creator::spec::SpecNode;

fn leaf_box(name: &str, bounds: Bounds) -> SpecNode {
    SpecNode {
        name: Some(name.to_string()),
        bounds: Some(bounds),
        corner: None,
        clip: None,
        faces: None,
        tags: vec![],
        import: None,
        children: vec![],
        rotate: vec![],
        symmetry: vec![],
        subtract: false,
    }
}

fn unnamed(bounds: Bounds) -> SpecNode {
    let mut n = leaf_box("", bounds);
    n.name = None;
    n
}

fn group(name: Option<&str>, children: Vec<SpecNode>) -> SpecNode {
    SpecNode {
        name: name.map(|n| n.to_string()),
        bounds: None,
        corner: None,
        clip: None,
        faces: None,
        tags: vec![],
        import: None,
        children,
        rotate: vec![],
        symmetry: vec![],
        subtract: false,
    }
}

/// The extent of every mesh cell in the tree, in world units.
fn overall_bounds(compiled: &CompiledShape) -> ([f32; 3], [f32; 3]) {
    let mut mn = [f32::INFINITY; 3];
    let mut mx = [f32::NEG_INFINITY; 3];
    walk(compiled, &mut mn, &mut mx);
    (mn, mx)
}

fn walk(node: &CompiledShape, mn: &mut [f32; 3], mx: &mut [f32; 3]) {
    for mesh in &node.meshes {
        for cell in &mesh.cells {
            let lo = [cell.bounds.0, cell.bounds.1, cell.bounds.2];
            let hi = [cell.bounds.3, cell.bounds.4, cell.bounds.5];
            let s = [cell.scale.0, cell.scale.1, cell.scale.2];
            for i in 0..3 {
                let a = lo[i].min(hi[i]) as f32 / s[i] as f32;
                let b = lo[i].max(hi[i]) as f32 / s[i] as f32;
                mn[i] = mn[i].min(a);
                mx[i] = mx[i].max(b);
            }
        }
    }
    for c in &node.children {
        walk(c, mn, mx);
    }
}

fn has_preview(c: &CompiledShape) -> bool {
    c.meshes.iter().any(|m| m.subtract_preview) || c.children.iter().any(has_preview)
}

fn cell_count(node: &CompiledShape) -> usize {
    node.meshes.iter().map(|m| m.cells.len()).sum::<usize>() + node.children.iter().map(cell_count).sum::<usize>()
}

#[test]
fn stretchy_box_renders_single_mesh_spanning_full_bounds() {
    let parts = vec![leaf_box("stretched", Bounds(1, 2, 3, 4, 5, 6))];
    let compiled = compile(&parts, &AssetRegistry::default(), &[]);

    let (mn, mx) = overall_bounds(&compiled);
    assert_eq!(mn, [1.0, 2.0, 3.0]);
    assert_eq!(mx, [4.0, 5.0, 6.0]);
    assert_eq!(cell_count(&compiled), 1);
}

#[test]
fn transitive_stretching_through_nested_import() {
    let shape_a_parts = vec![
        leaf_box("spacer", Bounds(-2, -2, -2, 0, 2, 2)),
        leaf_box("leaf", Bounds(0, -2, -2, 2, 2, 2)),
    ];

    let mut registry = AssetRegistry::default();
    registry.test_insert_shape("shape_a".into(), shape_a_parts);

    let mut import_node = leaf_box("imported", Bounds(-4, 0, -4, 4, 8, 4));
    import_node.import = Some("shape_a".into());
    let shape_b_parts = vec![import_node];

    let compiled = compile(&shape_b_parts, &registry, &[]);

    let (mn, mx) = overall_bounds(&compiled);
    assert_eq!(mn, [-4.0, 0.0, -4.0], "stretched mesh min");
    assert_eq!(mx, [4.0, 8.0, 4.0], "stretched mesh max");
}

#[test]
fn named_nodes_open_child_groups() {
    let parts = vec![group(
        Some("body"),
        vec![leaf_box("arm", Bounds(0, 0, 0, 1, 1, 1)), group(None, vec![leaf_box("leg", Bounds(2, 0, 0, 3, 1, 1))])],
    )];
    let compiled = compile(&parts, &AssetRegistry::default(), &[]);
    assert_eq!(compiled.name, None);
    assert!(compiled.meshes.is_empty());
    assert_eq!(compiled.children.len(), 1);
    let body = &compiled.children[0];
    assert_eq!(body.name.as_deref(), Some("body"));
    assert!(body.meshes.is_empty());
    let names: Vec<_> = body.children.iter().map(|c| c.name.clone().unwrap()).collect();
    assert_eq!(names, vec!["arm".to_string(), "leg".to_string()]);
    assert_eq!(body.children[0].meshes.len(), 1);
    assert_eq!(body.children[0].meshes[0].cells[0].bounds, Bounds(0, 0, 0, 1, 1, 1));
}

#[test]
fn unnamed_nodes_fall_into_the_enclosing_group() {
    let parts = vec![group(None, vec![group(None, vec![]), unnamed(Bounds(0, 0, 0, 2, 1, 1))])];
    let compiled = compile(&parts, &AssetRegistry::default(), &[]);
    assert!(compiled.children.is_empty());
    assert_eq!(compiled.meshes.len(), 1);
    assert_eq!(compiled.meshes[0].cells.len(), 1);
}

#[test]
fn hidden_parts_keep_their_place_without_geometry() {
    let parts = vec![leaf_box("a", Bounds(0, 0, 0, 1, 1, 1)), leaf_box("b", Bounds(2, 0, 0, 3, 1, 1))];
    let compiled = compile(&parts, &AssetRegistry::default(), &["b".to_string()]);
    assert_eq!(compiled.children.len(), 2);
    assert_eq!(compiled.children[0].meshes.len(), 1);
    assert!(compiled.children[1].meshes.is_empty());
    assert_eq!(compiled.children[1].name.as_deref(), Some("b"));
}

#[test]
fn emissive_cells_get_their_own_mesh_after_the_normal_one() {
    let mut glow = unnamed(Bounds(0, 0, 0, 1, 1, 1));
    glow.tags = vec!["emissive".into()];
    let plain = unnamed(Bounds(2, 0, 0, 3, 1, 1));
    let parts = vec![group(None, vec![glow, plain])];
    let compiled = compile(&parts, &AssetRegistry::default(), &[]);
    assert_eq!(compiled.meshes.len(), 2);
    assert!(!compiled.meshes[0].emissive);
    assert_eq!(compiled.meshes[0].cells[0].bounds, Bounds(2, 0, 0, 3, 1, 1));
    assert!(compiled.meshes[1].emissive);
    assert_eq!(compiled.meshes[1].cells[0].bounds, Bounds(0, 0, 0, 1, 1, 1));
}

#[test]
fn subtracts_carve_and_show_a_preview() {
    let mut hole = unnamed(Bounds(1, 0, 0, 2, 1, 1));
    hole.subtract = true;
    let block = unnamed(Bounds(0, 0, 0, 3, 1, 1));
    let compiled = compile(&[block, hole], &AssetRegistry::default(), &[]);
    assert_eq!(compiled.meshes.len(), 2);
    // The block is cut into unit cells; the middle one is carved away.
    let kept: Vec<_> = compiled.meshes[0].cells.iter().map(|c| c.bounds).collect();
    assert_eq!(kept, vec![Bounds(0, 0, 0, 1, 1, 1), Bounds(2, 0, 0, 3, 1, 1)]);
    assert!(compiled.meshes[1].subtract_preview);
    assert_eq!(compiled.meshes[1].cells[0].bounds, Bounds(1, 0, 0, 2, 1, 1));
}

#[test]
fn imported_subtracts_show_no_preview() {
    let mut hole = unnamed(Bounds(0, 0, 0, 1, 1, 1));
    hole.subtract = true;
    let mut registry = AssetRegistry::default();
    registry.test_insert_shape("cutter".into(), vec![leaf_box("base", Bounds(0, 0, 0, 2, 1, 1)), hole]);
    let mut import_node = leaf_box("imported", Bounds(0, 0, 0, 2, 1, 1));
    import_node.import = Some("cutter".into());
    let compiled = compile(&[import_node], &registry, &[]);
    assert!(!has_preview(&compiled));
}

#[test]
fn mirrored_copy_marks_its_mesh() {
    let mut wedge = unnamed(Bounds(1, 0, 0, 2, 1, 1));
    wedge.faces = Some([Face::MinY, Face::MinZ]);
    wedge.symmetry = vec![SymOp::MirrorX];
    let compiled = compile(&[wedge], &AssetRegistry::default(), &[]);
    assert_eq!(compiled.meshes.len(), 1);
    assert_eq!(compiled.meshes[0].cells.len(), 2);
    assert!(compiled.meshes[0].contains_mirrored);
    assert!(!compiled.meshes[0].cells[0].is_mirrored);
    assert!(compiled.meshes[0].cells[1].is_mirrored);
}

#[test]
fn flat_subtract_off_the_cell_grid_carves_the_cells_it_reaches() {
    // Inside the import every coordinate is in half cells, so the flat
    // subtract at x = 1 lies inside world cell 0 and carves it.
    let mut cut = unnamed(Bounds(1, 0, 0, 1, 1, 1));
    cut.subtract = true;
    let mut registry = AssetRegistry::default();
    registry.test_insert_shape("halves".into(), vec![leaf_box("body", Bounds(0, 0, 0, 2, 1, 1)), cut]);
    let mut import_node = leaf_box("imported", Bounds(0, 0, 0, 1, 1, 1));
    import_node.import = Some("halves".into());
    let compiled = compile(&[import_node], &registry, &[]);
    let imported = &compiled.children[0];
    assert_eq!(imported.children.len(), 1);
    assert_eq!(imported.children[0].name.as_deref(), Some("body"));
    assert!(imported.children[0].meshes.is_empty());
}
