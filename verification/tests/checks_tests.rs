use asset_creator::bounds::Bounds;
use asset_creator::checks::{parts_negatable, walk_ready_check};
use asset_creator::production::production_stats;
use asset_creator::registry::AssetRegistry;
use asset_creator::spec::SpecNode;

fn importer(target: &str) -> SpecNode {
    SpecNode {
        name: None,
        bounds: Some(Bounds(0, 0, 0, 1, 1, 1)),
        corner: None,
        clip: None,
        faces: None,
        tags: vec![],
        import: Some(target.into()),
        children: vec![],
        rotate: vec![],
        symmetry: vec![],
        subtract: false,
    }
}

fn leaf(bounds: Bounds) -> SpecNode {
    let mut n = importer("x");
    n.import = None;
    n.name = Some("leaf".into());
    n.bounds = Some(bounds);
    n
}

#[test]
fn chain_of_imports_is_acyclic() {
    let mut reg = AssetRegistry::default();
    reg.insert_shape("a.shape.ron".into(), "a.shape.ron".into(), vec![importer("b")]);
    reg.insert_shape("b.shape.ron".into(), "b.shape.ron".into(), vec![importer("c")]);
    reg.insert_shape("c.shape.ron".into(), "c.shape.ron".into(), vec![leaf(Bounds(0, 0, 0, 1, 1, 1))]);
    assert!(walk_ready_check(&[importer("a")], &reg));
}

#[test]
fn mutual_imports_are_a_cycle() {
    let mut reg = AssetRegistry::default();
    reg.insert_shape("a.shape.ron".into(), "a.shape.ron".into(), vec![importer("b")]);
    reg.insert_shape("b.shape.ron".into(), "b.shape.ron".into(), vec![importer("a")]);
    assert!(!walk_ready_check(&[importer("a")], &reg));
    assert!(!walk_ready_check(&[importer("b")], &reg));
}

#[test]
fn self_import_is_a_cycle_and_missing_imports_are_not() {
    let mut reg = AssetRegistry::default();
    reg.insert_shape("a.shape.ron".into(), "a.shape.ron".into(), vec![importer("missing")]);
    assert!(walk_ready_check(&[importer("a")], &reg));
    reg.insert_shape("b.shape.ron".into(), "b.shape.ron".into(), vec![importer("b")]);
    assert!(!walk_ready_check(&[importer("b")], &reg));
    assert!(walk_ready_check(&[importer("a")], &reg));
}

#[test]
fn i32_min_coordinates_are_not_negatable() {
    assert!(parts_negatable(&[leaf(Bounds(-5, 0, 0, 5, 1, 1))]));
    let mut parent = leaf(Bounds(0, 0, 0, 1, 1, 1));
    parent.children.push(leaf(Bounds(i32::MIN, 0, 0, 1, 1, 1)));
    assert!(!parts_negatable(&[parent]));
    let mut reg = AssetRegistry::default();
    reg.insert_shape("a.shape.ron".into(), "a.shape.ron".into(), vec![leaf(Bounds(0, 0, i32::MIN, 1, 1, 1))]);
    assert!(!walk_ready_check(&[importer("a")], &reg));
}

#[test]
fn a_cycle_elsewhere_does_not_block_a_walk() {
    let mut reg = AssetRegistry::default();
    reg.insert_shape("a.shape.ron".into(), "a.shape.ron".into(), vec![importer("b")]);
    reg.insert_shape("b.shape.ron".into(), "b.shape.ron".into(), vec![importer("a")]);
    reg.insert_shape("c.shape.ron".into(), "c.shape.ron".into(), vec![leaf(Bounds(0, 0, 0, 1, 1, 1))]);
    assert!(walk_ready_check(&[importer("c")], &reg));
    assert!(walk_ready_check(&[leaf(Bounds(0, 0, 0, 2, 2, 2))], &reg));
    assert!(!walk_ready_check(&[importer("a")], &reg));
    assert!(walk_ready_check(&[importer("missing")], &reg));
}

#[test]
fn a_bad_coordinate_blocks_only_walks_that_reach_it() {
    let mut reg = AssetRegistry::default();
    reg.insert_shape("bad.shape.ron".into(), "bad.shape.ron".into(), vec![leaf(Bounds(i32::MIN, 0, 0, 1, 1, 1))]);
    reg.insert_shape("good.shape.ron".into(), "good.shape.ron".into(), vec![leaf(Bounds(0, 0, 0, 1, 1, 1))]);
    assert!(walk_ready_check(&[importer("good")], &reg));
    assert!(!walk_ready_check(&[importer("bad")], &reg));
}

#[test]
fn a_shape_away_from_a_cycle_still_gets_its_statistics() {
    let mut reg = AssetRegistry::default();
    reg.insert_shape("a.shape.ron".into(), "a.shape.ron".into(), vec![importer("b")]);
    reg.insert_shape("b.shape.ron".into(), "b.shape.ron".into(), vec![importer("a")]);
    reg.insert_shape("c.shape.ron".into(), "c.shape.ron".into(), vec![leaf(Bounds(0, 0, 0, 1, 1, 1))]);
    let parts = [importer("c")];
    assert!(walk_ready_check(&parts, &reg));
    let stats = production_stats(&parts, &reg);
    assert_eq!(stats.triangles, 12);
    assert_eq!(stats.draw_calls, 1);
}
