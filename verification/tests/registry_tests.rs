use asset_creator::bounds::Bounds;
use asset_creator::registry::{shape_key_from_path, shape_name_from_path, AssetRegistry};
use asset_creator::spec::SpecNode;

fn part(name: &str) -> SpecNode {
    SpecNode {
        name: Some(name.into()),
        bounds: Some(Bounds(0, 0, 0, 1, 1, 1)),
        corner: None,
        clip: None,
        faces: None,
        tags: vec![],
        import: None,
        children: vec![],
        rotate: vec![],
        symmetry: vec![],
        subtract: false,
    }
}

fn first_name(parts: Option<&[SpecNode]>) -> Option<String> {
    parts.and_then(|p| p.first()).and_then(|n| n.name.clone())
}

#[test]
fn imports_resolve_by_key_stem_or_trailing_segments() {
    let mut reg = AssetRegistry::default();
    reg.insert_shape("robots/arm.shape.ron".into(), "shapes/robots/arm.shape.ron".into(), vec![part("arm")]);
    reg.insert_shape("legs\\foot.shape.ron".into(), "shapes/legs/foot.shape.ron".into(), vec![part("foot")]);
    assert_eq!(first_name(reg.get_shape("robots/arm.shape.ron")), Some("arm".into()));
    assert_eq!(first_name(reg.get_shape("robots/arm")), Some("arm".into()));
    assert_eq!(first_name(reg.get_shape("arm")), Some("arm".into()));
    assert_eq!(first_name(reg.get_shape("foot")), Some("foot".into()));
    assert!(reg.get_shape("rm").is_none());
    assert!(reg.get_shape("hand").is_none());
}

#[test]
fn insert_replaces_a_shape_with_the_same_key() {
    let mut reg = AssetRegistry::default();
    reg.insert_shape("a.shape.ron".into(), "p1".into(), vec![part("one")]);
    reg.insert_shape("a.shape.ron".into(), "p2".into(), vec![part("two")]);
    assert_eq!(reg.shape_count(), 1);
    assert_eq!(first_name(reg.get_shape("a")), Some("two".into()));
    assert_eq!(reg.shape_entry(0), ("a.shape.ron", "p2"));
    assert_eq!(first_name(reg.get_shape_by_path("p2")), Some("two".into()));
    assert!(reg.get_shape_by_path("p1").is_none());
}

#[test]
fn remove_by_path_drops_the_shape() {
    let mut reg = AssetRegistry::default();
    reg.insert_shape("a.shape.ron".into(), "p1".into(), vec![part("one")]);
    reg.insert_shape("b.shape.ron".into(), "p2".into(), vec![part("two")]);
    assert!(reg.remove_by_path("p1"));
    assert!(!reg.remove_by_path("p1"));
    assert_eq!(reg.shape_count(), 1);
    assert!(reg.get_shape("a").is_none());
}

#[test]
fn errors_are_kept_one_per_path() {
    let mut reg = AssetRegistry::default();
    assert!(!reg.has_errors());
    reg.set_error("x.ron".into(), "bad".into());
    reg.set_error("x.ron".into(), "worse".into());
    reg.set_error("y.ron".into(), "oops".into());
    assert_eq!(reg.errors().len(), 2);
    assert_eq!(reg.errors()[0].message, "worse");
    reg.clear_error_for("x.ron");
    assert_eq!(reg.errors().len(), 1);
    assert_eq!(reg.errors()[0].path, "y.ron");
}

#[test]
fn generation_counts_changes() {
    let mut reg = AssetRegistry::default();
    assert_eq!(reg.shape_generation(), 0);
    reg.bump_shape_generation();
    reg.bump_shape_generation();
    assert_eq!(reg.shape_generation(), 2);
}

#[test]
fn shape_entries_are_sorted_by_key() {
    let mut reg = AssetRegistry::default();
    reg.insert_shape("robots/arm.shape.ron".into(), "data/shapes/robots/arm.shape.ron".into(), vec![part("arm")]);
    reg.insert_shape("car.shape.ron".into(), "data/shapes/car.shape.ron".into(), vec![part("car")]);
    reg.insert_shape("Zed.shape.ron".into(), "data/shapes/Zed.shape.ron".into(), vec![part("z")]);
    reg.insert_shape("robot.shape.ron".into(), "data/shapes/robot.shape.ron".into(), vec![part("r")]);
    let entries = reg.shape_entries();
    let keys: Vec<&str> = entries.iter().map(|(k, _)| k.as_str()).collect();
    assert_eq!(keys, vec!["Zed.shape.ron", "car.shape.ron", "robot.shape.ron", "robots/arm.shape.ron"]);
    assert_eq!(entries[1].1, "data/shapes/car.shape.ron");
}

#[test]
fn surfaces_are_listed_by_sorted_name() {
    let mut reg = AssetRegistry::new();
    assert!(!reg.has_surfaces());
    reg.upsert_surface("rust".into(), "data/surfaces/rust.surface.ron".into());
    reg.upsert_surface("brick".into(), "data/surfaces/brick.surface.ron".into());
    reg.upsert_surface("moss".into(), "data/surfaces/moss.surface.ron".into());
    assert!(reg.has_surfaces());
    assert_eq!(reg.surface_names(), vec!["brick".to_string(), "moss".to_string(), "rust".to_string()]);
    assert_eq!(reg.surface_path("moss"), Some("data/surfaces/moss.surface.ron".to_string()));
    assert_eq!(reg.surface_path("slate"), None);
}

#[test]
fn upserting_a_surface_replaces_its_file() {
    let mut reg = AssetRegistry::new();
    reg.upsert_surface("rust".into(), "old.surface.ron".into());
    reg.upsert_surface("rust".into(), "new.surface.ron".into());
    assert_eq!(reg.surface_names(), vec!["rust".to_string()]);
    assert_eq!(reg.surface_path("rust"), Some("new.surface.ron".to_string()));
}

#[test]
fn removing_a_surface_returns_its_file() {
    let mut reg = AssetRegistry::new();
    reg.upsert_surface("rust".into(), "rust.surface.ron".into());
    assert_eq!(reg.remove_surface("rust"), Some("rust.surface.ron".to_string()));
    assert_eq!(reg.remove_surface("rust"), None);
    assert!(!reg.has_surfaces());
}

#[test]
fn remove_by_path_falls_back_to_surfaces() {
    let mut reg = AssetRegistry::new();
    reg.insert_shape("a.shape.ron".into(), "shared.ron".into(), vec![part("one")]);
    reg.upsert_surface("rust".into(), "shared.ron".into());
    assert!(reg.remove_by_path("shared.ron"));
    assert_eq!(reg.shape_count(), 0);
    assert!(reg.has_surfaces());
    assert!(reg.remove_by_path("shared.ron"));
    assert!(!reg.has_surfaces());
    assert!(!reg.remove_by_path("shared.ron"));
}

#[test]
fn surface_generation_counts_surface_changes() {
    let mut reg = AssetRegistry::new();
    assert_eq!(reg.surface_generation(), 0);
    reg.bump_surface_generation();
    assert_eq!(reg.surface_generation(), 1);
    assert_eq!(reg.shape_generation(), 0);
}

#[test]
fn test_insert_shape_stores_without_a_file() {
    let mut reg = AssetRegistry::new();
    reg.test_insert_shape("shape_a".into(), vec![part("one")]);
    assert_eq!(reg.shape_entry(0), ("shape_a", ""));
    assert_eq!(first_name(reg.get_shape("shape_a")), Some("one".into()));
}

#[test]
fn shape_key_is_the_path_below_the_shapes_folder() {
    assert_eq!(shape_key_from_path("data/shapes/wheel.shape.ron"), "wheel.shape.ron");
    assert_eq!(shape_key_from_path("data/shapes/robots/arm.shape.ron"), "robots/arm.shape.ron");
}

#[test]
fn shape_key_keeps_paths_outside_the_shapes_folder() {
    assert_eq!(shape_key_from_path("other/wheel.shape.ron"), "other/wheel.shape.ron");
    assert_eq!(shape_key_from_path("data/shapesx/a.shape.ron"), "data/shapesx/a.shape.ron");
    assert_eq!(shape_key_from_path("robots\\arm.shape.ron"), "robots/arm.shape.ron");
}

#[test]
fn shape_name_drops_the_extension() {
    assert_eq!(shape_name_from_path("data/shapes/robots/arm.shape.ron"), "robots/arm");
    assert_eq!(shape_name_from_path("data/shapes/notes.txt"), "notes.txt");
}
