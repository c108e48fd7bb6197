use asset_creator::bounds::Bounds;
use asset_creator::edits::{insert_at_path, remove_at_path, reset_working_on_shape_switch, CommandHistory, WorkingShape};
use asset_creator::registry::AssetRegistry;
use asset_creator::spec::SpecNode;

fn node(name: &str, children: Vec<SpecNode>) -> SpecNode {
    SpecNode {
        name: Some(name.into()),
        bounds: Some(Bounds(0, 0, 0, 1, 1, 1)),
        corner: None,
        clip: None,
        faces: None,
        tags: vec!["red".into()],
        import: None,
        children,
        rotate: vec![],
        symmetry: vec![],
        subtract: false,
    }
}

fn names(parts: &[SpecNode]) -> Vec<String> {
    let mut out = Vec::new();
    for p in parts {
        out.push(p.name.clone().unwrap_or_default());
        for c in names(&p.children) {
            out.push(format!("{}/{}", p.name.clone().unwrap_or_default(), c));
        }
    }
    out
}

fn sample() -> Vec<SpecNode> {
    vec![
        node("chassis", vec![node("wheel", vec![]), node("axle", vec![])]),
        node("cab", vec![]),
    ]
}

#[test]
fn remove_nested_node_reports_parent_and_index() {
    let mut parts = sample();
    let (parent, idx, removed) = remove_at_path(&mut parts, "chassis/axle").unwrap();
    assert_eq!(parent, "chassis");
    assert_eq!(idx, 1);
    assert_eq!(removed.name.as_deref(), Some("axle"));
    assert_eq!(names(&parts), vec!["chassis", "chassis/wheel", "cab"]);
}

#[test]
fn remove_top_level_node_has_empty_parent() {
    let mut parts = sample();
    let (parent, idx, removed) = remove_at_path(&mut parts, "cab").unwrap();
    assert_eq!(parent, "");
    assert_eq!(idx, 1);
    assert_eq!(removed.name.as_deref(), Some("cab"));
}

#[test]
fn remove_missing_path_changes_nothing() {
    let mut parts = sample();
    assert!(remove_at_path(&mut parts, "chassis/door").is_none());
    assert!(remove_at_path(&mut parts, "").is_none());
    assert!(remove_at_path(&mut parts, "nothing/wheel").is_none());
    assert_eq!(names(&parts), names(&sample()));
}

#[test]
fn insert_clamps_index_and_fails_on_missing_parent() {
    let mut parts = sample();
    assert!(insert_at_path(&mut parts, "chassis", 99, node("spare", vec![])));
    assert_eq!(names(&parts), vec!["chassis", "chassis/wheel", "chassis/axle", "chassis/spare", "cab"]);
    assert!(!insert_at_path(&mut parts, "missing", 0, node("x", vec![])));
    assert!(insert_at_path(&mut parts, "", 0, node("first", vec![])));
    assert_eq!(names(&parts)[0], "first");
}

#[test]
fn removing_then_inserting_restores_the_parts() {
    let mut parts = sample();
    let before = names(&parts);
    let (parent, idx, removed) = remove_at_path(&mut parts, "chassis/wheel").unwrap();
    assert!(insert_at_path(&mut parts, &parent, idx, removed));
    assert_eq!(names(&parts), before);
    assert_eq!(parts[0].children[0].tags, vec!["red".to_string()]);
}

#[test]
fn delete_then_undo_then_redo() {
    let mut parts = sample();
    let before = names(&parts);
    let mut history = CommandHistory::new();
    assert!(history.delete(&mut parts, "chassis"));
    assert_eq!(names(&parts), vec!["cab"]);
    assert!(history.undo(&mut parts));
    assert_eq!(names(&parts), before);
    assert!(!history.undo(&mut parts));
    assert!(history.redo(&mut parts));
    assert_eq!(names(&parts), vec!["cab"]);
    assert!(!history.redo(&mut parts));
}

#[test]
fn failed_delete_records_nothing() {
    let mut parts = sample();
    let mut history = CommandHistory::new();
    assert!(!history.delete(&mut parts, "ghost"));
    assert!(!history.undo(&mut parts));
    history.clear();
    assert!(!history.redo(&mut parts));
}

#[test]
fn cloned_node_has_the_same_content() {
    let a = node("chassis", vec![node("wheel", vec![])]);
    let b = a.clone();
    assert_eq!(names(&[a]), names(&[b]));
}

#[test]
fn switching_shape_loads_a_fresh_working_copy() {
    let mut registry = AssetRegistry::new();
    registry.insert_shape("a.shape.ron".into(), "data/shapes/a.shape.ron".into(), sample());
    let mut working = WorkingShape::new();
    let mut history = CommandHistory::new();

    assert!(reset_working_on_shape_switch(Some("data/shapes/a.shape.ron"), &mut working, &mut history, &registry));
    assert_eq!(names(&working.parts), names(&sample()));
    assert_eq!(working.path.as_deref(), Some("data/shapes/a.shape.ron"));

    assert!(history.delete(&mut working.parts, "chassis"));
    working.dirty = true;
    // Same shape again: nothing changes.
    assert!(!reset_working_on_shape_switch(Some("data/shapes/a.shape.ron"), &mut working, &mut history, &registry));
    assert!(working.dirty);
    assert_ne!(names(&working.parts), names(&sample()));

    // Another file that is not loaded: empty copy, clean, no history.
    assert!(reset_working_on_shape_switch(Some("data/shapes/b.shape.ron"), &mut working, &mut history, &registry));
    assert!(working.parts.is_empty());
    assert!(!working.dirty);
    assert!(!history.undo(&mut working.parts));

    assert!(reset_working_on_shape_switch(None, &mut working, &mut history, &registry));
    assert_eq!(working.path, None);
}

#[test]
fn undo_restores_a_path_under_the_unnamed_top_node() {
    let mut parts = vec![node("", vec![node("a", vec![node("b", vec![])])])];
    let before = names(&parts);
    let (parent, idx, removed) = remove_at_path(&mut parts, "/a/b").unwrap();
    assert_eq!(parent, "/a");
    assert_eq!(idx, 0);
    assert_eq!(names(&parts), vec!["", "/a"]);
    assert!(insert_at_path(&mut parts, &parent, idx, removed));
    assert_eq!(names(&parts), before);
}
