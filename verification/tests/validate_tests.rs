use asset_creator::bounds::Bounds;
use asset_creator::spec::SpecNode;
use asset_creator::validate::{validate_parts, PartIssue};

fn node(name: Option<&str>, bounds: Option<Bounds>, children: Vec<SpecNode>) -> SpecNode {
    SpecNode {
        name: name.map(|n| n.to_string()),
        bounds,
        corner: None,
        clip: None,
        faces: None,
        tags: vec![],
        import: None,
        children,
        rotate: vec![],
        symmetry: vec![],
        subtract: false,
    }
}

const UNIT: Bounds = Bounds(0, 0, 0, 1, 1, 1);

#[test]
fn clean_tree_has_no_issues() {
    let parts = vec![
        node(Some("body"), Some(UNIT), vec![node(Some("a"), Some(UNIT), vec![]), node(Some("b"), Some(UNIT), vec![])]),
        node(Some("head"), Some(UNIT), vec![]),
    ];
    assert!(validate_parts(&parts).is_empty());
}

#[test]
fn duplicate_top_level_names_are_reported_once_per_repeat() {
    let parts = vec![
        node(Some("a"), Some(UNIT), vec![]),
        node(Some("a"), Some(UNIT), vec![]),
        node(Some("a"), Some(UNIT), vec![]),
    ];
    let issues = validate_parts(&parts);
    assert_eq!(issues.len(), 2);
    for issue in &issues {
        match issue {
            PartIssue::DuplicateName { path, name } => {
                assert!(path.is_none());
                assert_eq!(name, "a");
            }
            other => panic!("unexpected {other:?}"),
        }
    }
}

#[test]
fn unnamed_geometry_is_reported_only_at_the_top_level() {
    let parts = vec![
        node(None, Some(UNIT), vec![node(None, Some(UNIT), vec![])]),
        node(None, None, vec![]),
    ];
    let issues = validate_parts(&parts);
    assert_eq!(issues.len(), 1);
    assert!(matches!(issues[0], PartIssue::Unnamed));
}

#[test]
fn nested_issues_carry_the_parent_path() {
    let mut both = node(Some("x"), Some(UNIT), vec![]);
    both.import = Some("lib/thing".into());
    let dup = node(Some("thing"), Some(UNIT), vec![]);
    let parts = vec![node(Some("root"), None, vec![node(None, None, vec![both, dup])])];
    let issues = validate_parts(&parts);
    assert_eq!(issues.len(), 1);
    match &issues[0] {
        PartIssue::NameAndImport { path, name, import } => {
            assert_eq!(path.as_deref(), Some("root"));
            assert_eq!(name, "x");
            assert_eq!(import, "lib/thing");
        }
        other => panic!("unexpected {other:?}"),
    }
}

#[test]
fn imports_count_by_their_last_segment() {
    let mut imported = node(None, Some(UNIT), vec![]);
    imported.import = Some("lib/wheel".into());
    let parts = vec![node(Some("car"), None, vec![node(Some("wheel"), Some(UNIT), vec![]), imported])];
    let issues = validate_parts(&parts);
    assert_eq!(issues.len(), 1);
    match &issues[0] {
        PartIssue::DuplicateName { path, name } => {
            assert_eq!(path.as_deref(), Some("car"));
            assert_eq!(name, "wheel");
        }
        other => panic!("unexpected {other:?}"),
    }
}
