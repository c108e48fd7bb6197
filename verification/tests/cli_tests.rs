use asset_creator::cli::{is_stress_test, resolve_from_cli, resolve_initial_shape, ActiveEditor};

fn args(v: &[&str]) -> Vec<String> {
    v.iter().map(|s| s.to_string()).collect()
}

fn object_path(r: Option<ActiveEditor>) -> Option<String> {
    match r {
        Some(ActiveEditor::Object { path }) => Some(path),
        _ => None,
    }
}

#[test]
fn initial_shape_is_the_first_ron_argument() {
    assert_eq!(
        resolve_initial_shape(&args(&["app", "--x", "notes.txt", "data/shapes/a.shape.ron", "b.ron"])),
        Some("data/shapes/a.shape.ron".to_string())
    );
    assert_eq!(resolve_initial_shape(&args(&["app", "-flag.ron"])), None);
    // The program name itself is never taken.
    assert_eq!(resolve_initial_shape(&args(&["prog.ron"])), None);
}

#[test]
fn object_subcommand_opens_the_named_file_or_the_default() {
    assert_eq!(object_path(resolve_from_cli(&args(&["app", "object", "-v", "x.shape.ron"]))), Some("x.shape.ron".into()));
    assert_eq!(
        object_path(resolve_from_cli(&args(&["app", "object"]))),
        Some("data/shapes/scout_bot.shape.ron".into())
    );
}

#[test]
fn a_ron_file_as_first_argument_opens_it() {
    assert_eq!(object_path(resolve_from_cli(&args(&["app", "y.shape.ron"]))), Some("y.shape.ron".into()));
    assert!(resolve_from_cli(&args(&["app", "--y.ron"])).is_none());
    assert!(resolve_from_cli(&args(&["app", "notes.txt", "y.shape.ron"])).is_none());
    assert!(resolve_from_cli(&args(&["app"])).is_none());
}

#[test]
fn default_editor_is_empty() {
    assert!(matches!(ActiveEditor::default(), ActiveEditor::Empty));
}

#[test]
fn stress_test_flag_is_found_anywhere() {
    assert!(is_stress_test(&args(&["app", "x.ron", "--stress-test"])));
    assert!(!is_stress_test(&args(&["app", "--stress"])));
}
