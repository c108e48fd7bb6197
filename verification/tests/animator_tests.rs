use asset_creator::animator::ShapeAnimator;

fn names(v: &[&str]) -> Vec<String> {
    v.iter().map(|s| s.to_string()).collect()
}

#[test]
fn animator_plays_the_first_state() {
    let a = ShapeAnimator::new(names(&["idle", "walk", "run"]));
    assert_eq!(a.active_state(), Some(0));
    assert_eq!(a.active_name(), "idle");
}

#[test]
fn animator_without_states_plays_nothing() {
    let mut a = ShapeAnimator::new(vec![]);
    assert_eq!(a.active_state(), None);
    assert_eq!(a.active_name(), "(none)");
    a.cycle_state();
    assert_eq!(a.active_state(), None);
    assert!(!a.take_reset());
}

#[test]
fn cycling_wraps_around_and_asks_for_a_reset() {
    let mut a = ShapeAnimator::new(names(&["idle", "walk", "run"]));
    assert!(!a.take_reset());
    a.cycle_state();
    assert_eq!(a.active_name(), "walk");
    assert!(a.take_reset());
    assert!(!a.take_reset());
    a.cycle_state();
    assert_eq!(a.active_name(), "run");
    a.cycle_state();
    assert_eq!(a.active_name(), "idle");
    assert_eq!(a.active_state(), Some(0));
}
