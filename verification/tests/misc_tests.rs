use asset_creator::color::{resolve_tags_color, resolve_tags_emissive, Color3};
use asset_creator::fusion::{build_path, ceil_div, floor_div, is_hidden};
use asset_creator::spec::SpecNode;
use asset_creator::orient::{reflect_extents, Axis, CombineMode, Facing, Mirroring, Rotation};
use asset_creator::palette::{merge_colors, mirror_combinations, resolve_color};
use asset_creator::surface::{
    default_name, default_noise_octaves, default_seed, hash2d_bits, preset_index, preset_names, PatternType,
};

fn tags(t: &[&str]) -> Vec<String> {
    t.iter().map(|s| s.to_string()).collect()
}

#[test]
fn tags_resolve_left_to_right() {
    assert_eq!(resolve_tags_color(&tags(&["RED"])), Color3(3, 0, 0));
    assert_eq!(resolve_tags_color(&tags(&["red", "darken", "darken"])), Color3(1, 0, 0));
    assert_eq!(resolve_tags_color(&tags(&["darken", "Blue", "lighten"])), Color3(1, 1, 3));
    assert_eq!(resolve_tags_color(&tags(&["lighten", "shiny"])), Color3(2, 2, 2));
    assert_eq!(resolve_tags_color(&tags(&["black", "lighten", "lighten", "lighten", "lighten"])), Color3(3, 3, 3));
    assert_eq!(resolve_tags_color(&tags(&["green", "white"])), Color3(3, 3, 3));
    assert_eq!(resolve_tags_color(&[]), Color3(2, 2, 2));
}

#[test]
fn emissive_tag_ignores_case() {
    assert!(resolve_tags_emissive(&tags(&["red", "Emissive"])));
    assert!(!resolve_tags_emissive(&tags(&["emissives"])));
    assert!(!resolve_tags_emissive(&[]));
}

#[test]
fn color_default_is_light_grey() {
    assert_eq!(Color3::default(), Color3(1, 1, 1));
}

#[test]
fn floor_and_ceil_division() {
    assert_eq!(floor_div(7, 2), 3);
    assert_eq!(floor_div(-7, 2), -4);
    assert_eq!(floor_div(-8, 2), -4);
    assert_eq!(ceil_div(7, 2), 4);
    assert_eq!(ceil_div(-7, 2), -3);
    assert_eq!(ceil_div(8, 4), 2);
    assert_eq!(floor_div(i32::MIN, 1), i32::MIN);
    assert_eq!(ceil_div(i32::MAX, 2), 1073741824);
}

#[test]
fn hidden_paths() {
    let hidden = tags(&["body/wheel"]);
    assert!(is_hidden("body/wheel", &hidden));
    assert!(!is_hidden("body", &hidden));
    assert!(!is_hidden("", &tags(&[""])));
}

#[test]
fn palettes_merge_parent_over_child() {
    let parent = vec![("hull".to_string(), Color3(3, 0, 0)), ("trim".to_string(), Color3(0, 0, 3))];
    let child = vec![("glass".to_string(), Color3(0, 3, 3)), ("hull".to_string(), Color3(1, 1, 1))];
    let merged = merge_colors(&parent, &child);
    assert_eq!(
        merged,
        vec![
            ("glass".to_string(), Color3(0, 3, 3)),
            ("hull".to_string(), Color3(3, 0, 0)),
            ("trim".to_string(), Color3(0, 0, 3)),
        ]
    );
    assert_eq!(resolve_color("trim", &merged), Color3(0, 0, 3));
    assert_eq!(resolve_color("missing", &merged), Color3(1, 1, 1));
}

#[test]
fn mirror_combinations_cover_every_subset() {
    let combos = mirror_combinations(&[Axis::X, Axis::Z]);
    let suffixes: Vec<&str> = combos.iter().map(|(_, s)| s.as_str()).collect();
    assert_eq!(suffixes, vec!["", "mx", "mz", "mxz"]);
    assert_eq!(combos[3].0, vec![Axis::X, Axis::Z]);
    assert_eq!(mirror_combinations(&[]).len(), 1);
}

#[test]
fn reflecting_extents_swaps_and_negates_one_axis() {
    assert_eq!(reflect_extents((1, 2, 3), (4, 5, 6), Axis::X), ((-4, 2, 3), (-1, 5, 6)));
    assert_eq!(reflect_extents((1, 2, 3), (4, 5, 6), Axis::Z), ((1, 2, -6), (4, 5, -3)));
}

#[test]
fn enum_defaults() {
    assert_eq!(CombineMode::default(), CombineMode::Union);
    assert_eq!(Facing::default(), Facing::Front);
    assert_eq!(Mirroring::default(), Mirroring::NoMirror);
    assert_eq!(Rotation::default(), Rotation::NoRotation);
    assert_eq!(PatternType::default(), PatternType::Perlin);
}

#[test]
fn surface_presets_and_defaults() {
    let names = preset_names();
    assert_eq!(names.len(), 11);
    assert_eq!(names[0], "Concrete");
    assert_eq!(names[10], "Energy");
    assert_eq!(preset_index("Wood Plank"), Some(4));
    assert_eq!(preset_index("wood plank"), None);
    assert_eq!(default_name(), "unnamed");
    assert_eq!(default_noise_octaves(), 3);
    assert_eq!(default_seed(), 42);
}

fn reference_hash(x: i32, y: i32, seed: u32) -> u32 {
    let mut h = seed;
    h = h.wrapping_add(x as u32).wrapping_mul(0x9E37_79B9);
    h = h.wrapping_add(y as u32).wrapping_mul(0x517C_C1B7);
    h ^= h >> 16;
    h = h.wrapping_mul(0x85EB_CA6B);
    h ^= h >> 13;
    h = h.wrapping_mul(0xC2B2_AE35);
    h ^= h >> 16;
    h & 0x7FFF_FFFF
}

#[test]
fn hash_bits_match_the_mixing_steps() {
    for &(x, y, s) in &[(0, 0, 0u32), (1, 2, 42), (-5, 7, 9), (i32::MIN, i32::MAX, u32::MAX)] {
        assert_eq!(hash2d_bits(x, y, s), reference_hash(x, y, s));
    }
    assert_ne!(hash2d_bits(1, 2, 42), hash2d_bits(2, 1, 42));
}

fn named(name: Option<&str>, import: Option<&str>) -> SpecNode {
    SpecNode {
        name: name.map(|n| n.to_string()),
        bounds: None,
        corner: None,
        clip: None,
        faces: None,
        tags: vec![],
        import: import.map(|n| n.to_string()),
        children: vec![],
        rotate: vec![],
        symmetry: vec![],
        subtract: false,
    }
}

#[test]
fn node_paths_join_effective_names() {
    assert_eq!(build_path("", &named(Some("body"), None)), "body");
    assert_eq!(build_path("body", &named(Some("wheel"), None)), "body/wheel");
    assert_eq!(build_path("body", &named(None, None)), "body");
    assert_eq!(build_path("car", &named(None, Some("parts/wheel"))), "car/wheel");
}
