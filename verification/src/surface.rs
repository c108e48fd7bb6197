//! The integer and naming parts of procedural surfaces: the pattern
//! kinds, the preset catalogue, the defaults of a surface definition,
//! and the integer hash behind per-pixel noise.

use vstd::prelude::*;
use crate::text::{str_eq, to_owned_string};

verus! {

/// The noise pattern a surface is painted with.
#[derive(Clone, Copy, Debug, PartialEq, Eq, Structural)]
pub enum PatternType {
    Perlin,
    Cellular,
    Ridged,
    Stripe,
    Marble,
    Turbulence,
    DomainWarp,
}

impl Default for PatternType {
    /// Perlin noise.
    fn default() -> (r: PatternType)
        ensures
            r == PatternType::Perlin,
    {
        PatternType::Perlin
    }
}

/// The names of the built-in surface presets, in catalogue order.
pub open spec fn preset_names_spec() -> Seq<Seq<char>> {
    seq![
        "Concrete"@,
        "Red Stone"@,
        "Dark Stone"@,
        "Marble"@,
        "Wood Plank"@,
        "Sandstone"@,
        "Metal Plate"@,
        "Brushed Metal"@,
        "Rusted Steel"@,
        "Dark Composite"@,
        "Energy"@,
    ]
}

/// The names of the built-in surface presets.
pub fn preset_names() -> (r: &'static [&'static str])
    ensures
        r@.map_values(|s: &str| s@) == preset_names_spec(),
{
    let r: &'static [&'static str] = &[
        "Concrete",
        "Red Stone",
        "Dark Stone",
        "Marble",
        "Wood Plank",
        "Sandstone",
        "Metal Plate",
        "Brushed Metal",
        "Rusted Steel",
        "Dark Composite",
        "Energy",
    ];
    assert(r@.map_values(|s: &str| s@) =~= preset_names_spec());
    r
}

/// The catalogue position of the preset called `name` (compared
/// exactly), if there is one.
pub fn preset_index(name: &str) -> (r: Option<usize>)
    ensures
        match r {
            Some(i) => i < preset_names_spec().len() && preset_names_spec()[i as int] == name@ && forall|j: int|
                0 <= j < i ==> preset_names_spec()[j] != name@,
            None => forall|j: int| 0 <= j < preset_names_spec().len() ==> preset_names_spec()[j] != name@,
        },
{
    let names = preset_names();
    let ghost views = names@.map_values(|s: &str| s@);
    let mut i: usize = 0;
    while i < names.len()
        invariant
            i <= names@.len(),
            views == names@.map_values(|s: &str| s@),
            views == preset_names_spec(),
            forall|j: int| 0 <= j < i ==> preset_names_spec()[j] != name@,
        decreases names@.len() - i,
    {
        assert(views[i as int] == names@[i as int]@);
        if str_eq(names[i], name) {
            return Some(i);
        }
        i = i + 1;
    }
    None
}

/// The name of a surface definition that gives none.
pub fn default_name() -> (r: String)
    ensures
        r@ == "unnamed"@,
{
    to_owned_string("unnamed")
}

/// The noise octaves of a surface definition that gives none.
pub fn default_noise_octaves() -> (r: u32)
    ensures
        r == 3,
{
    3
}

/// The seed of a surface definition that gives none.
pub fn default_seed() -> (r: u32)
    ensures
        r == 42,
{
    42
}

// =====================================================================
// Integer hash
// =====================================================================

pub open spec fn wrap_add(a: u32, b: u32) -> u32 {
    ((a as int + b as int) % 0x1_0000_0000) as u32
}

pub open spec fn wrap_mul(a: u32, b: u32) -> u32 {
    ((a as int * b as int) % 0x1_0000_0000) as u32
}

/// The two's-complement bits of `x`.
pub open spec fn bits_of(x: i32) -> u32 {
    if x >= 0 {
        x as u32
    } else {
        (x as int + 0x1_0000_0000) as u32
    }
}

/// The 31-bit hash of integer coordinates `(x, y)` under `seed`.
pub open spec fn hash_bits_spec(x: i32, y: i32, seed: u32) -> u32 {
    let h1 = wrap_mul(wrap_add(seed, bits_of(x)), 0x9E37_79B9);
    let h2 = wrap_mul(wrap_add(h1, bits_of(y)), 0x517C_C1B7);
    let h3 = h2 ^ (h2 >> 16u32);
    let h4 = wrap_mul(h3, 0x85EB_CA6B);
    let h5 = h4 ^ (h4 >> 13u32);
    let h6 = wrap_mul(h5, 0xC2B2_AE35);
    let h7 = h6 ^ (h6 >> 16u32);
    h7 & 0x7FFF_FFFF
}

fn bits_exec(x: i32) -> (r: u32)
    ensures
        r == bits_of(x),
{
    if x >= 0 {
        x as u32
    } else {
        let w = x as i64 + 0x1_0000_0000i64;
        w as u32
    }
}

/// The deterministic 31-bit hash of integer coordinates behind
/// per-pixel noise: `hash / 0x7FFF_FFFF` is a value in `[0, 1]`.
pub fn hash2d_bits(x: i32, y: i32, seed: u32) -> (r: u32)
    ensures
        r == hash_bits_spec(x, y, seed),
        r <= 0x7FFF_FFFF,
{
    let mut h = seed;
    h = h.wrapping_add(bits_exec(x)).wrapping_mul(0x9E37_79B9);
    h = h.wrapping_add(bits_exec(y)).wrapping_mul(0x517C_C1B7);
    h = h ^ (h >> 16u32);
    h = h.wrapping_mul(0x85EB_CA6B);
    h = h ^ (h >> 13u32);
    h = h.wrapping_mul(0xC2B2_AE35);
    h = h ^ (h >> 16u32);
    let r = h & 0x7FFF_FFFF;
    assert(r <= 0x7FFF_FFFF) by (bit_vector)
        requires
            r == h & 0x7FFF_FFFF,
    ;
    r
}

} // verus!
