//! Cell colors and the material properties named by tags.

use vstd::prelude::*;
use crate::text::{ascii_lower, lower_eq};

verus! {

/// RGB color with integer components in the 0-3 range (0 = 0%,
/// 1 = 33%, 2 = 67%, 3 = 100%).
#[derive(Clone, Copy, Debug, PartialEq, Eq, Hash, Structural)]
pub struct Color3(pub u8, pub u8, pub u8);

impl Default for Color3 {
    /// About 33% grey.
    fn default() -> (r: Color3)
        ensures
            r == Color3(1, 1, 1),
    {
        Color3(1, 1, 1)
    }
}

/// One component one step lighter, at most 3.
pub open spec fn lighter(v: u8) -> u8 {
    if v as int + 1 <= 3 {
        (v + 1) as u8
    } else {
        3
    }
}

/// One component one step darker, at least 0.
pub open spec fn darker(v: u8) -> u8 {
    if v == 0 {
        0
    } else {
        (v - 1) as u8
    }
}

/// The color named by a lower-case tag.
pub open spec fn named_color(t: Seq<char>) -> Option<Color3> {
    if t == "red"@ {
        Some(Color3(3, 0, 0))
    } else if t == "green"@ {
        Some(Color3(0, 3, 0))
    } else if t == "blue"@ {
        Some(Color3(0, 0, 3))
    } else if t == "cyan"@ {
        Some(Color3(0, 3, 3))
    } else if t == "magenta"@ {
        Some(Color3(3, 0, 3))
    } else if t == "yellow"@ {
        Some(Color3(3, 3, 0))
    } else if t == "white"@ {
        Some(Color3(3, 3, 3))
    } else if t == "black"@ {
        Some(Color3(0, 0, 0))
    } else {
        None
    }
}

/// The running color after one tag: a color name sets it, `lighten` and
/// `darken` step an already set color, anything else leaves it.
pub open spec fn tag_step(color: Option<Color3>, tag: Seq<char>) -> Option<Color3> {
    let t = ascii_lower(tag);
    if named_color(t) is Some {
        named_color(t)
    } else if t == "lighten"@ {
        match color {
            Some(c) => Some(Color3(lighter(c.0), lighter(c.1), lighter(c.2))),
            None => None,
        }
    } else if t == "darken"@ {
        match color {
            Some(c) => Some(Color3(darker(c.0), darker(c.1), darker(c.2))),
            None => None,
        }
    } else {
        color
    }
}

/// The running color after the first `n` tags.
pub open spec fn tags_color_upto(tags: Seq<Seq<char>>, n: int) -> Option<Color3>
    decreases n,
{
    if n <= 0 {
        None
    } else {
        tag_step(tags_color_upto(tags, n - 1), tags[n - 1])
    }
}

/// The color a tag list resolves to: grey `Color3(2, 2, 2)` when no tag
/// names a color.
pub open spec fn tags_color_spec(tags: Seq<Seq<char>>) -> Color3 {
    match tags_color_upto(tags, tags.len() as int) {
        Some(c) => c,
        None => Color3(2, 2, 2),
    }
}

fn lighter_exec(v: u8) -> (r: u8)
    ensures
        r == lighter(v),
{
    if v >= 3 {
        3
    } else {
        v + 1
    }
}

fn darker_exec(v: u8) -> (r: u8)
    ensures
        r == darker(v),
{
    if v == 0 {
        0
    } else {
        v - 1
    }
}

fn named_color_exec(t: &str) -> (r: Option<Color3>)
    ensures
        r == named_color(ascii_lower(t@)),
{
    if lower_eq(t, "red") {
        Some(Color3(3, 0, 0))
    } else if lower_eq(t, "green") {
        Some(Color3(0, 3, 0))
    } else if lower_eq(t, "blue") {
        Some(Color3(0, 0, 3))
    } else if lower_eq(t, "cyan") {
        Some(Color3(0, 3, 3))
    } else if lower_eq(t, "magenta") {
        Some(Color3(3, 0, 3))
    } else if lower_eq(t, "yellow") {
        Some(Color3(3, 3, 0))
    } else if lower_eq(t, "white") {
        Some(Color3(3, 3, 3))
    } else if lower_eq(t, "black") {
        Some(Color3(0, 0, 0))
    } else {
        None
    }
}

/// The views of a tag list.
pub open spec fn tag_views(tags: Seq<String>) -> Seq<Seq<char>> {
    tags.map_values(|t: String| t@)
}

/// Resolve an ordered tag list into a color. Tags are processed left to
/// right, compared without regard to ASCII case: a color name sets the
/// base, `lighten` and `darken` step it. Unrecognized tags are skipped.
/// Default grey `Color3(2, 2, 2)` when no tag names a color.
pub fn resolve_tags_color(tags: &[String]) -> (r: Color3)
    ensures
        r == tags_color_spec(tag_views(tags@)),
{
    let ghost tv = tag_views(tags@);
    let mut color: Option<Color3> = None;
    let mut i: usize = 0;
    while i < tags.len()
        invariant
            i <= tags@.len(),
            tv == tag_views(tags@),
            color == tags_color_upto(tv, i as int),
        decreases tags@.len() - i,
    {
        let t = tags[i].as_str();
        assert(tv[i as int] == t@);
        match named_color_exec(t) {
            Some(c) => {
                color = Some(c);
            },
            None => {
                if lower_eq(t, "lighten") {
                    if let Some(c) = color {
                        color = Some(Color3(lighter_exec(c.0), lighter_exec(c.1), lighter_exec(c.2)));
                    }
                } else if lower_eq(t, "darken") {
                    if let Some(c) = color {
                        color = Some(Color3(darker_exec(c.0), darker_exec(c.1), darker_exec(c.2)));
                    }
                }
            },
        }
        i = i + 1;
    }
    match color {
        Some(c) => c,
        None => Color3(2, 2, 2),
    }
}

/// Whether the tag list includes `emissive`, ignoring ASCII case.
pub fn resolve_tags_emissive(tags: &[String]) -> (r: bool)
    ensures
        r == exists|i: int| 0 <= i < tags@.len() && ascii_lower(#[trigger] tags@[i]@) == "emissive"@,
{
    let mut i: usize = 0;
    while i < tags.len()
        invariant
            i <= tags@.len(),
            forall|j: int| 0 <= j < i ==> ascii_lower(#[trigger] tags@[j]@) != "emissive"@,
        decreases tags@.len() - i,
    {
        if lower_eq(tags[i].as_str(), "emissive") {
            return true;
        }
        i = i + 1;
    }
    false
}

} // verus!
