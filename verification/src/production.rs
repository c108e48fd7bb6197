//! Production statistics: triangle and draw call counts of the fully
//! fused shape.
//!
//! The whole shape is walked into one flat group by the walk that
//! compiles shapes (named nodes open no groups of their own): union
//! primitives are recorded with their world bounds, imports are inlined
//! with their bounds remapped into the import's bounds and the scale
//! multiplied accordingly, and the subtracts of the top-level tree carve
//! the unions. The result is resolved, its unit boxes fused, and its
//! triangles counted after face culling.
//!
//! This module also holds what that walk shares: the bounds a node has
//! inside an import, the union primitive a node records, and the
//! collection of subtract primitives.

use vstd::prelude::*;
use crate::bounds::{apply_bounds_spec, apply_placement_to_bounds, extent, imax, imin, negatable, remap_fits, remap_spec, Bounds};
use crate::collect::{
    imports_below, lemma_ready, lemma_ready_entry, node_ok, node_placements, parts_ok, ranked, ready_bound, ready_rank,
    walk_ready,
};
use crate::color::{tag_views, tags_color_spec};
use crate::compile::{copy_subs, cparts_spec, empty_group, group_view, views_of, walk_parts, CompiledView, GroupView};
use crate::csg::PrimitiveShape;
use crate::extent::{aabb_for_parts, resolved_bounds};
use crate::faces::{count_triangles_with_face_culling, triangle_total};
use crate::fuse::{fuse_boxes, fuse_spec};
use crate::placement::{
    compose_orient, compose_placements, compose_spec, faces_placement_spec, faces_to_placement, identity_placement, identity_spec,
    is_mirrored, mirrored, Placement,
};
use crate::registry::{keys_of, lemma_resolve_index, resolve_index, AssetRegistry, ShapeEntry};
use crate::resolve::{group_resolve_spec, resolve_spec, scale_ok, subs_ok, GroupAccumulator, ResolvedPrimitive, SubtractPrimitive, UnionPrimitive};
use crate::spec::{effective_name_spec, orient_placement_spec, placements, placements_spec, primitive_spec, SpecNode};
use crate::text::{ascii_lower, str_eq};

verus! {

// =====================================================================
// Bounds under an import's remap
// =====================================================================

/// The bounds a node carries in the walk. Outside imports they are its
/// own bounds. Inside an import they are its resolved bounds remapped
/// from the imported shape's native bounds to the import's bounds; a
/// coordinate that would leave the `i32` range, or land on `i32::MIN`,
/// leaves the node without bounds.
pub open spec fn eff_bounds(entries: Seq<ShapeEntry>, n: SpecNode, remap: Option<(Bounds, Bounds)>) -> Option<Bounds> {
    match remap {
        None => n.bounds,
        Some((from, to)) => match resolved_bounds(entries, n) {
            Some(b) => if remap_fits(b, from, to) && negatable(remap_spec(b, from, to)) {
                Some(remap_spec(b, from, to))
            } else {
                None
            },
            None => None,
        },
    }
}

/// The node as the walk sees it: with its effective bounds.
pub open spec fn eff_node(entries: Seq<ShapeEntry>, n: SpecNode, remap: Option<(Bounds, Bounds)>) -> SpecNode {
    SpecNode { bounds: eff_bounds(entries, n, remap), ..n }
}

/// The primitive a node's faces describe, were it to have bounds.
pub open spec fn shape_of(n: SpecNode) -> (PrimitiveShape, Placement) {
    if n.corner is Some {
        (PrimitiveShape::Corner, faces_placement_spec(n.corner->0@))
    } else if n.clip is Some {
        (PrimitiveShape::InverseCorner, faces_placement_spec(n.clip->0@))
    } else if n.faces is Some {
        (PrimitiveShape::Wedge, faces_placement_spec(n.faces->0@))
    } else {
        (PrimitiveShape::Box, identity_spec())
    }
}

pub(crate) fn shape_of_exec(n: &SpecNode) -> (r: (PrimitiveShape, Placement))
    ensures
        r == shape_of(*n),
{
    if let Some(f) = &n.corner {
        (PrimitiveShape::Corner, faces_to_placement(f.as_slice()))
    } else if let Some(f) = &n.clip {
        (PrimitiveShape::InverseCorner, faces_to_placement(f.as_slice()))
    } else if let Some(f) = &n.faces {
        (PrimitiveShape::Wedge, faces_to_placement(f.as_slice()))
    } else {
        (PrimitiveShape::Box, identity_placement())
    }
}

pub(crate) proof fn lemma_eff_primitive(entries: Seq<ShapeEntry>, n: SpecNode, remap: Option<(Bounds, Bounds)>)
    ensures
        primitive_spec(eff_node(entries, n, remap)) == if eff_bounds(entries, n, remap) is Some {
            Some(shape_of(n))
        } else {
            None
        },
{
}

fn in_i32_wide(x: i128) -> (r: bool)
    ensures
        r == (i32::MIN <= x <= i32::MAX),
{
    i32::MIN as i128 <= x && x <= i32::MAX as i128
}

/// Extent on axis `k`, widened.
fn extent_of(b: &Bounds, k: usize) -> (r: i128)
    requires
        k < 3,
    ensures
        r == extent(*b, k as int),
        0 <= r < 0x1_0000_0000,
{
    let (a, c) = if k == 0 {
        (b.0, b.3)
    } else if k == 1 {
        (b.1, b.4)
    } else {
        (b.2, b.5)
    };
    if a <= c {
        c as i128 - a as i128
    } else {
        a as i128 - c as i128
    }
}

fn min_of(b: &Bounds, k: usize) -> (r: i128)
    requires
        k < 3,
    ensures
        r == crate::bounds::lo(*b, k as int),
        i32::MIN <= r <= i32::MAX,
{
    let m = b.min();
    if k == 0 {
        m.0 as i128
    } else if k == 1 {
        m.1 as i128
    } else {
        m.2 as i128
    }
}

/// Does one remapped coordinate stay within `i32` at every step?
fn axis_fits(val: i32, from_min: i128, from_size: i128, to_min: i128, to_size: i128) -> (r: bool)
    requires
        0 <= from_size < 0x1_0000_0000,
        0 <= to_size < 0x1_0000_0000,
        i32::MIN <= from_min <= i32::MAX,
        i32::MIN <= to_min <= i32::MAX,
    ensures
        r == crate::bounds::remap_axis_fits(val as int, from_min as int, from_size as int, to_min as int, to_size as int),
{
    if from_size == 0 {
        return true;
    }
    assert(-0x1_0000_0000_0000_0000 <= to_min * from_size <= 0x1_0000_0000_0000_0000) by (nonlinear_arith)
        requires
            0 <= from_size < 0x1_0000_0000,
            -0x1_0000_0000 <= to_min <= 0x1_0000_0000,
    ;
    let a = to_min * from_size;
    let d = val as i128 - from_min;
    assert(-0x2_0000_0000_0000_0000 <= d * to_size <= 0x2_0000_0000_0000_0000) by (nonlinear_arith)
        requires
            0 <= to_size < 0x1_0000_0000,
            -0x2_0000_0000 <= d <= 0x2_0000_0000,
    ;
    let m = d * to_size;
    in_i32_wide(a) && in_i32_wide(d) && in_i32_wide(m) && in_i32_wide(a + m)
}

/// Does remapping `b` from `from` to `to` stay within `i32`?
fn remap_fits_exec(b: &Bounds, from: &Bounds, to: &Bounds) -> (r: bool)
    ensures
        r == remap_fits(*b, *from, *to),
{
    let fx = extent_of(from, 0);
    let fy = extent_of(from, 1);
    let fz = extent_of(from, 2);
    let tx = extent_of(to, 0);
    let ty = extent_of(to, 1);
    let tz = extent_of(to, 2);
    let max = i32::MAX as i128;
    if fx > max || fy > max || fz > max || tx > max || ty > max || tz > max {
        return false;
    }
    let (fmx, fmy, fmz) = (min_of(from, 0), min_of(from, 1), min_of(from, 2));
    let (tmx, tmy, tmz) = (min_of(to, 0), min_of(to, 1), min_of(to, 2));
    axis_fits(b.0, fmx, fx, tmx, tx) && axis_fits(b.1, fmy, fy, tmy, ty) && axis_fits(b.2, fmz, fz, tmz, tz)
        && axis_fits(b.3, fmx, fx, tmx, tx) && axis_fits(b.4, fmy, fy, tmy, ty) && axis_fits(
        b.5,
        fmz,
        fz,
        tmz,
        tz,
    )
}

fn negatable_exec(b: &Bounds) -> (r: bool)
    ensures
        r == negatable(*b),
{
    b.0 > i32::MIN && b.1 > i32::MIN && b.2 > i32::MIN && b.3 > i32::MIN && b.4 > i32::MIN && b.5 > i32::MIN
}

/// The bounds the walk gives a node.
/// The shape an import node resolves to, if any, is ready to be walked
/// and has negatable bounds everywhere.
pub open spec fn import_ready(entries: Seq<ShapeEntry>, node: SpecNode) -> bool {
    node.import is Some ==> {
        let k = resolve_index(keys_of(entries), node.import->0@);
        0 <= k < entries.len() ==> walk_ready(entries, entries[k].parts@) && parts_ok(entries[k].parts@)
    }
}

/// Under a rank that orders what the walk of `node` reaches, the shape
/// `node` imports is ready.
pub proof fn lemma_import_ready_ranked(entries: Seq<ShapeEntry>, node: SpecNode, rank: spec_fn(int) -> nat, bound: int)
    requires
        ranked(entries, rank),
        imports_below(keys_of(entries), node, rank, bound),
    ensures
        import_ready(entries, node),
{
    if node.import is Some {
        let k = resolve_index(keys_of(entries), node.import->0@);
        if 0 <= k < entries.len() {
            lemma_ready_entry(entries, rank, k);
        }
    }
}

pub(crate) fn effective_bounds(node: &SpecNode, remap: Option<(Bounds, Bounds)>, registry: &AssetRegistry) -> (r: Option<Bounds>)
    requires
        node_ok(*node),
        import_ready(registry.entries(), *node),
    ensures
        r == eff_bounds(registry.entries(), *node, remap),
        r matches Some(b) ==> negatable(b),
{
    let ghost entries = registry.entries();
    match remap {
        None => node.bounds,
        Some((from, to)) => {
            let base = match (&node.bounds, &node.import) {
                (None, Some(name)) => {
                    let ghost k = resolve_index(keys_of(entries), name@);
                    match registry.get_shape(name.as_str()) {
                        Some(parts) => {
                            proof {
                                lemma_resolve_index(keys_of(entries), name@);
                            }
                            aabb_for_parts(parts, registry)
                        },
                        None => None,
                    }
                },
                _ => node.bounds,
            };
            assert(base == resolved_bounds(entries, *node));
            match base {
                Some(b) => {
                    if remap_fits_exec(&b, &from, &to) {
                        let r = b.remap(&from, &to);
                        if negatable_exec(&r) {
                            Some(r)
                        } else {
                            None
                        }
                    } else {
                        None
                    }
                },
                None => None,
            }
        },
    }
}

// =====================================================================
// The walk, as a function of the index state
// =====================================================================

/// The nested scale of an import: the parent scale times the imported
/// shape's native extents (each at least 1), or `None` when a component
/// leaves the `i32` range.
pub open spec fn import_scale(scale: (i32, i32, i32), native: Bounds) -> Option<(i32, i32, i32)> {
    let x = scale.0 * imax(extent(native, 0), 1);
    let y = scale.1 * imax(extent(native, 1), 1);
    let z = scale.2 * imax(extent(native, 2), 1);
    if x <= i32::MAX && y <= i32::MAX && z <= i32::MAX {
        Some((x as i32, y as i32, z as i32))
    } else {
        None
    }
}

/// The tag list names `emissive`, ignoring ASCII case.
pub open spec fn emissive_spec(tags: Seq<String>) -> bool {
    exists|i: int| 0 <= i < tags.len() && ascii_lower(#[trigger] tags[i]@) == "emissive"@
}

/// The union primitive a node with bounds `b` records under `placement`.
pub open spec fn union_of(node: SpecNode, b: Bounds, placement: Placement, scale: (i32, i32, i32)) -> UnionPrimitive {
    UnionPrimitive {
        shape: shape_of(node).0,
        world_bounds: apply_bounds_spec(placement, b),
        orient: compose_spec(placement, shape_of(node).1),
        color: tags_color_spec(tag_views(node.tags@)),
        emissive: emissive_spec(node.tags@),
        is_mirrored: mirrored(compose_spec(placement, shape_of(node).1)),
        scale,
    }
}

/// Some extent of the box is zero.
pub open spec fn flat(b: Bounds) -> bool {
    extent(b, 0) == 0 || extent(b, 1) == 0 || extent(b, 2) == 0
}

/// A shape walked into one flat group (named nodes open no groups of
/// their own).
pub open spec fn production_group(entries: Seq<ShapeEntry>, parts: Seq<SpecNode>) -> GroupView {
    cparts_spec(
        entries,
        ready_rank(entries, parts),
        true,
        ready_bound(entries, parts),
        seq![],
        true,
        false,
        empty_group(),
        parts,
        identity_spec(),
        (1i32, 1i32, 1i32),
        None,
        production_subtracts(entries, parts),
        seq![],
        parts.len() as int,
    )
}

/// The union primitives of a shape's flat group.
pub open spec fn production_unions(entries: Seq<ShapeEntry>, parts: Seq<SpecNode>) -> Seq<UnionPrimitive> {
    production_group(entries, parts).unions
}

// =====================================================================
// Subtracts of the top-level tree
// =====================================================================

/// The node goes by a name listed among the hidden parts.
pub open spec fn name_hidden(hidden: Seq<Seq<char>>, node: SpecNode) -> bool {
    match effective_name_spec(node) {
        Some(n) => exists|i: int| 0 <= i < hidden.len() && hidden[i] == n,
        None => false,
    }
}

/// Collect the subtract primitives under a node, symmetry copies
/// included, with the node's bounds as the walk gives them; imports and
/// nodes whose name is hidden are not entered.
pub open spec fn sub_node_spec(
    entries: Seq<ShapeEntry>,
    hidden: Seq<Seq<char>>,
    acc: Seq<SubtractPrimitive>,
    node: SpecNode,
    placement: Placement,
    scale: (i32, i32, i32),
    remap: Option<(Bounds, Bounds)>,
) -> Seq<SubtractPrimitive>
    decreases node, 2int, 0int,
{
    if node.import is Some || name_hidden(hidden, node) {
        acc
    } else {
        let ps = node_placements(eff_node(entries, node, remap));
        sub_copies_spec(entries, hidden, acc, node, placement, scale, remap, ps, ps.len() as int)
    }
}

pub open spec fn sub_copies_spec(
    entries: Seq<ShapeEntry>,
    hidden: Seq<Seq<char>>,
    acc: Seq<SubtractPrimitive>,
    node: SpecNode,
    placement: Placement,
    scale: (i32, i32, i32),
    remap: Option<(Bounds, Bounds)>,
    ps: Seq<Placement>,
    n: int,
) -> Seq<SubtractPrimitive>
    decreases node, 1int, n,
{
    if n <= 0 || n > ps.len() {
        acc
    } else {
        let prev = sub_copies_spec(entries, hidden, acc, node, placement, scale, remap, ps, n - 1);
        let combined = compose_spec(placement, ps[n - 1]);
        let own = match eff_bounds(entries, node, remap) {
            Some(b) => if node.subtract {
                prev.push(
                    SubtractPrimitive {
                        shape: shape_of(node).0,
                        world_bounds: apply_bounds_spec(combined, b),
                        orient: compose_spec(combined, shape_of(node).1),
                        scale,
                    },
                )
            } else {
                prev
            },
            None => prev,
        };
        sub_children_spec(entries, hidden, own, node, combined, scale, remap, node.children@.len() as int)
    }
}

pub open spec fn sub_children_spec(
    entries: Seq<ShapeEntry>,
    hidden: Seq<Seq<char>>,
    acc: Seq<SubtractPrimitive>,
    node: SpecNode,
    placement: Placement,
    scale: (i32, i32, i32),
    remap: Option<(Bounds, Bounds)>,
    n: int,
) -> Seq<SubtractPrimitive>
    decreases node, 0int, n,
{
    if n <= 0 || n > node.children@.len() {
        acc
    } else {
        sub_node_spec(
            entries,
            hidden,
            sub_children_spec(entries, hidden, acc, node, placement, scale, remap, n - 1),
            node.children@[n - 1],
            placement,
            scale,
            remap,
        )
    }
}

/// The subtract primitives of the first `n` parts, each from `placement`.
pub open spec fn sub_parts_spec(
    entries: Seq<ShapeEntry>,
    hidden: Seq<Seq<char>>,
    acc: Seq<SubtractPrimitive>,
    parts: Seq<SpecNode>,
    placement: Placement,
    scale: (i32, i32, i32),
    remap: Option<(Bounds, Bounds)>,
    n: int,
) -> Seq<SubtractPrimitive>
    decreases n,
{
    if n <= 0 || n > parts.len() {
        acc
    } else {
        sub_node_spec(
            entries,
            hidden,
            sub_parts_spec(entries, hidden, acc, parts, placement, scale, remap, n - 1),
            parts[n - 1],
            placement,
            scale,
            remap,
        )
    }
}

/// The subtract primitives of the top-level tree.
pub open spec fn production_subtracts(entries: Seq<ShapeEntry>, parts: Seq<SpecNode>) -> Seq<SubtractPrimitive> {
    sub_parts_spec(entries, seq![], seq![], parts, identity_spec(), (1i32, 1i32, 1i32), None, parts.len() as int)
}

// =====================================================================
// The walk
// =====================================================================

pub(crate) fn import_scale_exec(scale: (i32, i32, i32), native: &Bounds) -> (r: Option<(i32, i32, i32)>)
    requires
        scale_ok(scale),
    ensures
        r == import_scale(scale, *native),
        r matches Some(ns) ==> scale_ok(ns),
{
    let ex = extent_of(native, 0);
    let ey = extent_of(native, 1);
    let ez = extent_of(native, 2);
    let rx: i128 = if ex >= 1 { ex } else { 1 };
    let ry: i128 = if ey >= 1 { ey } else { 1 };
    let rz: i128 = if ez >= 1 { ez } else { 1 };
    assert(0 < (scale.0 as i128) * rx <= 0x1_0000_0000 * 0x1_0000_0000) by (nonlinear_arith)
        requires
            0 < scale.0 <= 0x1_0000_0000,
            1 <= rx <= 0x1_0000_0000,
    ;
    assert(0 < (scale.1 as i128) * ry <= 0x1_0000_0000 * 0x1_0000_0000) by (nonlinear_arith)
        requires
            0 < scale.1 <= 0x1_0000_0000,
            1 <= ry <= 0x1_0000_0000,
    ;
    assert(0 < (scale.2 as i128) * rz <= 0x1_0000_0000 * 0x1_0000_0000) by (nonlinear_arith)
        requires
            0 < scale.2 <= 0x1_0000_0000,
            1 <= rz <= 0x1_0000_0000,
    ;
    let x = (scale.0 as i128) * rx;
    let y = (scale.1 as i128) * ry;
    let z = (scale.2 as i128) * rz;
    let max = i32::MAX as i128;
    if x <= max && y <= max && z <= max {
        Some((x as i32, y as i32, z as i32))
    } else {
        None
    }
}

pub(crate) fn name_is_hidden(node: &SpecNode, hidden: &[String]) -> (r: bool)
    ensures
        r == name_hidden(hidden@.map_values(|h: String| h@), *node),
{
    let ghost hv = hidden@.map_values(|h: String| h@);
    match node.effective_name() {
        None => false,
        Some(n) => {
            let mut i: usize = 0;
            while i < hidden.len()
                invariant
                    i <= hidden@.len(),
                    hv == hidden@.map_values(|h: String| h@),
                    effective_name_spec(*node) == Some(n@),
                    forall|j: int| 0 <= j < i ==> hv[j] != n@,
                decreases hidden@.len() - i,
            {
                if str_eq(hidden[i].as_str(), n) {
                    assert(hv[i as int] == n@);
                    return true;
                }
                i = i + 1;
            }
            false
        },
    }
}

/// Collect the subtract primitives under a node, symmetry copies
/// included; imports and parts whose name is hidden are not entered.
pub(crate) fn collect_subtracts(
    node: &SpecNode,
    placement: Placement,
    scale: (i32, i32, i32),
    remap: Option<(Bounds, Bounds)>,
    hidden: &[String],
    registry: &AssetRegistry,
    out: &mut Vec<SubtractPrimitive>,
)
    requires
        node_ok(*node),
        scale_ok(scale),
        subs_ok(old(out)@),
    ensures
        final(out)@ == sub_node_spec(
            registry.entries(),
            hidden@.map_values(|h: String| h@),
            old(out)@,
            *node,
            placement,
            scale,
            remap,
        ),
        subs_ok(final(out)@),
    decreases *node,
{
    let ghost entries = registry.entries();
    let ghost hv = hidden@.map_values(|h: String| h@);
    if node.import.is_some() || name_is_hidden(node, hidden) {
        return;
    }
    let ghost out0 = out@;
    let eb = effective_bounds(node, remap, registry);
    let (sh, sp) = shape_of_exec(node);
    let shape = if eb.is_some() {
        sh
    } else {
        PrimitiveShape::Box
    };
    let prim_p = if eb.is_some() {
        sp
    } else {
        identity_placement()
    };
    let orient = compose_placements(compose_orient(node.rotate.as_slice()), prim_p);
    let ghost en = eff_node(entries, *node, remap);
    proof {
        lemma_eff_primitive(entries, *node, remap);
        assert(orient == orient_placement_spec(en));
    }
    let ps = placements(node.symmetry.as_slice(), eb, Some(shape), orient);
    let ghost sps = node_placements(en);
    assert(sps == placements_spec(node.symmetry@, eb, Some(shape), orient));
    let mut i: usize = 0;
    while i < ps.len()
        invariant
            i <= ps@.len(),
            ps@.len() == sps.len(),
            forall|j: int| 0 <= j < ps@.len() ==> (#[trigger] ps@[j]).0 == sps[j],
            sps == node_placements(eff_node(entries, *node, remap)),
            entries == registry.entries(),
            hv == hidden@.map_values(|h: String| h@),
            eb == eff_bounds(entries, *node, remap),
            node.import is None,
            !name_hidden(hv, *node),
            node_ok(*node),
            scale_ok(scale),
            subs_ok(out@),
            out@ == sub_copies_spec(entries, hv, out0, *node, placement, scale, remap, sps, i as int),
        decreases ps@.len() - i,
    {
        let combined = compose_placements(placement, ps[i].0);
        if node.subtract {
            match eb {
                Some(b) => {
                    let (shape, orient_p) = shape_of_exec(node);
                    out.push(
                        SubtractPrimitive {
                            shape,
                            world_bounds: apply_placement_to_bounds(combined, b),
                            orient: compose_placements(combined, orient_p),
                            scale,
                        },
                    );
                },
                None => {},
            }
        }
        let ghost own = out@;
        let mut j: usize = 0;
        while j < node.children.len()
            invariant
                j <= node.children@.len(),
                entries == registry.entries(),
                hv == hidden@.map_values(|h: String| h@),
                node_ok(*node),
                scale_ok(scale),
                subs_ok(out@),
                out@ == sub_children_spec(entries, hv, own, *node, combined, scale, remap, j as int),
            decreases node.children@.len() - j,
        {
            assert(node_ok(node.children@[j as int]));
            collect_subtracts(&node.children[j], combined, scale, remap, hidden, registry, out);
            j = j + 1;
        }
        i = i + 1;
    }
}

/// The subtract primitives of a parts list, each part from `placement`.
pub(crate) fn collect_parts_subtracts(
    parts: &[SpecNode],
    placement: Placement,
    scale: (i32, i32, i32),
    remap: Option<(Bounds, Bounds)>,
    hidden: &[String],
    registry: &AssetRegistry,
    out: &mut Vec<SubtractPrimitive>,
)
    requires
        parts_ok(parts@),
        scale_ok(scale),
        subs_ok(old(out)@),
    ensures
        final(out)@ == sub_parts_spec(
            registry.entries(),
            hidden@.map_values(|h: String| h@),
            old(out)@,
            parts@,
            placement,
            scale,
            remap,
            parts@.len() as int,
        ),
        subs_ok(final(out)@),
{
    let ghost out0 = out@;
    let mut i: usize = 0;
    while i < parts.len()
        invariant
            i <= parts@.len(),
            parts_ok(parts@),
            scale_ok(scale),
            subs_ok(out@),
            out@ == sub_parts_spec(
                registry.entries(),
                hidden@.map_values(|h: String| h@),
                out0,
                parts@,
                placement,
                scale,
                remap,
                i as int,
            ),
        decreases parts@.len() - i,
    {
        assert(node_ok(parts@[i as int]));
        collect_subtracts(&parts[i], placement, scale, remap, hidden, registry, out);
        i = i + 1;
    }
}

// =====================================================================
// Statistics
// =====================================================================

/// Triangle and draw call counts of the fully fused shape.
pub struct ProductionStats {
    pub triangles: usize,
    pub draw_calls: usize,
}

/// The resolved and fused primitives of a shape.
pub open spec fn production_cells(entries: Seq<ShapeEntry>, parts: Seq<SpecNode>) -> Seq<ResolvedPrimitive> {
    fuse_spec(
        group_resolve_spec(
            production_unions(entries, parts),
            production_subtracts(entries, parts),
            production_group(entries, parts).previews,
        ),
    )
}

/// One draw call for the normal primitives and one for the emissive
/// ones, each only when there are any.
pub open spec fn draw_calls_spec(cells: Seq<ResolvedPrimitive>) -> int {
    (if exists|k: int| 0 <= k < cells.len() && !(#[trigger] cells[k]).emissive {
        1int
    } else {
        0int
    }) + (if exists|k: int| 0 <= k < cells.len() && (#[trigger] cells[k]).emissive {
        1int
    } else {
        0int
    })
}

/// Production statistics of a shape: the whole shape is walked into one
/// flat group, the top-level subtracts carve its unions, adjacent unit
/// boxes are fused, and the triangles left after face culling and the
/// draw calls (normal and emissive material) are counted.
pub fn production_stats(parts: &[SpecNode], registry: &AssetRegistry) -> (r: ProductionStats)
    requires
        walk_ready(registry.entries(), parts@),
        parts_ok(parts@),
    ensures
        ({
            let cells = production_cells(registry.entries(), parts@);
            &&& r.triangles == imin(triangle_total(cells), usize::MAX as int)
            &&& r.draw_calls == draw_calls_spec(cells)
        }),
{
    let ghost entries = registry.entries();
    let mut subs: Vec<SubtractPrimitive> = Vec::new();
    let no_hidden: Vec<String> = Vec::new();
    collect_parts_subtracts(parts, identity_placement(), (1, 1, 1), None, no_hidden.as_slice(), registry, &mut subs);
    assert(no_hidden@.map_values(|h: String| h@) =~= Seq::<Seq<char>>::empty());
    let all = copy_subs(subs.as_slice());
    let mut group = GroupAccumulator::new();
    group.subtract_primitives = subs;
    assert(group_view(group) == empty_group()) by {
        assert(views_of(group.children@) =~= Seq::<CompiledView>::empty());
    }
    let ghost rank = ready_rank(entries, parts@);
    let ghost bound = ready_bound(entries, parts@);
    proof {
        lemma_ready(entries, parts@);
    }
    let root_path = String::new();
    walk_parts(
        &mut group,
        parts,
        identity_placement(),
        (1, 1, 1),
        None,
        no_hidden.as_slice(),
        true,
        false,
        all.as_slice(),
        root_path.as_str(),
        registry,
        Ghost(rank),
        Ghost(true),
        Ghost(bound),
    );
    let resolved = group.resolve();
    let fused = fuse_boxes(resolved.as_slice());
    let mut has_normal = false;
    let mut has_emissive = false;
    let mut k: usize = 0;
    while k < fused.len()
        invariant
            k <= fused@.len(),
            has_normal <==> exists|m: int| 0 <= m < k && !(#[trigger] fused@[m]).emissive,
            has_emissive <==> exists|m: int| 0 <= m < k && (#[trigger] fused@[m]).emissive,
        decreases fused@.len() - k,
    {
        if fused[k].emissive {
            has_emissive = true;
        } else {
            has_normal = true;
        }
        k = k + 1;
    }
    let draw_calls: usize = (if has_normal { 1 } else { 0 }) + (if has_emissive { 1 } else { 0 });
    let triangles = count_triangles_with_face_culling(fused.as_slice());
    ProductionStats { triangles, draw_calls }
}

} // verus!
