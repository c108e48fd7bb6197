//! Compiling a shape into the tree of its named parts, each with the
//! resolved primitives of its own meshes.
//!
//! Every named node below the top opens a group of its own, which becomes
//! a child of the group it sits in; unnamed nodes fall into the group of
//! their nearest named ancestor. Imports are inlined into the group that
//! holds them. The subtracts of the top-level tree carve every group;
//! inside an import, the import's own subtracts are handed to the groups
//! its named parts open. A hidden part keeps its place in the tree but
//! adds no geometry of its own. When the shape is compiled for itself (not
//! as an import), its subtract primitives are also kept as previews.
//!
//! Each group's resolved primitives are split into the meshes they are
//! drawn with: the normal ones, the emissive ones and the previews, in
//! that order, each only when it has cells. Turning a mesh's cells into
//! vertices is the renderer's work.

use vstd::prelude::*;
use crate::bounds::{apply_placement_to_bounds, Bounds};
use crate::collect::{
    append_path_spec, imports_below, lemma_ready, lemma_ready_entry, may_enter, node_ok, node_placements, parts_ok, ranked,
    ready_bound, ready_rank, walk_ready,
};
use crate::color::{resolve_tags_color, resolve_tags_emissive};
use crate::csg::PrimitiveShape;
use crate::edits::opt_chars;
use crate::extent::{aabb_for_parts, parts_aabb_spec};
use crate::fusion::{build_path, is_hidden};
use crate::placement::{compose_orient, compose_placements, compose_spec, identity_placement, identity_spec, is_mirrored, Placement};
use crate::production::{
    lemma_import_ready_ranked,
    collect_parts_subtracts, eff_bounds, eff_node, effective_bounds, flat, import_scale, import_scale_exec, lemma_eff_primitive,
    shape_of_exec, sub_parts_spec, union_of,
};
use crate::registry::{keys_of, lemma_resolve_index, resolve_index, AssetRegistry, ShapeEntry};
use crate::resolve::{
    group_resolve_spec, preview_cell, resolve_spec, scale_ok, subs_ok, unions_ok, GroupAccumulator, ResolvedPrimitive, SubtractPrimitive, UnionPrimitive,
};
use crate::spec::{effective_name_spec, orient_placement_spec, placements, placements_spec, SpecNode};
use crate::text::to_owned_string;

verus! {

/// The cells drawn with one material configuration.
pub struct FusedMesh {
    pub cells: Vec<ResolvedPrimitive>,
    pub emissive: bool,
    /// Some cell comes from a mirrored primitive (its faces wind the
    /// other way).
    pub contains_mirrored: bool,
    /// The cells are previews of subtract primitives.
    pub subtract_preview: bool,
}

/// One named part of a compiled shape (the top level has no name): its
/// meshes and the named parts below it.
pub struct CompiledShape {
    pub name: Option<String>,
    pub meshes: Vec<FusedMesh>,
    pub children: Vec<CompiledShape>,
    pub subtract: bool,
}

/// What a mesh holds.
pub struct MeshView {
    pub cells: Seq<ResolvedPrimitive>,
    pub emissive: bool,
    pub contains_mirrored: bool,
    pub subtract_preview: bool,
}

/// What a compiled part holds.
pub struct CompiledView {
    pub name: Option<Seq<char>>,
    pub meshes: Seq<MeshView>,
    pub children: Seq<CompiledView>,
    pub subtract: bool,
}

pub open spec fn mesh_view(m: FusedMesh) -> MeshView {
    MeshView {
        cells: m.cells@,
        emissive: m.emissive,
        contains_mirrored: m.contains_mirrored,
        subtract_preview: m.subtract_preview,
    }
}

pub open spec fn empty_view() -> CompiledView {
    CompiledView { name: None, meshes: seq![], children: seq![], subtract: false }
}

/// The content of a compiled part, all the way down.
pub open spec fn compiled_view(c: CompiledShape) -> CompiledView
    decreases c,
{
    CompiledView {
        name: opt_chars(c.name),
        meshes: c.meshes@.map_values(|m: FusedMesh| mesh_view(m)),
        children: Seq::new(
            c.children@.len(),
            |i: int|
                if 0 <= i < c.children@.len() {
                    compiled_view(c.children@[i])
                } else {
                    empty_view()
                },
        ),
        subtract: c.subtract,
    }
}

/// The contents of a list of compiled parts.
pub open spec fn views_of(cs: Seq<CompiledShape>) -> Seq<CompiledView> {
    Seq::new(cs.len(), |i: int| compiled_view(cs[i]))
}

// =====================================================================
// Splitting a group into meshes
// =====================================================================

/// The cells among the first `n` that are not previews and whose
/// emissive flag is `e`, in order.
pub open spec fn cells_with(cells: Seq<ResolvedPrimitive>, e: bool, n: int) -> Seq<ResolvedPrimitive>
    decreases n,
{
    if n <= 0 {
        seq![]
    } else if !cells[n - 1].subtract_preview && cells[n - 1].emissive == e {
        cells_with(cells, e, n - 1).push(cells[n - 1])
    } else {
        cells_with(cells, e, n - 1)
    }
}

/// The preview cells among the first `n`, in order.
pub open spec fn preview_cells(cells: Seq<ResolvedPrimitive>, n: int) -> Seq<ResolvedPrimitive>
    decreases n,
{
    if n <= 0 {
        seq![]
    } else if cells[n - 1].subtract_preview {
        preview_cells(cells, n - 1).push(cells[n - 1])
    } else {
        preview_cells(cells, n - 1)
    }
}


/// A mesh of the given cells; none when there are no cells.
pub open spec fn mesh_of(cells: Seq<ResolvedPrimitive>, emissive: bool, preview: bool) -> Seq<MeshView> {
    if cells.len() == 0 {
        seq![]
    } else {
        seq![
            MeshView {
                cells,
                emissive,
                contains_mirrored: exists|i: int| 0 <= i < cells.len() && (#[trigger] cells[i]).is_mirrored,
                subtract_preview: preview,
            },
        ]
    }
}

/// A finished group: what it resolves to (its union primitives carved by
/// its subtracts, then its previews) split into the normal mesh, the
/// emissive mesh and the preview mesh; its children as they were
/// compiled.
pub open spec fn finish_spec(
    unions: Seq<UnionPrimitive>,
    previews: Seq<UnionPrimitive>,
    children: Seq<CompiledView>,
    subs: Seq<SubtractPrimitive>,
    name: Option<Seq<char>>,
    subtract: bool,
) -> CompiledView {
    let resolved = group_resolve_spec(unions, subs, previews);
    let n = resolved.len() as int;
    CompiledView {
        name,
        meshes: mesh_of(cells_with(resolved, false, n), false, false) + mesh_of(cells_with(resolved, true, n), true, false)
            + mesh_of(preview_cells(resolved, n), false, true),
        children,
        subtract,
    }
}

fn make_mesh(cells: Vec<ResolvedPrimitive>, emissive: bool, preview: bool, out: &mut Vec<FusedMesh>)
    ensures
        final(out)@.map_values(|m: FusedMesh| mesh_view(m)) == old(out)@.map_values(|m: FusedMesh| mesh_view(m))
            + mesh_of(cells@, emissive, preview),
{
    if cells.len() == 0 {
        assert(final(out)@.map_values(|m: FusedMesh| mesh_view(m)) =~= old(out)@.map_values(
            |m: FusedMesh| mesh_view(m),
        ) + mesh_of(cells@, emissive, preview));
        return;
    }
    let mut mirrored = false;
    let mut i: usize = 0;
    while i < cells.len()
        invariant
            i <= cells@.len(),
            mirrored <==> exists|j: int| 0 <= j < i && (#[trigger] cells@[j]).is_mirrored,
        decreases cells@.len() - i,
    {
        if cells[i].is_mirrored {
            mirrored = true;
        }
        i = i + 1;
    }
    let ghost before = out@;
    let m = FusedMesh { cells, emissive, contains_mirrored: mirrored, subtract_preview: preview };
    let ghost mv = mesh_view(m);
    out.push(m);
    assert(out@.map_values(|m: FusedMesh| mesh_view(m)) =~= before.map_values(|m: FusedMesh| mesh_view(m)).push(mv));
    assert(mesh_of(mv.cells, emissive, preview) =~= seq![mv]);
}

impl GroupAccumulator {
    /// Close the group: resolve it (its union primitives against its
    /// subtracts, then its previews), split what comes out into the
    /// normal, the emissive and the preview mesh, and keep the compiled
    /// children.
    pub fn finish(self, name: Option<String>, subtract: bool) -> (r: CompiledShape)
        requires
            unions_ok(self.union_primitives@),
            subs_ok(self.subtract_primitives@),
        ensures
            compiled_view(r) == finish_spec(
                self.union_primitives@,
                self.preview_primitives@,
                views_of(self.children@),
                self.subtract_primitives@,
                opt_chars(name),
                subtract,
            ),
    {
        let resolved = self.resolve();
        let ghost rs = resolved@;
        let mut normal: Vec<ResolvedPrimitive> = Vec::new();
        let mut emissive: Vec<ResolvedPrimitive> = Vec::new();
        let mut previews: Vec<ResolvedPrimitive> = Vec::new();
        let mut i: usize = 0;
        while i < resolved.len()
            invariant
                i <= resolved@.len(),
                rs == resolved@,
                normal@ == cells_with(rs, false, i as int),
                emissive@ == cells_with(rs, true, i as int),
                previews@ == preview_cells(rs, i as int),
            decreases resolved@.len() - i,
        {
            let c = resolved[i];
            if c.subtract_preview {
                previews.push(c);
            } else if c.emissive {
                emissive.push(c);
            } else {
                normal.push(c);
            }
            i = i + 1;
        }
        let mut meshes: Vec<FusedMesh> = Vec::new();
        make_mesh(normal, false, false, &mut meshes);
        make_mesh(emissive, true, false, &mut meshes);
        make_mesh(previews, false, true, &mut meshes);
        let ghost child_views = views_of(self.children@);
        let r = CompiledShape { name, meshes, children: self.children, subtract };
        proof {
            assert(compiled_view(r).children =~= child_views);
            assert(compiled_view(r).meshes =~= finish_spec(
                self.union_primitives@,
                self.preview_primitives@,
                child_views,
                self.subtract_primitives@,
                opt_chars(r.name),
                subtract,
            ).meshes);
        }
        r
    }
}

// =====================================================================
// The walk, as a function of the group so far
// =====================================================================

/// What a group has gathered so far.
pub struct GroupView {
    pub unions: Seq<UnionPrimitive>,
    pub previews: Seq<UnionPrimitive>,
    pub children: Seq<CompiledView>,
}

pub open spec fn empty_group() -> GroupView {
    GroupView { unions: seq![], previews: seq![], children: seq![] }
}

pub open spec fn group_view(g: GroupAccumulator) -> GroupView {
    GroupView { unions: g.union_primitives@, previews: g.preview_primitives@, children: views_of(g.children@) }
}

/// The part at `path` is hidden.
pub open spec fn hidden_path(hidden: Seq<Seq<char>>, path: Seq<char>) -> bool {
    path.len() > 0 && exists|i: int| 0 <= i < hidden.len() && hidden[i] == path
}

/// Walk the first `n` parts into the group, each from placement
/// `inherited`, under the parent path `parent`.
pub open spec fn cparts_spec(
    entries: Seq<ShapeEntry>,
    rank: spec_fn(int) -> nat,
    top: bool,
    bound: int,
    hidden: Seq<Seq<char>>,
    flatten: bool,
    direct: bool,
    g: GroupView,
    parts: Seq<SpecNode>,
    inherited: Placement,
    scale: (i32, i32, i32),
    remap: Option<(Bounds, Bounds)>,
    subs: Seq<SubtractPrimitive>,
    parent: Seq<char>,
    n: int,
) -> GroupView
    decreases (if top { 1int } else { 0 }), bound, parts, 0int, n,
{
    if n <= 0 || n > parts.len() {
        g
    } else {
        let prev = cparts_spec(
            entries,
            rank,
            top,
            bound,
            hidden,
            flatten,
            direct,
            g,
            parts,
            inherited,
            scale,
            remap,
            subs,
            parent,
            n - 1,
        );
        cnode_spec(
            entries,
            rank,
            top,
            bound,
            hidden,
            flatten,
            direct,
            prev,
            parts[n - 1],
            inherited,
            scale,
            remap,
            subs,
            parent,
            false,
        )
    }
}

/// Walk one node into the group. A named node below the group's own
/// node opens a group of its own (unless flattening), which becomes a
/// child. A hidden node adds no geometry of its own, but its children
/// and its import are still walked (when flattening, nothing is). Any
/// other node is walked copy by copy.
pub open spec fn cnode_spec(
    entries: Seq<ShapeEntry>,
    rank: spec_fn(int) -> nat,
    top: bool,
    bound: int,
    hidden: Seq<Seq<char>>,
    flatten: bool,
    direct: bool,
    g: GroupView,
    node: SpecNode,
    inherited: Placement,
    scale: (i32, i32, i32),
    remap: Option<(Bounds, Bounds)>,
    subs: Seq<SubtractPrimitive>,
    parent: Seq<char>,
    root: bool,
) -> GroupView
    decreases (if top { 1int } else { 0 }), bound, node, (if root { 4int } else { 6int }), 0int,
{
    let path = append_path_spec(parent, effective_name_spec(node));
    if !flatten && !root && effective_name_spec(node) is Some {
        GroupView {
            children: g.children.push(
                cgroup_spec(entries, rank, top, bound, hidden, flatten, direct, node, inherited, scale, remap, subs, parent),
            ),
            ..g
        }
    } else if hidden_path(hidden, path) {
        if flatten {
            g
        } else if node.import is Some {
            cimport_spec(entries, rank, top, bound, hidden, flatten, direct, g, node, inherited, scale, remap, path)
        } else {
            cchildren_spec(
                entries,
                rank,
                top,
                bound,
                hidden,
                flatten,
                direct,
                g,
                node,
                inherited,
                scale,
                remap,
                subs,
                path,
                node.children@.len() as int,
            )
        }
    } else {
        let ps = node_placements(eff_node(entries, node, remap));
        ccopies_spec(entries, rank, top, bound, hidden, flatten, direct, g, node, inherited, scale, remap, subs, path, ps, ps.len() as int)
    }
}

/// The group a named node opens: the node walked as the group's own node,
/// carved by `subs`, and finished under the node's name.
pub open spec fn cgroup_spec(
    entries: Seq<ShapeEntry>,
    rank: spec_fn(int) -> nat,
    top: bool,
    bound: int,
    hidden: Seq<Seq<char>>,
    flatten: bool,
    direct: bool,
    node: SpecNode,
    inherited: Placement,
    scale: (i32, i32, i32),
    remap: Option<(Bounds, Bounds)>,
    subs: Seq<SubtractPrimitive>,
    parent: Seq<char>,
) -> CompiledView
    decreases (if top { 1int } else { 0 }), bound, node, 5int, 0int,
{
    let g = cnode_spec(entries, rank, top, bound, hidden, flatten, direct, empty_group(), node, inherited, scale, remap, subs, parent, true);
    finish_spec(g.unions, g.previews, g.children, subs, effective_name_spec(node), node.subtract)
}

/// Walk the first `n` copies of a node; copy `i` is placed by
/// `inherited ∘ ps[i]`.
pub open spec fn ccopies_spec(
    entries: Seq<ShapeEntry>,
    rank: spec_fn(int) -> nat,
    top: bool,
    bound: int,
    hidden: Seq<Seq<char>>,
    flatten: bool,
    direct: bool,
    g: GroupView,
    node: SpecNode,
    inherited: Placement,
    scale: (i32, i32, i32),
    remap: Option<(Bounds, Bounds)>,
    subs: Seq<SubtractPrimitive>,
    path: Seq<char>,
    ps: Seq<Placement>,
    n: int,
) -> GroupView
    decreases (if top { 1int } else { 0 }), bound, node, 3int, n,
{
    if n <= 0 || n > ps.len() {
        g
    } else {
        let prev = ccopies_spec(entries, rank, top, bound, hidden, flatten, direct, g, node, inherited, scale, remap, subs, path, ps, n - 1);
        let combined = compose_spec(inherited, ps[n - 1]);
        if node.import is Some {
            cimport_spec(entries, rank, top, bound, hidden, flatten, direct, prev, node, combined, scale, remap, path)
        } else {
            cbody_spec(entries, rank, top, bound, hidden, flatten, direct, prev, node, combined, scale, remap, subs, path)
        }
    }
}

/// A non-import copy: a node without bounds only walks its children; a
/// flat node is dropped with its children; otherwise a union node records
/// its primitive, a subtract node records a preview when the shape is
/// compiled for itself, and the children are walked under the same
/// placement.
pub open spec fn cbody_spec(
    entries: Seq<ShapeEntry>,
    rank: spec_fn(int) -> nat,
    top: bool,
    bound: int,
    hidden: Seq<Seq<char>>,
    flatten: bool,
    direct: bool,
    g: GroupView,
    node: SpecNode,
    placement: Placement,
    scale: (i32, i32, i32),
    remap: Option<(Bounds, Bounds)>,
    subs: Seq<SubtractPrimitive>,
    path: Seq<char>,
) -> GroupView
    decreases (if top { 1int } else { 0 }), bound, node, 2int, node.children@.len() + 1,
{
    let n = node.children@.len() as int;
    match eff_bounds(entries, node, remap) {
        None => cchildren_spec(entries, rank, top, bound, hidden, flatten, direct, g, node, placement, scale, remap, subs, path, n),
        Some(b) => if flat(b) {
            g
        } else {
            let prim = union_of(node, b, placement, scale);
            let own = if !node.subtract {
                GroupView { unions: g.unions.push(prim), ..g }
            } else if direct {
                GroupView { previews: g.previews.push(prim), ..g }
            } else {
                g
            };
            cchildren_spec(entries, rank, top, bound, hidden, flatten, direct, own, node, placement, scale, remap, subs, path, n)
        },
    }
}

/// Walk the first `n` children of a node under the parent path `path`.
pub open spec fn cchildren_spec(
    entries: Seq<ShapeEntry>,
    rank: spec_fn(int) -> nat,
    top: bool,
    bound: int,
    hidden: Seq<Seq<char>>,
    flatten: bool,
    direct: bool,
    g: GroupView,
    node: SpecNode,
    placement: Placement,
    scale: (i32, i32, i32),
    remap: Option<(Bounds, Bounds)>,
    subs: Seq<SubtractPrimitive>,
    path: Seq<char>,
    n: int,
) -> GroupView
    decreases (if top { 1int } else { 0 }), bound, node, 2int, n,
{
    if n <= 0 || n > node.children@.len() {
        g
    } else {
        let prev = cchildren_spec(entries, rank, top, bound, hidden, flatten, direct, g, node, placement, scale, remap, subs, path, n - 1);
        cnode_spec(entries, rank, top, bound, hidden, flatten, direct, prev, node.children@[n - 1], placement, scale, remap, subs, path, false)
    }
}

/// An import copy: the imported shape's parts are walked into the group
/// from the copy's placement, their bounds remapped from the shape's
/// native bounds to the import's bounds (its native bounds when it has
/// none) at the scale multiplied by the native extents, as not compiled
/// for itself; the groups they open are carved by the import's own
/// subtracts. An import that does not resolve, or whose shape has no
/// bounds, adds nothing.
pub open spec fn cimport_spec(
    entries: Seq<ShapeEntry>,
    rank: spec_fn(int) -> nat,
    top: bool,
    bound: int,
    hidden: Seq<Seq<char>>,
    flatten: bool,
    direct: bool,
    g: GroupView,
    node: SpecNode,
    inherited: Placement,
    scale: (i32, i32, i32),
    remap: Option<(Bounds, Bounds)>,
    path: Seq<char>,
) -> GroupView
    decreases (if top { 1int } else { 0 }), bound, node, 0int, 0int,
{
    let k = resolve_index(keys_of(entries), node.import->0@);
    if k < 0 || k >= entries.len() || !may_enter(rank, top, bound, k) {
        g
    } else {
        let parts = entries[k].parts@;
        match parts_aabb_spec(entries, parts) {
            None => g,
            Some(native) => {
                let pb = match eff_bounds(entries, node, remap) {
                    Some(b) => b,
                    None => native,
                };
                match import_scale(scale, native) {
                    None => g,
                    Some(ns) => {
                        let r2 = Some((native, pb));
                        let isubs = sub_parts_spec(entries, hidden, seq![], parts, inherited, ns, r2, parts.len() as int);
                        cparts_spec(
                            entries,
                            rank,
                            false,
                            rank(k) as int,
                            hidden,
                            flatten,
                            false,
                            g,
                            parts,
                            inherited,
                            ns,
                            r2,
                            isubs,
                            path,
                            parts.len() as int,
                        )
                    },
                }
            },
        }
    }
}

/// The subtract primitives of the top-level tree, hidden parts left out.
pub open spec fn compile_subtracts(entries: Seq<ShapeEntry>, parts: Seq<SpecNode>, hidden: Seq<Seq<char>>) -> Seq<SubtractPrimitive> {
    sub_parts_spec(entries, hidden, seq![], parts, identity_spec(), (1i32, 1i32, 1i32), None, parts.len() as int)
}

/// A compiled shape: its parts walked into one top-level group carved by
/// the top-level subtracts, as compiled for itself.
pub open spec fn compile_spec(entries: Seq<ShapeEntry>, parts: Seq<SpecNode>, hidden: Seq<Seq<char>>) -> CompiledView {
    let subs = compile_subtracts(entries, parts, hidden);
    let g = cparts_spec(
        entries,
        ready_rank(entries, parts),
        true,
        ready_bound(entries, parts),
        hidden,
        false,
        true,
        empty_group(),
        parts,
        identity_spec(),
        (1i32, 1i32, 1i32),
        None,
        subs,
        seq![],
        parts.len() as int,
    );
    finish_spec(g.unions, g.previews, g.children, subs, None, false)
}

proof fn lemma_named_parts_open_groups(
    entries: Seq<ShapeEntry>,
    rank: spec_fn(int) -> nat,
    bound: int,
    hidden: Seq<Seq<char>>,
    g: GroupView,
    parts: Seq<SpecNode>,
    subs: Seq<SubtractPrimitive>,
    n: int,
)
    requires
        0 <= n <= parts.len(),
        forall|i: int| 0 <= i < parts.len() ==> (#[trigger] effective_name_spec(parts[i])) is Some,
    ensures
        ({
            let r = cparts_spec(
                entries,
                rank,
                true,
                bound,
                hidden,
                false,
                true,
                g,
                parts,
                identity_spec(),
                (1i32, 1i32, 1i32),
                None,
                subs,
                seq![],
                n,
            );
            &&& r.unions == g.unions
            &&& r.previews == g.previews
            &&& r.children.len() == g.children.len() + n
            &&& forall|i: int| 0 <= i < g.children.len() ==> r.children[i] == g.children[i]
            &&& forall|i: int|
                0 <= i < n ==> (#[trigger] r.children[g.children.len() + i]) == cgroup_spec(
                    entries,
                    rank,
                    true,
                    bound,
                    hidden,
                    false,
                    true,
                    parts[i],
                    identity_spec(),
                    (1i32, 1i32, 1i32),
                    None,
                    subs,
                    seq![],
                )
        }),
    decreases n,
{
    if n > 0 {
        lemma_named_parts_open_groups(entries, rank, bound, hidden, g, parts, subs, n - 1);
        let node = parts[n - 1];
        assert(effective_name_spec(node) is Some);
        let prev = cparts_spec(
            entries,
            rank,
            true,
            bound,
            hidden,
            false,
            true,
            g,
            parts,
            identity_spec(),
            (1i32, 1i32, 1i32),
            None,
            subs,
            seq![],
            n - 1,
        );
        let cg = cgroup_spec(entries, rank, true, bound, hidden, false, true, node, identity_spec(), (1i32, 1i32, 1i32), None, subs, seq![]);
        let r = cparts_spec(
            entries,
            rank,
            true,
            bound,
            hidden,
            false,
            true,
            g,
            parts,
            identity_spec(),
            (1i32, 1i32, 1i32),
            None,
            subs,
            seq![],
            n,
        );
        assert(r == cnode_spec(
            entries,
            rank,
            true,
            bound,
            hidden,
            false,
            true,
            prev,
            node,
            identity_spec(),
            (1i32, 1i32, 1i32),
            None,
            subs,
            seq![],
            false,
        ));
        assert(r.children == prev.children.push(cg));
        assert(cg.name == effective_name_spec(node));
        let gl = g.children.len();
        assert forall|i: int| 0 <= i < n implies (#[trigger] r.children[gl + i]) == cgroup_spec(
            entries,
            rank,
            true,
            bound,
            hidden,
            false,
            true,
            parts[i],
            identity_spec(),
            (1i32, 1i32, 1i32),
            None,
            subs,
            seq![],
        ) by {
            if i < n - 1 {
                assert(r.children[gl + i] == prev.children[gl + i]);
            }
        }
    }
}

/// The compiled tree follows the authored hierarchy: when every top-level
/// part has a name, the compiled shape has exactly one child per part, in
/// order and under the part's name, and no geometry of its own. A hidden
/// part without children or import stays in the tree as an empty part.
pub proof fn lemma_named_parts_become_children(entries: Seq<ShapeEntry>, parts: Seq<SpecNode>, hidden: Seq<Seq<char>>)
    requires
        forall|i: int| 0 <= i < parts.len() ==> (#[trigger] effective_name_spec(parts[i])) is Some,
    ensures
        ({
            let c = compile_spec(entries, parts, hidden);
            &&& c.name is None
            &&& c.meshes.len() == 0
            &&& c.children.len() == parts.len()
            &&& forall|i: int| 0 <= i < parts.len() ==> (#[trigger] c.children[i]).name == effective_name_spec(parts[i])
            &&& forall|i: int|
                0 <= i < parts.len() && parts[i].children@.len() == 0 && parts[i].import is None && hidden_path(
                    hidden,
                    effective_name_spec(parts[i])->0,
                ) ==> (#[trigger] c.children[i]).meshes.len() == 0 && c.children[i].children.len() == 0
        }),
{
    let subs = compile_subtracts(entries, parts, hidden);
    lemma_named_parts_open_groups(entries, ready_rank(entries, parts), ready_bound(entries, parts), hidden, empty_group(), parts, subs, parts.len() as int);
    let g = cparts_spec(
        entries,
        ready_rank(entries, parts),
        true,
        ready_bound(entries, parts),
        hidden,
        false,
        true,
        empty_group(),
        parts,
        identity_spec(),
        (1i32, 1i32, 1i32),
        None,
        subs,
        seq![],
        parts.len() as int,
    );
    assert(g.unions.len() == 0 && g.previews.len() == 0);
    assert(resolve_spec(g.unions, subs).len() == 0) by {
        assert(g.unions =~= Seq::<UnionPrimitive>::empty());
    }
    assert(g.previews.map_values(|p: UnionPrimitive| preview_cell(p)).len() == 0);
    let c = compile_spec(entries, parts, hidden);
    assert(c.children == g.children);
    assert forall|i: int| 0 <= i < parts.len() implies (#[trigger] c.children[i]).name == effective_name_spec(parts[i]) by {
        assert(c.children[0 + i] == g.children[0 + i]);
    }
    assert forall|i: int|
        0 <= i < parts.len() && parts[i].children@.len() == 0 && parts[i].import is None && hidden_path(
            hidden,
            effective_name_spec(parts[i])->0,
        ) implies (#[trigger] c.children[i]).meshes.len() == 0 && c.children[i].children.len() == 0 by {
        assert(c.children[0 + i] == g.children[0 + i]);
        let node = parts[i];
        let name = effective_name_spec(node)->0;
        assert(append_path_spec(seq![], effective_name_spec(node)) == name);
        let inner = cnode_spec(
            entries,
            ready_rank(entries, parts),
            true,
            ready_bound(entries, parts),
            hidden,
            false,
            true,
            empty_group(),
            node,
            identity_spec(),
            (1i32, 1i32, 1i32),
            None,
            subs,
            seq![],
            true,
        );
        assert(inner == empty_group());
        assert(resolve_spec(inner.unions, subs).len() == 0) by {
            assert(inner.unions =~= Seq::<UnionPrimitive>::empty());
        }
        assert(inner.previews.map_values(|p: UnionPrimitive| preview_cell(p)).len() == 0);
    }
}

// =====================================================================
// The walk
// =====================================================================

/// The characters of the hidden part paths.
pub open spec fn hidden_view(hidden: Seq<String>) -> Seq<Seq<char>> {
    hidden.map_values(|h: String| h@)
}

pub(crate) fn copy_subs(subs: &[SubtractPrimitive]) -> (r: Vec<SubtractPrimitive>)
    ensures
        r@ == subs@,
{
    let mut r: Vec<SubtractPrimitive> = Vec::new();
    let mut i: usize = 0;
    while i < subs.len()
        invariant
            i <= subs@.len(),
            r@ == subs@.take(i as int),
        decreases subs@.len() - i,
    {
        r.push(subs[i]);
        assert(subs@.take(i + 1) =~= subs@.take(i as int).push(subs@[i as int]));
        i = i + 1;
    }
    assert(subs@.take(subs@.len() as int) =~= subs@);
    r
}

/// Walk a parts list into the group, each part from `inherited`.
pub(crate) fn walk_parts(
    group: &mut GroupAccumulator,
    parts: &[SpecNode],
    inherited: Placement,
    scale: (i32, i32, i32),
    remap: Option<(Bounds, Bounds)>,
    hidden: &[String],
    flatten: bool,
    direct: bool,
    subs: &[SubtractPrimitive],
    parent: &str,
    registry: &AssetRegistry,
    Ghost(rank): Ghost<spec_fn(int) -> nat>,
    Ghost(top): Ghost<bool>,
    Ghost(bound): Ghost<int>,
)
    requires
        ranked(registry.entries(), rank),
        parts_ok(parts@),
        forall|i: int|
            0 <= i < parts@.len() ==> imports_below(keys_of(registry.entries()), #[trigger] parts@[i], rank, bound),
        bound >= 0,
        scale_ok(scale),
        unions_ok(old(group).union_primitives@),
        subs_ok(subs@),
    ensures
        group_view(*final(group)) == cparts_spec(
            registry.entries(),
            rank,
            top,
            bound,
            hidden_view(hidden@),
            flatten,
            direct,
            group_view(*old(group)),
            parts@,
            inherited,
            scale,
            remap,
            subs@,
            parent@,
            parts@.len() as int,
        ),
        unions_ok(final(group).union_primitives@),
        final(group).subtract_primitives@ == old(group).subtract_primitives@,
    decreases (if top { 1int } else { 0 }), bound, parts@, 1int, 0int,
{
    let ghost entries = registry.entries();
    let ghost g0 = group_view(*group);
    let mut i: usize = 0;
    while i < parts.len()
        invariant
            i <= parts@.len(),
            entries == registry.entries(),
            ranked(entries, rank),
            parts_ok(parts@),
            forall|j: int|
                0 <= j < parts@.len() ==> imports_below(keys_of(entries), #[trigger] parts@[j], rank, bound),
            bound >= 0,
            scale_ok(scale),
            subs_ok(subs@),
            unions_ok(group.union_primitives@),
            group.subtract_primitives@ == old(group).subtract_primitives@,
            group_view(*group) == cparts_spec(
                entries,
                rank,
                top,
                bound,
                hidden_view(hidden@),
                flatten,
                direct,
                g0,
                parts@,
                inherited,
                scale,
                remap,
                subs@,
                parent@,
                i as int,
            ),
        decreases parts@.len() - i,
    {
        assert(node_ok(parts@[i as int]));
        walk_into_group(
            group,
            &parts[i],
            inherited,
            scale,
            remap,
            hidden,
            flatten,
            direct,
            subs,
            parent,
            false,
            registry,
            Ghost(rank),
            Ghost(top),
            Ghost(bound),
        );
        i = i + 1;
    }
}

/// Walk one node into the group (see `cnode_spec`).
fn walk_into_group(
    group: &mut GroupAccumulator,
    node: &SpecNode,
    inherited: Placement,
    scale: (i32, i32, i32),
    remap: Option<(Bounds, Bounds)>,
    hidden: &[String],
    flatten: bool,
    direct: bool,
    subs: &[SubtractPrimitive],
    parent: &str,
    root: bool,
    registry: &AssetRegistry,
    Ghost(rank): Ghost<spec_fn(int) -> nat>,
    Ghost(top): Ghost<bool>,
    Ghost(bound): Ghost<int>,
)
    requires
        ranked(registry.entries(), rank),
        node_ok(*node),
        imports_below(keys_of(registry.entries()), *node, rank, bound),
        bound >= 0,
        scale_ok(scale),
        unions_ok(old(group).union_primitives@),
        subs_ok(subs@),
    ensures
        group_view(*final(group)) == cnode_spec(
            registry.entries(),
            rank,
            top,
            bound,
            hidden_view(hidden@),
            flatten,
            direct,
            group_view(*old(group)),
            *node,
            inherited,
            scale,
            remap,
            subs@,
            parent@,
            root,
        ),
        unions_ok(final(group).union_primitives@),
        final(group).subtract_primitives@ == old(group).subtract_primitives@,
    decreases (if top { 1int } else { 0 }), bound, *node, (if root { 4int } else { 6int }), 0int,
{
    let ghost entries = registry.entries();
    let ghost hv = hidden_view(hidden@);
    let ghost g0 = group_view(*group);
    let node_path = build_path(parent, node);
    if !flatten && !root && node.effective_name().is_some() {
        let child = compile_group(
            node,
            inherited,
            scale,
            remap,
            hidden,
            flatten,
            direct,
            subs,
            parent,
            registry,
            Ghost(rank),
            Ghost(top),
            Ghost(bound),
        );
        let ghost cv = compiled_view(child);
        let ghost before = group.children@;
        group.children.push(child);
        assert(views_of(group.children@) =~= views_of(before).push(cv));
        return;
    }
    let hid = is_hidden(node_path.as_str(), hidden);
    assert(hid == hidden_path(hv, node_path@)) by {
        if hid {
            let i = choose|i: int| 0 <= i < hidden@.len() && (#[trigger] hidden@[i])@ == node_path@;
            assert(hv[i] == node_path@);
        }
        if hidden_path(hv, node_path@) {
            let i = choose|i: int| 0 <= i < hv.len() && hv[i] == node_path@;
            assert(hidden@[i]@ == node_path@);
        }
    }
    if hid {
        if flatten {
            return;
        }
        match &node.import {
            Some(name) => {
                walk_import(
                    group,
                    node,
                    name.as_str(),
                    inherited,
                    scale,
                    remap,
                    hidden,
                    flatten,
                    direct,
                    node_path.as_str(),
                    registry,
                    Ghost(rank),
                    Ghost(top),
                    Ghost(bound),
                );
            },
            None => {
                walk_children(
                    group,
                    node,
                    inherited,
                    scale,
                    remap,
                    hidden,
                    flatten,
                    direct,
                    subs,
                    node_path.as_str(),
                    registry,
                    Ghost(rank),
                    Ghost(top),
                    Ghost(bound),
                );
            },
        }
        return;
    }
    proof {
        lemma_import_ready_ranked(entries, *node, rank, bound);
    }
    let eb = effective_bounds(node, remap, registry);
    let (sh, sp) = shape_of_exec(node);
    let shape = if eb.is_some() {
        sh
    } else {
        PrimitiveShape::Box
    };
    let prim_p = if eb.is_some() {
        sp
    } else {
        identity_placement()
    };
    let orient = compose_placements(compose_orient(node.rotate.as_slice()), prim_p);
    let ghost en = eff_node(entries, *node, remap);
    proof {
        lemma_eff_primitive(entries, *node, remap);
        assert(orient == orient_placement_spec(en));
    }
    let ps = placements(node.symmetry.as_slice(), eb, Some(shape), orient);
    let ghost sps = node_placements(en);
    assert(sps == placements_spec(node.symmetry@, eb, Some(shape), orient));
    let mut i: usize = 0;
    while i < ps.len()
        invariant
            i <= ps@.len(),
            ps@.len() == sps.len(),
            forall|j: int| 0 <= j < ps@.len() ==> (#[trigger] ps@[j]).0 == sps[j],
            sps == node_placements(eff_node(entries, *node, remap)),
            entries == registry.entries(),
            hv == hidden_view(hidden@),
            ranked(entries, rank),
            node_ok(*node),
            imports_below(keys_of(entries), *node, rank, bound),
            bound >= 0,
            scale_ok(scale),
            subs_ok(subs@),
            unions_ok(group.union_primitives@),
            group.subtract_primitives@ == old(group).subtract_primitives@,
            group_view(*group) == ccopies_spec(
                entries,
                rank,
                top,
                bound,
                hv,
                flatten,
                direct,
                g0,
                *node,
                inherited,
                scale,
                remap,
                subs@,
                node_path@,
                sps,
                i as int,
            ),
        decreases ps@.len() - i,
    {
        let combined = compose_placements(inherited, ps[i].0);
        match &node.import {
            Some(name) => {
                walk_import(
                    group,
                    node,
                    name.as_str(),
                    combined,
                    scale,
                    remap,
                    hidden,
                    flatten,
                    direct,
                    node_path.as_str(),
                    registry,
                    Ghost(rank),
                    Ghost(top),
                    Ghost(bound),
                );
            },
            None => {
                walk_node_body(
                    group,
                    node,
                    combined,
                    scale,
                    remap,
                    hidden,
                    flatten,
                    direct,
                    subs,
                    node_path.as_str(),
                    registry,
                    Ghost(rank),
                    Ghost(top),
                    Ghost(bound),
                );
            },
        }
        i = i + 1;
    }
}

/// Compile the group a named node opens (see `cgroup_spec`).
fn compile_group(
    node: &SpecNode,
    inherited: Placement,
    scale: (i32, i32, i32),
    remap: Option<(Bounds, Bounds)>,
    hidden: &[String],
    flatten: bool,
    direct: bool,
    subs: &[SubtractPrimitive],
    parent: &str,
    registry: &AssetRegistry,
    Ghost(rank): Ghost<spec_fn(int) -> nat>,
    Ghost(top): Ghost<bool>,
    Ghost(bound): Ghost<int>,
) -> (r: CompiledShape)
    requires
        ranked(registry.entries(), rank),
        node_ok(*node),
        imports_below(keys_of(registry.entries()), *node, rank, bound),
        bound >= 0,
        scale_ok(scale),
        subs_ok(subs@),
    ensures
        compiled_view(r) == cgroup_spec(
            registry.entries(),
            rank,
            top,
            bound,
            hidden_view(hidden@),
            flatten,
            direct,
            *node,
            inherited,
            scale,
            remap,
            subs@,
            parent@,
        ),
    decreases (if top { 1int } else { 0 }), bound, *node, 5int, 0int,
{
    let mut group = GroupAccumulator::new();
    group.subtract_primitives = copy_subs(subs);
    assert(group_view(group) == empty_group()) by {
        assert(views_of(group.children@) =~= Seq::<CompiledView>::empty());
    }
    walk_into_group(
        &mut group,
        node,
        inherited,
        scale,
        remap,
        hidden,
        flatten,
        direct,
        subs,
        parent,
        true,
        registry,
        Ghost(rank),
        Ghost(top),
        Ghost(bound),
    );
    let name = match node.effective_name() {
        Some(n) => Some(to_owned_string(n)),
        None => None,
    };
    group.finish(name, node.subtract)
}

/// A non-import copy (see `cbody_spec`).
fn walk_node_body(
    group: &mut GroupAccumulator,
    node: &SpecNode,
    placement: Placement,
    scale: (i32, i32, i32),
    remap: Option<(Bounds, Bounds)>,
    hidden: &[String],
    flatten: bool,
    direct: bool,
    subs: &[SubtractPrimitive],
    path: &str,
    registry: &AssetRegistry,
    Ghost(rank): Ghost<spec_fn(int) -> nat>,
    Ghost(top): Ghost<bool>,
    Ghost(bound): Ghost<int>,
)
    requires
        ranked(registry.entries(), rank),
        node_ok(*node),
        node.import is None,
        imports_below(keys_of(registry.entries()), *node, rank, bound),
        bound >= 0,
        scale_ok(scale),
        unions_ok(old(group).union_primitives@),
        subs_ok(subs@),
    ensures
        group_view(*final(group)) == cbody_spec(
            registry.entries(),
            rank,
            top,
            bound,
            hidden_view(hidden@),
            flatten,
            direct,
            group_view(*old(group)),
            *node,
            placement,
            scale,
            remap,
            subs@,
            path@,
        ),
        unions_ok(final(group).union_primitives@),
        final(group).subtract_primitives@ == old(group).subtract_primitives@,
    decreases (if top { 1int } else { 0 }), bound, *node, 2int, node.children@.len() + 1,
{
    match effective_bounds(node, remap, registry) {
        None => {},
        Some(b) => {
            if b.0 == b.3 || b.1 == b.4 || b.2 == b.5 {
                return;
            }
            let (shape, orient_p) = shape_of_exec(node);
            let orient = compose_placements(placement, orient_p);
            let prim = UnionPrimitive {
                shape,
                world_bounds: apply_placement_to_bounds(placement, b),
                orient,
                color: resolve_tags_color(node.tags.as_slice()),
                emissive: resolve_tags_emissive(node.tags.as_slice()),
                is_mirrored: is_mirrored(orient),
                scale,
            };
            assert(prim == union_of(*node, b, placement, scale));
            if !node.subtract {
                group.union_primitives.push(prim);
            } else if direct {
                group.preview_primitives.push(prim);
            }
        },
    }
    walk_children(
        group,
        node,
        placement,
        scale,
        remap,
        hidden,
        flatten,
        direct,
        subs,
        path,
        registry,
        Ghost(rank),
        Ghost(top),
        Ghost(bound),
    );
}

/// Walk the children of a node under the parent path `path`.
fn walk_children(
    group: &mut GroupAccumulator,
    node: &SpecNode,
    placement: Placement,
    scale: (i32, i32, i32),
    remap: Option<(Bounds, Bounds)>,
    hidden: &[String],
    flatten: bool,
    direct: bool,
    subs: &[SubtractPrimitive],
    path: &str,
    registry: &AssetRegistry,
    Ghost(rank): Ghost<spec_fn(int) -> nat>,
    Ghost(top): Ghost<bool>,
    Ghost(bound): Ghost<int>,
)
    requires
        ranked(registry.entries(), rank),
        node_ok(*node),
        node.import is None,
        imports_below(keys_of(registry.entries()), *node, rank, bound),
        bound >= 0,
        scale_ok(scale),
        unions_ok(old(group).union_primitives@),
        subs_ok(subs@),
    ensures
        group_view(*final(group)) == cchildren_spec(
            registry.entries(),
            rank,
            top,
            bound,
            hidden_view(hidden@),
            flatten,
            direct,
            group_view(*old(group)),
            *node,
            placement,
            scale,
            remap,
            subs@,
            path@,
            node.children@.len() as int,
        ),
        unions_ok(final(group).union_primitives@),
        final(group).subtract_primitives@ == old(group).subtract_primitives@,
    decreases (if top { 1int } else { 0 }), bound, *node, 2int, node.children@.len() as int,
{
    let ghost entries = registry.entries();
    let ghost g0 = group_view(*group);
    let mut i: usize = 0;
    while i < node.children.len()
        invariant
            i <= node.children@.len(),
            entries == registry.entries(),
            ranked(entries, rank),
            node_ok(*node),
            node.import is None,
            imports_below(keys_of(entries), *node, rank, bound),
            bound >= 0,
            scale_ok(scale),
            subs_ok(subs@),
            unions_ok(group.union_primitives@),
            group.subtract_primitives@ == old(group).subtract_primitives@,
            group_view(*group) == cchildren_spec(
                entries,
                rank,
                top,
                bound,
                hidden_view(hidden@),
                flatten,
                direct,
                g0,
                *node,
                placement,
                scale,
                remap,
                subs@,
                path@,
                i as int,
            ),
        decreases node.children@.len() - i,
    {
        assert(node_ok(node.children@[i as int]));
        walk_into_group(
            group,
            &node.children[i],
            placement,
            scale,
            remap,
            hidden,
            flatten,
            direct,
            subs,
            path,
            false,
            registry,
            Ghost(rank),
            Ghost(top),
            Ghost(bound),
        );
        i = i + 1;
    }
}

/// An import copy (see `cimport_spec`).
fn walk_import(
    group: &mut GroupAccumulator,
    node: &SpecNode,
    name: &str,
    inherited: Placement,
    scale: (i32, i32, i32),
    remap: Option<(Bounds, Bounds)>,
    hidden: &[String],
    flatten: bool,
    direct: bool,
    path: &str,
    registry: &AssetRegistry,
    Ghost(rank): Ghost<spec_fn(int) -> nat>,
    Ghost(top): Ghost<bool>,
    Ghost(bound): Ghost<int>,
)
    requires
        ranked(registry.entries(), rank),
        node_ok(*node),
        node.import is Some && node.import->0@ == name@,
        imports_below(keys_of(registry.entries()), *node, rank, bound),
        bound >= 0,
        scale_ok(scale),
        unions_ok(old(group).union_primitives@),
    ensures
        group_view(*final(group)) == cimport_spec(
            registry.entries(),
            rank,
            top,
            bound,
            hidden_view(hidden@),
            flatten,
            direct,
            group_view(*old(group)),
            *node,
            inherited,
            scale,
            remap,
            path@,
        ),
        unions_ok(final(group).union_primitives@),
        final(group).subtract_primitives@ == old(group).subtract_primitives@,
    decreases (if top { 1int } else { 0 }), bound, *node, 0int, 0int,
{
    let ghost entries = registry.entries();
    let ghost k = resolve_index(keys_of(entries), name@);
    match registry.get_shape(name) {
        None => {},
        Some(parts) => {
            proof {
                lemma_resolve_index(keys_of(entries), name@);
                lemma_ready_entry(entries, rank, k);
                lemma_import_ready_ranked(entries, *node, rank, bound);
                assert forall|i: int| 0 <= i < parts@.len() implies imports_below(
                    keys_of(entries),
                    #[trigger] parts@[i],
                    rank,
                    rank(k) as int,
                ) by {
                    assert(imports_below(keys_of(entries), entries[k].parts@[i], rank, rank(k) as int));
                }
            }
            match aabb_for_parts(parts, registry) {
                None => {},
                Some(native) => {
                    let pb = match effective_bounds(node, remap, registry) {
                        Some(b) => b,
                        None => native,
                    };
                    match import_scale_exec(scale, &native) {
                        None => {},
                        Some(ns) => {
                            let mut isubs: Vec<SubtractPrimitive> = Vec::new();
                            collect_parts_subtracts(parts, inherited, ns, Some((native, pb)), hidden, registry, &mut isubs);
                            walk_parts(
                                group,
                                parts,
                                inherited,
                                ns,
                                Some((native, pb)),
                                hidden,
                                flatten,
                                false,
                                isubs.as_slice(),
                                path,
                                registry,
                                Ghost(rank),
                                Ghost(false),
                                Ghost(rank(k) as int),
                            );
                        },
                    }
                },
            }
        },
    }
}

/// Compile a shape into the tree of its named parts (see the module
/// doc). Parts whose paths are in `hidden` add no geometry, and parts
/// whose names are in `hidden` carve nothing, but they keep their place
/// in the tree.
pub fn compile(parts: &[SpecNode], registry: &AssetRegistry, hidden: &[String]) -> (r: CompiledShape)
    requires
        walk_ready(registry.entries(), parts@),
        parts_ok(parts@),
    ensures
        compiled_view(r) == compile_spec(registry.entries(), parts@, hidden_view(hidden@)),
{
    let ghost entries = registry.entries();
    let mut all: Vec<SubtractPrimitive> = Vec::new();
    collect_parts_subtracts(parts, identity_placement(), (1, 1, 1), None, hidden, registry, &mut all);
    let mut group = GroupAccumulator::new();
    group.subtract_primitives = copy_subs(all.as_slice());
    assert(group_view(group) == empty_group()) by {
        assert(views_of(group.children@) =~= Seq::<CompiledView>::empty());
    }
    let ghost rank = ready_rank(entries, parts@);
    let ghost bound = ready_bound(entries, parts@);
    proof {
        lemma_ready(entries, parts@);
    }
    let root_path = String::new();
    walk_parts(
        &mut group,
        parts,
        identity_placement(),
        (1, 1, 1),
        None,
        hidden,
        false,
        true,
        all.as_slice(),
        root_path.as_str(),
        registry,
        Ghost(rank),
        Ghost(true),
        Ghost(bound),
    );
    group.finish(None, false)
}

} // verus!
