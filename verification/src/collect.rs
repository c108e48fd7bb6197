//! Building the occupancy index of a shape.
//!
//! Every primitive instance (after symmetry expansion) claims its integer
//! cells, attributed to its authored path. Imports are opaque: the walk
//! does not enter them, and each import copy claims its placement bounds
//! as one region under the import's path, so every collision stays in the
//! shape's own integer coordinates and is attributed to the shape that
//! caused it (the imported shape is checked on its own). Subtract
//! primitives remove the cells they fully cover once everything is
//! claimed.

use vstd::prelude::*;
use crate::bounds::{apply_bounds_spec, apply_placement_to_bounds, hi, is_canonical, lo, negatable};
use crate::occupancy::{apply_subtracts_spec, claim_box_spec, claim_cells, OccView, Occupancy, SubtractVolume};
use crate::placement::{compose_placements, compose_spec, identity_placement, identity_spec, Placement};
use crate::registry::{keys_of, lemma_resolve_index, resolve_index, AssetRegistry, ShapeEntry};
use crate::spec::{
    copy_suffix, effective_name_spec, orient_placement_spec, placements_for, placements_spec,
    primitive_spec, SpecNode,
};
use crate::csg::PrimitiveShape;
use crate::extent::{aabb_for_parts, resolved_bounds};
use crate::text::to_owned_string;

verus! {

// =====================================================================
// Paths
// =====================================================================

/// The authored path of a node named `name` under `parent`.
pub open spec fn append_path_spec(parent: Seq<char>, name: Option<Seq<char>>) -> Seq<char> {
    match name {
        Some(n) => if parent.len() == 0 {
            n
        } else {
            parent + seq!['/'] + n
        },
        None => parent,
    }
}

/// Join a parent path and an optional node name with `/`.
pub fn append_path(parent: &str, name: Option<&str>) -> (r: String)
    ensures
        r@ == append_path_spec(
            parent@,
            match name {
                Some(n) => Some(n@),
                None => None,
            },
        ),
{
    let empty = parent.unicode_len() == 0;
    match name {
        Some(n) => {
            if empty {
                to_owned_string(n)
            } else {
                let mut s = to_owned_string(parent);
                proof {
                    reveal_strlit("/");
                }
                s.append("/");
                s.append(n);
                assert(s@ =~= parent@ + seq!['/'] + n@);
                s
            }
        },
        None => to_owned_string(parent),
    }
}

// =====================================================================
// Preconditions: negatable bounds, no import cycle on the walk
// =====================================================================

/// Every node of the tree has bounds whose coordinates can be negated.
pub open spec fn node_ok(n: SpecNode) -> bool
    decreases n,
{
    &&& (n.bounds is Some ==> negatable(n.bounds->0))
    &&& forall|i: int| 0 <= i < n.children@.len() ==> node_ok(#[trigger] n.children@[i])
}

/// Every node of every part is fine.
pub open spec fn parts_ok(parts: Seq<SpecNode>) -> bool {
    forall|i: int| 0 <= i < parts.len() ==> node_ok(#[trigger] parts[i])
}

/// Every import reached by the walk of `n` resolves, if at all, to an
/// entry of positive rank below `bound`. The children of an import node
/// are not walked.
pub open spec fn imports_below(keys: Seq<Seq<char>>, n: SpecNode, rank: spec_fn(int) -> nat, bound: int) -> bool
    decreases n,
{
    if n.import is Some {
        let k = resolve_index(keys, n.import->0@);
        k >= 0 ==> 0 < rank(k) && rank(k) < bound
    } else {
        forall|i: int|
            0 <= i < n.children@.len() ==> imports_below(keys, #[trigger] n.children@[i], rank, bound)
    }
}

/// Every shape of positive rank only imports shapes of lower positive
/// rank.
pub open spec fn imports_ranked(entries: Seq<ShapeEntry>, rank: spec_fn(int) -> nat) -> bool {
    forall|k: int, i: int|
        0 <= k < entries.len() && rank(k) > 0 && 0 <= i < entries[k].parts@.len() ==> imports_below(
            keys_of(entries),
            #[trigger] entries[k].parts@[i],
            rank,
            rank(k) as int,
        )
}

/// The shapes of positive rank import only shapes of lower positive rank
/// and have negatable bounds everywhere; shapes of rank zero are not
/// used.
pub open spec fn ranked(entries: Seq<ShapeEntry>, rank: spec_fn(int) -> nat) -> bool {
    &&& imports_ranked(entries, rank)
    &&& forall|k: int| 0 <= k < entries.len() && rank(k) > 0 ==> parts_ok(#[trigger] entries[k].parts@)
}

/// `rank` orders the shapes the walk of `parts` reaches, every import of
/// `parts` resolving below `bound`.
pub open spec fn ready_with(entries: Seq<ShapeEntry>, parts: Seq<SpecNode>, rank: spec_fn(int) -> nat, bound: int) -> bool {
    &&& ranked(entries, rank)
    &&& bound >= 0
    &&& forall|i: int| 0 <= i < parts.len() ==> imports_below(keys_of(entries), #[trigger] parts[i], rank, bound)
}

/// The walk of `parts` through the imports reaches no import cycle and
/// only shapes with negatable bounds everywhere. Shapes it does not
/// reach play no part.
pub open spec fn walk_ready(entries: Seq<ShapeEntry>, parts: Seq<SpecNode>) -> bool {
    exists|rank: spec_fn(int) -> nat, bound: int| ready_with(entries, parts, rank, bound)
}

/// A rank and bound witnessing that the walk of `parts` is ready.
pub open spec fn ready_witness(entries: Seq<ShapeEntry>, parts: Seq<SpecNode>) -> (spec_fn(int) -> nat, int) {
    choose|rank: spec_fn(int) -> nat, bound: int| ready_with(entries, parts, rank, bound)
}

/// The rank the walks of `parts` run under.
pub open spec fn ready_rank(entries: Seq<ShapeEntry>, parts: Seq<SpecNode>) -> spec_fn(int) -> nat {
    ready_witness(entries, parts).0
}

/// The bound the imports of `parts` stay under.
pub open spec fn ready_bound(entries: Seq<ShapeEntry>, parts: Seq<SpecNode>) -> int {
    ready_witness(entries, parts).1
}

/// A ready walk runs under its chosen rank and bound.
pub proof fn lemma_ready(entries: Seq<ShapeEntry>, parts: Seq<SpecNode>)
    requires
        walk_ready(entries, parts),
    ensures
        ready_with(entries, parts, ready_rank(entries, parts), ready_bound(entries, parts)),
{
}

/// An entry the walk reaches is ready to be walked itself, under its own
/// rank.
pub proof fn lemma_ready_entry(entries: Seq<ShapeEntry>, rank: spec_fn(int) -> nat, k: int)
    requires
        ranked(entries, rank),
        0 <= k < entries.len(),
        rank(k) > 0,
    ensures
        parts_ok(entries[k].parts@),
        ready_with(entries, entries[k].parts@, rank, rank(k) as int),
        walk_ready(entries, entries[k].parts@),
{
    assert forall|i: int| 0 <= i < entries[k].parts@.len() implies imports_below(
        keys_of(entries),
        #[trigger] entries[k].parts@[i],
        rank,
        rank(k) as int,
    ) by {}
    assert(ready_with(entries, entries[k].parts@, rank, rank(k) as int));
}

/// The walk of `node` is ready: a rank orders the shapes it reaches.
pub open spec fn node_ready(entries: Seq<ShapeEntry>, node: SpecNode) -> bool {
    exists|rank: spec_fn(int) -> nat, bound: int|
        ranked(entries, rank) && imports_below(keys_of(entries), node, rank, bound)
}

/// The walk of every part is ready when the walk of the parts is.
pub proof fn lemma_parts_ready(entries: Seq<ShapeEntry>, parts: Seq<SpecNode>)
    requires
        walk_ready(entries, parts),
    ensures
        forall|i: int| 0 <= i < parts.len() ==> node_ready(entries, #[trigger] parts[i]),
{
    let (rank, bound) = ready_witness(entries, parts);
    assert forall|i: int| 0 <= i < parts.len() implies node_ready(entries, #[trigger] parts[i]) by {
        assert(imports_below(keys_of(entries), parts[i], rank, bound));
    }
}

/// The children of a ready node that is not an import are ready.
pub proof fn lemma_children_ready(entries: Seq<ShapeEntry>, node: SpecNode)
    requires
        node_ready(entries, node),
        node.import is None,
    ensures
        forall|i: int| 0 <= i < node.children@.len() ==> node_ready(entries, #[trigger] node.children@[i]),
{
    let (rank, bound) = choose|rank: spec_fn(int) -> nat, bound: int|
        ranked(entries, rank) && imports_below(keys_of(entries), node, rank, bound);
    assert forall|i: int| 0 <= i < node.children@.len() implies node_ready(entries, #[trigger] node.children@[i]) by {
        assert(imports_below(keys_of(entries), node.children@[i], rank, bound));
    }
}

/// The shape a ready import node resolves to is ready to be walked and
/// has negatable bounds everywhere.
pub proof fn lemma_import_ready(entries: Seq<ShapeEntry>, node: SpecNode)
    requires
        node_ready(entries, node),
        node.import is Some,
    ensures
        ({
            let k = resolve_index(keys_of(entries), node.import->0@);
            0 <= k < entries.len() ==> walk_ready(entries, entries[k].parts@) && parts_ok(entries[k].parts@)
        }),
{
    let (rank, bound) = choose|rank: spec_fn(int) -> nat, bound: int|
        ranked(entries, rank) && imports_below(keys_of(entries), node, rank, bound);
    let k = resolve_index(keys_of(entries), node.import->0@);
    if 0 <= k < entries.len() {
        lemma_ready_entry(entries, rank, k);
    }
}

// =====================================================================
// The walk, as a function of the index state
// =====================================================================

/// Whether the walk may enter entry `k` from its current level: always
/// from the top level (`top`), otherwise only to a lower rank.
pub open spec fn may_enter(rank: spec_fn(int) -> nat, top: bool, bound: int, k: int) -> bool {
    top || (rank(k) as int) < bound
}

/// The empty index.
pub open spec fn empty_view() -> OccView {
    OccView { cells: Seq::empty(), subtracts: Seq::empty(), collisions: Seq::empty() }
}

/// The occupancy of a parts list: every part walked from the root with no
/// placement, then the subtracts applied.
pub open spec fn occupancy_spec(entries: Seq<ShapeEntry>, parts: Seq<SpecNode>) -> OccView {
    apply_subtracts_spec(walk_parts_spec(entries, empty_view(), parts, parts.len() as int))
}

/// Walk the first `n` parts.
pub open spec fn walk_parts_spec(entries: Seq<ShapeEntry>, v: OccView, parts: Seq<SpecNode>, n: int) -> OccView
    decreases parts, 0int, n,
{
    if n <= 0 || n > parts.len() {
        v
    } else {
        let prev = walk_parts_spec(entries, v, parts, n - 1);
        walk_node_spec(entries, prev, parts[n - 1], Seq::empty(), identity_spec())
    }
}

/// Walk one node: each of its symmetry copies in turn.
pub open spec fn walk_node_spec(
    entries: Seq<ShapeEntry>,
    v: OccView,
    node: SpecNode,
    parent_path: Seq<char>,
    inherited: Placement,
) -> OccView
    decreases node, 3int, 0int,
{
    let ps = node_placements(node);
    walk_copies_spec(entries, v, node, append_path_spec(parent_path, effective_name_spec(node)), inherited, ps, ps.len() as int)
}

/// The placements of a node's symmetry copies.
pub open spec fn node_placements(node: SpecNode) -> Seq<Placement> {
    placements_spec(
        node.symmetry@,
        node.bounds,
        Some(
            match primitive_spec(node) {
                Some((s, _)) => s,
                None => PrimitiveShape::Box,
            },
        ),
        orient_placement_spec(node),
    )
}

/// Walk the first `n` copies of a node. Copy `i` is placed by
/// `inherited ∘ ps[i]` and named by the base path plus its suffix.
pub open spec fn walk_copies_spec(
    entries: Seq<ShapeEntry>,
    v: OccView,
    node: SpecNode,
    base: Seq<char>,
    inherited: Placement,
    ps: Seq<Placement>,
    n: int,
) -> OccView
    decreases node, 2int, n,
{
    if n <= 0 || n > ps.len() {
        v
    } else {
        let prev = walk_copies_spec(entries, v, node, base, inherited, ps, n - 1);
        let combined = compose_spec(inherited, ps[n - 1]);
        let path = base + copy_suffix((n - 1) as nat);
        if node.import is Some {
            walk_import_spec(entries, prev, node, path, combined)
        } else {
            walk_single_spec(entries, prev, node, path, combined)
        }
    }
}

/// A non-import copy: its own primitive is claimed (or recorded as a
/// subtract volume), then its children are walked under the same
/// placement.
pub open spec fn walk_single_spec(entries: Seq<ShapeEntry>, v: OccView, node: SpecNode, path: Seq<char>, placement: Placement) -> OccView
    decreases node, 1int, node.children@.len() + 1,
{
    let own = match (primitive_spec(node), node.bounds) {
        (Some((shape, orient_p)), Some(b)) => {
            let transformed = apply_bounds_spec(placement, b);
            if node.subtract {
                OccView {
                    subtracts: v.subtracts.push(
                        SubtractVolume {
                            shape,
                            orient_placement: compose_spec(placement, orient_p),
                            bounds: transformed,
                        },
                    ),
                    ..v
                }
            } else {
                claim_box_spec(
                    v,
                    lo(transformed, 0),
                    hi(transformed, 0),
                    lo(transformed, 1),
                    hi(transformed, 1),
                    lo(transformed, 2),
                    hi(transformed, 2),
                    identity_spec(),
                    path,
                )
            }
        },
        _ => v,
    };
    walk_children_spec(entries, own, node, path, placement, node.children@.len() as int)
}

/// Walk the first `n` children of a node.
pub open spec fn walk_children_spec(
    entries: Seq<ShapeEntry>,
    v: OccView,
    node: SpecNode,
    path: Seq<char>,
    placement: Placement,
    n: int,
) -> OccView
    decreases node, 1int, n,
{
    if n <= 0 || n > node.children@.len() {
        v
    } else {
        let prev = walk_children_spec(entries, v, node, path, placement, n - 1);
        walk_node_spec(entries, prev, node.children@[n - 1], path, placement)
    }
}

/// An import copy is opaque: it claims its placement bounds as one region
/// under the import's path and is not entered. The placement bounds are
/// the import's own bounds, or, without them, the enclosing bounds of the
/// shape it imports; an import with neither claims nothing.
pub open spec fn walk_import_spec(entries: Seq<ShapeEntry>, v: OccView, node: SpecNode, path: Seq<char>, inherited: Placement) -> OccView {
    match resolved_bounds(entries, node) {
        Some(b) => {
            let t = apply_bounds_spec(inherited, b);
            claim_box_spec(v, lo(t, 0), hi(t, 0), lo(t, 1), hi(t, 1), lo(t, 2), hi(t, 2), identity_spec(), path)
        },
        None => v,
    }
}

/// The subtract volumes of `b` begin with those of `a`.
pub open spec fn extends_subtracts(a: OccView, b: OccView) -> bool {
    &&& b.subtracts.len() >= a.subtracts.len()
    &&& b.subtracts.subrange(0, a.subtracts.len() as int) == a.subtracts
}

proof fn lemma_extends_trans(a: OccView, b: OccView, c: OccView)
    requires
        extends_subtracts(a, b),
        extends_subtracts(b, c),
    ensures
        extends_subtracts(a, c),
{
    assert(c.subtracts.subrange(0, a.subtracts.len() as int) =~= b.subtracts.subrange(0, a.subtracts.len() as int));
}

proof fn lemma_claim_row_keeps(v: OccView, x0: int, x1: int, y: int, z: int, p: Placement, path: Seq<char>)
    ensures
        crate::occupancy::claim_row_spec(v, x0, x1, y, z, p, path).subtracts == v.subtracts,
    decreases x1 - x0,
{
    if x1 > x0 {
        lemma_claim_row_keeps(v, x0, x1 - 1, y, z, p, path);
    }
}

proof fn lemma_claim_layer_keeps(v: OccView, x0: int, x1: int, y0: int, y1: int, z: int, p: Placement, path: Seq<char>)
    ensures
        crate::occupancy::claim_layer_spec(v, x0, x1, y0, y1, z, p, path).subtracts == v.subtracts,
    decreases y1 - y0,
{
    if y1 > y0 {
        lemma_claim_layer_keeps(v, x0, x1, y0, y1 - 1, z, p, path);
        lemma_claim_row_keeps(crate::occupancy::claim_layer_spec(v, x0, x1, y0, y1 - 1, z, p, path), x0, x1, y1 - 1, z, p, path);
    }
}

proof fn lemma_claim_box_keeps(v: OccView, x0: int, x1: int, y0: int, y1: int, z0: int, z1: int, p: Placement, path: Seq<char>)
    ensures
        claim_box_spec(v, x0, x1, y0, y1, z0, z1, p, path).subtracts == v.subtracts,
    decreases z1 - z0,
{
    if z1 > z0 {
        lemma_claim_box_keeps(v, x0, x1, y0, y1, z0, z1 - 1, p, path);
        lemma_claim_layer_keeps(claim_box_spec(v, x0, x1, y0, y1, z0, z1 - 1, p, path), x0, x1, y0, y1, z1 - 1, p, path);
    }
}

proof fn lemma_node_extends(entries: Seq<ShapeEntry>, v: OccView, node: SpecNode, parent_path: Seq<char>, inherited: Placement)
    ensures
        extends_subtracts(v, walk_node_spec(entries, v, node, parent_path, inherited)),
    decreases node, 3int, 0int,
{
    let ps = node_placements(node);
    lemma_copies_extends(
        entries,
        v,
        node,
        append_path_spec(parent_path, effective_name_spec(node)),
        inherited,
        ps,
        ps.len() as int,
    );
}

proof fn lemma_copies_extends(
    entries: Seq<ShapeEntry>,
    v: OccView,
    node: SpecNode,
    base: Seq<char>,
    inherited: Placement,
    ps: Seq<Placement>,
    n: int,
)
    ensures
        extends_subtracts(v, walk_copies_spec(entries, v, node, base, inherited, ps, n)),
    decreases node, 2int, n,
{
    if n <= 0 || n > ps.len() {
        assert(v.subtracts.subrange(0, v.subtracts.len() as int) =~= v.subtracts);
    } else {
        lemma_copies_extends(entries, v, node, base, inherited, ps, n - 1);
        let prev = walk_copies_spec(entries, v, node, base, inherited, ps, n - 1);
        let combined = compose_spec(inherited, ps[n - 1]);
        let path = base + copy_suffix((n - 1) as nat);
        if node.import is Some {
            let r = walk_import_spec(entries, prev, node, path, combined);
            match resolved_bounds(entries, node) {
                Some(b) => {
                    let t = apply_bounds_spec(combined, b);
                    lemma_claim_box_keeps(prev, lo(t, 0), hi(t, 0), lo(t, 1), hi(t, 1), lo(t, 2), hi(t, 2), identity_spec(), path);
                },
                None => {},
            }
            assert(r.subtracts == prev.subtracts);
            assert(extends_subtracts(prev, r)) by {
                assert(r.subtracts.subrange(0, prev.subtracts.len() as int) =~= prev.subtracts);
            }
            lemma_extends_trans(v, prev, r);
        } else {
            lemma_single_extends(entries, prev, node, path, combined);
            lemma_extends_trans(v, prev, walk_single_spec(entries, prev, node, path, combined));
        }
    }
}

proof fn lemma_single_extends(entries: Seq<ShapeEntry>, v: OccView, node: SpecNode, path: Seq<char>, placement: Placement)
    ensures
        extends_subtracts(v, walk_single_spec(entries, v, node, path, placement)),
    decreases node, 1int, node.children@.len() + 1,
{
    let own = match (primitive_spec(node), node.bounds) {
        (Some((shape, orient_p)), Some(b)) => {
            let transformed = apply_bounds_spec(placement, b);
            if node.subtract {
                OccView {
                    subtracts: v.subtracts.push(SubtractVolume { shape, orient_placement: compose_spec(placement, orient_p), bounds: transformed }),
                    ..v
                }
            } else {
                claim_box_spec(
                    v,
                    lo(transformed, 0),
                    hi(transformed, 0),
                    lo(transformed, 1),
                    hi(transformed, 1),
                    lo(transformed, 2),
                    hi(transformed, 2),
                    identity_spec(),
                    path,
                )
            }
        },
        _ => v,
    };
    match (primitive_spec(node), node.bounds) {
        (Some((shape, orient_p)), Some(b)) => {
            let t = apply_bounds_spec(placement, b);
            if !node.subtract {
                lemma_claim_box_keeps(v, lo(t, 0), hi(t, 0), lo(t, 1), hi(t, 1), lo(t, 2), hi(t, 2), identity_spec(), path);
            }
        },
        _ => {},
    }
    assert(extends_subtracts(v, own)) by {
        assert(own.subtracts.subrange(0, v.subtracts.len() as int) =~= v.subtracts);
    }
    lemma_children_extends(entries, own, node, path, placement, node.children@.len() as int);
    lemma_extends_trans(v, own, walk_children_spec(entries, own, node, path, placement, node.children@.len() as int));
}

proof fn lemma_children_extends(
    entries: Seq<ShapeEntry>,
    v: OccView,
    node: SpecNode,
    path: Seq<char>,
    placement: Placement,
    n: int,
)
    ensures
        extends_subtracts(v, walk_children_spec(entries, v, node, path, placement, n)),
    decreases node, 1int, n,
{
    if n <= 0 || n > node.children@.len() {
        assert(v.subtracts.subrange(0, v.subtracts.len() as int) =~= v.subtracts);
    } else {
        lemma_children_extends(entries, v, node, path, placement, n - 1);
        let prev = walk_children_spec(entries, v, node, path, placement, n - 1);
        lemma_node_extends(entries, prev, node.children@[n - 1], path, placement);
        lemma_extends_trans(v, prev, walk_node_spec(entries, prev, node.children@[n - 1], path, placement));
    }
}

/// A subtract node records its own subtract volume first, and that
/// volume follows the placement the node is walked under: walked under
/// the identity it is the node's own primitive (its shape and
/// orientation, over its bounds); walked under `q` it is that volume
/// moved by `q`, its orientation composed after `q` and its bounds
/// placed by `q`. Nothing the walk of its children adds comes before it.
pub proof fn lemma_subtract_follows_placement(
    entries: Seq<ShapeEntry>,
    v: OccView,
    node: SpecNode,
    path: Seq<char>,
    q: Placement,
)
    requires
        node.subtract,
        primitive_spec(node) is Some,
    ensures
        ({
            let a = walk_single_spec(entries, v, node, path, identity_spec());
            let b = walk_single_spec(entries, v, node, path, q);
            let k = v.subtracts.len() as int;
            let prim = primitive_spec(node)->0;
            &&& a.subtracts.len() > k && b.subtracts.len() > k
            &&& a.subtracts[k].shape == prim.0
            &&& a.subtracts[k].orient_placement == prim.1
            &&& a.subtracts[k].bounds == apply_bounds_spec(identity_spec(), node.bounds->0)
            &&& b.subtracts[k].shape == a.subtracts[k].shape
            &&& b.subtracts[k].orient_placement == compose_spec(q, a.subtracts[k].orient_placement)
            &&& b.subtracts[k].bounds == apply_bounds_spec(q, node.bounds->0)
        }),
{
    let k = v.subtracts.len() as int;
    let prim = primitive_spec(node)->0;
    let b0 = node.bounds->0;
    crate::placement::lemma_compose_identity(prim.1);
    let own_a = OccView {
        subtracts: v.subtracts.push(
            SubtractVolume {
                shape: prim.0,
                orient_placement: compose_spec(identity_spec(), prim.1),
                bounds: apply_bounds_spec(identity_spec(), b0),
            },
        ),
        ..v
    };
    let own_b = OccView {
        subtracts: v.subtracts.push(
            SubtractVolume { shape: prim.0, orient_placement: compose_spec(q, prim.1), bounds: apply_bounds_spec(q, b0) },
        ),
        ..v
    };
    let n = node.children@.len() as int;
    lemma_children_extends(entries, own_a, node, path, identity_spec(), n);
    lemma_children_extends(entries, own_b, node, path, q, n);
    let a = walk_single_spec(entries, v, node, path, identity_spec());
    let b = walk_single_spec(entries, v, node, path, q);
    assert(a == walk_children_spec(entries, own_a, node, path, identity_spec(), n));
    assert(b == walk_children_spec(entries, own_b, node, path, q, n));
    assert(a.subtracts[k] == a.subtracts.subrange(0, own_a.subtracts.len() as int)[k]);
    assert(b.subtracts[k] == b.subtracts.subrange(0, own_b.subtracts.len() as int)[k]);
}

// =====================================================================
// The walk
// =====================================================================

/// Every pending subtract volume has its corners sorted.
pub open spec fn subtracts_canonical(v: OccView) -> bool {
    forall|k: int| 0 <= k < v.subtracts.len() ==> is_canonical(#[trigger] v.subtracts[k].bounds)
}

/// Walk one node with all its symmetry copies.
fn walk_for_occupancy(
    occ: &mut Occupancy,
    node: &SpecNode,
    parent_path: &str,
    inherited: Placement,
    registry: &AssetRegistry,
)
    requires
        old(occ).wf(),
        subtracts_canonical(old(occ)@),
        node_ok(*node),
        node_ready(registry.entries(), *node),
    ensures
        final(occ)@ == walk_node_spec(registry.entries(), old(occ)@, *node, parent_path@, inherited),
        final(occ).wf(),
        subtracts_canonical(final(occ)@),
    decreases *node, 3int, 0int,
{
    let ghost entries = registry.entries();
    let ghost v0 = occ@;
    let base = append_path(parent_path, node.effective_name());
    assert(base@ == append_path_spec(parent_path@, effective_name_spec(*node)));
    let ps = placements_for(node);
    let ghost sps = node_placements(*node);
    let mut i: usize = 0;
    while i < ps.len()
        invariant
            i <= ps@.len(),
            ps@.len() == sps.len(),
            forall|j: int| 0 <= j < ps@.len() ==> (#[trigger] ps@[j]).0 == sps[j] && ps@[j].1@ == copy_suffix(j as nat),
            sps == node_placements(*node),
            occ.wf(),
            subtracts_canonical(occ@),
            occ@ == walk_copies_spec(entries, v0, *node, base@, inherited, sps, i as int),
            entries == registry.entries(),
            node_ok(*node),
            node_ready(entries, *node),
        decreases ps@.len() - i,
    {
        let combined = compose_placements(inherited, ps[i].0);
        let mut path = to_owned_string(base.as_str());
        path.append(ps[i].1.as_str());
        match &node.import {
            Some(name) => {
                walk_import_for_occupancy(occ, node, name.as_str(), path.as_str(), combined, registry);
            },
            None => {
                walk_single_for_occupancy(occ, node, path.as_str(), combined, registry);
            },
        }
        i = i + 1;
    }
}

/// Claim a non-import copy's own primitive (or record it as a subtract),
/// then walk its children under the same placement.
fn walk_single_for_occupancy(occ: &mut Occupancy, node: &SpecNode, path: &str, placement: Placement, registry: &AssetRegistry)
    requires
        old(occ).wf(),
        subtracts_canonical(old(occ)@),
        node_ok(*node),
        node_ready(registry.entries(), *node),
        node.import is None,
    ensures
        final(occ)@ == walk_single_spec(registry.entries(), old(occ)@, *node, path@, placement),
        final(occ).wf(),
        subtracts_canonical(final(occ)@),
    decreases *node, 1int, node.children@.len() + 1,
{
    let ghost entries = registry.entries();
    match (node.primitive(), node.bounds) {
        (Some((shape, orient_p)), Some(b)) => {
            let transformed = apply_placement_to_bounds(placement, b);
            if node.subtract {
                let sub = SubtractVolume {
                    shape,
                    orient_placement: compose_placements(placement, orient_p),
                    bounds: transformed,
                };
                occ.add_subtract(sub);
            } else {
                claim_cells(occ, &transformed, path);
            }
        },
        _ => {},
    }
    let ghost own = occ@;
    let mut i: usize = 0;
    while i < node.children.len()
        invariant
            i <= node.children@.len(),
            occ.wf(),
            subtracts_canonical(occ@),
            occ@ == walk_children_spec(entries, own, *node, path@, placement, i as int),
            entries == registry.entries(),
            node_ok(*node),
            node_ready(entries, *node),
            node.import is None,
        decreases node.children@.len() - i,
    {
        assert(node_ok(node.children@[i as int]));
        proof {
            lemma_children_ready(entries, *node);
        }
        walk_for_occupancy(occ, &node.children[i], path, placement, registry);
        i = i + 1;
    }
}

/// Claim an import copy's placement bounds as one opaque region.
fn walk_import_for_occupancy(
    occ: &mut Occupancy,
    node: &SpecNode,
    name: &str,
    path: &str,
    inherited: Placement,
    registry: &AssetRegistry,
)
    requires
        old(occ).wf(),
        subtracts_canonical(old(occ)@),
        node_ok(*node),
        node_ready(registry.entries(), *node),
        node.import is Some && node.import->0@ == name@,
    ensures
        final(occ)@ == walk_import_spec(registry.entries(), old(occ)@, *node, path@, inherited),
        final(occ).wf(),
        subtracts_canonical(final(occ)@),
{
    let ghost entries = registry.entries();
    let pb = match node.bounds {
        Some(b) => Some(b),
        None => {
            let ghost k = resolve_index(keys_of(entries), name@);
            match registry.get_shape(name) {
                Some(parts) => {
                    proof {
                        lemma_resolve_index(keys_of(entries), name@);
                        lemma_import_ready(entries, *node);
                    }
                    aabb_for_parts(parts, registry)
                },
                None => None,
            }
        },
    };
    assert(pb == resolved_bounds(entries, *node));
    if let Some(b) = pb {
        let t = apply_placement_to_bounds(inherited, b);
        claim_cells(occ, &t, path);
    }
}

/// Walk a shape's parts and build its occupancy index: every primitive
/// instance (after symmetry expansion) claims its cells under its
/// authored path, every import claims its placement bounds as one opaque
/// region, and subtracts remove the cells they fully cover.
pub fn collect_occupancy(parts: &[SpecNode], registry: &AssetRegistry) -> (r: Occupancy)
    requires
        walk_ready(registry.entries(), parts@),
        parts_ok(parts@),
    ensures
        r@ == occupancy_spec(registry.entries(), parts@),
        r.wf(),
{
    let ghost entries = registry.entries();
    let mut occ = Occupancy::new();
    assert(occ@.cells =~= empty_view().cells);
    assert(occ@.subtracts =~= empty_view().subtracts);
    assert(occ@.collisions =~= empty_view().collisions);
    let mut i: usize = 0;
    while i < parts.len()
        invariant
            i <= parts@.len(),
            occ.wf(),
            subtracts_canonical(occ@),
            occ@ == walk_parts_spec(entries, empty_view(), parts@, i as int),
            entries == registry.entries(),
            parts_ok(parts@),
            walk_ready(entries, parts@),
        decreases parts@.len() - i,
    {
        proof {
            lemma_parts_ready(entries, parts@);
        }
        let empty = String::new();
        let id = identity_placement();
        assert(empty@ =~= Seq::<char>::empty());
        walk_for_occupancy(&mut occ, &parts[i], empty.as_str(), id, registry);
        i = i + 1;
    }
    occ.apply_subtracts();
    occ
}

} // verus!
