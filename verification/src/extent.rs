//! The enclosing bounds of a parts list, and remapping every bound of a
//! parts list from one coordinate space to another.
//!
//! An import without explicit bounds takes the enclosing bounds of the
//! shape it imports, so both walks reach into the registry.

use vstd::prelude::*;
use crate::bounds::{
    apply_bounds_spec, apply_placement_to_bounds, hi, include_point, lo, negatable, remap_fits,
    remap_spec, Bounds,
};
use crate::collect::{
    imports_below, lemma_ready, lemma_ready_entry, may_enter, node_ok, node_placements, parts_ok, ranked, ready_bound,
    ready_rank, ready_with, walk_ready,
};
use crate::placement::{compose_placements, compose_spec, identity_placement, identity_spec, Placement};
use crate::registry::{keys_of, resolve_index, AssetRegistry, ShapeEntry};
use crate::spec::{placements_for, SpecNode};

verus! {

/// Running corners of an enclosing box: lowest corner, highest corner,
/// and whether any point was included.
pub type BoxAcc = ((i32, i32, i32), (i32, i32, i32), bool);

pub open spec fn min3(a: (i32, i32, i32), b: (i32, i32, i32)) -> (i32, i32, i32) {
    (
        if a.0 <= b.0 { a.0 } else { b.0 },
        if a.1 <= b.1 { a.1 } else { b.1 },
        if a.2 <= b.2 { a.2 } else { b.2 },
    )
}

pub open spec fn max3(a: (i32, i32, i32), b: (i32, i32, i32)) -> (i32, i32, i32) {
    (
        if a.0 >= b.0 { a.0 } else { b.0 },
        if a.1 >= b.1 { a.1 } else { b.1 },
        if a.2 >= b.2 { a.2 } else { b.2 },
    )
}

/// Grow the running box to include point `p`.
pub open spec fn include_spec(acc: BoxAcc, p: (i32, i32, i32)) -> BoxAcc {
    (min3(acc.0, p), max3(acc.1, p), true)
}

/// Grow the running box to include both corners of `b`.
pub open spec fn include_bounds_spec(acc: BoxAcc, b: Bounds) -> BoxAcc {
    include_spec(
        include_spec(acc, (lo(b, 0) as i32, lo(b, 1) as i32, lo(b, 2) as i32)),
        (hi(b, 0) as i32, hi(b, 1) as i32, hi(b, 2) as i32),
    )
}

/// The empty running box.
pub open spec fn empty_acc() -> BoxAcc {
    ((i32::MAX, i32::MAX, i32::MAX), (i32::MIN, i32::MIN, i32::MIN), false)
}

/// The lowest corner never sits at `i32::MIN`, and once a point is
/// included neither does the highest.
pub open spec fn acc_ok(acc: BoxAcc) -> bool {
    &&& acc.0.0 > i32::MIN && acc.0.1 > i32::MIN && acc.0.2 > i32::MIN
    &&& acc.2 ==> acc.1.0 > i32::MIN && acc.1.1 > i32::MIN && acc.1.2 > i32::MIN
}

/// The bounds a running box describes, if it saw any point.
pub open spec fn acc_bounds(acc: BoxAcc) -> Option<Bounds> {
    if acc.2 {
        Some(Bounds(acc.0.0, acc.0.1, acc.0.2, acc.1.0, acc.1.1, acc.1.2))
    } else {
        None
    }
}

/// The enclosing bounds of a parts list: both corners of every placed
/// bound of every symmetry copy of every node.
pub open spec fn aabb_walk_spec(
    entries: Seq<ShapeEntry>,
    rank: spec_fn(int) -> nat,
    top: bool,
    bound: int,
    parts: Seq<SpecNode>,
) -> Option<Bounds>
    decreases (if top { 1int } else { 0 }), bound, parts, 1int, 0int,
{
    acc_bounds(acc_parts_spec(entries, rank, top, bound, empty_acc(), parts, parts.len() as int))
}

/// Include the first `n` parts.
pub open spec fn acc_parts_spec(
    entries: Seq<ShapeEntry>,
    rank: spec_fn(int) -> nat,
    top: bool,
    bound: int,
    acc: BoxAcc,
    parts: Seq<SpecNode>,
    n: int,
) -> BoxAcc
    decreases (if top { 1int } else { 0 }), bound, parts, 0int, n,
{
    if n <= 0 || n > parts.len() {
        acc
    } else {
        let prev = acc_parts_spec(entries, rank, top, bound, acc, parts, n - 1);
        acc_node_spec(entries, rank, top, bound, prev, parts[n - 1], identity_spec())
    }
}

/// Include every symmetry copy of a node.
pub open spec fn acc_node_spec(
    entries: Seq<ShapeEntry>,
    rank: spec_fn(int) -> nat,
    top: bool,
    bound: int,
    acc: BoxAcc,
    node: SpecNode,
    inherited: Placement,
) -> BoxAcc
    decreases (if top { 1int } else { 0 }), bound, node, 3int, 0int,
{
    let ps = node_placements(node);
    acc_copies_spec(entries, rank, top, bound, acc, node, inherited, ps, ps.len() as int)
}

/// Include the first `n` copies of a node.
pub open spec fn acc_copies_spec(
    entries: Seq<ShapeEntry>,
    rank: spec_fn(int) -> nat,
    top: bool,
    bound: int,
    acc: BoxAcc,
    node: SpecNode,
    inherited: Placement,
    ps: Seq<Placement>,
    n: int,
) -> BoxAcc
    decreases (if top { 1int } else { 0 }), bound, node, 2int, n,
{
    if n <= 0 || n > ps.len() {
        acc
    } else {
        let prev = acc_copies_spec(entries, rank, top, bound, acc, node, inherited, ps, n - 1);
        acc_single_spec(entries, rank, top, bound, prev, node, compose_spec(inherited, ps[n - 1]))
    }
}

/// The bounds an import node occupies before placement: its explicit
/// bounds, otherwise the enclosing bounds of the shape it imports.
pub open spec fn import_bounds_spec(
    entries: Seq<ShapeEntry>,
    rank: spec_fn(int) -> nat,
    top: bool,
    bound: int,
    node: SpecNode,
) -> Option<Bounds>
    decreases (if top { 1int } else { 0 }), bound, node, 0int, 0int,
{
    match node.bounds {
        Some(b) => Some(b),
        None => {
            let k = resolve_index(keys_of(entries), node.import->0@);
            if k < 0 || k >= entries.len() || !may_enter(rank, top, bound, k) {
                None
            } else {
                aabb_walk_spec(entries, rank, false, rank(k) as int, entries[k].parts@)
            }
        },
    }
}

/// Include one copy of a node: an import's bounds, or the node's own
/// bounds followed by its children.
pub open spec fn acc_single_spec(
    entries: Seq<ShapeEntry>,
    rank: spec_fn(int) -> nat,
    top: bool,
    bound: int,
    acc: BoxAcc,
    node: SpecNode,
    placement: Placement,
) -> BoxAcc
    decreases (if top { 1int } else { 0 }), bound, node, 1int, node.children@.len() + 1,
{
    if node.import is Some {
        match import_bounds_spec(entries, rank, top, bound, node) {
            Some(b) => include_bounds_spec(acc, apply_bounds_spec(placement, b)),
            None => acc,
        }
    } else {
        let own = match node.bounds {
            Some(b) => include_bounds_spec(acc, apply_bounds_spec(placement, b)),
            None => acc,
        };
        acc_children_spec(entries, rank, top, bound, own, node, placement, node.children@.len() as int)
    }
}

/// Include the first `n` children of a node.
pub open spec fn acc_children_spec(
    entries: Seq<ShapeEntry>,
    rank: spec_fn(int) -> nat,
    top: bool,
    bound: int,
    acc: BoxAcc,
    node: SpecNode,
    placement: Placement,
    n: int,
) -> BoxAcc
    decreases (if top { 1int } else { 0 }), bound, node, 1int, n,
{
    if n <= 0 || n > node.children@.len() {
        acc
    } else {
        let prev = acc_children_spec(entries, rank, top, bound, acc, node, placement, n - 1);
        acc_node_spec(entries, rank, top, bound, prev, node.children@[n - 1], placement)
    }
}

/// The enclosing bounds of a parts list, resolving imports through the
/// registry's entries.
pub open spec fn parts_aabb_spec(entries: Seq<ShapeEntry>, parts: Seq<SpecNode>) -> Option<Bounds> {
    aabb_walk_spec(entries, ready_rank(entries, parts), true, ready_bound(entries, parts), parts)
}

fn include_bounds(acc: &mut BoxAcc, b: Bounds)
    requires
        acc_ok(*old(acc)),
        negatable(b),
    ensures
        *final(acc) == include_bounds_spec(*old(acc), b),
        acc_ok(*final(acc)),
{
    let mn = b.min();
    let mx = b.max();
    include_point(&mut acc.0, &mut acc.1, mn, &mut acc.2);
    include_point(&mut acc.0, &mut acc.1, mx, &mut acc.2);
}

fn aabb_inner(
    parts: &[SpecNode],
    registry: &AssetRegistry,
    Ghost(rank): Ghost<spec_fn(int) -> nat>,
    Ghost(top): Ghost<bool>,
    Ghost(bound): Ghost<int>,
) -> (r: Option<Bounds>)
    requires
        ranked(registry.entries(), rank),
        parts_ok(parts@),
        forall|i: int|
            0 <= i < parts@.len() ==> imports_below(keys_of(registry.entries()), #[trigger] parts@[i], rank, bound),
        bound >= 0,
    ensures
        r == aabb_walk_spec(registry.entries(), rank, top, bound, parts@),
        r matches Some(b) ==> negatable(b),
    decreases (if top { 1int } else { 0 }), bound, parts@, 1int, 0int,
{
    let ghost entries = registry.entries();
    let mut acc: BoxAcc = ((i32::MAX, i32::MAX, i32::MAX), (i32::MIN, i32::MIN, i32::MIN), false);
    let mut i: usize = 0;
    while i < parts.len()
        invariant
            i <= parts@.len(),
            acc_ok(acc),
            acc == acc_parts_spec(entries, rank, top, bound, empty_acc(), parts@, i as int),
            entries == registry.entries(),
            ranked(entries, rank),
            parts_ok(parts@),
            forall|j: int|
                0 <= j < parts@.len() ==> imports_below(keys_of(entries), #[trigger] parts@[j], rank, bound),
            bound >= 0,
        decreases parts@.len() - i,
    {
        collect_bounds(&mut acc, &parts[i], identity_placement(), registry, Ghost(rank), Ghost(top), Ghost(bound));
        i = i + 1;
    }
    if acc.2 {
        Some(Bounds(acc.0.0, acc.0.1, acc.0.2, acc.1.0, acc.1.1, acc.1.2))
    } else {
        None
    }
}

fn collect_bounds(
    acc: &mut BoxAcc,
    node: &SpecNode,
    inherited: Placement,
    registry: &AssetRegistry,
    Ghost(rank): Ghost<spec_fn(int) -> nat>,
    Ghost(top): Ghost<bool>,
    Ghost(bound): Ghost<int>,
)
    requires
        acc_ok(*old(acc)),
        ranked(registry.entries(), rank),
        node_ok(*node),
        imports_below(keys_of(registry.entries()), *node, rank, bound),
        bound >= 0,
    ensures
        *final(acc) == acc_node_spec(registry.entries(), rank, top, bound, *old(acc), *node, inherited),
        acc_ok(*final(acc)),
    decreases (if top { 1int } else { 0 }), bound, *node, 3int, 0int,
{
    let ghost entries = registry.entries();
    let ghost a0 = *acc;
    let ps = placements_for(node);
    let ghost sps = node_placements(*node);
    let mut i: usize = 0;
    while i < ps.len()
        invariant
            i <= ps@.len(),
            ps@.len() == sps.len(),
            forall|j: int| 0 <= j < ps@.len() ==> (#[trigger] ps@[j]).0 == sps[j],
            sps == node_placements(*node),
            acc_ok(*acc),
            *acc == acc_copies_spec(entries, rank, top, bound, a0, *node, inherited, sps, i as int),
            entries == registry.entries(),
            ranked(entries, rank),
            node_ok(*node),
            imports_below(keys_of(entries), *node, rank, bound),
            bound >= 0,
        decreases ps@.len() - i,
    {
        let combined = compose_placements(inherited, ps[i].0);
        collect_bounds_single(acc, node, combined, registry, Ghost(rank), Ghost(top), Ghost(bound));
        i = i + 1;
    }
}

fn import_bounds(
    node: &SpecNode,
    registry: &AssetRegistry,
    Ghost(rank): Ghost<spec_fn(int) -> nat>,
    Ghost(top): Ghost<bool>,
    Ghost(bound): Ghost<int>,
) -> (r: Option<Bounds>)
    requires
        ranked(registry.entries(), rank),
        node_ok(*node),
        node.import is Some,
        imports_below(keys_of(registry.entries()), *node, rank, bound),
        bound >= 0,
    ensures
        r == import_bounds_spec(registry.entries(), rank, top, bound, *node),
        r matches Some(b) ==> negatable(b),
    decreases (if top { 1int } else { 0 }), bound, *node, 0int, 0int,
{
    let ghost entries = registry.entries();
    match node.bounds {
        Some(b) => Some(b),
        None => {
            let name = match &node.import {
                Some(n) => n.as_str(),
                None => {
                    return None;
                },
            };
            let ghost k = resolve_index(keys_of(entries), name@);
            match registry.get_shape(name) {
                None => None,
                Some(parts) => {
                    proof {
                        assert(parts_ok(entries[k].parts@));
                        assert forall|i: int| 0 <= i < parts@.len() implies imports_below(
                            keys_of(entries),
                            #[trigger] parts@[i],
                            rank,
                            rank(k) as int,
                        ) by {
                            assert(imports_below(keys_of(entries), entries[k].parts@[i], rank, rank(k) as int));
                        }
                    }
                    aabb_inner(parts, registry, Ghost(rank), Ghost(false), Ghost(rank(k) as int))
                },
            }
        },
    }
}

fn collect_bounds_single(
    acc: &mut BoxAcc,
    node: &SpecNode,
    placement: Placement,
    registry: &AssetRegistry,
    Ghost(rank): Ghost<spec_fn(int) -> nat>,
    Ghost(top): Ghost<bool>,
    Ghost(bound): Ghost<int>,
)
    requires
        acc_ok(*old(acc)),
        ranked(registry.entries(), rank),
        node_ok(*node),
        imports_below(keys_of(registry.entries()), *node, rank, bound),
        bound >= 0,
    ensures
        *final(acc) == acc_single_spec(registry.entries(), rank, top, bound, *old(acc), *node, placement),
        acc_ok(*final(acc)),
    decreases (if top { 1int } else { 0 }), bound, *node, 1int, node.children@.len() + 1,
{
    let ghost entries = registry.entries();
    if node.import.is_some() {
        match import_bounds(node, registry, Ghost(rank), Ghost(top), Ghost(bound)) {
            Some(b) => {
                let t = apply_placement_to_bounds(placement, b);
                include_bounds(acc, t);
            },
            None => {},
        }
        return;
    }
    if let Some(b) = node.bounds {
        let t = apply_placement_to_bounds(placement, b);
        include_bounds(acc, t);
    }
    let ghost own = *acc;
    let mut i: usize = 0;
    while i < node.children.len()
        invariant
            i <= node.children@.len(),
            acc_ok(*acc),
            *acc == acc_children_spec(entries, rank, top, bound, own, *node, placement, i as int),
            entries == registry.entries(),
            ranked(entries, rank),
            node_ok(*node),
            node.import is None,
            imports_below(keys_of(entries), *node, rank, bound),
            bound >= 0,
        decreases node.children@.len() - i,
    {
        assert(node_ok(node.children@[i as int]));
        collect_bounds(acc, &node.children[i], placement, registry, Ghost(rank), Ghost(top), Ghost(bound));
        i = i + 1;
    }
}

/// The AABB enclosing all parts and their descendants: both corners of
/// every placed bound of every symmetry copy, an import contributing its
/// explicit bounds or else the enclosing bounds of the shape it imports.
/// `None` when no node has bounds.
pub fn aabb_for_parts(parts: &[SpecNode], registry: &AssetRegistry) -> (r: Option<Bounds>)
    requires
        walk_ready(registry.entries(), parts@),
        parts_ok(parts@),
    ensures
        r == parts_aabb_spec(registry.entries(), parts@),
        r matches Some(b) ==> negatable(b),
{
    let ghost rank = ready_rank(registry.entries(), parts@);
    let ghost bound = ready_bound(registry.entries(), parts@);
    proof {
        lemma_ready(registry.entries(), parts@);
    }
    aabb_inner(parts, registry, Ghost(rank), Ghost(true), Ghost(bound))
}


/// The bounds a node carries once an import without explicit bounds has
/// taken the enclosing bounds of the shape it imports.
pub open spec fn resolved_bounds(entries: Seq<ShapeEntry>, n: SpecNode) -> Option<Bounds> {
    if n.bounds is None && n.import is Some {
        let k = resolve_index(keys_of(entries), n.import->0@);
        if 0 <= k < entries.len() {
            parts_aabb_spec(entries, entries[k].parts@)
        } else {
            None
        }
    } else {
        n.bounds
    }
}

/// Every remapped coordinate of the tree fits in an `i32`.
pub open spec fn remap_ok(entries: Seq<ShapeEntry>, n: SpecNode, from: Bounds, to: Bounds) -> bool
    decreases n,
{
    &&& (resolved_bounds(entries, n) matches Some(b) ==> remap_fits(b, from, to))
    &&& forall|i: int| 0 <= i < n.children@.len() ==> remap_ok(entries, #[trigger] n.children@[i], from, to)
}

/// `new` is `old` with every node's resolved bounds remapped from `from`
/// to `to`, and nothing else changed.
pub open spec fn remapped(entries: Seq<ShapeEntry>, old: SpecNode, new: SpecNode, from: Bounds, to: Bounds) -> bool
    decreases old,
{
    &&& new.bounds == match resolved_bounds(entries, old) {
        Some(b) => Some(remap_spec(b, from, to)),
        None => None,
    }
    &&& new.name == old.name
    &&& new.faces == old.faces
    &&& new.corner == old.corner
    &&& new.clip == old.clip
    &&& new.tags == old.tags
    &&& new.import == old.import
    &&& new.rotate == old.rotate
    &&& new.symmetry == old.symmetry
    &&& new.subtract == old.subtract
    &&& new.children@.len() == old.children@.len()
    &&& forall|i: int|
        0 <= i < old.children@.len() ==> remapped(entries, #[trigger] old.children@[i], new.children@[i], from, to)
}

/// Every import anywhere in the tree of `n`, under import nodes too,
/// resolves, if at all, to an entry of positive rank below `bound`.
pub open spec fn tree_imports_below(keys: Seq<Seq<char>>, n: SpecNode, rank: spec_fn(int) -> nat, bound: int) -> bool
    decreases n,
{
    &&& (n.import is Some ==> {
        let k = resolve_index(keys, n.import->0@);
        k >= 0 ==> 0 < rank(k) && rank(k) < bound
    })
    &&& forall|i: int|
        0 <= i < n.children@.len() ==> tree_imports_below(keys, #[trigger] n.children@[i], rank, bound)
}

/// The shapes whose enclosing bounds a remap of `n` takes are ready to be
/// walked.
pub open spec fn remap_ready(entries: Seq<ShapeEntry>, n: SpecNode) -> bool {
    exists|rank: spec_fn(int) -> nat, bound: int|
        ranked(entries, rank) && tree_imports_below(keys_of(entries), n, rank, bound)
}

impl SpecNode {
    /// Remap bounds from one coordinate space to another, through the
    /// whole subtree. An import node without explicit bounds first takes
    /// the enclosing bounds of the shape it imports, so the remap has
    /// something to transform.
    pub fn remap_bounds(&mut self, from: &Bounds, to: &Bounds, registry: &AssetRegistry)
        requires
            remap_ready(registry.entries(), *old(self)),
            remap_ok(registry.entries(), *old(self), *from, *to),
        ensures
            remapped(registry.entries(), *old(self), *final(self), *from, *to),
        decreases *old(self),
    {
        let ghost entries = registry.entries();
        if self.bounds.is_none() {
            if let Some(import) = &self.import {
                let ghost k = resolve_index(keys_of(entries), import@);
                let resolved = match registry.get_shape(import.as_str()) {
                    Some(parts) => {
                        proof {
                            let (rank, bound) = choose|rank: spec_fn(int) -> nat, bound: int|
                                ranked(entries, rank) && tree_imports_below(keys_of(entries), *old(self), rank, bound);
                            lemma_ready_entry(entries, rank, k);
                        }
                        aabb_for_parts(parts, registry)
                    },
                    None => None,
                };
                self.bounds = resolved;
            }
        }
        if let Some(b) = self.bounds {
            self.bounds = Some(b.remap(from, to));
        }
        let ghost mid = *self;
        let mut i: usize = 0;
        while i < self.children.len()
            invariant
                i <= self.children@.len(),
                self.children@.len() == old(self).children@.len(),
                forall|j: int| i <= j < self.children@.len() ==> self.children@[j] == old(self).children@[j],
                forall|j: int|
                    0 <= j < i ==> remapped(entries, #[trigger] old(self).children@[j], self.children@[j], *from, *to),
                self.bounds == mid.bounds,
                self.name == old(self).name,
                self.faces == old(self).faces,
                self.corner == old(self).corner,
                self.clip == old(self).clip,
                self.tags == old(self).tags,
                self.import == old(self).import,
                self.rotate == old(self).rotate,
                self.symmetry == old(self).symmetry,
                self.subtract == old(self).subtract,
                entries == registry.entries(),
                remap_ready(entries, *old(self)),
                remap_ok(entries, *old(self), *from, *to),
            decreases self.children@.len() - i,
        {
            assert(remap_ok(entries, old(self).children@[i as int], *from, *to));
            proof {
                let (rank, bound) = choose|rank: spec_fn(int) -> nat, bound: int|
                    ranked(entries, rank) && tree_imports_below(keys_of(entries), *old(self), rank, bound);
                assert(tree_imports_below(keys_of(entries), old(self).children@[i as int], rank, bound));
            }
            self.children[i].remap_bounds(from, to, registry);
            i = i + 1;
        }
    }
}

/// Remap all bounds in every part from one coordinate space to another.
pub fn remap_bounds_for_parts(parts: &mut [SpecNode], from: &Bounds, to: &Bounds, registry: &AssetRegistry)
    requires
        forall|i: int| 0 <= i < old(parts)@.len() ==> remap_ready(registry.entries(), #[trigger] old(parts)@[i]),
        forall|i: int| 0 <= i < old(parts)@.len() ==> remap_ok(registry.entries(), #[trigger] old(parts)@[i], *from, *to),
    ensures
        final(parts)@.len() == old(parts)@.len(),
        forall|i: int|
            0 <= i < old(parts)@.len() ==> remapped(registry.entries(), #[trigger] old(parts)@[i], final(parts)@[i], *from, *to),
{
    let ghost entries = registry.entries();
    let mut i: usize = 0;
    while i < parts.len()
        invariant
            i <= parts@.len(),
            parts@.len() == old(parts)@.len(),
            forall|j: int| i <= j < parts@.len() ==> parts@[j] == old(parts)@[j],
            forall|j: int| 0 <= j < i ==> remapped(entries, #[trigger] old(parts)@[j], parts@[j], *from, *to),
            entries == registry.entries(),
            forall|j: int| 0 <= j < old(parts)@.len() ==> remap_ready(entries, #[trigger] old(parts)@[j]),
            forall|j: int| 0 <= j < old(parts)@.len() ==> remap_ok(entries, #[trigger] old(parts)@[j], *from, *to),
        decreases parts@.len() - i,
    {
        assert(remap_ready(entries, old(parts)@[i as int]));
        parts[i].remap_bounds(from, to, registry);
        i = i + 1;
    }
}

} // verus!
