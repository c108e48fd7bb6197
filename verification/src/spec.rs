//! The authored shape tree and symmetry expansion.
//!
//! A shape file is a flat list of `SpecNode` parts. A node may carry
//! integer bounds, a primitive orientation (given by the faces it names),
//! an import of another shape, children, a `rotate` sequence and
//! `symmetry` generators.

use vstd::prelude::*;
use crate::bounds::{apply_bounds_spec, apply_placement_to_bounds, negatable, Bounds};
use crate::csg::{compute_signature, signature_spec, PrimitiveShape};
use crate::placement::{
    compose_orient, compose_orient_spec, compose_placements, compose_spec, faces_placement_spec,
    faces_to_placement, identity_placement, identity_spec, is_permutation,
    lemma_compose_permutation, symop_spec, Face, Placement, SymOp,
};
use crate::text::{after_last, str_after_last};

verus! {

/// A node of the authored shape tree.
#[derive(Debug)]
pub struct SpecNode {
    pub name: Option<String>,
    pub bounds: Option<Bounds>,
    /// Wedge: 2 faces adjacent to the filled half.
    pub faces: Option<[Face; 2]>,
    /// Corner: 3 faces meeting at the filled vertex.
    pub corner: Option<[Face; 3]>,
    /// InverseCorner: 3 faces meeting at the clipped vertex.
    pub clip: Option<[Face; 3]>,
    pub tags: Vec<String>,
    pub import: Option<String>,
    pub children: Vec<SpecNode>,
    /// Single transform applied before symmetry, composed left to right.
    pub rotate: Vec<SymOp>,
    /// Symmetry generators.
    pub symmetry: Vec<SymOp>,
    pub subtract: bool,
}

/// The primitive a node renders as, with the placement its faces give:
/// a Corner, InverseCorner or Wedge when the matching faces are present
/// (checked in that order), a Box otherwise; `None` without bounds.
pub open spec fn primitive_spec(n: SpecNode) -> Option<(PrimitiveShape, Placement)> {
    if n.bounds is None {
        None
    } else if n.corner is Some {
        Some((PrimitiveShape::Corner, faces_placement_spec(n.corner->0@)))
    } else if n.clip is Some {
        Some((PrimitiveShape::InverseCorner, faces_placement_spec(n.clip->0@)))
    } else if n.faces is Some {
        Some((PrimitiveShape::Wedge, faces_placement_spec(n.faces->0@)))
    } else {
        Some((PrimitiveShape::Box, identity_spec()))
    }
}

/// The full orientation of a node: its primitive placement (identity for
/// containers) composed after its `rotate` sequence.
pub open spec fn orient_placement_spec(n: SpecNode) -> Placement {
    let prim_p = match primitive_spec(n) {
        Some((_, p)) => p,
        None => identity_spec(),
    };
    compose_spec(compose_orient_spec(n.rotate@), prim_p)
}

/// The name a node goes by: its explicit name, otherwise the last `/`
/// segment of its import path.
pub open spec fn effective_name_spec(n: SpecNode) -> Option<Seq<char>> {
    if n.name is Some {
        Some(n.name->0@)
    } else if n.import is Some {
        Some(after_last(n.import->0@, '/'))
    } else {
        None
    }
}

impl SpecNode {
    /// Infer the primitive shape and orientation from corner/clip/faces.
    /// Returns None for nodes without bounds.
    pub fn primitive(&self) -> (r: Option<(PrimitiveShape, Placement)>)
        ensures
            r == primitive_spec(*self),
    {
        if self.bounds.is_none() {
            return None;
        }
        if let Some(f) = &self.corner {
            return Some((PrimitiveShape::Corner, faces_to_placement(f.as_slice())));
        }
        if let Some(f) = &self.clip {
            return Some((PrimitiveShape::InverseCorner, faces_to_placement(f.as_slice())));
        }
        if let Some(f) = &self.faces {
            return Some((PrimitiveShape::Wedge, faces_to_placement(f.as_slice())));
        }
        Some((PrimitiveShape::Box, identity_placement()))
    }

    /// The shape type, or None for nodes without bounds.
    pub fn shape(&self) -> (r: Option<PrimitiveShape>)
        ensures
            r == (match primitive_spec(*self) {
                Some((s, _)) => Some(s),
                None => None,
            }),
    {
        match self.primitive() {
            Some((s, _)) => Some(s),
            None => None,
        }
    }

    /// The full orientation: the primitive's own placement composed with
    /// the `rotate` field.
    pub fn orient_placement(&self) -> (r: Placement)
        ensures
            r == orient_placement_spec(*self),
    {
        let prim_p = match self.primitive() {
            Some((_, p)) => p,
            None => identity_placement(),
        };
        let rotate_p = compose_orient(self.rotate.as_slice());
        compose_placements(rotate_p, prim_p)
    }

    /// The effective name of this node: the explicit name, or for imports
    /// the last path segment of the import path (`"frz-b/chassis"` →
    /// `"chassis"`).
    pub fn effective_name(&self) -> (r: Option<&str>)
        ensures
            match r {
                Some(s) => effective_name_spec(*self) == Some(s@),
                None => effective_name_spec(*self) is None,
            },
    {
        if let Some(name) = &self.name {
            return Some(name.as_str());
        }
        if let Some(import) = &self.import {
            return Some(str_after_last(import.as_str(), '/'));
        }
        None
    }
}

// =====================================================================
// Symmetry closure
// =====================================================================

/// One round of the closure: for every element of `snapshot` in order,
/// `gen ∘ element` is appended unless already present.
pub open spec fn round_spec(snapshot: Seq<Placement>, acc: Seq<Placement>, gen: Placement) -> Seq<Placement>
    decreases snapshot.len(),
{
    if snapshot.len() == 0 {
        acc
    } else {
        let prev = round_spec(snapshot.drop_last(), acc, gen);
        let n = compose_spec(gen, snapshot.last());
        if prev.contains(n) {
            prev
        } else {
            prev.push(n)
        }
    }
}

/// Rounds are repeated (at most `fuel` times) until one adds nothing.
pub open spec fn close_under(set: Seq<Placement>, gen: Placement, fuel: nat) -> Seq<Placement>
    decreases fuel,
{
    if fuel == 0 {
        set
    } else {
        let next = round_spec(set, set, gen);
        if next.len() == set.len() {
            set
        } else {
            close_under(next, gen, (fuel - 1) as nat)
        }
    }
}

/// One pass over the generators: the set closed under the first `n`
/// generators in turn.
pub open spec fn pass_spec(set: Seq<Placement>, gens: Seq<SymOp>, n: int) -> Seq<Placement>
    decreases n,
{
    if n <= 0 || n > gens.len() {
        set
    } else {
        close_under(pass_spec(set, gens, n - 1), symop_spec(gens[n - 1]), 48)
    }
}

/// Passes are repeated (at most `fuel` times) until one adds nothing.
pub open spec fn passes(set: Seq<Placement>, gens: Seq<SymOp>, fuel: nat) -> Seq<Placement>
    decreases fuel,
{
    if fuel == 0 {
        set
    } else {
        let next = pass_spec(set, gens, gens.len() as int);
        if next.len() == set.len() {
            set
        } else {
            passes(next, gens, (fuel - 1) as nat)
        }
    }
}

/// The closure of the generators: starting from the identity, passes over
/// the generators are repeated until no generator adds a placement. The
/// result is the least set that holds the identity and is closed under
/// composition with every generator (see `lemma_closure_is_least`).
pub open spec fn closure_spec(gens: Seq<SymOp>) -> Seq<Placement> {
    passes(seq![identity_spec()], gens, 48)
}

/// A list of permutations without repeats.
pub open spec fn perm_list(s: Seq<Placement>) -> bool {
    &&& s.no_duplicates()
    &&& forall|i: int| 0 <= i < s.len() ==> is_permutation(#[trigger] s[i])
}

proof fn lemma_perm_list_len(s: Seq<Placement>)
    requires
        perm_list(s),
    ensures
        s.len() <= 48,
{
    crate::csg::lemma_orientations_are_all_permutations();
    let t = s.map_values(|p: Placement| crate::csg::orientation_index(p));
    assert forall|i: int, j: int| 0 <= i < t.len() && 0 <= j < t.len() && i != j implies t[i]
        != t[j] by {
        assert(is_permutation(s[i]));
        assert(is_permutation(s[j]));
        assert(crate::csg::orientation_spec(crate::csg::orientation_index(s[i])) == s[i]);
        assert(crate::csg::orientation_spec(crate::csg::orientation_index(s[j])) == s[j]);
    }
    assert(t.no_duplicates());
    t.unique_seq_to_set();
    vstd::set_lib::lemma_int_range(0, 48);
    assert forall|x: int| t.to_set().contains(x) implies vstd::set_lib::set_int_range(
        0,
        48,
    ).contains(x) by {
        let i = choose|i: int| 0 <= i < t.len() && t[i] == x;
        assert(is_permutation(s[i]));
    }
    vstd::set_lib::lemma_len_subset(t.to_set(), vstd::set_lib::set_int_range(0, 48));
}

proof fn lemma_round_props(snapshot: Seq<Placement>, acc: Seq<Placement>, gen: Placement)
    requires
        perm_list(acc),
        is_permutation(gen),
        forall|i: int| 0 <= i < snapshot.len() ==> is_permutation(#[trigger] snapshot[i]),
    ensures
        perm_list(round_spec(snapshot, acc, gen)),
        round_spec(snapshot, acc, gen).len() >= acc.len(),
        round_spec(snapshot, acc, gen).subrange(0, acc.len() as int) == acc,
    decreases snapshot.len(),
{
    if snapshot.len() > 0 {
        lemma_round_props(snapshot.drop_last(), acc, gen);
        let prev = round_spec(snapshot.drop_last(), acc, gen);
        let n = compose_spec(gen, snapshot.last());
        lemma_compose_permutation(gen, snapshot.last());
        if !prev.contains(n) {
            let next = prev.push(n);
            assert forall|i: int, j: int| 0 <= i < next.len() && 0 <= j < next.len() && i != j implies next[i]
                != next[j] by {
                if i == next.len() - 1 {
                    assert(prev[j] == next[j]);
                } else if j == next.len() - 1 {
                    assert(prev[i] == next[i]);
                }
            }
            assert(next.subrange(0, acc.len() as int) =~= prev.subrange(0, acc.len() as int));
        }
    }
}

proof fn lemma_close_props(set: Seq<Placement>, gen: Placement, fuel: nat)
    requires
        perm_list(set),
        is_permutation(gen),
    ensures
        perm_list(close_under(set, gen, fuel)),
    decreases fuel,
{
    if fuel > 0 {
        lemma_round_props(set, set, gen);
        let next = round_spec(set, set, gen);
        if next.len() != set.len() {
            lemma_close_props(next, gen, (fuel - 1) as nat);
        }
    }
}

/// Every placement produced by symmetry expansion is a permutation of the
/// axes, and none is produced twice.
pub proof fn lemma_closure_perm_list(gens: Seq<SymOp>)
    ensures
        perm_list(closure_spec(gens)),
        closure_spec(gens).len() >= 1,
        closure_spec(gens)[0] == identity_spec(),
{
    let start = seq![identity_spec()];
    assert(perm_list(start));
    lemma_passes_props(start, gens, 48);
    assert(closure_spec(gens)[0] == closure_spec(gens).subrange(0, 1)[0]);
}

proof fn lemma_pass_props(set: Seq<Placement>, gens: Seq<SymOp>, n: int)
    requires
        perm_list(set),
    ensures
        perm_list(pass_spec(set, gens, n)),
        pass_spec(set, gens, n).len() >= set.len(),
        pass_spec(set, gens, n).subrange(0, set.len() as int) == set,
    decreases n,
{
    if n > 0 && n <= gens.len() {
        lemma_pass_props(set, gens, n - 1);
        let prev = pass_spec(set, gens, n - 1);
        let g = symop_spec(gens[n - 1]);
        assert(is_permutation(g));
        lemma_close_props(prev, g, 48);
        lemma_close_prefix(prev, g, 48);
        let fin = close_under(prev, g, 48);
        assert(fin.subrange(0, set.len() as int) =~= fin.subrange(0, prev.len() as int).subrange(0, set.len() as int));
    }
}

proof fn lemma_passes_props(set: Seq<Placement>, gens: Seq<SymOp>, fuel: nat)
    requires
        perm_list(set),
    ensures
        perm_list(passes(set, gens, fuel)),
        passes(set, gens, fuel).len() >= set.len(),
        passes(set, gens, fuel).subrange(0, set.len() as int) == set,
    decreases fuel,
{
    if fuel > 0 {
        lemma_pass_props(set, gens, gens.len() as int);
        let next = pass_spec(set, gens, gens.len() as int);
        if next.len() != set.len() {
            lemma_passes_props(next, gens, (fuel - 1) as nat);
            let fin = passes(next, gens, (fuel - 1) as nat);
            assert(fin.subrange(0, set.len() as int) =~= fin.subrange(0, next.len() as int).subrange(0, set.len() as int));
        }
    }
}

proof fn lemma_close_prefix(set: Seq<Placement>, gen: Placement, fuel: nat)
    requires
        perm_list(set),
        is_permutation(gen),
    ensures
        close_under(set, gen, fuel).len() >= set.len(),
        close_under(set, gen, fuel).subrange(0, set.len() as int) == set,
    decreases fuel,
{
    if fuel > 0 {
        lemma_round_props(set, set, gen);
        let next = round_spec(set, set, gen);
        if next.len() != set.len() {
            lemma_close_prefix(next, gen, (fuel - 1) as nat);
            let fin = close_under(next, gen, (fuel - 1) as nat);
            assert(fin.subrange(0, set.len() as int) =~= fin.subrange(0, next.len() as int).subrange(
                0,
                set.len() as int,
            ));
        }
    }
}

/// Composing any placement of `s` with any generator stays in `s`.
pub open spec fn closed_under(s: Set<Placement>, gens: Seq<SymOp>) -> bool {
    forall|p: Placement, i: int|
        s.contains(p) && 0 <= i < gens.len() ==> #[trigger] s.contains(compose_spec(symop_spec(gens[i]), p))
}

proof fn lemma_round_products(snapshot: Seq<Placement>, acc: Seq<Placement>, gen: Placement)
    ensures
        forall|k: int| 0 <= k < snapshot.len() ==> round_spec(snapshot, acc, gen).contains(compose_spec(gen, #[trigger] snapshot[k])),
        forall|q: Placement| #[trigger] round_spec(snapshot, acc, gen).contains(q) ==> acc.contains(q) || exists|k: int|
            0 <= k < snapshot.len() && q == compose_spec(gen, snapshot[k]),
    decreases snapshot.len(),
{
    if snapshot.len() > 0 {
        let sd = snapshot.drop_last();
        lemma_round_products(sd, acc, gen);
        let prev = round_spec(sd, acc, gen);
        let r = round_spec(snapshot, acc, gen);
        let n = compose_spec(gen, snapshot.last());
        assert forall|k: int| 0 <= k < snapshot.len() implies r.contains(compose_spec(gen, #[trigger] snapshot[k])) by {
            if k < snapshot.len() - 1 {
                assert(snapshot[k] == sd[k]);
                assert(prev.contains(compose_spec(gen, sd[k])));
                let j = choose|j: int| 0 <= j < prev.len() && prev[j] == compose_spec(gen, sd[k]);
                if !prev.contains(n) {
                    assert(r[j] == prev[j]);
                }
            } else if !prev.contains(n) {
                assert(r[prev.len() as int] == n);
            }
        }
        assert forall|q: Placement| #[trigger] r.contains(q) implies acc.contains(q) || exists|k: int|
            0 <= k < snapshot.len() && q == compose_spec(gen, snapshot[k]) by {
            if prev.contains(q) {
                if !acc.contains(q) {
                    let k = choose|k: int| 0 <= k < sd.len() && q == compose_spec(gen, sd[k]);
                    assert(snapshot[k] == sd[k]);
                }
            } else {
                let j = choose|j: int| 0 <= j < r.len() && r[j] == q;
                if j < prev.len() {
                    assert(r[j] == prev[j]);
                }
                assert(q == n);
                assert(q == compose_spec(gen, snapshot[snapshot.len() - 1]));
            }
        }
    }
}

proof fn lemma_close_within(set: Seq<Placement>, gen: Placement, fuel: nat, s: Set<Placement>)
    requires
        forall|i: int| 0 <= i < set.len() ==> s.contains(#[trigger] set[i]),
        forall|p: Placement| s.contains(p) ==> #[trigger] s.contains(compose_spec(gen, p)),
    ensures
        forall|i: int| 0 <= i < close_under(set, gen, fuel).len() ==> s.contains(#[trigger] close_under(set, gen, fuel)[i]),
    decreases fuel,
{
    if fuel > 0 {
        let next = round_spec(set, set, gen);
        lemma_round_products(set, set, gen);
        assert forall|i: int| 0 <= i < next.len() implies s.contains(#[trigger] next[i]) by {
            assert(next.contains(next[i]));
            if !set.contains(next[i]) {
                let k = choose|k: int| 0 <= k < set.len() && next[i] == compose_spec(gen, set[k]);
                assert(s.contains(set[k]));
            } else {
                let j = choose|j: int| 0 <= j < set.len() && set[j] == next[i];
            }
        }
        if next.len() != set.len() {
            lemma_close_within(next, gen, (fuel - 1) as nat, s);
            assert(close_under(set, gen, fuel) == close_under(next, gen, (fuel - 1) as nat));
        } else {
            assert(close_under(set, gen, fuel) == set);
        }
    }
}

proof fn lemma_pass_within(set: Seq<Placement>, gens: Seq<SymOp>, n: int, s: Set<Placement>)
    requires
        forall|i: int| 0 <= i < set.len() ==> s.contains(#[trigger] set[i]),
        closed_under(s, gens),
    ensures
        forall|i: int| 0 <= i < pass_spec(set, gens, n).len() ==> s.contains(#[trigger] pass_spec(set, gens, n)[i]),
    decreases n,
{
    if n > 0 && n <= gens.len() {
        lemma_pass_within(set, gens, n - 1, s);
        let g = symop_spec(gens[n - 1]);
        assert forall|p: Placement| s.contains(p) implies #[trigger] s.contains(compose_spec(g, p)) by {
            assert(s.contains(compose_spec(symop_spec(gens[n - 1]), p)));
        }
        lemma_close_within(pass_spec(set, gens, n - 1), g, 48, s);
    }
}

proof fn lemma_passes_within(set: Seq<Placement>, gens: Seq<SymOp>, fuel: nat, s: Set<Placement>)
    requires
        forall|i: int| 0 <= i < set.len() ==> s.contains(#[trigger] set[i]),
        closed_under(s, gens),
    ensures
        forall|i: int| 0 <= i < passes(set, gens, fuel).len() ==> s.contains(#[trigger] passes(set, gens, fuel)[i]),
    decreases fuel,
{
    if fuel > 0 {
        lemma_pass_within(set, gens, gens.len() as int, s);
        let next = pass_spec(set, gens, gens.len() as int);
        if next.len() != set.len() {
            lemma_passes_within(next, gens, (fuel - 1) as nat, s);
            assert(passes(set, gens, fuel) == passes(next, gens, (fuel - 1) as nat));
        } else {
            assert(passes(set, gens, fuel) == set);
        }
    }
}

proof fn lemma_close_stable(set: Seq<Placement>, g: Placement)
    requires
        perm_list(set),
        is_permutation(g),
        close_under(set, g, 48).len() == set.len(),
    ensures
        forall|k: int| 0 <= k < set.len() ==> set.contains(#[trigger] compose_spec(g, set[k])),
{
    let next = round_spec(set, set, g);
    lemma_round_props(set, set, g);
    if next.len() != set.len() {
        lemma_close_prefix(next, g, 47);
        assert(close_under(set, g, 48) == close_under(next, g, 47));
        assert(false);
    }
    assert(next =~= next.subrange(0, set.len() as int));
    lemma_round_products(set, set, g);
}

/// A pass that adds nothing leaves a set closed under every generator.
proof fn lemma_stable_pass_closed(set: Seq<Placement>, gens: Seq<SymOp>, n: int)
    requires
        perm_list(set),
        0 <= n <= gens.len(),
        pass_spec(set, gens, n).len() == set.len(),
    ensures
        pass_spec(set, gens, n) == set,
        forall|i: int, k: int|
            0 <= i < n && 0 <= k < set.len() ==> set.contains(#[trigger] compose_spec(symop_spec(gens[i]), set[k])),
    decreases n,
{
    lemma_pass_props(set, gens, n);
    assert(pass_spec(set, gens, n) =~= pass_spec(set, gens, n).subrange(0, set.len() as int));
    if n > 0 {
        lemma_pass_props(set, gens, n - 1);
        let prev = pass_spec(set, gens, n - 1);
        let g = symop_spec(gens[n - 1]);
        assert(is_permutation(g));
        lemma_close_prefix(prev, g, 48);
        assert(prev.len() == set.len());
        lemma_stable_pass_closed(set, gens, n - 1);
        lemma_close_stable(set, g);
        assert forall|i: int, k: int|
            0 <= i < n && 0 <= k < set.len() implies set.contains(#[trigger] compose_spec(symop_spec(gens[i]), set[k])) by {
            if i == n - 1 {
                assert(set.contains(compose_spec(g, set[k])));
            }
        }
    }
}

proof fn lemma_passes_fixed(set: Seq<Placement>, gens: Seq<SymOp>, fuel: nat)
    requires
        perm_list(set),
        set.len() + fuel > 48,
    ensures
        pass_spec(passes(set, gens, fuel), gens, gens.len() as int).len() == passes(set, gens, fuel).len(),
    decreases fuel,
{
    lemma_perm_list_len(set);
    lemma_pass_props(set, gens, gens.len() as int);
    let next = pass_spec(set, gens, gens.len() as int);
    if next.len() != set.len() {
        lemma_perm_list_len(next);
        lemma_passes_fixed(next, gens, (fuel - 1) as nat);
    }
}

/// The closure of the generators is the least set that holds the identity
/// and is closed under composition with every generator: it has both
/// properties, and every set that has them holds all of it.
pub proof fn lemma_closure_is_least(gens: Seq<SymOp>, s: Set<Placement>)
    ensures
        closure_spec(gens).contains(identity_spec()),
        forall|p: Placement, i: int|
            closure_spec(gens).contains(p) && 0 <= i < gens.len() ==> closure_spec(gens).contains(
                #[trigger] compose_spec(symop_spec(gens[i]), p),
            ),
        s.contains(identity_spec()) && closed_under(s, gens) ==> forall|p: Placement|
            #[trigger] closure_spec(gens).contains(p) ==> s.contains(p),
{
    let c = closure_spec(gens);
    lemma_closure_perm_list(gens);
    assert(c[0] == identity_spec());
    let start = seq![identity_spec()];
    assert(perm_list(start));
    lemma_passes_fixed(start, gens, 48);
    lemma_stable_pass_closed(c, gens, gens.len() as int);
    assert forall|p: Placement, i: int| c.contains(p) && 0 <= i < gens.len() implies c.contains(
        #[trigger] compose_spec(symop_spec(gens[i]), p),
    ) by {
        let k = choose|k: int| 0 <= k < c.len() && c[k] == p;
        assert(c.contains(compose_spec(symop_spec(gens[i]), c[k])));
    }
    if s.contains(identity_spec()) && closed_under(s, gens) {
        assert forall|i: int| 0 <= i < start.len() implies s.contains(#[trigger] start[i]) by {}
        lemma_passes_within(start, gens, 48, s);
        assert forall|p: Placement| #[trigger] c.contains(p) implies s.contains(p) by {
            let k = choose|k: int| 0 <= k < c.len() && c[k] == p;
        }
    }
}

fn contains_placement(v: &Vec<Placement>, p: Placement) -> (r: bool)
    ensures
        r == v@.contains(p),
{
    let mut i: usize = 0;
    while i < v.len()
        invariant
            i <= v@.len(),
            forall|j: int| 0 <= j < i ==> v@[j] != p,
        decreases v@.len() - i,
    {
        if v[i] == p {
            return true;
        }
        i = i + 1;
    }
    false
}

fn clone_placements(v: &Vec<Placement>) -> (r: Vec<Placement>)
    ensures
        r@ == v@,
{
    let mut out: Vec<Placement> = Vec::new();
    let mut i: usize = 0;
    while i < v.len()
        invariant
            i <= v@.len(),
            out@ == v@.take(i as int),
        decreases v@.len() - i,
    {
        out.push(v[i]);
        assert(v@.take(i + 1) =~= v@.take(i as int).push(v@[i as int]));
        i = i + 1;
    }
    assert(v@.take(v@.len() as int) =~= v@);
    out
}

/// Close `set` under left composition with `gen`.
fn close_set(set: &mut Vec<Placement>, gen: Placement)
    requires
        perm_list(old(set)@),
        old(set)@.len() >= 1,
        is_permutation(gen),
    ensures
        final(set)@ == close_under(old(set)@, gen, 48),
        perm_list(final(set)@),
{
    let ghost start = set@;
    let ghost mut rounds: nat = 0;
    proof {
        lemma_perm_list_len(set@);
    }
    loop
        invariant
            perm_list(set@),
            is_permutation(gen),
            rounds <= 47,
            set@.len() >= rounds + 1,
            close_under(start, gen, 48) == close_under(set@, gen, (48 - rounds) as nat),
        ensures
            set@ == close_under(start, gen, 48),
            perm_list(set@),
        decreases 48 - set@.len(),
    {
        proof {
            lemma_perm_list_len(set@);
        }
        let current = clone_placements(set);
        let mut new_found = false;
        let mut j: usize = 0;
        while j < current.len()
            invariant
                j <= current@.len(),
                perm_list(current@),
                is_permutation(gen),
                set@ == round_spec(current@.take(j as int), current@, gen),
                new_found == (set@.len() > current@.len()),
            decreases current@.len() - j,
        {
            let existing = current[j];
            let n = compose_placements(gen, existing);
            proof {
                assert(current@.take(j + 1).drop_last() =~= current@.take(j as int));
                assert(current@.take(j + 1).last() == existing);
                lemma_round_props(current@.take(j as int), current@, gen);
            }
            if !contains_placement(set, n) {
                set.push(n);
                new_found = true;
            }
            j = j + 1;
        }
        proof {
            assert(current@.take(current@.len() as int) =~= current@);
            lemma_round_props(current@, current@, gen);
        }
        if !new_found {
            assert(set@.subrange(0, current@.len() as int) == current@);
            assert(set@ =~= current@);
            assert(close_under(current@, gen, (48 - rounds) as nat) == current@);
            break;
        }
        proof {
            assert(close_under(current@, gen, (48 - rounds) as nat) == close_under(
                set@,
                gen,
                (48 - rounds - 1) as nat,
            ));
            lemma_perm_list_len(set@);
            rounds = rounds + 1;
        }
    }
}

/// Dedup key of a placed copy: its placed bounds and the signature of its
/// oriented primitive.
pub open spec fn copy_key(p: Placement, b: Bounds, shape: PrimitiveShape, orient: Placement) -> (Bounds, nat) {
    (apply_bounds_spec(p, b), signature_spec(shape, compose_spec(p, orient)))
}

/// Keep the first placement of every key, in order.
pub open spec fn dedup_spec(set: Seq<Placement>, b: Bounds, shape: PrimitiveShape, orient: Placement) -> Seq<Placement>
    decreases set.len(),
{
    if set.len() == 0 {
        seq![]
    } else {
        let prev = dedup_spec(set.drop_last(), b, shape, orient);
        if exists|k: int|
            0 <= k < prev.len() && copy_key(prev[k], b, shape, orient) == copy_key(
                set.last(),
                b,
                shape,
                orient,
            ) {
            prev
        } else {
            prev.push(set.last())
        }
    }
}

#[verifier::spinoff_prover]
#[verifier::rlimit(60)]
proof fn lemma_dedup(set: Seq<Placement>, b: Bounds, shape: PrimitiveShape, orient: Placement)
    ensures
        dedup_spec(set, b, shape, orient).len() <= set.len(),
        set.len() >= 1 ==> dedup_spec(set, b, shape, orient).len() >= 1 && dedup_spec(set, b, shape, orient)[0]
            == set[0],
        forall|i: int, j: int|
            0 <= i < j < dedup_spec(set, b, shape, orient).len() ==> copy_key(
                #[trigger] dedup_spec(set, b, shape, orient)[i],
                b,
                shape,
                orient,
            ) != copy_key(#[trigger] dedup_spec(set, b, shape, orient)[j], b, shape, orient),
        forall|i: int| 0 <= i < dedup_spec(set, b, shape, orient).len() ==> set.contains(#[trigger] dedup_spec(set, b, shape, orient)[i]),
        forall|i: int|
            0 <= i < set.len() ==> exists|k: int|
                0 <= k < dedup_spec(set, b, shape, orient).len() && #[trigger] copy_key(
                    dedup_spec(set, b, shape, orient)[k],
                    b,
                    shape,
                    orient,
                ) == copy_key(#[trigger] set[i], b, shape, orient),
    decreases set.len(),
{
    if set.len() > 0 {
        let s0 = set.drop_last();
        lemma_dedup(s0, b, shape, orient);
        let prev = dedup_spec(s0, b, shape, orient);
        let d = dedup_spec(set, b, shape, orient);
        let x = set.last();
        if s0.len() >= 1 {
            assert(s0[0] == set[0]);
        }
        assert forall|i: int| 0 <= i < prev.len() implies set.contains(#[trigger] prev[i]) by {
            assert(s0.contains(prev[i]));
            let k = choose|k: int| 0 <= k < s0.len() && s0[k] == prev[i];
            assert(set[k] == prev[i]);
        }
        if !(exists|k: int| 0 <= k < prev.len() && copy_key(prev[k], b, shape, orient) == copy_key(x, b, shape, orient)) {
            assert(d == prev.push(x));
            assert(set[set.len() - 1] == x);
            assert forall|i: int| 0 <= i < set.len() implies exists|k: int|
                0 <= k < d.len() && #[trigger] copy_key(d[k], b, shape, orient) == copy_key(#[trigger] set[i], b, shape, orient) by {
                if i < set.len() - 1 {
                    assert(s0[i] == set[i]);
                    let k = choose|k: int|
                        0 <= k < prev.len() && #[trigger] copy_key(prev[k], b, shape, orient) == copy_key(s0[i], b, shape, orient);
                    assert(d[k] == prev[k]);
                } else {
                    assert(d[prev.len() as int] == x);
                }
            }
            assert forall|i: int| 0 <= i < d.len() implies set.contains(#[trigger] d[i]) by {
                if i < prev.len() {
                    assert(d[i] == prev[i]);
                }
            }
        } else {
            assert(d == prev);
            assert forall|i: int| 0 <= i < set.len() implies exists|k: int|
                0 <= k < d.len() && #[trigger] copy_key(d[k], b, shape, orient) == copy_key(#[trigger] set[i], b, shape, orient) by {
                if i < set.len() - 1 {
                    assert(s0[i] == set[i]);
                    let k = choose|k: int|
                        0 <= k < prev.len() && #[trigger] copy_key(prev[k], b, shape, orient) == copy_key(s0[i], b, shape, orient);
                } else {
                    let k = choose|k: int| 0 <= k < prev.len() && copy_key(prev[k], b, shape, orient) == copy_key(x, b, shape, orient);
                    assert(copy_key(d[k], b, shape, orient) == copy_key(set[i], b, shape, orient));
                }
            }
        }
    }
}

/// What a symmetry expansion gives: between one and 48 copies, the first
/// of them the untransformed one; every copy comes from composing the
/// generators; no two copies have the same placed bounds and oriented
/// primitive; and every placement the generators reach is one of the
/// copies, by its placed bounds and oriented primitive.
pub proof fn lemma_placements_laws(
    generators: Seq<SymOp>,
    bounds: Option<Bounds>,
    shape: Option<PrimitiveShape>,
    orient: Placement,
)
    ensures
        1 <= placements_spec(generators, bounds, shape, orient).len() <= 48,
        placements_spec(generators, bounds, shape, orient)[0] == identity_spec(),
        forall|i: int|
            0 <= i < placements_spec(generators, bounds, shape, orient).len() ==> closure_spec(generators).contains(
                #[trigger] placements_spec(generators, bounds, shape, orient)[i],
            ),
        forall|i: int, j: int|
            0 <= i < j < placements_spec(generators, bounds, shape, orient).len() ==> copy_key(
                #[trigger] placements_spec(generators, bounds, shape, orient)[i],
                bounds_or_unit(bounds),
                shape_or_box(shape),
                orient,
            ) != copy_key(
                #[trigger] placements_spec(generators, bounds, shape, orient)[j],
                bounds_or_unit(bounds),
                shape_or_box(shape),
                orient,
            ),
        forall|i: int|
            0 <= i < closure_spec(generators).len() ==> exists|k: int|
                0 <= k < placements_spec(generators, bounds, shape, orient).len() && #[trigger] copy_key(
                    placements_spec(generators, bounds, shape, orient)[k],
                    bounds_or_unit(bounds),
                    shape_or_box(shape),
                    orient,
                ) == copy_key(#[trigger] closure_spec(generators)[i], bounds_or_unit(bounds), shape_or_box(shape), orient),
{
    let c = closure_spec(generators);
    lemma_closure_perm_list(generators);
    lemma_perm_list_len(c);
    lemma_dedup(c, bounds_or_unit(bounds), shape_or_box(shape), orient);
}

/// The decimal digits of `n`.
pub open spec fn decimal(n: nat) -> Seq<char>
    decreases n,
{
    if n < 10 {
        seq![digit_char(n)]
    } else {
        decimal(n / 10).push(digit_char(n % 10))
    }
}

pub open spec fn digit_char(d: nat) -> char {
    if d == 0 {
        '0'
    } else if d == 1 {
        '1'
    } else if d == 2 {
        '2'
    } else if d == 3 {
        '3'
    } else if d == 4 {
        '4'
    } else if d == 5 {
        '5'
    } else if d == 6 {
        '6'
    } else if d == 7 {
        '7'
    } else if d == 8 {
        '8'
    } else {
        '9'
    }
}

fn digit_str(d: usize) -> (r: &'static str)
    requires
        d < 10,
    ensures
        r@ == seq![digit_char(d as nat)],
{
    if d == 0 {
        proof { reveal_strlit("0"); }
        "0"
    } else if d == 1 {
        proof { reveal_strlit("1"); }
        "1"
    } else if d == 2 {
        proof { reveal_strlit("2"); }
        "2"
    } else if d == 3 {
        proof { reveal_strlit("3"); }
        "3"
    } else if d == 4 {
        proof { reveal_strlit("4"); }
        "4"
    } else if d == 5 {
        proof { reveal_strlit("5"); }
        "5"
    } else if d == 6 {
        proof { reveal_strlit("6"); }
        "6"
    } else if d == 7 {
        proof { reveal_strlit("7"); }
        "7"
    } else if d == 8 {
        proof { reveal_strlit("8"); }
        "8"
    } else {
        proof { reveal_strlit("9"); }
        "9"
    }
}

fn push_decimal(s: &mut String, n: usize)
    ensures
        final(s)@ == old(s)@ + decimal(n as nat),
    decreases n,
{
    if n >= 10 {
        push_decimal(s, n / 10);
    }
    s.append(digit_str(n % 10));
    assert(old(s)@ + decimal(n as nat) =~= (old(s)@ + (if n >= 10 {
        decimal((n / 10) as nat)
    } else {
        Seq::<char>::empty()
    })) + seq![digit_char((n % 10) as nat)]);
}

/// Suffix of the `i`-th copy: empty for the first, `_i` for the others.
pub open spec fn copy_suffix(i: nat) -> Seq<char> {
    if i == 0 {
        Seq::<char>::empty()
    } else {
        seq!['_'] + decimal(i)
    }
}

fn copy_suffix_exec(i: usize) -> (r: String)
    ensures
        r@ == copy_suffix(i as nat),
{
    let mut s = String::new();
    if i != 0 {
        proof { reveal_strlit("_"); }
        s.append("_");
        push_decimal(&mut s, i);
    }
    s
}

/// The placements of the copies a symmetry expansion produces, deduped,
/// each with the suffix its copy is named by.
pub open spec fn placements_spec(
    generators: Seq<SymOp>,
    bounds: Option<Bounds>,
    shape: Option<PrimitiveShape>,
    orient: Placement,
) -> Seq<Placement> {
    dedup_spec(closure_spec(generators), bounds_or_unit(bounds), shape_or_box(shape), orient)
}

/// The bounds of a node, or the unit cell when it has none.
pub open spec fn bounds_or_unit(bounds: Option<Bounds>) -> Bounds {
    match bounds {
        Some(b) => b,
        None => Bounds(0, 0, 0, 1, 1, 1),
    }
}

/// The shape of a node, or a box when it has none.
pub open spec fn shape_or_box(shape: Option<PrimitiveShape>) -> PrimitiveShape {
    match shape {
        Some(s) => s,
        None => PrimitiveShape::Box,
    }
}

/// Compute placements from symmetry generators: take the closure of the
/// generators (everything the identity reaches by composing with the
/// generators, in the order found), then drop every placement whose placed bounds and oriented
/// primitive signature repeat an earlier one. The first copy gets an
/// empty suffix, copy `i` gets `_i`.
pub fn placements(
    generators: &[SymOp],
    bounds: Option<Bounds>,
    shape: Option<PrimitiveShape>,
    orient_placement: Placement,
) -> (r: Vec<(Placement, String)>)
    requires
        bounds is Some ==> negatable(bounds->0),
    ensures
        r@.len() == placements_spec(generators@, bounds, shape, orient_placement).len(),
        forall|i: int|
            0 <= i < r@.len() ==> (#[trigger] r@[i]).0 == placements_spec(
                generators@,
                bounds,
                shape,
                orient_placement,
            )[i] && r@[i].1@ == copy_suffix(i as nat),
{
    let mut set: Vec<Placement> = Vec::new();
    set.push(identity_placement());
    let ghost gens = generators@;
    let ghost mut rounds: nat = 0;
    assert(perm_list(set@));
    assert(set@ =~= seq![identity_spec()]);
    loop
        invariant
            gens == generators@,
            perm_list(set@),
            rounds <= 47,
            set@.len() >= rounds + 1,
            closure_spec(gens) == passes(set@, gens, (48 - rounds) as nat),
        ensures
            set@ == closure_spec(gens),
        decreases 48 - set@.len(),
    {
        proof {
            lemma_perm_list_len(set@);
        }
        let before = set.len();
        let ghost start = set@;
        let mut gi: usize = 0;
        while gi < generators.len()
            invariant
                gi <= generators@.len(),
                gens == generators@,
                perm_list(start),
                perm_list(set@),
                start.len() == before,
                before >= 1,
                set@ == pass_spec(start, gens, gi as int),
            decreases generators@.len() - gi,
        {
            let gen = generators[gi].to_placement();
            proof {
                lemma_pass_props(start, gens, gi as int);
                lemma_perm_list_len(set@);
                assert(set@.len() >= start.len());
            }
            close_set(&mut set, gen);
            gi = gi + 1;
        }
        proof {
            lemma_pass_props(start, gens, gens.len() as int);
        }
        if set.len() == before {
            assert(set@ =~= set@.subrange(0, start.len() as int));
            assert(set@ == start);
            break;
        }
        proof {
            lemma_perm_list_len(set@);
            assert(passes(start, gens, (48 - rounds) as nat) == passes(set@, gens, (48 - rounds - 1) as nat));
            rounds = rounds + 1;
        }
    }
    let shape = match shape {
        Some(s) => s,
        None => PrimitiveShape::Box,
    };
    let bounds = match bounds {
        Some(b) => b,
        None => Bounds(0, 0, 0, 1, 1, 1),
    };
    let mut kept: Vec<Placement> = Vec::new();
    let mut keys: Vec<(Bounds, u64)> = Vec::new();
    let mut i: usize = 0;
    while i < set.len()
        invariant
            i <= set@.len(),
            negatable(bounds),
            kept@ == dedup_spec(set@.take(i as int), bounds, shape, orient_placement),
            keys@.len() == kept@.len(),
            forall|k: int|
                0 <= k < keys@.len() ==> (keys@[k].0, keys@[k].1 as nat) == copy_key(
                    #[trigger] kept@[k],
                    bounds,
                    shape,
                    orient_placement,
                ),
        decreases set@.len() - i,
    {
        let p = set[i];
        let canon = apply_placement_to_bounds(p, bounds);
        let combined = compose_placements(p, orient_placement);
        let sig = compute_signature(shape, combined);
        let mut found = false;
        let mut k: usize = 0;
        while k < keys.len()
            invariant
                k <= keys@.len(),
                !found ==> forall|m: int| 0 <= m < k ==> keys@[m] != (canon, sig),
                found ==> exists|m: int| 0 <= m < keys@.len() && keys@[m] == (canon, sig),
            decreases keys@.len() - k,
        {
            if keys[k].0 == canon && keys[k].1 == sig {
                found = true;
            }
            k = k + 1;
        }
        proof {
            assert(set@.take(i + 1).drop_last() =~= set@.take(i as int));
            assert(set@.take(i + 1).last() == p);
            if found {
                let m = choose|m: int| 0 <= m < keys@.len() && keys@[m] == (canon, sig);
                assert(copy_key(kept@[m], bounds, shape, orient_placement) == copy_key(
                    p,
                    bounds,
                    shape,
                    orient_placement,
                ));
            } else {
                assert forall|m: int| 0 <= m < kept@.len() implies copy_key(
                    kept@[m],
                    bounds,
                    shape,
                    orient_placement,
                ) != copy_key(p, bounds, shape, orient_placement) by {
                    assert(keys@[m] != (canon, sig));
                    assert((keys@[m].0, keys@[m].1 as nat) == copy_key(
                        kept@[m],
                        bounds,
                        shape,
                        orient_placement,
                    ));
                }
            }
        }
        if !found {
            kept.push(p);
            keys.push((canon, sig));
        }
        i = i + 1;
    }
    assert(set@.take(set@.len() as int) =~= set@);
    let mut out: Vec<(Placement, String)> = Vec::new();
    let mut j: usize = 0;
    while j < kept.len()
        invariant
            j <= kept@.len(),
            out@.len() == j,
            forall|m: int|
                0 <= m < j ==> (#[trigger] out@[m]).0 == kept@[m] && out@[m].1@ == copy_suffix(
                    m as nat,
                ),
        decreases kept@.len() - j,
    {
        let suffix = copy_suffix_exec(j);
        out.push((kept[j], suffix));
        j = j + 1;
    }
    out
}

/// Compute placements from a node's own symmetry generators, bounds,
/// shape (Box when it has none) and orientation.
pub fn placements_for(spec: &SpecNode) -> (r: Vec<(Placement, String)>)
    requires
        spec.bounds is Some ==> negatable(spec.bounds->0),
    ensures
        ({
            let shape = match primitive_spec(*spec) {
                Some((s, _)) => s,
                None => PrimitiveShape::Box,
            };
            let ps = placements_spec(
                spec.symmetry@,
                spec.bounds,
                Some(shape),
                orient_placement_spec(*spec),
            );
            &&& r@.len() == ps.len()
            &&& forall|i: int|
                0 <= i < r@.len() ==> (#[trigger] r@[i]).0 == ps[i] && r@[i].1@ == copy_suffix(
                    i as nat,
                )
        }),
{
    let shape = match spec.shape() {
        Some(s) => s,
        None => PrimitiveShape::Box,
    };
    let orient_p = spec.orient_placement();
    placements(spec.symmetry.as_slice(), spec.bounds, Some(shape), orient_p)
}

} // verus!
