//! Fusing unit boxes into larger boxes.
//!
//! Unit-cell boxes of the same color and emissive flag are merged into
//! the fewest axis-aligned boxes that cover them, which removes their
//! internal faces. Every other primitive passes through unchanged.

use vstd::prelude::*;
use crate::bounds::{extent, lo, Bounds};
use crate::color::Color3;
use crate::csg::PrimitiveShape;
use crate::cover::no_cover_below;
use crate::merge::{below_max, cell_set, greedy_merge, in_box, lemma_merge_exact_cover, lemma_merge_fewest, merge_spec};
use crate::occupancy::CellPos;
use crate::placement::{identity_placement, identity_spec};
use crate::resolve::ResolvedPrimitive;

verus! {

/// A box filling exactly one cell at unit scale, not a preview.
pub open spec fn is_unit_box(r: ResolvedPrimitive) -> bool {
    &&& r.shape == PrimitiveShape::Box
    &&& !r.subtract_preview
    &&& r.scale.0 == 1 && r.scale.1 == 1 && r.scale.2 == 1
    &&& extent(r.bounds, 0) == 1 && extent(r.bounds, 1) == 1 && extent(r.bounds, 2) == 1
}

/// The fusion group of a primitive: its color and emissive flag.
pub open spec fn group_key(r: ResolvedPrimitive) -> (Color3, bool) {
    (r.color, r.emissive)
}

/// The minimum corner of a box, as a cell position.
pub open spec fn min_pos(b: Bounds) -> CellPos {
    (lo(b, 0) as i32, lo(b, 1) as i32, lo(b, 2) as i32)
}

/// The primitives among the first `n` that are not unit boxes, in order.
pub open spec fn rest_upto(cells: Seq<ResolvedPrimitive>, n: int) -> Seq<ResolvedPrimitive>
    decreases n,
{
    if n <= 0 {
        seq![]
    } else if is_unit_box(cells[n - 1]) {
        rest_upto(cells, n - 1)
    } else {
        rest_upto(cells, n - 1).push(cells[n - 1])
    }
}

/// The group keys of the unit boxes among the first `n`, in order of
/// first appearance.
pub open spec fn keys_upto(cells: Seq<ResolvedPrimitive>, n: int) -> Seq<(Color3, bool)>
    decreases n,
{
    if n <= 0 {
        seq![]
    } else {
        let g = keys_upto(cells, n - 1);
        if is_unit_box(cells[n - 1]) && !g.contains(group_key(cells[n - 1])) {
            g.push(group_key(cells[n - 1]))
        } else {
            g
        }
    }
}

/// The cell positions of the unit boxes of group `key` among the first
/// `n`, in order.
pub open spec fn group_cells(cells: Seq<ResolvedPrimitive>, key: (Color3, bool), n: int) -> Seq<CellPos>
    decreases n,
{
    if n <= 0 {
        seq![]
    } else if is_unit_box(cells[n - 1]) && group_key(cells[n - 1]) == key {
        group_cells(cells, key, n - 1).push(min_pos(cells[n - 1].bounds))
    } else {
        group_cells(cells, key, n - 1)
    }
}

/// A fused box of group `key`.
pub open spec fn fused_box(b: Bounds, key: (Color3, bool)) -> ResolvedPrimitive {
    ResolvedPrimitive {
        shape: PrimitiveShape::Box,
        bounds: b,
        orient: identity_spec(),
        scale: (1i32, 1i32, 1i32),
        color: key.0,
        emissive: key.1,
        is_mirrored: false,
        subtract_preview: false,
    }
}

/// The merged boxes of group `key`.
pub open spec fn group_boxes(cells: Seq<ResolvedPrimitive>, key: (Color3, bool)) -> Seq<ResolvedPrimitive> {
    let bs = merge_spec(group_cells(cells, key, cells.len() as int));
    Seq::new(bs.len(), |i: int| fused_box(bs[i], key))
}

/// The merged boxes of the first `n` groups, group after group.
pub open spec fn groups_upto(cells: Seq<ResolvedPrimitive>, keys: Seq<(Color3, bool)>, n: int) -> Seq<ResolvedPrimitive>
    decreases n,
{
    if n <= 0 {
        seq![]
    } else {
        groups_upto(cells, keys, n - 1) + group_boxes(cells, keys[n - 1])
    }
}

/// The fused list: every primitive that is not a unit box, in order, then
/// for each group in order of first appearance its merged boxes.
pub open spec fn fuse_spec(cells: Seq<ResolvedPrimitive>) -> Seq<ResolvedPrimitive> {
    let keys = keys_upto(cells, cells.len() as int);
    rest_upto(cells, cells.len() as int) + groups_upto(cells, keys, keys.len() as int)
}

fn is_unit_box_exec(r: &ResolvedPrimitive) -> (b: bool)
    ensures
        b == is_unit_box(*r),
{
    let mn = r.bounds.min();
    let mx = r.bounds.max();
    r.shape == PrimitiveShape::Box && !r.subtract_preview && r.scale.0 == 1 && r.scale.1 == 1 && r.scale.2 == 1 && mx.0 as i64
        - mn.0 as i64 == 1 && mx.1 as i64 - mn.1 as i64 == 1 && mx.2 as i64 - mn.2 as i64 == 1
}

/// The cell positions of the unit boxes of group `key`.
fn collect_group(cells: &[ResolvedPrimitive], key: (Color3, bool)) -> (r: Vec<CellPos>)
    ensures
        r@ == group_cells(cells@, key, cells@.len() as int),
        forall|i: int| 0 <= i < r@.len() ==> below_max(#[trigger] r@[i]),
{
    let mut v: Vec<CellPos> = Vec::new();
    let mut k: usize = 0;
    while k < cells.len()
        invariant
            k <= cells@.len(),
            v@ == group_cells(cells@, key, k as int),
            forall|i: int| 0 <= i < v@.len() ==> below_max(#[trigger] v@[i]),
        decreases cells@.len() - k,
    {
        let c = &cells[k];
        if is_unit_box_exec(c) && c.color == key.0 && c.emissive == key.1 {
            let mn = c.bounds.min();
            v.push(mn);
        }
        k = k + 1;
    }
    v
}

/// Merge unit-cell boxes of the same color and emissive flag into larger
/// boxes. Everything else passes through unchanged, first and in order;
/// then come the merged boxes, group by group in order of first
/// appearance.
pub fn fuse_boxes(cells: &[ResolvedPrimitive]) -> (r: Vec<ResolvedPrimitive>)
    ensures
        r@ == fuse_spec(cells@),
{
    let mut out: Vec<ResolvedPrimitive> = Vec::new();
    let mut keys: Vec<(Color3, bool)> = Vec::new();
    let mut k: usize = 0;
    while k < cells.len()
        invariant
            k <= cells@.len(),
            out@ == rest_upto(cells@, k as int),
            keys@ == keys_upto(cells@, k as int),
        decreases cells@.len() - k,
    {
        let c = cells[k];
        if is_unit_box_exec(&c) {
            let mut found = false;
            let mut j: usize = 0;
            while j < keys.len()
                invariant
                    j <= keys@.len(),
                    found <==> exists|m: int| 0 <= m < j && keys@[m] == group_key(c),
                decreases keys@.len() - j,
            {
                if keys[j].0 == c.color && keys[j].1 == c.emissive {
                    found = true;
                }
                j = j + 1;
            }
            if !found {
                keys.push((c.color, c.emissive));
            }
            proof {
                if found {
                    let m = choose|m: int| 0 <= m < keys@.len() && keys@[m] == group_key(c);
                    assert(keys_upto(cells@, k as int).contains(group_key(c)));
                } else {
                    assert(!keys_upto(cells@, k as int).contains(group_key(c)));
                }
            }
        } else {
            out.push(c);
        }
        k = k + 1;
    }
    let ghost rest = out@;
    let ghost all_keys = keys@;
    let mut j: usize = 0;
    while j < keys.len()
        invariant
            j <= keys@.len(),
            keys@ == all_keys,
            all_keys == keys_upto(cells@, cells@.len() as int),
            rest == rest_upto(cells@, cells@.len() as int),
            out@ == rest + groups_upto(cells@, all_keys, j as int),
        decreases keys@.len() - j,
    {
        let key = keys[j];
        let positions = collect_group(cells, key);
        let merged = greedy_merge(positions);
        let ghost bs = merged@;
        let ghost before = out@;
        let mut i: usize = 0;
        while i < merged.len()
            invariant
                i <= merged@.len(),
                bs == merged@,
                bs == merge_spec(group_cells(cells@, key, cells@.len() as int)),
                out@ == before + Seq::new(i as nat, |t: int| fused_box(bs[t], key)),
            decreases merged@.len() - i,
        {
            out.push(
                ResolvedPrimitive {
                    shape: PrimitiveShape::Box,
                    bounds: merged[i],
                    orient: identity_placement(),
                    scale: (1, 1, 1),
                    color: key.0,
                    emissive: key.1,
                    is_mirrored: false,
                    subtract_preview: false,
                },
            );
            assert(before + Seq::new((i + 1) as nat, |t: int| fused_box(bs[t], key)) =~= (before + Seq::new(
                i as nat,
                |t: int| fused_box(bs[t], key),
            )).push(fused_box(bs[i as int], key)));
            i = i + 1;
        }
        assert(group_boxes(cells@, key) =~= Seq::new(i as nat, |t: int| fused_box(bs[t], key)));
        assert(rest + groups_upto(cells@, all_keys, j + 1) =~= before + group_boxes(cells@, key));
        j = j + 1;
    }
    out
}

/// A unit box of group `key` among the first `n` sits on cell `c`.
pub open spec fn unit_at(cells: Seq<ResolvedPrimitive>, key: (Color3, bool), n: int, c: CellPos) -> bool {
    exists|k: int|
        0 <= k < n && is_unit_box(cells[k]) && group_key(cells[k]) == key && #[trigger] min_pos(cells[k].bounds) == c
}

proof fn lemma_group_cells(cells: Seq<ResolvedPrimitive>, key: (Color3, bool), n: int)
    requires
        0 <= n <= cells.len(),
    ensures
        forall|c: CellPos| group_cells(cells, key, n).contains(c) <==> unit_at(cells, key, n, c),
        forall|i: int|
            0 <= i < group_cells(cells, key, n).len() ==> below_max(#[trigger] group_cells(cells, key, n)[i]),
    decreases n,
{
    if n > 0 {
        lemma_group_cells(cells, key, n - 1);
        let g = group_cells(cells, key, n - 1);
        assert forall|c: CellPos| group_cells(cells, key, n).contains(c) <==> unit_at(cells, key, n, c) by {
            if unit_at(cells, key, n, c) {
                let k = choose|k: int|
                    0 <= k < n && is_unit_box(cells[k]) && group_key(cells[k]) == key && #[trigger] min_pos(
                        cells[k].bounds,
                    ) == c;
                if k < n - 1 {
                    assert(unit_at(cells, key, n - 1, c));
                    assert(g.contains(c));
                    let j = choose|j: int| 0 <= j < g.len() && g[j] == c;
                    assert(group_cells(cells, key, n)[j] == c);
                } else {
                    assert(group_cells(cells, key, n).last() == c);
                }
            }
            if group_cells(cells, key, n).contains(c) {
                let j = choose|j: int| 0 <= j < group_cells(cells, key, n).len() && group_cells(cells, key, n)[j] == c;
                if j < g.len() {
                    assert(g[j] == c);
                    assert(g.contains(c));
                    assert(unit_at(cells, key, n - 1, c));
                    let k = choose|k: int|
                        0 <= k < n - 1 && is_unit_box(cells[k]) && group_key(cells[k]) == key && #[trigger] min_pos(
                            cells[k].bounds,
                        ) == c;
                    assert(0 <= k < n);
                } else {
                    assert(min_pos(cells[n - 1].bounds) == c);
                }
            }
        }
    }
}

/// Fusion neither adds nor drops a cell: for every group, a cell lies in
/// one of the group's fused boxes exactly when a unit box of the group
/// sits on it, and no two fused boxes of a group share a cell. No exact
/// cover of the group's cells by boxes has fewer boxes.
pub proof fn lemma_fuse_preserves_cells(cells: Seq<ResolvedPrimitive>, key: (Color3, bool))
    ensures
        no_cover_below(
            cell_set(group_cells(cells, key, cells.len() as int)),
            group_boxes(cells, key).len() as int,
        ),
        forall|c: CellPos|
            unit_at(cells, key, cells.len() as int, c) <==> exists|j: int|
                0 <= j < group_boxes(cells, key).len() && #[trigger] in_box(group_boxes(cells, key)[j].bounds, c),
        forall|j1: int, j2: int, c: CellPos|
            0 <= j1 < j2 < group_boxes(cells, key).len() ==> !(#[trigger] in_box(group_boxes(cells, key)[j1].bounds, c)
                && #[trigger] in_box(group_boxes(cells, key)[j2].bounds, c)),
{
    let n = cells.len() as int;
    lemma_group_cells(cells, key, n);
    let positions = group_cells(cells, key, n);
    lemma_merge_exact_cover(positions);
    lemma_merge_fewest(positions);
    let bs = merge_spec(positions);
    let gb = group_boxes(cells, key);
    assert forall|j: int| 0 <= j < gb.len() implies (#[trigger] gb[j]).bounds == bs[j] by {}
    assert forall|c: CellPos|
        unit_at(cells, key, n, c) <==> exists|j: int| 0 <= j < gb.len() && #[trigger] in_box(gb[j].bounds, c) by {
        if unit_at(cells, key, n, c) {
            assert(positions.contains(c));
            let k = choose|k: int| 0 <= k < bs.len() && #[trigger] in_box(bs[k], c);
            assert(in_box(gb[k].bounds, c));
        }
        if exists|j: int| 0 <= j < gb.len() && #[trigger] in_box(gb[j].bounds, c) {
            let j = choose|j: int| 0 <= j < gb.len() && #[trigger] in_box(gb[j].bounds, c);
            assert(in_box(bs[j], c));
            assert(positions.contains(c));
        }
    }
    assert forall|j1: int, j2: int, c: CellPos|
        0 <= j1 < j2 < gb.len() implies !(#[trigger] in_box(gb[j1].bounds, c) && #[trigger] in_box(gb[j2].bounds, c)) by {
        assert(gb[j1].bounds == bs[j1] && gb[j2].bounds == bs[j2]);
        assert(!(in_box(bs[j1], c) && in_box(bs[j2], c)));
    }
}

} // verus!
