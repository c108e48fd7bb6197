//! Deciding the preconditions of the tree walks: that every bound can be
//! negated, and that the shapes a walk reaches through imports form no
//! cycle and can be negated too.

use vstd::prelude::*;
use crate::bounds::Bounds;
use crate::collect::{
    imports_below, imports_ranked, node_ok, parts_ok, ranked, ready_with, walk_ready,
};
use crate::registry::{keys_of, lemma_resolve_index, resolve_index, AssetRegistry, ShapeEntry};
use crate::spec::SpecNode;

verus! {

// =====================================================================
// Negatable bounds
// =====================================================================

fn bounds_negatable(b: &Bounds) -> (r: bool)
    ensures
        r == crate::bounds::negatable(*b),
{
    b.0 > i32::MIN && b.1 > i32::MIN && b.2 > i32::MIN && b.3 > i32::MIN && b.4 > i32::MIN && b.5 > i32::MIN
}

/// No bound anywhere in the tree has a coordinate at `i32::MIN`.
pub fn node_negatable(node: &SpecNode) -> (r: bool)
    ensures
        r == node_ok(*node),
    decreases *node,
{
    if let Some(b) = &node.bounds {
        if !bounds_negatable(b) {
            return false;
        }
    }
    let mut i: usize = 0;
    while i < node.children.len()
        invariant
            i <= node.children@.len(),
            node.bounds is Some ==> crate::bounds::negatable(node.bounds->0),
            forall|j: int| 0 <= j < i ==> node_ok(#[trigger] node.children@[j]),
        decreases node.children@.len() - i,
    {
        if !node_negatable(&node.children[i]) {
            return false;
        }
        i = i + 1;
    }
    true
}

/// No bound anywhere in the parts has a coordinate at `i32::MIN`.
pub fn parts_negatable(parts: &[SpecNode]) -> (r: bool)
    ensures
        r == parts_ok(parts@),
{
    let mut i: usize = 0;
    while i < parts.len()
        invariant
            i <= parts@.len(),
            forall|j: int| 0 <= j < i ==> node_ok(#[trigger] parts@[j]),
        decreases parts@.len() - i,
    {
        if !node_negatable(&parts[i]) {
            return false;
        }
        i = i + 1;
    }
    true
}

// =====================================================================
// Acyclic imports
// =====================================================================

/// Every import the walk of `n` reaches resolves to nothing or to an
/// entry satisfying `p`. The children of an import node are not walked.
pub open spec fn all_targets(keys: Seq<Seq<char>>, n: SpecNode, p: spec_fn(int) -> bool) -> bool
    decreases n,
{
    if n.import is Some {
        let k = resolve_index(keys, n.import->0@);
        k >= 0 ==> p(k)
    } else {
        forall|i: int| 0 <= i < n.children@.len() ==> all_targets(keys, #[trigger] n.children@[i], p)
    }
}

pub open spec fn done_pred(d: Seq<bool>) -> spec_fn(int) -> bool {
    |t: int| 0 <= t < d.len() && d[t]
}

/// Every import of entry `k` resolves to nothing or to a done entry.
pub open spec fn entry_ready(entries: Seq<ShapeEntry>, k: int, done: Seq<bool>) -> bool {
    forall|i: int|
        0 <= i < entries[k].parts@.len() ==> all_targets(keys_of(entries), #[trigger] entries[k].parts@[i], done_pred(done))
}

pub open spec fn count_true(s: Seq<bool>) -> nat
    decreases s.len(),
{
    if s.len() == 0 {
        0
    } else {
        count_true(s.drop_last()) + if s.last() {
            1nat
        } else {
            0nat
        }
    }
}

proof fn lemma_count_update(s: Seq<bool>, k: int)
    requires
        0 <= k < s.len(),
        !s[k],
    ensures
        count_true(s.update(k, true)) == count_true(s) + 1,
    decreases s.len(),
{
    let u = s.update(k, true);
    if k < s.len() - 1 {
        assert(u.drop_last() =~= s.drop_last().update(k, true));
        lemma_count_update(s.drop_last(), k);
    } else {
        assert(u.drop_last() =~= s.drop_last());
    }
}

proof fn lemma_count_bound(s: Seq<bool>)
    ensures
        count_true(s) <= s.len(),
        count_true(s) < s.len() ==> exists|k: int| 0 <= k < s.len() && !s[k],
    decreases s.len(),
{
    if s.len() > 0 {
        lemma_count_bound(s.drop_last());
        if count_true(s) < s.len() && s.last() {
            let k = choose|k: int| 0 <= k < s.drop_last().len() && !s.drop_last()[k];
            assert(!s[k]);
        }
        if !s.last() {
            assert(!s[s.len() - 1]);
        }
    }
}

proof fn lemma_targets_mono(keys: Seq<Seq<char>>, n: SpecNode, p: spec_fn(int) -> bool, q: spec_fn(int) -> bool)
    requires
        all_targets(keys, n, p),
        forall|t: int| 0 <= t < keys.len() && #[trigger] p(t) ==> q(t),
    ensures
        all_targets(keys, n, q),
    decreases n,
{
    if n.import is Some {
        lemma_resolve_index(keys, n.import->0@);
    } else {
        assert forall|i: int| 0 <= i < n.children@.len() implies all_targets(keys, #[trigger] n.children@[i], q) by {
            lemma_targets_mono(keys, n.children@[i], p, q);
        }
    }
}

proof fn lemma_targets_below(keys: Seq<Seq<char>>, n: SpecNode, rank: spec_fn(int) -> nat, b: int)
    requires
        all_targets(keys, n, |t: int| 0 < rank(t) && (rank(t) as int) < b),
    ensures
        imports_below(keys, n, rank, b),
    decreases n,
{
    if n.import is None {
        assert forall|i: int| 0 <= i < n.children@.len() implies imports_below(keys, #[trigger] n.children@[i], rank, b) by {
            lemma_targets_below(keys, n.children@[i], rank, b);
        }
    }
}

proof fn lemma_blocked(keys: Seq<Seq<char>>, n: SpecNode, rank: spec_fn(int) -> nat, b: int, p: spec_fn(int) -> bool)
    requires
        imports_below(keys, n, rank, b),
        !all_targets(keys, n, p),
    ensures
        exists|t: int| 0 <= t < keys.len() && !p(t) && 0 < #[trigger] rank(t) && (rank(t) as int) < b,
    decreases n,
{
    if n.import is Some {
        lemma_resolve_index(keys, n.import->0@);
    } else {
        let i = choose|i: int| 0 <= i < n.children@.len() && !all_targets(keys, #[trigger] n.children@[i], p);
        lemma_blocked(keys, n.children@[i], rank, b, p);
    }
}

/// Do all imports reached from `node` resolve to nothing or to a done
/// entry?
fn targets_done(node: &SpecNode, registry: &AssetRegistry, done: &Vec<bool>) -> (r: bool)
    requires
        done@.len() == registry.entries().len(),
    ensures
        r == all_targets(keys_of(registry.entries()), *node, done_pred(done@)),
    decreases *node,
{
    if let Some(name) = &node.import {
        return match registry.resolve(name.as_str()) {
            Some(k) => done[k],
            None => true,
        };
    }
    let mut i: usize = 0;
    while i < node.children.len()
        invariant
            i <= node.children@.len(),
            node.import is None,
            done@.len() == registry.entries().len(),
            forall|j: int|
                0 <= j < i ==> all_targets(keys_of(registry.entries()), #[trigger] node.children@[j], done_pred(done@)),
        decreases node.children@.len() - i,
    {
        if !targets_done(&node.children[i], registry, done) {
            return false;
        }
        i = i + 1;
    }
    true
}

fn entry_ready_exec(registry: &AssetRegistry, k: usize, done: &Vec<bool>) -> (r: bool)
    requires
        k < registry.entries().len(),
        done@.len() == registry.entries().len(),
    ensures
        r == entry_ready(registry.entries(), k as int, done@),
{
    let parts = registry.shape_parts(k);
    let mut i: usize = 0;
    while i < parts.len()
        invariant
            i <= parts@.len(),
            k < registry.entries().len(),
            parts@ == registry.entries()[k as int].parts@,
            done@.len() == registry.entries().len(),
            forall|j: int|
                0 <= j < i ==> all_targets(keys_of(registry.entries()), #[trigger] parts@[j], done_pred(done@)),
        decreases parts@.len() - i,
    {
        if !targets_done(&parts[i], registry, done) {
            return false;
        }
        i = i + 1;
    }
    true
}

/// The invariant of the ordering: every done entry imports only entries
/// done before it.
pub open spec fn ordered(entries: Seq<ShapeEntry>, done: Seq<bool>, order: Seq<usize>) -> bool {
    forall|k: int, i: int|
        0 <= k < entries.len() && done[k] && 0 <= i < entries[k].parts@.len() ==> all_targets(
            keys_of(entries),
            #[trigger] entries[k].parts@[i],
            |t: int| 0 <= t < done.len() && done[t] && order[t] < order[k],
        )
}

/// Among the entries not done of positive rank, one of least rank.
proof fn lemma_least_undone_positive(done: Seq<bool>, rank: spec_fn(int) -> nat, k0: int) -> (k: int)
    requires
        0 <= k0 < done.len(),
        !done[k0],
        rank(k0) > 0,
    ensures
        0 <= k < done.len(),
        !done[k],
        rank(k) > 0,
        forall|j: int| 0 <= j < done.len() && !done[j] && rank(j) > 0 ==> rank(k) <= rank(j),
    decreases rank(k0),
{
    if exists|j: int| 0 <= j < done.len() && !done[j] && rank(j) > 0 && rank(j) < rank(k0) {
        let j = choose|j: int| 0 <= j < done.len() && !done[j] && rank(j) > 0 && rank(j) < rank(k0);
        lemma_least_undone_positive(done, rank, j)
    } else {
        k0
    }
}

/// Is the walk of `parts` ready? Shapes with negatable bounds everywhere
/// are taken in turn once every shape they import has been taken; the
/// walk is ready exactly when every import of `parts` resolves to
/// nothing or to a taken shape. Shapes the walk does not reach do not
/// matter.
pub fn walk_ready_check(parts: &[SpecNode], registry: &AssetRegistry) -> (r: bool)
    ensures
        r == walk_ready(registry.entries(), parts@),
{
    let ghost entries = registry.entries();
    let n = registry.shape_count();
    let mut done: Vec<bool> = Vec::new();
    let mut order: Vec<usize> = Vec::new();
    let mut k: usize = 0;
    while k < n
        invariant
            k <= n,
            done@.len() == k,
            order@.len() == k,
            forall|j: int| 0 <= j < k ==> !done@[j],
        decreases n - k,
    {
        done.push(false);
        order.push(0);
        k = k + 1;
    }
    proof {
        lemma_count_zero(done@);
    }
    let mut d: usize = 0;
    let mut stuck = false;
    while d < n && !stuck
        invariant
            n == entries.len(),
            entries == registry.entries(),
            done@.len() == n,
            order@.len() == n,
            count_true(done@) == d,
            d <= n,
            forall|j: int| 0 <= j < n && done@[j] ==> order@[j] < d,
            forall|j: int| 0 <= j < n && done@[j] ==> parts_ok(#[trigger] entries[j].parts@),
            ordered(entries, done@, order@),
            stuck ==> forall|j: int|
                0 <= j < n && !done@[j] ==> !(entry_ready(entries, j, done@) && parts_ok(#[trigger] entries[j].parts@)),
        decreases 2 * (n - d) + (if stuck { 0int } else { 1int }),
    {
        let mut found: Option<usize> = None;
        let mut k: usize = 0;
        while k < n
            invariant
                k <= n,
                n == entries.len(),
                entries == registry.entries(),
                done@.len() == n,
                found matches Some(f) ==> f < n && !done@[f as int] && entry_ready(entries, f as int, done@) && parts_ok(
                    entries[f as int].parts@,
                ),
                found is None ==> forall|j: int|
                    0 <= j < k ==> done@[j] || !(entry_ready(entries, j, done@) && parts_ok(#[trigger] entries[j].parts@)),
            decreases n - k,
        {
            if found.is_none() && !done[k] && entry_ready_exec(registry, k, &done) && parts_negatable(registry.shape_parts(k)) {
                found = Some(k);
            }
            k = k + 1;
        }
        match found {
            None => {
                stuck = true;
            },
            Some(f) => {
                let ghost old_done = done@;
                let ghost old_order = order@;
                done.set(f, true);
                order.set(f, d);
                proof {
                    lemma_count_update(old_done, f as int);
                    assert forall|k2: int, i: int|
                        0 <= k2 < entries.len() && done@[k2] && 0 <= i < entries[k2].parts@.len() implies all_targets(
                        keys_of(entries),
                        #[trigger] entries[k2].parts@[i],
                        |t: int| 0 <= t < done@.len() && done@[t] && order@[t] < order@[k2],
                    ) by {
                        let q = |t: int| 0 <= t < done@.len() && done@[t] && order@[t] < order@[k2];
                        if k2 == f {
                            assert(all_targets(keys_of(entries), entries[k2].parts@[i], done_pred(old_done)));
                            lemma_targets_mono(keys_of(entries), entries[k2].parts@[i], done_pred(old_done), q);
                        } else {
                            let p = |t: int| 0 <= t < old_done.len() && old_done[t] && old_order[t] < old_order[k2];
                            assert(all_targets(keys_of(entries), entries[k2].parts@[i], p));
                            lemma_targets_mono(keys_of(entries), entries[k2].parts@[i], p, q);
                        }
                    }
                }
                d = d + 1;
            },
        }
    }
    let mut ok = true;
    let mut i: usize = 0;
    while i < parts.len()
        invariant
            i <= parts@.len(),
            done@.len() == entries.len(),
            entries == registry.entries(),
            ok <==> forall|j: int| 0 <= j < i ==> all_targets(keys_of(entries), #[trigger] parts@[j], done_pred(done@)),
        decreases parts@.len() - i,
    {
        if !targets_done(&parts[i], registry, &done) {
            ok = false;
        }
        i = i + 1;
    }
    proof {
        let keys = keys_of(entries);
        if ok {
            let rank = |t: int| if 0 <= t < n && done@[t] { (order@[t] + 1) as nat } else { 0nat };
            let bound: int = d as int + 1;
            assert forall|k2: int, i2: int|
                0 <= k2 < entries.len() && rank(k2) > 0 && 0 <= i2 < entries[k2].parts@.len() implies imports_below(
                keys,
                #[trigger] entries[k2].parts@[i2],
                rank,
                rank(k2) as int,
            ) by {
                let p = |t: int| 0 <= t < done@.len() && done@[t] && order@[t] < order@[k2];
                let q = |t: int| 0 < rank(t) && (rank(t) as int) < rank(k2) as int;
                assert(all_targets(keys, entries[k2].parts@[i2], p));
                lemma_targets_mono(keys, entries[k2].parts@[i2], p, q);
                lemma_targets_below(keys, entries[k2].parts@[i2], rank, rank(k2) as int);
            }
            assert(imports_ranked(entries, rank));
            assert forall|k2: int| 0 <= k2 < entries.len() && rank(k2) > 0 implies parts_ok(#[trigger] entries[k2].parts@) by {}
            assert(ranked(entries, rank));
            assert forall|j: int| 0 <= j < parts@.len() implies imports_below(keys, #[trigger] parts@[j], rank, bound) by {
                let q = |t: int| 0 < rank(t) && (rank(t) as int) < bound;
                assert(all_targets(keys, parts@[j], done_pred(done@)));
                lemma_targets_mono(keys, parts@[j], done_pred(done@), q);
                lemma_targets_below(keys, parts@[j], rank, bound);
            }
            assert(ready_with(entries, parts@, rank, bound));
        } else if walk_ready(entries, parts@) {
            let (rank, bound) = choose|rank: spec_fn(int) -> nat, bound: int| ready_with(entries, parts@, rank, bound);
            let j = choose|j: int| 0 <= j < parts@.len() && !all_targets(keys, #[trigger] parts@[j], done_pred(done@));
            assert(imports_below(keys, parts@[j], rank, bound));
            lemma_blocked(keys, parts@[j], rank, bound, done_pred(done@));
            let t = choose|t: int| 0 <= t < keys.len() && !done_pred(done@)(t) && 0 < #[trigger] rank(t) && (rank(t) as int) < bound;
            if !stuck {
                lemma_count_all(done@);
                assert(done@[t]);
            } else {
                let km = lemma_least_undone_positive(done@, rank, t);
                assert forall|i2: int| 0 <= i2 < entries[km].parts@.len() implies all_targets(
                    keys,
                    #[trigger] entries[km].parts@[i2],
                    done_pred(done@),
                ) by {
                    assert(imports_below(keys, entries[km].parts@[i2], rank, rank(km) as int));
                    if !all_targets(keys, entries[km].parts@[i2], done_pred(done@)) {
                        lemma_blocked(keys, entries[km].parts@[i2], rank, rank(km) as int, done_pred(done@));
                        let t2 = choose|t2: int|
                            0 <= t2 < keys.len() && !done_pred(done@)(t2) && 0 < #[trigger] rank(t2) && (rank(t2) as int)
                                < rank(km) as int;
                        assert(rank(km) <= rank(t2));
                    }
                }
                assert(entry_ready(entries, km, done@));
                assert(parts_ok(entries[km].parts@));
            }
        }
    }
    ok
}

proof fn lemma_count_zero(s: Seq<bool>)
    requires
        forall|j: int| 0 <= j < s.len() ==> !s[j],
    ensures
        count_true(s) == 0,
    decreases s.len(),
{
    if s.len() > 0 {
        lemma_count_zero(s.drop_last());
    }
}

proof fn lemma_count_all(s: Seq<bool>)
    requires
        count_true(s) == s.len(),
    ensures
        forall|j: int| 0 <= j < s.len() ==> s[j],
{
    lemma_count_bound(s);
    assert forall|j: int| 0 <= j < s.len() implies s[j] by {
        if !s[j] {
            lemma_count_missing(s, j);
        }
    }
}

proof fn lemma_count_missing(s: Seq<bool>, j: int)
    requires
        0 <= j < s.len(),
        !s[j],
    ensures
        count_true(s) < s.len(),
    decreases s.len(),
{
    lemma_count_bound(s.drop_last());
    if j < s.len() - 1 {
        lemma_count_missing(s.drop_last(), j);
    }
}

} // verus!
