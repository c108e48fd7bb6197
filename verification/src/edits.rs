//! Editing a shape's parts by slash-separated path, the undo/redo history
//! of edits, and the working copy of the shape being edited.
//!
//! A path names a node by the effective names along the way down from
//! the top-level parts (`"chassis_top/wheel"`); at each level the first
//! node with that name is taken.

use vstd::prelude::*;
use crate::placement::SymOp;
use crate::registry::{equals, first_match, paths_of, AssetRegistry};
use crate::spec::{effective_name_spec, SpecNode};
use crate::text::{
    join_first, join_on, lemma_join_nonempty, lemma_split_first, lemma_split_join,
    lemma_split_pieces, no_sep, split_at_char, split_on, str_eq, to_owned_string,
};

verus! {

// =====================================================================
// Finding, removing and inserting by path
// =====================================================================

/// Index of the first node whose effective name is `name`, or -1.
pub open spec fn find_named(parts: Seq<SpecNode>, name: Seq<char>) -> int
    decreases parts.len(),
{
    if parts.len() == 0 {
        -1
    } else {
        let k = find_named(parts.drop_last(), name);
        if k >= 0 {
            k
        } else if effective_name_spec(parts.last()) == Some(name) {
            parts.len() - 1
        } else {
            -1
        }
    }
}

/// The character views of a list of `str` pieces.
pub open spec fn views(x: Seq<&str>) -> Seq<Seq<char>> {
    x.map_values(|p: &str| p@)
}

/// The segments a parent path names: none for the empty path.
pub open spec fn path_segments(p: Seq<char>) -> Seq<Seq<char>> {
    if p.len() == 0 {
        Seq::empty()
    } else {
        split_on(p, '/')
    }
}

/// All fields but the children agree (lists compared by content).
pub open spec fn same_fields(a: SpecNode, b: SpecNode) -> bool {
    &&& a.name == b.name
    &&& a.bounds == b.bounds
    &&& a.faces == b.faces
    &&& a.corner == b.corner
    &&& a.clip == b.clip
    &&& a.tags@ == b.tags@
    &&& a.import == b.import
    &&& a.rotate@ == b.rotate@
    &&& a.symmetry@ == b.symmetry@
    &&& a.subtract == b.subtract
}

/// Two trees hold the same content.
pub open spec fn deep_eq(a: SpecNode, b: SpecNode) -> bool
    decreases a,
{
    &&& same_fields(a, b)
    &&& a.children@.len() == b.children@.len()
    &&& forall|i: int| 0 <= i < a.children@.len() ==> deep_eq(#[trigger] a.children@[i], b.children@[i])
}

/// Two parts lists hold the same content.
pub open spec fn deep_eq_seq(s: Seq<SpecNode>, t: Seq<SpecNode>) -> bool {
    &&& s.len() == t.len()
    &&& forall|i: int| 0 <= i < s.len() ==> deep_eq(#[trigger] s[i], t[i])
}

/// Every segment of the path names a node below the previous one.
pub open spec fn removable(parts: Seq<SpecNode>, segs: Seq<Seq<char>>) -> bool
    decreases segs.len(),
{
    if segs.len() == 0 {
        false
    } else {
        let i = find_named(parts, segs[0]);
        i >= 0 && (segs.len() == 1 || removable(parts[i].children@, segs.drop_first()))
    }
}

/// `new` is `old` with the node at `segs` taken out; it sat at index
/// `idx` among its siblings and was `node`.
pub open spec fn removed(old: Seq<SpecNode>, new: Seq<SpecNode>, segs: Seq<Seq<char>>, idx: int, node: SpecNode) -> bool
    decreases segs.len(),
{
    let i = find_named(old, segs[0]);
    if segs.len() <= 1 {
        &&& idx == i
        &&& 0 <= i < old.len()
        &&& node == old[i]
        &&& new == old.remove(i)
    } else {
        &&& 0 <= i < old.len()
        &&& new.len() == old.len()
        &&& forall|j: int| 0 <= j < old.len() && j != i ==> new[j] == old[j]
        &&& same_fields(old[i], new[i])
        &&& removed(old[i].children@, new[i].children@, segs.drop_first(), idx, node)
    }
}

/// Every segment names a node below the previous one (the empty list
/// names the top level).
pub open spec fn insertable(parts: Seq<SpecNode>, segs: Seq<Seq<char>>) -> bool
    decreases segs.len(),
{
    if segs.len() == 0 {
        true
    } else {
        let i = find_named(parts, segs[0]);
        i >= 0 && insertable(parts[i].children@, segs.drop_first())
    }
}

/// `new` is `old` with `node` inserted among the children of the node at
/// `segs` (the top level when empty), at `index` clamped to the end.
pub open spec fn inserted(old: Seq<SpecNode>, new: Seq<SpecNode>, segs: Seq<Seq<char>>, index: int, node: SpecNode) -> bool
    decreases segs.len(),
{
    if segs.len() == 0 {
        new == old.insert(if index < old.len() { index } else { old.len() as int }, node)
    } else {
        let i = find_named(old, segs[0]);
        &&& 0 <= i < old.len()
        &&& new.len() == old.len()
        &&& forall|j: int| 0 <= j < old.len() && j != i ==> new[j] == old[j]
        &&& same_fields(old[i], new[i])
        &&& inserted(old[i].children@, new[i].children@, segs.drop_first(), index, node)
    }
}

pub proof fn lemma_find_named(parts: Seq<SpecNode>, name: Seq<char>)
    ensures
        -1 <= find_named(parts, name) < parts.len(),
        find_named(parts, name) >= 0 ==> effective_name_spec(parts[find_named(parts, name)]) == Some(name),
        forall|j: int|
            0 <= j < parts.len() && (find_named(parts, name) < 0 || j < find_named(parts, name))
                ==> effective_name_spec(#[trigger] parts[j]) != Some(name),
    decreases parts.len(),
{
    if parts.len() > 0 {
        let p = parts.drop_last();
        lemma_find_named(p, name);
        assert forall|j: int| 0 <= j < p.len() implies p[j] == parts[j] by {}
    }
}

proof fn lemma_find_same(a: Seq<SpecNode>, b: Seq<SpecNode>, name: Seq<char>)
    requires
        a.len() == b.len(),
        forall|j: int| 0 <= j < a.len() ==> effective_name_spec(#[trigger] a[j]) == effective_name_spec(b[j]),
    ensures
        find_named(a, name) == find_named(b, name),
    decreases a.len(),
{
    if a.len() > 0 {
        let a0 = a.drop_last();
        let b0 = b.drop_last();
        assert forall|j: int| 0 <= j < a0.len() implies effective_name_spec(#[trigger] a0[j]) == effective_name_spec(b0[j]) by {
            assert(a0[j] == a[j]);
            assert(b0[j] == b[j]);
        }
        lemma_find_same(a0, b0, name);
        assert(effective_name_spec(a.last()) == effective_name_spec(b.last()));
    }
}

/// Every tree holds the same content as itself.
pub proof fn lemma_deep_eq_refl(a: SpecNode)
    ensures
        deep_eq(a, a),
    decreases a,
{
    assert forall|i: int| 0 <= i < a.children@.len() implies deep_eq(#[trigger] a.children@[i], a.children@[i]) by {
        lemma_deep_eq_refl(a.children@[i]);
    }
}

proof fn lemma_remove_insert(
    a: Seq<SpecNode>,
    b: Seq<SpecNode>,
    c: Seq<SpecNode>,
    segs: Seq<Seq<char>>,
    idx: int,
    node: SpecNode,
    node2: SpecNode,
)
    requires
        segs.len() >= 1,
        removed(a, b, segs, idx, node),
        deep_eq(node2, node),
    ensures
        insertable(b, segs.drop_last()),
        inserted(b, c, segs.drop_last(), idx, node2) ==> deep_eq_seq(c, a),
    decreases segs.len(),
{
    let i = find_named(a, segs[0]);
    if segs.len() == 1 {
        assert(segs.drop_last() =~= Seq::<Seq<char>>::empty());
        if inserted(b, c, segs.drop_last(), idx, node2) {
            assert(c == b.insert(i, node2));
            assert forall|j: int| 0 <= j < c.len() implies deep_eq(#[trigger] c[j], a[j]) by {
                if j == i {
                    assert(c[j] == node2);
                } else {
                    assert(c[j] == a[j]);
                    lemma_deep_eq_refl(a[j]);
                }
            }
        }
    } else {
        let s1 = segs.drop_first();
        let s2 = segs.drop_last();
        assert(s2[0] == segs[0]);
        assert(s2.drop_first() =~= s1.drop_last());
        assert forall|j: int| 0 <= j < a.len() implies effective_name_spec(#[trigger] a[j]) == effective_name_spec(b[j]) by {
            if j != i {
                assert(b[j] == a[j]);
            }
        }
        lemma_find_same(a, b, segs[0]);
        let ca = a[i].children@;
        let cb = b[i].children@;
        if inserted(b, c, s2, idx, node2) {
            let cc = c[i].children@;
            lemma_remove_insert(ca, cb, cc, s1, idx, node, node2);
            assert forall|j: int| 0 <= j < c.len() implies deep_eq(#[trigger] c[j], a[j]) by {
                if j == i {
                    assert(deep_eq_seq(cc, ca));
                    assert forall|k: int| 0 <= k < cc.len() implies deep_eq(#[trigger] c[j].children@[k], a[j].children@[k]) by {
                        assert(deep_eq(cc[k], ca[k]));
                    }
                } else {
                    assert(c[j] == a[j]);
                    lemma_deep_eq_refl(a[j]);
                }
            }
        } else {
            lemma_remove_insert(ca, cb, cb, s1, idx, node, node2);
        }
    }
}

/// Undoing a removal restores the parts: when removing by `path` took
/// `node` from index `idx` under parent path `parent`, inserting a copy
/// of `node` at `idx` under `parent` succeeds and gives back parts with
/// the content they had before the removal. The one exception is a path
/// of two segments whose first is empty (`/x`, or `/` itself): its parent
/// path is empty, which names the top level rather than the node with
/// the empty name.
pub proof fn lemma_remove_then_insert_restores(
    before: Seq<SpecNode>,
    mid: Seq<SpecNode>,
    after: Seq<SpecNode>,
    path: Seq<char>,
    parent: Seq<char>,
    idx: int,
    node: SpecNode,
    restored: SpecNode,
)
    requires
        path.len() > 0,
        !(path[0] == '/' && split_on(path, '/').len() == 2),
        removed(before, mid, split_on(path, '/'), idx, node),
        parent == join_on(split_on(path, '/').take(split_on(path, '/').len() - 1), '/'),
        deep_eq(restored, node),
    ensures
        insertable(mid, path_segments(parent)),
        inserted(mid, after, path_segments(parent), idx, restored) ==> deep_eq_seq(after, before),
{
    let segs = split_on(path, '/');
    lemma_split_pieces(path, '/');
    let front = segs.take(segs.len() - 1);
    if segs.len() > 1 {
        if segs.len() == 2 {
            lemma_split_first(path, '/');
            assert(front[0] == segs[0]);
            lemma_join_nonempty(front, '/');
        } else {
            assert(join_on(front, '/') == join_on(front.drop_last(), '/') + seq!['/'] + front.last());
        }
        assert forall|k: int| 0 <= k < front.len() implies no_sep(#[trigger] front[k], '/') by {
            assert(front[k] == segs[k]);
        }
        lemma_split_join(front, '/');
    } else {
        assert(front =~= Seq::<Seq<char>>::empty());
    }
    assert(path_segments(parent) =~= segs.drop_last());
    lemma_remove_insert(before, mid, after, segs, idx, node, restored);
}

fn name_is(node: &SpecNode, name: &str) -> (r: bool)
    ensures
        r == (effective_name_spec(*node) == Some(name@)),
{
    match node.effective_name() {
        Some(n) => str_eq(n, name),
        None => false,
    }
}

/// Position of the first node named `name`.
fn find_index(parts: &Vec<SpecNode>, name: &str) -> (r: Option<usize>)
    ensures
        match r {
            Some(i) => i == find_named(parts@, name@) && i < parts@.len(),
            None => find_named(parts@, name@) == -1,
        },
{
    let mut i: usize = 0;
    while i < parts.len()
        invariant
            i <= parts@.len(),
            forall|j: int| 0 <= j < i ==> effective_name_spec(#[trigger] parts@[j]) != Some(name@),
        decreases parts@.len() - i,
    {
        if name_is(&parts[i], name) {
            proof {
                lemma_find_named(parts@, name@);
            }
            return Some(i);
        }
        i = i + 1;
    }
    proof {
        lemma_find_named(parts@, name@);
    }
    None
}

fn is_removable(parts: &Vec<SpecNode>, segs: &[&str], from: usize) -> (r: bool)
    requires
        from < segs@.len(),
    ensures
        r == removable(parts@, views(segs@).skip(from as int)),
    decreases segs@.len() - from,
{
    let ghost ss = views(segs@).skip(from as int);
    assert(ss[0] == segs@[from as int]@);
    match find_index(parts, segs[from]) {
        None => false,
        Some(i) => {
            if from + 1 == segs.len() {
                true
            } else {
                assert(views(segs@).skip(from + 1) =~= ss.drop_first());
                is_removable(&parts[i].children, segs, from + 1)
            }
        },
    }
}

fn is_insertable(parts: &Vec<SpecNode>, segs: &[&str], from: usize) -> (r: bool)
    requires
        from <= segs@.len(),
    ensures
        r == insertable(parts@, views(segs@).skip(from as int)),
    decreases segs@.len() - from,
{
    let ghost ss = views(segs@).skip(from as int);
    if from == segs.len() {
        assert(ss =~= Seq::<Seq<char>>::empty());
        return true;
    }
    assert(ss[0] == segs@[from as int]@);
    match find_index(parts, segs[from]) {
        None => false,
        Some(i) => {
            assert(views(segs@).skip(from + 1) =~= ss.drop_first());
            is_insertable(&parts[i].children, segs, from + 1)
        },
    }
}

fn remove_at_segments(parts: &mut Vec<SpecNode>, segs: &[&str], from: usize) -> (r: (usize, SpecNode))
    requires
        from < segs@.len(),
        removable(old(parts)@, views(segs@).skip(from as int)),
    ensures
        removed(old(parts)@, final(parts)@, views(segs@).skip(from as int), r.0 as int, r.1),
    decreases segs@.len() - from,
{
    let ghost ss = views(segs@).skip(from as int);
    assert(ss[0] == segs@[from as int]@);
    let idx = match find_index(parts, segs[from]) {
        Some(i) => i,
        None => vstd::pervasive::unreached(),
    };
    if from + 1 == segs.len() {
        let node = parts.remove(idx);
        return (idx, node);
    }
    assert(views(segs@).skip(from + 1) =~= ss.drop_first());
    let r = remove_at_segments(&mut parts[idx].children, segs, from + 1);
    proof {
        assert forall|j: int| 0 <= j < old(parts)@.len() && j != idx implies parts@[j] == old(parts)@[j] by {}
    }
    r
}

fn insert_at_segments(parts: &mut Vec<SpecNode>, segs: &[&str], from: usize, index: usize, node: SpecNode)
    requires
        from <= segs@.len(),
        insertable(old(parts)@, views(segs@).skip(from as int)),
    ensures
        inserted(old(parts)@, final(parts)@, views(segs@).skip(from as int), index as int, node),
    decreases segs@.len() - from,
{
    let ghost ss = views(segs@).skip(from as int);
    if from == segs.len() {
        assert(ss =~= Seq::<Seq<char>>::empty());
        let clamped = if index < parts.len() {
            index
        } else {
            parts.len()
        };
        parts.insert(clamped, node);
        return;
    }
    assert(ss[0] == segs@[from as int]@);
    let idx = match find_index(parts, segs[from]) {
        Some(i) => i,
        None => vstd::pervasive::unreached(),
    };
    assert(views(segs@).skip(from + 1) =~= ss.drop_first());
    insert_at_segments(&mut parts[idx].children, segs, from + 1, index, node);
    proof {
        assert forall|j: int| 0 <= j < old(parts)@.len() && j != idx implies parts@[j] == old(parts)@[j] by {}
    }
}

/// Remove the node identified by `path` and return
/// `(parent_path, index, node)` for later restoration; `None` (and the
/// parts unchanged) when the path is empty or names no node.
pub fn remove_at_path(parts: &mut Vec<SpecNode>, path: &str) -> (r: Option<(String, usize, SpecNode)>)
    ensures
        ({
            let segs = split_on(path@, '/');
            match r {
                Some((parent, idx, node)) => {
                    &&& path@.len() > 0
                    &&& removable(old(parts)@, segs)
                    &&& removed(old(parts)@, final(parts)@, segs, idx as int, node)
                    &&& parent@ == join_on(segs.take(segs.len() - 1), '/')
                },
                None => (path@.len() == 0 || !removable(old(parts)@, segs)) && final(parts)@ == old(parts)@,
            }
        }),
{
    if path.unicode_len() == 0 {
        return None;
    }
    let segs = split_at_char(path, '/');
    proof {
        lemma_split_pieces(path@, '/');
        assert(views(segs@).skip(0) =~= split_on(path@, '/'));
    }
    let n = segs.len();
    proof {
        reveal_strlit("/");
    }
    let parent = join_first(segs.as_slice(), n - 1, "/");
    assert(views(segs@).take(n - 1) =~= split_on(path@, '/').take(split_on(path@, '/').len() - 1));
    if !is_removable(parts, segs.as_slice(), 0) {
        return None;
    }
    let (idx, node) = remove_at_segments(parts, segs.as_slice(), 0);
    Some((parent, idx, node))
}

/// Insert `node` at `index` (clamped to the end) among the children of
/// the node at `parent_path`, or among the top-level parts when it is
/// empty. Returns false, leaving the parts unchanged, when the parent
/// path does not resolve.
pub fn insert_at_path(parts: &mut Vec<SpecNode>, parent_path: &str, index: usize, node: SpecNode) -> (r: bool)
    ensures
        r == insertable(old(parts)@, path_segments(parent_path@)),
        r ==> inserted(old(parts)@, final(parts)@, path_segments(parent_path@), index as int, node),
        !r ==> final(parts)@ == old(parts)@,
{
    let segs: Vec<&str> = if parent_path.unicode_len() == 0 {
        Vec::new()
    } else {
        split_at_char(parent_path, '/')
    };
    assert(views(segs@).skip(0) =~= path_segments(parent_path@));
    if !is_insertable(parts, segs.as_slice(), 0) {
        return false;
    }
    insert_at_segments(parts, segs.as_slice(), 0, index, node);
    true
}


// =====================================================================
// Copying trees
// =====================================================================

fn copy_ops(v: &Vec<SymOp>) -> (r: Vec<SymOp>)
    ensures
        r@ == v@,
{
    let mut out: Vec<SymOp> = Vec::new();
    let mut i: usize = 0;
    while i < v.len()
        invariant
            i <= v@.len(),
            out@ == v@.take(i as int),
        decreases v@.len() - i,
    {
        out.push(v[i]);
        assert(v@.take(i + 1) =~= v@.take(i as int).push(v@[i as int]));
        i = i + 1;
    }
    assert(v@.take(v@.len() as int) =~= v@);
    out
}

fn copy_strings(v: &Vec<String>) -> (r: Vec<String>)
    ensures
        r@ == v@,
{
    let mut out: Vec<String> = Vec::new();
    let mut i: usize = 0;
    while i < v.len()
        invariant
            i <= v@.len(),
            out@ == v@.take(i as int),
        decreases v@.len() - i,
    {
        out.push(v[i].clone());
        assert(v@.take(i + 1) =~= v@.take(i as int).push(v@[i as int]));
        i = i + 1;
    }
    assert(v@.take(v@.len() as int) =~= v@);
    out
}

fn copy_opt_string(s: &Option<String>) -> (r: Option<String>)
    ensures
        r == *s,
{
    match s {
        Some(x) => Some(x.clone()),
        None => None,
    }
}

impl Clone for SpecNode {
    /// A copy of the whole subtree with the same content.
    fn clone(&self) -> (r: SpecNode)
        ensures
            deep_eq(r, *self),
        decreases self,
    {
        let mut children: Vec<SpecNode> = Vec::new();
        let mut i: usize = 0;
        while i < self.children.len()
            invariant
                i <= self.children@.len(),
                children@.len() == i,
                forall|j: int| 0 <= j < i ==> deep_eq(#[trigger] children@[j], self.children@[j]),
            decreases self.children@.len() - i,
        {
            let c = self.children[i].clone();
            children.push(c);
            i = i + 1;
        }
        let r = SpecNode {
            name: copy_opt_string(&self.name),
            bounds: self.bounds,
            faces: self.faces,
            corner: self.corner,
            clip: self.clip,
            tags: copy_strings(&self.tags),
            import: copy_opt_string(&self.import),
            children,
            rotate: copy_ops(&self.rotate),
            symmetry: copy_ops(&self.symmetry),
            subtract: self.subtract,
        };
        assert forall|j: int| 0 <= j < r.children@.len() implies deep_eq(#[trigger] r.children@[j], self.children@[j]) by {}
        r
    }
}

// =====================================================================
// Undo / redo
// =====================================================================

/// Deleting the node at a path. `captured` holds, after the first
/// apply, what an undo needs: `(parent_path, index, node)`.
#[derive(Clone, Debug)]
pub struct DeleteOp {
    pub path: String,
    captured: Option<(String, usize, SpecNode)>,
}

/// A reversible edit.
#[derive(Clone, Debug)]
pub enum EditCommand {
    Delete(DeleteOp),
}

impl DeleteOp {
    /// A delete of `path`, not yet applied.
    pub fn new(path: String) -> (r: DeleteOp)
        ensures
            r.path_of() == path,
            r.captured() is None,
    {
        DeleteOp { path, captured: None }
    }

    /// The path of the node to delete.
    pub closed spec fn path_of(&self) -> String {
        self.path
    }

    /// What the last successful apply captured.
    pub closed spec fn captured(&self) -> Option<(String, usize, SpecNode)> {
        self.captured
    }
}

impl EditCommand {
    pub open spec fn op(&self) -> DeleteOp {
        match self {
            EditCommand::Delete(op) => *op,
        }
    }

    /// Apply the edit to `parts`. A delete removes the node at its path
    /// and captures where it was; false, with nothing changed, when the
    /// path names no node.
    pub fn apply(&mut self, parts: &mut Vec<SpecNode>) -> (r: bool)
        ensures
            ({
                let path = old(self).op().path_of()@;
                let segs = split_on(path, '/');
                &&& r == (path.len() > 0 && removable(old(parts)@, segs))
                &&& final(self).op().path_of() == old(self).op().path_of()
                &&& r ==> match final(self).op().captured() {
                    Some((parent, idx, node)) => {
                        &&& removed(old(parts)@, final(parts)@, segs, idx as int, node)
                        &&& parent@ == join_on(segs.take(segs.len() - 1), '/')
                    },
                    None => false,
                }
                &&& !r ==> final(parts)@ == old(parts)@ && *final(self) == *old(self)
            }),
    {
        match self {
            EditCommand::Delete(op) => {
                match remove_at_path(parts, op.path.as_str()) {
                    Some(c) => {
                        op.captured = Some(c);
                        true
                    },
                    None => false,
                }
            },
        }
    }

    /// Undo the edit on `parts`: a delete puts a copy of the captured
    /// node back at its index under its parent. False, with nothing
    /// changed, when nothing was captured or the parent no longer
    /// resolves.
    pub fn invert(&self, parts: &mut Vec<SpecNode>) -> (r: bool)
        ensures
            match self.op().captured() {
                Some((parent, idx, node)) => {
                    let segs = path_segments(parent@);
                    &&& r == insertable(old(parts)@, segs)
                    &&& r ==> exists|copy: SpecNode|
                        deep_eq(copy, node) && inserted(old(parts)@, final(parts)@, segs, idx as int, copy)
                    &&& !r ==> final(parts)@ == old(parts)@
                },
                None => !r && final(parts)@ == old(parts)@,
            },
    {
        match self {
            EditCommand::Delete(op) => {
                match &op.captured {
                    Some((parent, idx, node)) => {
                        let copy = node.clone();
                        insert_at_path(parts, parent.as_str(), *idx, copy)
                    },
                    None => false,
                }
            },
        }
    }
}

/// Undo and redo stacks of edit commands.
#[derive(Debug)]
pub struct CommandHistory {
    undo: Vec<EditCommand>,
    redo: Vec<EditCommand>,
}

impl CommandHistory {
    pub closed spec fn undo_stack(&self) -> Seq<EditCommand> {
        self.undo@
    }

    pub closed spec fn redo_stack(&self) -> Seq<EditCommand> {
        self.redo@
    }

    /// Empty stacks.
    pub fn new() -> (r: CommandHistory)
        ensures
            r.undo_stack().len() == 0,
            r.redo_stack().len() == 0,
    {
        CommandHistory { undo: Vec::new(), redo: Vec::new() }
    }

    /// Forget all commands (on a switch to another shape).
    pub fn clear(&mut self)
        ensures
            final(self).undo_stack().len() == 0,
            final(self).redo_stack().len() == 0,
    {
        self.undo = Vec::new();
        self.redo = Vec::new();
    }

    /// Delete the node at `path` from `parts`. On success the command
    /// goes on the undo stack and the redo stack is cleared; on failure
    /// nothing changes.
    pub fn delete(&mut self, parts: &mut Vec<SpecNode>, path: &str) -> (r: bool)
        ensures
            ({
                let segs = split_on(path@, '/');
                &&& r == (path@.len() > 0 && removable(old(parts)@, segs))
                &&& r ==> {
                    &&& final(self).undo_stack().len() == old(self).undo_stack().len() + 1
                    &&& final(self).undo_stack().drop_last() == old(self).undo_stack()
                    &&& final(self).undo_stack().last().op().path_of()@ == path@
                    &&& final(self).redo_stack().len() == 0
                    &&& match final(self).undo_stack().last().op().captured() {
                        Some((parent, idx, node)) => {
                            &&& removed(old(parts)@, final(parts)@, segs, idx as int, node)
                            &&& parent@ == join_on(segs.take(segs.len() - 1), '/')
                        },
                        None => false,
                    }
                }
                &&& !r ==> final(parts)@ == old(parts)@ && final(self).undo_stack() == old(self).undo_stack()
                    && final(self).redo_stack() == old(self).redo_stack()
            }),
    {
        let mut cmd = EditCommand::Delete(DeleteOp::new(to_owned_string(path)));
        if !cmd.apply(parts) {
            return false;
        }
        self.undo.push(cmd);
        self.redo = Vec::new();
        proof {
            assert(self.undo@.drop_last() =~= old(self).undo@);
        }
        true
    }

    /// Undo the most recent command: on success it moves to the redo
    /// stack. A command whose undo fails is dropped. False when there is
    /// nothing to undo or the undo failed.
    pub fn undo(&mut self, parts: &mut Vec<SpecNode>) -> (r: bool)
        ensures
            old(self).undo_stack().len() == 0 ==> !r && final(parts)@ == old(parts)@ && final(self).undo_stack()
                == old(self).undo_stack() && final(self).redo_stack() == old(self).redo_stack(),
            old(self).undo_stack().len() > 0 ==> {
                let cmd = old(self).undo_stack().last();
                &&& final(self).undo_stack() == old(self).undo_stack().drop_last()
                &&& r ==> final(self).redo_stack() == old(self).redo_stack().push(cmd)
                &&& !r ==> final(self).redo_stack() == old(self).redo_stack() && final(parts)@ == old(parts)@
                &&& match cmd.op().captured() {
                    Some((parent, idx, node)) => {
                        let segs = path_segments(parent@);
                        &&& r == insertable(old(parts)@, segs)
                        &&& r ==> exists|copy: SpecNode|
                            deep_eq(copy, node) && inserted(old(parts)@, final(parts)@, segs, idx as int, copy)
                    },
                    None => !r,
                }
            },
    {
        match self.undo.pop() {
            None => false,
            Some(cmd) => {
                if !cmd.invert(parts) {
                    return false;
                }
                self.redo.push(cmd);
                true
            },
        }
    }

    /// Redo the most recently undone command: on success it moves back to
    /// the undo stack. A command whose apply fails is dropped.
    pub fn redo(&mut self, parts: &mut Vec<SpecNode>) -> (r: bool)
        ensures
            old(self).redo_stack().len() == 0 ==> !r && final(parts)@ == old(parts)@ && final(self).undo_stack()
                == old(self).undo_stack() && final(self).redo_stack() == old(self).redo_stack(),
            old(self).redo_stack().len() > 0 ==> {
                let cmd = old(self).redo_stack().last();
                let segs = split_on(cmd.op().path_of()@, '/');
                &&& final(self).redo_stack() == old(self).redo_stack().drop_last()
                &&& r == (cmd.op().path_of()@.len() > 0 && removable(old(parts)@, segs))
                &&& r ==> {
                    &&& final(self).undo_stack().len() == old(self).undo_stack().len() + 1
                    &&& final(self).undo_stack().drop_last() == old(self).undo_stack()
                    &&& final(self).undo_stack().last().op().path_of() == cmd.op().path_of()
                    &&& match final(self).undo_stack().last().op().captured() {
                        Some((parent, idx, node)) => {
                            &&& removed(old(parts)@, final(parts)@, segs, idx as int, node)
                            &&& parent@ == join_on(segs.take(segs.len() - 1), '/')
                        },
                        None => false,
                    }
                }
                &&& !r ==> final(self).undo_stack() == old(self).undo_stack() && final(parts)@ == old(parts)@
            },
    {
        match self.redo.pop() {
            None => false,
            Some(cmd) => {
                let mut cmd = cmd;
                if !cmd.apply(parts) {
                    return false;
                }
                self.undo.push(cmd);
                proof {
                    assert(self.undo@.drop_last() =~= old(self).undo@);
                }
                true
            },
        }
    }
}

// =====================================================================
// The working copy
// =====================================================================

/// The editor's working copy of the active shape: its parts, the file it
/// came from, and whether it holds edits not yet written back. (When the
/// last edit happened, for the write-back's quiet period, is kept by the
/// caller's clock.)
pub struct WorkingShape {
    pub parts: Vec<SpecNode>,
    pub path: Option<String>,
    pub dirty: bool,
}

/// The characters of an optional path.
pub open spec fn opt_chars(p: Option<String>) -> Option<Seq<char>> {
    match p {
        Some(s) => Some(s@),
        None => None,
    }
}

/// The characters of an optional borrowed path.
pub open spec fn opt_str_chars(p: Option<&str>) -> Option<Seq<char>> {
    match p {
        Some(s) => Some(s@),
        None => None,
    }
}

/// The parts a switch to `path` loads: those of the first shape loaded
/// from that file, and none when there is no such shape or no path.
pub open spec fn switched_parts(registry: AssetRegistry, path: Option<Seq<char>>, parts: Seq<SpecNode>) -> bool {
    match path {
        Some(p) => {
            let i = first_match(paths_of(registry.entries()), equals(p));
            if i >= 0 {
                deep_eq_seq(parts, registry.entries()[i].parts@)
            } else {
                parts.len() == 0
            }
        },
        None => parts.len() == 0,
    }
}

impl WorkingShape {
    /// No shape, nothing edited.
    pub fn new() -> (r: WorkingShape)
        ensures
            r.parts@.len() == 0,
            r.path is None,
            !r.dirty,
    {
        WorkingShape { parts: Vec::new(), path: None, dirty: false }
    }
}

fn copy_parts(parts: &[SpecNode]) -> (r: Vec<SpecNode>)
    ensures
        deep_eq_seq(r@, parts@),
{
    let mut r: Vec<SpecNode> = Vec::new();
    let mut i: usize = 0;
    while i < parts.len()
        invariant
            i <= parts@.len(),
            r@.len() == i,
            forall|j: int| 0 <= j < i ==> deep_eq(#[trigger] r@[j], parts@[j]),
        decreases parts@.len() - i,
    {
        r.push(parts[i].clone());
        i = i + 1;
    }
    r
}

fn copy_path(p: Option<&str>) -> (r: Option<String>)
    ensures
        opt_chars(r) == opt_str_chars(p),
{
    match p {
        Some(s) => Some(to_owned_string(s)),
        None => None,
    }
}

fn same_path(a: &Option<String>, b: Option<&str>) -> (r: bool)
    ensures
        r == (opt_chars(*a) == opt_str_chars(b)),
{
    match (a, b) {
        (Some(x), Some(y)) => str_eq(x.as_str(), y),
        (None, None) => true,
        _ => false,
    }
}

/// Follow a switch of the active shape to the file `current`: when it
/// differs from the working copy's, the working copy takes a copy of the
/// parts of the shape loaded from that file (none if there is none), is
/// marked clean, and the edit history is cleared. Returns whether the
/// shape switched; nothing changes when it did not.
pub fn reset_working_on_shape_switch(
    current: Option<&str>,
    working: &mut WorkingShape,
    history: &mut CommandHistory,
    registry: &AssetRegistry,
) -> (switched: bool)
    ensures
        switched == (opt_chars(old(working).path) != opt_str_chars(current)),
        !switched ==> {
            &&& final(working).parts@ == old(working).parts@
            &&& final(working).path == old(working).path
            &&& final(working).dirty == old(working).dirty
            &&& final(history).undo_stack() == old(history).undo_stack()
            &&& final(history).redo_stack() == old(history).redo_stack()
        },
        switched ==> {
            &&& opt_chars(final(working).path) == opt_str_chars(current)
            &&& !final(working).dirty
            &&& switched_parts(*registry, opt_str_chars(current), final(working).parts@)
            &&& final(history).undo_stack().len() == 0
            &&& final(history).redo_stack().len() == 0
        },
{
    if same_path(&working.path, current) {
        return false;
    }
    working.parts = Vec::new();
    working.path = copy_path(current);
    working.dirty = false;
    history.clear();
    if let Some(p) = current {
        if let Some(parts) = registry.get_shape_by_path(p) {
            working.parts = copy_parts(parts);
        }
    }
    true
}

} // verus!
