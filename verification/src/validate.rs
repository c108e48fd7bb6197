//! Naming checks on a shape tree.
//!
//! Among siblings, effective names must be unique, and a node may not
//! carry both a name and an import. At the top level every part with
//! geometry should be named. The checks report issues; they reject
//! nothing.

use vstd::prelude::*;
use crate::spec::{effective_name_spec, SpecNode};
use crate::text::{str_eq, to_owned_string};

verus! {

/// One naming issue. `path` is the path of the parent node; `None` for
/// the top-level parts.
#[derive(Debug)]
pub enum PartIssue {
    /// A node has both a name and an import.
    NameAndImport { path: Option<String>, name: String, import: String },
    /// A node repeats the effective name of an earlier sibling.
    DuplicateName { path: Option<String>, name: String },
    /// A top-level part with geometry has no name.
    Unnamed,
}

/// The abstract value of an issue.
pub enum IssueView {
    NameAndImport { path: Option<Seq<char>>, name: Seq<char>, import: Seq<char> },
    DuplicateName { path: Option<Seq<char>>, name: Seq<char> },
    Unnamed,
}

pub open spec fn opt_view(s: Option<String>) -> Option<Seq<char>> {
    match s {
        Some(x) => Some(x@),
        None => None,
    }
}

impl View for PartIssue {
    type V = IssueView;

    open spec fn view(&self) -> IssueView {
        match self {
            PartIssue::NameAndImport { path, name, import } => IssueView::NameAndImport {
                path: opt_view(*path),
                name: name@,
                import: import@,
            },
            PartIssue::DuplicateName { path, name } => IssueView::DuplicateName { path: opt_view(*path), name: name@ },
            PartIssue::Unnamed => IssueView::Unnamed,
        }
    }
}

pub open spec fn issues_view(v: Seq<PartIssue>) -> Seq<IssueView> {
    v.map_values(|i: PartIssue| i@)
}

/// A sibling before index `i` has effective name `name`.
pub open spec fn earlier_has(nodes: Seq<SpecNode>, i: int, name: Seq<char>) -> bool {
    exists|j: int| 0 <= j < i && #[trigger] effective_name_spec(nodes[j]) == Some(name)
}

/// The issues a single sibling raises among `nodes`: name together with
/// import, then a repeated effective name, or (top level only) a missing
/// name on a part with geometry.
pub open spec fn sibling_issues(nodes: Seq<SpecNode>, path: Option<Seq<char>>, i: int) -> Seq<IssueView> {
    let node = nodes[i];
    let both = if node.name is Some && node.import is Some {
        seq![IssueView::NameAndImport { path, name: node.name->0@, import: node.import->0@ }]
    } else {
        seq![]
    };
    let naming = match effective_name_spec(node) {
        Some(nm) => if earlier_has(nodes, i, nm) {
            seq![IssueView::DuplicateName { path, name: nm }]
        } else {
            seq![]
        },
        None => if path is None && node.bounds is Some {
            seq![IssueView::Unnamed]
        } else {
            seq![]
        },
    };
    both + naming
}

/// The issues of the first `n` siblings, in order.
pub open spec fn level_issues(nodes: Seq<SpecNode>, path: Option<Seq<char>>, n: int) -> Seq<IssueView>
    decreases n,
{
    if n <= 0 {
        seq![]
    } else {
        level_issues(nodes, path, n - 1) + sibling_issues(nodes, path, n - 1)
    }
}

/// The effective name of a node, empty when it has none.
pub open spec fn name_or_empty(node: SpecNode) -> Seq<char> {
    match effective_name_spec(node) {
        Some(n) => n,
        None => seq![],
    }
}

/// The path of a child under `path`: the child's name alone at the root,
/// the parent's path for an unnamed child, both joined by `/` otherwise.
pub open spec fn child_path(path: Seq<char>, child: SpecNode) -> Seq<char> {
    let cn = name_or_empty(child);
    if path.len() == 0 {
        cn
    } else if cn.len() == 0 {
        path
    } else {
        path + seq!['/'] + cn
    }
}

/// The issues below a node at `path`: those among its children, then
/// those below each child in order.
pub open spec fn node_issues(node: SpecNode, path: Seq<char>) -> Seq<IssueView>
    decreases node, 1int, 0int,
{
    level_issues(node.children@, Some(path), node.children@.len() as int) + children_issues(
        node,
        path,
        node.children@.len() as int,
    )
}

pub open spec fn children_issues(node: SpecNode, path: Seq<char>, n: int) -> Seq<IssueView>
    decreases node, 0int, n,
{
    if n <= 0 || n > node.children@.len() {
        seq![]
    } else {
        children_issues(node, path, n - 1) + node_issues(node.children@[n - 1], child_path(path, node.children@[n - 1]))
    }
}

pub open spec fn subtree_issues(parts: Seq<SpecNode>, n: int) -> Seq<IssueView>
    decreases n,
{
    if n <= 0 || n > parts.len() {
        seq![]
    } else {
        subtree_issues(parts, n - 1) + node_issues(parts[n - 1], name_or_empty(parts[n - 1]))
    }
}

/// The issues of a parts list: those among the top-level parts, then
/// those below each part in order.
pub open spec fn parts_issues(parts: Seq<SpecNode>) -> Seq<IssueView> {
    level_issues(parts, None, parts.len() as int) + subtree_issues(parts, parts.len() as int)
}

fn opt_string(path: Option<&str>) -> (r: Option<String>)
    ensures
        opt_view(r) == match path {
            Some(p) => Some(p@),
            None => None::<Seq<char>>,
        },
{
    match path {
        Some(p) => Some(to_owned_string(p)),
        None => None,
    }
}

fn opt_seq(path: Option<&str>) -> (r: Ghost<Option<Seq<char>>>)
    ensures
        r@ == match path {
            Some(p) => Some(p@),
            None => None::<Seq<char>>,
        },
{
    Ghost(
        match path {
            Some(p) => Some(p@),
            None => None,
        },
    )
}

/// Does a sibling before index `i` have effective name `name`?
fn earlier_has_exec(nodes: &[SpecNode], i: usize, name: &str) -> (r: bool)
    requires
        i <= nodes@.len(),
    ensures
        r == earlier_has(nodes@, i as int, name@),
{
    let mut j: usize = 0;
    while j < i
        invariant
            j <= i <= nodes@.len(),
            forall|m: int| 0 <= m < j ==> #[trigger] effective_name_spec(nodes@[m]) != Some(name@),
        decreases i - j,
    {
        if let Some(e) = nodes[j].effective_name() {
            if str_eq(e, name) {
                return true;
            }
        }
        j = j + 1;
    }
    false
}

/// Append the issues among the siblings `nodes` at `path`.
fn check_level(nodes: &[SpecNode], path: Option<&str>, out: &mut Vec<PartIssue>)
    ensures
        issues_view(final(out)@) == issues_view(old(out)@) + level_issues(
            nodes@,
            match path {
                Some(p) => Some(p@),
                None => None::<Seq<char>>,
            },
            nodes@.len() as int,
        ),
{
    let pv = opt_seq(path);
    let ghost out0 = issues_view(out@);
    let mut i: usize = 0;
    while i < nodes.len()
        invariant
            i <= nodes@.len(),
            pv@ == match path {
                Some(p) => Some(p@),
                None => None::<Seq<char>>,
            },
            issues_view(out@) == out0 + level_issues(nodes@, pv@, i as int),
        decreases nodes@.len() - i,
    {
        let ghost before = issues_view(out@);
        let node = &nodes[i];
        let ghost start = out@.len();
        if let (Some(name), Some(import)) = (&node.name, &node.import) {
            out.push(
                PartIssue::NameAndImport {
                    path: opt_string(path),
                    name: to_owned_string(name.as_str()),
                    import: to_owned_string(import.as_str()),
                },
            );
        }
        let ghost mid = out@.len();
        match node.effective_name() {
            Some(nm) => {
                if earlier_has_exec(nodes, i, nm) {
                    out.push(PartIssue::DuplicateName { path: opt_string(path), name: to_owned_string(nm) });
                }
            },
            None => {
                if path.is_none() && node.bounds.is_some() {
                    out.push(PartIssue::Unnamed);
                }
            },
        }
        assert(issues_view(out@) =~= before + sibling_issues(nodes@, pv@, i as int));
        assert(level_issues(nodes@, pv@, i + 1) == level_issues(nodes@, pv@, i as int) + sibling_issues(
            nodes@,
            pv@,
            i as int,
        ));
        assert(issues_view(out@) =~= out0 + level_issues(nodes@, pv@, i + 1));
        i = i + 1;
    }
}

/// The path of `child` under `path`.
fn child_path_exec(path: &str, child: &SpecNode) -> (r: String)
    ensures
        r@ == child_path(path@, *child),
{
    let cn: &str = match child.effective_name() {
        Some(n) => n,
        None => "",
    };
    proof {
        reveal_strlit("");
    }
    if path.unicode_len() == 0 {
        to_owned_string(cn)
    } else if cn.unicode_len() == 0 {
        to_owned_string(path)
    } else {
        let mut s = to_owned_string(path);
        s.append("/");
        s.append(cn);
        proof {
            reveal_strlit("/");
        }
        assert(s@ =~= path@ + seq!['/'] + cn@);
        s
    }
}

/// Append the issues below a node at `path`.
fn check_node(node: &SpecNode, path: &str, out: &mut Vec<PartIssue>)
    ensures
        issues_view(final(out)@) == issues_view(old(out)@) + node_issues(*node, path@),
    decreases *node,
{
    let ghost out0 = issues_view(out@);
    check_level(node.children.as_slice(), Some(path), out);
    let ghost after_level = issues_view(out@);
    let mut i: usize = 0;
    while i < node.children.len()
        invariant
            i <= node.children@.len(),
            issues_view(out@) == after_level + children_issues(*node, path@, i as int),
        decreases node.children@.len() - i,
    {
        let ghost before = issues_view(out@);
        let child = &node.children[i];
        let cp = child_path_exec(path, child);
        check_node(child, cp.as_str(), out);
        assert(issues_view(out@) =~= after_level + children_issues(*node, path@, i + 1));
        i = i + 1;
    }
    assert(issues_view(out@) =~= out0 + node_issues(*node, path@));
}

/// Check the naming of a parts list: among the top-level parts and among
/// the children of every node, effective names must be unique and a name
/// may not come with an import; top-level parts with geometry should be
/// named. Issues come level by level: those among the parts first, then
/// those below each part in order.
pub fn validate_parts(parts: &[SpecNode]) -> (r: Vec<PartIssue>)
    ensures
        issues_view(r@) == parts_issues(parts@),
{
    let mut out: Vec<PartIssue> = Vec::new();
    assert(issues_view(out@) =~= Seq::<IssueView>::empty());
    check_level(parts, None, &mut out);
    let ghost after_level = issues_view(out@);
    let mut i: usize = 0;
    while i < parts.len()
        invariant
            i <= parts@.len(),
            issues_view(out@) == after_level + subtree_issues(parts@, i as int),
        decreases parts@.len() - i,
    {
        let part = &parts[i];
        let name: &str = match part.effective_name() {
            Some(n) => n,
            None => "",
        };
        proof {
            reveal_strlit("");
        }
        assert(name@ == name_or_empty(*part));
        check_node(part, name, &mut out);
        assert(issues_view(out@) =~= after_level + subtree_issues(parts@, i + 1));
        i = i + 1;
    }
    assert(issues_view(out@) =~= parts_issues(parts@));
    out
}

} // verus!
