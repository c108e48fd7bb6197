//! Reading the command line: which shape to open and which tool to run.
//!
//! The argument lists here are whole, the program name first.

use vstd::prelude::*;
use crate::text::{ends_with_spec, str_ends_with, str_eq, to_owned_string};

verus! {

/// The editor to open: none yet, or the object editor on a shape file.
#[derive(Debug)]
pub enum ActiveEditor {
    Empty,
    Object { path: String },
}

impl Default for ActiveEditor {
    fn default() -> (r: ActiveEditor)
        ensures
            r is Empty,
    {
        ActiveEditor::Empty
    }
}

/// The argument is an option (it starts with `-`).
pub open spec fn is_flag(a: Seq<char>) -> bool {
    a.len() > 0 && a[0] == '-'
}

/// The argument names a RON file to open.
pub open spec fn names_ron(a: Seq<char>) -> bool {
    !is_flag(a) && ends_with_spec(a, seq!['.', 'r', 'o', 'n'])
}

/// Matches arguments that are no option.
pub open spec fn no_flag() -> spec_fn(Seq<char>) -> bool {
    |a: Seq<char>| !is_flag(a)
}

/// Matches arguments naming a RON file.
pub open spec fn ron_file() -> spec_fn(Seq<char>) -> bool {
    |a: Seq<char>| names_ron(a)
}

/// The characters of a list of arguments.
pub open spec fn arg_views(args: Seq<String>) -> Seq<Seq<char>> {
    args.map_values(|a: String| a@)
}

/// Index of the first argument at or after `from` (and before `n`) that
/// satisfies `f`, or -1.
pub open spec fn first_from(args: Seq<Seq<char>>, f: spec_fn(Seq<char>) -> bool, from: int, n: int) -> int
    decreases n - from,
{
    if from >= n || from >= args.len() || from < 0 {
        -1
    } else if f(args[from]) {
        from
    } else {
        first_from(args, f, from + 1, n)
    }
}

/// The shape the first argument naming a RON file asks for.
pub open spec fn initial_shape_spec(args: Seq<Seq<char>>) -> Option<Seq<char>> {
    let i = first_from(args, ron_file(), 1, args.len() as int);
    if i >= 0 {
        Some(args[i])
    } else {
        None
    }
}

/// The file the object editor opens when none is named.
pub open spec fn default_object() -> Seq<char> {
    "data/shapes/scout_bot.shape.ron"@
}

/// What the command line asks to open: with the subcommand `object`, the
/// first following argument that is no option (a default file without
/// one); with a first argument naming a RON file, that file; else
/// nothing.
pub open spec fn cli_target(args: Seq<Seq<char>>) -> Option<Seq<char>> {
    if args.len() >= 2 && args[1] == "object"@ {
        let i = first_from(args, no_flag(), 2, args.len() as int);
        Some(
            if i >= 0 {
                args[i]
            } else {
                default_object()
            },
        )
    } else if args.len() >= 2 && names_ron(args[1]) {
        Some(args[1])
    } else {
        None
    }
}

fn is_flag_exec(a: &str) -> (r: bool)
    ensures
        r == is_flag(a@),
{
    a.unicode_len() > 0 && a.get_char(0) == '-'
}

fn names_ron_exec(a: &str) -> (r: bool)
    ensures
        r == names_ron(a@),
{
    proof {
        reveal_strlit(".ron");
        assert(".ron"@ =~= seq!['.', 'r', 'o', 'n']);
    }
    !is_flag_exec(a) && str_ends_with(a, ".ron")
}

/// The first argument after the program name that names a RON file.
pub fn resolve_initial_shape(args: &[String]) -> (r: Option<String>)
    ensures
        match r {
            Some(p) => initial_shape_spec(arg_views(args@)) == Some(p@),
            None => initial_shape_spec(arg_views(args@)) is None,
        },
{
    let ghost av = arg_views(args@);
    let ghost f = ron_file();
    let mut i: usize = 1;
    while i < args.len()
        invariant
            1 <= i,
            av == arg_views(args@),
            f == ron_file(),
            first_from(av, f, 1, av.len() as int) == first_from(av, f, i as int, av.len() as int),
        decreases args@.len() - i,
    {
        if names_ron_exec(args[i].as_str()) {
            assert(av[i as int] == args@[i as int]@);
            assert(f(av[i as int]));
            return Some(to_owned_string(args[i].as_str()));
        }
        i = i + 1;
    }
    None
}

/// The editor the command line asks for (see `cli_target`).
pub fn resolve_from_cli(args: &[String]) -> (r: Option<ActiveEditor>)
    ensures
        match r {
            Some(ActiveEditor::Object { path }) => cli_target(arg_views(args@)) == Some(path@),
            Some(ActiveEditor::Empty) => false,
            None => cli_target(arg_views(args@)) is None,
        },
{
    let ghost av = arg_views(args@);
    if args.len() < 2 {
        return None;
    }
    if str_eq(args[1].as_str(), "object") {
        let ghost f = no_flag();
        assert(av[1] == args@[1]@);
        let mut i: usize = 2;
        while i < args.len()
            invariant
                2 <= i,
                av == arg_views(args@),
                f == no_flag(),
                av.len() >= 2,
                av[1] == "object"@,
                first_from(av, f, 2, av.len() as int) == first_from(av, f, i as int, av.len() as int),
            decreases args@.len() - i,
        {
            if !is_flag_exec(args[i].as_str()) {
                assert(av[i as int] == args@[i as int]@ && av[1] == args@[1]@);
                assert(f(av[i as int]));
                return Some(ActiveEditor::Object { path: to_owned_string(args[i].as_str()) });
            }
            i = i + 1;
        }
        return Some(ActiveEditor::Object { path: to_owned_string("data/shapes/scout_bot.shape.ron") });
    }
    if names_ron_exec(args[1].as_str()) {
        return Some(ActiveEditor::Object { path: to_owned_string(args[1].as_str()) });
    }
    None
}

/// The command line asks for the stress test.
pub fn is_stress_test(args: &[String]) -> (r: bool)
    ensures
        r == exists|i: int| 0 <= i < args@.len() && (#[trigger] args@[i])@ == "--stress-test"@,
{
    let mut i: usize = 0;
    while i < args.len()
        invariant
            i <= args@.len(),
            forall|j: int| 0 <= j < i ==> (#[trigger] args@[j])@ != "--stress-test"@,
        decreases args@.len() - i,
    {
        if str_eq(args[i].as_str(), "--stress-test") {
            return true;
        }
        i = i + 1;
    }
    false
}

} // verus!
