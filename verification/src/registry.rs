//! The in-memory store of loaded shapes, of the surfaces' names and files,
//! and of load errors.
//!
//! Shapes are keyed by their path relative to the shapes directory
//! (`"robots/arm.shape.ron"`). An import names a shape either by its key,
//! by its key without the `.shape.ron` extension, or by the last segments
//! of its key.

use vstd::prelude::*;
use crate::spec::SpecNode;
use crate::text::{ends_with_spec, lemma_lex_order, lex_lt, str_ends_with, str_eq, str_lt, to_owned_string};

verus! {

/// One loaded shape file.
#[derive(Debug)]
pub struct ShapeEntry {
    pub key: String,
    pub path: String,
    pub parts: Vec<SpecNode>,
}

/// A file that failed to load, with the reason.
#[derive(Debug)]
pub struct AssetError {
    pub path: String,
    pub message: String,
}

/// One loaded surface file: the surface's name and the file it came from.
/// (The surface definition itself, in floating point, is kept by the
/// caller under the same name.)
#[derive(Debug)]
pub struct SurfaceEntry {
    pub name: String,
    pub path: String,
}

/// The loaded shapes and surfaces, a generation counter for each bumped
/// on every change, and the current load errors (at most one per path).
pub struct AssetRegistry {
    shapes: Vec<ShapeEntry>,
    surfaces: Vec<SurfaceEntry>,
    shape_generation: u64,
    surface_generation: u64,
    errors: Vec<AssetError>,
}

/// The names of a list of surfaces.
pub open spec fn names_of(surfaces: Seq<SurfaceEntry>) -> Seq<Seq<char>> {
    surfaces.map_values(|e: SurfaceEntry| e.name@)
}

/// The files of a list of surfaces.
pub open spec fn surface_paths_of(surfaces: Seq<SurfaceEntry>) -> Seq<Seq<char>> {
    surfaces.map_values(|e: SurfaceEntry| e.path@)
}

/// The keys of a list of entries.
pub open spec fn keys_of(entries: Seq<ShapeEntry>) -> Seq<Seq<char>> {
    entries.map_values(|e: ShapeEntry| e.key@)
}

/// The file extension of shape files.
pub open spec fn shape_ext() -> Seq<char> {
    seq!['.', 's', 'h', 'a', 'p', 'e', '.', 'r', 'o', 'n']
}

/// A key names the shape `name` by its last path segments.
pub open spec fn suffix_match(key: Seq<char>, name: Seq<char>) -> bool {
    ends_with_spec(key, seq!['/'] + name + shape_ext()) || ends_with_spec(
        key,
        seq!['\\'] + name + shape_ext(),
    ) || key == name + shape_ext()
}

/// Matches keys equal to `name`.
pub open spec fn equals(name: Seq<char>) -> spec_fn(Seq<char>) -> bool {
    |k: Seq<char>| k == name
}

/// Matches keys that name `name` by their last path segments.
pub open spec fn suffix_matches(name: Seq<char>) -> spec_fn(Seq<char>) -> bool {
    |k: Seq<char>| suffix_match(k, name)
}

/// The source paths of a list of entries.
pub open spec fn paths_of(entries: Seq<ShapeEntry>) -> Seq<Seq<char>> {
    entries.map_values(|e: ShapeEntry| e.path@)
}

/// Index of the first key satisfying `f`, or -1.
pub open spec fn first_match(keys: Seq<Seq<char>>, f: spec_fn(Seq<char>) -> bool) -> int
    decreases keys.len(),
{
    if keys.len() == 0 {
        -1
    } else if f(keys[0]) {
        0
    } else {
        let r = first_match(keys.drop_first(), f);
        if r < 0 {
            -1
        } else {
            r + 1
        }
    }
}

/// Which entry an import of `name` resolves to (-1 for none): an exact
/// key, else the key with the shape extension added, else the first key
/// that ends with `/name.shape.ron` or `\name.shape.ron`.
pub open spec fn resolve_index(keys: Seq<Seq<char>>, name: Seq<char>) -> int {
    let exact = first_match(keys, equals(name));
    let ext = first_match(keys, equals(name + shape_ext()));
    if exact >= 0 {
        exact
    } else if ext >= 0 {
        ext
    } else {
        first_match(keys, suffix_matches(name))
    }
}

pub proof fn lemma_first_match(keys: Seq<Seq<char>>, f: spec_fn(Seq<char>) -> bool)
    ensures
        -1 <= first_match(keys, f) < keys.len(),
        first_match(keys, f) >= 0 ==> f(keys[first_match(keys, f)]),
        first_match(keys, f) >= 0 ==> forall|j: int| 0 <= j < first_match(keys, f) ==> !f(keys[j]),
        first_match(keys, f) < 0 ==> forall|j: int| 0 <= j < keys.len() ==> !f(keys[j]),
    decreases keys.len(),
{
    if keys.len() > 0 && !f(keys[0]) {
        lemma_first_match(keys.drop_first(), f);
        assert forall|j: int| 1 <= j < keys.len() implies keys[j] == keys.drop_first()[j - 1] by {}
    }
}

pub proof fn lemma_first_match_at(keys: Seq<Seq<char>>, f: spec_fn(Seq<char>) -> bool, i: int)
    requires
        0 <= i < keys.len(),
        f(keys[i]),
        forall|j: int| 0 <= j < i ==> !f(keys[j]),
    ensures
        first_match(keys, f) == i,
{
    lemma_first_match(keys, f);
}

pub proof fn lemma_resolve_index(keys: Seq<Seq<char>>, name: Seq<char>)
    ensures
        -1 <= resolve_index(keys, name) < keys.len(),
{
    lemma_first_match(keys, equals(name));
    lemma_first_match(keys, equals(name + shape_ext()));
    lemma_first_match(keys, suffix_matches(name));
}

/// Reading back a stored shape: once `insert_shape` has stored entry `e`
/// (in place of the entry with the same key, or appended), an import of
/// `e`'s key resolves to that very entry.
pub proof fn lemma_insert_then_resolve(entries: Seq<ShapeEntry>, e: ShapeEntry)
    ensures
        ({
            let i = first_match(keys_of(entries), equals(e.key@));
            let after = if i >= 0 {
                entries.update(i, e)
            } else {
                entries.push(e)
            };
            let j = resolve_index(keys_of(after), e.key@);
            &&& 0 <= j < after.len()
            &&& after[j] == e
        }),
{
    let keys = keys_of(entries);
    let f = equals(e.key@);
    lemma_first_match(keys, f);
    let i = first_match(keys, f);
    let after = if i >= 0 {
        entries.update(i, e)
    } else {
        entries.push(e)
    };
    let ka = keys_of(after);
    if i >= 0 {
        assert(ka =~= keys.update(i, e.key@));
        assert forall|j: int| 0 <= j < i implies !f(ka[j]) by {
            assert(ka[j] == keys[j]);
        }
        lemma_first_match_at(ka, f, i);
    } else {
        assert(ka =~= keys.push(e.key@));
        assert forall|j: int| 0 <= j < keys.len() implies !f(ka[j]) by {
            assert(ka[j] == keys[j]);
        }
        lemma_first_match_at(ka, f, keys.len() as int);
    }
}

/// Reading back a stored surface: once `upsert_surface` has stored entry
/// `e` (in place of the surface of the same name, or appended), looking up
/// `e`'s name finds that very entry.
pub proof fn lemma_upsert_then_lookup(surfaces: Seq<SurfaceEntry>, e: SurfaceEntry)
    ensures
        ({
            let i = first_match(names_of(surfaces), equals(e.name@));
            let after = if i >= 0 {
                surfaces.update(i, e)
            } else {
                surfaces.push(e)
            };
            let j = first_match(names_of(after), equals(e.name@));
            &&& 0 <= j < after.len()
            &&& after[j] == e
        }),
{
    let names = names_of(surfaces);
    let f = equals(e.name@);
    lemma_first_match(names, f);
    let i = first_match(names, f);
    let after = if i >= 0 {
        surfaces.update(i, e)
    } else {
        surfaces.push(e)
    };
    let na = names_of(after);
    if i >= 0 {
        assert(na =~= names.update(i, e.name@));
        assert forall|j: int| 0 <= j < i implies !f(na[j]) by {
            assert(na[j] == names[j]);
        }
        lemma_first_match_at(na, f, i);
    } else {
        assert(na =~= names.push(e.name@));
        assert forall|j: int| 0 <= j < names.len() implies !f(na[j]) by {
            assert(na[j] == names[j]);
        }
        lemma_first_match_at(na, f, names.len() as int);
    }
}

impl AssetRegistry {
    #[verifier::type_invariant]
    spec fn keys_unique(&self) -> bool {
        &&& keys_of(self.shapes@).no_duplicates()
        &&& names_of(self.surfaces@).no_duplicates()
    }

    /// The loaded shape entries, in load order.
    pub closed spec fn entries(&self) -> Seq<ShapeEntry> {
        self.shapes@
    }

    pub closed spec fn error_list(&self) -> Seq<AssetError> {
        self.errors@
    }

    pub closed spec fn generation(&self) -> u64 {
        self.shape_generation
    }

    /// The loaded surfaces, in load order.
    pub closed spec fn surface_list(&self) -> Seq<SurfaceEntry> {
        self.surfaces@
    }

    pub closed spec fn surface_gen(&self) -> u64 {
        self.surface_generation
    }

    /// An empty registry.
    pub fn new() -> (r: AssetRegistry)
        ensures
            r.entries().len() == 0,
            r.error_list().len() == 0,
            r.generation() == 0,
            r.surface_list().len() == 0,
            r.surface_gen() == 0,
    {
        AssetRegistry {
            shapes: Vec::new(),
            surfaces: Vec::new(),
            shape_generation: 0,
            surface_generation: 0,
            errors: Vec::new(),
        }
    }

    /// Index of the first entry whose key satisfies the exact-key test.
    fn find_exact(&self, name: &str) -> (r: Option<usize>)
        ensures
            ({
                let i = first_match(keys_of(self.entries()), equals(name@));
                match r {
                    Some(j) => i == j,
                    None => i == -1,
                }
            }),
    {
        let ghost keys = keys_of(self.shapes@);
        let ghost f = equals(name@);
        proof {
            lemma_first_match(keys, f);
        }
        let mut i: usize = 0;
        while i < self.shapes.len()
            invariant
                i <= self.shapes@.len(),
                keys == keys_of(self.shapes@),
                f == equals(name@),
                forall|j: int| 0 <= j < i ==> !f(keys[j]),
            decreases self.shapes@.len() - i,
        {
            if str_eq(self.shapes[i].key.as_str(), name) {
                proof {
                    lemma_first_match_at(keys, f, i as int);
                }
                return Some(i);
            }
            i = i + 1;
        }
        proof {
            lemma_first_match(keys, f);
        }
        None
    }

    fn find_suffix(&self, name: &str, with_ext: &str, slash: &str, backslash: &str) -> (r: Option<usize>)
        requires
            with_ext@ == name@ + shape_ext(),
            slash@ == seq!['/'] + name@ + shape_ext(),
            backslash@ == seq!['\\'] + name@ + shape_ext(),
        ensures
            ({
                let i = first_match(keys_of(self.entries()), suffix_matches(name@));
                match r {
                    Some(j) => i == j,
                    None => i == -1,
                }
            }),
    {
        let ghost keys = keys_of(self.shapes@);
        let ghost f = suffix_matches(name@);
        proof {
            lemma_first_match(keys, f);
        }
        let mut i: usize = 0;
        while i < self.shapes.len()
            invariant
                i <= self.shapes@.len(),
                keys == keys_of(self.shapes@),
                f == suffix_matches(name@),
                with_ext@ == name@ + shape_ext(),
                slash@ == seq!['/'] + name@ + shape_ext(),
                backslash@ == seq!['\\'] + name@ + shape_ext(),
                forall|j: int| 0 <= j < i ==> !f(keys[j]),
            decreases self.shapes@.len() - i,
        {
            let key = self.shapes[i].key.as_str();
            if str_ends_with(key, slash) || str_ends_with(key, backslash) || str_eq(key, with_ext) {
                proof {
                    lemma_first_match(keys, f);
                    assert(f(keys[i as int]));
                }
                return Some(i);
            }
            assert(!f(keys[i as int]));
            i = i + 1;
        }
        proof {
            lemma_first_match(keys, f);
        }
        None
    }

    /// Index of the entry an import of `name` resolves to.
    pub fn resolve(&self, name: &str) -> (r: Option<usize>)
        ensures
            ({
                let i = resolve_index(keys_of(self.entries()), name@);
                match r {
                    Some(j) => i == j && j < self.entries().len(),
                    None => i == -1,
                }
            }),
    {
        proof {
            lemma_resolve_index(keys_of(self.shapes@), name@);
        }
        if let Some(i) = self.find_exact(name) {
            return Some(i);
        }
        let mut with_ext = to_owned_string(name);
        proof {
            reveal_strlit(".shape.ron");
            reveal_strlit("/");
            reveal_strlit("\\");
        }
        with_ext.append(".shape.ron");
        assert(with_ext@ =~= name@ + shape_ext());
        if let Some(i) = self.find_exact(with_ext.as_str()) {
            return Some(i);
        }
        let mut slash = to_owned_string("/");
        slash.append(with_ext.as_str());
        assert(slash@ =~= seq!['/'] + name@ + shape_ext());
        let mut backslash = to_owned_string("\\");
        backslash.append(with_ext.as_str());
        assert(backslash@ =~= seq!['\\'] + name@ + shape_ext());
        self.find_suffix(name, with_ext.as_str(), slash.as_str(), backslash.as_str())
    }

    /// The parts of the shape an import of `name` resolves to.
    pub fn get_shape(&self, name: &str) -> (r: Option<&[SpecNode]>)
        ensures
            ({
                let i = resolve_index(keys_of(self.entries()), name@);
                match r {
                    Some(parts) => 0 <= i < self.entries().len() && parts@ == self.entries()[i].parts@,
                    None => i == -1,
                }
            }),
    {
        match self.resolve(name) {
            Some(i) => Some(self.shapes[i].parts.as_slice()),
            None => None,
        }
    }

    /// The parts of the first shape loaded from `path`.
    pub fn get_shape_by_path(&self, path: &str) -> (r: Option<&[SpecNode]>)
        ensures
            ({
                let i = first_match(
                    paths_of(self.entries()),
                    equals(path@),
                );
                match r {
                    Some(parts) => 0 <= i < self.entries().len() && parts@ == self.entries()[i].parts@,
                    None => i == -1,
                }
            }),
    {
        let ghost paths = paths_of(self.shapes@);
        let ghost f = equals(path@);
        proof {
            lemma_first_match(paths, f);
        }
        let mut i: usize = 0;
        while i < self.shapes.len()
            invariant
                i <= self.shapes@.len(),
                paths == paths_of(self.shapes@),
                f == equals(path@),
                forall|j: int| 0 <= j < i ==> !f(paths[j]),
            decreases self.shapes@.len() - i,
        {
            if str_eq(self.shapes[i].path.as_str(), path) {
                proof {
                    lemma_first_match_at(paths, f, i as int);
                }
                return Some(self.shapes[i].parts.as_slice());
            }
            i = i + 1;
        }
        None
    }

    /// Store `parts` under `key`, replacing any entry with the same key
    /// in place, or appending a new entry.
    pub fn insert_shape(&mut self, key: String, path: String, parts: Vec<SpecNode>)
        ensures
            ({
                let i = first_match(keys_of(old(self).entries()), equals(key@));
                let e = ShapeEntry { key, path, parts };
                &&& i >= 0 ==> final(self).entries() == old(self).entries().update(i, e)
                &&& i < 0 ==> final(self).entries() == old(self).entries().push(e)
            }),
            final(self).error_list() == old(self).error_list(),
            final(self).generation() == old(self).generation(),
            final(self).surface_list() == old(self).surface_list(),
            final(self).surface_gen() == old(self).surface_gen(),
    {
        proof {
            use_type_invariant(&*self);
        }
        let ghost old_shapes = self.shapes@;
        let found = self.find_exact(key.as_str());
        proof {
            lemma_first_match(keys_of(old_shapes), equals(key@));
        }
        match found {
            Some(i) => {
                let entry = ShapeEntry { key, path, parts };
                let ghost e = entry;
                let mut shapes: Vec<ShapeEntry> = Vec::new();
                std::mem::swap(&mut shapes, &mut self.shapes);
                shapes.set(i, entry);
                proof {
                    assert(keys_of(shapes@) =~= keys_of(old_shapes).update(i as int, e.key@));
                    assert(keys_of(shapes@).no_duplicates());
                }
                self.shapes = shapes;
            },
            None => {
                let entry = ShapeEntry { key, path, parts };
                let ghost e = entry;
                let mut shapes: Vec<ShapeEntry> = Vec::new();
                std::mem::swap(&mut shapes, &mut self.shapes);
                shapes.push(entry);
                proof {
                    assert(keys_of(shapes@) =~= keys_of(old_shapes).push(e.key@));
                    assert forall|a: int, b: int|
                        0 <= a < keys_of(shapes@).len() && 0 <= b < keys_of(shapes@).len() && a
                            != b implies keys_of(shapes@)[a] != keys_of(shapes@)[b] by {
                        if a == old_shapes.len() {
                            assert(keys_of(old_shapes)[b] != e.key@);
                        } else if b == old_shapes.len() {
                            assert(keys_of(old_shapes)[a] != e.key@);
                        }
                    }
                }
                self.shapes = shapes;
            },
        }
    }

    /// Index of the first shape loaded from `path`.
    fn find_shape_path(&self, path: &str) -> (r: Option<usize>)
        ensures
            ({
                let i = first_match(paths_of(self.entries()), equals(path@));
                match r {
                    Some(j) => i == j && j < self.entries().len(),
                    None => i == -1,
                }
            }),
    {
        let ghost paths = paths_of(self.shapes@);
        let ghost f = equals(path@);
        proof {
            lemma_first_match(paths, f);
        }
        let mut i: usize = 0;
        while i < self.shapes.len()
            invariant
                i <= self.shapes@.len(),
                paths == paths_of(self.shapes@),
                f == equals(path@),
                forall|j: int| 0 <= j < i ==> !f(paths[j]),
            decreases self.shapes@.len() - i,
        {
            if str_eq(self.shapes[i].path.as_str(), path) {
                proof {
                    lemma_first_match_at(paths, f, i as int);
                }
                return Some(i);
            }
            i = i + 1;
        }
        None
    }

    /// Index of the first surface whose name (or, with `by_path`, whose
    /// file) is `s`.
    fn find_surface(&self, s: &str, by_path: bool) -> (r: Option<usize>)
        ensures
            ({
                let keys = if by_path {
                    surface_paths_of(self.surface_list())
                } else {
                    names_of(self.surface_list())
                };
                let i = first_match(keys, equals(s@));
                match r {
                    Some(j) => i == j && j < self.surface_list().len(),
                    None => i == -1,
                }
            }),
    {
        let ghost keys = if by_path {
            surface_paths_of(self.surfaces@)
        } else {
            names_of(self.surfaces@)
        };
        let ghost f = equals(s@);
        proof {
            lemma_first_match(keys, f);
        }
        let mut i: usize = 0;
        while i < self.surfaces.len()
            invariant
                i <= self.surfaces@.len(),
                keys == if by_path {
                    surface_paths_of(self.surfaces@)
                } else {
                    names_of(self.surfaces@)
                },
                f == equals(s@),
                forall|j: int| 0 <= j < i ==> !f(keys[j]),
            decreases self.surfaces@.len() - i,
        {
            let k = if by_path {
                self.surfaces[i].path.as_str()
            } else {
                self.surfaces[i].name.as_str()
            };
            if str_eq(k, s) {
                proof {
                    lemma_first_match_at(keys, f, i as int);
                }
                return Some(i);
            }
            i = i + 1;
        }
        None
    }

    /// Store `data` under `key` with no source file, as tests do to
    /// exercise import resolution without touching the file system.
    pub fn test_insert_shape(&mut self, key: String, data: Vec<SpecNode>)
        ensures
            ({
                let i = first_match(keys_of(old(self).entries()), equals(key@));
                let j = if i >= 0 {
                    i
                } else {
                    old(self).entries().len() as int
                };
                let e = final(self).entries()[j];
                &&& 0 <= j < final(self).entries().len()
                &&& e.key == key && e.path@.len() == 0 && e.parts == data
                &&& i >= 0 ==> final(self).entries() == old(self).entries().update(i, e)
                &&& i < 0 ==> final(self).entries() == old(self).entries().push(e)
            }),
            final(self).error_list() == old(self).error_list(),
            final(self).generation() == old(self).generation(),
            final(self).surface_list() == old(self).surface_list(),
            final(self).surface_gen() == old(self).surface_gen(),
    {
        proof {
            lemma_first_match(keys_of(old(self).entries()), equals(key@));
        }
        let path = String::new();
        self.insert_shape(key, path, data);
    }

    /// Remove the first shape loaded from `path`, or else the first
    /// surface loaded from it. Returns whether one was.
    pub fn remove_by_path(&mut self, path: &str) -> (r: bool)
        ensures
            ({
                let i = first_match(paths_of(old(self).entries()), equals(path@));
                let j = first_match(surface_paths_of(old(self).surface_list()), equals(path@));
                &&& r == (i >= 0 || j >= 0)
                &&& i >= 0 ==> final(self).entries() == old(self).entries().remove(i) && final(self).surface_list()
                    == old(self).surface_list()
                &&& i < 0 && j >= 0 ==> final(self).entries() == old(self).entries() && final(self).surface_list()
                    == old(self).surface_list().remove(j)
                &&& !r ==> final(self).entries() == old(self).entries() && final(self).surface_list()
                    == old(self).surface_list()
            }),
            final(self).error_list() == old(self).error_list(),
            final(self).generation() == old(self).generation(),
            final(self).surface_gen() == old(self).surface_gen(),
    {
        proof {
            use_type_invariant(&*self);
        }
        if let Some(i) = self.find_shape_path(path) {
            let ghost old_shapes = self.shapes@;
            let mut shapes: Vec<ShapeEntry> = Vec::new();
            std::mem::swap(&mut shapes, &mut self.shapes);
            let _removed = shapes.remove(i);
            proof {
                assert(keys_of(shapes@) =~= keys_of(old_shapes).remove(i as int));
                lemma_remove_distinct(keys_of(old_shapes), i as int);
            }
            self.shapes = shapes;
            return true;
        }
        if let Some(j) = self.find_surface(path, true) {
            let ghost old_surfaces = self.surfaces@;
            let mut surfaces: Vec<SurfaceEntry> = Vec::new();
            std::mem::swap(&mut surfaces, &mut self.surfaces);
            let _removed = surfaces.remove(j);
            proof {
                assert(names_of(surfaces@) =~= names_of(old_surfaces).remove(j as int));
                lemma_remove_distinct(names_of(old_surfaces), j as int);
            }
            self.surfaces = surfaces;
            return true;
        }
        false
    }

    /// The names of the loaded surfaces, sorted.
    pub fn surface_names(&self) -> (r: Vec<String>)
        ensures
            r@.len() == self.surface_list().len(),
            lex_sorted(strs_of(r@)),
            same_names(strs_of(r@), names_of(self.surface_list())),
    {
        proof {
            use_type_invariant(self);
        }
        let mut pairs: Vec<(String, String)> = Vec::new();
        let mut t: usize = 0;
        while t < self.surfaces.len()
            invariant
                t <= self.surfaces@.len(),
                pairs@.len() == t,
                forall|k: int| 0 <= k < t ==> (#[trigger] pairs@[k]).0@ == self.surfaces@[k].name@ && pairs@[k].1@
                    == self.surfaces@[k].path@,
            decreases self.surfaces@.len() - t,
        {
            pairs.push((to_owned_string(self.surfaces[t].name.as_str()), to_owned_string(self.surfaces[t].path.as_str())));
            t = t + 1;
        }
        proof {
            assert(firsts(pairs@) =~= names_of(self.surfaces@));
        }
        let sorted = sort_pairs(&pairs);
        let mut names: Vec<String> = Vec::new();
        let mut a: usize = 0;
        while a < sorted.len()
            invariant
                a <= sorted@.len(),
                names@.len() == a,
                forall|b: int| 0 <= b < a ==> (#[trigger] names@[b])@ == sorted@[b].0@,
            decreases sorted@.len() - a,
        {
            names.push(to_owned_string(sorted[a].0.as_str()));
            a = a + 1;
        }
        proof {
            assert(strs_of(names@) =~= firsts(sorted@));
            lemma_sorted_firsts(sorted@, firsts(pairs@), seconds(pairs@));
        }
        names
    }

    /// The file the surface `name` was loaded from.
    pub fn surface_path(&self, name: &str) -> (r: Option<String>)
        ensures
            ({
                let i = first_match(names_of(self.surface_list()), equals(name@));
                match r {
                    Some(p) => 0 <= i < self.surface_list().len() && p@ == self.surface_list()[i].path@,
                    None => i == -1,
                }
            }),
    {
        match self.find_surface(name, false) {
            Some(i) => Some(to_owned_string(self.surfaces[i].path.as_str())),
            None => None,
        }
    }

    /// Whether any surface is loaded.
    pub fn has_surfaces(&self) -> (r: bool)
        ensures
            r == (self.surface_list().len() > 0),
    {
        self.surfaces.len() > 0
    }

    /// How many times the set of surfaces has changed.
    pub fn surface_generation(&self) -> (r: u64)
        ensures
            r == self.surface_gen(),
    {
        self.surface_generation
    }

    /// Record that the surfaces changed (wrapping after `u64::MAX`).
    pub fn bump_surface_generation(&mut self)
        ensures
            final(self).surface_gen() == old(self).surface_gen().wrapping_add(1),
            final(self).surface_list() == old(self).surface_list(),
            final(self).entries() == old(self).entries(),
            final(self).error_list() == old(self).error_list(),
            final(self).generation() == old(self).generation(),
    {
        proof {
            use_type_invariant(&*self);
        }
        self.surface_generation = self.surface_generation.wrapping_add(1);
    }

    /// Store the surface `name` as loaded from `path`, in place of a
    /// surface of the same name or appended.
    pub fn upsert_surface(&mut self, name: String, path: String)
        ensures
            ({
                let i = first_match(names_of(old(self).surface_list()), equals(name@));
                let e = SurfaceEntry { name, path };
                &&& i >= 0 ==> final(self).surface_list() == old(self).surface_list().update(i, e)
                &&& i < 0 ==> final(self).surface_list() == old(self).surface_list().push(e)
            }),
            final(self).entries() == old(self).entries(),
            final(self).error_list() == old(self).error_list(),
            final(self).generation() == old(self).generation(),
            final(self).surface_gen() == old(self).surface_gen(),
    {
        proof {
            use_type_invariant(&*self);
        }
        let ghost old_surfaces = self.surfaces@;
        let found = self.find_surface(name.as_str(), false);
        proof {
            lemma_first_match(names_of(old_surfaces), equals(name@));
        }
        let entry = SurfaceEntry { name, path };
        let ghost e = entry;
        let mut surfaces: Vec<SurfaceEntry> = Vec::new();
        std::mem::swap(&mut surfaces, &mut self.surfaces);
        match found {
            Some(i) => {
                surfaces.set(i, entry);
                proof {
                    assert(names_of(surfaces@) =~= names_of(old_surfaces).update(i as int, e.name@));
                }
            },
            None => {
                surfaces.push(entry);
                proof {
                    assert(names_of(surfaces@) =~= names_of(old_surfaces).push(e.name@));
                    assert forall|a: int, b: int|
                        0 <= a < names_of(surfaces@).len() && 0 <= b < names_of(surfaces@).len() && a
                            != b implies names_of(surfaces@)[a] != names_of(surfaces@)[b] by {
                        if a == old_surfaces.len() {
                            assert(names_of(old_surfaces)[b] != e.name@);
                        } else if b == old_surfaces.len() {
                            assert(names_of(old_surfaces)[a] != e.name@);
                        }
                    }
                }
            },
        }
        self.surfaces = surfaces;
    }

    /// Forget the surface `name`. Returns the file it was loaded from.
    pub fn remove_surface(&mut self, name: &str) -> (r: Option<String>)
        ensures
            ({
                let i = first_match(names_of(old(self).surface_list()), equals(name@));
                match r {
                    Some(p) => {
                        &&& 0 <= i < old(self).surface_list().len()
                        &&& p@ == old(self).surface_list()[i].path@
                        &&& final(self).surface_list() == old(self).surface_list().remove(i)
                    },
                    None => i == -1 && final(self).surface_list() == old(self).surface_list(),
                }
            }),
            final(self).entries() == old(self).entries(),
            final(self).error_list() == old(self).error_list(),
            final(self).generation() == old(self).generation(),
            final(self).surface_gen() == old(self).surface_gen(),
    {
        proof {
            use_type_invariant(&*self);
        }
        match self.find_surface(name, false) {
            Some(i) => {
                let ghost old_surfaces = self.surfaces@;
                let mut surfaces: Vec<SurfaceEntry> = Vec::new();
                std::mem::swap(&mut surfaces, &mut self.surfaces);
                let removed = surfaces.remove(i);
                proof {
                    assert(names_of(surfaces@) =~= names_of(old_surfaces).remove(i as int));
                    lemma_remove_distinct(names_of(old_surfaces), i as int);
                }
                self.surfaces = surfaces;
                Some(removed.path)
            },
            None => None,
        }
    }

    /// How many times the set of shapes has changed.
    pub fn shape_generation(&self) -> (r: u64)
        ensures
            r == self.generation(),
    {
        self.shape_generation
    }

    /// Record that the shapes changed (wrapping after `u64::MAX`).
    pub fn bump_shape_generation(&mut self)
        ensures
            final(self).generation() == old(self).generation().wrapping_add(1),
            final(self).entries() == old(self).entries(),
            final(self).error_list() == old(self).error_list(),
            final(self).surface_list() == old(self).surface_list(),
            final(self).surface_gen() == old(self).surface_gen(),
    {
        proof {
            use_type_invariant(&*self);
        }
        self.shape_generation = self.shape_generation.wrapping_add(1);
    }

    /// Number of loaded shapes.
    pub fn shape_count(&self) -> (r: usize)
        ensures
            r == self.entries().len(),
    {
        self.shapes.len()
    }

    /// The key and source path of the `i`-th loaded shape.
    pub fn shape_entry(&self, i: usize) -> (r: (&str, &str))
        requires
            i < self.entries().len(),
        ensures
            r.0@ == self.entries()[i as int].key@,
            r.1@ == self.entries()[i as int].path@,
    {
        (self.shapes[i].key.as_str(), self.shapes[i].path.as_str())
    }

    /// The key and source path of every loaded shape, sorted by key.
    pub fn shape_entries(&self) -> (r: Vec<(String, String)>)
        ensures
            r@.len() == self.entries().len(),
            sorted_by_key(r@),
            lists_entries(r@, keys_of(self.entries()), paths_of(self.entries()), self.entries().len() as int),
    {
        proof {
            use_type_invariant(&*self);
        }
        let mut pairs: Vec<(String, String)> = Vec::new();
        let mut t: usize = 0;
        while t < self.shapes.len()
            invariant
                t <= self.shapes@.len(),
                pairs@.len() == t,
                forall|k: int| 0 <= k < t ==> (#[trigger] pairs@[k]).0@ == self.shapes@[k].key@ && pairs@[k].1@
                    == self.shapes@[k].path@,
            decreases self.shapes@.len() - t,
        {
            pairs.push((to_owned_string(self.shapes[t].key.as_str()), to_owned_string(self.shapes[t].path.as_str())));
            t = t + 1;
        }
        proof {
            assert(firsts(pairs@) =~= keys_of(self.shapes@));
            assert(seconds(pairs@) =~= paths_of(self.shapes@));
        }
        sort_pairs(&pairs)
    }

    /// The parts of the `i`-th loaded shape.
    pub fn shape_parts(&self, i: usize) -> (r: &[SpecNode])
        requires
            i < self.entries().len(),
        ensures
            r@ == self.entries()[i as int].parts@,
    {
        self.shapes[i].parts.as_slice()
    }

    pub fn has_errors(&self) -> (r: bool)
        ensures
            r == (self.error_list().len() > 0),
    {
        self.errors.len() > 0
    }

    pub fn errors(&self) -> (r: &[AssetError])
        ensures
            r@ == self.error_list(),
    {
        self.errors.as_slice()
    }

    /// Drop the errors recorded for `path`.
    pub fn clear_error_for(&mut self, path: &str)
        ensures
            final(self).error_list() == old(self).error_list().filter(
                |e: AssetError| e.path@ != path@,
            ),
            final(self).entries() == old(self).entries(),
            final(self).generation() == old(self).generation(),
            final(self).surface_list() == old(self).surface_list(),
            final(self).surface_gen() == old(self).surface_gen(),
    {
        proof {
            use_type_invariant(&*self);
        }
        let mut errors: Vec<AssetError> = Vec::new();
        std::mem::swap(&mut errors, &mut self.errors);
        let ghost old_errors = errors@;
        let ghost keep = |e: AssetError| e.path@ != path@;
        let mut kept: Vec<AssetError> = Vec::new();
        let mut i: usize = 0;
        let ghost mut consumed: Seq<AssetError> = Seq::empty();
        while errors.len() > 0
            invariant
                consumed + errors@ == old_errors,
                kept@ == consumed.filter(keep),
                keep == (|e: AssetError| e.path@ != path@),
            decreases errors@.len(),
        {
            let e = errors.remove(0);
            proof {
                assert(consumed.push(e) + errors@ =~= old_errors);
                assert(consumed.push(e).drop_last() =~= consumed);
                reveal_with_fuel(Seq::<_>::filter, 1);
                consumed = consumed.push(e);
            }
            if !str_eq(e.path.as_str(), path) {
                kept.push(e);
            }
        }
        assert(consumed =~= old_errors);
        self.errors = kept;
    }

    /// Record `message` as the only error for `path`.
    pub fn set_error(&mut self, path: String, message: String)
        ensures
            final(self).error_list() == old(self).error_list().filter(
                |e: AssetError| e.path@ != path@,
            ).push(AssetError { path, message }),
            final(self).entries() == old(self).entries(),
            final(self).generation() == old(self).generation(),
            final(self).surface_list() == old(self).surface_list(),
            final(self).surface_gen() == old(self).surface_gen(),
    {
        proof {
            use_type_invariant(&*self);
        }
        self.clear_error_for(path.as_str());
        let mut errors: Vec<AssetError> = Vec::new();
        std::mem::swap(&mut errors, &mut self.errors);
        errors.push(AssetError { path, message });
        self.errors = errors;
    }
}


impl Default for AssetRegistry {
    /// An empty registry.
    fn default() -> (r: AssetRegistry)
        ensures
            r.entries().len() == 0,
            r.error_list().len() == 0,
            r.generation() == 0,
            r.surface_list().len() == 0,
            r.surface_gen() == 0,
    {
        AssetRegistry::new()
    }
}

/// The keys of a list of pairs.
pub open spec fn firsts(s: Seq<(String, String)>) -> Seq<Seq<char>> {
    s.map_values(|e: (String, String)| e.0@)
}

/// The values of a list of pairs.
pub open spec fn seconds(s: Seq<(String, String)>) -> Seq<Seq<char>> {
    s.map_values(|e: (String, String)| e.1@)
}

/// The pairs sorted by key, for pairs whose keys are distinct.
fn sort_pairs(pairs: &Vec<(String, String)>) -> (r: Vec<(String, String)>)
    requires
        firsts(pairs@).no_duplicates(),
    ensures
        r@.len() == pairs@.len(),
        sorted_by_key(r@),
        lists_entries(r@, firsts(pairs@), seconds(pairs@), pairs@.len() as int),
        keys_from(r@, firsts(pairs@), pairs@.len() as int),
{
    let ghost ks = firsts(pairs@);
    let ghost vs = seconds(pairs@);
    let mut out: Vec<(String, String)> = Vec::new();
    let mut t: usize = 0;
    proof {
        reveal(sorted_by_key);
        reveal(lists_entries);
        reveal(keys_from);
    }
    while t < pairs.len()
        invariant
            t <= pairs@.len(),
            ks == firsts(pairs@),
            vs == seconds(pairs@),
            ks.no_duplicates(),
            out@.len() == t,
            sorted_by_key(out@),
            lists_entries(out@, ks, vs, t as int),
            keys_from(out@, ks, t as int),
        decreases pairs@.len() - t,
    {
        let key = pairs[t].0.as_str();
        let mut p: usize = 0;
        while p < out.len() && str_lt(out[p].0.as_str(), key)
            invariant
                p <= out@.len(),
                forall|i: int| 0 <= i < p ==> lex_lt(out@[i].0@, key@),
            decreases out@.len() - p,
        {
            p = p + 1;
        }
        let item = (to_owned_string(key), to_owned_string(pairs[t].1.as_str()));
        proof {
            assert(ks[t as int] == key@);
            assert(vs[t as int] == pairs@[t as int].1@);
            lemma_insert_sorted(out@, p as int, item, ks, vs, t as int);
        }
        out.insert(p, item);
        t = t + 1;
    }
    out
}

proof fn lemma_remove_distinct(s: Seq<Seq<char>>, i: int)
    requires
        s.no_duplicates(),
        0 <= i < s.len(),
    ensures
        s.remove(i).no_duplicates(),
{
    let r = s.remove(i);
    assert forall|a: int, b: int| 0 <= a < r.len() && 0 <= b < r.len() && a != b implies r[a] != r[b] by {
        let a2 = if a < i { a } else { a + 1 };
        let b2 = if b < i { b } else { b + 1 };
        assert(r[a] == s[a2] && r[b] == s[b2]);
    }
}

/// The characters of a list of strings.
pub open spec fn strs_of(v: Seq<String>) -> Seq<Seq<char>> {
    v.map_values(|x: String| x@)
}

/// Strictly increasing in lexicographic order.
pub open spec fn lex_sorted(s: Seq<Seq<char>>) -> bool {
    forall|i: int, j: int| 0 <= i < j < s.len() ==> lex_lt(s[i], s[j])
}

/// Each list holds every element of the other.
pub open spec fn same_names(s: Seq<Seq<char>>, t: Seq<Seq<char>>) -> bool {
    &&& forall|k: int| 0 <= k < t.len() ==> s.contains(#[trigger] t[k])
    &&& forall|i: int| 0 <= i < s.len() ==> t.contains(#[trigger] s[i])
}

proof fn lemma_sorted_firsts(s: Seq<(String, String)>, ks: Seq<Seq<char>>, vs: Seq<Seq<char>>)
    requires
        sorted_by_key(s),
        lists_entries(s, ks, vs, ks.len() as int),
        keys_from(s, ks, ks.len() as int),
    ensures
        lex_sorted(firsts(s)),
        same_names(firsts(s), ks),
{
    reveal(sorted_by_key);
    reveal(lists_entries);
    reveal(keys_from);
    let f = firsts(s);
    assert forall|k: int| 0 <= k < ks.len() implies f.contains(#[trigger] ks[k]) by {
        let i = choose|i: int| 0 <= i < s.len() && (#[trigger] s[i]).0@ == (#[trigger] ks[k]) && s[i].1@ == vs[k];
        assert(f[i] == ks[k]);
    }
    assert forall|i: int| 0 <= i < f.len() implies ks.contains(#[trigger] f[i]) by {
        let k = choose|k: int| 0 <= k < ks.len() && (#[trigger] s[i]).0@ == ks[k];
    }
}

/// The list is strictly sorted by key.
#[verifier::opaque]
pub open spec fn sorted_by_key(s: Seq<(String, String)>) -> bool {
    forall|i: int, j: int| 0 <= i < j < s.len() ==> lex_lt(s[i].0@, s[j].0@)
}

/// Every one of the first `t` keys appears in the list with its value.
#[verifier::opaque]
pub open spec fn lists_entries(s: Seq<(String, String)>, ks: Seq<Seq<char>>, vs: Seq<Seq<char>>, t: int) -> bool {
    forall|k: int|
        0 <= k < t ==> exists|i: int|
            0 <= i < s.len() && (#[trigger] s[i]).0@ == (#[trigger] ks[k]) && s[i].1@ == vs[k]
}

/// Every key of the list is one of the first `t` keys.
#[verifier::opaque]
pub open spec fn keys_from(s: Seq<(String, String)>, ks: Seq<Seq<char>>, t: int) -> bool {
    forall|i: int| 0 <= i < s.len() ==> exists|k: int| 0 <= k < t && (#[trigger] s[i]).0@ == ks[k]
}

proof fn lemma_insert_sorted(s: Seq<(String, String)>, p: int, item: (String, String), ks: Seq<Seq<char>>, vs: Seq<Seq<char>>, t: int)
    requires
        0 <= t < ks.len(),
        ks.no_duplicates(),
        s.len() == t,
        sorted_by_key(s),
        lists_entries(s, ks, vs, t),
        keys_from(s, ks, t),
        0 <= p <= s.len(),
        forall|i: int| 0 <= i < p ==> lex_lt(s[i].0@, ks[t]),
        p < s.len() ==> !lex_lt(s[p].0@, ks[t]),
        item.0@ == ks[t],
        item.1@ == vs[t],
    ensures
        sorted_by_key(s.insert(p, item)),
        lists_entries(s.insert(p, item), ks, vs, t + 1),
        keys_from(s.insert(p, item), ks, t + 1),
{
    lemma_insert_keeps_sorted(s, p, item, ks, vs, t);
    lemma_insert_lists(s, p, item, ks, vs, t);
    lemma_insert_keys_from(s, p, item, ks, vs, t);
}

proof fn lemma_insert_keeps_sorted(s: Seq<(String, String)>, p: int, item: (String, String), ks: Seq<Seq<char>>, vs: Seq<Seq<char>>, t: int)
    requires
        0 <= t < ks.len(),
        ks.no_duplicates(),
        s.len() == t,
        sorted_by_key(s),
        keys_from(s, ks, t),
        0 <= p <= s.len(),
        forall|i: int| 0 <= i < p ==> lex_lt(s[i].0@, ks[t]),
        p < s.len() ==> !lex_lt(s[p].0@, ks[t]),
        item.0@ == ks[t],
    ensures
        sorted_by_key(s.insert(p, item)),
{
    reveal(sorted_by_key);
    reveal(keys_from);
    let key = ks[t];
    let n = s.insert(p, item);
    assert forall|i: int| 0 <= i < s.len() implies s[i].0@ != key by {
        let k = choose|k: int| 0 <= k < t && (#[trigger] s[i]).0@ == ks[k];
        assert(ks[k] != ks[t]);
    }
    assert forall|i: int| p <= i < s.len() implies lex_lt(key, s[i].0@) by {
        lemma_lex_order(s[p].0@, key, s[i].0@);
        lemma_lex_order(key, s[p].0@, s[i].0@);
    }
    assert forall|i: int, j: int| 0 <= i < j < n.len() implies lex_lt(n[i].0@, n[j].0@) by {
        if j < p {
            assert(n[i] == s[i] && n[j] == s[j]);
        } else if j == p {
            assert(n[i] == s[i]);
        } else if i < p {
            assert(n[i] == s[i] && n[j] == s[j - 1]);
            lemma_lex_order(s[i].0@, key, s[j - 1].0@);
        } else if i == p {
            assert(n[j] == s[j - 1]);
        } else {
            assert(n[i] == s[i - 1] && n[j] == s[j - 1]);
        }
    }
}

proof fn lemma_insert_lists(s: Seq<(String, String)>, p: int, item: (String, String), ks: Seq<Seq<char>>, vs: Seq<Seq<char>>, t: int)
    requires
        0 <= t < ks.len(),
        s.len() == t,
        lists_entries(s, ks, vs, t),
        0 <= p <= s.len(),
        item.0@ == ks[t],
        item.1@ == vs[t],
    ensures
        lists_entries(s.insert(p, item), ks, vs, t + 1),
{
    reveal(lists_entries);
    let n = s.insert(p, item);
    assert forall|k: int| 0 <= k < t + 1 implies exists|i: int|
        0 <= i < n.len() && (#[trigger] n[i]).0@ == (#[trigger] ks[k]) && n[i].1@ == vs[k] by {
        if k == t {
            assert(n[p] == item);
        } else {
            let i = choose|i: int|
                0 <= i < s.len() && (#[trigger] s[i]).0@ == (#[trigger] ks[k]) && s[i].1@ == vs[k];
            if i < p {
                assert(n[i] == s[i]);
            } else {
                assert(n[i + 1] == s[i]);
            }
        }
    }
}

proof fn lemma_insert_keys_from(s: Seq<(String, String)>, p: int, item: (String, String), ks: Seq<Seq<char>>, vs: Seq<Seq<char>>, t: int)
    requires
        0 <= t < ks.len(),
        s.len() == t,
        keys_from(s, ks, t),
        0 <= p <= s.len(),
        item.0@ == ks[t],
    ensures
        keys_from(s.insert(p, item), ks, t + 1),
{
    reveal(keys_from);
    let n = s.insert(p, item);
    assert forall|i: int| 0 <= i < n.len() implies exists|k: int| 0 <= k < t + 1 && (#[trigger] n[i]).0@ == ks[k] by {
        if i < p {
            assert(n[i] == s[i]);
            let k = choose|k: int| 0 <= k < t && (#[trigger] s[i]).0@ == ks[k];
        } else if i == p {
            assert(n[i].0@ == ks[t]);
        } else {
            assert(n[i] == s[i - 1]);
            let k = choose|k: int| 0 <= k < t && (#[trigger] s[i - 1]).0@ == ks[k];
        }
    }
}


// =====================================================================
// Shape file paths
// =====================================================================

/// The folder that holds the shape files, as a path prefix.
pub open spec fn shapes_dir() -> Seq<char> {
    seq!['d', 'a', 't', 'a', '/', 's', 'h', 'a', 'p', 'e', 's']
}

/// `p` with every `\` turned into `/`.
pub open spec fn forward_slashes(p: Seq<char>) -> Seq<char> {
    Seq::new(p.len(), |i: int| if p[i] == '\\' { '/' } else { p[i] })
}

/// The first position from `i` on that is not a `/`.
pub open spec fn skip_slashes(p: Seq<char>, i: int) -> int
    decreases p.len() - i,
{
    if 0 <= i < p.len() && p[i] == '/' {
        skip_slashes(p, i + 1)
    } else {
        i
    }
}

/// The path starts with the shapes folder as whole path segments.
pub open spec fn under_shapes_dir(p: Seq<char>) -> bool {
    let n = shapes_dir().len() as int;
    &&& p.len() >= n
    &&& p.subrange(0, n) == shapes_dir()
    &&& (p.len() == n || p[n] == '/')
}

/// The registry key of a shape file: its path below `data/shapes/`,
/// or the whole path when it is not below that folder, with `/` as the
/// separator.
pub open spec fn shape_key_spec(p: Seq<char>) -> Seq<char> {
    if under_shapes_dir(p) {
        forward_slashes(p.subrange(skip_slashes(p, shapes_dir().len() as int), p.len() as int))
    } else {
        forward_slashes(p)
    }
}

/// The name of a shape file: its registry key without the shape file
/// extension.
pub open spec fn shape_name_spec(p: Seq<char>) -> Seq<char> {
    let k = shape_key_spec(p);
    if ends_with_spec(k, shape_ext()) {
        k.subrange(0, k.len() - shape_ext().len())
    } else {
        k
    }
}

proof fn lemma_skip_slashes(p: Seq<char>, i: int)
    requires
        0 <= i <= p.len(),
    ensures
        i <= skip_slashes(p, i) <= p.len(),
    decreases p.len() - i,
{
    if i < p.len() && p[i] == '/' {
        lemma_skip_slashes(p, i + 1);
    }
}

/// `p` from position `from` on, with every `\` turned into `/`.
fn forward_slashes_from(p: &str, from: usize) -> (r: String)
    requires
        from <= p@.len(),
    ensures
        r@ == forward_slashes(p@.subrange(from as int, p@.len() as int)),
{
    let n = p.unicode_len();
    let mut out = String::new();
    let mut i: usize = from;
    proof {
        reveal_strlit("/");
    }
    while i < n
        invariant
            from <= i <= n,
            n == p@.len(),
            out@ == forward_slashes(p@.subrange(from as int, i as int)),
            "/"@ == seq!['/'],
        decreases n - i,
    {
        let c = p.get_char(i);
        let ghost before = out@;
        if c == '\\' {
            out.append("/");
        } else {
            out.append(p.substring_char(i, i + 1));
        }
        assert(out@ =~= forward_slashes(p@.subrange(from as int, i + 1)));
        i = i + 1;
    }
    out
}

/// The registry key of a shape file path: the path below
/// `data/shapes/`, or the whole path when it is not below that folder,
/// with `/` as the separator. The path is read as text, its segments
/// split at `/`.
pub fn shape_key_from_path(path: &str) -> (r: String)
    ensures
        r@ == shape_key_spec(path@),
{
    let dir = "data/shapes";
    proof {
        reveal_strlit("data/shapes");
    }
    let n = path.unicode_len();
    let m = dir.unicode_len();
    let mut under = n >= m;
    let mut i: usize = 0;
    while under && i < m
        invariant
            i <= m,
            m == shapes_dir().len(),
            n == path@.len(),
            dir@ == shapes_dir(),
            under ==> n >= m && path@.subrange(0, i as int) == shapes_dir().subrange(0, i as int),
            !under ==> !(path@.len() >= m && path@.subrange(0, m as int) == shapes_dir()),
        decreases m - i,
    {
        if path.get_char(i) != dir.get_char(i) {
            proof {
                if path@.len() >= m && path@.subrange(0, m as int) == shapes_dir() {
                    assert(path@.subrange(0, m as int)[i as int] == path@[i as int]);
                }
            }
            under = false;
        } else {
            assert(path@.subrange(0, i + 1) =~= path@.subrange(0, i as int).push(path@[i as int]));
            assert(shapes_dir().subrange(0, i + 1) =~= shapes_dir().subrange(0, i as int).push(shapes_dir()[i as int]));
        }
        i = i + 1;
    }
    if under {
        assert(shapes_dir().subrange(0, m as int) =~= shapes_dir());
        under = n == m || path.get_char(m) == '/';
    }
    assert(under == under_shapes_dir(path@));
    if under {
        let mut k: usize = m;
        proof {
            lemma_skip_slashes(path@, m as int);
        }
        while k < n && path.get_char(k) == '/'
            invariant
                m <= k <= n,
                n == path@.len(),
                skip_slashes(path@, k as int) == skip_slashes(path@, m as int),
            decreases n - k,
        {
            k = k + 1;
        }
        forward_slashes_from(path, k)
    } else {
        assert(path@.subrange(0, n as int) =~= path@);
        forward_slashes_from(path, 0)
    }
}

/// The name of a shape file: its registry key without the
/// `.shape.ron` extension.
pub fn shape_name_from_path(path: &str) -> (r: String)
    ensures
        r@ == shape_name_spec(path@),
{
    let key = shape_key_from_path(path);
    let ext = ".shape.ron";
    proof {
        reveal_strlit(".shape.ron");
    }
    assert(ext@ == shape_ext());
    if str_ends_with(key.as_str(), ext) {
        let k = key.as_str();
        to_owned_string(k.substring_char(0, k.unicode_len() - ext.unicode_len()))
    } else {
        key
    }
}

} // verus!
