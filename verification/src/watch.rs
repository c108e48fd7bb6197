//! Detecting changed and deleted files between two scans of the data
//! directory.
//!
//! The watcher remembers the last modification time seen for every file,
//! whether or not the file loaded. A scan lists the files on disk with
//! their modification times (`None` when the time could not be read); a
//! file is reported changed when it is new or its time is later than the
//! one seen, and a remembered file missing from the scan is reported
//! deleted and forgotten.

use vstd::prelude::*;
use crate::text::{str_eq, to_owned_string};

verus! {

/// A remembered file: its path and last seen modification time.
pub type Seen = Seq<(Seq<char>, i128)>;

/// The time remembered for `p`, if any.
pub open spec fn lookup(seen: Seen, p: Seq<char>) -> Option<i128>
    decreases seen.len(),
{
    if seen.len() == 0 {
        None
    } else if seen.last().0 == p {
        Some(seen.last().1)
    } else {
        lookup(seen.drop_last(), p)
    }
}

/// `q` is remembered.
pub open spec fn has_path(seen: Seen, q: Seq<char>) -> bool {
    exists|i: int| 0 <= i < seen.len() && #[trigger] seen[i].0 == q
}

/// No path is remembered twice.
pub open spec fn unique_paths(seen: Seen) -> bool {
    forall|i: int, j: int| 0 <= i < j < seen.len() ==> seen[i].0 != seen[j].0
}

/// Remember time `t` for `p`: in place when `p` is remembered, appended
/// otherwise.
pub open spec fn record(seen: Seen, p: Seq<char>, t: i128) -> Seen {
    if exists|i: int| 0 <= i < seen.len() && seen[i].0 == p {
        let i = choose|i: int| 0 <= i < seen.len() && seen[i].0 == p;
        seen.update(i, (p, t))
    } else {
        seen.push((p, t))
    }
}

/// A file was seen before with a time no earlier than `t`.
pub open spec fn already_seen(seen: Seen, p: Seq<char>, t: i128) -> bool {
    match lookup(seen, p) {
        Some(prev) => t <= prev,
        None => false,
    }
}

/// The remembered times and the changed paths after the first `n` files
/// of a scan, in scan order.
pub open spec fn scan_spec(seen: Seen, scan: Seq<(Seq<char>, Option<i128>)>, n: int) -> (Seen, Seq<Seq<char>>)
    decreases n,
{
    if n <= 0 {
        (seen, seq![])
    } else {
        let (s, changed) = scan_spec(seen, scan, n - 1);
        let (p, mt) = scan[n - 1];
        match mt {
            None => (s, changed),
            Some(t) => (
                record(s, p, t),
                if already_seen(s, p, t) {
                    changed
                } else {
                    changed.push(p)
                },
            ),
        }
    }
}

/// The path is among those of the scan.
pub open spec fn in_scan(scan: Seq<(Seq<char>, Option<i128>)>, p: Seq<char>) -> bool {
    exists|k: int| 0 <= k < scan.len() && #[trigger] scan[k].0 == p
}

/// Remembered files whose path the scan lists.
pub open spec fn scanned(scan: Seq<(Seq<char>, Option<i128>)>) -> spec_fn((Seq<char>, i128)) -> bool {
    |e: (Seq<char>, i128)| in_scan(scan, e.0)
}

/// Remembered files whose path the scan does not list.
pub open spec fn unscanned(scan: Seq<(Seq<char>, Option<i128>)>) -> spec_fn((Seq<char>, i128)) -> bool {
    |e: (Seq<char>, i128)| !in_scan(scan, e.0)
}

/// What a scan reports and leaves remembered: the changed paths in scan
/// order, the deleted paths in the order they were remembered, and the
/// remembered files without the deleted ones.
pub open spec fn detect_spec(seen: Seen, scan: Seq<(Seq<char>, Option<i128>)>) -> (Seen, Seq<Seq<char>>, Seq<Seq<char>>) {
    let (s, changed) = scan_spec(seen, scan, scan.len() as int);
    let kept = s.filter(scanned(scan));
    let deleted = s.filter(unscanned(scan)).map_values(|e: (Seq<char>, i128)| e.0);
    (kept, changed, deleted)
}

proof fn lemma_lookup_unique(seen: Seen, i: int)
    requires
        unique_paths(seen),
        0 <= i < seen.len(),
    ensures
        lookup(seen, seen[i].0) == Some(seen[i].1),
    decreases seen.len(),
{
    if i < seen.len() - 1 {
        assert(seen.last().0 != seen[i].0);
        lemma_lookup_unique(seen.drop_last(), i);
    }
}

proof fn lemma_lookup_absent(seen: Seen, p: Seq<char>)
    requires
        forall|i: int| 0 <= i < seen.len() ==> seen[i].0 != p,
    ensures
        lookup(seen, p) is None,
    decreases seen.len(),
{
    if seen.len() > 0 {
        lemma_lookup_absent(seen.drop_last(), p);
    }
}

proof fn lemma_record_unique(seen: Seen, p: Seq<char>, t: i128)
    requires
        unique_paths(seen),
    ensures
        unique_paths(record(seen, p, t)),
        exists|i: int| 0 <= i < record(seen, p, t).len() && record(seen, p, t)[i] == (p, t),
        forall|q: Seq<char>| #[trigger] has_path(record(seen, p, t), q) <==> (q == p || has_path(seen, q)),
{
    let r = record(seen, p, t);
    if exists|i: int| 0 <= i < seen.len() && seen[i].0 == p {
        let i = choose|i: int| 0 <= i < seen.len() && seen[i].0 == p;
        assert(r[i] == (p, t));
        assert forall|q: Seq<char>| #[trigger] has_path(r, q) <==> (q == p || has_path(seen, q)) by {
            if has_path(r, q) {
                let k = choose|k: int| 0 <= k < r.len() && #[trigger] r[k].0 == q;
                if k != i {
                    assert(seen[k].0 == q);
                }
            }
            if q == p {
                assert(r[i].0 == q);
            } else if has_path(seen, q) {
                let k = choose|k: int| 0 <= k < seen.len() && #[trigger] seen[k].0 == q;
                assert(r[k].0 == q);
            }
        }
    } else {
        assert(r[seen.len() as int] == (p, t));
        assert forall|q: Seq<char>| #[trigger] has_path(r, q) <==> (q == p || has_path(seen, q)) by {
            if has_path(r, q) {
                let k = choose|k: int| 0 <= k < r.len() && #[trigger] r[k].0 == q;
                if k < seen.len() {
                    assert(seen[k].0 == q);
                }
            }
            if q == p {
                assert(r[seen.len() as int].0 == q);
            } else if has_path(seen, q) {
                let k = choose|k: int| 0 <= k < seen.len() && #[trigger] seen[k].0 == q;
                assert(r[k].0 == q);
            }
        }
    }
}

/// The data directory and the last modification time seen for each of
/// its files.
pub struct FileWatcher {
    data_dir: String,
    seen: Vec<(String, i128)>,
}

impl View for FileWatcher {
    type V = (Seq<char>, Seen);

    /// The watched directory, and the files seen in it with their times.
    closed spec fn view(&self) -> (Seq<char>, Seen) {
        (self.data_dir@, self.seen@.map_values(|e: (String, i128)| (e.0@, e.1)))
    }
}

impl FileWatcher {
    #[verifier::type_invariant]
    spec fn paths_unique(&self) -> bool {
        unique_paths(self@.1)
    }

    /// The directory whose files are watched.
    pub open spec fn dir(&self) -> Seq<char> {
        self@.0
    }

    /// A watcher of `data_dir` that has seen nothing yet.
    pub fn new(data_dir: String) -> (r: FileWatcher)
        ensures
            r@.1.len() == 0,
            r.dir() == data_dir@,
    {
        let r = FileWatcher { data_dir, seen: Vec::new() };
        assert(r@.1 =~= Seq::<(Seq<char>, i128)>::empty());
        r
    }

    /// The directory whose files are watched.
    pub fn data_dir(&self) -> (r: &str)
        ensures
            r@ == self.dir(),
    {
        self.data_dir.as_str()
    }

    /// Where `p` is remembered.
    fn find(&self, p: &str) -> (r: Option<usize>)
        ensures
            match r {
                Some(i) => i < self@.1.len() && self@.1[i as int].0 == p@,
                None => forall|i: int| 0 <= i < self@.1.len() ==> self@.1[i].0 != p@,
            },
    {
        let mut i: usize = 0;
        while i < self.seen.len()
            invariant
                i <= self.seen@.len(),
                self@.1 == self.seen@.map_values(|e: (String, i128)| (e.0@, e.1)),
                forall|k: int| 0 <= k < i ==> self@.1[k].0 != p@,
            decreases self.seen@.len() - i,
        {
            if str_eq(self.seen[i].0.as_str(), p) {
                return Some(i);
            }
            i = i + 1;
        }
        None
    }

    /// Take in one scanned file with a readable modification time `t`:
    /// remember `t` and report whether the file is new or modified.
    fn observe(&mut self, p: &str, t: i128) -> (changed: bool)
        ensures
            final(self)@.1 == record(old(self)@.1, p@, t),
            final(self).dir() == old(self).dir(),
            changed == !already_seen(old(self)@.1, p@, t),
    {
        proof {
            use_type_invariant(&*self);
        }
        let ghost s0 = self@.1;
        let found = self.find(p);
        proof {
            lemma_record_unique(s0, p@, t);
        }
        match found {
            Some(i) => {
                let prev = self.seen[i].1;
                proof {
                    lemma_lookup_unique(s0, i as int);
                    assert forall|k: int| 0 <= k < s0.len() && s0[k].0 == p@ implies k == i by {}
                }
                let mut seen = Vec::new();
                std::mem::swap(&mut seen, &mut self.seen);
                seen.set(i, (to_owned_string(p), t));
                proof {
                    let k = choose|k: int| 0 <= k < s0.len() && s0[k].0 == p@;
                    assert(k == i);
                    assert(seen@.map_values(|e: (String, i128)| (e.0@, e.1)) =~= s0.update(i as int, (p@, t)));
                    assert(record(s0, p@, t) == s0.update(i as int, (p@, t)));
                }
                self.seen = seen;
                !(t <= prev)
            },
            None => {
                proof {
                    lemma_lookup_absent(s0, p@);
                }
                let mut seen = Vec::new();
                std::mem::swap(&mut seen, &mut self.seen);
                seen.push((to_owned_string(p), t));
                proof {
                    assert(seen@.map_values(|e: (String, i128)| (e.0@, e.1)) =~= s0.push((p@, t)));
                }
                self.seen = seen;
                true
            },
        }
    }
}

pub open spec fn scan_view(scan: Seq<(String, Option<i128>)>) -> Seq<(Seq<char>, Option<i128>)> {
    scan.map_values(|e: (String, Option<i128>)| (e.0@, e.1))
}

pub open spec fn strs(v: Seq<String>) -> Seq<Seq<char>> {
    v.map_values(|x: String| x@)
}

/// Is `p` among the paths of the scan?
fn in_scan_exec(scan: &[(String, Option<i128>)], p: &str) -> (r: bool)
    ensures
        r == in_scan(scan_view(scan@), p@),
{
    let ghost sv = scan_view(scan@);
    let mut k: usize = 0;
    while k < scan.len()
        invariant
            k <= scan@.len(),
            sv == scan_view(scan@),
            forall|m: int| 0 <= m < k ==> sv[m].0 != p@,
        decreases scan@.len() - k,
    {
        if str_eq(scan[k].0.as_str(), p) {
            assert(sv[k as int].0 == p@);
            return true;
        }
        k = k + 1;
    }
    false
}

impl FileWatcher {
    /// Take in a scan of the data directory: every listed file with a
    /// readable time is remembered with it and reported changed when new
    /// or modified; remembered files missing from the scan are reported
    /// deleted and forgotten. Returns the changed paths in scan order and
    /// the deleted ones in the order they were remembered.
    pub fn detect_changes(&mut self, scan: &[(String, Option<i128>)]) -> (r: (Vec<String>, Vec<String>))
        ensures
            ({
                let (kept, changed, deleted) = detect_spec(old(self)@.1, scan_view(scan@));
                &&& final(self)@.1 == kept
                &&& strs(r.0@) == changed
                &&& strs(r.1@) == deleted
            }),
            final(self).dir() == old(self).dir(),
    {
        let ghost s0 = self@.1;
        let ghost sv = scan_view(scan@);
        let mut changed: Vec<String> = Vec::new();
        let mut k: usize = 0;
        while k < scan.len()
            invariant
                k <= scan@.len(),
                sv == scan_view(scan@),
                (self@.1, strs(changed@)) == scan_spec(s0, sv, k as int),
                self.dir() == old(self).dir(),
            decreases scan@.len() - k,
        {
            let ghost before = strs(changed@);
            match scan[k].1 {
                Some(t) => {
                    if self.observe(scan[k].0.as_str(), t) {
                        changed.push(to_owned_string(scan[k].0.as_str()));
                        assert(strs(changed@) =~= before.push(sv[k as int].0));
                    }
                },
                None => {},
            }
            k = k + 1;
        }
        proof {
            use_type_invariant(&*self);
        }
        let ghost s1 = self@.1;
        let ghost pred = scanned(sv);
        let ghost npred = unscanned(sv);
        let mut kept: Vec<(String, i128)> = Vec::new();
        let mut deleted: Vec<String> = Vec::new();
        let mut i: usize = 0;
        while i < self.seen.len()
            invariant
                i <= self.seen@.len(),
                s1 == self@.1,
                s1 == self.seen@.map_values(|e: (String, i128)| (e.0@, e.1)),
                unique_paths(s1),
                sv == scan_view(scan@),
                pred == scanned(sv),
                npred == unscanned(sv),
                kept@.map_values(|e: (String, i128)| (e.0@, e.1)) == s1.take(i as int).filter(pred),
                strs(deleted@) == s1.take(i as int).filter(npred).map_values(|e: (Seq<char>, i128)| e.0),
            decreases self.seen@.len() - i,
        {
            let p = self.seen[i].0.as_str();
            let t = self.seen[i].1;
            let ghost kv = kept@.map_values(|e: (String, i128)| (e.0@, e.1));
            let ghost dv = strs(deleted@);
            assert(s1.take(i + 1).drop_last() =~= s1.take(i as int));
            assert(s1.take(i + 1).last() == s1[i as int]);
            proof {
                reveal(Seq::filter);
            }
            if in_scan_exec(scan, p) {
                kept.push((to_owned_string(p), t));
                assert(kept@.map_values(|e: (String, i128)| (e.0@, e.1)) =~= kv.push(s1[i as int]));
            } else {
                deleted.push(to_owned_string(p));
                assert(strs(deleted@) =~= dv.push(s1[i as int].0));
                assert(s1.take(i + 1).filter(npred).map_values(|e: (Seq<char>, i128)| e.0) =~= s1.take(
                    i as int,
                ).filter(npred).map_values(|e: (Seq<char>, i128)| e.0).push(s1[i as int].0));
            }
            i = i + 1;
        }
        proof {
            assert(s1.take(s1.len() as int) =~= s1);
            lemma_filter_unique(s1, pred);
            assert(kept@.map_values(|e: (String, i128)| (e.0@, e.1)) == s1.filter(pred));
        }
        self.seen = kept;
        (changed, deleted)
    }
}

proof fn lemma_filter_unique(s: Seen, pred: spec_fn((Seq<char>, i128)) -> bool)
    requires
        unique_paths(s),
    ensures
        unique_paths(s.filter(pred)),
        forall|q: Seq<char>| #[trigger] has_path(s.filter(pred), q) ==> has_path(s, q),
        forall|i: int| 0 <= i < s.len() && pred(s[i]) ==> exists|j: int|
            0 <= j < s.filter(pred).len() && #[trigger] s.filter(pred)[j] == s[i],
    decreases s.len(),
{
    reveal(Seq::filter);
    if s.len() > 0 {
        let s0 = s.drop_last();
        assert(unique_paths(s0)) by {
            assert forall|i: int, j: int| 0 <= i < j < s0.len() implies s0[i].0 != s0[j].0 by {
                assert(s0[i] == s[i] && s0[j] == s[j]);
            }
        }
        lemma_filter_unique(s0, pred);
        let f0 = s0.filter(pred);
        let f = s.filter(pred);
        assert forall|q: Seq<char>| #[trigger] has_path(f0, q) implies has_path(s, q) by {
            assert(has_path(s0, q));
            let k = choose|k: int| 0 <= k < s0.len() && #[trigger] s0[k].0 == q;
            assert(s[k].0 == q);
        }
        if pred(s.last()) {
            assert(f == f0.push(s.last()));
            assert forall|i: int, j: int| 0 <= i < j < f.len() implies f[i].0 != f[j].0 by {
                if j == f.len() - 1 {
                    assert(f[j] == s.last());
                    assert(f[i] == f0[i]);
                    if f0[i].0 == s.last().0 {
                        assert(has_path(f0, s.last().0));
                        assert(has_path(s0, s.last().0));
                        let k = choose|k: int| 0 <= k < s0.len() && #[trigger] s0[k].0 == s.last().0;
                        assert(s[k].0 == s[s.len() - 1].0);
                    }
                } else {
                    assert(f[i] == f0[i] && f[j] == f0[j]);
                }
            }
            assert forall|q: Seq<char>| #[trigger] has_path(f, q) implies has_path(s, q) by {
                let k = choose|k: int| 0 <= k < f.len() && #[trigger] f[k].0 == q;
                if k == f.len() - 1 {
                    assert(s[s.len() - 1].0 == q);
                } else {
                    assert(f0[k].0 == q);
                    assert(has_path(f0, q));
                }
            }
            assert forall|i: int| 0 <= i < s.len() && pred(s[i]) implies exists|j: int|
                0 <= j < f.len() && #[trigger] f[j] == s[i] by {
                if i == s.len() - 1 {
                    assert(f[f.len() - 1] == s[i]);
                } else {
                    assert(s0[i] == s[i]);
                    let j = choose|j: int| 0 <= j < f0.len() && #[trigger] f0[j] == s0[i];
                    assert(f[j] == f0[j]);
                }
            }
        } else {
            assert(f == f0);
            assert forall|i: int| 0 <= i < s.len() && pred(s[i]) implies exists|j: int|
                0 <= j < f.len() && #[trigger] f[j] == s[i] by {
                assert(s0[i] == s[i]);
            }
        }
    }
}

proof fn lemma_filter_sat(s: Seen, pred: spec_fn((Seq<char>, i128)) -> bool)
    ensures
        forall|j: int| 0 <= j < s.filter(pred).len() ==> pred(#[trigger] s.filter(pred)[j]),
        (forall|i: int| 0 <= i < s.len() ==> pred(#[trigger] s[i])) ==> s.filter(pred) == s,
        (forall|i: int| 0 <= i < s.len() ==> !pred(#[trigger] s[i])) ==> s.filter(pred).len() == 0,
    decreases s.len(),
{
    reveal(Seq::filter);
    if s.len() > 0 {
        let s0 = s.drop_last();
        lemma_filter_sat(s0, pred);
        let f0 = s0.filter(pred);
        assert forall|j: int| 0 <= j < s.filter(pred).len() implies pred(#[trigger] s.filter(pred)[j]) by {
            if j < f0.len() {
                assert(s.filter(pred)[j] == f0[j]);
            }
        }
        if forall|i: int| 0 <= i < s.len() ==> pred(#[trigger] s[i]) {
            assert forall|i: int| 0 <= i < s0.len() implies pred(#[trigger] s0[i]) by {
                assert(s0[i] == s[i]);
            }
            assert(pred(s[s.len() - 1]));
            assert(s0.push(s.last()) =~= s);
        }
        if forall|i: int| 0 <= i < s.len() ==> !pred(#[trigger] s[i]) {
            assert forall|i: int| 0 <= i < s0.len() implies !pred(#[trigger] s0[i]) by {
                assert(s0[i] == s[i]);
            }
            assert(!pred(s[s.len() - 1]));
        }
    } else {
        assert(s.filter(pred) =~= s);
    }
}

proof fn lemma_lookup_some(s: Seen, p: Seq<char>)
    ensures
        lookup(s, p) matches Some(t) ==> exists|i: int| 0 <= i < s.len() && s[i] == (p, t),
        lookup(s, p) is None ==> !has_path(s, p),
    decreases s.len(),
{
    if s.len() > 0 {
        lemma_lookup_some(s.drop_last(), p);
        if lookup(s, p) is Some && s.last().0 != p {
            let t = lookup(s, p)->0;
            let i = choose|i: int| 0 <= i < s.drop_last().len() && s.drop_last()[i] == (p, t);
            assert(s[i] == (p, t));
        }
        if lookup(s, p) is Some && s.last().0 == p {
            assert(s[s.len() - 1] == (p, s.last().1));
        }
        if lookup(s, p) is None && has_path(s, p) {
            let k = choose|k: int| 0 <= k < s.len() && #[trigger] s[k].0 == p;
            assert(s.drop_last()[k].0 == p);
            assert(has_path(s.drop_last(), p));
        }
    }
}

proof fn lemma_lookup_record(seen: Seen, p: Seq<char>, t: i128, q: Seq<char>)
    requires
        unique_paths(seen),
    ensures
        lookup(record(seen, p, t), q) == if q == p {
            Some(t)
        } else {
            lookup(seen, q)
        },
{
    let r = record(seen, p, t);
    lemma_record_unique(seen, p, t);
    if q == p {
        let i = choose|i: int| 0 <= i < r.len() && r[i] == (p, t);
        lemma_lookup_unique(r, i);
    } else if has_path(seen, q) {
        let j = choose|j: int| 0 <= j < seen.len() && #[trigger] seen[j].0 == q;
        lemma_lookup_unique(seen, j);
        assert(r[j] == seen[j]);
        lemma_lookup_unique(r, j);
    } else {
        assert(!has_path(r, q));
        assert forall|i: int| 0 <= i < seen.len() implies seen[i].0 != q by {
            if seen[i].0 == q {
                assert(has_path(seen, q));
            }
        }
        assert forall|i: int| 0 <= i < r.len() implies r[i].0 != q by {
            if r[i].0 == q {
                assert(has_path(r, q));
            }
        }
        lemma_lookup_absent(seen, q);
        lemma_lookup_absent(r, q);
    }
}

/// The scan lists no path twice.
pub open spec fn scan_unique(scan: Seq<(Seq<char>, Option<i128>)>) -> bool {
    forall|i: int, j: int| 0 <= i < j < scan.len() ==> scan[i].0 != scan[j].0
}

proof fn lemma_scan_times(seen: Seen, scan: Seq<(Seq<char>, Option<i128>)>, n: int)
    requires
        unique_paths(seen),
        scan_unique(scan),
        0 <= n <= scan.len(),
    ensures
        unique_paths(scan_spec(seen, scan, n).0),
        forall|k: int|
            0 <= k < n ==> ((#[trigger] scan[k]).1 matches Some(t) ==> lookup(scan_spec(seen, scan, n).0, scan[k].0)
                == Some(t)),
    decreases n,
{
    if n > 0 {
        lemma_scan_times(seen, scan, n - 1);
        let s = scan_spec(seen, scan, n - 1).0;
        let (p, mt) = scan[n - 1];
        if let Some(t) = mt {
            lemma_record_unique(s, p, t);
            assert forall|k: int| 0 <= k < n implies ((#[trigger] scan[k]).1 matches Some(tk) ==> lookup(
                record(s, p, t),
                scan[k].0,
            ) == Some(tk)) by {
                lemma_lookup_record(s, p, t, scan[k].0);
            }
        }
    }
}

proof fn lemma_record_same(s: Seen, p: Seq<char>, t: i128)
    requires
        unique_paths(s),
        lookup(s, p) == Some(t),
    ensures
        record(s, p, t) == s,
{
    lemma_lookup_some(s, p);
    let i = choose|i: int| 0 <= i < s.len() && s.update(i, (p, t))[i].0 == p && s[i].0 == p;
    let j = choose|j: int| 0 <= j < s.len() && s[j].0 == p;
    let w = choose|w: int| 0 <= w < s.len() && s[w] == (p, t);
    assert(j == w);
    assert(s.update(j, (p, t)) =~= s);
}

proof fn lemma_rescan_unchanged(s1: Seen, scan: Seq<(Seq<char>, Option<i128>)>, n: int)
    requires
        unique_paths(s1),
        0 <= n <= scan.len(),
        forall|k: int| 0 <= k < scan.len() ==> ((#[trigger] scan[k]).1 matches Some(t) ==> lookup(s1, scan[k].0) == Some(t)),
    ensures
        scan_spec(s1, scan, n) == (s1, Seq::<Seq<char>>::empty()),
    decreases n,
{
    if n > 0 {
        lemma_rescan_unchanged(s1, scan, n - 1);
        let (p, mt) = scan[n - 1];
        if let Some(t) = mt {
            assert(lookup(s1, p) == Some(t));
            lemma_record_same(s1, p, t);
        }
    }
}

/// Scanning the same files again reports nothing: once a scan that lists
/// every path at most once has been taken in, taking in the same scan
/// again reports no changed and no deleted file and remembers the same.
pub proof fn lemma_rescan_reports_nothing(seen: Seen, scan: Seq<(Seq<char>, Option<i128>)>)
    requires
        unique_paths(seen),
        scan_unique(scan),
    ensures
        ({
            let (s1, _c1, _d1) = detect_spec(seen, scan);
            let (s2, c2, d2) = detect_spec(s1, scan);
            &&& s2 == s1
            &&& c2.len() == 0
            &&& d2.len() == 0
        }),
{
    let n = scan.len() as int;
    lemma_scan_times(seen, scan, n);
    let s = scan_spec(seen, scan, n).0;
    let s1 = s.filter(scanned(scan));
    lemma_filter_unique(s, scanned(scan));
    assert forall|k: int| 0 <= k < scan.len() implies ((#[trigger] scan[k]).1 matches Some(t) ==> lookup(s1, scan[k].0)
        == Some(t)) by {
        if let Some(t) = scan[k].1 {
            let p = scan[k].0;
            assert(lookup(s, p) == Some(t));
            lemma_lookup_some(s, p);
            let i = choose|i: int| 0 <= i < s.len() && s[i] == (p, t);
            assert(in_scan(scan, p));
            assert(scanned(scan)(s[i]));
            let j = choose|j: int| 0 <= j < s1.len() && #[trigger] s1[j] == s[i];
            lemma_lookup_unique(s1, j);
        }
    }
    lemma_rescan_unchanged(s1, scan, n);
    lemma_filter_sat(s, scanned(scan));
    assert forall|i: int| 0 <= i < s1.len() implies (scanned(scan))(#[trigger] s1[i]) by {}
    lemma_filter_sat(s1, scanned(scan));
    assert forall|i: int| 0 <= i < s1.len() implies !(unscanned(scan))(#[trigger] s1[i]) by {
        assert((scanned(scan))(s1[i]));
    }
    lemma_filter_sat(s1, unscanned(scan));
}

/// No path among the first `m` files of the scan is `q`.
pub open spec fn unscanned_before(scan: Seq<(Seq<char>, Option<i128>)>, m: int, q: Seq<char>) -> bool {
    forall|k: int| 0 <= k < m ==> (#[trigger] scan[k]).0 != q
}

proof fn lemma_scan_keeps_other(seen: Seen, scan: Seq<(Seq<char>, Option<i128>)>, m: int, q: Seq<char>)
    requires
        unique_paths(seen),
        scan_unique(scan),
        0 <= m <= scan.len(),
        unscanned_before(scan, m, q),
    ensures
        lookup(scan_spec(seen, scan, m).0, q) == lookup(seen, q),
    decreases m,
{
    if m > 0 {
        lemma_scan_keeps_other(seen, scan, m - 1, q);
        lemma_scan_times(seen, scan, m - 1);
        let s = scan_spec(seen, scan, m - 1).0;
        let (p, mt) = scan[m - 1];
        if let Some(t) = mt {
            assert(scan[m - 1].0 != q);
            lemma_lookup_record(s, p, t, q);
        }
    }
}

proof fn lemma_changed_upto(seen: Seen, scan: Seq<(Seq<char>, Option<i128>)>, n: int)
    requires
        unique_paths(seen),
        scan_unique(scan),
        0 <= n <= scan.len(),
    ensures
        forall|q: Seq<char>|
            #![trigger scan_spec(seen, scan, n).1.contains(q)]
            scan_spec(seen, scan, n).1.contains(q) <==> exists|k: int|
                0 <= k < n && (#[trigger] scan[k]).0 == q && (scan[k].1 matches Some(t) && !already_seen(seen, q, t)),
    decreases n,
{
    if n > 0 {
        lemma_changed_upto(seen, scan, n - 1);
        let (s, changed) = scan_spec(seen, scan, n - 1);
        let (p, mt) = scan[n - 1];
        assert(unscanned_before(scan, n - 1, p)) by {
            assert forall|k: int| 0 <= k < n - 1 implies (#[trigger] scan[k]).0 != p by {
                assert(scan[k].0 != scan[n - 1].0);
            }
        }
        lemma_scan_keeps_other(seen, scan, n - 1, p);
        let c2 = scan_spec(seen, scan, n).1;
        assert forall|q: Seq<char>| c2.contains(q) <==> exists|k: int|
            0 <= k < n && (#[trigger] scan[k]).0 == q && (scan[k].1 matches Some(t) && !already_seen(seen, q, t)) by {
            if c2.contains(q) {
                if changed.contains(q) {
                    let k = choose|k: int|
                        0 <= k < n - 1 && (#[trigger] scan[k]).0 == q && (scan[k].1 matches Some(t) && !already_seen(
                            seen,
                            q,
                            t,
                        ));
                } else {
                    let i = choose|i: int| 0 <= i < c2.len() && c2[i] == q;
                    assert(c2 != changed);
                    assert(c2 == changed.push(p));
                    if i < changed.len() {
                        assert(changed[i] == q);
                    }
                    assert(q == p);
                    assert(scan[n - 1].0 == q);
                }
            }
            if exists|k: int|
                0 <= k < n && (#[trigger] scan[k]).0 == q && (scan[k].1 matches Some(t) && !already_seen(seen, q, t)) {
                let k = choose|k: int|
                    0 <= k < n && (#[trigger] scan[k]).0 == q && (scan[k].1 matches Some(t) && !already_seen(seen, q, t));
                if k < n - 1 {
                    assert(changed.contains(q));
                    let i = choose|i: int| 0 <= i < changed.len() && changed[i] == q;
                    if mt is Some {
                        if !already_seen(s, p, mt->0) {
                            assert(c2 == changed.push(p));
                            assert(c2[i] == q);
                        }
                    }
                } else {
                    assert(q == p);
                    assert(c2 == changed.push(p));
                    assert(c2[changed.len() as int] == q);
                }
            }
        }
    }
}

/// A scan reports exactly the new and the modified files: a path is
/// reported changed if and only if the scan lists it with a readable time
/// and that time is later than the one remembered for it, or none was.
pub proof fn lemma_changed_are_new_or_modified(seen: Seen, scan: Seq<(Seq<char>, Option<i128>)>, q: Seq<char>)
    requires
        unique_paths(seen),
        scan_unique(scan),
    ensures
        detect_spec(seen, scan).1.contains(q) <==> exists|k: int|
            0 <= k < scan.len() && (#[trigger] scan[k]).0 == q && (scan[k].1 matches Some(t) && (lookup(seen, q)
                matches Some(prev) ==> prev < t)),
{
    lemma_changed_upto(seen, scan, scan.len() as int);
}

} // verus!
