//! Small string helpers over the character view of `str`.

use vstd::prelude::*;

verus! {

/// Whether `s` ends with `suffix`.
pub open spec fn ends_with_spec(s: Seq<char>, suffix: Seq<char>) -> bool {
    suffix.len() <= s.len() && s.subrange(s.len() - suffix.len(), s.len() as int) == suffix
}

/// Strict lexicographic order of character sequences, by code point.
pub open spec fn lex_lt(a: Seq<char>, b: Seq<char>) -> bool
    decreases a.len(),
{
    if a.len() == 0 {
        b.len() > 0
    } else if b.len() == 0 {
        false
    } else if a[0] != b[0] {
        (a[0] as int) < (b[0] as int)
    } else {
        lex_lt(a.drop_first(), b.drop_first())
    }
}

/// `lex_lt` is a strict total order.
pub proof fn lemma_lex_order(a: Seq<char>, b: Seq<char>, c: Seq<char>)
    ensures
        !lex_lt(a, a),
        lex_lt(a, b) ==> !lex_lt(b, a),
        a != b ==> lex_lt(a, b) || lex_lt(b, a),
        lex_lt(a, b) && lex_lt(b, c) ==> lex_lt(a, c),
{
    lemma_lex_irreflexive(a);
    lemma_lex_total(a, b);
    lemma_lex_transitive(a, b, c);
}

proof fn lemma_lex_irreflexive(a: Seq<char>)
    ensures
        !lex_lt(a, a),
    decreases a.len(),
{
    if a.len() > 0 {
        lemma_lex_irreflexive(a.drop_first());
    }
}

proof fn lemma_lex_total(a: Seq<char>, b: Seq<char>)
    ensures
        lex_lt(a, b) ==> !lex_lt(b, a),
        a != b ==> lex_lt(a, b) || lex_lt(b, a),
    decreases a.len(),
{
    if a.len() == 0 && b.len() == 0 {
        assert(a =~= b);
    }
    if a.len() > 0 && b.len() > 0 && a[0] == b[0] {
        lemma_lex_total(a.drop_first(), b.drop_first());
        if a.drop_first() == b.drop_first() {
            assert forall|i: int| 0 <= i < a.len() implies a[i] == b[i] by {
                if i > 0 {
                    assert(a[i] == a.drop_first()[i - 1]);
                    assert(b[i] == b.drop_first()[i - 1]);
                }
            }
            assert(a =~= b);
        }
    }
}

proof fn lemma_lex_transitive(a: Seq<char>, b: Seq<char>, c: Seq<char>)
    ensures
        lex_lt(a, b) && lex_lt(b, c) ==> lex_lt(a, c),
    decreases a.len(),
{
    if a.len() > 0 && b.len() > 0 && c.len() > 0 {
        lemma_lex_transitive(a.drop_first(), b.drop_first(), c.drop_first());
    }
}

/// Lexicographic comparison of two strings by code point, as `<` on
/// `String` orders them.
pub fn str_lt(a: &str, b: &str) -> (r: bool)
    ensures
        r == lex_lt(a@, b@),
{
    let la = a.unicode_len();
    let lb = b.unicode_len();
    let mut i: usize = 0;
    assert(a@.skip(0) =~= a@ && b@.skip(0) =~= b@);
    while i < la && i < lb
        invariant
            la == a@.len(),
            lb == b@.len(),
            i <= la && i <= lb,
            lex_lt(a@, b@) == lex_lt(a@.skip(i as int), b@.skip(i as int)),
        decreases la - i,
    {
        let ca = a.get_char(i);
        let cb = b.get_char(i);
        if ca != cb {
            return ca < cb;
        }
        assert(a@.skip(i as int).drop_first() =~= a@.skip(i + 1));
        assert(b@.skip(i as int).drop_first() =~= b@.skip(i + 1));
        i = i + 1;
    }
    la < lb
}

/// Character-wise equality of two strings.
pub fn str_eq(a: &str, b: &str) -> (r: bool)
    ensures
        r == (a@ == b@),
{
    let n = a.unicode_len();
    if n != b.unicode_len() {
        return false;
    }
    let mut i: usize = 0;
    while i < n
        invariant
            n == a@.len(),
            n == b@.len(),
            i <= n,
            forall|j: int| 0 <= j < i ==> a@[j] == b@[j],
        decreases n - i,
    {
        if a.get_char(i) != b.get_char(i) {
            return false;
        }
        i = i + 1;
    }
    assert(a@ =~= b@);
    true
}

/// Whether `s` ends with `suffix`.
pub fn str_ends_with(s: &str, suffix: &str) -> (r: bool)
    ensures
        r == ends_with_spec(s@, suffix@),
{
    let n = s.unicode_len();
    let m = suffix.unicode_len();
    if m > n {
        return false;
    }
    let off = n - m;
    let mut i: usize = 0;
    while i < m
        invariant
            n == s@.len(),
            m == suffix@.len(),
            m <= n,
            off == n - m,
            i <= m,
            forall|j: int| 0 <= j < i ==> s@[off + j] == suffix@[j],
        decreases m - i,
    {
        if s.get_char(off + i) != suffix.get_char(i) {
            assert(s@.subrange(s@.len() - suffix@.len(), s@.len() as int)[i as int] != suffix@[i as int]);
            return false;
        }
        i = i + 1;
    }
    assert(s@.subrange(s@.len() - suffix@.len(), s@.len() as int) =~= suffix@);
    true
}

/// Index of the last occurrence of `c` in `s`, or -1.
pub open spec fn last_index_of(s: Seq<char>, c: char) -> int
    decreases s.len(),
{
    if s.len() == 0 {
        -1
    } else if s.last() == c {
        s.len() - 1
    } else {
        last_index_of(s.drop_last(), c)
    }
}

proof fn lemma_last_index_of_bounds(s: Seq<char>, c: char)
    ensures
        -1 <= last_index_of(s, c) < s.len(),
        last_index_of(s, c) >= 0 ==> s[last_index_of(s, c)] == c,
    decreases s.len(),
{
    if s.len() > 0 && s.last() != c {
        lemma_last_index_of_bounds(s.drop_last(), c);
    }
}

/// The part of `s` after its last `c` (all of `s` when there is none).
pub open spec fn after_last(s: Seq<char>, c: char) -> Seq<char> {
    s.subrange(last_index_of(s, c) + 1, s.len() as int)
}

/// The part of `s` after its last occurrence of `c`.
pub fn str_after_last(s: &str, c: char) -> (r: &str)
    ensures
        r@ == after_last(s@, c),
{
    let n = s.unicode_len();
    let mut i: usize = n;
    assert(s@.take(n as int) =~= s@);
    while i > 0
        invariant
            n == s@.len(),
            i <= n,
            last_index_of(s@, c) == last_index_of(s@.take(i as int), c),
        decreases i,
    {
        if s.get_char(i - 1) == c {
            assert(last_index_of(s@.take(i as int), c) == i - 1);
            proof {
                lemma_last_index_of_bounds(s@, c);
            }
            return s.substring_char(i, n);
        }
        assert(s@.take(i as int).drop_last() =~= s@.take(i - 1));
        i = i - 1;
    }
    assert(s@.take(0) =~= Seq::<char>::empty());
    s.substring_char(0, n)
}

/// An owned copy of `s`.
pub fn to_owned_string(s: &str) -> (r: String)
    ensures
        r@ == s@,
{
    String::from_str(s)
}


/// The pieces of `s` between `sep` separators, as `str::split` gives
/// them: one more piece than there are separators.
pub open spec fn split_on(s: Seq<char>, sep: char) -> Seq<Seq<char>>
    decreases s.len(),
{
    if s.len() == 0 {
        seq![Seq::<char>::empty()]
    } else {
        let prev = split_on(s.drop_last(), sep);
        if s.last() == sep {
            prev.push(Seq::<char>::empty())
        } else {
            prev.update(prev.len() - 1, prev.last().push(s.last()))
        }
    }
}

/// The pieces joined back with `sep` between them.
pub open spec fn join_on(x: Seq<Seq<char>>, sep: char) -> Seq<char>
    decreases x.len(),
{
    if x.len() == 0 {
        Seq::<char>::empty()
    } else if x.len() == 1 {
        x[0]
    } else {
        join_on(x.drop_last(), sep) + seq![sep] + x.last()
    }
}

pub open spec fn no_sep(y: Seq<char>, sep: char) -> bool {
    forall|k: int| 0 <= k < y.len() ==> y[k] != sep
}

/// Splitting always yields at least one piece, and no piece holds the
/// separator.
pub proof fn lemma_split_pieces(s: Seq<char>, sep: char)
    ensures
        split_on(s, sep).len() >= 1,
        forall|k: int| 0 <= k < split_on(s, sep).len() ==> no_sep(#[trigger] split_on(s, sep)[k], sep),
    decreases s.len(),
{
    if s.len() > 0 {
        lemma_split_pieces(s.drop_last(), sep);
    }
}

/// A piece without the separator splits to itself.
pub proof fn lemma_split_no_sep(y: Seq<char>, sep: char)
    requires
        no_sep(y, sep),
    ensures
        split_on(y, sep) == seq![y],
    decreases y.len(),
{
    if y.len() > 0 {
        let y0 = y.drop_last();
        assert(no_sep(y0, sep)) by {
            assert forall|k: int| 0 <= k < y0.len() implies y0[k] != sep by {
                assert(y0[k] == y[k]);
            }
        }
        lemma_split_no_sep(y0, sep);
        assert(y[y.len() - 1] != sep);
        assert(y0.push(y.last()) =~= y);
        assert(seq![y0].update(0, y0.push(y.last())) =~= seq![y]);
    } else {
        assert(y =~= Seq::<char>::empty());
    }
}

/// Appending the separator and a piece without it appends that piece.
pub proof fn lemma_split_append(s: Seq<char>, y: Seq<char>, sep: char)
    requires
        no_sep(y, sep),
    ensures
        split_on(s + seq![sep] + y, sep) == split_on(s, sep).push(y),
    decreases y.len(),
{
    if y.len() == 0 {
        assert(y =~= Seq::<char>::empty());
        assert(s + seq![sep] + y =~= s.push(sep));
        assert((s.push(sep)).drop_last() =~= s);
        assert((s.push(sep)).last() == sep);
    } else {
        let y0 = y.drop_last();
        assert(no_sep(y0, sep)) by {
            assert forall|k: int| 0 <= k < y0.len() implies y0[k] != sep by {
                assert(y0[k] == y[k]);
            }
        }
        assert(y[y.len() - 1] != sep);
        assert(y0.push(y.last()) =~= y);
        lemma_split_append(s, y0, sep);
        assert((s + seq![sep] + y).drop_last() =~= s + seq![sep] + y0);
        let prev = split_on(s, sep).push(y0);
        assert(prev.update(prev.len() - 1, y0.push(y.last())) =~= split_on(s, sep).push(y));
        assert(y0.push(y.last()) =~= y);
    }
}

/// Joining pieces without the separator and splitting again gives the
/// pieces back.
pub proof fn lemma_split_join(x: Seq<Seq<char>>, sep: char)
    requires
        x.len() >= 1,
        forall|k: int| 0 <= k < x.len() ==> no_sep(#[trigger] x[k], sep),
    ensures
        split_on(join_on(x, sep), sep) == x,
    decreases x.len(),
{
    if x.len() == 1 {
        lemma_split_no_sep(x[0], sep);
        assert(seq![x[0]] =~= x);
    } else {
        let x0 = x.drop_last();
        assert forall|k: int| 0 <= k < x0.len() implies no_sep(#[trigger] x0[k], sep) by {
            assert(x0[k] == x[k]);
        }
        lemma_split_join(x0, sep);
        lemma_split_append(join_on(x0, sep), x.last(), sep);
        assert(x0.push(x.last()) =~= x);
    }
}

/// A join whose first piece is non-empty is non-empty.
pub proof fn lemma_join_nonempty(x: Seq<Seq<char>>, sep: char)
    requires
        x.len() >= 1,
        x[0].len() > 0,
    ensures
        join_on(x, sep).len() > 0,
    decreases x.len(),
{
    if x.len() > 1 {
        lemma_join_nonempty(x.drop_last(), sep);
    }
}

/// A string that does not start with the separator has a non-empty
/// first piece.
pub proof fn lemma_split_first(s: Seq<char>, sep: char)
    requires
        s.len() > 0,
        s[0] != sep,
    ensures
        split_on(s, sep)[0].len() > 0,
    decreases s.len(),
{
    lemma_split_pieces(s, sep);
    let s0 = s.drop_last();
    if s.len() > 1 {
        assert(s0[0] == s[0]);
        lemma_split_first(s0, sep);
        lemma_split_pieces(s0, sep);
    } else {
        assert(s0 =~= Seq::<char>::empty());
        assert(s.last() == s[0]);
        assert(split_on(s0, sep) =~= seq![Seq::<char>::empty()]);
        assert(split_on(s, sep)[0] =~= seq![s[0]]);
    }
}

/// Split `s` at every `sep`, like `str::split`.
pub fn split_at_char(s: &str, sep: char) -> (r: Vec<&str>)
    ensures
        r@.len() == split_on(s@, sep).len(),
        forall|k: int| 0 <= k < r@.len() ==> (#[trigger] r@[k])@ == split_on(s@, sep)[k],
{
    let n = s.unicode_len();
    let mut out: Vec<&str> = Vec::new();
    let mut start: usize = 0;
    let mut i: usize = 0;
    while i < n
        invariant
            n == s@.len(),
            start <= i <= n,
            out@.len() + 1 == split_on(s@.take(i as int), sep).len(),
            forall|k: int| 0 <= k < out@.len() ==> (#[trigger] out@[k])@ == split_on(s@.take(i as int), sep)[k],
            split_on(s@.take(i as int), sep).last() == s@.subrange(start as int, i as int),
        decreases n - i,
    {
        proof {
            assert(s@.take(i + 1).drop_last() =~= s@.take(i as int));
            assert(s@.take(i + 1).last() == s@[i as int]);
        }
        if s.get_char(i) == sep {
            let piece = s.substring_char(start, i);
            out.push(piece);
            start = i + 1;
            assert(s@.subrange(start as int, i + 1) =~= Seq::<char>::empty());
        } else {
            assert(s@.subrange(start as int, i + 1) =~= s@.subrange(start as int, i as int).push(s@[i as int]));
        }
        i = i + 1;
    }
    let last = s.substring_char(start, n);
    out.push(last);
    assert(s@.take(n as int) =~= s@);
    out
}

/// Join the first `n` pieces with the one-character string `sep` between
/// them.
pub fn join_first(x: &[&str], n: usize, sep: &str) -> (r: String)
    requires
        n <= x@.len(),
        sep@.len() == 1,
    ensures
        r@ == join_on(x@.map_values(|p: &str| p@).take(n as int), sep@[0]),
{
    let ghost xs = x@.map_values(|p: &str| p@);
    let mut out = String::new();
    if n == 0 {
        assert(xs.take(0) =~= Seq::<Seq<char>>::empty());
        return out;
    }
    out.append(x[0]);
    assert(xs.take(1) =~= seq![xs[0]]);
    let mut i: usize = 1;
    while i < n
        invariant
            1 <= i <= n,
            n <= x@.len(),
            sep@.len() == 1,
            xs == x@.map_values(|p: &str| p@),
            out@ == join_on(xs.take(i as int), sep@[0]),
        decreases n - i,
    {
        proof {
            assert(xs.take(i + 1).drop_last() =~= xs.take(i as int));
            assert(sep@ =~= seq![sep@[0]]);
        }
        out.append(sep);
        out.append(x[i]);
        i = i + 1;
    }
    out
}


/// `c` with ASCII upper-case letters mapped to lower case.
pub open spec fn lower_char(c: char) -> char {
    if 'A' <= c && c <= 'Z' {
        (c as int + 32) as char
    } else {
        c
    }
}

/// `s` with ASCII upper-case letters mapped to lower case, as
/// `str::to_ascii_lowercase`.
pub open spec fn ascii_lower(s: Seq<char>) -> Seq<char> {
    s.map_values(|c: char| lower_char(c))
}

fn lower_char_exec(c: char) -> (r: char)
    ensures
        r == lower_char(c),
{
    if 'A' <= c && c <= 'Z' {
        let b = (c as u8) + 32;
        b as char
    } else {
        c
    }
}

/// Whether `s`, with ASCII letters taken in lower case, is `lower`.
pub fn lower_eq(s: &str, lower: &str) -> (r: bool)
    ensures
        r == (ascii_lower(s@) == lower@),
{
    let n = s.unicode_len();
    if n != lower.unicode_len() {
        assert(ascii_lower(s@).len() == s@.len());
        return false;
    }
    let mut i: usize = 0;
    while i < n
        invariant
            n == s@.len(),
            n == lower@.len(),
            i <= n,
            forall|j: int| 0 <= j < i ==> lower_char(s@[j]) == lower@[j],
        decreases n - i,
    {
        if lower_char_exec(s.get_char(i)) != lower.get_char(i) {
            assert(ascii_lower(s@)[i as int] != lower@[i as int]);
            return false;
        }
        i = i + 1;
    }
    assert(ascii_lower(s@) =~= lower@);
    true
}

} // verus!
