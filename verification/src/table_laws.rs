//! Padding a document twice changes nothing: the padded tables parse
//! back to the same cells and widths, so a second pass pads every table
//! to itself.

use vstd::prelude::*;
use crate::tables::{
    all_parse, col_width, lemma_table_end, pad_document_spec, padded_run, process_lines, table_end, dash_run, lemma_col_width, fill_row, filled_rows, format_separator_spec, is_separator_spec, is_ws,
    lead_from, lemma_lead_from, lemma_trail_from, max_cols, pad_table_spec, parse_row_spec, render_row,
    render_sep_row, repeat, rows_spec, sep_body, sep_cell, table_widths, trail_from, trim_spec,
};
use crate::text::{join_on, lemma_split_join, lemma_split_pieces, no_sep, split_on};

verus! {

// =====================================================================
// Padding twice changes nothing
// =====================================================================

/// A cell without leading or trailing whitespace.
pub open spec fn clean(c: Seq<char>) -> bool {
    c.len() == 0 || (!is_ws(c[0]) && !is_ws(c.last()))
}

proof fn lemma_lead_stops(s: Seq<char>, i: int)
    requires
        0 <= i <= s.len(),
    ensures
        lead_from(s, i) < s.len() ==> !is_ws(s[lead_from(s, i)]),
        forall|k: int| i <= k < lead_from(s, i) ==> is_ws(s[k]),
    decreases s.len() - i,
{
    if i < s.len() && is_ws(s[i]) {
        lemma_lead_stops(s, i + 1);
    }
}

proof fn lemma_trail_stops(s: Seq<char>, lo: int, j: int)
    requires
        0 <= lo <= j <= s.len(),
    ensures
        trail_from(s, lo, j) > lo ==> !is_ws(s[trail_from(s, lo, j) - 1]),
        forall|k: int| trail_from(s, lo, j) <= k < j ==> is_ws(s[k]),
    decreases j - lo,
{
    if lo < j && is_ws(s[j - 1]) {
        lemma_trail_stops(s, lo, j - 1);
    }
}

/// Trimming leaves a clean cell.
proof fn lemma_trim_clean(s: Seq<char>)
    ensures
        clean(trim_spec(s)),
{
    let lo = lead_from(s, 0);
    lemma_lead_from(s, 0);
    lemma_lead_stops(s, 0);
    let hi = trail_from(s, lo, s.len() as int);
    lemma_trail_from(s, lo, s.len() as int);
    lemma_trail_stops(s, lo, s.len() as int);
}

/// `lead_from` skips exactly a whitespace run that ends at `m`.
proof fn lemma_lead_to(s: Seq<char>, i: int, m: int)
    requires
        0 <= i <= m <= s.len(),
        forall|k: int| i <= k < m ==> is_ws(s[k]),
        m < s.len() ==> !is_ws(s[m]),
    ensures
        lead_from(s, i) == m,
    decreases m - i,
{
    if i < m {
        lemma_lead_to(s, i + 1, m);
    }
}

/// `trail_from` drops exactly a whitespace run that starts at `m`.
proof fn lemma_trail_to(s: Seq<char>, lo: int, j: int, m: int)
    requires
        0 <= lo <= m <= j <= s.len(),
        forall|k: int| m <= k < j ==> is_ws(s[k]),
        m > lo ==> !is_ws(s[m - 1]),
    ensures
        trail_from(s, lo, j) == m,
    decreases j - m,
{
    if m < j {
        lemma_trail_to(s, lo, j - 1, m);
    }
}

/// A padded cell ` c   ` trims back to the clean cell `c`.
proof fn lemma_trim_padded(c: Seq<char>, n: int)
    requires
        clean(c),
    ensures
        trim_spec(seq![' '] + c + repeat(' ', n) + seq![' ']) == c,
{
    let u = seq![' '] + c + repeat(' ', n) + seq![' '];
    let r = repeat(' ', n);
    assert forall|k: int| 1 + c.len() <= k < u.len() implies is_ws(u[k]) by {
        if k < 1 + c.len() + r.len() {
            assert(u[k] == r[k - 1 - c.len()]);
        }
    }
    if c.len() == 0 {
        assert forall|k: int| 0 <= k < u.len() implies is_ws(u[k]) by {
            if k >= 1 && k < 1 + r.len() {
                assert(u[k] == r[k - 1]);
            }
        }
        lemma_lead_to(u, 0, u.len() as int);
        lemma_trail_to(u, u.len() as int, u.len() as int, u.len() as int);
        assert(trim_spec(u) =~= c);
    } else {
        assert(u[1] == c[0]);
        assert(u[c.len() as int] == c.last());
        lemma_lead_to(u, 0, 1);
        lemma_trail_to(u, 1, u.len() as int, 1 + c.len() as int);
        assert(u.subrange(1, 1 + c.len() as int) =~= c);
    }
}

/// The middle of a rendered cell: a space, the cell, padding, a space.
pub open spec fn seg(c: Seq<char>, w: int) -> Seq<char> {
    seq![' '] + c + repeat(' ', w - c.len()) + seq![' ']
}

pub open spec fn segs(row: Seq<Seq<char>>, widths: Seq<int>, k: int) -> Seq<Seq<char>> {
    Seq::new(k as nat, |i: int| seg(row[i], widths[i]))
}

/// A rendered row is its cell segments joined by `|` inside `|`s.
proof fn lemma_render_row_join(row: Seq<Seq<char>>, widths: Seq<int>, k: int)
    requires
        k >= 1,
    ensures
        render_row(row, widths, k) == seq!['|'] + join_on(segs(row, widths, k), '|') + seq!['|'],
    decreases k,
{
    let sg = segs(row, widths, k);
    let last = seg(row[k - 1], widths[k - 1]);
    if k == 1 {
        assert(render_row(row, widths, 0) == seq!['|']);
        assert(render_row(row, widths, 1) =~= seq!['|'] + last + seq!['|']);
        assert(join_on(sg, '|') == sg[0]);
    } else {
        lemma_render_row_join(row, widths, k - 1);
        assert(sg.drop_last() =~= segs(row, widths, k - 1));
        assert(join_on(sg, '|') == join_on(sg.drop_last(), '|') + seq!['|'] + sg.last());
        assert(render_row(row, widths, k) =~= seq!['|'] + join_on(sg, '|') + seq!['|']);
    }
}

/// Every character of every split piece avoids what the string avoids.
proof fn lemma_split_avoids(s: Seq<char>, sep: char, x: char)
    requires
        no_sep(s, x),
    ensures
        forall|k: int| 0 <= k < split_on(s, sep).len() ==> no_sep(#[trigger] split_on(s, sep)[k], x),
    decreases s.len(),
{
    lemma_split_pieces(s, sep);
    if s.len() > 0 {
        let s0 = s.drop_last();
        assert(no_sep(s0, x)) by {
            assert forall|k: int| 0 <= k < s0.len() implies s0[k] != x by {
                assert(s0[k] == s[k]);
            }
        }
        lemma_split_avoids(s0, sep, x);
        lemma_split_pieces(s0, sep);
        let prev = split_on(s0, sep);
        assert(s[s.len() - 1] != x);
        if s.last() != sep {
            assert forall|k: int| 0 <= k < split_on(s, sep).len() implies no_sep(#[trigger] split_on(s, sep)[k], x) by {
                if k == prev.len() - 1 {
                    assert(split_on(s, sep)[k] == prev.last().push(s.last()));
                    assert(no_sep(prev.last(), x));
                } else {
                    assert(split_on(s, sep)[k] == prev[k]);
                }
            }
        }
    }
}

proof fn lemma_trim_avoids(s: Seq<char>, x: char)
    requires
        no_sep(s, x),
    ensures
        no_sep(trim_spec(s), x),
{
    let lo = lead_from(s, 0);
    lemma_lead_from(s, 0);
    lemma_trail_from(s, lo, s.len() as int);
}

/// The cells of a parsed row are clean, hold no `|`, and hold nothing the
/// line does not.
proof fn lemma_parsed_cells(line: Seq<char>, x: char)
    requires
        parse_row_spec(line) is Some,
    ensures
        parse_row_spec(line)->0.len() >= 1,
        forall|i: int|
            0 <= i < parse_row_spec(line)->0.len() ==> clean(#[trigger] parse_row_spec(line)->0[i]) && no_sep(
                parse_row_spec(line)->0[i],
                '|',
            ),
        no_sep(line, x) ==> forall|i: int|
            0 <= i < parse_row_spec(line)->0.len() ==> no_sep(#[trigger] parse_row_spec(line)->0[i], x),
{
    let t = trim_spec(line);
    let inner = t.subrange(1, t.len() - 1);
    let pieces = split_on(inner, '|');
    lemma_split_pieces(inner, '|');
    let cells = parse_row_spec(line)->0;
    assert forall|i: int| 0 <= i < cells.len() implies clean(#[trigger] cells[i]) && no_sep(cells[i], '|') by {
        lemma_trim_clean(pieces[i]);
        lemma_trim_avoids(pieces[i], '|');
    }
    if no_sep(line, x) {
        lemma_trim_avoids(line, x);
        assert(no_sep(inner, x));
        lemma_split_avoids(inner, '|', x);
        assert forall|i: int| 0 <= i < cells.len() implies no_sep(#[trigger] cells[i], x) by {
            lemma_trim_avoids(pieces[i], x);
        }
    }
}

/// A rendered row of clean cells without `|` parses back to its cells.
proof fn lemma_parse_render(row: Seq<Seq<char>>, widths: Seq<int>, k: int)
    requires
        1 <= k <= row.len(),
        forall|i: int| 0 <= i < k ==> clean(#[trigger] row[i]) && no_sep(row[i], '|'),
    ensures
        parse_row_spec(render_row(row, widths, k)) == Some(row.take(k)),
{
    lemma_render_row_join(row, widths, k);
    let sg = segs(row, widths, k);
    let j = join_on(sg, '|');
    let l = render_row(row, widths, k);
    assert(l =~= seq!['|'] + j + seq!['|']);
    lemma_lead_to(l, 0, 0);
    lemma_trail_to(l, 0, l.len() as int, l.len() as int);
    assert(trim_spec(l) =~= l);
    assert(l.subrange(1, l.len() - 1) =~= j);
    assert forall|i: int| 0 <= i < sg.len() implies no_sep(#[trigger] sg[i], '|') by {
        let c = row[i];
        let r = repeat(' ', widths[i] - c.len());
        assert forall|m: int| 0 <= m < sg[i].len() implies sg[i][m] != '|' by {
            if 1 <= m < 1 + c.len() {
                assert(sg[i][m] == c[m - 1]);
            } else if 1 + c.len() <= m < 1 + c.len() + r.len() {
                assert(sg[i][m] == r[m - 1 - c.len()]);
            }
        }
    }
    lemma_split_join(sg, '|');
    assert forall|i: int| 0 <= i < k implies trim_spec(#[trigger] sg[i]) == row[i] by {
        lemma_trim_padded(row[i], widths[i] - row[i].len());
    }
    assert(sg.map_values(|c: Seq<char>| trim_spec(c)) =~= row.take(k));
}

/// Joining pieces that avoid `x` with a separator other than `x` avoids
/// `x`.
proof fn lemma_join_avoids(v: Seq<Seq<char>>, sep: char, x: char)
    requires
        sep != x,
        forall|i: int| 0 <= i < v.len() ==> no_sep(#[trigger] v[i], x),
    ensures
        no_sep(join_on(v, sep), x),
    decreases v.len(),
{
    if v.len() > 1 {
        let v0 = v.drop_last();
        assert forall|i: int| 0 <= i < v0.len() implies no_sep(#[trigger] v0[i], x) by {
            assert(v0[i] == v[i]);
        }
        lemma_join_avoids(v0, sep, x);
        let j0 = join_on(v0, sep);
        let l = v.last();
        assert(no_sep(l, x));
        assert forall|k: int| 0 <= k < join_on(v, sep).len() implies join_on(v, sep)[k] != x by {
            if k < j0.len() {
                assert(join_on(v, sep)[k] == j0[k]);
            } else if k > j0.len() {
                assert(join_on(v, sep)[k] == l[k - j0.len() - 1]);
            }
        }
    }
}

/// A rendered row avoids whatever its cells avoid, other than `|` and
/// space.
proof fn lemma_render_avoids(row: Seq<Seq<char>>, widths: Seq<int>, k: int, x: char)
    requires
        1 <= k <= row.len(),
        x != '|' && x != ' ',
        forall|i: int| 0 <= i < k ==> no_sep(#[trigger] row[i], x),
    ensures
        no_sep(render_row(row, widths, k), x),
{
    lemma_render_row_join(row, widths, k);
    let sg = segs(row, widths, k);
    assert forall|i: int| 0 <= i < sg.len() implies no_sep(#[trigger] sg[i], x) by {
        let c = row[i];
        let r = repeat(' ', widths[i] - c.len());
        assert forall|m: int| 0 <= m < sg[i].len() implies sg[i][m] != x by {
            if 1 <= m < 1 + c.len() {
                assert(sg[i][m] == c[m - 1]);
            } else if 1 + c.len() <= m < 1 + c.len() + r.len() {
                assert(sg[i][m] == r[m - 1 - c.len()]);
            }
        }
    }
    lemma_join_avoids(sg, '|', x);
    let j = join_on(sg, '|');
    let l = render_row(row, widths, k);
    assert forall|m: int| 0 <= m < l.len() implies l[m] != x by {
        if 1 <= m < 1 + j.len() {
            assert(l[m] == j[m - 1]);
        }
    }
}

/// The separator cells of a row, re-rendered at the column widths.
pub open spec fn fmt_row(row: Seq<Seq<char>>, widths: Seq<int>, k: int) -> Seq<Seq<char>> {
    Seq::new(k as nat, |j: int| format_separator_spec(row[j], widths[j]))
}

pub open spec fn lens(row: Seq<Seq<char>>) -> Seq<int> {
    Seq::new(row.len(), |j: int| row[j].len() as int)
}

/// A separator row renders as a plain row of its re-rendered cells.
proof fn lemma_sep_as_row(row: Seq<Seq<char>>, widths: Seq<int>, k: int)
    requires
        0 <= k,
    ensures
        render_sep_row(row, widths, k) == render_row(fmt_row(row, widths, k), lens(fmt_row(row, widths, k)), k),
    decreases k,
{
    if k > 0 {
        lemma_sep_as_row(row, widths, k - 1);
        let f = fmt_row(row, widths, k);
        let f0 = fmt_row(row, widths, k - 1);
        assert(render_row(f, lens(f), k - 1) == render_row(f0, lens(f0), k - 1)) by {
            lemma_render_row_prefix(f, lens(f), f0, lens(f0), k - 1);
        }
        assert(repeat(' ', lens(f)[k - 1] - f[k - 1].len()) =~= Seq::<char>::empty());
        assert(render_sep_row(row, widths, k) =~= render_row(f, lens(f), k));
    }
}

/// Rendering the first `k` cells only reads those cells and widths.
proof fn lemma_render_row_prefix(r1: Seq<Seq<char>>, w1: Seq<int>, r2: Seq<Seq<char>>, w2: Seq<int>, k: int)
    requires
        k <= r1.len(),
        k <= r2.len(),
        k <= w1.len(),
        k <= w2.len(),
        forall|j: int| 0 <= j < k ==> r1[j] == r2[j] && w1[j] == w2[j],
    ensures
        render_row(r1, w1, k) == render_row(r2, w2, k),
    decreases k,
{
    if k > 0 {
        lemma_render_row_prefix(r1, w1, r2, w2, k - 1);
    }
}

/// Re-rendered separator cells are clean separator cells without `|`,
/// made of `:` and `-` only, and re-render to themselves.
proof fn lemma_format(c: Seq<char>, w: int)
    ensures
        ({
            let f = format_separator_spec(c, w);
            &&& f.len() >= 1
            &&& clean(f)
            &&& sep_cell(f)
            &&& forall|m: int| 0 <= m < f.len() ==> f[m] == ':' || f[m] == '-'
            &&& format_separator_spec(f, w) == f
        }),
{
    let left = c.len() > 0 && c[0] == ':';
    let right = c.len() > 0 && c.last() == ':';
    let colons = (if left { 1int } else { 0 }) + (if right { 1int } else { 0 });
    let dashes = if w > colons { w - colons } else { 1 };
    let d = repeat('-', dashes);
    let lp: Seq<char> = if left { seq![':'] } else { Seq::empty() };
    let rp: Seq<char> = if right { seq![':'] } else { Seq::empty() };
    let f = format_separator_spec(c, w);
    assert(f == lp + d + rp);
    assert(d.len() >= 1);
    assert(f[0] == (if left { ':' } else { '-' }));
    assert(f.last() == (if right { ':' } else { '-' }));
    assert forall|m: int| 0 <= m < f.len() implies f[m] == ':' || f[m] == '-' by {
        if m >= lp.len() && m < lp.len() + d.len() {
            assert(f[m] == d[m - lp.len()]);
        }
    }
    let b = sep_body(f);
    assert(b =~= d + rp);
    assert forall|k: int| 1 <= k < b.len() - 1 implies b[k] == '-' by {
        assert(b[k] == d[k]);
    }
    assert(b[0] == d[0]);
    assert(dash_run(b));
}

/// The widest cell in column `j` only reads the rows it counts.
proof fn lemma_col_width_agree(r1: Seq<Seq<Seq<char>>>, r2: Seq<Seq<Seq<char>>>, j: int, skip: bool, n: int)
    requires
        n <= r1.len(),
        n <= r2.len(),
        forall|i: int| 0 <= i < n && !(i == 1 && skip) ==> r1[i][j].len() == r2[i][j].len(),
    ensures
        col_width(r1, j, skip, n) == col_width(r2, j, skip, n),
    decreases n,
{
    if n > 0 {
        lemma_col_width_agree(r1, r2, j, skip, n - 1);
    }
}

proof fn lemma_max_cols(rows: Seq<Seq<Seq<char>>>, n: int)
    requires
        0 <= n <= rows.len(),
    ensures
        forall|i: int| 0 <= i < n ==> rows[i].len() <= max_cols(rows, n),
    decreases n,
{
    if n > 0 {
        lemma_max_cols(rows, n - 1);
    }
}

proof fn lemma_max_cols_uniform(rows: Seq<Seq<Seq<char>>>, n: int, c: int)
    requires
        1 <= n <= rows.len(),
        c >= 0,
        forall|i: int| 0 <= i < n ==> rows[i].len() == c,
    ensures
        max_cols(rows, n) == c,
    decreases n,
{
    if n > 1 {
        lemma_max_cols_uniform(rows, n - 1, c);
    } else {
        assert(max_cols(rows, 0) == 0);
    }
}

/// Two separator rows whose cells re-render alike render alike.
proof fn lemma_sep_row_same(r1: Seq<Seq<char>>, r2: Seq<Seq<char>>, w: Seq<int>, k: int)
    requires
        k <= r1.len(),
        k <= r2.len(),
        k <= w.len(),
        forall|j: int| 0 <= j < k ==> format_separator_spec(r1[j], w[j]) == format_separator_spec(r2[j], w[j]),
    ensures
        render_sep_row(r1, w, k) == render_sep_row(r2, w, k),
    decreases k,
{
    if k > 0 {
        lemma_sep_row_same(r1, r2, w, k - 1);
    }
}

/// Padding a table twice pads it once; the padded lines all parse, keep
/// their number, avoid what the lines avoid (other than `|`, space, `:`
/// and `-`), and their second line is a separator row exactly when the
/// padding treated it as one.
pub proof fn lemma_pad_table_twice(t: Seq<Seq<char>>, x: char)
    requires
        all_parse(t),
        t.len() >= 2,
    ensures
        ({
            let p = pad_table_spec(t);
            &&& p.len() == t.len()
            &&& all_parse(p)
            &&& pad_table_spec(p) == p
            &&& is_separator_spec(parse_row_spec(p[1])->0) == is_separator_spec(filled_rows(t)[1])
            &&& forall|i: int|
                0 <= i < t.len() && !(i == 1 && is_separator_spec(filled_rows(t)[1])) ==> parse_row_spec(
                    #[trigger] p[i],
                ) == Some(filled_rows(t)[i])
            &&& (x != '|' && x != ' ' && x != ':' && x != '-' && forall|i: int| 0 <= i < t.len() ==> no_sep(
                #[trigger] t[i],
                x,
            )) ==> forall|i: int| 0 <= i < p.len() ==> no_sep(#[trigger] p[i], x)
        }),
{
    let n = t.len() as int;
    let parsed = rows_spec(t);
    let cols = max_cols(parsed, n);
    let rows = filled_rows(t);
    let skip = is_separator_spec(rows[1]);
    let widths = table_widths(rows, cols, skip);
    let p = pad_table_spec(t);
    let avoid = x != '|' && x != ' ' && x != ':' && x != '-' && forall|i: int| 0 <= i < t.len() ==> no_sep(
        #[trigger] t[i],
        x,
    );
    // The parsed cells.
    assert forall|i: int| 0 <= i < n implies (#[trigger] parsed[i]).len() >= 1 && (forall|j: int|
        0 <= j < parsed[i].len() ==> clean(#[trigger] parsed[i][j]) && no_sep(parsed[i][j], '|')) && (avoid
        ==> forall|j: int| 0 <= j < parsed[i].len() ==> no_sep(#[trigger] parsed[i][j], x)) by {
        assert(parse_row_spec(t[i]) is Some);
        lemma_parsed_cells(t[i], x);
        assert(parsed[i] == parse_row_spec(t[i])->0);
    }
    lemma_max_cols(parsed, n);
    assert(cols >= 1) by {
        assert(parsed[0].len() <= cols);
    }
    // The filled rows.
    assert forall|i: int| 0 <= i < n implies (#[trigger] rows[i]).len() == cols && (forall|j: int|
        0 <= j < cols ==> clean(#[trigger] rows[i][j]) && no_sep(rows[i][j], '|')) && (avoid ==> forall|j: int|
        0 <= j < cols ==> no_sep(#[trigger] rows[i][j], x)) by {
        assert(rows[i] == fill_row(parsed[i], cols));
        assert(parsed[i].len() <= cols);
        assert forall|j: int| 0 <= j < cols implies clean(#[trigger] rows[i][j]) && no_sep(rows[i][j], '|') && (avoid
            ==> no_sep(rows[i][j], x)) by {
            if j < parsed[i].len() {
                assert(rows[i][j] == parsed[i][j]);
            } else {
                assert(rows[i][j] == Seq::<char>::empty());
            }
        }
    }
    // What the padded lines parse to.
    let f = fmt_row(rows[1], widths, cols);
    let r2 = Seq::new(n as nat, |i: int| if i == 1 && skip { f } else { rows[i] });
    assert forall|j: int| 0 <= j < cols implies clean(#[trigger] f[j]) && no_sep(f[j], '|') && sep_cell(f[j]) by {
        lemma_format(rows[1][j], widths[j]);
    }
    assert forall|i: int| 0 <= i < n implies parse_row_spec(#[trigger] p[i]) == Some(r2[i]) by {
        if i == 1 && skip {
            lemma_sep_as_row(rows[1], widths, cols);
            lemma_parse_render(f, lens(f), cols);
            assert(f.take(cols) =~= f);
        } else {
            lemma_parse_render(rows[i], widths, cols);
            assert(rows[i].take(cols) =~= rows[i]);
        }
    }
    assert(all_parse(p));
    assert(rows_spec(p) =~= r2);
    assert forall|i: int| 0 <= i < n implies (#[trigger] r2[i]).len() == cols by {}
    lemma_max_cols_uniform(r2, n, cols);
    assert forall|i: int| 0 <= i < n implies fill_row(#[trigger] r2[i], cols) == r2[i] by {
        assert(fill_row(r2[i], cols) =~= r2[i]);
    }
    assert(filled_rows(p) =~= r2);
    let skip2 = is_separator_spec(r2[1]);
    assert(skip2 == skip) by {
        if skip {
            assert(r2[1] == f);
        } else {
            assert(r2[1] == rows[1]);
        }
    }
    let widths2 = table_widths(r2, cols, skip2);
    assert forall|j: int| 0 <= j < cols implies col_width(r2, j, skip, n) == col_width(rows, j, skip, n) by {
        lemma_col_width_agree(r2, rows, j, skip, n);
    }
    assert(widths2 =~= widths);
    let p2 = pad_table_spec(p);
    assert forall|i: int| 0 <= i < n implies p2[i] == p[i] by {
        if i == 1 && skip {
            assert forall|j: int| 0 <= j < cols implies format_separator_spec(f[j], widths[j])
                == format_separator_spec(rows[1][j], widths[j]) by {
                lemma_format(rows[1][j], widths[j]);
            }
            lemma_sep_row_same(f, rows[1], widths, cols);
        }
    }
    assert(p2 =~= p);
    if avoid {
        assert forall|i: int| 0 <= i < n implies no_sep(#[trigger] p[i], x) by {
            if i == 1 && skip {
                lemma_sep_as_row(rows[1], widths, cols);
                assert forall|j: int| 0 <= j < cols implies no_sep(#[trigger] f[j], x) by {
                    lemma_format(rows[1][j], widths[j]);
                }
                lemma_render_avoids(f, lens(f), cols, x);
            } else {
                lemma_render_avoids(rows[i], widths, cols, x);
            }
        }
    }
}

/// The length of a row rendered at the given column widths.
pub open spec fn row_len(widths: Seq<int>, k: int) -> int
    decreases k,
{
    if k <= 0 {
        1
    } else {
        row_len(widths, k - 1) + widths[k - 1] + 3
    }
}

proof fn lemma_render_shape(row: Seq<Seq<char>>, widths: Seq<int>, k: int)
    requires
        0 <= k <= row.len(),
        k <= widths.len(),
        forall|j: int| 0 <= j < k ==> (#[trigger] row[j]).len() <= widths[j],
    ensures
        render_row(row, widths, k).len() == row_len(widths, k),
        render_row(row, widths, k)[0] == '|',
        render_row(row, widths, k).last() == '|',
    decreases k,
{
    if k > 0 {
        lemma_render_shape(row, widths, k - 1);
        let prev = render_row(row, widths, k - 1);
        let r = render_row(row, widths, k);
        assert(r == prev + seq![' '] + row[k - 1] + repeat(' ', widths[k - 1] - row[k - 1].len()) + seq![' ', '|']);
        assert(r[0] == prev[0]);
    }
}

/// A padded table is a block of rows of one length, each starting and
/// ending with `|`, with every column at least three characters wide:
/// all rows render at the same column widths, every cell fits its
/// column, and a separator cell is re-rendered to the width of its
/// column.
pub proof fn lemma_pad_table_shape(t: Seq<Seq<char>>)
    requires
        all_parse(t),
        t.len() >= 2,
    ensures
        ({
            let p = pad_table_spec(t);
            let rows = filled_rows(t);
            let cols = max_cols(rows_spec(t), t.len() as int);
            let widths = table_widths(rows, cols, is_separator_spec(rows[1]));
            &&& forall|j: int| 0 <= j < cols ==> #[trigger] widths[j] >= 3
            &&& forall|i: int| 0 <= i < p.len() ==> (#[trigger] p[i]).len() == row_len(widths, cols)
            &&& forall|i: int| 0 <= i < p.len() ==> (#[trigger] p[i])[0] == '|' && p[i].last() == '|'
        }),
{
    let n = t.len() as int;
    let parsed = rows_spec(t);
    let cols = max_cols(parsed, n);
    let rows = filled_rows(t);
    let skip = is_separator_spec(rows[1]);
    let widths = table_widths(rows, cols, skip);
    let p = pad_table_spec(t);
    crate::tables::lemma_rows_within_cols(parsed, n);
    assert forall|i: int| 0 <= i < n implies (#[trigger] rows[i]).len() == cols by {
        assert(rows[i] == fill_row(parsed[i], cols));
        assert(parsed[i].len() <= cols);
    }
    assert forall|i: int| 0 <= i < n implies (#[trigger] p[i]).len() == row_len(widths, cols) && p[i][0] == '|'
        && p[i].last() == '|' by {
        if i == 1 && skip {
            let f = fmt_row(rows[1], widths, cols);
            lemma_sep_as_row(rows[1], widths, cols);
            assert forall|j: int| 0 <= j < cols implies (#[trigger] f[j]).len() <= lens(f)[j] by {}
            lemma_render_shape(f, lens(f), cols);
            assert forall|j: int| 0 <= j < cols implies lens(f)[j] == widths[j] by {
                assert(f[j] == format_separator_spec(rows[1][j], widths[j]));
            }
            lemma_row_len_agree(lens(f), widths, cols);
        } else {
            assert forall|j: int| 0 <= j < cols implies (#[trigger] rows[i][j]).len() <= widths[j] by {
                lemma_col_width(rows, j, skip, n);
                assert(rows[i][j].len() <= col_width(rows, j, skip, n));
            }
            lemma_render_shape(rows[i], widths, cols);
        }
    }
}

proof fn lemma_row_len_agree(w1: Seq<int>, w2: Seq<int>, k: int)
    requires
        k <= w1.len(),
        k <= w2.len(),
        forall|j: int| 0 <= j < k ==> w1[j] == w2[j],
    ensures
        row_len(w1, k) == row_len(w2, k),
    decreases k,
{
    if k > 0 {
        lemma_row_len_agree(w1, w2, k - 1);
    }
}

/// A run of table rows, once processed, processes to itself.
proof fn lemma_padded_run_twice(t: Seq<Seq<char>>, x: char)
    requires
        t.len() >= 1,
        all_parse(t),
    ensures
        padded_run(t).len() == t.len(),
        all_parse(padded_run(t)),
        padded_run(padded_run(t)) == padded_run(t),
        (x != '|' && x != ' ' && x != ':' && x != '-' && forall|i: int| 0 <= i < t.len() ==> no_sep(#[trigger] t[i], x))
            ==> forall|i: int| 0 <= i < t.len() ==> no_sep(#[trigger] padded_run(t)[i], x),
{
    if t.len() >= 2 && is_separator_spec(parse_row_spec(t[1])->0) {
        lemma_pad_table_twice(t, x);
    }
}

/// The run of rows from `i` ends at `m` when every line before `m`
/// parses and line `m` does not.
proof fn lemma_table_end_at(s: Seq<Seq<char>>, i: int, m: int)
    requires
        0 <= i <= m <= s.len(),
        forall|k: int| i <= k < m ==> (#[trigger] parse_row_spec(s[k])) is Some,
        m < s.len() ==> parse_row_spec(s[m]) is None,
    ensures
        table_end(s, i) == m,
    decreases m - i,
{
    if i < m {
        lemma_table_end_at(s, i + 1, m);
    }
}

/// The run of rows stops at a line that does not parse.
proof fn lemma_table_end_stop(s: Seq<Seq<char>>, i: int)
    requires
        0 <= i <= s.len(),
    ensures
        table_end(s, i) < s.len() ==> parse_row_spec(s[table_end(s, i)]) is None,
    decreases s.len() - i,
{
    if i < s.len() && parse_row_spec(s[i]) is Some {
        lemma_table_end_stop(s, i + 1);
    }
}

/// Processing from `k` only reads the lines from `k` on.
proof fn lemma_process_suffix(s: Seq<Seq<char>>, k: int, s2: Seq<Seq<char>>, k2: int)
    requires
        0 <= k <= s.len(),
        0 <= k2 <= s2.len(),
        s.subrange(k, s.len() as int) == s2.subrange(k2, s2.len() as int),
    ensures
        process_lines(s, k) == process_lines(s2, k2),
    decreases s.len() - k,
{
    let d = k2 - k;
    let a = s.subrange(k, s.len() as int);
    let b = s2.subrange(k2, s2.len() as int);
    assert(a.len() == s.len() - k);
    assert(b.len() == s2.len() - k2);
    assert(s.len() - k == s2.len() - k2);
    assert forall|m: int| k <= m < s.len() implies s[m] == s2[m + d] by {
        assert(s[m] == s.subrange(k, s.len() as int)[m - k]);
        assert(s2[m + d] == s2.subrange(k2, s2.len() as int)[m - k]);
    }
    if k < s.len() {
        if parse_row_spec(s[k]) is Some {
            let j = table_end(s, k);
            lemma_table_end(s, k);
            lemma_table_end_stop(s, k);
            assert forall|m: int| k2 <= m < j + d implies (#[trigger] parse_row_spec(s2[m])) is Some by {
                assert(s2[m] == s[m - d]);
                assert(parse_row_spec(s[m - d]) is Some);
            }
            if j + d < s2.len() {
                assert(s2[j + d] == s[j]);
            }
            lemma_table_end_at(s2, k2, j + d);
            assert(s.subrange(k, j) =~= s2.subrange(k2, j + d));
            assert(s.subrange(j, s.len() as int) =~= s2.subrange(j + d, s2.len() as int));
            lemma_process_suffix(s, j, s2, j + d);
        } else {
            assert(s.subrange(k + 1, s.len() as int) =~= s2.subrange(k2 + 1, s2.len() as int));
            lemma_process_suffix(s, k + 1, s2, k2 + 1);
        }
    }
}

/// The lines from `i` on, processed once, process to themselves; they
/// keep their number and avoid what the lines avoid (other than `|`,
/// space, `:` and `-`).
proof fn lemma_process_twice(lines: Seq<Seq<char>>, i: int, x: char)
    requires
        0 <= i <= lines.len(),
    ensures
        process_lines(lines, i).len() == lines.len() - i,
        process_lines(process_lines(lines, i), 0) == process_lines(lines, i),
        (x != '|' && x != ' ' && x != ':' && x != '-' && forall|k: int| 0 <= k < lines.len() ==> no_sep(
            #[trigger] lines[k],
            x,
        )) ==> forall|k: int|
            0 <= k < process_lines(lines, i).len() ==> no_sep(#[trigger] process_lines(lines, i)[k], x),
    decreases lines.len() - i,
{
    let q = process_lines(lines, i);
    if i >= lines.len() {
        assert(q =~= Seq::<Seq<char>>::empty());
    } else if parse_row_spec(lines[i]) is Some {
        let j = table_end(lines, i);
        lemma_table_end(lines, i);
        lemma_table_end_stop(lines, i);
        let run = lines.subrange(i, j);
        assert(all_parse(run)) by {
            assert forall|k: int| 0 <= k < run.len() implies (#[trigger] parse_row_spec(run[k])) is Some by {
                assert(run[k] == lines[i + k]);
            }
        }
        lemma_padded_run_twice(run, x);
        let pr = padded_run(run);
        let rest = process_lines(lines, j);
        lemma_process_twice(lines, j, x);
        assert(q == pr + rest);
        if j < lines.len() {
            assert(parse_row_spec(lines[j]) is None);
            assert(rest == seq![lines[j]] + process_lines(lines, j + 1));
            assert(rest[0] == lines[j]);
        }
        assert forall|k: int| 0 <= k < pr.len() implies (#[trigger] parse_row_spec(q[k])) is Some by {
            assert(q[k] == pr[k]);
        }
        if j < lines.len() {
            assert(q[j - i] == rest[0]);
        }
        lemma_table_end_at(q, 0, j - i);
        assert(q.subrange(0, j - i) =~= pr);
        assert(q.subrange(j - i, q.len() as int) =~= rest.subrange(0, rest.len() as int));
        lemma_process_suffix(q, j - i, rest, 0);
        assert(process_lines(q, 0) == padded_run(pr) + process_lines(q, j - i));
        assert(process_lines(q, 0) =~= q);
        if x != '|' && x != ' ' && x != ':' && x != '-' && forall|k: int| 0 <= k < lines.len() ==> no_sep(
            #[trigger] lines[k],
            x,
        ) {
            assert forall|k: int| 0 <= k < run.len() implies no_sep(#[trigger] run[k], x) by {
                assert(run[k] == lines[i + k]);
            }
            assert forall|k: int| 0 <= k < q.len() implies no_sep(#[trigger] q[k], x) by {
                if k < pr.len() {
                    assert(q[k] == pr[k]);
                } else {
                    assert(q[k] == rest[k - pr.len()]);
                }
            }
        }
    } else {
        let rest = process_lines(lines, i + 1);
        lemma_process_twice(lines, i + 1, x);
        assert(q == seq![lines[i]] + rest);
        assert(q[0] == lines[i]);
        assert(q.subrange(1, q.len() as int) =~= rest.subrange(0, rest.len() as int));
        lemma_process_suffix(q, 1, rest, 0);
        assert(process_lines(q, 0) == seq![q[0]] + process_lines(q, 1));
        assert(process_lines(q, 0) =~= q);
        if x != '|' && x != ' ' && x != ':' && x != '-' && forall|k: int| 0 <= k < lines.len() ==> no_sep(
            #[trigger] lines[k],
            x,
        ) {
            assert forall|k: int| 0 <= k < q.len() implies no_sep(#[trigger] q[k], x) by {
                if k > 0 {
                    assert(q[k] == rest[k - 1]);
                }
            }
        }
    }
}

/// Padding is idempotent: a document that padding changed pads to
/// itself, so a second run changes nothing.
pub proof fn lemma_pad_document_idempotent(content: Seq<char>)
    ensures
        pad_document_spec(content) matches Some(d) ==> pad_document_spec(d) is None,
{
    let lines = split_on(content, '\n');
    lemma_split_pieces(content, '\n');
    let out = process_lines(lines, 0);
    lemma_process_twice(lines, 0, '\n');
    if pad_document_spec(content) is Some {
        let d = join_on(out, '\n');
        lemma_split_join(out, '\n');
        assert(split_on(d, '\n') == out);
    }
}

} // verus!
