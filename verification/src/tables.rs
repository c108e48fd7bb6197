//! Padding Markdown tables so every column lines up.
//!
//! A table is a run of lines that each look like `| a | b |`, at least
//! two long, whose second line is a separator row (`| --- | :-: |`).
//! Each column is padded to its widest cell (at least 3 characters),
//! counted in characters; separator cells keep their alignment colons.

use vstd::prelude::*;
use crate::text::{join_on, split_at_char, split_on, to_owned_string};

verus! {

// =====================================================================
// Whitespace and trimming
// =====================================================================

/// Unicode `White_Space`, as `char::is_whitespace` tests it.
pub open spec fn is_ws(c: char) -> bool {
    ||| c == ' ' || c == '\t' || c == '\n' || c == '\u{0B}' || c == '\u{0C}' || c == '\r'
    ||| c == '\u{85}' || c == '\u{A0}' || c == '\u{1680}'
    ||| ('\u{2000}' <= c && c <= '\u{200A}')
    ||| c == '\u{2028}' || c == '\u{2029}' || c == '\u{202F}' || c == '\u{205F}' || c == '\u{3000}'
}

fn is_ws_exec(c: char) -> (r: bool)
    ensures
        r == is_ws(c),
{
    c == ' ' || c == '\t' || c == '\n' || c == '\u{0B}' || c == '\u{0C}' || c == '\r' || c == '\u{85}'
        || c == '\u{A0}' || c == '\u{1680}' || ('\u{2000}' <= c && c <= '\u{200A}') || c == '\u{2028}'
        || c == '\u{2029}' || c == '\u{202F}' || c == '\u{205F}' || c == '\u{3000}'
}

/// Where the leading whitespace of `s`, from `i` on, ends.
pub open spec fn lead_from(s: Seq<char>, i: int) -> int
    decreases s.len() - i,
{
    if 0 <= i < s.len() && is_ws(s[i]) {
        lead_from(s, i + 1)
    } else {
        i
    }
}

/// Where the trailing whitespace of `s[lo..j]` begins.
pub open spec fn trail_from(s: Seq<char>, lo: int, j: int) -> int
    decreases j - lo,
{
    if lo < j && j <= s.len() && is_ws(s[j - 1]) {
        trail_from(s, lo, j - 1)
    } else {
        j
    }
}

/// `s` without its leading and trailing whitespace, as `str::trim`.
pub open spec fn trim_spec(s: Seq<char>) -> Seq<char> {
    let lo = lead_from(s, 0);
    s.subrange(lo, trail_from(s, lo, s.len() as int))
}

pub proof fn lemma_lead_from(s: Seq<char>, i: int)
    requires
        0 <= i <= s.len(),
    ensures
        i <= lead_from(s, i) <= s.len(),
    decreases s.len() - i,
{
    if i < s.len() && is_ws(s[i]) {
        lemma_lead_from(s, i + 1);
    }
}

pub proof fn lemma_trail_from(s: Seq<char>, lo: int, j: int)
    requires
        0 <= lo <= j <= s.len(),
    ensures
        lo <= trail_from(s, lo, j) <= j,
    decreases j - lo,
{
    if lo < j && is_ws(s[j - 1]) {
        lemma_trail_from(s, lo, j - 1);
    }
}

/// `s` with leading and trailing whitespace removed.
pub fn trim(s: &str) -> (r: &str)
    ensures
        r@ == trim_spec(s@),
{
    let n = s.unicode_len();
    let mut i: usize = 0;
    while i < n && is_ws_exec(s.get_char(i))
        invariant
            n == s@.len(),
            i <= n,
            lead_from(s@, i as int) == lead_from(s@, 0),
        decreases n - i,
    {
        i = i + 1;
    }
    let mut j: usize = n;
    while j > i && is_ws_exec(s.get_char(j - 1))
        invariant
            n == s@.len(),
            i <= j <= n,
            i == lead_from(s@, 0),
            trail_from(s@, i as int, j as int) == trail_from(s@, i as int, n as int),
        decreases j,
    {
        j = j - 1;
    }
    s.substring_char(i, j)
}

// =====================================================================
// Rows and cells
// =====================================================================

/// The trimmed cells of a table row, or `None` when the trimmed line is
/// not `|...|`.
pub open spec fn parse_row_spec(line: Seq<char>) -> Option<Seq<Seq<char>>> {
    let t = trim_spec(line);
    if t.len() >= 2 && t[0] == '|' && t.last() == '|' {
        Some(split_on(t.subrange(1, t.len() - 1), '|').map_values(|c: Seq<char>| trim_spec(c)))
    } else {
        None
    }
}

/// The views of a list of strings.
pub open spec fn strs(v: Seq<String>) -> Seq<Seq<char>> {
    v.map_values(|s: String| s@)
}

/// Split a table row into its trimmed cells; `None` if the line (once
/// trimmed) does not start and end with `|`.
pub fn parse_row(line: &str) -> (r: Option<Vec<String>>)
    ensures
        match r {
            Some(cells) => parse_row_spec(line@) == Some(strs(cells@)),
            None => parse_row_spec(line@) is None,
        },
{
    let t = trim(line);
    let n = t.unicode_len();
    if n < 2 || t.get_char(0) != '|' || t.get_char(n - 1) != '|' {
        return None;
    }
    let inner = t.substring_char(1, n - 1);
    let pieces = split_at_char(inner, '|');
    let ghost sp = split_on(inner@, '|');
    let mut cells: Vec<String> = Vec::new();
    let mut k: usize = 0;
    while k < pieces.len()
        invariant
            k <= pieces@.len(),
            pieces@.len() == sp.len(),
            forall|m: int| 0 <= m < pieces@.len() ==> (#[trigger] pieces@[m])@ == sp[m],
            strs(cells@) == sp.take(k as int).map_values(|c: Seq<char>| trim_spec(c)),
        decreases pieces@.len() - k,
    {
        let c = to_owned_string(trim(pieces[k]));
        assert(pieces@[k as int]@ == sp[k as int]);
        let ghost prev = strs(cells@);
        let ghost cv = c@;
        cells.push(c);
        assert(strs(cells@) =~= prev.push(cv));
        assert(sp.take(k + 1) =~= sp.take(k as int).push(sp[k as int]));
        assert(sp.take(k + 1).map_values(|c: Seq<char>| trim_spec(c)) =~= sp.take(k as int).map_values(
            |c: Seq<char>| trim_spec(c),
        ).push(trim_spec(sp[k as int])));
        k = k + 1;
    }
    assert(sp.take(sp.len() as int) =~= sp);
    Some(cells)
}

/// A separator cell's body: the cell without a leading `:`.
pub open spec fn sep_body(c: Seq<char>) -> Seq<char> {
    if c.len() > 0 && c[0] == ':' {
        c.drop_first()
    } else {
        c
    }
}

/// A `-`, more `-`, and an optional closing `:`.
pub open spec fn dash_run(b: Seq<char>) -> bool {
    &&& b.len() >= 1
    &&& b[0] == '-'
    &&& forall|k: int| 1 <= k < b.len() - 1 ==> b[k] == '-'
    &&& b.len() >= 2 ==> (b.last() == '-' || b.last() == ':')
}

/// A separator cell: an optional `:`, a `-`, more `-`, and an optional
/// closing `:`.
pub open spec fn sep_cell(c: Seq<char>) -> bool {
    dash_run(sep_body(c))
}

/// A separator row: at least one cell, every cell a separator cell.
pub open spec fn is_separator_spec(cells: Seq<Seq<char>>) -> bool {
    cells.len() > 0 && forall|i: int| 0 <= i < cells.len() ==> sep_cell(#[trigger] cells[i])
}

fn is_sep_cell(c: &str) -> (r: bool)
    ensures
        r == sep_cell(c@),
{
    let n = c.unicode_len();
    let start: usize = if n > 0 && c.get_char(0) == ':' {
        1
    } else {
        0
    };
    let ghost body = sep_body(c@);
    assert(body =~= c@.subrange(start as int, n as int));
    if start >= n || c.get_char(start) != '-' {
        return false;
    }
    let blen = n - start;
    let mut m: usize = 1;
    while m < blen - 1
        invariant
            n == c@.len(),
            start < n,
            blen == n - start,
            1 <= m <= blen,
            body == sep_body(c@),
            body =~= c@.subrange(start as int, n as int),
            forall|k: int| 1 <= k < m ==> body[k] == '-',
        decreases blen - m,
    {
        if c.get_char(start + m) != '-' {
            assert(body[m as int] != '-');
            assert(1 <= m < body.len() - 1);
            assert(!dash_run(body));
            assert(!sep_cell(c@));
            return false;
        }
        m = m + 1;
    }
    if blen >= 2 {
        let l = c.get_char(n - 1);
        assert(body.last() == l);
        l == '-' || l == ':'
    } else {
        true
    }
}

/// Whether a row's cells form a separator row.
pub fn is_separator(cells: &[String]) -> (r: bool)
    ensures
        r == is_separator_spec(strs(cells@)),
{
    if cells.len() == 0 {
        return false;
    }
    let mut i: usize = 0;
    while i < cells.len()
        invariant
            i <= cells@.len(),
            forall|m: int| 0 <= m < i ==> sep_cell(#[trigger] strs(cells@)[m]),
        decreases cells@.len() - i,
    {
        assert(strs(cells@)[i as int] == cells@[i as int]@);
        if !is_sep_cell(cells[i].as_str()) {
            return false;
        }
        i = i + 1;
    }
    true
}

/// The width of a cell, in characters.
pub fn visual_width(s: &str) -> (r: usize)
    ensures
        r == s@.len(),
{
    s.unicode_len()
}

/// `n` copies of `c`.
pub open spec fn repeat(c: char, n: int) -> Seq<char> {
    Seq::new(if n > 0 { n as nat } else { 0 }, |_i: int| c)
}

/// A separator cell of the given width that keeps the given
/// cell's alignment colons; at least one `-`.
pub open spec fn format_separator_spec(cell: Seq<char>, width: int) -> Seq<char> {
    let left = cell.len() > 0 && cell[0] == ':';
    let right = cell.len() > 0 && cell.last() == ':';
    let colons = (if left { 1int } else { 0 }) + (if right { 1int } else { 0 });
    let dashes = if width > colons { width - colons } else { 1 };
    (if left { seq![':'] } else { Seq::empty() }) + repeat('-', dashes) + (if right { seq![':'] } else { Seq::empty() })
}

fn push_repeat(s: &mut String, c: &str, n: usize)
    requires
        c@.len() == 1,
    ensures
        final(s)@ == old(s)@ + repeat(c@[0], n as int),
{
    let mut k: usize = 0;
    while k < n
        invariant
            k <= n,
            c@.len() == 1,
            s@ == old(s)@ + repeat(c@[0], k as int),
        decreases n - k,
    {
        s.append(c);
        assert(repeat(c@[0], k + 1) =~= repeat(c@[0], k as int) + c@);
        assert(old(s)@ + repeat(c@[0], k + 1) =~= old(s)@ + repeat(c@[0], k as int) + c@);
        k = k + 1;
    }
}

/// Render a separator cell at the given width.
pub fn format_separator_cell(cell: &str, width: usize) -> (r: String)
    ensures
        r@ == format_separator_spec(cell@, width as int),
{
    let n = cell.unicode_len();
    let left = n > 0 && cell.get_char(0) == ':';
    let right = n > 0 && cell.get_char(n - 1) == ':';
    let colons: usize = (if left { 1 } else { 0 }) + (if right { 1 } else { 0 });
    let dashes = if width > colons {
        width - colons
    } else {
        1
    };
    proof {
        reveal_strlit(":");
        reveal_strlit("-");
    }
    let mut s = String::new();
    if left {
        s.append(":");
    }
    let ghost prefix = s@;
    push_repeat(&mut s, "-", dashes);
    if right {
        s.append(":");
    }
    assert(s@ =~= format_separator_spec(cell@, width as int));
    s
}

// =====================================================================
// Padding a table
// =====================================================================

/// The rows of a table whose lines all parse.
pub open spec fn rows_spec(lines: Seq<Seq<char>>) -> Seq<Seq<Seq<char>>> {
    lines.map_values(|l: Seq<char>| parse_row_spec(l)->0)
}

pub open spec fn all_parse(lines: Seq<Seq<char>>) -> bool {
    forall|i: int| 0 <= i < lines.len() ==> (#[trigger] parse_row_spec(lines[i])) is Some
}

/// The most cells in any of the first `n` rows.
pub open spec fn max_cols(rows: Seq<Seq<Seq<char>>>, n: int) -> int
    decreases n,
{
    if n <= 0 {
        0
    } else {
        let m = max_cols(rows, n - 1);
        if rows[n - 1].len() > m {
            rows[n - 1].len() as int
        } else {
            m
        }
    }
}

/// A row filled up with empty cells to `cols` cells.
pub open spec fn fill_row(row: Seq<Seq<char>>, cols: int) -> Seq<Seq<char>> {
    row + Seq::new(if cols > row.len() { (cols - row.len()) as nat } else { 0 }, |_i: int| Seq::<char>::empty())
}

/// The widest cell of column `j` over the first `n` rows, skipping row 1
/// when it is a separator row.
pub open spec fn col_width(rows: Seq<Seq<Seq<char>>>, j: int, skip_sep: bool, n: int) -> int
    decreases n,
{
    if n <= 0 {
        0
    } else {
        let w = col_width(rows, j, skip_sep, n - 1);
        if n - 1 == 1 && skip_sep {
            w
        } else if rows[n - 1][j].len() > w {
            rows[n - 1][j].len() as int
        } else {
            w
        }
    }
}

/// A content row: ` cell` padded to the column width, then ` |`, after a
/// leading `|`.
pub open spec fn render_row(row: Seq<Seq<char>>, widths: Seq<int>, k: int) -> Seq<char>
    decreases k,
{
    if k <= 0 {
        seq!['|']
    } else {
        render_row(row, widths, k - 1) + seq![' '] + row[k - 1] + repeat(' ', widths[k - 1] - row[k - 1].len())
            + seq![' ', '|']
    }
}

/// A separator row, each cell re-rendered at the column width.
pub open spec fn render_sep_row(row: Seq<Seq<char>>, widths: Seq<int>, k: int) -> Seq<char>
    decreases k,
{
    if k <= 0 {
        seq!['|']
    } else {
        render_sep_row(row, widths, k - 1) + seq![' '] + format_separator_spec(row[k - 1], widths[k - 1]) + seq![
            ' ',
            '|',
        ]
    }
}

/// The parsed rows, each filled up to the widest row.
pub open spec fn filled_rows(lines: Seq<Seq<char>>) -> Seq<Seq<Seq<char>>> {
    let parsed = rows_spec(lines);
    parsed.map_values(|r: Seq<Seq<char>>| fill_row(r, max_cols(parsed, parsed.len() as int)))
}

/// Column widths: the widest cell of each column, at least 3.
pub open spec fn table_widths(rows: Seq<Seq<Seq<char>>>, cols: int, skip_sep: bool) -> Seq<int> {
    Seq::new(
        cols as nat,
        |j: int|
            if col_width(rows, j, skip_sep, rows.len() as int) < 3 {
                3
            } else {
                col_width(rows, j, skip_sep, rows.len() as int)
            },
    )
}

/// The padded lines of a table; the lines unchanged when one does not
/// parse as a row or there are fewer than two.
pub open spec fn pad_table_spec(lines: Seq<Seq<char>>) -> Seq<Seq<char>> {
    if !all_parse(lines) || lines.len() < 2 {
        lines
    } else {
        let rows = filled_rows(lines);
        let cols = max_cols(rows_spec(lines), lines.len() as int);
        let skip_sep = is_separator_spec(rows[1]);
        let widths = table_widths(rows, cols, skip_sep);
        Seq::new(
            rows.len(),
            |i: int|
                if i == 1 && skip_sep {
                    render_sep_row(rows[i], widths, cols)
                } else {
                    render_row(rows[i], widths, cols)
                },
        )
    }
}

/// The views of a list of `str` lines.
pub open spec fn line_views(x: Seq<&str>) -> Seq<Seq<char>> {
    x.map_values(|p: &str| p@)
}

proof fn lemma_max_cols(rows: Seq<Seq<Seq<char>>>, n: int)
    requires
        0 <= n <= rows.len(),
    ensures
        max_cols(rows, n) >= 0,
        forall|i: int| 0 <= i < n ==> (#[trigger] rows[i]).len() <= max_cols(rows, n),
        n > 0 ==> exists|i: int| 0 <= i < n && rows[i].len() == max_cols(rows, n),
    decreases n,
{
    if n > 0 {
        lemma_max_cols(rows, n - 1);
        if n - 1 > 0 && rows[n - 1].len() <= max_cols(rows, n - 1) {
            let i = choose|i: int| 0 <= i < n - 1 && rows[i].len() == max_cols(rows, n - 1);
            assert(rows[i].len() == max_cols(rows, n));
        }
    }
}

/// The row counts of the first `n` rows are at most `max_cols`.
pub proof fn lemma_rows_within_cols(rows: Seq<Seq<Seq<char>>>, n: int)
    requires
        0 <= n <= rows.len(),
    ensures
        forall|i: int| 0 <= i < n ==> (#[trigger] rows[i]).len() <= max_cols(rows, n),
{
    lemma_max_cols(rows, n);
}

pub proof fn lemma_col_width(rows: Seq<Seq<Seq<char>>>, j: int, skip_sep: bool, n: int)
    requires
        0 <= n <= rows.len(),
    ensures
        col_width(rows, j, skip_sep, n) >= 0,
        forall|i: int|
            0 <= i < n && !(i == 1 && skip_sep) ==> (#[trigger] rows[i])[j].len() <= col_width(rows, j, skip_sep, n),
        n > 0 && col_width(rows, j, skip_sep, n) > 0 ==> exists|i: int|
            0 <= i < n && !(i == 1 && skip_sep) && rows[i][j].len() == col_width(rows, j, skip_sep, n),
    decreases n,
{
    if n > 0 {
        lemma_col_width(rows, j, skip_sep, n - 1);
    }
}

fn copy_lines(lines: &[&str]) -> (r: Vec<String>)
    ensures
        strs(r@) == line_views(lines@),
{
    let mut out: Vec<String> = Vec::new();
    let mut i: usize = 0;
    while i < lines.len()
        invariant
            i <= lines@.len(),
            strs(out@) == line_views(lines@).take(i as int),
        decreases lines@.len() - i,
    {
        let ghost prev = strs(out@);
        out.push(to_owned_string(lines[i]));
        assert(strs(out@) =~= prev.push(lines@[i as int]@));
        assert(line_views(lines@).take(i + 1) =~= line_views(lines@).take(i as int).push(lines@[i as int]@));
        i = i + 1;
    }
    assert(line_views(lines@).take(lines@.len() as int) =~= line_views(lines@));
    out
}

/// Pad the cells of a table so each column has one width. Lines are
/// returned unchanged when one does not parse as a row or when there
/// are fewer than two.
pub fn pad_table(lines: &[&str]) -> (r: Vec<String>)
    ensures
        strs(r@) == pad_table_spec(line_views(lines@)),
{
    let ghost lv = line_views(lines@);
    let mut rows: Vec<Vec<String>> = Vec::new();
    let mut i: usize = 0;
    while i < lines.len()
        invariant
            i <= lines@.len(),
            lv == line_views(lines@),
            rows@.len() == i,
            forall|m: int| 0 <= m < i ==> (#[trigger] parse_row_spec(lv[m])) is Some,
            forall|m: int| 0 <= m < i ==> strs((#[trigger] rows@[m])@) == parse_row_spec(lv[m])->0,
        decreases lines@.len() - i,
    {
        assert(lv[i as int] == lines@[i as int]@);
        match parse_row(lines[i]) {
            Some(cells) => {
                rows.push(cells);
            },
            None => {
                return copy_lines(lines);
            },
        }
        i = i + 1;
    }
    if rows.len() < 2 {
        return copy_lines(lines);
    }
    let ghost parsed = rows_spec(lv);
    assert forall|m: int| 0 <= m < rows@.len() implies strs((#[trigger] rows@[m])@) == parsed[m] by {}
    // Widest row.
    let mut cols: usize = 0;
    let mut k: usize = 0;
    while k < rows.len()
        invariant
            k <= rows@.len(),
            parsed.len() == rows@.len(),
            forall|m: int| 0 <= m < rows@.len() ==> strs((#[trigger] rows@[m])@) == parsed[m],
            cols == max_cols(parsed, k as int),
        decreases rows@.len() - k,
    {
        assert(strs(rows@[k as int]@).len() == rows@[k as int]@.len());
        if rows[k].len() > cols {
            cols = rows[k].len();
        }
        k = k + 1;
    }
    let ghost frows = filled_rows(lv);
    // Fill every row up to the widest.
    let mut filled: Vec<Vec<String>> = Vec::new();
    let mut k: usize = 0;
    while k < rows.len()
        invariant
            k <= rows@.len(),
            parsed.len() == rows@.len(),
            parsed == rows_spec(lv),
            frows == filled_rows(lv),
            cols == max_cols(parsed, parsed.len() as int),
            forall|m: int| 0 <= m < rows@.len() ==> strs((#[trigger] rows@[m])@) == parsed[m],
            filled@.len() == k,
            forall|m: int| 0 <= m < k ==> strs((#[trigger] filled@[m])@) == frows[m],
        decreases rows@.len() - k,
    {
        proof {
            lemma_max_cols(parsed, parsed.len() as int);
            assert(parsed[k as int].len() <= cols);
        }
        let mut row: Vec<String> = Vec::new();
        let src = &rows[k];
        let mut c: usize = 0;
        while c < src.len()
            invariant
                c <= src@.len(),
                strs(row@) == strs(src@).take(c as int),
            decreases src@.len() - c,
        {
            let ghost prev = strs(row@);
            row.push(to_owned_string(src[c].as_str()));
            assert(strs(row@) =~= prev.push(src@[c as int]@));
            assert(strs(src@).take(c + 1) =~= strs(src@).take(c as int).push(src@[c as int]@));
            c = c + 1;
        }
        assert(strs(src@).take(src@.len() as int) =~= strs(src@));
        assert(src@.len() == parsed[k as int].len());
        let ghost pk = parsed[k as int];
        assert(strs(row@) =~= fill_row(pk, row@.len() as int));
        while row.len() < cols
            invariant
                pk.len() <= row@.len() <= cols,
                strs(row@) == fill_row(pk, row@.len() as int),
            decreases cols - row@.len(),
        {
            let ghost prev = strs(row@);
            let ghost n = row@.len() as int;
            row.push(String::new());
            assert(strs(row@) =~= prev.push(Seq::<char>::empty()));
            assert(fill_row(pk, n + 1) =~= fill_row(pk, n).push(Seq::<char>::empty()));
        }
        assert(strs(row@) == frows[k as int]);
        filled.push(row);
        k = k + 1;
    }
    proof {
        lemma_max_cols(parsed, parsed.len() as int);
    }
    assert forall|m: int| 0 <= m < frows.len() implies (#[trigger] frows[m]).len() == cols by {
        assert(frows[m] == fill_row(parsed[m], cols as int));
        assert(parsed[m].len() <= cols);
    }
    assert(frows.len() >= 2);
    // Separator row.
    let skip_sep = is_separator(filled[1].as_slice());
    let ghost widths = table_widths(frows, cols as int, skip_sep);
    // Column widths.
    let mut ws: Vec<usize> = Vec::new();
    let mut j: usize = 0;
    while j < cols
        invariant
            j <= cols,
            filled@.len() == frows.len(),
            forall|m: int| 0 <= m < filled@.len() ==> strs((#[trigger] filled@[m])@) == frows[m],
            forall|m: int| 0 <= m < frows.len() ==> (#[trigger] frows[m]).len() == cols,
            frows.len() >= 2,
            skip_sep == is_separator_spec(frows[1]),
            widths == table_widths(frows, cols as int, skip_sep),
            ws@.len() == j,
            forall|m: int| 0 <= m < j ==> ws@[m] == widths[m],
        decreases cols - j,
    {
        let mut w: usize = 0;
        let mut i: usize = 0;
        while i < filled.len()
            invariant
                i <= filled@.len(),
                j < cols,
                filled@.len() == frows.len(),
                forall|m: int| 0 <= m < filled@.len() ==> strs((#[trigger] filled@[m])@) == frows[m],
                forall|m: int| 0 <= m < frows.len() ==> (#[trigger] frows[m]).len() == cols,
                w == col_width(frows, j as int, skip_sep, i as int),
            decreases filled@.len() - i,
        {
            if !(i == 1 && skip_sep) {
                assert(strs(filled@[i as int]@)[j as int] == filled@[i as int]@[j as int]@);
                let len = visual_width(filled[i][j].as_str());
                if len > w {
                    w = len;
                }
            }
            i = i + 1;
        }
        if w < 3 {
            w = 3;
        }
        ws.push(w);
        j = j + 1;
    }
    // Render.
    let mut out: Vec<String> = Vec::new();
    let mut i: usize = 0;
    while i < filled.len()
        invariant
            i <= filled@.len(),
            filled@.len() == frows.len(),
            forall|m: int| 0 <= m < filled@.len() ==> strs((#[trigger] filled@[m])@) == frows[m],
            forall|m: int| 0 <= m < frows.len() ==> (#[trigger] frows[m]).len() == cols,
            frows.len() >= 2,
            skip_sep == is_separator_spec(frows[1]),
            widths == table_widths(frows, cols as int, skip_sep),
            ws@.len() == cols,
            forall|m: int| 0 <= m < cols ==> ws@[m] == widths[m],
            out@.len() == i,
            forall|m: int|
                0 <= m < i ==> (#[trigger] out@[m])@ == (if m == 1 && skip_sep {
                    render_sep_row(frows[m], widths, cols as int)
                } else {
                    render_row(frows[m], widths, cols as int)
                }),
        decreases filled@.len() - i,
    {
        let row = &filled[i];
        let mut line = to_owned_string("|");
        proof {
            reveal_strlit("|");
            reveal_strlit(" ");
            reveal_strlit(" |");
        }
        let sep_line = i == 1 && skip_sep;
        let mut c: usize = 0;
        while c < cols
            invariant
                c <= cols,
                row@.len() == cols,
                strs(row@) == frows[i as int],
                i < frows.len(),
                sep_line == (i == 1 && skip_sep),
                frows.len() >= 2,
            skip_sep == is_separator_spec(frows[1]),
                widths == table_widths(frows, cols as int, skip_sep),
                ws@.len() == cols,
                forall|m: int| 0 <= m < cols ==> ws@[m] == widths[m],
                line@ == (if sep_line {
                    render_sep_row(frows[i as int], widths, c as int)
                } else {
                    render_row(frows[i as int], widths, c as int)
                }),
            decreases cols - c,
        {
            let cell = row[c].as_str();
            assert(cell@ == frows[i as int][c as int]);
            proof {
                reveal_strlit(" ");
                reveal_strlit(" |");
            }
            let ghost before = line@;
            line.append(" ");
            if sep_line {
                let f = format_separator_cell(cell, ws[c]);
                line.append(f.as_str());
            } else {
                proof {
                    lemma_col_width(frows, c as int, skip_sep, frows.len() as int);
                    assert(frows[i as int][c as int].len() <= col_width(frows, c as int, skip_sep, frows.len() as int));
                    assert(widths[c as int] >= col_width(frows, c as int, skip_sep, frows.len() as int));
                    reveal_strlit(" ");
                }
                line.append(cell);
                let len = visual_width(cell);
                push_repeat(&mut line, " ", ws[c] - len);
            }
            line.append(" |");
            proof {
                if sep_line {
                    assert(line@ =~= render_sep_row(frows[i as int], widths, c + 1));
                } else {
                    assert(line@ =~= render_row(frows[i as int], widths, c + 1));
                }
            }
            c = c + 1;
        }
        out.push(line);
        i = i + 1;
    }
    assert(strs(out@) =~= pad_table_spec(lv));
    out
}


// =====================================================================
// Padding every table of a document
// =====================================================================

/// Where the run of table rows starting at line `i` ends.
pub open spec fn table_end(lines: Seq<Seq<char>>, i: int) -> int
    decreases lines.len() - i,
{
    if 0 <= i < lines.len() && parse_row_spec(lines[i]) is Some {
        table_end(lines, i + 1)
    } else {
        i
    }
}

pub proof fn lemma_table_end(lines: Seq<Seq<char>>, i: int)
    requires
        0 <= i <= lines.len(),
    ensures
        i <= table_end(lines, i) <= lines.len(),
        0 <= i < lines.len() && parse_row_spec(lines[i]) is Some ==> table_end(lines, i) > i,
        forall|k: int| i <= k < table_end(lines, i) ==> (#[trigger] parse_row_spec(lines[k])) is Some,
    decreases lines.len() - i,
{
    if i < lines.len() && parse_row_spec(lines[i]) is Some {
        lemma_table_end(lines, i + 1);
    }
}

/// A run of table rows, padded when it has at least two rows and its
/// second row is a separator row.
pub open spec fn padded_run(t: Seq<Seq<char>>) -> Seq<Seq<char>> {
    if t.len() >= 2 && is_separator_spec(parse_row_spec(t[1])->0) {
        pad_table_spec(t)
    } else {
        t
    }
}

/// The lines from `i` on, with every table padded.
pub open spec fn process_lines(lines: Seq<Seq<char>>, i: int) -> Seq<Seq<char>>
    decreases lines.len() - i,
{
    if i < 0 || i >= lines.len() {
        Seq::empty()
    } else if parse_row_spec(lines[i]) is Some {
        let j = table_end(lines, i);
        proof {
            lemma_table_end(lines, i);
        }
        padded_run(lines.subrange(i, j)) + process_lines(lines, j)
    } else {
        seq![lines[i]] + process_lines(lines, i + 1)
    }
}

/// The padded document, or `None` when padding changes no line.
pub open spec fn pad_document_spec(content: Seq<char>) -> Option<Seq<char>> {
    let lines = split_on(content, '\n');
    let out = process_lines(lines, 0);
    if out == lines {
        None
    } else {
        Some(join_on(out, '\n'))
    }
}

proof fn lemma_pad_table_len(t: Seq<Seq<char>>)
    ensures
        pad_table_spec(t).len() == t.len(),
{
}

proof fn lemma_concat_eq(a: Seq<Seq<char>>, b: Seq<Seq<char>>, c: Seq<Seq<char>>, d: Seq<Seq<char>>)
    requires
        a.len() == c.len(),
        b.len() == d.len(),
    ensures
        (a + b == c + d) == (a == c && b == d),
{
    if a + b == c + d {
        assert(a =~= (a + b).subrange(0, a.len() as int));
        assert(c =~= (c + d).subrange(0, c.len() as int));
        assert(b =~= (a + b).subrange(a.len() as int, (a + b).len() as int));
        assert(d =~= (c + d).subrange(c.len() as int, (c + d).len() as int));
    }
}

fn push_copies(out: &mut Vec<String>, t: &[&str])
    ensures
        strs(final(out)@) == strs(old(out)@) + line_views(t@),
{
    let mut k: usize = 0;
    while k < t.len()
        invariant
            k <= t@.len(),
            strs(out@) == strs(old(out)@) + line_views(t@).take(k as int),
        decreases t@.len() - k,
    {
        let ghost prev = strs(out@);
        out.push(to_owned_string(t[k]));
        assert(strs(out@) =~= prev.push(t@[k as int]@));
        assert(line_views(t@).take(k + 1) =~= line_views(t@).take(k as int).push(t@[k as int]@));
        k = k + 1;
    }
    assert(line_views(t@).take(t@.len() as int) =~= line_views(t@));
}

fn refs_of(v: &Vec<String>) -> (r: Vec<&str>)
    ensures
        line_views(r@) == strs(v@),
{
    let mut refs: Vec<&str> = Vec::new();
    let mut k: usize = 0;
    while k < v.len()
        invariant
            k <= v@.len(),
            line_views(refs@) == strs(v@).take(k as int),
        decreases v@.len() - k,
    {
        let ghost prev = line_views(refs@);
        refs.push(v[k].as_str());
        assert(line_views(refs@) =~= prev.push(v@[k as int]@));
        assert(strs(v@).take(k + 1) =~= strs(v@).take(k as int).push(v@[k as int]@));
        k = k + 1;
    }
    assert(strs(v@).take(v@.len() as int) =~= strs(v@));
    refs
}

/// Whether two lists of lines differ.
fn lines_differ(a: &Vec<String>, b: &[&str]) -> (r: bool)
    requires
        a@.len() == b@.len(),
    ensures
        r == (strs(a@) != line_views(b@)),
{
    let mut k: usize = 0;
    while k < a.len()
        invariant
            k <= a@.len(),
            a@.len() == b@.len(),
            strs(a@).take(k as int) == line_views(b@).take(k as int),
        decreases a@.len() - k,
    {
        assert(strs(a@)[k as int] == a@[k as int]@);
        assert(line_views(b@)[k as int] == b@[k as int]@);
        if !crate::text::str_eq(a[k].as_str(), b[k]) {
            assert(strs(a@)[k as int] != line_views(b@)[k as int]);
            return true;
        }
        assert(strs(a@).take(k + 1) =~= strs(a@).take(k as int).push(strs(a@)[k as int]));
        assert(line_views(b@).take(k + 1) =~= line_views(b@).take(k as int).push(line_views(b@)[k as int]));
        k = k + 1;
    }
    assert(strs(a@).take(a@.len() as int) =~= strs(a@));
    assert(line_views(b@).take(b@.len() as int) =~= line_views(b@));
    false
}

/// Append a run of table rows, padded when it is a table; report
/// whether any line changed.
fn emit_run(out: &mut Vec<String>, t: &[&str]) -> (changed: bool)
    requires
        forall|k: int| 0 <= k < t@.len() ==> (#[trigger] parse_row_spec(line_views(t@)[k])) is Some,
    ensures
        strs(final(out)@) == strs(old(out)@) + padded_run(line_views(t@)),
        changed == (padded_run(line_views(t@)) != line_views(t@)),
{
    let ghost tv = line_views(t@);
    let mut pad = false;
    if t.len() >= 2 {
        assert(tv[1] == t@[1]@);
        assert(parse_row_spec(tv[1]) is Some);
        match parse_row(t[1]) {
            Some(second) => {
                pad = is_separator(second.as_slice());
            },
            None => {},
        }
    }
    assert(pad == (tv.len() >= 2 && is_separator_spec(parse_row_spec(tv[1])->0)));
    if pad {
        let padded = pad_table(t);
        proof {
            lemma_pad_table_len(tv);
        }
        let changed = lines_differ(&padded, t);
        let refs = refs_of(&padded);
        push_copies(out, refs.as_slice());
        changed
    } else {
        push_copies(out, t);
        false
    }
}

/// The run of table rows starting at line `i`, and where it ends.
fn collect_run<'a>(lines: &Vec<&'a str>, i: usize) -> (r: (Vec<&'a str>, usize))
    requires
        i <= lines@.len(),
    ensures
        r.1 == table_end(line_views(lines@), i as int),
        i <= r.1 <= lines@.len(),
        line_views(r.0@) == line_views(lines@).subrange(i as int, r.1 as int),
{
    let ghost lv = line_views(lines@);
    let n = lines.len();
    let mut j: usize = i;
    let mut t: Vec<&str> = Vec::new();
    proof {
        lemma_table_end(lv, i as int);
    }
    while j < n && parse_row(lines[j]).is_some()
        invariant
            n == lines@.len(),
            i <= j <= n,
            lv == line_views(lines@),
            table_end(lv, j as int) == table_end(lv, i as int),
            line_views(t@) == lv.subrange(i as int, j as int),
        decreases n - j,
    {
        assert(lv[j as int] == lines@[j as int]@);
        let ghost prev = line_views(t@);
        t.push(lines[j]);
        assert(line_views(t@) =~= prev.push(lines@[j as int]@));
        assert(lv.subrange(i as int, j + 1) =~= lv.subrange(i as int, j as int).push(lv[j as int]));
        j = j + 1;
    }
    proof {
        if j < n {
            assert(lv[j as int] == lines@[j as int]@);
        }
    }
    (t, j)
}

/// Pad every table of a Markdown document: lines are split at `\n`,
/// every run of table rows whose second row is a separator row is
/// padded, and the lines are joined again. `None` when no line changes.
pub fn pad_document(content: &str) -> (r: Option<String>)
    ensures
        match r {
            Some(s) => pad_document_spec(content@) == Some(s@),
            None => pad_document_spec(content@) is None,
        },
{
    let lines = split_at_char(content, '\n');
    let ghost lv = split_on(content@, '\n');
    assert(line_views(lines@) =~= lv);
    let n = lines.len();
    let mut out: Vec<String> = Vec::new();
    let mut changed = false;
    let mut i: usize = 0;
    proof {
        assert(lv.take(0) =~= Seq::<Seq<char>>::empty());
        assert(strs(out@) =~= Seq::<Seq<char>>::empty());
        assert(strs(out@) + process_lines(lv, 0) =~= process_lines(lv, 0));
    }
    while i < n
        invariant
            n == lines@.len(),
            i <= n,
            line_views(lines@) == lv,
            strs(out@).len() == i,
            strs(out@) + process_lines(lv, i as int) == process_lines(lv, 0),
            changed == (strs(out@) != lv.take(i as int)),
        decreases n - i,
    {
        let ghost out0 = strs(out@);
        assert(lv[i as int] == lines@[i as int]@);
        if parse_row(lines[i]).is_some() {
            proof {
                lemma_table_end(lv, i as int);
            }
            let (t, j) = collect_run(&lines, i);
            let ghost tv = line_views(t@);
            assert forall|k: int| 0 <= k < t@.len() implies (#[trigger] parse_row_spec(line_views(t@)[k])) is Some by {
                assert(line_views(t@)[k] == lv[i + k]);
            }
            let run_changed = emit_run(&mut out, t.as_slice());
            proof {
                lemma_pad_table_len(tv);
                lemma_concat_eq(out0, padded_run(tv), lv.take(i as int), tv);
                assert(lv.take(j as int) =~= lv.take(i as int) + tv);
                assert(process_lines(lv, i as int) == padded_run(tv) + process_lines(lv, j as int));
                assert(out0 + (padded_run(tv) + process_lines(lv, j as int)) =~= (out0 + padded_run(tv))
                    + process_lines(lv, j as int));
            }
            if run_changed {
                changed = true;
            }
            i = j;
        } else {
            out.push(to_owned_string(lines[i]));
            proof {
                assert(strs(out@) =~= out0.push(lv[i as int]));
                assert(process_lines(lv, i as int) == seq![lv[i as int]] + process_lines(lv, i + 1));
                assert(out0 + (seq![lv[i as int]] + process_lines(lv, i + 1)) =~= out0.push(lv[i as int])
                    + process_lines(lv, i + 1));
                assert(lv.take(i + 1) =~= lv.take(i as int) + seq![lv[i as int]]);
                assert(out0.push(lv[i as int]) =~= out0 + seq![lv[i as int]]);
                lemma_concat_eq(out0, seq![lv[i as int]], lv.take(i as int), seq![lv[i as int]]);
            }
            i = i + 1;
        }
    }
    proof {
        assert(lv.take(n as int) =~= lv);
        assert(process_lines(lv, n as int) =~= Seq::<Seq<char>>::empty());
        assert(strs(out@) + Seq::<Seq<char>>::empty() =~= strs(out@));
    }
    if !changed {
        return None;
    }
    let refs = refs_of(&out);
    proof {
        reveal_strlit("\n");
    }
    let joined = crate::text::join_first(refs.as_slice(), refs.len(), "\n");
    assert(line_views(refs@).take(refs@.len() as int) =~= line_views(refs@));
    Some(joined)
}

} // verus!
