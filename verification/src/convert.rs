//! Re-serializing a grid as markup or delimited text, with column-selection
//! filtering.

use vstd::prelude::*;
use vstd::string::*;
use crate::text::{str_to_chars, chars_to_string};

verus! {

/// Whether zero-based column `c` is named by the one-based selection list;
/// zero entries are ignored.
pub open spec fn selected(cols: Seq<usize>, c: int) -> bool {
    exists|i: int| 0 <= i < cols.len() && cols[i] > 0 && cols[i] - 1 == c
}

/// Whether column `c` is emitted: in keep mode the selected columns, in drop
/// mode the others.
pub open spec fn include_col(keep: bool, cols: Seq<usize>, c: int) -> bool {
    if keep {
        selected(cols, c)
    } else {
        !selected(cols, c)
    }
}

/// The markup entity for one character of cell text.
pub open spec fn xml_escape_char(c: char) -> Seq<char> {
    if c == '&' {
        "&amp;"@
    } else if c == '<' {
        "&lt;"@
    } else if c == '>' {
        "&gt;"@
    } else if c == '"' {
        "&quot;"@
    } else if c == '\'' {
        "&apos;"@
    } else {
        seq![c]
    }
}

/// Cell text with every markup-significant character replaced by its entity.
pub open spec fn xml_escaped(s: Seq<char>) -> Seq<char>
    decreases s.len(),
{
    if s.len() == 0 {
        Seq::empty()
    } else {
        xml_escaped(s.drop_last()) + xml_escape_char(s.last())
    }
}

/// The cell elements of one row, for the first `n` columns.
pub open spec fn cells_xml(row: Seq<Seq<char>>, keep: bool, cols: Seq<usize>, n: int) -> Seq<
    char,
>
    decreases n,
{
    if n <= 0 {
        Seq::empty()
    } else {
        cells_xml(row, keep, cols, n - 1) + if include_col(keep, cols, n - 1) {
            "<cell>"@ + xml_escaped(row[n - 1]) + "</cell>"@
        } else {
            Seq::empty()
        }
    }
}

/// One row element with its included cells.
pub open spec fn row_xml(row: Seq<Seq<char>>, keep: bool, cols: Seq<usize>) -> Seq<char> {
    "<row>"@ + cells_xml(row, keep, cols, row.len() as int) + "</row>"@
}

/// The row elements of the first `n` rows, the header row skipped on demand.
pub open spec fn rows_xml(
    g: Seq<Seq<Seq<char>>>,
    keep: bool,
    cols: Seq<usize>,
    skip_header: bool,
    n: int,
) -> Seq<char>
    decreases n,
{
    if n <= 0 {
        Seq::empty()
    } else {
        rows_xml(g, keep, cols, skip_header, n - 1) + if n - 1 == 0 && skip_header {
            Seq::empty()
        } else {
            row_xml(g[n - 1], keep, cols)
        }
    }
}

/// The whole grid as one workbook element.
pub open spec fn grid_xml(
    g: Seq<Seq<Seq<char>>>,
    keep: bool,
    cols: Seq<usize>,
    skip_header: bool,
) -> Seq<char> {
    "<workbook>"@ + rows_xml(g, keep, cols, skip_header, g.len() as int) + "</workbook>"@
}

/// A character that forces a delimited-text cell into quotes.
pub open spec fn csv_special(c: char) -> bool {
    c == ',' || c == '"' || c == '\n' || c == '\r'
}

/// Whether the cell text holds any character that forces quoting.
pub open spec fn needs_quoting(s: Seq<char>) -> bool {
    exists|i: int| 0 <= i < s.len() && csv_special(s[i])
}

/// Cell text with every quote doubled.
pub open spec fn csv_escaped(s: Seq<char>) -> Seq<char>
    decreases s.len(),
{
    if s.len() == 0 {
        Seq::empty()
    } else {
        csv_escaped(s.drop_last()) + if s.last() == '"' {
            seq!['"', '"']
        } else {
            seq![s.last()]
        }
    }
}

/// One delimited-text cell: quotes doubled, and the whole cell wrapped in
/// quotes when it holds a comma, a quote, or a line break.
pub open spec fn csv_cell(s: Seq<char>) -> Seq<char> {
    if needs_quoting(s) {
        seq!['"'] + csv_escaped(s) + seq!['"']
    } else {
        csv_escaped(s)
    }
}

/// The included cells of one row, as delimited-text cells, for the first `n`
/// columns.
pub open spec fn row_csv_cells(row: Seq<Seq<char>>, keep: bool, cols: Seq<usize>, n: int) -> Seq<
    Seq<char>,
>
    decreases n,
{
    if n <= 0 {
        Seq::empty()
    } else {
        row_csv_cells(row, keep, cols, n - 1) + if include_col(keep, cols, n - 1) {
            seq![csv_cell(row[n - 1])]
        } else {
            Seq::empty()
        }
    }
}

/// The parts joined with the separator between them.
pub open spec fn joined(parts: Seq<Seq<char>>, sep: Seq<char>) -> Seq<char>
    decreases parts.len(),
{
    if parts.len() == 0 {
        Seq::empty()
    } else if parts.len() == 1 {
        parts[0]
    } else {
        joined(parts.drop_last(), sep) + sep + parts.last()
    }
}

/// One delimited-text line for a row.
pub open spec fn row_csv(row: Seq<Seq<char>>, keep: bool, cols: Seq<usize>) -> Seq<char> {
    joined(row_csv_cells(row, keep, cols, row.len() as int), seq![','])
}

/// The lines of the first `n` rows, the header row skipped on demand.
pub open spec fn csv_lines(
    g: Seq<Seq<Seq<char>>>,
    keep: bool,
    cols: Seq<usize>,
    skip_header: bool,
    n: int,
) -> Seq<Seq<char>>
    decreases n,
{
    if n <= 0 {
        Seq::empty()
    } else {
        csv_lines(g, keep, cols, skip_header, n - 1) + if n - 1 == 0 && skip_header {
            Seq::empty()
        } else {
            seq![row_csv(g[n - 1], keep, cols)]
        }
    }
}

/// The whole grid as delimited text, lines separated by `\r\n`.
pub open spec fn grid_csv(
    g: Seq<Seq<Seq<char>>>,
    keep: bool,
    cols: Seq<usize>,
    skip_header: bool,
) -> Seq<char> {
    joined(csv_lines(g, keep, cols, skip_header, g.len() as int), seq!['\r', '\n'])
}

/// Decides whether zero-based column `c` is in the one-based selection list.
fn col_selected(cols: &Vec<usize>, c: usize) -> (r: bool)
    ensures
        r == selected(cols@, c as int),
{
    let mut i: usize = 0;
    let mut found = false;
    while i < cols.len()
        invariant
            0 <= i <= cols.len(),
            found == exists|j: int| 0 <= j < i && cols@[j] > 0 && cols@[j] - 1 == c as int,
        decreases cols.len() - i,
    {
        if cols[i] > 0 && cols[i] - 1 == c {
            found = true;
        }
        i += 1;
    }
    found
}

fn include_column(cols: &Vec<usize>, keep: bool, c: usize) -> (r: bool)
    ensures
        r == include_col(keep, cols@, c as int),
{
    let s = col_selected(cols, c);
    if keep {
        s
    } else {
        !s
    }
}

/// Appends the characters of `s` to `out`.
fn append_str(out: &mut Vec<char>, s: &str)
    ensures
        final(out)@ == old(out)@ + s@,
{
    let chars = str_to_chars(s);
    let mut i: usize = 0;
    while i < chars.len()
        invariant
            0 <= i <= chars.len(),
            chars@ == s@,
            out@ == old(out)@ + s@.subrange(0, i as int),
        decreases chars.len() - i,
    {
        out.push(chars[i]);
        proof {
            assert(old(out)@ + s@.subrange(0, i + 1) =~= (old(out)@ + s@.subrange(0, i as int))
                .push(s@[i as int]));
        }
        i += 1;
    }
    proof {
        assert(s@.subrange(0, s@.len() as int) =~= s@);
    }
}

/// Appends the escaped form of cell text to `out`.
fn append_xml_escaped(out: &mut Vec<char>, s: &str)
    ensures
        final(out)@ == old(out)@ + xml_escaped(s@),
{
    let chars = str_to_chars(s);
    let mut i: usize = 0;
    while i < chars.len()
        invariant
            0 <= i <= chars.len(),
            chars@ == s@,
            out@ == old(out)@ + xml_escaped(s@.subrange(0, i as int)),
        decreases chars.len() - i,
    {
        let c = chars[i];
        if c == '&' {
            append_str(out, "&amp;");
        } else if c == '<' {
            append_str(out, "&lt;");
        } else if c == '>' {
            append_str(out, "&gt;");
        } else if c == '"' {
            append_str(out, "&quot;");
        } else if c == '\'' {
            append_str(out, "&apos;");
        } else {
            out.push(c);
        }
        proof {
            let pre = s@.subrange(0, i as int);
            let cur = s@.subrange(0, i + 1);
            assert(cur.drop_last() =~= pre);
            assert(cur.last() == s@[i as int]);
            if !(c == '&' || c == '<' || c == '>' || c == '"' || c == '\'') {
                assert(xml_escape_char(c) =~= seq![c]);
                assert(old(out)@ + xml_escaped(cur) =~= (old(out)@ + xml_escaped(pre)).push(c));
            } else {
                assert(old(out)@ + xml_escaped(cur) =~= old(out)@ + xml_escaped(pre)
                    + xml_escape_char(c));
            }
        }
        i += 1;
    }
    proof {
        assert(s@.subrange(0, s@.len() as int) =~= s@);
    }
}

/// Serializes the grid as a workbook element of row and cell elements,
/// keeping or dropping the listed one-based columns, with the header row
/// skipped on demand.
pub fn grid_to_xml(grid: &Vec<Vec<String>>, cols: &Vec<usize>, keep: bool, skip_header: bool)
    -> (r: String)
    ensures
        r@ == grid_xml(grid.deep_view(), keep, cols@, skip_header),
{
    let ghost g = grid.deep_view();
    let mut out: Vec<char> = Vec::new();
    append_str(&mut out, "<workbook>");
    proof {
        assert(Seq::<char>::empty() + "<workbook>"@ =~= "<workbook>"@);
    }
    let mut ridx: usize = 0;
    while ridx < grid.len()
        invariant
            0 <= ridx <= grid.len(),
            g == grid.deep_view(),
            out@ == "<workbook>"@ + rows_xml(g, keep, cols@, skip_header, ridx as int),
        decreases grid.len() - ridx,
    {
        let ghost pre = out@;
        if !(ridx == 0 && skip_header) {
            let row = &grid[ridx];
            proof {
                assert(g[ridx as int] == grid@[ridx as int].deep_view());
            }
            append_str(&mut out, "<row>");
            let mut c: usize = 0;
            while c < row.len()
                invariant
                    0 <= c <= row.len(),
                    row == &grid[ridx as int],
                    ridx < grid.len(),
                    g == grid.deep_view(),
                    g[ridx as int] == row.deep_view(),
                    out@ == pre + "<row>"@ + cells_xml(
                        row.deep_view(),
                        keep,
                        cols@,
                        c as int,
                    ),
                decreases row.len() - c,
            {
                if include_column(cols, keep, c) {
                    append_str(&mut out, "<cell>");
                    append_xml_escaped(&mut out, row[c].as_str());
                    append_str(&mut out, "</cell>");
                    proof {
                        assert(row.deep_view()[c as int] == row@[c as int]@);
                        assert(out@ =~= pre + "<row>"@ + (cells_xml(
                            row.deep_view(),
                            keep,
                            cols@,
                            c as int,
                        ) + ("<cell>"@ + xml_escaped(row@[c as int]@) + "</cell>"@)));
                        assert(cells_xml(row.deep_view(), keep, cols@, c + 1) =~= cells_xml(
                            row.deep_view(),
                            keep,
                            cols@,
                            c as int,
                        ) + ("<cell>"@ + xml_escaped(row.deep_view()[c as int]) + "</cell>"@));
                        assert(out@ =~= pre + "<row>"@ + cells_xml(
                            row.deep_view(),
                            keep,
                            cols@,
                            c + 1,
                        ));
                    }
                } else {
                    proof {
                        assert(cells_xml(row.deep_view(), keep, cols@, c + 1) =~= cells_xml(
                            row.deep_view(),
                            keep,
                            cols@,
                            c as int,
                        ));
                    }
                }
                c += 1;
            }
            append_str(&mut out, "</row>");
            proof {
                assert(out@ =~= pre + row_xml(g[ridx as int], keep, cols@));
                assert(rows_xml(g, keep, cols@, skip_header, ridx + 1) =~= rows_xml(
                    g,
                    keep,
                    cols@,
                    skip_header,
                    ridx as int,
                ) + row_xml(g[ridx as int], keep, cols@));
                assert(out@ =~= "<workbook>"@ + rows_xml(g, keep, cols@, skip_header, ridx + 1));
            }
        } else {
            proof {
                assert(rows_xml(g, keep, cols@, skip_header, ridx + 1) =~= rows_xml(
                    g,
                    keep,
                    cols@,
                    skip_header,
                    ridx as int,
                ));
            }
        }
        ridx += 1;
    }
    append_str(&mut out, "</workbook>");
    proof {
        assert(out@ =~= grid_xml(g, keep, cols@, skip_header));
    }
    chars_to_string(&out)
}

/// Appends one delimited-text cell to `out`.
fn append_csv_cell(out: &mut Vec<char>, s: &str)
    ensures
        final(out)@ == old(out)@ + csv_cell(s@),
{
    let chars = str_to_chars(s);
    let mut needs = false;
    let mut i: usize = 0;
    while i < chars.len()
        invariant
            0 <= i <= chars.len(),
            chars@ == s@,
            needs == exists|j: int| 0 <= j < i && csv_special(s@[j]),
        decreases chars.len() - i,
    {
        let c = chars[i];
        if c == ',' || c == '"' || c == '\n' || c == '\r' {
            needs = true;
        }
        i += 1;
    }
    assert(needs == needs_quoting(s@));
    if needs {
        out.push('"');
    }
    let ghost mid = out@;
    let mut i: usize = 0;
    while i < chars.len()
        invariant
            0 <= i <= chars.len(),
            chars@ == s@,
            out@ == mid + csv_escaped(s@.subrange(0, i as int)),
        decreases chars.len() - i,
    {
        let c = chars[i];
        out.push(c);
        if c == '"' {
            out.push('"');
        }
        proof {
            let pre = s@.subrange(0, i as int);
            let cur = s@.subrange(0, i + 1);
            assert(cur.drop_last() =~= pre);
            assert(cur.last() == s@[i as int]);
            if c == '"' {
                assert(out@ =~= mid + csv_escaped(cur));
            } else {
                assert(out@ =~= mid + csv_escaped(cur));
            }
        }
        i += 1;
    }
    proof {
        assert(s@.subrange(0, s@.len() as int) =~= s@);
    }
    if needs {
        out.push('"');
        proof {
            assert(out@ =~= old(out)@ + (seq!['"'] + csv_escaped(s@) + seq!['"']));
        }
    }
}

/// Serializes the grid as delimited text: one line per row, included cells
/// separated by commas, lines separated by `\r\n`, the header row skipped on
/// demand.
pub fn grid_to_csv(grid: &Vec<Vec<String>>, cols: &Vec<usize>, keep: bool, skip_header: bool)
    -> (r: String)
    ensures
        r@ == grid_csv(grid.deep_view(), keep, cols@, skip_header),
{
    let ghost g = grid.deep_view();
    let ghost sep = seq!['\r', '\n'];
    let mut out: Vec<char> = Vec::new();
    let mut lines: usize = 0;
    let mut ridx: usize = 0;
    while ridx < grid.len()
        invariant
            0 <= ridx <= grid.len(),
            g == grid.deep_view(),
            sep == seq!['\r', '\n'],
            lines <= ridx,
            lines == csv_lines(g, keep, cols@, skip_header, ridx as int).len(),
            out@ == joined(csv_lines(g, keep, cols@, skip_header, ridx as int), sep),
        decreases grid.len() - ridx,
    {
        let ghost plines = csv_lines(g, keep, cols@, skip_header, ridx as int);
        if !(ridx == 0 && skip_header) {
            if lines > 0 {
                out.push('\r');
                out.push('\n');
                proof {
                    let before = joined(plines, sep);
                    assert(out@ == before.push('\r').push('\n'));
                    assert(before.push('\r').push('\n') =~= before + sep);
                    assert(out@ =~= joined(plines, sep) + sep);
                }
            }
            let ghost base = out@;
            let row = &grid[ridx];
            proof {
                assert(g[ridx as int] == grid@[ridx as int].deep_view());
            }
            let mut cells: usize = 0;
            let mut c: usize = 0;
            while c < row.len()
                invariant
                    0 <= c <= row.len(),
                    row == &grid[ridx as int],
                    ridx < grid.len(),
                    g == grid.deep_view(),
                    g[ridx as int] == row.deep_view(),
                    cells <= c,
                    cells == row_csv_cells(row.deep_view(), keep, cols@, c as int).len(),
                    out@ == base + joined(
                        row_csv_cells(row.deep_view(), keep, cols@, c as int),
                        seq![','],
                    ),
                decreases row.len() - c,
            {
                let ghost pcells = row_csv_cells(row.deep_view(), keep, cols@, c as int);
                if include_column(cols, keep, c) {
                    if cells > 0 {
                        out.push(',');
                    }
                    append_csv_cell(&mut out, row[c].as_str());
                    cells += 1;
                    proof {
                        assert(row.deep_view()[c as int] == row@[c as int]@);
                        let ncells = row_csv_cells(row.deep_view(), keep, cols@, c + 1);
                        assert(ncells =~= pcells + seq![csv_cell(row.deep_view()[c as int])]);
                        assert(ncells.drop_last() =~= pcells);
                        if pcells.len() == 0 {
                            assert(out@ =~= base + joined(ncells, seq![',']));
                        } else {
                            assert(out@ =~= base + (joined(pcells, seq![',']) + seq![',']
                                + csv_cell(row.deep_view()[c as int])));
                            assert(out@ =~= base + joined(ncells, seq![',']));
                        }
                    }
                } else {
                    proof {
                        assert(row_csv_cells(row.deep_view(), keep, cols@, c + 1) =~= pcells);
                    }
                }
                c += 1;
            }
            proof {
                assert(row_csv(g[ridx as int], keep, cols@) == joined(
                    row_csv_cells(row.deep_view(), keep, cols@, row@.len() as int),
                    seq![','],
                ));
                let nlines = csv_lines(g, keep, cols@, skip_header, ridx + 1);
                assert(nlines =~= plines + seq![row_csv(g[ridx as int], keep, cols@)]);
                assert(nlines.drop_last() =~= plines);
                if plines.len() == 0 {
                    assert(out@ =~= joined(nlines, sep));
                } else {
                    assert(out@ =~= joined(plines, sep) + sep + row_csv(
                        g[ridx as int],
                        keep,
                        cols@,
                    ));
                    assert(out@ =~= joined(nlines, sep));
                }
            }
            lines += 1;
        } else {
            proof {
                assert(csv_lines(g, keep, cols@, skip_header, ridx + 1) =~= csv_lines(
                    g,
                    keep,
                    cols@,
                    skip_header,
                    ridx as int,
                ));
            }
        }
        ridx += 1;
    }
    chars_to_string(&out)
}

/// The one-based source columns that the default markup export leaves out.
pub fn default_drop_columns() -> (r: Vec<usize>)
    ensures
        r@ == seq![1usize, 2usize, 6usize, 7usize, 14usize],
{
    let mut v: Vec<usize> = Vec::new();
    v.push(1);
    v.push(2);
    v.push(6);
    v.push(7);
    v.push(14);
    proof {
        assert(v@ =~= seq![1usize, 2usize, 6usize, 7usize, 14usize]);
    }
    v
}

/// The character lowered into its plain-letter form.
pub open spec fn ascii_lower_char(c: char) -> char {
    if 'A' <= c && c <= 'Z' {
        ((c as u8) + 32) as char
    } else {
        c
    }
}

/// The text lowered letter by letter.
pub open spec fn ascii_lower(s: Seq<char>) -> Seq<char> {
    Seq::new(s.len(), |i: int| ascii_lower_char(s[i]))
}

fn eq_ascii_lower(s: &str, t: &str) -> (r: bool)
    requires
        forall|i: int| 0 <= i < t@.len() ==> 'a' <= #[trigger] t@[i] <= 'z',
    ensures
        r == (ascii_lower(s@) == t@),
{
    let n = s.unicode_len();
    if n != t.unicode_len() {
        proof {
            assert(ascii_lower(s@).len() != t@.len());
        }
        return false;
    }
    let mut i: usize = 0;
    while i < n
        invariant
            0 <= i <= n,
            n == s@.len(),
            n == t@.len(),
            forall|j: int| 0 <= j < i ==> ascii_lower_char(s@[j]) == t@[j],
        decreases n - i,
    {
        let c = s.get_char(i);
        let lc = if 'A' <= c && c <= 'Z' {
            ((c as u8) + 32) as char
        } else {
            c
        };
        assert(lc == ascii_lower_char(c));
        if lc != t.get_char(i) {
            proof {
                assert(ascii_lower(s@)[i as int] != t@[i as int]);
            }
            return false;
        }
        i += 1;
    }
    proof {
        assert(ascii_lower(s@) =~= t@);
    }
    true
}

/// Whether a mode string selects keep mode; anything else drops.
pub fn mode_is_keep(mode: &str) -> (r: bool)
    ensures
        r == (ascii_lower(mode@) == "keep"@),
{
    proof {
        reveal_strlit("keep");
        assert forall|i: int| 0 <= i < "keep"@.len() implies 'a' <= #[trigger] "keep"@[i]
            <= 'z' by {}
    }
    eq_ascii_lower(mode, "keep")
}

/// Whether a format string selects delimited text; anything else is markup.
pub fn format_is_csv(format: &str) -> (r: bool)
    ensures
        r == (ascii_lower(format@) == "csv"@),
{
    proof {
        reveal_strlit("csv");
        assert forall|i: int| 0 <= i < "csv"@.len() implies 'a' <= #[trigger] "csv"@[i]
            <= 'z' by {}
    }
    eq_ascii_lower(format, "csv")
}

} // verus!
