//! Table detection on a recognized page and its rendering as a markdown table.

use vstd::prelude::*;

use crate::interval::{
    bands, bands_of, contains_point, find_interval, first_containing, lemma_point_of_extent_finds_band, Interval,
};
use crate::layout::{Extent, LineLayout, PageLayout};
use crate::text::{append_repeated, join, join_strings, repeat, views};
use vstd::utf8::encode_utf8;

verus! {

/// A detected table with cells indexed by `[row][column]`.
#[derive(Debug, Clone)]
pub struct Table {
    pub rows: usize,
    pub columns: usize,
    /// Cell text indexed as `cells[row][column]`.
    pub cells: Vec<Vec<String>>,
}

/// The text of every cell of a table, row by row.
pub open spec fn cell_views(t: Table) -> Seq<Seq<Seq<char>>> {
    t.cells@.map_values(|row: Vec<String>| views(row@))
}

/// Vertical extents `[top, bottom]` of the lines that have a box, in order.
pub open spec fn row_extents(lines: Seq<LineLayout>) -> Seq<Interval>
    decreases lines.len(),
{
    if lines.len() == 0 {
        Seq::empty()
    } else {
        let prev = row_extents(lines.drop_last());
        match lines.last().extent {
            Some(e) => prev.push((e.top, e.bottom)),
            None => prev,
        }
    }
}

/// Horizontal extents `[left, right]` of the lines that have a box, in order.
pub open spec fn column_extents(lines: Seq<LineLayout>) -> Seq<Interval>
    decreases lines.len(),
{
    if lines.len() == 0 {
        Seq::empty()
    } else {
        let prev = column_extents(lines.drop_last());
        match lines.last().extent {
            Some(e) => prev.push((e.left, e.right)),
            None => prev,
        }
    }
}

/// The line's box has its centre in row band `r` and column band `c`.
pub open spec fn in_cell(e: Extent, rows: Seq<Interval>, cols: Seq<Interval>, r: int, c: int) -> bool {
    first_containing(rows, e.y_mid) == Some(r) && first_containing(cols, e.x_mid) == Some(c)
}

/// Texts of the lines, in order, whose box centre falls in cell `(r, c)`.
pub open spec fn cell_lines(
    lines: Seq<LineLayout>,
    rows: Seq<Interval>,
    cols: Seq<Interval>,
    r: int,
    c: int,
) -> Seq<Seq<char>>
    decreases lines.len(),
{
    if lines.len() == 0 {
        Seq::empty()
    } else {
        let prev = cell_lines(lines.drop_last(), rows, cols, r, c);
        match lines.last().extent {
            Some(e) => if in_cell(e, rows, cols, r, c) {
                prev.push(lines.last().text@)
            } else {
                prev
            },
            None => prev,
        }
    }
}

/// The grid of a page: row bands from the lines' vertical extents, column
/// bands from their horizontal extents, and in each cell the texts of the
/// lines centred there, joined by single spaces. There is none when there are
/// fewer than two rows or two columns.
pub open spec fn grid_of(lines: Seq<LineLayout>) -> Option<Seq<Seq<Seq<char>>>> {
    let rows = bands_of(row_extents(lines));
    let cols = bands_of(column_extents(lines));
    if rows.len() < 2 || cols.len() < 2 {
        None
    } else {
        Some(
            Seq::new(
                rows.len(),
                |r: int| Seq::new(cols.len(), |c: int| join(cell_lines(lines, rows, cols, r, c), seq![' '])),
            ),
        )
    }
}

/// Detect tables in a recognized page.
///
/// 1. For each line with a box, take its vertical and horizontal extent.
/// 2. Merge them into row and column bands (see `bands`).
/// 3. With at least two rows and two columns, put each line into the cell
///    where the centre of its box lies.
pub fn detect_tables(page: &PageLayout) -> (r: Vec<Table>)
    ensures
        match grid_of(page.lines@) {
            None => r@.len() == 0,
            Some(g) => r@.len() == 1 && r@[0].rows == g.len() && r@[0].columns == g[0].len()
                && cell_views(r@[0]) == g,
        },
        forall|k: int| 0 <= k < r@.len() ==> well_shaped(#[trigger] r@[k]),
        r@.len() <= 1,
        r@.len() == 1 <==> bands_of(row_extents(page.lines@)).len() >= 2 && bands_of(
            column_extents(page.lines@),
        ).len() >= 2,
        r@.len() == 1 ==> r@[0].rows == bands_of(row_extents(page.lines@)).len() && r@[0].columns
            == bands_of(column_extents(page.lines@)).len(),
{
    proof {
        lemma_table_exactly_when_two_by_two(page.lines@);
    }
    let lines = &page.lines;
    let n = lines.len();
    let mut row_ext: Vec<Interval> = Vec::new();
    let mut col_ext: Vec<Interval> = Vec::new();
    let mut i: usize = 0;
    while i < n
        invariant
            n == lines@.len(),
            i <= n,
            row_ext@ == row_extents(lines@.take(i as int)),
            col_ext@ == column_extents(lines@.take(i as int)),
        decreases n - i,
    {
        proof {
            assert(lines@.take(i + 1).drop_last() =~= lines@.take(i as int));
        }
        match &lines[i].extent {
            Some(e) => {
                row_ext.push((e.top, e.bottom));
                col_ext.push((e.left, e.right));
            },
            None => {},
        }
        i = i + 1;
    }
    proof {
        assert(lines@.take(n as int) =~= lines@);
    }
    let rows = bands(&row_ext);
    let cols = bands(&col_ext);
    if rows.len() < 2 || cols.len() < 2 {
        return Vec::new();
    }
    let nr = rows.len();
    let nc = cols.len();
    let ghost grid = grid_of(lines@)->Some_0;
    assert(grid.len() == nr);
    assert(forall|a: int, b: int|
        0 <= a < nr && 0 <= b < nc ==> (#[trigger] grid[a][b]) == join(
            cell_lines(lines@, rows@, cols@, a, b),
            seq![' '],
        ) && grid[a].len() == nc);

    // Phase 2: assign each line to a (row, column) cell.
    let mut buckets: Vec<Vec<Vec<String>>> = Vec::new();
    let mut r: usize = 0;
    while r < nr
        invariant
            r <= nr,
            buckets@.len() == r,
            forall|a: int| 0 <= a < r ==> (#[trigger] buckets@[a])@.len() == nc,
            forall|a: int, b: int| 0 <= a < r && 0 <= b < nc ==> (#[trigger] buckets@[a]@[b])@.len() == 0,
        decreases nr - r,
    {
        let mut row: Vec<Vec<String>> = Vec::new();
        let mut c: usize = 0;
        while c < nc
            invariant
                c <= nc,
                row@.len() == c,
                forall|b: int| 0 <= b < c ==> (#[trigger] row@[b])@.len() == 0,
            decreases nc - c,
        {
            row.push(Vec::new());
            c = c + 1;
        }
        buckets.push(row);
        r = r + 1;
    }
    let mut i: usize = 0;
    while i < n
        invariant
            n == lines@.len(),
            nr == rows@.len(),
            nc == cols@.len(),
            i <= n,
            buckets@.len() == nr,
            forall|a: int| 0 <= a < nr ==> (#[trigger] buckets@[a])@.len() == nc,
            forall|a: int, b: int|
                0 <= a < nr && 0 <= b < nc ==> views((#[trigger] buckets@[a]@[b])@) == cell_lines(
                    lines@.take(i as int),
                    rows@,
                    cols@,
                    a,
                    b,
                ),
        decreases n - i,
    {
        proof {
            assert(lines@.take(i + 1).drop_last() =~= lines@.take(i as int));
        }
        let ghost before = buckets@;
        match &lines[i].extent {
            Some(e) => {
                let rr = find_interval(rows.as_slice(), e.y_mid);
                let cc = find_interval(cols.as_slice(), e.x_mid);
                match (rr, cc) {
                    (Some(a), Some(b)) => {
                        let text = lines[i].text.clone();
                        buckets[a][b].push(text);
                        assert forall|x: int, y: int|
                            0 <= x < nr && 0 <= y < nc implies views((#[trigger] buckets@[x]@[y])@)
                            == cell_lines(lines@.take(i + 1), rows@, cols@, x, y) by {
                            if x == a && y == b {
                                assert(views(buckets@[x]@[y]@) =~= views(before[x]@[y]@).push(
                                    lines@[i as int].text@,
                                ));
                            } else {
                                assert(buckets@[x]@[y] == before[x]@[y]);
                            }
                        }
                    },
                    _ => {},
                }
            },
            None => {},
        }
        i = i + 1;
    }
    proof {
        assert(lines@.take(n as int) =~= lines@);
    }

    // Merge the texts of each cell.
    let mut cells: Vec<Vec<String>> = Vec::new();
    let mut r: usize = 0;
    while r < nr
        invariant
            n == lines@.len(),
            nr == rows@.len(),
            nc == cols@.len(),
            r <= nr,
            buckets@.len() == nr,
            forall|a: int| 0 <= a < nr ==> (#[trigger] buckets@[a])@.len() == nc,
            forall|a: int, b: int|
                0 <= a < nr && 0 <= b < nc ==> views((#[trigger] buckets@[a]@[b])@) == cell_lines(
                    lines@,
                    rows@,
                    cols@,
                    a,
                    b,
                ),
            cells@.len() == r,
            forall|a: int| 0 <= a < nr ==> (#[trigger] grid[a]).len() == nc,
            grid.len() == nr,
            forall|a: int, b: int|
                0 <= a < nr && 0 <= b < nc ==> (#[trigger] grid[a][b]) == join(
                    cell_lines(lines@, rows@, cols@, a, b),
                    seq![' '],
                ),
            forall|a: int| 0 <= a < r ==> views((#[trigger] cells@[a])@) == grid[a],
        decreases nr - r,
    {
        let mut row: Vec<String> = Vec::new();
        let mut c: usize = 0;
        while c < nc
            invariant
                nr == rows@.len(),
                nc == cols@.len(),
                r < nr,
                c <= nc,
                buckets@.len() == nr,
                forall|a: int| 0 <= a < nr ==> (#[trigger] buckets@[a])@.len() == nc,
                forall|a: int, b: int|
                    0 <= a < nr && 0 <= b < nc ==> views((#[trigger] buckets@[a]@[b])@)
                        == cell_lines(lines@, rows@, cols@, a, b),
                row@.len() == c,
                forall|a: int| 0 <= a < nr ==> (#[trigger] grid[a]).len() == nc,
                grid.len() == nr,
                forall|a: int, b: int|
                    0 <= a < nr && 0 <= b < nc ==> (#[trigger] grid[a][b]) == join(
                        cell_lines(lines@, rows@, cols@, a, b),
                        seq![' '],
                    ),
                forall|b: int| 0 <= b < c ==> (#[trigger] row@[b])@ == grid[r as int][b],
            decreases nc - c,
        {
            proof {
                reveal_strlit(" ");
            }
            let joined = join_strings(&buckets[r][c], " ");
            assert(" "@ =~= seq![' ']);
            assert(views(buckets@[r as int]@[c as int]@) == cell_lines(lines@, rows@, cols@, r as int, c as int));
            assert(joined@ == grid[r as int][c as int]);
            row.push(joined);
            c = c + 1;
        }
        assert(views(row@) =~= grid[r as int]);
        cells.push(row);
        r = r + 1;
    }
    let table = Table { rows: nr, columns: nc, cells };
    assert(cell_views(table) =~= grid);
    assert forall|a: int| 0 <= a < table.cells@.len() implies (#[trigger] table.cells@[a])@.len()
        == table.columns by {
        assert(views(table.cells@[a]@).len() == grid[a].len());
    }
    let mut out: Vec<Table> = Vec::new();
    out.push(table);
    out
}

/// Length in bytes of the UTF-8 encoding of `s`, as `str::len` reports it.
pub open spec fn byte_len(s: Seq<char>) -> nat {
    (encode_utf8(s).len() as usize) as nat
}

/// Largest byte length of the cell in column `c` among the first `n` rows.
pub open spec fn widest(cells: Seq<Seq<Seq<char>>>, c: int, n: int) -> nat
    decreases n,
{
    if n <= 0 {
        0
    } else {
        let w = widest(cells, c, n - 1);
        let l = if 0 <= c < cells[n - 1].len() { byte_len(cells[n - 1][c]) } else { 0 };
        if l > w { l } else { w }
    }
}

/// Width of column `c`: its widest cell, and at least three for the rule.
pub open spec fn column_width(cells: Seq<Seq<Seq<char>>>, c: int) -> nat {
    let w = widest(cells, c, cells.len() as int);
    if w < 3 { 3 } else { w }
}

/// The width of every column.
pub open spec fn column_widths(cells: Seq<Seq<Seq<char>>>, columns: nat) -> Seq<nat> {
    Seq::new(columns, |c: int| column_width(cells, c))
}

/// One cell between bars: a space, the text, padding to the column width, a
/// space and the closing bar.
pub open spec fn cell_text(cell: Seq<char>, width: nat) -> Seq<char> {
    seq![' '] + cell + repeat(' ', (width - byte_len(cell)) as nat) + seq![' ', '|']
}

/// The first `n` cells of a row.
pub open spec fn cells_text(row: Seq<Seq<char>>, widths: Seq<nat>, n: int) -> Seq<char>
    decreases n,
{
    if n <= 0 {
        Seq::empty()
    } else {
        cells_text(row, widths, n - 1) + cell_text(row[n - 1], widths[n - 1])
    }
}

/// A table row: an opening bar and its cells.
pub open spec fn row_line(row: Seq<Seq<char>>, widths: Seq<nat>) -> Seq<char> {
    seq!['|'] + cells_text(row, widths, row.len() as int)
}

/// The first `n` segments of the rule under the header.
pub open spec fn rule_text(widths: Seq<nat>, n: int) -> Seq<char>
    decreases n,
{
    if n <= 0 {
        Seq::empty()
    } else {
        rule_text(widths, n - 1) + seq![' '] + repeat('-', widths[n - 1]) + seq![' ', '|']
    }
}

/// The rule under the header: a dash run as wide as each column.
pub open spec fn rule_line(widths: Seq<nat>) -> Seq<char> {
    seq!['|'] + rule_text(widths, widths.len() as int)
}

/// Lines of the first `n` rows, with the rule after the first.
pub open spec fn row_lines(cells: Seq<Seq<Seq<char>>>, widths: Seq<nat>, n: int) -> Seq<Seq<char>>
    decreases n,
{
    if n <= 0 {
        Seq::empty()
    } else {
        let prev = row_lines(cells, widths, n - 1).push(row_line(cells[n - 1], widths));
        if n == 1 {
            prev.push(rule_line(widths))
        } else {
            prev
        }
    }
}

/// The markdown lines of a table with the given cells and number of columns.
pub open spec fn markdown_lines(cells: Seq<Seq<Seq<char>>>, columns: nat) -> Seq<Seq<char>> {
    row_lines(cells, column_widths(cells, columns), cells.len() as int)
}

/// The markdown lines of one table.
pub open spec fn table_lines(t: Table) -> Seq<Seq<char>> {
    markdown_lines(cell_views(t), t.columns as nat)
}

/// The lines of the first `n` tables, an empty line between two tables.
pub open spec fn tables_lines(ts: Seq<Table>, n: int) -> Seq<Seq<char>>
    decreases n,
{
    if n <= 0 {
        Seq::empty()
    } else if n == 1 {
        table_lines(ts[0])
    } else {
        tables_lines(ts, n - 1).push(Seq::empty()) + table_lines(ts[n - 1])
    }
}

/// Every row of the table has one cell per column.
pub open spec fn well_shaped(t: Table) -> bool {
    forall|r: int| 0 <= r < t.cells@.len() ==> (#[trigger] t.cells@[r])@.len() == t.columns
}

proof fn lemma_widest_bounds(cells: Seq<Seq<Seq<char>>>, c: int, n: int, k: int)
    requires
        0 <= k < n <= cells.len(),
        0 <= c < cells[k].len(),
    ensures
        byte_len(cells[k][c]) <= widest(cells, c, n),
    decreases n,
{
    if k < n - 1 {
        lemma_widest_bounds(cells, c, n - 1, k);
    }
}

/// Append one table's lines to `lines`.
fn push_table_lines(t: &Table, lines: &mut Vec<String>)
    requires
        well_shaped(*t),
    ensures
        views(final(lines)@) == views(old(lines)@) + table_lines(*t),
{
    let ghost cells = cell_views(*t);
    let nrows = t.cells.len();
    let ncols = t.columns;
    // Column widths: the widest cell, at least three.
    let mut widths: Vec<usize> = Vec::new();
    let mut c: usize = 0;
    while c < ncols
        invariant
            c <= ncols,
            widths@.len() == c,
            forall|b: int| 0 <= b < c ==> widths@[b] == 0,
        decreases ncols - c,
    {
        widths.push(0);
        c = c + 1;
    }
    let mut r: usize = 0;
    while r < nrows
        invariant
            nrows == t.cells@.len(),
            ncols == t.columns,
            well_shaped(*t),
            cells == cell_views(*t),
            r <= nrows,
            widths@.len() == ncols,
            forall|b: int| 0 <= b < ncols ==> widths@[b] == widest(cells, b, r as int),
        decreases nrows - r,
    {
        let row = &t.cells[r];
        let mut c: usize = 0;
        while c < ncols
            invariant
                nrows == t.cells@.len(),
                ncols == t.columns,
                well_shaped(*t),
                cells == cell_views(*t),
                r < nrows,
                row == t.cells@[r as int],
                c <= ncols,
                widths@.len() == ncols,
                forall|b: int| 0 <= b < c ==> widths@[b] == widest(cells, b, r + 1),
                forall|b: int| c <= b < ncols ==> widths@[b] == widest(cells, b, r as int),
            decreases ncols - c,
        {
            let len = row[c].as_str().len();
            proof {
                assert(row@.len() == ncols);
                assert(cells[r as int] == views(row@));
                assert(cells[r as int][c as int] == row@[c as int]@);
                assert(len == byte_len(cells[r as int][c as int]));
                assert(widest(cells, c as int, r + 1) == if len > widest(cells, c as int, r as int) {
                    len as nat
                } else {
                    widest(cells, c as int, r as int)
                });
            }
            if len > widths[c] {
                widths.set(c, len);
            }
            c = c + 1;
        }
        r = r + 1;
    }
    let mut c: usize = 0;
    while c < ncols
        invariant
            ncols == t.columns,
            cells == cell_views(*t),
            c <= ncols,
            widths@.len() == ncols,
            forall|b: int| 0 <= b < c ==> widths@[b] == column_width(cells, b),
            forall|b: int| c <= b < ncols ==> widths@[b] == widest(cells, b, cells.len() as int),
        decreases ncols - c,
    {
        if widths[c] < 3 {
            widths.set(c, 3);
        }
        c = c + 1;
    }
    let ghost ws = column_widths(cells, ncols as nat);
    assert(forall|b: int| 0 <= b < ncols ==> widths@[b] == ws[b]);

    proof {
        reveal_strlit("|");
        reveal_strlit(" ");
        reveal_strlit(" |");
        reveal_strlit("-");
    }
    let ghost start = views(lines@);
    let mut r: usize = 0;
    while r < nrows
        invariant
            nrows == t.cells@.len(),
            ncols == t.columns,
            well_shaped(*t),
            cells == cell_views(*t),
            ws == column_widths(cells, ncols as nat),
            widths@.len() == ncols,
            forall|b: int| 0 <= b < ncols ==> widths@[b] == ws[b],
            r <= nrows,
            views(lines@) == start + row_lines(cells, ws, r as int),
            "|"@ == seq!['|'],
            " "@ == seq![' '],
            " |"@ == seq![' ', '|'],
            "-"@ == seq!['-'],
        decreases nrows - r,
    {
        let row = &t.cells[r];
        let mut line = String::new();
        line.append("|");
        let mut c: usize = 0;
        while c < ncols
            invariant
                nrows == t.cells@.len(),
                ncols == t.columns,
                well_shaped(*t),
                cells == cell_views(*t),
                ws == column_widths(cells, ncols as nat),
                widths@.len() == ncols,
                forall|b: int| 0 <= b < ncols ==> widths@[b] == ws[b],
                r < nrows,
                row == t.cells@[r as int],
                c <= ncols,
                line@ == seq!['|'] + cells_text(cells[r as int], ws, c as int),
                "|"@ == seq!['|'],
                " "@ == seq![' '],
                " |"@ == seq![' ', '|'],
            decreases ncols - c,
        {
            let cell = &row[c];
            proof {
                assert(row@.len() == ncols);
                assert(cells[r as int] == views(row@));
                assert(cells[r as int][c as int] == cell@);
                lemma_widest_bounds(cells, c as int, cells.len() as int, r as int);
            }
            let len = cell.as_str().len();
            assert(len == byte_len(cells[r as int][c as int]));
            assert(ws[c as int] == column_width(cells, c as int));
            assert(widths@[c as int] == column_width(cells, c as int));
            line.append(" ");
            line.append(cell.as_str());
            append_repeated(&mut line, " ", widths[c] - len);
            line.append(" |");
            proof {
                assert(line@ =~= seq!['|'] + cells_text(cells[r as int], ws, c + 1));
            }
            c = c + 1;
        }
        proof {
            assert(row@.len() == ncols);
            assert(cells[r as int] == views(row@));
            assert(line@ == row_line(cells[r as int], ws));
        }
        let ghost old_lines = lines@;
        lines.push(line);
        proof {
            assert(views(lines@) =~= views(old_lines).push(lines@.last()@));
            assert(views(lines@) =~= start + row_lines(cells, ws, r as int).push(
                row_line(cells[r as int], ws),
            ));
        }
        if r == 0 {
            let mut rule = String::new();
            rule.append("|");
            let mut c: usize = 0;
            while c < ncols
                invariant
                    ncols == t.columns,
                    ws == column_widths(cells, ncols as nat),
                    widths@.len() == ncols,
                    forall|b: int| 0 <= b < ncols ==> widths@[b] == ws[b],
                    c <= ncols,
                    rule@ == seq!['|'] + rule_text(ws, c as int),
                    " "@ == seq![' '],
                    " |"@ == seq![' ', '|'],
                    "-"@ == seq!['-'],
                decreases ncols - c,
            {
                rule.append(" ");
                append_repeated(&mut rule, "-", widths[c]);
                rule.append(" |");
                proof {
                    assert(rule@ =~= seq!['|'] + rule_text(ws, c + 1));
                }
                c = c + 1;
            }
            lines.push(rule);
            proof {
                assert(views(lines@) =~= start + row_lines(cells, ws, 1));
            }
        }
        r = r + 1;
    }
    assert(cells.len() == nrows);
}

/// Format detected tables as a markdown table; without a table, the page's
/// plain text.
pub fn to_table_text(page: &PageLayout) -> (s: String)
    ensures
        match grid_of(page.lines@) {
            None => s@ == page.text@,
            Some(g) => s@ == join(markdown_lines(g, g[0].len()), seq!['\n']),
        },
{
    let tables = detect_tables(page);
    if tables.len() == 0 {
        return page.text.clone();
    }
    let mut lines: Vec<String> = Vec::new();
    let nt = tables.len();
    let mut ti: usize = 0;
    while ti < nt
        invariant
            nt == tables@.len(),
            ti <= nt,
            forall|k: int| 0 <= k < nt ==> well_shaped(#[trigger] tables@[k]),
            views(lines@) == tables_lines(tables@, ti as int),
        decreases nt - ti,
    {
        if ti > 0 {
            lines.push(String::new());
        }
        push_table_lines(&tables[ti], &mut lines);
        ti = ti + 1;
    }
    proof {
        reveal_strlit("\n");
        assert("\n"@ =~= seq!['\n']);
        assert(tables_lines(tables@, 1) == table_lines(tables@[0]));
    }
    join_strings(&lines, "\n")
}

/// A detected grid has at least two rows and two columns, and every row has
/// as many cells as the first.
pub proof fn lemma_grid_shape(lines: Seq<LineLayout>)
    ensures
        grid_of(lines) matches Some(g) ==> g.len() >= 2 && g[0].len() >= 2 && forall|r: int|
            0 <= r < g.len() ==> (#[trigger] g[r]).len() == g[0].len(),
{
}

/// A page has a table exactly when its lines' extents make at least two row
/// bands and at least two column bands, whatever their numbers otherwise;
/// the table then has one row per row band and one column per column band.
pub proof fn lemma_table_exactly_when_two_by_two(lines: Seq<LineLayout>)
    ensures
        grid_of(lines) is Some <==> bands_of(row_extents(lines)).len() >= 2 && bands_of(
            column_extents(lines),
        ).len() >= 2,
        grid_of(lines) matches Some(g) ==> g.len() == bands_of(row_extents(lines)).len() && forall|r: int|
            0 <= r < g.len() ==> (#[trigger] g[r]).len() == bands_of(column_extents(lines)).len(),
{
}

/// Every column is at least three wide and wide enough for each of its cells.
pub proof fn lemma_column_width_fits(cells: Seq<Seq<Seq<char>>>, c: int)
    requires
        0 <= c,
    ensures
        column_width(cells, c) >= 3,
        forall|r: int|
            0 <= r < cells.len() && c < cells[r].len() ==> byte_len(#[trigger] cells[r][c]) <= column_width(
                cells,
                c,
            ),
{
    assert forall|r: int| 0 <= r < cells.len() && c < cells[r].len() implies byte_len(
        #[trigger] cells[r][c],
    ) <= column_width(cells, c) by {
        lemma_widest_bounds(cells, c, cells.len() as int, r);
    }
}

proof fn lemma_extents_hold_line(lines: Seq<LineLayout>, i: int, e: Extent)
    requires
        0 <= i < lines.len(),
        lines[i].extent == Some(e),
    ensures
        exists|k: int| 0 <= k < row_extents(lines).len() && #[trigger] row_extents(lines)[k] == (e.top, e.bottom),
        exists|k: int|
            0 <= k < column_extents(lines).len() && #[trigger] column_extents(lines)[k] == (e.left, e.right),
    decreases lines.len(),
{
    let prev = lines.drop_last();
    if i == lines.len() - 1 {
        assert(row_extents(lines)[row_extents(prev).len() as int] == (e.top, e.bottom));
        assert(column_extents(lines)[column_extents(prev).len() as int] == (e.left, e.right));
    } else {
        assert(prev[i] == lines[i]);
        lemma_extents_hold_line(prev, i, e);
        let k = choose|k: int| 0 <= k < row_extents(prev).len() && #[trigger] row_extents(prev)[k] == (e.top, e.bottom);
        assert(row_extents(lines)[k] == row_extents(prev)[k]);
        let l = choose|l: int|
            0 <= l < column_extents(prev).len() && #[trigger] column_extents(prev)[l] == (e.left, e.right);
        assert(column_extents(lines)[l] == column_extents(prev)[l]);
    }
}

proof fn lemma_cell_lines_hold_line(
    lines: Seq<LineLayout>,
    rows: Seq<Interval>,
    cols: Seq<Interval>,
    i: int,
    e: Extent,
    r: int,
    c: int,
)
    requires
        0 <= i < lines.len(),
        lines[i].extent == Some(e),
        in_cell(e, rows, cols, r, c),
    ensures
        cell_lines(lines, rows, cols, r, c).contains(lines[i].text@),
    decreases lines.len(),
{
    let prev = lines.drop_last();
    let cl = cell_lines(lines, rows, cols, r, c);
    if i == lines.len() - 1 {
        assert(cl[cl.len() - 1] == lines[i].text@);
    } else {
        assert(prev[i] == lines[i]);
        lemma_cell_lines_hold_line(prev, rows, cols, i, e, r, c);
        let pl = cell_lines(prev, rows, cols, r, c);
        let k = choose|k: int| 0 <= k < pl.len() && pl[k] == lines[i].text@;
        assert(cl[k] == pl[k]);
    }
}

/// No line is lost: a line whose box holds its own centre falls in some row
/// band and some column band, and its text is among the texts of that cell.
pub proof fn lemma_boxed_line_lands_in_cell(lines: Seq<LineLayout>, i: int, e: Extent)
    requires
        0 <= i < lines.len(),
        lines[i].extent == Some(e),
        e.holds_centre(),
    ensures
        ({
            let rows = bands_of(row_extents(lines));
            let cols = bands_of(column_extents(lines));
            &&& first_containing(rows, e.y_mid) is Some
            &&& first_containing(cols, e.x_mid) is Some
            &&& cell_lines(
                lines,
                rows,
                cols,
                first_containing(rows, e.y_mid)->Some_0,
                first_containing(cols, e.x_mid)->Some_0,
            ).contains(lines[i].text@)
        }),
{
    let rows = bands_of(row_extents(lines));
    let cols = bands_of(column_extents(lines));
    lemma_extents_hold_line(lines, i, e);
    let k = choose|k: int| 0 <= k < row_extents(lines).len() && #[trigger] row_extents(lines)[k] == (e.top, e.bottom);
    let l = choose|l: int|
        0 <= l < column_extents(lines).len() && #[trigger] column_extents(lines)[l] == (e.left, e.right);
    assert(contains_point(row_extents(lines)[k], e.y_mid));
    assert(contains_point(column_extents(lines)[l], e.x_mid));
    lemma_point_of_extent_finds_band(row_extents(lines), k, e.y_mid);
    lemma_point_of_extent_finds_band(column_extents(lines), l, e.x_mid);
    lemma_cell_lines_hold_line(
        lines,
        rows,
        cols,
        i,
        e,
        first_containing(rows, e.y_mid)->Some_0,
        first_containing(cols, e.x_mid)->Some_0,
    );
}

} // verus!
