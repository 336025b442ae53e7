//! Writing the split plan into an output workbook, under the destination
//! format's capacity ceilings.

use vstd::prelude::*;
use vstd::string::*;
use crate::plan::{
    SplitPlan, SplitError, SplitSummary, plan_matches, grid_accepted, groups_of, header_spec,
    name_at, exported_of, skipped_of, build_split_plan,
};

verus! {

/// Row indices must stay below this ceiling of the destination format.
pub const MAX_SHEET_ROWS: u32 = 1048576;

/// Column indices must stay below this ceiling of the destination format.
pub const MAX_SHEET_COLS: usize = 16384;

/// Longest cell text the destination format accepts, in characters.
pub const MAX_CELL_CHARS: usize = 32767;

#[verifier::external_type_specification]
#[verifier::external_body]
pub struct ExWorkbook(rust_xlsxwriter::Workbook);

#[verifier::external_type_specification]
#[verifier::external_body]
pub struct ExWorksheet(rust_xlsxwriter::Worksheet);

/// The text cells a worksheet holds, keyed by (row, column).
pub uninterp spec fn sheet_cells(ws: rust_xlsxwriter::Worksheet) -> Map<(int, int), Seq<char>>;

/// The name a worksheet carries.
pub uninterp spec fn sheet_name(ws: rust_xlsxwriter::Worksheet) -> Seq<char>;

/// The worksheets a workbook holds, in order, each as its name and cells.
pub uninterp spec fn workbook_sheets(wb: rust_xlsxwriter::Workbook) -> Seq<
    (Seq<char>, Map<(int, int), Seq<char>>),
>;

/// A name the storage layer accepts: non-empty, at most 31 characters, none
/// of `* ? : [ ] \ /`, and no apostrophe at either end.
pub open spec fn valid_sheet_name(s: Seq<char>) -> bool {
    &&& 1 <= s.len() <= 31
    &&& forall|i: int|
        0 <= i < s.len() ==> !(s[i] == '*' || s[i] == '?' || s[i] == ':' || s[i] == '['
            || s[i] == ']' || s[i] == '\\' || s[i] == '/')
    &&& s[0] != '\''
    &&& s[s.len() - 1] != '\''
}

/// The cells of a worksheet with nothing written.
pub open spec fn no_cells() -> Map<(int, int), Seq<char>> {
    Map::empty()
}

/// The sheet list of a workbook with no worksheets.
pub open spec fn no_sheets() -> Seq<(Seq<char>, Map<(int, int), Seq<char>>)> {
    Seq::empty()
}

/// Relies on `rust_xlsxwriter::Workbook::new`: a fresh workbook holds no
/// worksheets.
#[verifier::external_body]
pub(crate) fn new_workbook() -> (r: rust_xlsxwriter::Workbook)
    ensures
        workbook_sheets(r) == no_sheets(),
{
    rust_xlsxwriter::Workbook::new()
}

/// Relies on `rust_xlsxwriter::Worksheet::new`: a fresh worksheet holds no
/// cells and an empty name.
#[verifier::external_body]
pub(crate) fn new_worksheet() -> (r: rust_xlsxwriter::Worksheet)
    ensures
        sheet_cells(r) == no_cells(),
        sheet_name(r) == Seq::<char>::empty(),
{
    rust_xlsxwriter::Worksheet::new()
}

/// Relies on `rust_xlsxwriter::Worksheet::set_name`: it validates the name
/// (non-empty, at most 31 characters, no `* ? : [ ] \ /`, no apostrophe at
/// either end) and on success stores exactly it, leaving the cells alone; on
/// failure it changes nothing.
#[verifier::external_body]
pub(crate) fn set_sheet_name(ws: &mut rust_xlsxwriter::Worksheet, name: &str) -> (r: Result<
    (),
    String,
>)
    ensures
        r is Ok <==> valid_sheet_name(name@),
        sheet_cells(*final(ws)) == sheet_cells(*old(ws)),
        r is Ok ==> sheet_name(*final(ws)) == name@,
        r is Err ==> sheet_name(*final(ws)) == sheet_name(*old(ws)),
{
    ws.set_name(name).map(|_| ()).map_err(|e| e.to_string())
}

/// Relies on `rust_xlsxwriter::Worksheet::write_string`: an empty string is
/// ignored; otherwise the write succeeds exactly when the row index is below
/// 1,048,576, the column index below 16,384, and the text at most 32,767
/// characters, and then stores the text at (row, column); on failure it
/// stores nothing.
#[verifier::external_body]
pub(crate) fn write_cell_string(
    ws: &mut rust_xlsxwriter::Worksheet,
    row: u32,
    col: u16,
    s: &str,
) -> (r: Result<(), String>)
    ensures
        sheet_name(*final(ws)) == sheet_name(*old(ws)),
        s@.len() == 0 ==> r is Ok && sheet_cells(*final(ws)) == sheet_cells(*old(ws)),
        s@.len() > 0 ==> (r is Ok <==> (row < 1048576 && col < 16384 && s@.len() <= 32767)),
        s@.len() > 0 && r is Ok ==> sheet_cells(*final(ws)) == sheet_cells(*old(ws)).insert(
            (row as int, col as int),
            s@,
        ),
        r is Err ==> sheet_cells(*final(ws)) == sheet_cells(*old(ws)),
{
    ws.write_string(row, col, s).map(|_| ()).map_err(|e| e.to_string())
}

/// Relies on `rust_xlsxwriter::Workbook::push_worksheet`: a worksheet with a
/// non-empty name is appended as it is.
#[verifier::external_body]
pub(crate) fn push_sheet(wb: &mut rust_xlsxwriter::Workbook, ws: rust_xlsxwriter::Worksheet)
    requires
        sheet_name(ws).len() > 0,
    ensures
        workbook_sheets(*final(wb)) == workbook_sheets(*old(wb)).push(
            (sheet_name(ws), sheet_cells(ws)),
        ),
{
    wb.push_worksheet(ws)
}

/// The cells after writing `vals` as row `row`: each non-empty value at its
/// column, empty values ignored.
pub open spec fn row_written(
    m: Map<(int, int), Seq<char>>,
    row: int,
    vals: Seq<Seq<char>>,
) -> Map<(int, int), Seq<char>>
    decreases vals.len(),
{
    if vals.len() == 0 {
        m
    } else {
        let prev = row_written(m, row, vals.drop_last());
        if vals.last().len() == 0 {
            prev
        } else {
            prev.insert((row, vals.len() - 1), vals.last())
        }
    }
}

/// A row the destination format accepts in full.
pub open spec fn row_fits(vals: Seq<Seq<char>>) -> bool {
    vals.len() <= MAX_SHEET_COLS && forall|i: int|
        0 <= i < vals.len() ==> #[trigger] vals[i].len() <= MAX_CELL_CHARS as nat
}

/// Writes a fixed-width row of values into the worksheet at `row_index`,
/// enforcing the row and column capacity ceilings.
pub fn write_row(
    worksheet: &mut rust_xlsxwriter::Worksheet,
    row_index: u32,
    values: &Vec<String>,
) -> (r: Result<(), SplitError>)
    ensures
        sheet_name(*final(worksheet)) == sheet_name(*old(worksheet)),
        r is Ok <==> (row_index < MAX_SHEET_ROWS && row_fits(values.deep_view())),
        r is Ok ==> sheet_cells(*final(worksheet)) == row_written(
            sheet_cells(*old(worksheet)),
            row_index as int,
            values.deep_view(),
        ),
        r matches Err(e) ==> (e is RowCapacity || e is ColumnCapacity || e is CellTooLong),
        (r matches Err(e) && e is RowCapacity) <==> row_index >= MAX_SHEET_ROWS,
        (r matches Err(e) && e is ColumnCapacity) ==> values.len() > MAX_SHEET_COLS,
        (r matches Err(e) && e is CellTooLong) ==> exists|i: int|
            0 <= i < values.len() && values[i]@.len() > MAX_CELL_CHARS as nat,
{
    let ghost vals = values.deep_view();
    let ghost cells0 = sheet_cells(*worksheet);
    if row_index >= MAX_SHEET_ROWS {
        return Err(SplitError::RowCapacity);
    }
    let mut cidx: usize = 0;
    while cidx < values.len()
        invariant
            0 <= cidx <= values.len(),
            cidx <= MAX_SHEET_COLS,
            vals == values.deep_view(),
            vals.len() == values.len(),
            row_index < MAX_SHEET_ROWS,
            sheet_name(*worksheet) == sheet_name(*old(worksheet)),
            cells0 == sheet_cells(*old(worksheet)),
            sheet_cells(*worksheet) == row_written(
                cells0,
                row_index as int,
                vals.subrange(0, cidx as int),
            ),
            forall|i: int| 0 <= i < cidx ==> #[trigger] vals[i].len() <= MAX_CELL_CHARS as nat,
        decreases values.len() - cidx,
    {
        if cidx >= MAX_SHEET_COLS {
            return Err(SplitError::ColumnCapacity);
        }
        proof {
            assert(vals[cidx as int] == values@[cidx as int]@);
        }
        let res = write_cell_string(worksheet, row_index, cidx as u16, values[cidx].as_str());
        proof {
            assert(vals.subrange(0, cidx + 1).drop_last() =~= vals.subrange(0, cidx as int));
            assert(vals.subrange(0, cidx + 1).last() == vals[cidx as int]);
        }
        match res {
            Ok(()) => {},
            Err(_) => {
                return Err(SplitError::CellTooLong);
            },
        }
        cidx += 1;
    }
    proof {
        assert(vals.subrange(0, vals.len() as int) =~= vals);
    }
    Ok(())
}

/// The cells after writing `rows` at row indices `1..`, on top of `m`.
pub open spec fn rows_written(
    m: Map<(int, int), Seq<char>>,
    rows: Seq<Seq<Seq<char>>>,
) -> Map<(int, int), Seq<char>>
    decreases rows.len(),
{
    if rows.len() == 0 {
        m
    } else {
        row_written(rows_written(m, rows.drop_last()), rows.len() as int, rows.last())
    }
}

/// The full cells of one output sheet: header at row 0, the group's rows at
/// rows 1 and up.
pub open spec fn sheet_content(
    header: Seq<Seq<char>>,
    rows: Seq<Seq<Seq<char>>>,
) -> Map<(int, int), Seq<char>> {
    rows_written(row_written(no_cells(), 0, header), rows)
}

/// A sheet the destination format accepts in full.
pub open spec fn sheet_writable(header: Seq<Seq<char>>, rows: Seq<Seq<Seq<char>>>) -> bool {
    &&& row_fits(header)
    &&& rows.len() < MAX_SHEET_ROWS as nat
    &&& forall|i: int| 0 <= i < rows.len() ==> row_fits(#[trigger] rows[i])
}

/// Every sheet of the plan can be written and named.
pub open spec fn plan_writable(plan: SplitPlan) -> bool {
    forall|i: int|
        0 <= i < plan.sheets.len() ==> valid_sheet_name((#[trigger] plan.sheets[i]).name@)
            && sheet_writable(plan.header.deep_view(), plan.sheets[i].rows.deep_view())
}

/// Builds the output workbook from a split plan: one worksheet per group,
/// named as planned, header at row 0 and the group's rows below it.
#[verifier::rlimit(50)]
#[verifier::spinoff_prover]
pub fn build_workbook(plan: &SplitPlan) -> (r: Result<rust_xlsxwriter::Workbook, SplitError>)
    ensures
        r is Ok <==> plan_writable(*plan),
        r is Ok ==> workbook_sheets(r.unwrap()).len() == plan.sheets.len(),
        r is Ok ==> forall|i: int|
            0 <= i < plan.sheets.len() ==> (#[trigger] workbook_sheets(r.unwrap())[i]).0
                == plan.sheets[i].name@ && workbook_sheets(r.unwrap())[i].1 == sheet_content(
                plan.header.deep_view(),
                plan.sheets[i].rows.deep_view(),
            ),
        r matches Err(e) ==> (e is RowCapacity || e is ColumnCapacity || e is CellTooLong
            || e is NameRejected),
        r matches Err(e) ==> (e matches SplitError::NameRejected(nm) ==> exists|i: int|
            0 <= i < plan.sheets.len() && (#[trigger] plan.sheets[i]).name@ == nm@
                && !valid_sheet_name(nm@)),
{
    let mut wb = new_workbook();
    let ghost header = plan.header.deep_view();
    let n = plan.sheets.len();
    let mut i: usize = 0;
    while i < n
        invariant
            0 <= i <= n,
            n == plan.sheets.len(),
            header == plan.header.deep_view(),
            workbook_sheets(wb).len() == i,
            forall|m: int|
                0 <= m < i ==> (#[trigger] workbook_sheets(wb)[m]).0 == plan.sheets[m].name@
                    && workbook_sheets(wb)[m].1 == sheet_content(
                    header,
                    plan.sheets[m].rows.deep_view(),
                ),
            forall|m: int|
                0 <= m < i ==> valid_sheet_name((#[trigger] plan.sheets[m]).name@)
                    && sheet_writable(header, plan.sheets[m].rows.deep_view()),
        decreases n - i,
    {
        let sp = &plan.sheets[i];
        let ghost rows = sp.rows.deep_view();
        let mut ws = new_worksheet();
        match set_sheet_name(&mut ws, sp.name.as_str()) {
            Ok(()) => {},
            Err(_) => {
                return Err(SplitError::NameRejected(sp.name.clone()));
            },
        }
        if sp.rows.len() >= MAX_SHEET_ROWS as usize {
            return Err(SplitError::RowCapacity);
        }
        match write_row(&mut ws, 0, &plan.header) {
            Ok(()) => {},
            Err(e) => {
                return Err(e);
            },
        }
        let nr = sp.rows.len();
        let mut ridx: usize = 0;
        while ridx < nr
            invariant
                0 <= ridx <= nr,
                nr == sp.rows.len(),
                nr < MAX_SHEET_ROWS as nat,
                sp == &plan.sheets[i as int],
                i < n == plan.sheets.len(),
                rows == sp.rows.deep_view(),
                header == plan.header.deep_view(),
                row_fits(header),
                valid_sheet_name(sheet_name(ws)),
                sheet_name(ws) == sp.name@,
                sheet_cells(ws) == rows_written(
                    row_written(no_cells(), 0, header),
                    rows.subrange(0, ridx as int),
                ),
                forall|m: int| 0 <= m < ridx ==> row_fits(#[trigger] rows[m]),
            decreases nr - ridx,
        {
            proof {
                assert(rows[ridx as int] == sp.rows@[ridx as int].deep_view());
            }
            let res = write_row(&mut ws, (ridx + 1) as u32, &sp.rows[ridx]);
            proof {
                assert(rows.subrange(0, ridx + 1).drop_last() =~= rows.subrange(0, ridx as int));
                assert(rows.subrange(0, ridx + 1).last() == rows[ridx as int]);
                assert(rows.subrange(0, ridx + 1).len() == ridx + 1);
            }
            match res {
                Ok(()) => {},
                Err(e) => {
                    return Err(e);
                },
            }
            ridx += 1;
        }
        proof {
            assert(rows.subrange(0, nr as int) =~= rows);
        }
        let ghost prev_sheets = workbook_sheets(wb);
        push_sheet(&mut wb, ws);
        proof {
            assert(workbook_sheets(wb) == prev_sheets.push((sheet_name(ws), sheet_cells(ws))));
            assert(sheet_cells(ws) == sheet_content(header, plan.sheets[i as int].rows.deep_view()));
            assert(workbook_sheets(wb)[i as int].0 == plan.sheets[i as int].name@);
            assert forall|m: int| 0 <= m < i + 1 implies (#[trigger] workbook_sheets(wb)[m]).0
                == plan.sheets[m].name@ && workbook_sheets(wb)[m].1 == sheet_content(
                header,
                plan.sheets[m].rows.deep_view(),
            ) by {
                if m < i {
                    assert(workbook_sheets(wb)[m] == prev_sheets[m]);
                } else {
                    assert(prev_sheets.len() == i as int);
                    assert(workbook_sheets(wb)[m] == (sheet_name(ws), sheet_cells(ws)));
                }
            }
        }
        i += 1;
    }
    Ok(wb)
}

/// The grid shapes and generated names on which the whole split succeeds.
pub open spec fn split_succeeds(g: Seq<Seq<Seq<char>>>) -> bool {
    let gs = groups_of(g, g.len() as int);
    grid_accepted(g) && forall|i: int|
        0 <= i < gs.len() ==> valid_sheet_name(#[trigger] name_at(gs, i)) && sheet_writable(
            header_spec(g[0]),
            gs[i].1,
        )
}

/// The workbook and summary a successful split owes the caller: one sheet
/// per group, in ascending key order, named and filled as the model says,
/// and the aggregate counts.
pub open spec fn split_output_matches(
    g: Seq<Seq<Seq<char>>>,
    wb: rust_xlsxwriter::Workbook,
    summary: SplitSummary,
) -> bool {
    let gs = groups_of(g, g.len() as int);
    &&& summary.sheets_created == gs.len()
    &&& summary.rows_exported == exported_of(g, g.len() as int)
    &&& summary.skipped_invalid_rows == skipped_of(g, g.len() as int)
    &&& summary.rows_exported + summary.skipped_invalid_rows == g.len() - 1
    &&& workbook_sheets(wb).len() == gs.len()
    &&& forall|i: int|
        0 <= i < gs.len() ==> #[trigger] workbook_sheets(wb)[i].0 == name_at(gs, i)
            && workbook_sheets(wb)[i].1 == sheet_content(header_spec(g[0]), gs[i].1)
}

/// Splits a grid of display strings into an output workbook, one worksheet
/// per order id in ascending key order, and reports the aggregate outcome.
pub fn split_grid(grid: &Vec<Vec<String>>) -> (r: Result<
    (rust_xlsxwriter::Workbook, SplitSummary),
    SplitError,
>)
    ensures
        (r matches Err(e) && e is EmptyInput) <==> (grid.deep_view().len() == 0
            || grid.deep_view()[0].len() == 0),
        (r matches Err(e) && e is TooNarrow) <==> (grid.deep_view().len() > 0 && 0
            < grid.deep_view()[0].len() <= 11),
        (r matches Err(e) && e is NoValidRows) <==> (grid.deep_view().len() > 0
            && grid.deep_view()[0].len() > 11 && groups_of(
            grid.deep_view(),
            grid.deep_view().len() as int,
        ).len() == 0),
        r is Ok <==> split_succeeds(grid.deep_view()),
        r is Ok ==> split_output_matches(grid.deep_view(), r.unwrap().0, r.unwrap().1),
{
    let ghost g = grid.deep_view();
    let ghost gs = groups_of(g, g.len() as int);
    let plan = match build_split_plan(grid) {
        Ok(p) => p,
        Err(e) => {
            return Err(e);
        },
    };
    proof {
        assert(plan_matches(g, plan));
        assert forall|i: int| 0 <= i < gs.len() implies (#[trigger] plan.sheets[i]).name@
            == name_at(gs, i) && plan.sheets[i].rows.deep_view() == gs[i].1 by {
            assert(plan.sheets[i].order@ == gs[i].0);
        }
        assert(plan.header.deep_view() == header_spec(g[0]));
        assert(plan.sheets.len() == gs.len());
    }
    let wb = match build_workbook(&plan) {
        Ok(w) => w,
        Err(e) => {
            proof {
                if forall|i: int|
                    0 <= i < gs.len() ==> valid_sheet_name(#[trigger] name_at(gs, i))
                        && sheet_writable(header_spec(g[0]), gs[i].1) {
                    assert forall|i: int| 0 <= i < plan.sheets.len() implies valid_sheet_name(
                        (#[trigger] plan.sheets[i]).name@,
                    ) && sheet_writable(
                        plan.header.deep_view(),
                        plan.sheets[i].rows.deep_view(),
                    ) by {
                        assert(valid_sheet_name(name_at(gs, i)));
                        assert(sheet_writable(header_spec(g[0]), gs[i].1));
                    }
                    assert(plan_writable(plan));
                }
            }
            return Err(e);
        },
    };
    proof {
        assert forall|i: int| 0 <= i < gs.len() implies valid_sheet_name(
            #[trigger] name_at(gs, i),
        ) && sheet_writable(header_spec(g[0]), gs[i].1) by {
            assert(valid_sheet_name(plan.sheets[i].name@) && sheet_writable(
                plan.header.deep_view(),
                plan.sheets[i].rows.deep_view(),
            ));
        }
        assert forall|i: int| 0 <= i < gs.len() implies #[trigger] workbook_sheets(wb)[i].0
            == name_at(gs, i) && workbook_sheets(wb)[i].1 == sheet_content(
            header_spec(g[0]),
            gs[i].1,
        ) by {
            assert(workbook_sheets(wb)[i].0 == plan.sheets[i].name@);
            assert(workbook_sheets(wb)[i].1 == sheet_content(
                plan.header.deep_view(),
                plan.sheets[i].rows.deep_view(),
            ));
        }
    }
    let summary = SplitSummary {
        sheets_created: plan.sheets.len(),
        rows_exported: plan.rows_exported,
        skipped_invalid_rows: plan.skipped_invalid_rows,
    };
    Ok((wb, summary))
}

} // verus!

