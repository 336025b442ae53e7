//! The split plan: grouping data rows by order id and naming the sheets.

use vstd::prelude::*;
use vstd::string::*;
use crate::text::{lex_lt, lemma_lex_lt_connected, lemma_lex_lt_trans};
use crate::keys::{parse_key, parse_order_and_operation};
use crate::names::{
    sanitize_spec, unique_name_spec, sanitize_sheet_name, make_unique_sheet_name, NameRegistry,
};

verus! {

/// An ordered association from order ids to the transformed rows of the
/// group, as a sequence of pairs.
pub type GroupsModel = Seq<(Seq<char>, Seq<Seq<Seq<char>>>)>;

/// The value of a cell in a row of display strings, empty when the column
/// index is out of range.
pub open spec fn cell_at(row: Seq<Seq<char>>, c: int) -> Seq<char> {
    if 0 <= c < row.len() {
        row[c]
    } else {
        Seq::empty()
    }
}

/// The fixed nine-field projection of a data row, with the parsed order and
/// operation ids in the middle.
pub open spec fn transformed_spec(row: Seq<Seq<char>>, ord: Seq<char>, op: Seq<char>) -> Seq<
    Seq<char>,
> {
    seq![
        cell_at(row, 2),
        cell_at(row, 3),
        ord,
        op,
        cell_at(row, 7),
        cell_at(row, 8),
        cell_at(row, 9),
        cell_at(row, 10),
        cell_at(row, 11),
    ]
}

/// The output header: the same projection of the header row, with the two
/// derived fields replaced by literal labels.
pub open spec fn header_spec(row: Seq<Seq<char>>) -> Seq<Seq<char>> {
    seq![
        cell_at(row, 2),
        cell_at(row, 3),
        "order number"@,
        "operation number"@,
        cell_at(row, 7),
        cell_at(row, 8),
        cell_at(row, 9),
        cell_at(row, 10),
        cell_at(row, 11),
    ]
}

/// Group keys are in strictly ascending lexicographic order.
pub open spec fn sorted_groups(gs: GroupsModel) -> bool {
    forall|i: int, j: int| 0 <= i < j < gs.len() ==> lex_lt(gs[i].0, gs[j].0)
}

/// Adds one transformed row under key `k`, keeping keys sorted and appending
/// to the rows of an existing key.
pub open spec fn insert_group(gs: GroupsModel, k: Seq<char>, row: Seq<Seq<char>>) -> GroupsModel
    decreases gs.len(),
{
    if gs.len() == 0 {
        seq![(k, seq![row])]
    } else if lex_lt(k, gs[0].0) {
        seq![(k, seq![row])] + gs
    } else if k == gs[0].0 {
        seq![(gs[0].0, gs[0].1.push(row))] + gs.subrange(1, gs.len() as int)
    } else {
        seq![gs[0]] + insert_group(gs.subrange(1, gs.len() as int), k, row)
    }
}

/// Every key of the result is `k` or a key of `gs`, and the result stays
/// sorted.
proof fn lemma_insert_group_sorted(gs: GroupsModel, k: Seq<char>, row: Seq<Seq<char>>)
    requires
        sorted_groups(gs),
    ensures
        sorted_groups(insert_group(gs, k, row)),
        forall|i: int|
            0 <= i < insert_group(gs, k, row).len() ==> insert_group(gs, k, row)[i].0 == k
                || exists|m: int| 0 <= m < gs.len() && gs[m].0 == #[trigger] insert_group(
                gs,
                k,
                row,
            )[i].0,
    decreases gs.len(),
{
    let r = insert_group(gs, k, row);
    if gs.len() == 0 {
    } else if lex_lt(k, gs[0].0) {
        assert forall|i: int, j: int| 0 <= i < j < r.len() implies lex_lt(r[i].0, r[j].0) by {
            if i == 0 {
                if j > 1 {
                    lemma_lex_lt_trans(k, gs[0].0, gs[j - 1].0);
                }
            }
        }
        assert forall|i: int| 0 <= i < r.len() implies r[i].0 == k || exists|m: int|
            0 <= m < gs.len() && gs[m].0 == r[i].0 by {
            if i > 0 {
                assert(gs[i - 1].0 == r[i].0);
            }
        }
    } else if k == gs[0].0 {
        assert forall|i: int| 0 <= i < r.len() implies r[i].0 == k || exists|m: int|
            0 <= m < gs.len() && gs[m].0 == r[i].0 by {
            if i > 0 {
                assert(gs[i].0 == r[i].0);
            }
        }
        assert forall|i: int, j: int| 0 <= i < j < r.len() implies lex_lt(r[i].0, r[j].0) by {
            assert(r[i].0 == gs[i].0);
            assert(r[j].0 == gs[j].0);
        }
    } else {
        let tail = gs.subrange(1, gs.len() as int);
        lemma_insert_group_sorted(tail, k, row);
        let rt = insert_group(tail, k, row);
        assert(r =~= seq![gs[0]] + rt);
        lemma_lex_lt_connected(k, gs[0].0);
        assert(lex_lt(gs[0].0, k));
        assert forall|i: int| 0 <= i < r.len() implies r[i].0 == k || exists|m: int|
            0 <= m < gs.len() && gs[m].0 == r[i].0 by {
            if i == 0 {
                assert(gs[0].0 == r[0].0);
            } else {
                assert(r[i].0 == rt[i - 1].0);
                if rt[i - 1].0 != k {
                    let m = choose|m: int| 0 <= m < tail.len() && tail[m].0 == rt[i - 1].0;
                    assert(gs[m + 1].0 == r[i].0);
                }
            }
        }
        assert forall|i: int, j: int| 0 <= i < j < r.len() implies lex_lt(r[i].0, r[j].0) by {
            if i == 0 {
                assert(r[j].0 == rt[j - 1].0);
                if rt[j - 1].0 == k {
                    assert(lex_lt(gs[0].0, k));
                } else {
                    let m = choose|m: int| 0 <= m < tail.len() && tail[m].0 == rt[j - 1].0;
                    assert(lex_lt(gs[0].0, gs[m + 1].0));
                }
            } else {
                assert(r[i].0 == rt[i - 1].0 && r[j].0 == rt[j - 1].0);
            }
        }
    }
}

/// Where the scan in the sorted key list stops, `insert_group` either updates
/// the entry in place or inserts a fresh entry.
proof fn lemma_insert_group_at(gs: GroupsModel, k: Seq<char>, row: Seq<Seq<char>>, j: int)
    requires
        sorted_groups(gs),
        0 <= j <= gs.len(),
        forall|i: int| 0 <= i < j ==> lex_lt(gs[i].0, k),
        j < gs.len() ==> !lex_lt(gs[j].0, k),
    ensures
        j < gs.len() && gs[j].0 == k ==> insert_group(gs, k, row) == gs.update(
            j,
            (k, gs[j].1.push(row)),
        ),
        !(j < gs.len() && gs[j].0 == k) ==> insert_group(gs, k, row) == gs.subrange(0, j)
            + seq![(k, seq![row])] + gs.subrange(j, gs.len() as int),
    decreases j,
{
    if j == 0 {
        if gs.len() == 0 {
            assert(insert_group(gs, k, row) =~= gs.subrange(0, 0) + seq![(k, seq![row])]
                + gs.subrange(0, 0));
        } else if gs[0].0 == k {
            assert(insert_group(gs, k, row) =~= gs.update(0, (k, gs[0].1.push(row))));
        } else {
            lemma_lex_lt_connected(k, gs[0].0);
            assert(lex_lt(k, gs[0].0));
            assert(insert_group(gs, k, row) =~= gs.subrange(0, 0) + seq![(k, seq![row])]
                + gs.subrange(0, gs.len() as int));
        }
    } else {
        lemma_lex_lt_connected(gs[0].0, k);
        assert(!lex_lt(k, gs[0].0) && k != gs[0].0);
        let tail = gs.subrange(1, gs.len() as int);
        assert(forall|i: int| 0 <= i < j - 1 ==> lex_lt(tail[i].0, k));
        lemma_insert_group_at(tail, k, row, j - 1);
        if j < gs.len() && gs[j].0 == k {
            assert(tail[j - 1].0 == k);
            assert(insert_group(gs, k, row) =~= gs.update(j, (k, gs[j].1.push(row))));
        } else {
            assert(insert_group(gs, k, row) =~= gs.subrange(0, j) + seq![(k, seq![row])]
                + gs.subrange(j, gs.len() as int));
        }
    }
}

/// The association model of two parallel vectors of keys and row groups.
pub open spec fn model_of(keys: Seq<String>, rows: Seq<Vec<Vec<String>>>) -> GroupsModel {
    Seq::new(keys.len(), |i: int| (keys[i]@, rows[i].deep_view()))
}

/// The groups after processing data rows `1..n` of the grid, keyed by order
/// id in ascending order, rows in input order.
pub open spec fn groups_of(g: Seq<Seq<Seq<char>>>, n: int) -> GroupsModel
    decreases n,
{
    if n <= 1 {
        Seq::empty()
    } else {
        let prev = groups_of(g, n - 1);
        let pk = parse_key(cell_at(g[n - 1], 6));
        if pk is None {
            prev
        } else {
            insert_group(prev, pk.unwrap().0, transformed_spec(g[n - 1], pk.unwrap().0, pk.unwrap().1))
        }
    }
}

/// Number of data rows among `1..n` whose compound key does not parse.
pub open spec fn skipped_of(g: Seq<Seq<Seq<char>>>, n: int) -> nat
    decreases n,
{
    if n <= 1 {
        0
    } else {
        skipped_of(g, n - 1) + if parse_key(cell_at(g[n - 1], 6)) is None {
            1nat
        } else {
            0nat
        }
    }
}

/// Number of data rows among `1..n` whose compound key parses.
pub open spec fn exported_of(g: Seq<Seq<Seq<char>>>, n: int) -> nat
    decreases n,
{
    if n <= 1 {
        0
    } else {
        exported_of(g, n - 1) + if parse_key(cell_at(g[n - 1], 6)) is None {
            0nat
        } else {
            1nat
        }
    }
}

/// Every data row is either exported or skipped: the two counts always sum
/// to the number of data rows processed.
pub proof fn lemma_conservation(g: Seq<Seq<Seq<char>>>, n: int)
    requires
        n >= 1,
    ensures
        exported_of(g, n) + skipped_of(g, n) == n - 1,
    decreases n,
{
    if n > 1 {
        lemma_conservation(g, n - 1);
    }
}

/// The sanitized base name of group `i`.
pub open spec fn base_at(gs: GroupsModel, i: int) -> Seq<char> {
    sanitize_spec(gs[i].0)
}

/// How many of the first `n` groups share base name `b`.
pub open spec fn count_base(gs: GroupsModel, b: Seq<char>, n: int) -> nat
    decreases n,
{
    if n <= 0 {
        0
    } else {
        count_base(gs, b, n - 1) + if base_at(gs, n - 1) == b {
            1nat
        } else {
            0nat
        }
    }
}

proof fn lemma_count_base_le(gs: GroupsModel, b: Seq<char>, n: int)
    requires
        n >= 0,
    ensures
        count_base(gs, b, n) <= n,
    decreases n,
{
    if n > 0 {
        lemma_count_base_le(gs, b, n - 1);
    }
}

/// The worksheet name assigned to group `i`, given the groups before it.
pub open spec fn name_at(gs: GroupsModel, i: int) -> Seq<char> {
    unique_name_spec(base_at(gs, i), count_base(gs, base_at(gs, i), i) + 1)
}

/// One output worksheet of the plan: the raw order id, the generated sheet
/// name, and the transformed data rows in input order.
pub struct SheetPlan {
    pub order: String,
    pub name: String,
    pub rows: Vec<Vec<String>>,
}

/// Everything the writing phase needs, together with the aggregate counts.
pub struct SplitPlan {
    pub header: Vec<String>,
    pub sheets: Vec<SheetPlan>,
    pub rows_exported: usize,
    pub skipped_invalid_rows: usize,
}

/// Aggregate outcome of one split: counts of sheets and rows.
pub struct SplitSummary {
    pub sheets_created: usize,
    pub rows_exported: usize,
    pub skipped_invalid_rows: usize,
}

/// Why a split failed.
#[derive(Debug)]
pub enum SplitError {
    /// The input grid has no rows or no columns.
    EmptyInput,
    /// The input grid does not reach the required source columns.
    TooNarrow,
    /// No data row had a well-formed compound key.
    NoValidRows,
    /// A row index reached the destination row ceiling.
    RowCapacity,
    /// A column index reached the destination column ceiling.
    ColumnCapacity,
    /// A cell value is too long for the destination format.
    CellTooLong,
    /// The storage layer rejected a generated sheet name.
    NameRejected(String),
}

impl SplitError {
    /// The descriptive text surfaced to the caller for this error.
    pub fn message(&self) -> (r: String)
        ensures
            self is EmptyInput ==> r@ == "the sheet is empty or unreadable"@,
            self is TooNarrow ==> r@ == "the data must reach at least column L"@,
            self is NoValidRows
                ==> r@ == "no valid rows: the key column must be <order>/<operation>"@,
            self is RowCapacity ==> r@ == "the worksheet row limit was exceeded"@,
            self is ColumnCapacity ==> r@ == "the worksheet column limit was exceeded"@,
            self is CellTooLong ==> r@ == "a cell value is too long for the worksheet"@,
            self matches SplitError::NameRejected(n) ==> r@ == "sheet name rejected: "@ + n@,
    {
        match self {
            SplitError::EmptyInput => "the sheet is empty or unreadable".to_owned(),
            SplitError::TooNarrow => "the data must reach at least column L".to_owned(),
            SplitError::NoValidRows => "no valid rows: the key column must be <order>/<operation>"
                .to_owned(),
            SplitError::RowCapacity => "the worksheet row limit was exceeded".to_owned(),
            SplitError::ColumnCapacity => "the worksheet column limit was exceeded".to_owned(),
            SplitError::CellTooLong => "a cell value is too long for the worksheet".to_owned(),
            SplitError::NameRejected(n) => "sheet name rejected: ".to_owned().concat(n.as_str()),
        }
    }
}

/// The plan fields agree with the grouping model of the grid.
pub open spec fn plan_matches(g: Seq<Seq<Seq<char>>>, plan: SplitPlan) -> bool {
    let gs = groups_of(g, g.len() as int);
    &&& plan.header.deep_view() == header_spec(g[0])
    &&& plan.sheets.len() == gs.len()
    &&& forall|i: int|
        0 <= i < gs.len() ==> (#[trigger] plan.sheets[i]).order@ == gs[i].0
            && plan.sheets[i].rows.deep_view() == gs[i].1 && plan.sheets[i].name@ == name_at(
            gs,
            i,
        )
    &&& plan.rows_exported == exported_of(g, g.len() as int)
    &&& plan.skipped_invalid_rows == skipped_of(g, g.len() as int)
}

/// The grid shapes on which a split can proceed at all.
pub open spec fn grid_accepted(g: Seq<Seq<Seq<char>>>) -> bool {
    g.len() > 0 && g[0].len() > 11 && groups_of(g, g.len() as int).len() > 0
}

/// The value of cell `idx` of a row, or the empty string when the index is
/// out of range for that row.
pub fn get_cell_value(row: &Vec<String>, idx: usize) -> (r: String)
    ensures
        r@ == cell_at(row.deep_view(), idx as int),
{
    if idx < row.len() {
        row[idx].clone()
    } else {
        String::new()
    }
}

fn transformed_row(row: &Vec<String>, ord: String, op: String) -> (r: Vec<String>)
    ensures
        r.deep_view() == transformed_spec(row.deep_view(), ord@, op@),
{
    let mut r: Vec<String> = Vec::new();
    r.push(get_cell_value(row, 2));
    r.push(get_cell_value(row, 3));
    r.push(ord);
    r.push(op);
    r.push(get_cell_value(row, 7));
    r.push(get_cell_value(row, 8));
    r.push(get_cell_value(row, 9));
    r.push(get_cell_value(row, 10));
    r.push(get_cell_value(row, 11));
    proof {
        assert(r.deep_view() =~= transformed_spec(row.deep_view(), ord@, op@));
    }
    r
}

fn insert_grouped_row(
    keys: &mut Vec<String>,
    rowsv: &mut Vec<Vec<Vec<String>>>,
    order: String,
    row: Vec<String>,
)
    requires
        old(keys).len() == old(rowsv).len(),
        sorted_groups(model_of(old(keys)@, old(rowsv)@)),
    ensures
        final(keys).len() == final(rowsv).len(),
        model_of(final(keys)@, final(rowsv)@) == insert_group(
            model_of(old(keys)@, old(rowsv)@),
            order@,
            row.deep_view(),
        ),
        sorted_groups(model_of(final(keys)@, final(rowsv)@)),
{
    let ghost gs = model_of(keys@, rowsv@);
    proof {
        lemma_insert_group_sorted(gs, order@, row.deep_view());
    }
    let n = keys.len();
    let mut j: usize = 0;
    while j < n && crate::text::str_lex_lt(keys[j].as_str(), order.as_str())
        invariant
            0 <= j <= n,
            n == keys.len(),
            keys.len() == rowsv.len(),
            gs == model_of(keys@, rowsv@),
            forall|m: int| 0 <= m < j ==> lex_lt(gs[m].0, order@),
        decreases n - j,
    {
        j += 1;
    }
    proof {
        lemma_insert_group_at(gs, order@, row.deep_view(), j as int);
    }
    if j < n && crate::text::str_eq(keys[j].as_str(), order.as_str()) {
        let ghost target = gs.update(j as int, (order@, gs[j as int].1.push(row.deep_view())));
        let ghost oldelem = rowsv@[j as int];
        rowsv[j].push(row);
        proof {
            assert(rowsv@[j as int]@ == oldelem@.push(row));
            assert(rowsv@[j as int].deep_view() =~= oldelem.deep_view().push(row.deep_view()));
            assert(model_of(keys@, rowsv@) =~= target);
        }
    } else {
        let ghost target = gs.subrange(0, j as int) + seq![(order@, seq![row.deep_view()])]
            + gs.subrange(j as int, gs.len() as int);
        let mut single: Vec<Vec<String>> = Vec::new();
        single.push(row);
        keys.insert(j, order);
        rowsv.insert(j, single);
        proof {
            assert(single.deep_view() =~= seq![row.deep_view()]);
            assert(model_of(keys@, rowsv@) =~= target);
        }
    }
}

/// Reads the grid of display strings and produces the full split plan:
/// header projection, groups in ascending key order with their generated
/// sheet names, and the row accounting.  Fails on an empty grid, a grid that
/// is too narrow, and a grid with no valid data row.
pub fn build_split_plan(grid: &Vec<Vec<String>>) -> (r: Result<SplitPlan, SplitError>)
    ensures
        ({
            let g = grid.deep_view();
            &&& (r matches Err(e) && e is EmptyInput) <==> (g.len() == 0 || g[0].len() == 0)
            &&& (r matches Err(e) && e is TooNarrow) <==> (g.len() > 0 && 0 < g[0].len() <= 11)
            &&& (r matches Err(e) && e is NoValidRows) <==> (g.len() > 0 && g[0].len() > 11
                && groups_of(g, g.len() as int).len() == 0)
            &&& r is Ok <==> grid_accepted(g)
            &&& r is Ok ==> plan_matches(g, r.unwrap())
            &&& r is Ok ==> sorted_groups(groups_of(g, g.len() as int))
            &&& r is Ok ==> r.unwrap().rows_exported + r.unwrap().skipped_invalid_rows == g.len()
                - 1
        }),
{
    let ghost g = grid.deep_view();
    proof {
        assert forall|i: int| 0 <= i < grid@.len() implies g[i] == grid@[i].deep_view() by {}
    }
    if grid.len() == 0 {
        return Err(SplitError::EmptyInput);
    }
    if grid[0].len() == 0 {
        return Err(SplitError::EmptyInput);
    }
    if grid[0].len() <= 11 {
        return Err(SplitError::TooNarrow);
    }
    let hrow = &grid[0];
    let mut header: Vec<String> = Vec::new();
    header.push(get_cell_value(hrow, 2));
    header.push(get_cell_value(hrow, 3));
    header.push("order number".to_owned());
    header.push("operation number".to_owned());
    header.push(get_cell_value(hrow, 7));
    header.push(get_cell_value(hrow, 8));
    header.push(get_cell_value(hrow, 9));
    header.push(get_cell_value(hrow, 10));
    header.push(get_cell_value(hrow, 11));
    proof {
        assert(header.deep_view() =~= header_spec(g[0]));
    }
    let mut keys: Vec<String> = Vec::new();
    let mut rowsv: Vec<Vec<Vec<String>>> = Vec::new();
    let mut skipped: usize = 0;
    let mut exported: usize = 0;
    let mut ridx: usize = 1;
    while ridx < grid.len()
        invariant
            1 <= ridx <= grid.len(),
            g == grid.deep_view(),
            keys.len() == rowsv.len(),
            model_of(keys@, rowsv@) == groups_of(g, ridx as int),
            sorted_groups(model_of(keys@, rowsv@)),
            skipped == skipped_of(g, ridx as int),
            exported == exported_of(g, ridx as int),
            exported + skipped == ridx - 1,
        decreases grid.len() - ridx,
    {
        let row = &grid[ridx];
        proof {
            assert(g[ridx as int] == grid@[ridx as int].deep_view());
        }
        let gval = get_cell_value(row, 6);
        match parse_order_and_operation(gval.as_str()) {
            None => {
                skipped += 1;
            },
            Some((order, op)) => {
                let trow = transformed_row(row, order.clone(), op);
                insert_grouped_row(&mut keys, &mut rowsv, order, trow);
                exported += 1;
            },
        }
        ridx += 1;
    }
    if keys.len() == 0 {
        return Err(SplitError::NoValidRows);
    }
    let ghost gs = groups_of(g, g.len() as int);
    let total = keys.len();
    let mut sheets: Vec<SheetPlan> = Vec::new();
    let mut reg = NameRegistry::new();
    let mut i: usize = 0;
    while i < total
        invariant
            0 <= i <= total,
            total == gs.len(),
            gs == groups_of(g, g.len() as int),
            keys.len() == total - i,
            rowsv.len() == total - i,
            forall|m: int|
                0 <= m < total - i ==> (#[trigger] keys[m])@ == gs[i + m].0
                    && rowsv[m].deep_view() == gs[i + m].1,
            sheets.len() == i,
            forall|m: int|
                0 <= m < i ==> (#[trigger] sheets[m]).order@ == gs[m].0
                    && sheets[m].rows.deep_view() == gs[m].1 && sheets[m].name@ == name_at(gs, m),
            reg.wf(),
            forall|b: Seq<char>| reg.count_of(b) == count_base(gs, b, i as int),
        decreases total - i,
    {
        let order = keys.remove(0);
        let rows = rowsv.remove(0);
        let base = sanitize_sheet_name(order.as_str());
        proof {
            lemma_count_base_le(gs, base@, i as int);
        }
        let name = make_unique_sheet_name(base.as_str(), &mut reg);
        sheets.push(SheetPlan { order, name, rows });
        i += 1;
    }
    Ok(SplitPlan {
        header,
        sheets,
        rows_exported: exported,
        skipped_invalid_rows: skipped,
    })
}

/// The transformed rows of the group of `k`, or empty when `k` is no key.
pub open spec fn group_rows(gs: GroupsModel, k: Seq<char>) -> Seq<Seq<Seq<char>>>
    decreases gs.len(),
{
    if gs.len() == 0 {
        Seq::empty()
    } else if gs[0].0 == k {
        gs[0].1
    } else {
        group_rows(gs.subrange(1, gs.len() as int), k)
    }
}

/// The transformed rows of the valid data rows among `1..n` whose order id
/// is `k`, in input order.
pub open spec fn rows_for_key(g: Seq<Seq<Seq<char>>>, n: int, k: Seq<char>) -> Seq<
    Seq<Seq<char>>,
>
    decreases n,
{
    if n <= 1 {
        Seq::empty()
    } else {
        let prev = rows_for_key(g, n - 1, k);
        let pk = parse_key(cell_at(g[n - 1], 6));
        if pk is Some && pk.unwrap().0 == k {
            prev.push(transformed_spec(g[n - 1], pk.unwrap().0, pk.unwrap().1))
        } else {
            prev
        }
    }
}

proof fn lemma_group_rows_absent(gs: GroupsModel, k: Seq<char>)
    requires
        forall|j: int| 0 <= j < gs.len() ==> (#[trigger] gs[j]).0 != k,
    ensures
        group_rows(gs, k) == Seq::<Seq<Seq<char>>>::empty(),
    decreases gs.len(),
{
    if gs.len() > 0 {
        let tail = gs.subrange(1, gs.len() as int);
        assert(forall|j: int| 0 <= j < tail.len() ==> (#[trigger] tail[j]).0 != k);
        lemma_group_rows_absent(tail, k);
    }
}

proof fn lemma_insert_group_lookup(gs: GroupsModel, k: Seq<char>, row: Seq<Seq<char>>)
    requires
        sorted_groups(gs),
    ensures
        group_rows(insert_group(gs, k, row), k) == group_rows(gs, k).push(row),
        forall|k2: Seq<char>|
            k2 != k ==> #[trigger] group_rows(insert_group(gs, k, row), k2) == group_rows(
                gs,
                k2,
            ),
    decreases gs.len(),
{
    let r = insert_group(gs, k, row);
    if gs.len() == 0 {
        assert(r[0].0 == k && r[0].1 == seq![row]);
        assert(group_rows(gs, k).push(row) =~= seq![row]);
        assert forall|k2: Seq<char>| k2 != k implies #[trigger] group_rows(r, k2) == group_rows(
            gs,
            k2,
        ) by {
            assert(r.subrange(1, r.len() as int) =~= gs);
        }
    } else if lex_lt(k, gs[0].0) {
        assert(r =~= seq![(k, seq![row])] + gs);
        assert(r.subrange(1, r.len() as int) =~= gs);
        assert forall|j: int| 0 <= j < gs.len() implies (#[trigger] gs[j]).0 != k by {
            lemma_lex_lt_connected(k, gs[j].0);
            if j > 0 {
                lemma_lex_lt_trans(k, gs[0].0, gs[j].0);
            }
        }
        lemma_group_rows_absent(gs, k);
        assert(group_rows(r, k) == seq![row]);
        assert(group_rows(gs, k).push(row) =~= seq![row]);
        assert forall|k2: Seq<char>| k2 != k implies #[trigger] group_rows(r, k2) == group_rows(
            gs,
            k2,
        ) by {
            assert(r[0].0 == k);
            assert(group_rows(r, k2) == group_rows(r.subrange(1, r.len() as int), k2));
        }
    } else if k == gs[0].0 {
        assert(r =~= seq![(gs[0].0, gs[0].1.push(row))] + gs.subrange(1, gs.len() as int));
        assert(r.subrange(1, r.len() as int) =~= gs.subrange(1, gs.len() as int));
        assert(group_rows(r, k) == gs[0].1.push(row));
        assert forall|k2: Seq<char>| k2 != k implies #[trigger] group_rows(r, k2) == group_rows(
            gs,
            k2,
        ) by {
            assert(r[0].0 == gs[0].0);
            assert(group_rows(r, k2) == group_rows(r.subrange(1, r.len() as int), k2));
            assert(group_rows(gs, k2) == group_rows(gs.subrange(1, gs.len() as int), k2));
        }
    } else {
        let tail = gs.subrange(1, gs.len() as int);
        lemma_lex_lt_connected(k, gs[0].0);
        assert(lex_lt(gs[0].0, k));
        lemma_insert_group_lookup(tail, k, row);
        assert(r =~= seq![gs[0]] + insert_group(tail, k, row));
        assert(r.subrange(1, r.len() as int) =~= insert_group(tail, k, row));
        assert(r[0] == gs[0]);
        assert(gs[0].0 != k);
        assert(group_rows(r, k) == group_rows(insert_group(tail, k, row), k));
        assert(group_rows(gs, k) == group_rows(tail, k));
        assert forall|k2: Seq<char>| k2 != k implies #[trigger] group_rows(r, k2) == group_rows(
            gs,
            k2,
        ) by {
            if k2 == gs[0].0 {
                assert(group_rows(r, k2) == gs[0].1);
                assert(group_rows(gs, k2) == gs[0].1);
            } else {
                assert(group_rows(r, k2) == group_rows(insert_group(tail, k, row), k2));
                assert(group_rows(gs, k2) == group_rows(tail, k2));
            }
        }
    }
}

/// The groups of a grid are keyed in strictly ascending lexicographic order:
/// the output sheet order is deterministic and reproducible.
pub proof fn lemma_groups_of_sorted(g: Seq<Seq<Seq<char>>>, n: int)
    ensures
        sorted_groups(groups_of(g, n)),
    decreases n,
{
    if n > 1 {
        lemma_groups_of_sorted(g, n - 1);
        let pk = parse_key(cell_at(g[n - 1], 6));
        if pk is Some {
            lemma_insert_group_sorted(
                groups_of(g, n - 1),
                pk.unwrap().0,
                transformed_spec(g[n - 1], pk.unwrap().0, pk.unwrap().1),
            );
        }
    }
}

/// Group membership and row order are exactly the input's: the rows of the
/// group of `k` are the transformed valid rows with order id `k`, in the
/// order they stand in the input.
pub proof fn lemma_group_rows_in_input_order(g: Seq<Seq<Seq<char>>>, n: int, k: Seq<char>)
    ensures
        group_rows(groups_of(g, n), k) == rows_for_key(g, n, k),
    decreases n,
{
    if n <= 1 {
    } else {
        lemma_group_rows_in_input_order(g, n - 1, k);
        lemma_groups_of_sorted(g, n - 1);
        let pk = parse_key(cell_at(g[n - 1], 6));
        if pk is Some {
            lemma_insert_group_lookup(
                groups_of(g, n - 1),
                pk.unwrap().0,
                transformed_spec(g[n - 1], pk.unwrap().0, pk.unwrap().1),
            );
            if pk.unwrap().0 != k {
                lemma_group_rows_in_input_order(g, n - 1, k);
            }
        }
    }
}

/// For a fixed grid, any two plans that the contract admits agree on group
/// membership, sheet order, sheet names, row order, and the counts: the
/// split is deterministic.
pub proof fn lemma_plan_deterministic(g: Seq<Seq<Seq<char>>>, p1: SplitPlan, p2: SplitPlan)
    requires
        plan_matches(g, p1),
        plan_matches(g, p2),
    ensures
        p1.header.deep_view() == p2.header.deep_view(),
        p1.sheets.len() == p2.sheets.len(),
        forall|i: int|
            0 <= i < p1.sheets.len() ==> (#[trigger] p1.sheets[i]).order@ == p2.sheets[i].order@
                && p1.sheets[i].name@ == p2.sheets[i].name@ && p1.sheets[i].rows.deep_view()
                == p2.sheets[i].rows.deep_view(),
        p1.rows_exported == p2.rows_exported,
        p1.skipped_invalid_rows == p2.skipped_invalid_rows,
{
}

} // verus!
