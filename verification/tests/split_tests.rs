use order_split::plan::{build_split_plan, get_cell_value, SplitError};
use order_split::sheets::{split_grid, write_row};

fn row(cells: &[&str]) -> Vec<String> {
    cells.iter().map(|c| c.to_string()).collect()
}

/// A 12-column grid: header plus data rows whose column G holds the given
/// compound keys.
fn grid_with_keys(keys: &[&str]) -> Vec<Vec<String>> {
    let mut g: Vec<Vec<String>> = Vec::new();
    g.push(row(&[
        "h0", "h1", "h2", "h3", "h4", "h5", "key", "h7", "h8", "h9", "h10", "h11",
    ]));
    for (i, k) in keys.iter().enumerate() {
        let tag = format!("r{}", i);
        g.push(row(&[
            &tag, "c1", "c2", "c3", "c4", "c5", k, "c7", "c8", "c9", "c10", "c11",
        ]));
    }
    g
}

#[test]
fn cell_value_in_range() {
    let r = row(&["a", "b"]);
    assert_eq!(get_cell_value(&r, 1), "b");
}

#[test]
fn cell_value_out_of_range_is_empty() {
    let r = row(&["a", "b"]);
    assert_eq!(get_cell_value(&r, 5), "");
}

#[test]
fn end_to_end_one_order_two_rows_one_skipped() {
    let grid = grid_with_keys(&["100/1", "100/2", "BAD"]);
    let (_wb, summary) = split_grid(&grid).unwrap();
    assert_eq!(summary.sheets_created, 1);
    assert_eq!(summary.rows_exported, 2);
    assert_eq!(summary.skipped_invalid_rows, 1);
    let plan = build_split_plan(&grid).unwrap();
    assert_eq!(plan.sheets.len(), 1);
    assert_eq!(plan.sheets[0].name, "100");
    assert_eq!(plan.sheets[0].order, "100");
    assert_eq!(plan.sheets[0].rows.len(), 2);
}

#[test]
fn header_projection_uses_literal_labels() {
    let grid = grid_with_keys(&["100/1"]);
    let plan = build_split_plan(&grid).unwrap();
    assert_eq!(
        plan.header,
        row(&["h2", "h3", "order number", "operation number", "h7", "h8", "h9", "h10", "h11"])
    );
}

#[test]
fn transformed_row_projection() {
    let grid = grid_with_keys(&["100/7"]);
    let plan = build_split_plan(&grid).unwrap();
    assert_eq!(
        plan.sheets[0].rows[0],
        row(&["c2", "c3", "100", "7", "c7", "c8", "c9", "c10", "c11"])
    );
}

#[test]
fn groups_are_sorted_and_rows_keep_input_order() {
    let grid = grid_with_keys(&["b/1", "a/1", "b/2", "a/2", "c/1"]);
    let plan = build_split_plan(&grid).unwrap();
    let names: Vec<&str> = plan.sheets.iter().map(|s| s.order.as_str()).collect();
    assert_eq!(names, vec!["a", "b", "c"]);
    assert_eq!(plan.sheets[0].rows[0][3], "1");
    assert_eq!(plan.sheets[0].rows[1][3], "2");
    assert_eq!(plan.sheets[1].rows[0][3], "1");
    assert_eq!(plan.sheets[1].rows[1][3], "2");
}

#[test]
fn repeated_runs_are_identical() {
    let grid = grid_with_keys(&["z/1", "m/2", "z/3", "BAD", "a/9"]);
    let p1 = build_split_plan(&grid).unwrap();
    let p2 = build_split_plan(&grid).unwrap();
    assert_eq!(p1.rows_exported, p2.rows_exported);
    assert_eq!(p1.skipped_invalid_rows, p2.skipped_invalid_rows);
    assert_eq!(p1.sheets.len(), p2.sheets.len());
    for (a, b) in p1.sheets.iter().zip(p2.sheets.iter()) {
        assert_eq!(a.order, b.order);
        assert_eq!(a.name, b.name);
        assert_eq!(a.rows, b.rows);
    }
}

#[test]
fn conservation_of_row_counts() {
    let grid = grid_with_keys(&["1/1", "oops", "2/2", "", "3/3", "x/", "/y"]);
    let plan = build_split_plan(&grid).unwrap();
    assert_eq!(plan.rows_exported + plan.skipped_invalid_rows, grid.len() - 1);
    assert_eq!(plan.rows_exported, 3);
    assert_eq!(plan.skipped_invalid_rows, 4);
}

#[test]
fn empty_grid_is_rejected() {
    let grid: Vec<Vec<String>> = Vec::new();
    assert!(matches!(build_split_plan(&grid), Err(SplitError::EmptyInput)));
}

#[test]
fn empty_first_row_is_rejected() {
    let grid: Vec<Vec<String>> = vec![Vec::new()];
    assert!(matches!(build_split_plan(&grid), Err(SplitError::EmptyInput)));
}

#[test]
fn narrow_grid_is_rejected() {
    let grid = vec![row(&["a", "b", "c"])];
    assert!(matches!(build_split_plan(&grid), Err(SplitError::TooNarrow)));
}

#[test]
fn all_malformed_keys_fail_the_run() {
    let grid = grid_with_keys(&["BAD", "1/2/3", "/x", "y/"]);
    assert!(matches!(build_split_plan(&grid), Err(SplitError::NoValidRows)));
    assert!(matches!(split_grid(&grid), Err(SplitError::NoValidRows)));
}

#[test]
fn colliding_sanitized_bases_get_distinct_names() {
    let grid = grid_with_keys(&["A:B/1", "A?B/1"]);
    let plan = build_split_plan(&grid).unwrap();
    assert_eq!(plan.sheets[0].name, "A_B");
    assert_eq!(plan.sheets[1].name, "A_B_2");
}

#[test]
fn write_row_rejects_row_at_ceiling() {
    let mut ws = rust_xlsxwriter::Worksheet::new();
    let values = row(&["a"]);
    let r = write_row(&mut ws, 1_048_576, &values);
    assert!(matches!(r, Err(SplitError::RowCapacity)));
}

#[test]
fn write_row_accepts_row_below_ceiling() {
    let mut ws = rust_xlsxwriter::Worksheet::new();
    let values = row(&["a", "b"]);
    assert!(write_row(&mut ws, 1_048_575, &values).is_ok());
}

#[test]
fn write_row_rejects_column_past_ceiling() {
    let mut ws = rust_xlsxwriter::Worksheet::new();
    let values: Vec<String> = (0..16_385).map(|i| format!("v{}", i)).collect();
    let r = write_row(&mut ws, 0, &values);
    assert!(matches!(r, Err(SplitError::ColumnCapacity)));
}

#[test]
fn write_row_rejects_overlong_cell_text() {
    let mut ws = rust_xlsxwriter::Worksheet::new();
    let long: String = std::iter::repeat('x').take(32_768).collect();
    let r = write_row(&mut ws, 0, &vec![long]);
    assert!(matches!(r, Err(SplitError::CellTooLong)));
}

#[test]
fn write_row_accepts_longest_cell_text() {
    let mut ws = rust_xlsxwriter::Worksheet::new();
    let long: String = std::iter::repeat('x').take(32_767).collect();
    assert!(write_row(&mut ws, 0, &vec![long]).is_ok());
}

#[test]
fn storage_layer_rejects_name_with_leading_apostrophe() {
    // Sanitizing `' 'x` strips only the outer quote and leaves `'x`, which
    // the storage layer's own validation refuses.
    let grid = grid_with_keys(&["' 'x/1"]);
    let r = split_grid(&grid);
    match r {
        Err(SplitError::NameRejected(name)) => assert_eq!(name, "'x"),
        other => panic!("expected a rejected name, got {:?}", other.is_ok()),
    }
}

#[test]
fn workbook_sheet_carries_generated_name() {
    let grid = grid_with_keys(&["100/1", "100/2", "BAD"]);
    let (wb, _summary) = split_grid(&grid).unwrap();
    let mut wb = wb;
    let names: Vec<String> = wb.worksheets_mut().iter_mut().map(|w| w.name()).collect();
    assert_eq!(names, vec!["100".to_string()]);
}

#[test]
fn error_messages_are_descriptive() {
    assert_eq!(
        SplitError::NoValidRows.message(),
        "no valid rows: the key column must be <order>/<operation>"
    );
    assert_eq!(
        SplitError::NameRejected("bad".to_string()).message(),
        "sheet name rejected: bad"
    );
}
