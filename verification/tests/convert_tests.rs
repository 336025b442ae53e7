use order_split::convert::{
    grid_to_xml, grid_to_csv, default_drop_columns, mode_is_keep, format_is_csv,
};

fn row(cells: &[&str]) -> Vec<String> {
    cells.iter().map(|c| c.to_string()).collect()
}

#[test]
fn xml_plain_grid_no_filter() {
    let grid = vec![row(&["a", "b"]), row(&["c", "d"])];
    let cols: Vec<usize> = Vec::new();
    let xml = grid_to_xml(&grid, &cols, false, false);
    assert_eq!(
        xml,
        "<workbook><row><cell>a</cell><cell>b</cell></row><row><cell>c</cell><cell>d</cell></row></workbook>"
    );
}

#[test]
fn xml_skips_header_row() {
    let grid = vec![row(&["h"]), row(&["d"])];
    let cols: Vec<usize> = Vec::new();
    let xml = grid_to_xml(&grid, &cols, false, true);
    assert_eq!(xml, "<workbook><row><cell>d</cell></row></workbook>");
}

#[test]
fn xml_escapes_markup_characters() {
    let grid = vec![row(&["a<b&c>\"d'"])];
    let cols: Vec<usize> = Vec::new();
    let xml = grid_to_xml(&grid, &cols, false, false);
    assert_eq!(
        xml,
        "<workbook><row><cell>a&lt;b&amp;c&gt;&quot;d&apos;</cell></row></workbook>"
    );
}

#[test]
fn xml_drop_mode_drops_listed_columns() {
    let grid = vec![row(&["a", "b", "c"])];
    let cols: Vec<usize> = vec![2];
    let xml = grid_to_xml(&grid, &cols, false, false);
    assert_eq!(xml, "<workbook><row><cell>a</cell><cell>c</cell></row></workbook>");
}

#[test]
fn xml_keep_mode_keeps_listed_columns() {
    let grid = vec![row(&["a", "b", "c"])];
    let cols: Vec<usize> = vec![2];
    let xml = grid_to_xml(&grid, &cols, true, false);
    assert_eq!(xml, "<workbook><row><cell>b</cell></row></workbook>");
}

#[test]
fn xml_zero_column_entries_are_ignored() {
    let grid = vec![row(&["a", "b"])];
    let cols: Vec<usize> = vec![0];
    let xml = grid_to_xml(&grid, &cols, true, false);
    assert_eq!(xml, "<workbook><row></row></workbook>");
}

#[test]
fn default_drop_columns_drop_fixed_set() {
    let grid = vec![
        row(&["h"]),
        row(&[
            "c0", "c1", "c2", "c3", "c4", "c5", "c6", "c7", "c8", "c9", "c10", "c11", "c12",
            "c13", "c14",
        ]),
    ];
    let xml = grid_to_xml(&grid, &default_drop_columns(), false, true);
    assert_eq!(
        xml,
        "<workbook><row><cell>c2</cell><cell>c3</cell><cell>c4</cell><cell>c7</cell><cell>c8</cell><cell>c9</cell><cell>c10</cell><cell>c11</cell><cell>c12</cell><cell>c14</cell></row></workbook>"
    );
}

#[test]
fn csv_plain_grid() {
    let grid = vec![row(&["a", "b"]), row(&["c", "d"])];
    let cols: Vec<usize> = Vec::new();
    let csv = grid_to_csv(&grid, &cols, false, false);
    assert_eq!(csv, "a,b\r\nc,d");
}

#[test]
fn csv_quotes_cells_with_commas() {
    let grid = vec![row(&["a,b", "c"])];
    let cols: Vec<usize> = Vec::new();
    let csv = grid_to_csv(&grid, &cols, false, false);
    assert_eq!(csv, "\"a,b\",c");
}

#[test]
fn csv_doubles_quotes_and_wraps() {
    let grid = vec![row(&["say \"hi\""])];
    let cols: Vec<usize> = Vec::new();
    let csv = grid_to_csv(&grid, &cols, false, false);
    assert_eq!(csv, "\"say \"\"hi\"\"\"");
}

#[test]
fn csv_quotes_cells_with_line_breaks() {
    let grid = vec![row(&["a\nb"]), row(&["c\rd"])];
    let cols: Vec<usize> = Vec::new();
    let csv = grid_to_csv(&grid, &cols, false, false);
    assert_eq!(csv, "\"a\nb\"\r\n\"c\rd\"");
}

#[test]
fn csv_skip_header_and_keep_mode() {
    let grid = vec![row(&["h1", "h2"]), row(&["a", "b"])];
    let cols: Vec<usize> = vec![2];
    let csv = grid_to_csv(&grid, &cols, true, true);
    assert_eq!(csv, "b");
}

#[test]
fn mode_string_is_case_insensitive() {
    assert!(mode_is_keep("keep"));
    assert!(mode_is_keep("KEEP"));
    assert!(mode_is_keep("Keep"));
    assert!(!mode_is_keep("drop"));
    assert!(!mode_is_keep(""));
}

#[test]
fn format_string_is_case_insensitive() {
    assert!(format_is_csv("csv"));
    assert!(format_is_csv("CSV"));
    assert!(!format_is_csv("xml"));
    assert!(!format_is_csv(""));
}
