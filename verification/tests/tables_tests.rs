use asset_creator::tables::{
    format_separator_cell, is_separator, pad_document, pad_table, parse_row, trim, visual_width,
};

#[test]
fn parse_row_trims_cells() {
    let cells = parse_row("  | a |  bb|c |  ").unwrap();
    assert_eq!(cells, vec!["a".to_string(), "bb".to_string(), "c".to_string()]);
    assert!(parse_row("no pipes").is_none());
    assert!(parse_row("|").is_none());
    assert_eq!(parse_row("||").unwrap(), vec!["".to_string()]);
}

#[test]
fn separator_cells() {
    let yes: Vec<String> = vec![":--".into(), "---".into(), "--:".into(), ":-:".into(), "-".into()];
    assert!(is_separator(&yes));
    assert!(!is_separator(&["-x-".to_string()]));
    assert!(!is_separator(&["".to_string()]));
    assert!(!is_separator(&[":".to_string()]));
    assert!(!is_separator(&["-:-".to_string()]));
    assert!(!is_separator(&[]));
}

#[test]
fn separator_cell_keeps_alignment() {
    assert_eq!(format_separator_cell(":--", 5), ":----");
    assert_eq!(format_separator_cell("--:", 3), "--:");
    assert_eq!(format_separator_cell(":-:", 4), ":--:");
    assert_eq!(format_separator_cell("-", 3), "---");
    assert_eq!(format_separator_cell(":-:", 1), ":-:");
}

#[test]
fn width_counts_characters() {
    assert_eq!(visual_width("héllo"), 5);
    assert_eq!(trim("\t x y \n"), "x y");
}

#[test]
fn pad_table_aligns_columns() {
    let lines = ["| a | long header |", "|-|:-:|", "| ccc | d |"];
    let padded = pad_table(&lines);
    assert_eq!(
        padded,
        vec![
            "| a   | long header |".to_string(),
            "| --- | :---------: |".to_string(),
            "| ccc | d           |".to_string(),
        ]
    );
}

#[test]
fn pad_table_fills_short_rows() {
    let lines = ["| a | b |", "| --- | --- |", "| c |"];
    let padded = pad_table(&lines);
    assert_eq!(padded[2], "| c   |     |");
}

#[test]
fn pad_table_leaves_non_tables_alone() {
    let lines = ["| a |", "not a row"];
    assert_eq!(pad_table(&lines), vec!["| a |".to_string(), "not a row".to_string()]);
    let single = ["| a |"];
    assert_eq!(pad_table(&single), vec!["| a |".to_string()]);
}

#[test]
fn pad_document_pads_tables_and_keeps_text() {
    let doc = "# Title\n| a | b |\n|-|-|\n| xx | y |\ntext";
    let out = pad_document(doc).unwrap();
    assert_eq!(out, "# Title\n| a   | b   |\n| --- | --- |\n| xx  | y   |\ntext");
    assert!(pad_document(&out).is_none());
    assert!(pad_document("| a |\n| b |").is_none());
}

#[test]
fn padding_twice_changes_nothing() {
    let doc = "# Title\n\n| a | long header |\n|:-|--:|\n| xx | y |\n| z |\ntext after\n|x|\n";
    let once = pad_document(doc).expect("the table needs padding");
    assert!(pad_document(&once).is_none());
}

#[test]
fn padded_rows_share_one_length_and_keep_their_cells() {
    let lines = vec!["| name | x |", "|:-|-:|", "| a much longer name | 1 |", "| b |"];
    let padded = pad_table(&lines);
    let len = padded[0].chars().count();
    for row in &padded {
        assert_eq!(row.chars().count(), len);
        assert!(row.starts_with('|') && row.ends_with('|'));
    }
    assert_eq!(
        parse_row(&padded[2]),
        Some(vec!["a much longer name".to_string(), "1".to_string()])
    );
    assert_eq!(parse_row(&padded[3]), Some(vec!["b".to_string(), "".to_string()]));
    assert_eq!(padded[1], format!("| :{} | --: |", "-".repeat(17)));
}
