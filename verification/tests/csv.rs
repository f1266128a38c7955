use csvim::csv::{read_csv_file, read_csv_file_as_hashmap, CsvError, Delimiter};

fn rows(data: &[u8]) -> Vec<Vec<String>> {
    read_csv_file("file.csv", data, b',', Delimiter::DoubleQuote).unwrap().rows
}

#[test]
fn quoted_fields_project_to_cells() {
    let data = b"a,\"b,c\",d\n\"e\"\"f\",,g\n";
    let csv = read_csv_file_as_hashmap("file.csv", data, b',', Delimiter::DoubleQuote).unwrap();
    assert_eq!(csv.filename, "file.csv");
    assert_eq!(csv.separator, b',');
    assert_eq!(csv.delimiter, Delimiter::DoubleQuote);
    let cell = |r, c| csv.map.get(r, c).map(|s| s.as_str());
    assert_eq!(cell(0, 0), Some("a"));
    assert_eq!(cell(0, 1), Some("b,c"));
    assert_eq!(cell(0, 2), Some("d"));
    assert_eq!(cell(1, 0), Some("e\"f"));
    assert_eq!(cell(1, 1), None);
    assert_eq!(cell(1, 2), Some("g"));
    assert_eq!(cell(2, 0), None);
    assert_eq!(cell(0, 3), None);
    assert!(csv.map.contains(0, 1));
    assert!(!csv.map.contains(1, 1));
}

#[test]
fn rows_and_fields() {
    assert_eq!(rows(b"a,b\nc,d\n"), vec![vec!["a", "b"], vec!["c", "d"]]);
    assert_eq!(rows(b""), Vec::<Vec<String>>::new());
    assert_eq!(rows(b"\n"), vec![vec![""]]);
    assert_eq!(rows(b"a\n\nb\n"), vec![vec!["a"], vec![""], vec!["b"]]);
}

#[test]
fn rows_keep_empty_trailing_fields() {
    assert_eq!(rows(b"a,,\n,\n"), vec![vec!["a", "", ""], vec!["", ""]]);
}

#[test]
fn last_row_without_a_line_feed() {
    assert_eq!(rows(b"a,b\nc,d"), vec![vec!["a", "b"], vec!["c", "d"]]);
    assert_eq!(rows(b"a,b\nc"), vec![vec!["a", "b"], vec!["c"]]);
    assert_eq!(rows(b"x"), vec![vec!["x"]]);
    // nothing follows the last separator
    assert_eq!(rows(b"a,b\nc,"), vec![vec!["a", "b"]]);
}

#[test]
fn quotes() {
    assert_eq!(rows(b"\"a\nb\",c\n"), vec![vec!["a\nb", "c"]]);
    assert_eq!(rows(b"a,\"\",b\n"), vec![vec!["a", "", "b"]]);
    // two quote marks outside a quote stand for nothing, two inside for one
    assert_eq!(rows(b"\"\"\"x\"\"\"\n"), vec![vec!["x\""]]);
    assert_eq!(rows(b"\"x\"\"\"\n"), vec![vec!["x\""]]);
    assert_eq!(rows(b"x\"y\"z\n"), vec![vec!["xyz"]]);
    assert_eq!(rows(b"\"open,\nstill"), vec![vec!["open,\nstill"]]);
}

#[test]
fn backslash_inside_and_outside_a_quote() {
    assert_eq!(rows(b"\"a\\\"b\",c\n"), vec![vec!["a\"b", "c"]]);
    assert_eq!(rows(b"\"a\\nb\"\n"), vec![vec!["a\\nb"]]);
    assert_eq!(rows(b"a\\,b\n"), vec![vec!["a\\", "b"]]);
}

#[test]
fn other_separator_and_quote() {
    let csv = read_csv_file("f", b"a;'b;c';d\n", b';', Delimiter::SingleQuote).unwrap();
    assert_eq!(csv.rows, vec![vec!["a", "b;c", "d"]]);
    assert_eq!(csv.separator, b';');
    assert_eq!(csv.delimiter, Delimiter::SingleQuote);
    let csv = read_csv_file("f", b"a;\"b;c\"\n", b';', Delimiter::SingleQuote).unwrap();
    assert_eq!(csv.rows, vec![vec!["a", "\"b", "c\""]]);
    assert_eq!(Delimiter::SingleQuote.as_byte(), b'\'');
    assert_eq!(Delimiter::DoubleQuote.as_byte(), b'"');
}

#[test]
fn text_beyond_ascii() {
    assert_eq!(rows("é,ü\n".as_bytes()), vec![vec!["é", "ü"]]);
}

#[test]
fn field_that_is_not_text() {
    let r = read_csv_file("f", b"a,b\nc,\xff\n", b',', Delimiter::DoubleQuote);
    assert_eq!(r.unwrap_err(), CsvError::NotUtf8 { row: 1, column: 1 });
    let r = read_csv_file_as_hashmap("f", b"\xff", b',', Delimiter::DoubleQuote);
    assert!(matches!(r, Err(CsvError::NotUtf8 { row: 0, column: 0 })));
}
