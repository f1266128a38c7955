use csvim::cells::CellMap;
use csvim::xlsx::{
    base26_letters_to_int, cell_pos_to_tuple, element_by_name, get_text, read_cell_value,
    read_cells, read_shared_strings, read_xlsx_file_as_hashmap, XlsxError,
};
use csvim::xml::{Document, XMLError};
use csvim::zip::ZipError;

/// A workbook with shared strings and the worksheets "sheet1" and "other".
fn workbook() -> Vec<u8> {
    vec![
        80, 75, 3, 4, 20, 0, 0, 0, 8, 0, 0, 0, 33, 80, 183, 166, 101, 210, 42, 0, 0, 0, 60, 0,
        0, 0, 20, 0, 0, 0, 120, 108, 47, 115, 104, 97, 114, 101, 100, 83, 116, 114, 105, 110,
        103, 115, 46, 120, 109, 108, 179, 41, 46, 46, 177, 179, 41, 206, 180, 179, 41, 177,
        203, 72, 205, 201, 201, 183, 209, 7, 242, 245, 65, 2, 32, 92, 4, 18, 47, 207, 47, 202,
        73, 129, 136, 23, 65, 229, 244, 65, 218, 0, 80, 75, 3, 4, 20, 0, 0, 0, 8, 0, 0, 0, 33,
        80, 14, 116, 146, 30, 141, 0, 0, 0, 255, 0, 0, 0, 24, 0, 0, 0, 120, 108, 47, 119, 111,
        114, 107, 115, 104, 101, 101, 116, 115, 47, 115, 104, 101, 101, 116, 49, 46, 120, 109,
        108, 179, 177, 175, 200, 205, 81, 40, 75, 45, 42, 206, 204, 207, 179, 85, 50, 212, 51,
        80, 82, 72, 205, 75, 206, 79, 201, 204, 75, 183, 85, 10, 13, 113, 211, 181, 80, 178,
        183, 227, 178, 41, 207, 47, 202, 46, 206, 72, 77, 45, 177, 179, 1, 83, 46, 137, 37,
        137, 118, 54, 69, 249, 229, 10, 69, 64, 93, 74, 118, 54, 201, 32, 134, 163, 161, 146,
        66, 137, 173, 82, 49, 144, 95, 102, 103, 96, 163, 95, 102, 103, 163, 159, 12, 149, 115,
        130, 200, 229, 129, 229, 76, 140, 224, 146, 250, 64, 67, 224, 38, 25, 195, 76, 114, 50,
        70, 50, 201, 16, 213, 36, 103, 136, 92, 18, 54, 57, 71, 71, 99, 176, 176, 57, 154, 249,
        250, 72, 174, 214, 71, 120, 6, 0, 80, 75, 3, 4, 20, 0, 0, 0, 0, 0, 0, 0, 33, 80, 155,
        236, 221, 20, 92, 0, 0, 0, 92, 0, 0, 0, 23, 0, 0, 0, 120, 108, 47, 119, 111, 114, 107,
        115, 104, 101, 101, 116, 115, 47, 111, 116, 104, 101, 114, 46, 120, 109, 108, 60, 119,
        111, 114, 107, 115, 104, 101, 101, 116, 62, 60, 115, 104, 101, 101, 116, 68, 97, 116,
        97, 62, 60, 114, 111, 119, 62, 60, 99, 32, 114, 61, 34, 65, 49, 34, 32, 116, 61, 34,
        115, 116, 114, 34, 62, 60, 118, 62, 115, 101, 99, 111, 110, 100, 60, 47, 118, 62, 60,
        47, 99, 62, 60, 47, 114, 111, 119, 62, 60, 47, 115, 104, 101, 101, 116, 68, 97, 116,
        97, 62, 60, 47, 119, 111, 114, 107, 115, 104, 101, 101, 116, 62, 80, 75, 1, 2, 20, 3,
        20, 0, 0, 0, 8, 0, 0, 0, 33, 80, 183, 166, 101, 210, 42, 0, 0, 0, 60, 0, 0, 0, 20, 0,
        0, 0, 0, 0, 0, 0, 0, 0, 0, 0, 128, 1, 0, 0, 0, 0, 120, 108, 47, 115, 104, 97, 114, 101,
        100, 83, 116, 114, 105, 110, 103, 115, 46, 120, 109, 108, 80, 75, 1, 2, 20, 3, 20, 0,
        0, 0, 8, 0, 0, 0, 33, 80, 14, 116, 146, 30, 141, 0, 0, 0, 255, 0, 0, 0, 24, 0, 0, 0, 0,
        0, 0, 0, 0, 0, 0, 0, 128, 1, 92, 0, 0, 0, 120, 108, 47, 119, 111, 114, 107, 115, 104,
        101, 101, 116, 115, 47, 115, 104, 101, 101, 116, 49, 46, 120, 109, 108, 80, 75, 1, 2,
        20, 3, 20, 0, 0, 0, 0, 0, 0, 0, 33, 80, 155, 236, 221, 20, 92, 0, 0, 0, 92, 0, 0, 0,
        23, 0, 0, 0, 0, 0, 0, 0, 0, 0, 0, 0, 128, 1, 31, 1, 0, 0, 120, 108, 47, 119, 111, 114,
        107, 115, 104, 101, 101, 116, 115, 47, 111, 116, 104, 101, 114, 46, 120, 109, 108, 80,
        75, 5, 6, 0, 0, 0, 0, 3, 0, 3, 0, 205, 0, 0, 0, 176, 1, 0, 0, 0, 0,
    ]
}

/// A workbook with one worksheet and no shared strings.
fn workbook_without_strings() -> Vec<u8> {
    vec![
        80, 75, 3, 4, 20, 0, 0, 0, 0, 0, 0, 0, 33, 80, 90, 76, 192, 134, 85, 0, 0, 0, 85, 0, 0,
        0, 24, 0, 0, 0, 120, 108, 47, 119, 111, 114, 107, 115, 104, 101, 101, 116, 115, 47,
        115, 104, 101, 101, 116, 49, 46, 120, 109, 108, 60, 119, 111, 114, 107, 115, 104, 101,
        101, 116, 62, 60, 115, 104, 101, 101, 116, 68, 97, 116, 97, 62, 60, 114, 111, 119, 62,
        60, 99, 32, 114, 61, 34, 65, 49, 34, 32, 116, 61, 34, 115, 34, 62, 60, 118, 62, 48, 60,
        47, 118, 62, 60, 47, 99, 62, 60, 47, 114, 111, 119, 62, 60, 47, 115, 104, 101, 101,
        116, 68, 97, 116, 97, 62, 60, 47, 119, 111, 114, 107, 115, 104, 101, 101, 116, 62, 80,
        75, 1, 2, 20, 3, 20, 0, 0, 0, 0, 0, 0, 0, 33, 80, 90, 76, 192, 134, 85, 0, 0, 0, 85, 0,
        0, 0, 24, 0, 0, 0, 0, 0, 0, 0, 0, 0, 0, 0, 128, 1, 0, 0, 0, 0, 120, 108, 47, 119, 111,
        114, 107, 115, 104, 101, 101, 116, 115, 47, 115, 104, 101, 101, 116, 49, 46, 120, 109,
        108, 80, 75, 5, 6, 0, 0, 0, 0, 1, 0, 1, 0, 70, 0, 0, 0, 139, 0, 0, 0, 0, 0,
    ]
}

fn cell(map: &CellMap, row: u32, col: u32) -> Option<&str> {
    map.get(row, col).map(|s| s.as_str())
}

#[test]
fn column_letters() {
    assert_eq!(base26_letters_to_int("A"), Some(0));
    assert_eq!(base26_letters_to_int("Z"), Some(25));
    assert_eq!(base26_letters_to_int("AA"), Some(26));
    assert_eq!(base26_letters_to_int("AZ"), Some(51));
    assert_eq!(base26_letters_to_int("BA"), Some(52));
    assert_eq!(base26_letters_to_int("ZZ"), Some(701));
    assert_eq!(base26_letters_to_int("AAA"), Some(702));
    assert_eq!(base26_letters_to_int("XFD"), Some(16383));
}

#[test]
fn column_letters_that_name_no_column() {
    assert_eq!(base26_letters_to_int(""), None);
    assert_eq!(base26_letters_to_int("a"), None);
    assert_eq!(base26_letters_to_int("A1"), None);
    assert_eq!(base26_letters_to_int("\u{c9}"), None);
    assert_eq!(base26_letters_to_int("MWLQKWV"), Some(u32::MAX));
    assert_eq!(base26_letters_to_int("MWLQKWW"), None);
    assert_eq!(base26_letters_to_int("ZZZZZZZZZZZZZZZZZZZZ"), None);
}

#[test]
fn cell_references() {
    assert_eq!(cell_pos_to_tuple("A1"), Some((0, 0)));
    assert_eq!(cell_pos_to_tuple("B7"), Some((6, 1)));
    assert_eq!(cell_pos_to_tuple("B3"), Some((2, 1)));
    assert_eq!(cell_pos_to_tuple("AB12"), Some((11, 27)));
    assert_eq!(cell_pos_to_tuple("A9"), Some((8, 0)));
    assert_eq!(cell_pos_to_tuple("C90"), Some((89, 2)));
    assert_eq!(cell_pos_to_tuple("A4294967295"), Some((4294967294, 0)));
}

#[test]
fn cell_references_that_name_no_cell() {
    assert_eq!(cell_pos_to_tuple(""), None);
    assert_eq!(cell_pos_to_tuple("A"), None);
    assert_eq!(cell_pos_to_tuple("7"), None);
    assert_eq!(cell_pos_to_tuple("A0"), None);
    assert_eq!(cell_pos_to_tuple("A1B"), None);
    assert_eq!(cell_pos_to_tuple("a1"), None);
    assert_eq!(cell_pos_to_tuple("A-1"), None);
    assert_eq!(cell_pos_to_tuple("$A$1"), None);
    assert_eq!(cell_pos_to_tuple("A4294967296"), None);
    assert_eq!(cell_pos_to_tuple("\u{c9}1"), None);
    assert_eq!(cell_pos_to_tuple("A1\u{c9}"), None);
}

#[test]
fn shared_strings_direct_and_in_a_run() {
    let content = b"<sst><si><t>hello</t></si><si><r><t>world</t></r></si></sst>".to_vec();
    assert_eq!(read_shared_strings(content).unwrap(), vec!["hello", "world"]);
}

#[test]
fn shared_strings_without_text() {
    let content =
        b"<sst><si><t/></si><si/><si><r/></si><si><x>no</x></si><si><t>a</t><r><t>b</t></r></si></sst>"
            .to_vec();
    assert_eq!(read_shared_strings(content).unwrap(), vec!["", "", "", "", "a"]);
}

#[test]
fn shared_strings_of_a_document_without_them() {
    assert!(matches!(
        read_shared_strings(b"<other/>".to_vec()),
        Err(XlsxError::MissingElement { name: "sst" })
    ));
    assert!(matches!(
        read_shared_strings(b"<sst>".to_vec()),
        Err(XlsxError::Xml(XMLError::EndOfFile { .. }))
    ));
}

#[test]
fn worksheet_cell_with_a_shared_string() {
    let content =
        b"<worksheet><sheetData><row><c r=\"B3\" t=\"s\"><v>1</v></c></row></sheetData></worksheet>"
            .to_vec();
    let map = read_cells(content, vec!["hello".to_string(), "world".to_string()]).unwrap();
    assert_eq!(cell(&map, 2, 1), Some("world"));
    assert_eq!(cell(&map, 1, 2), None);
    assert_eq!(cell(&map, 0, 0), None);
}

#[test]
fn worksheet_cell_without_shared_strings() {
    let content =
        b"<worksheet><sheetData><row><c r=\"A1\" t=\"s\"><v>0</v></c></row></sheetData></worksheet>"
            .to_vec();
    let map = read_cells(content, vec![]).unwrap();
    assert_eq!(cell(&map, 0, 0), Some("???"));
}

#[test]
fn cell_types() {
    let shared = vec!["zero".to_string(), "one".to_string()];
    let n = "n".to_string();
    let s = "s".to_string();
    let b = "b".to_string();
    let st = "str".to_string();
    let e = "e".to_string();
    assert_eq!(read_cell_value(Some(&n), "12.50".to_string(), &shared), "12.50");
    assert_eq!(read_cell_value(Some(&st), "text".to_string(), &shared), "text");
    assert_eq!(read_cell_value(Some(&b), "1".to_string(), &shared), "true");
    assert_eq!(read_cell_value(Some(&b), "0".to_string(), &shared), "false");
    assert_eq!(read_cell_value(Some(&b), "yes".to_string(), &shared), "false");
    assert_eq!(read_cell_value(Some(&s), "1".to_string(), &shared), "one");
    assert_eq!(read_cell_value(Some(&s), "01".to_string(), &shared), "one");
    assert_eq!(read_cell_value(Some(&s), "2".to_string(), &shared), "???");
    assert_eq!(read_cell_value(Some(&s), "x".to_string(), &shared), "???");
    assert_eq!(read_cell_value(Some(&s), "".to_string(), &shared), "???");
    assert_eq!(read_cell_value(Some(&s), "99999999999".to_string(), &shared), "???");
    assert_eq!(read_cell_value(Some(&e), "1".to_string(), &shared), "??");
    assert_eq!(read_cell_value(None, "1".to_string(), &shared), "?");
}

#[test]
fn cells_that_are_left_out() {
    let content = b"<worksheet><sheetData><row>\
        <c r=\"A1\" t=\"n\"/>\
        <c t=\"n\"><v>1</v></c>\
        <c r=\"1A\" t=\"n\"><v>2</v></c>\
        <c r=\"C1\" t=\"n\"><v></v></c>\
        <c r=\"D1\" t=\"n\"><v>4</v></c>\
        <c r=\"D1\" t=\"n\"><v>5</v></c>\
        <c r=\"E1\"><v>6</v></c>\
        </row><x><c r=\"F1\" t=\"n\"><v>7</v></c></x></sheetData>\
        <sheetData><row><c r=\"G1\" t=\"n\"><v>8</v></c></row></sheetData></worksheet>"
        .to_vec();
    let map = read_cells(content, vec![]).unwrap();
    assert_eq!(cell(&map, 0, 0), None);
    assert_eq!(cell(&map, 0, 2), None);
    assert_eq!(cell(&map, 0, 3), Some("5"));
    assert_eq!(cell(&map, 0, 4), Some("?"));
    assert_eq!(cell(&map, 0, 5), None);
    assert_eq!(cell(&map, 0, 6), Some("8"));
}

#[test]
fn worksheet_of_a_document_without_one() {
    assert!(matches!(
        read_cells(b"<sheet/>".to_vec(), vec![]),
        Err(XlsxError::MissingElement { name: "worksheet" })
    ));
    assert!(matches!(
        read_cells(b"<worksheet></sheet>".to_vec(), vec![]),
        Err(XlsxError::Xml(XMLError::Invalid { .. }))
    ));
}

#[test]
fn first_worksheet_of_a_workbook() {
    let sheet = read_xlsx_file_as_hashmap("book.xlsx", workbook(), None).unwrap();
    assert_eq!(sheet.filename, "book.xlsx");
    assert_eq!(sheet.worksheet, "xl/worksheets/sheet1.xml");
    assert_eq!(cell(&sheet.map, 0, 0), Some("hello"));
    assert_eq!(cell(&sheet.map, 0, 1), Some("42"));
    assert_eq!(cell(&sheet.map, 2, 1), Some("world"));
    assert_eq!(cell(&sheet.map, 2, 2), Some("true"));
    assert_eq!(cell(&sheet.map, 2, 26), Some("?"));
    assert_eq!(cell(&sheet.map, 1, 0), None);
}

#[test]
fn named_worksheet_of_a_workbook() {
    let sheet = read_xlsx_file_as_hashmap("book.xlsx", workbook(), Some("other")).unwrap();
    assert_eq!(sheet.worksheet, "xl/worksheets/other.xml");
    assert_eq!(cell(&sheet.map, 0, 0), Some("second"));
    assert_eq!(cell(&sheet.map, 2, 1), None);
    assert!(matches!(
        read_xlsx_file_as_hashmap("book.xlsx", workbook(), Some("none")),
        Err(XlsxError::MissingWorksheet)
    ));
}

#[test]
fn workbook_without_shared_strings() {
    let sheet = read_xlsx_file_as_hashmap("book.xlsx", workbook_without_strings(), None).unwrap();
    assert_eq!(cell(&sheet.map, 0, 0), Some("???"));
}

#[test]
fn workbook_that_cannot_be_read() {
    assert!(matches!(
        read_xlsx_file_as_hashmap("x", b"not an archive".to_vec(), None),
        Err(XlsxError::Archive(ZipError::MissingEndRecord))
    ));
    let mut broken = workbook_without_strings();
    broken[60] = 0xff;
    assert!(matches!(
        read_xlsx_file_as_hashmap("x", broken, None),
        Err(XlsxError::Archive(ZipError::ContentNotUtf8 { index: 0 }))
    ));
    let mut renamed = workbook_without_strings();
    renamed[30] = b'y';
    renamed[139 + 46] = b'y';
    assert!(matches!(
        read_xlsx_file_as_hashmap("x", renamed, None),
        Err(XlsxError::MissingWorksheet)
    ));
}

#[test]
fn elements_by_name_and_texts() {
    let doc = Document::from_data(b"<a>text<b/></a>".to_vec()).unwrap();
    let a = &doc.children[0];
    assert!(element_by_name(a, "a"));
    assert!(!element_by_name(a, "b"));
    let children = a.children().unwrap();
    assert!(!element_by_name(&children[0], "a"));
    assert_eq!(get_text(&children[0]), Some("text".to_string()));
    assert_eq!(get_text(&children[1]), None);
    assert_eq!(get_text(a), None);
}
