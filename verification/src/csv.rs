//! A reader for comma-separated values with quoted fields, and the
//! projection of its rows to the sparse cell map.

use vstd::prelude::*;
use crate::cells::CellMap;
use crate::text::{text_of_bytes, utf8_text};

verus! {

/// The character that quotes a field.
#[derive(Copy, Clone, Debug, PartialEq, Eq, Structural)]
pub enum Delimiter {
    SingleQuote,
    DoubleQuote,
}

impl Delimiter {
    /// The byte of the quote: `'` or `"`.
    pub open spec fn byte(self) -> u8 {
        match self {
            Delimiter::SingleQuote => 0x27,
            Delimiter::DoubleQuote => 0x22,
        }
    }

    /// The byte of the quote: `'` or `"`.
    pub fn as_byte(self) -> (b: u8)
        ensures
            b == self.byte(),
    {
        match self {
            Delimiter::SingleQuote => 0x27,
            Delimiter::DoubleQuote => 0x22,
        }
    }
}

/// Why a file could not be read as comma-separated values.
#[derive(Debug, Clone, Copy, PartialEq, Eq, Structural)]
pub enum CsvError {
    /// The field at this place is not valid UTF-8.
    NotUtf8 { row: usize, column: usize },
}

/// The rows of a file, each a list of fields.
#[derive(Debug)]
pub struct CSV {
    pub filename: String,
    pub separator: u8,
    pub delimiter: Delimiter,
    pub rows: Vec<Vec<String>>,
}

/// The cells of a file.
#[derive(Debug)]
pub struct CSVMap {
    pub filename: String,
    pub separator: u8,
    pub delimiter: Delimiter,
    pub map: CellMap,
}

/// Where the scanner stands: the finished rows, the finished fields of the
/// row at hand, the bytes of the field at hand, where that field started in
/// the input, and whether a quote is open.
pub struct Scan {
    pub rows: Seq<Seq<Seq<char>>>,
    pub row: Seq<Seq<char>>,
    pub field: Seq<u8>,
    pub field_start: int,
    pub in_quote: bool,
}

impl Scan {
    /// The scan before the first byte.
    pub open spec fn start() -> Scan {
        Scan {
            rows: Seq::empty(),
            row: Seq::empty(),
            field: Seq::empty(),
            field_start: 0,
            in_quote: false,
        }
    }

    /// The scan with one more byte in the field at hand.
    pub open spec fn push(self, c: u8) -> Scan {
        Scan { field: self.field.push(c), ..self }
    }

    /// The scan with the field at hand finished; the next one starts at `next`.
    pub open spec fn end_field(self, next: int) -> Result<Scan, CsvError> {
        match utf8_text(self.field) {
            None => Err(
                CsvError::NotUtf8 {
                    row: self.rows.len() as usize,
                    column: self.row.len() as usize,
                },
            ),
            Some(text) => Ok(
                Scan { row: self.row.push(text), field: Seq::empty(), field_start: next, ..self },
            ),
        }
    }

    /// The scan with the field and the row at hand finished.
    pub open spec fn end_row(self, next: int) -> Result<Scan, CsvError> {
        match self.end_field(next) {
            Err(e) => Err(e),
            Ok(s) => Ok(Scan { rows: s.rows.push(s.row), row: Seq::empty(), ..s }),
        }
    }
}

/// The rows of `data` from byte `i` on.  Outside a quote, the separator ends
/// a field and a line feed ends a row.  A quote mark opens or closes a quote,
/// except that two together stand for nothing outside a quote and for one
/// quote mark inside.  Inside a quote a backslash before a quote mark stands
/// for the quote mark.  A last row without a line feed counts if any byte
/// follows its last separator.
pub open spec fn scan_from(data: Seq<u8>, i: int, separator: u8, quote: u8, scan: Scan) -> Result<
    Seq<Seq<Seq<char>>>,
    CsvError,
>
    decreases data.len() - i,
{
    if i < 0 || i >= data.len() {
        if scan.field_start < data.len() {
            match scan.end_row(i) {
                Err(e) => Err(e),
                Ok(s) => Ok(s.rows),
            }
        } else {
            Ok(scan.rows)
        }
    } else {
        let c = data[i];
        let pair = i + 1 < data.len() && data[i + 1] == quote;
        if c == quote {
            if pair {
                if scan.in_quote {
                    scan_from(data, i + 2, separator, quote, scan.push(quote))
                } else {
                    scan_from(data, i + 2, separator, quote, scan)
                }
            } else {
                scan_from(data, i + 1, separator, quote, Scan { in_quote: !scan.in_quote, ..scan })
            }
        } else if scan.in_quote {
            if c == 0x5c && pair {
                scan_from(data, i + 2, separator, quote, scan.push(quote))
            } else {
                scan_from(data, i + 1, separator, quote, scan.push(c))
            }
        } else if c == 0x0a {
            match scan.end_row(i + 1) {
                Err(e) => Err(e),
                Ok(s) => scan_from(data, i + 1, separator, quote, s),
            }
        } else if c == separator {
            match scan.end_field(i + 1) {
                Err(e) => Err(e),
                Ok(s) => scan_from(data, i + 1, separator, quote, s),
            }
        } else {
            scan_from(data, i + 1, separator, quote, scan.push(c))
        }
    }
}

/// The rows that the bytes of a file hold.
pub open spec fn csv_rows(data: Seq<u8>, separator: u8, delimiter: Delimiter) -> Result<
    Seq<Seq<Seq<char>>>,
    CsvError,
> {
    scan_from(data, 0, separator, delimiter.byte(), Scan::start())
}

/// The texts of a list of fields.
pub open spec fn row_text(row: Seq<String>) -> Seq<Seq<char>> {
    Seq::new(row.len(), |j: int| row[j]@)
}

/// The texts of a list of rows.
pub open spec fn rows_text(rows: Seq<Vec<String>>) -> Seq<Seq<Seq<char>>> {
    Seq::new(rows.len(), |i: int| row_text(rows[i]@))
}

/// The cells of a list of rows: each field that is not empty, under its row
/// and column, both counted from 0.
pub open spec fn cells_of_rows(rows: Seq<Seq<Seq<char>>>) -> Map<(u32, u32), Seq<char>> {
    Map::new(
        |k: (u32, u32)|
            k.0 < rows.len() && k.1 < rows[k.0 as int].len() && rows[k.0 as int][k.1 as int].len()
                > 0,
        |k: (u32, u32)| rows[k.0 as int][k.1 as int],
    )
}

/// Finishes the field at hand and adds it to the row at hand.
fn end_field(field: &mut Vec<u8>, current_row: &mut Vec<String>, row_index: usize) -> (r: Result<
    (),
    CsvError,
>)
    ensures
        match utf8_text(old(field)@) {
            Some(text) => r is Ok && row_text(final(current_row)@) == row_text(
                old(current_row)@,
            ).push(text) && final(field)@ == Seq::<u8>::empty(),
            None => r == Err::<(), CsvError>(
                CsvError::NotUtf8 { row: row_index, column: old(current_row)@.len() as usize },
            ),
        },
{
    let mut bytes: Vec<u8> = Vec::new();
    std::mem::swap(field, &mut bytes);
    let column = current_row.len();
    match text_of_bytes(bytes) {
        Some(text) => {
            current_row.push(text);
            assert(row_text(current_row@) =~= row_text(old(current_row)@).push(text@));
            Ok(())
        },
        None => Err(CsvError::NotUtf8 { row: row_index, column }),
    }
}

/// Reads the rows of a file from its bytes.
pub fn read_csv_file(filename: &str, data: &[u8], separator: u8, string_delimiter: Delimiter) -> (r:
    Result<CSV, CsvError>)
    ensures
        match r {
            Ok(csv) => csv_rows(data@, separator, string_delimiter) == Ok::<
                Seq<Seq<Seq<char>>>,
                CsvError,
            >(rows_text(csv.rows@)) && csv.filename@ == filename@ && csv.separator == separator
                && csv.delimiter == string_delimiter,
            Err(e) => csv_rows(data@, separator, string_delimiter) == Err::<
                Seq<Seq<Seq<char>>>,
                CsvError,
            >(e),
        },
{
    let delimiter = string_delimiter.as_byte();
    let mut rows: Vec<Vec<String>> = Vec::new();
    let mut current_row: Vec<String> = Vec::new();
    let mut field: Vec<u8> = Vec::new();
    let mut i: usize = 0;
    let mut start_idx: usize = 0;
    let mut reading_delimiter = false;
    let n = data.len();
    assert(rows_text(rows@) =~= Seq::empty());
    assert(row_text(current_row@) =~= Seq::empty());
    while i < n
        invariant
            i <= n + 1,
            n == data@.len(),
            delimiter == string_delimiter.byte(),
            start_idx <= n,
            scan_from(
                data@,
                i as int,
                separator,
                delimiter,
                Scan {
                    rows: rows_text(rows@),
                    row: row_text(current_row@),
                    field: field@,
                    field_start: start_idx as int,
                    in_quote: reading_delimiter,
                },
            ) == csv_rows(data@, separator, string_delimiter),
        decreases n + 1 - i,
    {
        let c = data[i];
        let pair = i + 1 < n && data[i + 1] == delimiter;
        if c == delimiter {
            if pair {
                if reading_delimiter {
                    field.push(delimiter);
                }
                i += 1;
            } else {
                reading_delimiter = !reading_delimiter;
            }
        } else if reading_delimiter {
            if c == 0x5c && pair {
                field.push(delimiter);
                i += 1;
            } else {
                field.push(c);
            }
        } else if c == 0x0a {
            match end_field(&mut field, &mut current_row, rows.len()) {
                Ok(_) => {},
                Err(e) => {
                    return Err(e);
                },
            }
            let mut finished: Vec<String> = Vec::new();
            std::mem::swap(&mut current_row, &mut finished);
            let ghost before = rows@;
            rows.push(finished);
            assert(rows_text(rows@) =~= rows_text(before).push(row_text(finished@)));
            assert(row_text(current_row@) =~= Seq::empty());
            start_idx = i + 1;
        } else if c == separator {
            match end_field(&mut field, &mut current_row, rows.len()) {
                Ok(_) => {},
                Err(e) => {
                    return Err(e);
                },
            }
            start_idx = i + 1;
        } else {
            field.push(c);
        }
        i += 1;
    }
    if start_idx < n {
        match end_field(&mut field, &mut current_row, rows.len()) {
            Ok(_) => {},
            Err(e) => {
                return Err(e);
            },
        }
        let ghost before = rows@;
        rows.push(current_row);
        assert(rows_text(rows@) =~= rows_text(before).push(row_text(current_row@)));
    }
    Ok(CSV { filename: filename.to_owned(), separator, delimiter: string_delimiter, rows })
}

/// The cells of the first `i` rows and of the first `j` fields of row `i`.
pub open spec fn cells_before(rows: Seq<Seq<Seq<char>>>, i: int, j: int) -> Map<
    (u32, u32),
    Seq<char>,
> {
    Map::new(
        |k: (u32, u32)|
            (k.0 < i || (k.0 == i && k.1 < j)) && k.0 < rows.len() && k.1 < rows[k.0 as int].len()
                && rows[k.0 as int][k.1 as int].len() > 0,
        |k: (u32, u32)| rows[k.0 as int][k.1 as int],
    )
}

/// Reads the cells of a file from its bytes.
pub fn read_csv_file_as_hashmap(
    filename: &str,
    data: &[u8],
    separator: u8,
    string_delimiter: Delimiter,
) -> (r: Result<CSVMap, CsvError>)
    ensures
        match r {
            Ok(csv) => csv_rows(data@, separator, string_delimiter) matches Ok(rows) && csv.map@
                == cells_of_rows(rows) && csv.map.wf() && csv.filename@ == filename@
                && csv.separator == separator && csv.delimiter == string_delimiter,
            Err(e) => csv_rows(data@, separator, string_delimiter) == Err::<
                Seq<Seq<Seq<char>>>,
                CsvError,
            >(e),
        },
{
    let csv = match read_csv_file(filename, data, separator, string_delimiter) {
        Ok(v) => v,
        Err(e) => {
            return Err(e);
        },
    };
    let ghost texts = rows_text(csv.rows@);
    let mut map = CellMap::new();
    let mut i: usize = 0;
    assert(map@ =~= cells_before(texts, 0, 0));
    while i < csv.rows.len() && i <= 0xFFFF_FFFF
        invariant
            i <= csv.rows@.len(),
            texts == rows_text(csv.rows@),
            map.wf(),
            map@ == cells_before(texts, i as int, 0),
        decreases csv.rows@.len() - i,
    {
        let row = &csv.rows[i];
        let mut j: usize = 0;
        while j < row.len() && j <= 0xFFFF_FFFF
            invariant
                i < csv.rows@.len(),
                i <= 0xFFFF_FFFF,
                row@ == csv.rows@[i as int]@,
                j <= row@.len(),
                texts == rows_text(csv.rows@),
                map.wf(),
                map@ == cells_before(texts, i as int, j as int),
            decreases row@.len() - j,
        {
            let col = &row[j];
            let ghost before = map@;
            map.insert(i as u32, j as u32, col.clone());
            assert(texts[i as int][j as int] == col@);
            j += 1;
            assert(map@ =~= cells_before(texts, i as int, j as int));
        }
        i += 1;
        assert(map@ =~= cells_before(texts, i as int, 0));
    }
    assert(map@ =~= cells_of_rows(texts));
    Ok(CSVMap { filename: csv.filename, separator: csv.separator, delimiter: csv.delimiter, map })
}

} // verus!
