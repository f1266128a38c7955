//! The projection of an XLSX workbook to the sparse cell map: shared strings,
//! cell references, cell types, and the choice of the worksheet.

use vstd::prelude::*;
use vstd::string::{StrSliceExecFns, StringExecFns};
use vstd::utf8::{encode_utf8, is_ascii_chars};
use crate::cells::{CellMap, with_cell};
use crate::text::{
    bytes_start_with, decimal_value, is_decimal, parse_decimal, starts_with, str_eq, texts_of,
    utf8_text,
};
use crate::xml::{
    first_named, first_text, lemma_nodes_of, named_elements, node_of, nodes_of, parse_document,
    Component, Document, Node, XMLError,
};
use crate::zip::{open_archive, CentralView, LocalView, Zip, ZipError, ZipFile};

verus! {

/// Why a workbook could not be read.
#[derive(Debug)]
pub enum XlsxError {
    /// The bytes are not a ZIP archive that this reader can open, or a member
    /// of the archive is not text.
    Archive(ZipError),
    /// A member of the archive is not a document that parses.
    Xml(XMLError),
    /// A document lacks the top-level element of this name.
    MissingElement { name: &'static str },
    /// The archive has no worksheet, or not the one that was asked for.
    MissingWorksheet,
}

/// Whether the character is a digit, `0` to `9`.
pub open spec fn digit_char(c: char) -> bool {
    '0' <= c <= '9'
}

/// Whether the character is a letter `A` to `Z`.
pub open spec fn upper_char(c: char) -> bool {
    'A' <= c <= 'Z'
}

/// Whether the byte is a digit, `0` to `9`.
pub fn is_digit(c: u8) -> (r: bool)
    ensures
        r == (0x30 <= c <= 0x39),
{
    0x30 <= c && c <= 0x39
}

/// Whether the byte is a letter, `a` to `z` or `A` to `Z`.
pub fn is_alpha(c: u8) -> (r: bool)
    ensures
        r == ((0x61 <= c <= 0x7a) || (0x41 <= c <= 0x5a)),
{
    (0x61 <= c && c <= 0x7a) || (0x41 <= c && c <= 0x5a)
}

/// The number that column letters spell: `A` is 1, `Z` is 26, `AA` is 27.
pub open spec fn column_number(letters: Seq<char>) -> nat
    decreases letters.len(),
{
    if letters.len() == 0 {
        0
    } else {
        26 * column_number(letters.drop_last()) + (letters.last() as nat - 'A' as nat + 1) as nat
    }
}

/// Whether the text is one or more of the letters `A` to `Z`.
pub open spec fn is_column_letters(letters: Seq<char>) -> bool {
    &&& letters.len() > 0
    &&& forall|i: int| 0 <= i < letters.len() ==> upper_char(#[trigger] letters[i])
}

/// The zero-based column that the letters name, if it fits in 32 bits.
pub open spec fn column_index(letters: Seq<char>) -> Option<u32> {
    if is_column_letters(letters) && column_number(letters) - 1 <= u32::MAX {
        Some((column_number(letters) - 1) as u32)
    } else {
        None
    }
}

/// The zero-based row that one-based decimal digits name.
pub open spec fn row_index(digits: Seq<char>) -> Option<u32> {
    if is_decimal(digits) && 1 <= decimal_value(digits) <= u32::MAX {
        Some((decimal_value(digits) - 1) as u32)
    } else {
        None
    }
}

/// Column letters spell a number that is at least 1.
pub proof fn lemma_column_number_positive(letters: Seq<char>)
    requires
        is_column_letters(letters),
    ensures
        column_number(letters) >= 1,
{
    assert(upper_char(letters.last()));
}

/// The first letters of a column spell no more than all of them.
pub proof fn lemma_column_number_monotone(letters: Seq<char>, k: int)
    requires
        0 <= k <= letters.len(),
        forall|i: int| 0 <= i < letters.len() ==> upper_char(#[trigger] letters[i]),
    ensures
        column_number(letters.take(k)) <= column_number(letters),
    decreases letters.len() - k,
{
    if k < letters.len() {
        lemma_column_number_monotone(letters, k + 1);
        let next = letters.take(k + 1);
        assert(next.drop_last() =~= letters.take(k));
        assert(upper_char(next.last()));
    } else {
        assert(letters.take(k) =~= letters);
    }
}

/// The letter that stands for `digit`, which is below 26: `A` for 0.
pub open spec fn column_letter(digit: nat) -> char {
    ((0x41 + digit) as u8) as char
}

/// The letters that name the zero-based column `index`: `A` for 0, `Z` for
/// 25, `AA` for 26.
pub open spec fn column_name(index: nat) -> Seq<char>
    decreases index,
{
    if index < 26 {
        seq![column_letter(index)]
    } else {
        column_name((index / 26 - 1) as nat).push(column_letter(index % 26))
    }
}

/// The letter of a digit below 26 is one of `A` to `Z`, that many after `A`.
pub proof fn lemma_column_letter(digit: nat)
    requires
        digit < 26,
    ensures
        upper_char(column_letter(digit)),
        column_letter(digit) as nat - 'A' as nat == digit,
{
    assert('A' as nat == 0x41);
    assert('Z' as nat == 0x5a);
    let b = (0x41 + digit) as u8;
    assert((b as char) as nat == b as nat);
}

/// The name of a column is made of one or more letters `A` to `Z`, and
/// decoding it gives the column back.
pub proof fn lemma_decode_column_name(index: nat)
    ensures
        is_column_letters(column_name(index)),
        column_number(column_name(index)) == index + 1,
        column_index(column_name(index)) == if index <= u32::MAX {
            Some(index as u32)
        } else {
            None
        },
    decreases index,
{
    if index < 26 {
        lemma_column_letter(index);
        let name = column_name(index);
        assert(name.drop_last() =~= Seq::<char>::empty());
        assert(column_number(name.drop_last()) == 0);
    } else {
        let before = (index / 26 - 1) as nat;
        lemma_decode_column_name(before);
        lemma_column_letter(index % 26);
        let name = column_name(index);
        assert(name.drop_last() =~= column_name(before));
        assert(name.last() == column_letter(index % 26));
        assert forall|i: int| 0 <= i < name.len() implies upper_char(#[trigger] name[i]) by {
            if i < name.len() - 1 {
                assert(name[i] == column_name(before)[i]);
            }
        }
    }
}

/// Letters `A` to `Z` are the name of the column that they decode to.
pub proof fn lemma_name_of_decoded_column(letters: Seq<char>)
    requires
        is_column_letters(letters),
    ensures
        column_name((column_number(letters) - 1) as nat) == letters,
    decreases letters.len(),
{
    let last = letters.last();
    assert(upper_char(last));
    assert('A' as nat == 0x41);
    assert('Z' as nat == 0x5a);
    let digit = (last as nat - 'A' as nat) as nat;
    let b = (0x41 + digit) as u8;
    assert(b as nat == last as nat);
    assert(column_letter(digit) == last) by {
        vstd::utf8::char_u32_cast(last, last as u32);
        assert((b as char) == ((last as u32) as char));
    }
    if letters.len() == 1 {
        assert(letters.drop_last() =~= Seq::<char>::empty());
        assert(column_number(letters.drop_last()) == 0);
        assert(column_name(digit) =~= letters);
    } else {
        let front = letters.drop_last();
        assert(is_column_letters(front)) by {
            assert forall|i: int| 0 <= i < front.len() implies upper_char(#[trigger] front[i]) by {
                assert(front[i] == letters[i]);
            }
        }
        lemma_name_of_decoded_column(front);
        lemma_column_number_positive(front);
        let index = (column_number(letters) - 1) as nat;
        assert(index == 26 * column_number(front) + digit);
        assert(index / 26 == column_number(front));
        assert(index % 26 == digit);
        assert(column_name(index) =~= letters);
    }
}

/// Decoding column letters is a bijection from the texts of one or more
/// letters `A` to `Z` to the numbers from 0 on: two different texts decode to
/// different columns, and every column is decoded from the text that names it.
pub proof fn lemma_column_decoding_is_a_bijection(first: Seq<char>, second: Seq<char>, index: nat)
    requires
        is_column_letters(first),
        is_column_letters(second),
    ensures
        column_number(first) - 1 == column_number(second) - 1 ==> first == second,
        column_number(first) >= 1,
        is_column_letters(column_name(index)),
        column_number(column_name(index)) - 1 == index,
{
    lemma_name_of_decoded_column(first);
    lemma_name_of_decoded_column(second);
    lemma_column_number_positive(first);
    lemma_decode_column_name(index);
}

/// Reads column letters: `A` gives 0, `Z` 25, `AA` 26.
pub fn base26_letters_to_int(v: &str) -> (r: Option<u32>)
    ensures
        r == column_index(v@),
{
    if !v.is_ascii() {
        assert(!is_column_letters(v@)) by {
            if is_column_letters(v@) {
                assert forall|i: int| 0 <= i < v@.len() implies '\0' <= #[trigger] v@[i]
                    <= '\u{7f}' by {
                    assert(upper_char(v@[i]));
                }
            }
        }
        return None;
    }
    let bytes = v.as_bytes();
    proof {
        vstd::utf8::is_ascii_chars_encode_utf8(v@);
    }
    let n = bytes.len();
    if n == 0 {
        return None;
    }
    let mut result: u64 = 0;
    let mut i: usize = 0;
    assert(v@.take(0) =~= Seq::<char>::empty());
    while i < n
        invariant
            i <= n,
            n == v@.len(),
            bytes@.len() == n,
            is_ascii_chars(v@),
            bytes@ == encode_utf8(v@),
            forall|k: int| 0 <= k < i ==> upper_char(#[trigger] v@[k]),
            result == column_number(v@.take(i as int)),
            result <= 0x1_0000_0000,
        decreases n - i,
    {
        let c = bytes[i];
        proof {
            vstd::utf8::is_ascii_chars_encode_utf8(v@);
            vstd::utf8::is_ascii_chars_nat_bound(v@);
            assert(c == v@[i as int] as u8);
            assert((v@[i as int] as nat) < 128);
            assert('A' as nat == 65);
        }
        if c < 0x41 || c > 0x5a {
            assert(!upper_char(v@[i as int]));
            return None;
        }
        let next: u64 = result * 26 + 1 + (c - 0x41) as u64;
        proof {
            let taken = v@.take(i + 1);
            assert(taken.drop_last() =~= v@.take(i as int));
            assert(taken.last() == v@[i as int]);
            assert(column_number(taken) == next);
        }
        if next > 0x1_0000_0000 {
            proof {
                if is_column_letters(v@) {
                    lemma_column_number_monotone(v@, i + 1);
                }
            }
            return None;
        }
        result = next;
        i += 1;
    }
    proof {
        assert(v@.take(n as int) =~= v@);
        lemma_column_number_positive(v@);
    }
    Some((result - 1) as u32)
}

/// The place of the first digit from `from` on, or the length where there is none.
pub open spec fn first_digit(s: Seq<char>, from: int) -> int
    decreases s.len() - from,
{
    if from < 0 || from >= s.len() {
        s.len() as int
    } else if digit_char(s[from]) {
        from
    } else {
        first_digit(s, from + 1)
    }
}

/// The first digit stands at or after `from`, and no digit stands before it.
pub proof fn lemma_first_digit(s: Seq<char>, from: int)
    requires
        0 <= from <= s.len(),
    ensures
        from <= first_digit(s, from) <= s.len(),
        first_digit(s, from) < s.len() ==> digit_char(s[first_digit(s, from)]),
        forall|i: int| from <= i < first_digit(s, from) ==> !digit_char(s[i]),
    decreases s.len() - from,
{
    if from < s.len() && !digit_char(s[from]) {
        lemma_first_digit(s, from + 1);
    }
}

/// The zero-based `(row, column)` that a cell reference such as `B7` names:
/// column letters up to the first digit, then the decimal row.
pub open spec fn cell_position(reference: Seq<char>) -> Option<(u32, u32)> {
    let split = first_digit(reference, 0);
    match (column_index(reference.take(split)), row_index(reference.skip(split))) {
        (Some(col), Some(row)) => Some((row, col)),
        _ => None,
    }
}

/// Reads a cell reference.
pub fn cell_pos_to_tuple(cell_pos: &str) -> (r: Option<(u32, u32)>)
    ensures
        r == cell_position(cell_pos@),
{
    let ghost s = cell_pos@;
    proof {
        lemma_first_digit(s, 0);
    }
    if !cell_pos.is_ascii() {
        proof {
            let split = first_digit(s, 0);
            let bad = choose|i: int| 0 <= i < s.len() && !('\0' <= #[trigger] s[i] <= '\u{7f}');
            if bad < split {
                assert(s.take(split)[bad] == s[bad]);
                assert(!upper_char(s.take(split)[bad]));
            } else {
                assert(s.skip(split)[bad - split] == s[bad]);
                assert(!('0' <= s.skip(split)[bad - split] <= '9'));
            }
        }
        return None;
    }
    let bytes = cell_pos.as_bytes();
    proof {
        vstd::utf8::is_ascii_chars_encode_utf8(s);
    }
    let n = bytes.len();
    let mut split: usize = 0;
    while split < n
        invariant
            split <= n,
            n == s.len(),
            s == cell_pos@,
            is_ascii_chars(s),
            bytes@ == encode_utf8(s),
            first_digit(s, split as int) == first_digit(s, 0),
        ensures
            split <= n,
            split == first_digit(s, 0),
        decreases n - split,
    {
        proof {
            vstd::utf8::is_ascii_chars_encode_utf8(s);
            vstd::utf8::is_ascii_chars_nat_bound(s);
            assert(bytes@[split as int] == s[split as int] as u8);
            assert((s[split as int] as nat) < 128);
            assert('0' as nat == 48);
        }
        if is_digit(bytes[split]) {
            break;
        }
        split += 1;
    }
    let letters = cell_pos.substring_ascii(0, split);
    let digits = cell_pos.substring_ascii(split, n);
    assert(letters@ =~= s.take(split as int));
    assert(digits@ =~= s.skip(split as int));
    let col = match base26_letters_to_int(letters) {
        Some(v) => v,
        None => {
            return None;
        },
    };
    match parse_decimal(digits) {
        Some(row) => {
            if row == 0 {
                None
            } else {
                Some((row - 1, col))
            }
        },
        None => None,
    }
}

/// Whether the component is an element called `elem_name`.
pub fn element_by_name(item: &Component, elem_name: &str) -> (r: bool)
    ensures
        r == node_of(*item).is_element_named(elem_name@),
{
    item.is_element_named(elem_name)
}

/// The text of a text component.
pub fn get_text(item: &Component) -> (r: Option<String>)
    ensures
        match r {
            Some(text) => node_of(*item) matches Node::Text { value, .. } && value == text@,
            None => !(node_of(*item) is Text),
        },
{
    match item {
        Component::Text { value, .. } => Some(value.clone()),
        _ => None,
    }
}

/// The first text among the children of a node, or the empty text.
pub open spec fn text_or_empty(node: Node) -> Seq<char> {
    match first_text(node.child_nodes(), 0) {
        Some(text) => text,
        None => Seq::empty(),
    }
}

/// The string of an `si` element: the text of its child `t`, or else of the
/// `t` inside its child `r`, or else empty.
pub open spec fn shared_string(si: Node) -> Seq<char> {
    match si.child_named("t"@) {
        Some(t) => text_or_empty(t),
        None => match si.child_named("r"@) {
            Some(r) => match r.child_named("t"@) {
                Some(t) => text_or_empty(t),
                None => Seq::empty(),
            },
            None => Seq::empty(),
        },
    }
}

/// The strings of a list of `si` elements.
pub open spec fn strings_of(items: Seq<Node>) -> Seq<Seq<char>> {
    Seq::new(items.len(), |i: int| shared_string(items[i]))
}

/// The shared strings of a document: those of the `si` children of its first
/// top-level `sst` element.
pub open spec fn shared_strings_of(nodes: Seq<Node>) -> Option<Seq<Seq<char>>> {
    match first_named(nodes, "sst"@, 0) {
        None => None,
        Some(i) => Some(strings_of(named_elements(nodes[i].child_nodes(), "si"@))),
    }
}

/// The shared strings that the bytes of `xl/sharedStrings.xml` hold.
pub open spec fn shared_strings_in(content: Seq<u8>) -> Result<Seq<Seq<char>>, XlsxError> {
    match parse_document(content) {
        Err(e) => Err(XlsxError::Xml(e)),
        Ok(nodes) => match shared_strings_of(nodes) {
            None => Err(XlsxError::MissingElement { name: "sst" }),
            Some(strings) => Ok(strings),
        },
    }
}

/// The first of the components that is an element called `name`.
pub fn find_top_level<'a>(components: &'a Vec<Component>, name: &str) -> (r: Option<
    &'a Component,
>)
    ensures
        match r {
            Some(found) => first_named(nodes_of(components@), name@, 0) matches Some(i)
                && nodes_of(components@)[i] == node_of(*found),
            None => first_named(nodes_of(components@), name@, 0) is None,
        },
{
    let ghost nodes = nodes_of(components@);
    proof {
        lemma_nodes_of(components@);
    }
    let mut i: usize = 0;
    while i < components.len()
        invariant
            i <= components.len(),
            nodes == nodes_of(components@),
            nodes.len() == components@.len(),
            forall|k: int| 0 <= k < nodes.len() ==> #[trigger] nodes[k] == node_of(components@[k]),
            first_named(nodes, name@, i as int) == first_named(nodes, name@, 0),
        decreases components.len() - i,
    {
        if element_by_name(&components[i], name) {
            return Some(&components[i]);
        }
        i += 1;
    }
    None
}

/// The first text among the children of an element, or the empty string.
pub fn text_of(item: &Component) -> (r: String)
    ensures
        r@ == text_or_empty(node_of(*item)),
{
    match item.first_text() {
        Some(text) => text.clone(),
        None => String::new(),
    }
}

/// The string of an `si` element.
pub fn read_shared_string(si: &Component) -> (r: String)
    ensures
        r@ == shared_string(node_of(*si)),
{
    match si.find_element("t") {
        Some(t) => text_of(t),
        None => match si.find_element("r") {
            Some(r) => match r.find_element("t") {
                Some(t) => text_of(t),
                None => String::new(),
            },
            None => String::new(),
        },
    }
}

/// Reads the shared strings from the bytes of `xl/sharedStrings.xml`.
pub fn read_shared_strings(content: Vec<u8>) -> (r: Result<Vec<String>, XlsxError>)
    ensures
        match r {
            Ok(strings) => shared_strings_in(content@) == Ok::<Seq<Seq<char>>, XlsxError>(
                texts_of(strings@),
            ),
            Err(e) => shared_strings_in(content@) == Err::<Seq<Seq<char>>, XlsxError>(e),
        },
{
    let doc = match Document::from_data(content) {
        Ok(v) => v,
        Err(e) => {
            return Err(XlsxError::Xml(e));
        },
    };
    let sst = match find_top_level(&doc.children, "sst") {
        Some(v) => v,
        None => {
            return Err(XlsxError::MissingElement { name: "sst" });
        },
    };
    let items = sst.filter_elements("si");
    let ghost wanted = strings_of(named_elements(node_of(*sst).child_nodes(), "si"@));
    let mut shared_strings: Vec<String> = Vec::new();
    let mut i: usize = 0;
    while i < items.len()
        invariant
            i <= items@.len(),
            items@.len() == wanted.len(),
            forall|k: int| 0 <= k < items@.len() ==> shared_string(node_of(*#[trigger] items@[k]))
                == wanted[k],
            shared_strings@.len() == i,
            forall|k: int| 0 <= k < i ==> (#[trigger] shared_strings@[k])@ == wanted[k],
        decreases items@.len() - i,
    {
        let text = read_shared_string(items[i]);
        shared_strings.push(text);
        i += 1;
    }
    assert(texts_of(shared_strings@) =~= wanted);
    Ok(shared_strings)
}

/// The text that a cell shows: the text of its `v` child read by its type.
/// `n` and `str` show the text as it is; `b` shows `true` for `1` and `false`
/// otherwise; `s` shows the shared string with that index, or `???` where
/// there is none; any other type shows `??`, no type at all `?`.
pub open spec fn cell_value(
    kind: Option<Seq<char>>,
    text: Seq<char>,
    shared: Seq<Seq<char>>,
) -> Seq<char> {
    match kind {
        None => "?"@,
        Some(t) => if t == "n"@ || t == "str"@ {
            text
        } else if t == "b"@ {
            if text == "1"@ {
                "true"@
            } else {
                "false"@
            }
        } else if t == "s"@ {
            if is_decimal(text) && decimal_value(text) <= u32::MAX && decimal_value(text)
                < shared.len() {
                shared[decimal_value(text) as int]
            } else {
                "???"@
            }
        } else {
            "??"@
        },
    }
}

/// The cells with the cell of a `c` element added: it needs a `v` child and
/// an `r` attribute that is a cell reference.
pub open spec fn with_cell_of(
    cells: Map<(u32, u32), Seq<char>>,
    c: Node,
    shared: Seq<Seq<char>>,
) -> Map<(u32, u32), Seq<char>> {
    match (c.child_named("v"@), c.attribute("r"@)) {
        (Some(v), Some(reference)) => match cell_position(reference) {
            Some((row, col)) => with_cell(
                cells,
                row,
                col,
                cell_value(c.attribute("t"@), text_or_empty(v), shared),
            ),
            None => cells,
        },
        _ => cells,
    }
}

/// The cells with those of a list of `c` elements added, in their order.
pub open spec fn with_cells_of(
    cells: Map<(u32, u32), Seq<char>>,
    items: Seq<Node>,
    shared: Seq<Seq<char>>,
) -> Map<(u32, u32), Seq<char>>
    decreases items.len(),
{
    if items.len() == 0 {
        cells
    } else {
        with_cell_of(with_cells_of(cells, items.drop_last(), shared), items.last(), shared)
    }
}

/// The cells with those of a list of `row` elements added.
pub open spec fn with_rows_of(
    cells: Map<(u32, u32), Seq<char>>,
    rows: Seq<Node>,
    shared: Seq<Seq<char>>,
) -> Map<(u32, u32), Seq<char>>
    decreases rows.len(),
{
    if rows.len() == 0 {
        cells
    } else {
        with_cells_of(
            with_rows_of(cells, rows.drop_last(), shared),
            named_elements(rows.last().child_nodes(), "c"@),
            shared,
        )
    }
}

/// The cells with those of a list of `sheetData` elements added.
pub open spec fn with_sheets_of(
    cells: Map<(u32, u32), Seq<char>>,
    sheets: Seq<Node>,
    shared: Seq<Seq<char>>,
) -> Map<(u32, u32), Seq<char>>
    decreases sheets.len(),
{
    if sheets.len() == 0 {
        cells
    } else {
        with_rows_of(
            with_sheets_of(cells, sheets.drop_last(), shared),
            named_elements(sheets.last().child_nodes(), "row"@),
            shared,
        )
    }
}

/// The cells of a worksheet document: those of the `c` elements in the `row`
/// elements in the `sheetData` children of its first top-level `worksheet`
/// element.
pub open spec fn cells_of_worksheet(nodes: Seq<Node>, shared: Seq<Seq<char>>) -> Option<
    Map<(u32, u32), Seq<char>>,
> {
    match first_named(nodes, "worksheet"@, 0) {
        None => None,
        Some(i) => Some(
            with_sheets_of(
                Map::empty(),
                named_elements(nodes[i].child_nodes(), "sheetData"@),
                shared,
            ),
        ),
    }
}

/// The cells that the bytes of a worksheet hold.
pub open spec fn cells_in(content: Seq<u8>, shared: Seq<Seq<char>>) -> Result<
    Map<(u32, u32), Seq<char>>,
    XlsxError,
> {
    match parse_document(content) {
        Err(e) => Err(XlsxError::Xml(e)),
        Ok(nodes) => match cells_of_worksheet(nodes, shared) {
            None => Err(XlsxError::MissingElement { name: "worksheet" }),
            Some(cells) => Ok(cells),
        },
    }
}

/// The text that a cell of type `kind` with the text `text` shows.
pub fn read_cell_value(kind: Option<&String>, text: String, shared_strings: &Vec<String>) -> (r:
    String)
    ensures
        r@ == cell_value(
            match kind {
                Some(t) => Some(t@),
                None => None,
            },
            text@,
            texts_of(shared_strings@),
        ),
{
    match kind {
        None => "?".to_owned(),
        Some(t) => {
            if str_eq(t.as_str(), "n") || str_eq(t.as_str(), "str") {
                text
            } else if str_eq(t.as_str(), "b") {
                if str_eq(text.as_str(), "1") {
                    "true".to_owned()
                } else {
                    "false".to_owned()
                }
            } else if str_eq(t.as_str(), "s") {
                match parse_decimal(text.as_str()) {
                    Some(index) => {
                        if (index as usize) < shared_strings.len() {
                            shared_strings[index as usize].clone()
                        } else {
                            "???".to_owned()
                        }
                    },
                    None => "???".to_owned(),
                }
            } else {
                "??".to_owned()
            }
        },
    }
}

/// Adds the cell of a `c` element to the map.
pub fn read_cell(map: &mut CellMap, c: &Component, shared_strings: &Vec<String>)
    requires
        old(map).wf(),
    ensures
        final(map).wf(),
        final(map)@ == with_cell_of(old(map)@, node_of(*c), texts_of(shared_strings@)),
{
    let v = match c.find_element("v") {
        Some(v) => v,
        None => {
            return;
        },
    };
    let reference = match c.attribute("r") {
        Some(r) => r,
        None => {
            return;
        },
    };
    let (row, col) = match cell_pos_to_tuple(reference.as_str()) {
        Some(v) => v,
        None => {
            return;
        },
    };
    let value = read_cell_value(c.attribute("t"), text_of(v), shared_strings);
    map.insert(row, col, value);
}

/// Adds the cells of the `c` children of a `row` element to the map.
pub fn read_row(map: &mut CellMap, row: &Component, shared_strings: &Vec<String>)
    requires
        old(map).wf(),
    ensures
        final(map).wf(),
        final(map)@ == with_cells_of(
            old(map)@,
            named_elements(node_of(*row).child_nodes(), "c"@),
            texts_of(shared_strings@),
        ),
{
    let items = row.filter_elements("c");
    let ghost wanted = named_elements(node_of(*row).child_nodes(), "c"@);
    let ghost shared = texts_of(shared_strings@);
    let mut i: usize = 0;
    assert(wanted.take(0) =~= Seq::empty());
    while i < items.len()
        invariant
            i <= items@.len(),
            items@.len() == wanted.len(),
            forall|k: int| 0 <= k < items@.len() ==> node_of(*#[trigger] items@[k]) == wanted[k],
            shared == texts_of(shared_strings@),
            map.wf(),
            map@ == with_cells_of(old(map)@, wanted.take(i as int), shared),
        decreases items@.len() - i,
    {
        proof {
            let next = wanted.take(i + 1);
            assert(next.drop_last() =~= wanted.take(i as int));
            assert(next.last() == wanted[i as int]);
        }
        read_cell(map, items[i], shared_strings);
        i += 1;
    }
    assert(wanted.take(i as int) =~= wanted);
}

/// Adds the cells of the `row` children of a `sheetData` element to the map.
pub fn read_sheet_data(map: &mut CellMap, sheet_data: &Component, shared_strings: &Vec<String>)
    requires
        old(map).wf(),
    ensures
        final(map).wf(),
        final(map)@ == with_rows_of(
            old(map)@,
            named_elements(node_of(*sheet_data).child_nodes(), "row"@),
            texts_of(shared_strings@),
        ),
{
    let items = sheet_data.filter_elements("row");
    let ghost wanted = named_elements(node_of(*sheet_data).child_nodes(), "row"@);
    let ghost shared = texts_of(shared_strings@);
    let mut i: usize = 0;
    assert(wanted.take(0) =~= Seq::empty());
    while i < items.len()
        invariant
            i <= items@.len(),
            items@.len() == wanted.len(),
            forall|k: int| 0 <= k < items@.len() ==> node_of(*#[trigger] items@[k]) == wanted[k],
            shared == texts_of(shared_strings@),
            map.wf(),
            map@ == with_rows_of(old(map)@, wanted.take(i as int), shared),
        decreases items@.len() - i,
    {
        proof {
            let next = wanted.take(i + 1);
            assert(next.drop_last() =~= wanted.take(i as int));
            assert(next.last() == wanted[i as int]);
        }
        read_row(map, items[i], shared_strings);
        i += 1;
    }
    assert(wanted.take(i as int) =~= wanted);
}

/// Reads the cells from the bytes of a worksheet.
pub fn read_cells(content: Vec<u8>, shared_strings: Vec<String>) -> (r: Result<CellMap, XlsxError>)
    ensures
        match r {
            Ok(map) => map.wf() && cells_in(content@, texts_of(shared_strings@)) == Ok::<
                Map<(u32, u32), Seq<char>>,
                XlsxError,
            >(map@),
            Err(e) => cells_in(content@, texts_of(shared_strings@)) == Err::<
                Map<(u32, u32), Seq<char>>,
                XlsxError,
            >(e),
        },
{
    let doc = match Document::from_data(content) {
        Ok(v) => v,
        Err(e) => {
            return Err(XlsxError::Xml(e));
        },
    };
    let worksheet = match find_top_level(&doc.children, "worksheet") {
        Some(v) => v,
        None => {
            return Err(XlsxError::MissingElement { name: "worksheet" });
        },
    };
    let items = worksheet.filter_elements("sheetData");
    let ghost wanted = named_elements(node_of(*worksheet).child_nodes(), "sheetData"@);
    let ghost shared = texts_of(shared_strings@);
    let mut map = CellMap::new();
    let mut i: usize = 0;
    assert(wanted.take(0) =~= Seq::empty());
    while i < items.len()
        invariant
            i <= items@.len(),
            items@.len() == wanted.len(),
            forall|k: int| 0 <= k < items@.len() ==> node_of(*#[trigger] items@[k]) == wanted[k],
            shared == texts_of(shared_strings@),
            map.wf(),
            map@ == with_sheets_of(Map::empty(), wanted.take(i as int), shared),
        decreases items@.len() - i,
    {
        proof {
            let next = wanted.take(i + 1);
            assert(next.drop_last() =~= wanted.take(i as int));
            assert(next.last() == wanted[i as int]);
        }
        read_sheet_data(&mut map, items[i], &shared_strings);
        i += 1;
    }
    assert(wanted.take(i as int) =~= wanted);
    Ok(map)
}

/// The cells of one worksheet of a workbook.
#[derive(Debug)]
pub struct XLSXMap {
    pub filename: String,
    /// The name of the archive member that the cells were read from.
    pub worksheet: String,
    pub map: CellMap,
}

/// The names of the members of an archive.
pub open spec fn member_names(entries: Seq<(CentralView, LocalView)>) -> Seq<Seq<char>> {
    Seq::new(entries.len(), |k: int| entries[k].0.file_name)
}

/// The names of a list of files.
pub open spec fn file_names(files: Seq<ZipFile>) -> Seq<Seq<char>> {
    Seq::new(files.len(), |k: int| files[k].name@)
}

/// The place of the first name from `from` on that is `name`.
pub open spec fn first_member(names: Seq<Seq<char>>, name: Seq<char>, from: int) -> Option<int>
    decreases names.len() - from,
{
    if from < 0 || from >= names.len() {
        None
    } else if names[from] == name {
        Some(from)
    } else {
        first_member(names, name, from + 1)
    }
}

/// Whether a member with this name is a worksheet: its name begins with
/// `xl/worksheets/`.
pub open spec fn is_worksheet_name(name: Seq<char>) -> bool {
    starts_with(encode_utf8(name), encode_utf8("xl/worksheets/"@))
}

/// The place of the first name from `from` on that is the name of a worksheet.
pub open spec fn first_worksheet(names: Seq<Seq<char>>, from: int) -> Option<int>
    decreases names.len() - from,
{
    if from < 0 || from >= names.len() {
        None
    } else if is_worksheet_name(names[from]) {
        Some(from)
    } else {
        first_worksheet(names, from + 1)
    }
}

/// The name of the member that holds the worksheet called `name`.
pub open spec fn worksheet_path(name: Seq<char>) -> Seq<char> {
    "xl/worksheets/"@ + name + ".xml"@
}

/// The shared strings of a workbook; it has none where the member
/// `xl/sharedStrings.xml` is missing.
pub open spec fn workbook_strings(entries: Seq<(CentralView, LocalView)>) -> Result<
    Seq<Seq<char>>,
    XlsxError,
> {
    match first_member(member_names(entries), "xl/sharedStrings.xml"@, 0) {
        Some(i) => shared_strings_in(entries[i].1.data),
        None => Ok(Seq::empty()),
    }
}

/// The worksheet to read: the one that was asked for, or else the first.
/// Gives the name of its member and, where there is such a member, its place.
pub open spec fn chosen_worksheet(names: Seq<Seq<char>>, worksheet_name: Option<Seq<char>>) -> (
    Seq<char>,
    Option<int>,
) {
    match worksheet_name {
        Some(name) => (worksheet_path(name), first_member(names, worksheet_path(name), 0)),
        None => match first_worksheet(names, 0) {
            Some(i) => (names[i], Some(i)),
            None => (Seq::empty(), None),
        },
    }
}

/// The cells of a workbook: the archive is opened, its members are read as
/// text, the shared strings are read, and then the chosen worksheet.  Gives
/// the name of the worksheet's member and the cells.
pub open spec fn workbook_cells(data: Seq<u8>, worksheet_name: Option<Seq<char>>) -> Result<
    (Seq<char>, Map<(u32, u32), Seq<char>>),
    XlsxError,
> {
    match open_archive(data) {
        Err(e) => Err(XlsxError::Archive(e)),
        Ok(archive) => match Zip::first_not_text(archive.entries, 0) {
            Some(i) => Err(XlsxError::Archive(ZipError::ContentNotUtf8 { index: i as usize })),
            None => match workbook_strings(archive.entries) {
                Err(e) => Err(e),
                Ok(strings) => {
                    let chosen = chosen_worksheet(member_names(archive.entries), worksheet_name);
                    match chosen.1 {
                        None => Err(XlsxError::MissingWorksheet),
                        Some(i) => match cells_in(archive.entries[i].1.data, strings) {
                            Err(e) => Err(e),
                            Ok(cells) => Ok((chosen.0, cells)),
                        },
                    }
                },
            },
        },
    }
}

/// The place of the first file called `name`.
pub fn find_file(files: &Vec<ZipFile>, name: &str) -> (r: Option<usize>)
    ensures
        match r {
            Some(i) => i < files@.len() && first_member(file_names(files@), name@, 0) == Some(
                i as int,
            ),
            None => first_member(file_names(files@), name@, 0) is None,
        },
{
    let mut i: usize = 0;
    while i < files.len()
        invariant
            i <= files@.len(),
            first_member(file_names(files@), name@, i as int) == first_member(
                file_names(files@),
                name@,
                0,
            ),
        decreases files@.len() - i,
    {
        if str_eq(files[i].name.as_str(), name) {
            return Some(i);
        }
        i += 1;
    }
    None
}

/// The place of the first file that is a worksheet.
pub fn find_worksheet(files: &Vec<ZipFile>) -> (r: Option<usize>)
    ensures
        match r {
            Some(i) => i < files@.len() && first_worksheet(file_names(files@), 0) == Some(i as int),
            None => first_worksheet(file_names(files@), 0) is None,
        },
{
    let mut i: usize = 0;
    while i < files.len()
        invariant
            i <= files@.len(),
            first_worksheet(file_names(files@), i as int) == first_worksheet(
                file_names(files@),
                0,
            ),
        decreases files@.len() - i,
    {
        if bytes_start_with(files[i].name.as_str().as_bytes(), "xl/worksheets/".as_bytes()) {
            return Some(i);
        }
        i += 1;
    }
    None
}

/// Reads the cells of a workbook from the bytes of its file: those of the
/// worksheet called `worksheet_name`, or of the first worksheet.
pub fn read_xlsx_file_as_hashmap(filename: &str, data: Vec<u8>, worksheet_name: Option<&str>) -> (r:
    Result<XLSXMap, XlsxError>)
    ensures
        match r {
            Ok(sheet) => sheet.map.wf() && sheet.filename@ == filename@ && workbook_cells(
                data@,
                match worksheet_name {
                    Some(name) => Some(name@),
                    None => None,
                },
            ) == Ok::<(Seq<char>, Map<(u32, u32), Seq<char>>), XlsxError>(
                (sheet.worksheet@, sheet.map@),
            ),
            Err(e) => workbook_cells(
                data@,
                match worksheet_name {
                    Some(name) => Some(name@),
                    None => None,
                },
            ) == Err::<(Seq<char>, Map<(u32, u32), Seq<char>>), XlsxError>(e),
        },
{
    let zip = match Zip::from_file(data) {
        Ok(v) => v,
        Err(e) => {
            return Err(XlsxError::Archive(e));
        },
    };
    let files = match zip.extract_files() {
        Ok(v) => v,
        Err(e) => {
            return Err(XlsxError::Archive(e));
        },
    };
    let ghost entries = zip@.entries;
    proof {
        assert(file_names(files@) =~= member_names(entries));
        assert forall|k: int| 0 <= k < files@.len() implies encode_utf8(
            (#[trigger] files@[k]).content@,
        ) == entries[k].1.data by {
            assert(Some(files@[k].content@) == utf8_text(entries[k].1.data));
            vstd::utf8::decode_utf8_encode_utf8(entries[k].1.data);
        }
    }
    let ss = match find_file(&files, "xl/sharedStrings.xml") {
        Some(i) => match read_shared_strings(files[i].content.as_str().as_bytes_vec()) {
            Ok(v) => v,
            Err(e) => {
                return Err(e);
            },
        },
        None => Vec::new(),
    };
    assert(ss@.len() == 0 ==> texts_of(ss@) =~= Seq::empty());
    let (ws_name, found) = match worksheet_name {
        Some(ws) => {
            let path = String::from_str("xl/worksheets/").concat(ws).concat(".xml");
            let found = find_file(&files, path.as_str());
            (path, found)
        },
        None => match find_worksheet(&files) {
            Some(i) => (files[i].name.clone(), Some(i)),
            None => (String::new(), None),
        },
    };
    let index = match found {
        Some(i) => i,
        None => {
            return Err(XlsxError::MissingWorksheet);
        },
    };
    let map = match read_cells(files[index].content.as_str().as_bytes_vec(), ss) {
        Ok(v) => v,
        Err(e) => {
            return Err(e);
        },
    };
    Ok(XLSXMap { filename: filename.to_owned(), worksheet: ws_name, map })
}

} // verus!
