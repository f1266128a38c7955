//! A tolerant XML parser: declaration, elements with attributes, text, CDATA,
//! comments and `<!...>` sections, built into a tree of components.

use vstd::prelude::*;
use vstd::slice::{slice_subrange, slice_to_vec};
use vstd::string::StringExecFns;
use crate::text::{decimal_string, decimal_text, str_eq, text_of_bytes, utf8_text};

verus! {

/// A place in the input: line and column, both counted from 1.
#[derive(Debug, Clone, Copy, PartialEq, Eq, Structural)]
pub struct Loc {
    pub line: usize,
    pub column: usize,
}

/// Why a document could not be parsed.
#[derive(Debug)]
pub enum XMLError {
    Expecting { what: &'static str, loc: Loc },
    EndOfFile { when: &'static str },
    Invalid { what: &'static str, loc: Loc },
    InternalError { what: &'static str },
}

impl Loc {
    /// The place as text: line, `:`, column.
    pub open spec fn text(self) -> Seq<char> {
        decimal_text(self.line as nat) + ":"@ + decimal_text(self.column as nat)
    }

    /// The place as a string: line, `:`, column.
    pub fn message(&self) -> (r: String)
        ensures
            r@ == self.text(),
    {
        decimal_string(self.line).concat(":").concat(decimal_string(self.column).as_str())
    }
}

impl XMLError {
    /// The error in words, after the place where the parser stood.
    pub open spec fn text(self) -> Seq<char> {
        match self {
            XMLError::Expecting { what, loc } => loc.text() + ": expecting "@ + what@,
            XMLError::EndOfFile { when } => "end of file when "@ + when@,
            XMLError::Invalid { what, loc } => loc.text() + ": invalid xml when "@ + what@,
            XMLError::InternalError { what } => what@,
        }
    }

    /// The error in words, after the place where the parser stood.
    pub fn message(&self) -> (r: String)
        ensures
            r@ == self.text(),
    {
        match self {
            XMLError::Expecting { what, loc } => loc.message().concat(": expecting ").concat(what),
            XMLError::EndOfFile { when } => String::from_str("end of file when ").concat(when),
            XMLError::Invalid { what, loc } => loc.message().concat(": invalid xml when ").concat(
                what,
            ),
            XMLError::InternalError { what } => String::from_str(what),
        }
    }
}

/// Whether the high bit of the byte is set.
pub open spec fn utf8_continuation(c: u8) -> bool {
    c >= 0x80
}

/// Whether the byte is white space: space, tab, line feed, vertical tab, form
/// feed or carriage return.
pub open spec fn white_space(c: u8) -> bool {
    c == 0x20 || c == 0x0c || c == 0x0a || c == 0x0d || c == 0x09 || c == 0x0b
}

/// Whether the byte is a letter, `a` to `z` or `A` to `Z`.
pub open spec fn alpha(c: u8) -> bool {
    (0x61 <= c <= 0x7a) || (0x41 <= c <= 0x5a)
}

/// Whether the byte is a digit, `0` to `9`.
pub open spec fn digit(c: u8) -> bool {
    0x30 <= c <= 0x39
}

/// A byte that may start a name: a letter, `:`, `_`, or a byte with the high bit set.
pub open spec fn start_name_char(c: u8) -> bool {
    c >= 0x80 || alpha(c) || c == 0x3a || c == 0x5f
}

/// A byte that may continue a name: also a digit, `-` or `.`.
pub open spec fn name_char(c: u8) -> bool {
    start_name_char(c) || digit(c) || c == 0x2d || c == 0x2e
}

/// Whether the high bit of the byte is set.
pub fn is_utf8_continuation(c: u8) -> (r: bool)
    ensures
        r == utf8_continuation(c),
{
    assert((c & 0x80 != 0) == (c >= 0x80)) by (bit_vector);
    c & 0x80 != 0
}

/// Whether the byte is white space.
pub fn is_white_space(c: u8) -> (r: bool)
    ensures
        r == white_space(c),
{
    if !is_utf8_continuation(c) {
        match c {
            0x20 | 0x0c | 0x0a | 0x0d | 0x09 | 0x0b => true,
            _ => false,
        }
    } else {
        false
    }
}

/// Whether the byte is a letter.
pub fn is_alpha(c: u8) -> (r: bool)
    ensures
        r == alpha(c),
{
    (0x61 <= c && c <= 0x7a) || (0x41 <= c && c <= 0x5a)
}

/// Whether the byte is a digit.
pub fn is_digit(c: u8) -> (r: bool)
    ensures
        r == digit(c),
{
    0x30 <= c && c <= 0x39
}

/// Whether the byte may start a name.
pub fn is_start_name_char(c: u8) -> (r: bool)
    ensures
        r == start_name_char(c),
{
    c >= 0x80 || is_alpha(c) || c == 0x3a || c == 0x5f
}

/// Whether the byte may continue a name.
pub fn is_name_char(c: u8) -> (r: bool)
    ensures
        r == name_char(c),
{
    is_start_name_char(c) || is_digit(c) || c == 0x2d || c == 0x2e
}

/// The input and a place in it, as the parser's rules see them.
pub struct Source {
    pub data: Seq<u8>,
    pub cursor: int,
    pub line: int,
    pub column: int,
}

impl Source {
    /// The start of `data`.
    pub open spec fn start(data: Seq<u8>) -> Source {
        Source { data, cursor: 0, line: 1, column: 1 }
    }

    /// Whether the whole input has been consumed.
    pub open spec fn eob(self) -> bool {
        self.cursor >= self.data.len()
    }

    /// The byte at the cursor.
    pub open spec fn peek(self) -> u8 {
        self.data[self.cursor]
    }

    /// The two bytes at the cursor, zero where the input has ended.
    pub open spec fn peek2(self) -> (u8, u8) {
        if self.cursor + 2 <= self.data.len() {
            (self.data[self.cursor], self.data[self.cursor + 1])
        } else if self.cursor + 1 == self.data.len() {
            (self.data[self.cursor], 0)
        } else {
            (0, 0)
        }
    }

    /// One byte further; a line feed starts a new line.
    pub open spec fn advance(self) -> Source {
        if self.peek() == 0x0a {
            Source { cursor: self.cursor + 1, line: self.line + 1, column: 1, ..self }
        } else {
            Source { cursor: self.cursor + 1, column: self.column + 1, ..self }
        }
    }

    /// `n` bytes further on the same line.
    pub open spec fn skip(self, n: int) -> Source {
        Source { cursor: self.cursor + n, column: self.column + n, ..self }
    }

    /// Whether the bytes at the cursor are `seq`.
    pub open spec fn at(self, seq: Seq<u8>) -> bool {
        &&& self.cursor + seq.len() <= self.data.len()
        &&& self.data.subrange(self.cursor, self.cursor + seq.len()) == seq
    }

    /// Past the white space at the cursor.
    pub open spec fn skip_white_spaces(self) -> Source
        decreases self.data.len() - self.cursor,
    {
        if 0 <= self.cursor < self.data.len() && white_space(self.peek()) {
            self.advance().skip_white_spaces()
        } else {
            self
        }
    }

    /// Past the name bytes at the cursor.
    pub open spec fn skip_name(self) -> Source
        decreases self.data.len() - self.cursor,
    {
        if 0 <= self.cursor < self.data.len() && name_char(self.peek()) {
            self.advance().skip_name()
        } else {
            self
        }
    }

    /// Line and column of the place.
    pub open spec fn loc(self) -> Loc {
        Loc { line: self.line as usize, column: self.column as usize }
    }

    /// A place inside the input whose line and column can be counted in a `usize`.
    pub open spec fn wf(self) -> bool {
        &&& 0 <= self.cursor <= self.data.len()
        &&& self.data.len() < usize::MAX
        &&& 1 <= self.line <= self.cursor + 1
        &&& 1 <= self.column <= self.cursor + 1
    }

    /// Skipping white space stays inside the input and ends where none stands.
    pub proof fn lemma_skip_white_spaces(self)
        requires
            self.wf(),
        ensures
            self.skip_white_spaces().wf(),
            self.skip_white_spaces().data == self.data,
            self.cursor <= self.skip_white_spaces().cursor,
            self.skip_white_spaces().eob() || !white_space(self.skip_white_spaces().peek()),
        decreases self.data.len() - self.cursor,
    {
        if self.cursor < self.data.len() && white_space(self.peek()) {
            self.advance().lemma_skip_white_spaces();
        }
    }

    /// Skipping name bytes stays inside the input.
    pub proof fn lemma_skip_name(self)
        requires
            self.wf(),
        ensures
            self.skip_name().wf(),
            self.skip_name().data == self.data,
            self.cursor <= self.skip_name().cursor,
        decreases self.data.len() - self.cursor,
    {
        if self.cursor < self.data.len() && name_char(self.peek()) {
            self.advance().lemma_skip_name();
        }
    }
}

/// A cursor into the bytes of a document that keeps count of line and column.
pub struct Reader {
    data: Vec<u8>,
    cursor: usize,
    column: usize,
    line: usize,
}

impl View for Reader {
    type V = Source;

    closed spec fn view(&self) -> Source {
        Source {
            data: self.data@,
            cursor: self.cursor as int,
            line: self.line as int,
            column: self.column as int,
        }
    }
}

impl Reader {
    /// A reader at the start of `data`.
    pub fn new(data: Vec<u8>) -> (r: Self)
        ensures
            r@ == Source::start(data@),
    {
        Self { data, cursor: 0, column: 1, line: 1 }
    }

    /// Whether all bytes have been consumed.
    pub fn eob(&self) -> (r: bool)
        ensures
            r == self@.eob(),
    {
        self.cursor >= self.data.len()
    }

    /// Moves past the white space at the cursor.
    pub fn skip_white_spaces(&mut self)
        requires
            old(self)@.wf(),
        ensures
            final(self)@ == old(self)@.skip_white_spaces(),
    {
        while !self.eob()
            invariant
                self@.wf(),
                self@.skip_white_spaces() == old(self)@.skip_white_spaces(),
            ensures
                self@ == old(self)@.skip_white_spaces(),
            decreases self.data.len() - self.cursor,
        {
            let c = self.data[self.cursor];
            if !is_white_space(c) {
                break;
            }
            self.advance();
        }
    }

    /// Moves one byte on.
    pub fn advance(&mut self)
        requires
            old(self)@.wf(),
            !old(self)@.eob(),
        ensures
            final(self)@ == old(self)@.advance(),
            final(self)@.wf(),
    {
        let c = self.data[self.cursor];
        if c == 0x0a {
            self.line += 1;
            self.column = 1;
        } else {
            self.column += 1;
        }
        self.cursor += 1;
    }

    /// Moves `n` bytes on, none of which is a line feed.
    pub fn raw_advance_n(&mut self, n: usize)
        requires
            old(self)@.wf(),
            old(self)@.cursor + n <= old(self)@.data.len(),
        ensures
            final(self)@ == old(self)@.skip(n as int),
            final(self)@.wf(),
    {
        self.cursor += n;
        self.column += n;
    }

    /// Whether the next bytes are those of `seq`.
    pub fn sequece_match(&self, seq: &[u8]) -> (r: bool)
        requires
            self@.wf(),
        ensures
            r == self@.at(seq@),
    {
        if seq.len() > self.data.len() - self.cursor {
            return false;
        }
        let mut i: usize = 0;
        while i < seq.len()
            invariant
                i <= seq.len(),
                self.cursor + seq.len() <= self.data.len(),
                forall|k: int| 0 <= k < i ==> seq@[k] == self.data@[self.cursor + k],
            decreases seq.len() - i,
        {
            if seq[i] != self.data[self.cursor + i] {
                assert(self.data@.subrange(
                    self.cursor as int,
                    self.cursor + seq.len(),
                )[i as int] != seq@[i as int]);
                return false;
            }
            i += 1;
        }
        assert(self.data@.subrange(self.cursor as int, self.cursor + seq.len()) =~= seq@);
        true
    }

    /// Reads the byte at the cursor.
    pub fn read_byte(&mut self) -> (c: u8)
        requires
            old(self)@.wf(),
            !old(self)@.eob(),
        ensures
            c == old(self)@.peek(),
            final(self)@ == old(self)@.advance(),
            final(self)@.wf(),
    {
        self.advance();
        self.data[self.cursor - 1]
    }

    /// The byte at the cursor, which stays.
    pub fn peek_byte(&self) -> (c: u8)
        requires
            self@.wf(),
            !self@.eob(),
        ensures
            c == self@.peek(),
    {
        self.data[self.cursor]
    }

    /// The two bytes at the cursor, zero where the input has ended.
    pub fn peek_2bytes(&self) -> (r: (u8, u8))
        requires
            self@.wf(),
        ensures
            r == self@.peek2(),
    {
        let d = self.data.len() - self.cursor;
        if d >= 2 {
            (self.data[self.cursor], self.data[self.cursor + 1])
        } else if d == 1 {
            (self.data[self.cursor], 0)
        } else {
            (0, 0)
        }
    }

    /// Line and column of the cursor.
    pub fn get_loc(&self) -> (loc: Loc)
        ensures
            loc == self@.loc(),
    {
        Loc { line: self.line, column: self.column }
    }

    /// The bytes from `start` up to the cursor, as text.
    fn text_since(&self, start: usize) -> (r: Option<String>)
        requires
            self@.wf(),
            start <= self@.cursor,
        ensures
            match utf8_text(self@.data.subrange(start as int, self@.cursor)) {
                Some(text) => r is Some && r->Some_0@ == text,
                None => r is None,
            },
    {
        let bytes = slice_to_vec(slice_subrange(self.data.as_slice(), start, self.cursor));
        text_of_bytes(bytes)
    }
}

/// `&quot;`
pub const ENTITY_QUOT: [u8; 6] = [0x26, 0x71, 0x75, 0x6f, 0x74, 0x3b];

/// `&amp;`
pub const ENTITY_AMP: [u8; 5] = [0x26, 0x61, 0x6d, 0x70, 0x3b];

/// `&apos;`
pub const ENTITY_APOS: [u8; 6] = [0x26, 0x61, 0x70, 0x6f, 0x73, 0x3b];

/// `&lt;`
pub const ENTITY_LT: [u8; 4] = [0x26, 0x6c, 0x74, 0x3b];

/// `&gt;`
pub const ENTITY_GT: [u8; 4] = [0x26, 0x67, 0x74, 0x3b];

/// The entity reference at the cursor, if it is one of the five that are
/// expanded: the byte it stands for and its own length.
pub open spec fn entity_at(src: Source) -> Option<(u8, int)> {
    if src.at(ENTITY_QUOT@) {
        Some((0x22u8, 6int))
    } else if src.at(ENTITY_AMP@) {
        Some((0x26u8, 5int))
    } else if src.at(ENTITY_APOS@) {
        Some((0x27u8, 6int))
    } else if src.at(ENTITY_LT@) {
        Some((0x3cu8, 4int))
    } else if src.at(ENTITY_GT@) {
        Some((0x3eu8, 4int))
    } else {
        None
    }
}

/// The name at the cursor: a start byte and the name bytes after it.
pub open spec fn name_at(src: Source) -> Result<(Seq<char>, Source), XMLError> {
    if src.eob() {
        Err(XMLError::EndOfFile { when: "parsing a name" })
    } else if !start_name_char(src.peek()) {
        Err(XMLError::Expecting { what: "':', '_', or a letter", loc: src.advance().loc() })
    } else {
        let end = src.advance().skip_name();
        match utf8_text(src.data.subrange(src.cursor, end.cursor)) {
            None => Err(XMLError::Invalid { what: "a name that is not UTF-8", loc: end.loc() }),
            Some(name) => Ok((name, end)),
        }
    }
}

/// A name ends inside the input, after its start.
pub proof fn lemma_name_at(src: Source)
    requires
        src.wf(),
    ensures
        name_at(src) matches Ok((_, end)) ==> end.wf() && end.data == src.data && src.cursor
            < end.cursor,
{
    if !src.eob() {
        src.advance().lemma_skip_name();
    }
}

/// The bytes of the text from the cursor up to the first place where
/// `marker` stands, entity references expanded; `acc` holds those before the
/// cursor.  Gives the bytes and the place of the marker.
pub open spec fn text_bytes_until(src: Source, marker: Seq<u8>, acc: Seq<u8>) -> Result<
    (Seq<u8>, Source),
    XMLError,
>
    decreases src.data.len() - src.cursor,
{
    if src.cursor < 0 || src.eob() {
        Err(XMLError::EndOfFile { when: "parsing a text the marker was not found" })
    } else if src.at(marker) {
        Ok((acc, src))
    } else {
        match entity_at(src) {
            Some((c, n)) => text_bytes_until(src.skip(n), marker, acc.push(c)),
            None => text_bytes_until(src.advance(), marker, acc.push(src.peek())),
        }
    }
}

/// A text ends inside the input, where its marker stands.
pub proof fn lemma_text_bytes_until(src: Source, marker: Seq<u8>, acc: Seq<u8>)
    requires
        src.wf(),
    ensures
        text_bytes_until(src, marker, acc) matches Ok((_, end)) ==> end.wf() && end.data
            == src.data && src.cursor <= end.cursor && end.at(marker) && !end.eob(),
    decreases src.data.len() - src.cursor,
{
    if !src.eob() && !src.at(marker) {
        match entity_at(src) {
            Some((c, n)) => lemma_text_bytes_until(src.skip(n), marker, acc.push(c)),
            None => lemma_text_bytes_until(src.advance(), marker, acc.push(src.peek())),
        }
    }
}

/// The text from the cursor up to `marker`, which must not be empty.
pub open spec fn text_until(src: Source, marker: Seq<u8>) -> Result<(Seq<char>, Source), XMLError> {
    if marker.len() == 0 {
        Err(XMLError::EndOfFile { when: "parsing a text" })
    } else {
        match text_bytes_until(src, marker, Seq::empty()) {
            Err(e) => Err(e),
            Ok((bytes, end)) => match utf8_text(bytes) {
                None => Err(XMLError::Invalid { what: "a text that is not UTF-8", loc: end.loc() }),
                Some(text) => Ok((text, end)),
            },
        }
    }
}

/// A text ends inside the input, where its marker stands.
pub proof fn lemma_text_until(src: Source, marker: Seq<u8>)
    requires
        src.wf(),
    ensures
        text_until(src, marker) matches Ok((_, end)) ==> end.wf() && end.data == src.data
            && src.cursor <= end.cursor && end.at(marker) && !end.eob() && marker.len() > 0,
{
    lemma_text_bytes_until(src, marker, Seq::empty());
}

/// The first place from the cursor on where `marker` stands.
pub open spec fn seek_marker(src: Source, marker: Seq<u8>) -> Option<Source>
    decreases src.data.len() - src.cursor,
{
    if src.cursor < 0 || src.eob() {
        None
    } else if src.at(marker) {
        Some(src)
    } else {
        seek_marker(src.advance(), marker)
    }
}

/// The text from the cursor up to `marker`, which must not be empty, as it
/// stands: no entity reference is expanded.
pub open spec fn raw_text_until(src: Source, marker: Seq<u8>) -> Result<
    (Seq<char>, Source),
    XMLError,
> {
    if marker.len() == 0 {
        Err(XMLError::EndOfFile { when: "parsing a text" })
    } else {
        match seek_marker(src, marker) {
            None => Err(XMLError::EndOfFile { when: "parsing a text the marker was not found" }),
            Some(end) => match utf8_text(src.data.subrange(src.cursor, end.cursor)) {
                None => Err(XMLError::Invalid { what: "a text that is not UTF-8", loc: end.loc() }),
                Some(text) => Ok((text, end)),
            },
        }
    }
}

/// The marker is found inside the input.
pub proof fn lemma_seek_marker(src: Source, marker: Seq<u8>)
    requires
        src.wf(),
    ensures
        seek_marker(src, marker) matches Some(end) ==> end.wf() && end.data == src.data
            && src.cursor <= end.cursor && end.at(marker) && !end.eob(),
    decreases src.data.len() - src.cursor,
{
    if !src.eob() && !src.at(marker) {
        lemma_seek_marker(src.advance(), marker);
    }
}

/// A text, expanded or as it stands, up to `marker`.
pub open spec fn delimited_text(src: Source, marker: Seq<u8>, raw: bool) -> Result<
    (Seq<char>, Source),
    XMLError,
> {
    if raw {
        raw_text_until(src, marker)
    } else {
        text_until(src, marker)
    }
}

/// A delimited text ends inside the input, where its marker stands.
pub proof fn lemma_delimited_text(src: Source, marker: Seq<u8>, raw: bool)
    requires
        src.wf(),
    ensures
        delimited_text(src, marker, raw) matches Ok((_, end)) ==> end.wf() && end.data == src.data
            && src.cursor <= end.cursor && end.at(marker) && !end.eob() && marker.len() > 0,
{
    lemma_seek_marker(src, marker);
    lemma_text_until(src, marker);
}

/// The attribute at the cursor: a name, `=`, and a value between two `"` or
/// two `'`, with white space allowed around the `=`.
pub open spec fn attribute_at(src: Source) -> Result<((Seq<char>, Seq<char>), Source), XMLError> {
    match name_at(src) {
        Err(e) => Err(e),
        Ok((name, s1)) => {
            let s2 = s1.skip_white_spaces();
            if !s2.at(seq![0x3du8]) {
                Err(XMLError::Expecting { what: "'='", loc: s2.loc() })
            } else {
                let s3 = s2.skip(1).skip_white_spaces();
                if s3.eob() {
                    Err(XMLError::EndOfFile { when: "parsing an attribute" })
                } else if s3.peek() != 0x22 && s3.peek() != 0x27 {
                    Err(XMLError::Expecting { what: "'\"' or `'`", loc: s3.advance().loc() })
                } else {
                    match text_until(s3.advance(), seq![s3.peek()]) {
                        Err(e) => Err(e),
                        Ok((value, s5)) => Ok(((name, value), s5.skip(1))),
                    }
                }
            }
        },
    }
}

/// An attribute ends inside the input, after its start.
pub proof fn lemma_attribute_at(src: Source)
    requires
        src.wf(),
    ensures
        attribute_at(src) matches Ok((_, end)) ==> end.wf() && end.data == src.data && src.cursor
            < end.cursor,
{
    lemma_name_at(src);
    if let Ok((name, s1)) = name_at(src) {
        s1.lemma_skip_white_spaces();
        let s2 = s1.skip_white_spaces();
        if s2.at(seq![0x3du8]) {
            s2.skip(1).lemma_skip_white_spaces();
            let s3 = s2.skip(1).skip_white_spaces();
            if !s3.eob() {
                lemma_text_until(s3.advance(), seq![s3.peek()]);
            }
        }
    }
}

/// Reads a name.
pub fn parse_name(reader: &mut Reader) -> (r: Result<String, XMLError>)
    requires
        old(reader)@.wf(),
    ensures
        final(reader)@.wf(),
        final(reader)@.data == old(reader)@.data,
        match name_at(old(reader)@) {
            Ok((name, end)) => r is Ok && r->Ok_0@ == name && final(reader)@ == end,
            Err(e) => r == Err::<String, XMLError>(e),
        },
{
    if reader.eob() {
        return Err(XMLError::EndOfFile { when: "parsing a name" });
    }
    let start = reader.cursor;
    let c = reader.read_byte();
    if !is_start_name_char(c) {
        return Err(XMLError::Expecting { what: "':', '_', or a letter", loc: reader.get_loc() });
    }
    while !reader.eob()
        invariant
            reader@.wf(),
            reader@.data == old(reader)@.data,
            start < reader@.cursor,
            reader@.skip_name() == old(reader)@.advance().skip_name(),
        ensures
            reader@ == old(reader)@.advance().skip_name(),
        decreases reader@.data.len() - reader@.cursor,
    {
        let c = reader.peek_byte();
        if !is_name_char(c) {
            break;
        }
        reader.advance();
    }
    match reader.text_since(start) {
        Some(name) => Ok(name),
        None => Err(XMLError::Invalid { what: "a name that is not UTF-8", loc: reader.get_loc() }),
    }
}

/// Reads a text up to `end_marker`, which stays unread, and expands the five
/// entity references.
pub fn parse_text(reader: &mut Reader, end_marker: &[u8]) -> (r: Result<String, XMLError>)
    requires
        old(reader)@.wf(),
    ensures
        final(reader)@.wf(),
        final(reader)@.data == old(reader)@.data,
        match text_until(old(reader)@, end_marker@) {
            Ok((text, end)) => r is Ok && r->Ok_0@ == text && final(reader)@ == end,
            Err(e) => r == Err::<String, XMLError>(e),
        },
{
    if end_marker.len() == 0 {
        return Err(XMLError::EndOfFile { when: "parsing a text" });
    }
    let mut result: Vec<u8> = Vec::new();
    while !reader.eob()
        invariant
            reader@.wf(),
            reader@.data == old(reader)@.data,
            end_marker@.len() > 0,
            text_bytes_until(reader@, end_marker@, result@) == text_bytes_until(
                old(reader)@,
                end_marker@,
                Seq::empty(),
            ),
        decreases reader@.data.len() - reader@.cursor,
    {
        if reader.sequece_match(end_marker) {
            return match text_of_bytes(result) {
                Some(text) => Ok(text),
                None => Err(
                    XMLError::Invalid { what: "a text that is not UTF-8", loc: reader.get_loc() },
                ),
            };
        }
        let b = reader.peek_byte();
        if reader.sequece_match(ENTITY_QUOT.as_slice()) {
            result.push(0x22);
            reader.raw_advance_n(6);
        } else if reader.sequece_match(ENTITY_AMP.as_slice()) {
            result.push(0x26);
            reader.raw_advance_n(5);
        } else if reader.sequece_match(ENTITY_APOS.as_slice()) {
            result.push(0x27);
            reader.raw_advance_n(6);
        } else if reader.sequece_match(ENTITY_LT.as_slice()) {
            result.push(0x3c);
            reader.raw_advance_n(4);
        } else if reader.sequece_match(ENTITY_GT.as_slice()) {
            result.push(0x3e);
            reader.raw_advance_n(4);
        } else {
            result.push(b);
            reader.advance();
        }
    }
    Err(XMLError::EndOfFile { when: "parsing a text the marker was not found" })
}

/// Reads a text up to `end_marker`, which stays unread, as it stands.
pub fn parse_raw_text(reader: &mut Reader, end_marker: &[u8]) -> (r: Result<String, XMLError>)
    requires
        old(reader)@.wf(),
    ensures
        final(reader)@.wf(),
        final(reader)@.data == old(reader)@.data,
        match raw_text_until(old(reader)@, end_marker@) {
            Ok((text, end)) => r is Ok && r->Ok_0@ == text && final(reader)@ == end,
            Err(e) => r == Err::<String, XMLError>(e),
        },
{
    if end_marker.len() == 0 {
        return Err(XMLError::EndOfFile { when: "parsing a text" });
    }
    let start = reader.cursor;
    while !reader.eob()
        invariant
            reader@.wf(),
            reader@.data == old(reader)@.data,
            end_marker@.len() > 0,
            start == old(reader)@.cursor,
            start <= reader@.cursor,
            seek_marker(reader@, end_marker@) == seek_marker(old(reader)@, end_marker@),
        decreases reader@.data.len() - reader@.cursor,
    {
        if reader.sequece_match(end_marker) {
            return match reader.text_since(start) {
                Some(text) => Ok(text),
                None => Err(
                    XMLError::Invalid { what: "a text that is not UTF-8", loc: reader.get_loc() },
                ),
            };
        }
        reader.advance();
    }
    Err(XMLError::EndOfFile { when: "parsing a text the marker was not found" })
}

/// Reads an attribute: its name and its value.
pub fn parse_attribute(reader: &mut Reader) -> (r: Result<(String, String), XMLError>)
    requires
        old(reader)@.wf(),
    ensures
        final(reader)@.wf(),
        final(reader)@.data == old(reader)@.data,
        match attribute_at(old(reader)@) {
            Ok(((name, value), end)) => r is Ok && r->Ok_0.0@ == name && r->Ok_0.1@ == value
                && final(reader)@ == end,
            Err(e) => r == Err::<(String, String), XMLError>(e),
        },
{
    proof {
        lemma_name_at(reader@);
    }
    let name = match parse_name(reader) {
        Ok(v) => v,
        Err(e) => {
            return Err(e);
        },
    };
    proof {
        reader@.lemma_skip_white_spaces();
    }
    reader.skip_white_spaces();
    let equals: [u8; 1] = [0x3d];
    assert(equals@ =~= seq![0x3du8]);
    if !reader.sequece_match(equals.as_slice()) {
        return Err(XMLError::Expecting { what: "'='", loc: reader.get_loc() });
    }
    reader.raw_advance_n(1);
    proof {
        reader@.lemma_skip_white_spaces();
    }
    reader.skip_white_spaces();
    if reader.eob() {
        return Err(XMLError::EndOfFile { when: "parsing an attribute" });
    }
    let c = reader.read_byte();
    if c != 0x22 && c != 0x27 {
        return Err(XMLError::Expecting { what: "'\"' or `'`", loc: reader.get_loc() });
    }
    let marker: [u8; 1] = [c];
    assert(marker@ =~= seq![c]);
    proof {
        lemma_text_until(reader@, marker@);
    }
    let value = match parse_text(reader, marker.as_slice()) {
        Ok(v) => v,
        Err(e) => {
            return Err(e);
        },
    };
    reader.raw_advance_n(1);
    Ok((name, value))
}

/// An attribute of an element.
#[derive(Debug)]
pub struct Attribute {
    pub name: String,
    pub value: String,
}

impl Attribute {
    /// An attribute with this name and value.
    pub fn new(name: String, value: String) -> (a: Self)
        ensures
            a.name == name,
            a.value == value,
    {
        Self { name, value }
    }
}

/// One piece of a document.  An element owns its children.
#[derive(Debug)]
pub enum Component {
    Comment(String),
    Declaration { version: String, encoding: String, standalone: bool },
    /// No two attributes of an element have the same name.
    Element { name: String, attributes: Vec<Attribute>, children: Vec<Component> },
    Text { value: String, is_cdata: bool },
    /// A `<!...>` section, kept as it stands.
    Other(String),
}

/// A component as the parser's rules see it: plain text in place of strings.
pub enum Node {
    Comment(Seq<char>),
    Declaration { version: Seq<char>, encoding: Seq<char>, standalone: bool },
    Element { name: Seq<char>, attributes: Seq<(Seq<char>, Seq<char>)>, children: Seq<Node> },
    Text { value: Seq<char>, is_cdata: bool },
    Other(Seq<char>),
}

/// Names and values of a list of attributes.
pub open spec fn attributes_of(attributes: Seq<Attribute>) -> Seq<(Seq<char>, Seq<char>)> {
    Seq::new(attributes.len(), |i: int| (attributes[i].name@, attributes[i].value@))
}

/// What a component stands for.
pub open spec fn node_of(c: Component) -> Node
    decreases c,
{
    match c {
        Component::Comment(text) => Node::Comment(text@),
        Component::Declaration { version, encoding, standalone } => Node::Declaration {
            version: version@,
            encoding: encoding@,
            standalone,
        },
        Component::Element { name, attributes, children } => Node::Element {
            name: name@,
            attributes: attributes_of(attributes@),
            children: nodes_upto(children@, children@.len()),
        },
        Component::Text { value, is_cdata } => Node::Text { value: value@, is_cdata },
        Component::Other(text) => Node::Other(text@),
    }
}

/// What the first `n` of the components stand for.
pub open spec fn nodes_upto(cs: Seq<Component>, n: nat) -> Seq<Node>
    decreases cs, n,
{
    if n == 0 || n > cs.len() {
        Seq::empty()
    } else {
        nodes_upto(cs, (n - 1) as nat).push(node_of(cs[n - 1]))
    }
}

/// What a list of components stands for.
pub open spec fn nodes_of(cs: Seq<Component>) -> Seq<Node> {
    nodes_upto(cs, cs.len())
}

impl View for Component {
    type V = Node;

    open spec fn view(&self) -> Node {
        node_of(*self)
    }
}

/// The nodes of the first `n` components are their nodes, one for one.
pub proof fn lemma_nodes_upto(cs: Seq<Component>, n: nat)
    requires
        n <= cs.len(),
    ensures
        nodes_upto(cs, n).len() == n,
        forall|i: int| 0 <= i < n ==> #[trigger] nodes_upto(cs, n)[i] == node_of(cs[i]),
    decreases n,
{
    if n > 0 {
        lemma_nodes_upto(cs, (n - 1) as nat);
    }
}

/// The nodes of a list are the nodes of its components, one for one.
pub proof fn lemma_nodes_of(cs: Seq<Component>)
    ensures
        nodes_of(cs).len() == cs.len(),
        forall|i: int| 0 <= i < cs.len() ==> #[trigger] nodes_of(cs)[i] == node_of(cs[i]),
{
    lemma_nodes_upto(cs, cs.len());
}

/// The nodes of a list with one more component.
pub proof fn lemma_nodes_of_push(cs: Seq<Component>, c: Component)
    ensures
        nodes_of(cs.push(c)) == nodes_of(cs).push(node_of(c)),
{
    lemma_nodes_of(cs);
    lemma_nodes_of(cs.push(c));
    assert(nodes_of(cs.push(c)) =~= nodes_of(cs).push(node_of(c)));
}

/// The nodes of a list without its last component.
pub proof fn lemma_nodes_of_drop_last(cs: Seq<Component>)
    requires
        cs.len() > 0,
    ensures
        nodes_of(cs.drop_last()) == nodes_of(cs).drop_last(),
        nodes_of(cs).last() == node_of(cs.last()),
{
    lemma_nodes_of(cs);
    lemma_nodes_of(cs.drop_last());
    assert(nodes_of(cs.drop_last()) =~= nodes_of(cs).drop_last());
}

/// The first place from `from` on where an attribute is called `name`.
pub open spec fn attribute_index(
    attributes: Seq<(Seq<char>, Seq<char>)>,
    name: Seq<char>,
    from: int,
) -> Option<int>
    decreases attributes.len() - from,
{
    if from < 0 || from >= attributes.len() {
        None
    } else if attributes[from].0 == name {
        Some(from)
    } else {
        attribute_index(attributes, name, from + 1)
    }
}

/// The attributes with `name` set to `value`: in the place where the name
/// stood, or at the end.
pub open spec fn attributes_insert(
    attributes: Seq<(Seq<char>, Seq<char>)>,
    name: Seq<char>,
    value: Seq<char>,
) -> Seq<(Seq<char>, Seq<char>)> {
    match attribute_index(attributes, name, 0) {
        Some(i) => attributes.update(i, (name, value)),
        None => attributes.push((name, value)),
    }
}

/// The value of the attribute called `name`.
pub open spec fn attribute_value(
    attributes: Seq<(Seq<char>, Seq<char>)>,
    name: Seq<char>,
) -> Option<Seq<char>> {
    match attribute_index(attributes, name, 0) {
        Some(i) => Some(attributes[i].1),
        None => None,
    }
}

/// The index that is found is the first with that name; none is found only
/// where no attribute has the name.
pub proof fn lemma_attribute_index(
    attributes: Seq<(Seq<char>, Seq<char>)>,
    name: Seq<char>,
    from: int,
)
    requires
        0 <= from,
    ensures
        match attribute_index(attributes, name, from) {
            Some(i) => from <= i < attributes.len() && attributes[i].0 == name && forall|k: int|
                from <= k < i ==> attributes[k].0 != name,
            None => forall|k: int| from <= k < attributes.len() ==> attributes[k].0 != name,
        },
    decreases attributes.len() - from,
{
    if from < attributes.len() && attributes[from].0 != name {
        lemma_attribute_index(attributes, name, from + 1);
    }
}

/// Whether no two of the attributes have the same name.
pub open spec fn distinct_names(attributes: Seq<(Seq<char>, Seq<char>)>) -> bool {
    forall|i: int, j: int|
        #![trigger attributes[i], attributes[j]]
        0 <= i < j < attributes.len() ==> attributes[i].0 != attributes[j].0
}

/// Setting an attribute keeps the names distinct, gives that attribute the
/// new value, and leaves the values of all others as they were: of two values
/// given to one name, the last wins.
pub proof fn lemma_attributes_insert(
    attributes: Seq<(Seq<char>, Seq<char>)>,
    name: Seq<char>,
    value: Seq<char>,
    other: Seq<char>,
)
    requires
        distinct_names(attributes),
    ensures
        distinct_names(attributes_insert(attributes, name, value)),
        attribute_value(attributes_insert(attributes, name, value), name) == Some(value),
        other != name ==> attribute_value(attributes_insert(attributes, name, value), other)
            == attribute_value(attributes, other),
{
    let after = attributes_insert(attributes, name, value);
    lemma_attribute_index(attributes, name, 0);
    lemma_attribute_index(attributes, other, 0);
    lemma_attribute_index(after, name, 0);
    lemma_attribute_index(after, other, 0);
    match attribute_index(attributes, name, 0) {
        Some(i) => {
            assert(after[i] == (name, value));
            assert forall|a: int, b: int| 0 <= a < b < after.len() implies (#[trigger] after[a]).0
                != (#[trigger] after[b]).0 by {
                assert(after[a].0 == attributes[a].0);
                assert(after[b].0 == attributes[b].0);
            }
            assert forall|k: int| 0 <= k < after.len() implies (#[trigger] after[k]).0
                == attributes[k].0 by {}
        },
        None => {
            assert(after[attributes.len() as int] == (name, value));
            assert forall|k: int| 0 <= k < attributes.len() implies #[trigger] after[k]
                == attributes[k] by {}
        },
    }
    if other != name {
        match attribute_index(attributes, other, 0) {
            Some(k) => {
                assert(after[k].0 == other);
                assert(after[k] == attributes[k]);
            },
            None => {
                if attribute_index(after, other, 0) is Some {
                    let k = attribute_index(after, other, 0)->Some_0;
                    if k < attributes.len() {
                        assert(after[k].0 == attributes[k].0);
                    }
                }
            },
        }
    }
}

/// The attributes of a start tag that is read have distinct names.
pub proof fn lemma_tag_attributes_distinct(
    src: Source,
    name: Seq<char>,
    attributes: Seq<(Seq<char>, Seq<char>)>,
)
    requires
        src.wf(),
        distinct_names(attributes),
    ensures
        tag_attributes(src, name, attributes) matches Ok(
            (Node::Element { attributes: read, .. }, _, _),
        ) ==> distinct_names(read),
    decreases src.data.len() - src.cursor,
{
    let s = src.skip_white_spaces();
    src.lemma_skip_white_spaces();
    if s.peek2() != (0u8, 0u8) && s.peek2().0 != 0x3e && s.peek2() != (0x2fu8, 0x3eu8) {
        lemma_attribute_at(s);
        if let Ok(((attribute, value), next)) = attribute_at(s) {
            lemma_attributes_insert(attributes, attribute, value, attribute);
            lemma_tag_attributes_distinct(
                next,
                name,
                attributes_insert(attributes, attribute, value),
            );
        }
    }
}

/// Where the attribute called `name` stands.
pub fn find_attribute(attributes: &Vec<Attribute>, name: &str) -> (r: Option<usize>)
    ensures
        match r {
            Some(i) => i < attributes@.len() && attribute_index(
                attributes_of(attributes@),
                name@,
                0,
            ) == Some(i as int),
            None => attribute_index(attributes_of(attributes@), name@, 0) is None,
        },
{
    let mut i: usize = 0;
    while i < attributes.len()
        invariant
            i <= attributes.len(),
            attribute_index(attributes_of(attributes@), name@, i as int) == attribute_index(
                attributes_of(attributes@),
                name@,
                0,
            ),
        decreases attributes.len() - i,
    {
        if str_eq(attributes[i].name.as_str(), name) {
            return Some(i);
        }
        i += 1;
    }
    None
}

/// Sets the attribute called `name` to `value`; a value given before is replaced.
pub fn insert_attribute(attributes: &mut Vec<Attribute>, name: String, value: String)
    ensures
        attributes_of(final(attributes)@) == attributes_insert(
            attributes_of(old(attributes)@),
            name@,
            value@,
        ),
{
    let found = find_attribute(attributes, name.as_str());
    let ghost index = attribute_index(attributes_of(attributes@), name@, 0);
    match found {
        Some(i) => {
            proof {
                lemma_attribute_index(attributes_of(attributes@), name@, 0);
                assert(index == Some(i as int));
            }
            let attribute = Attribute::new(name, value);
            let ghost added = attribute;
            attributes[i] = attribute;
            assert(attributes@ =~= old(attributes)@.update(i as int, added));
            assert(attributes_of(attributes@) =~= attributes_of(old(attributes)@).update(
                i as int,
                (name@, value@),
            ));
            assert(attributes_of(attributes@) =~= attributes_insert(
                attributes_of(old(attributes)@),
                name@,
                value@,
            ));
        },
        None => {
            attributes.push(Attribute::new(name, value));
            assert(attributes_of(attributes@) =~= attributes_insert(
                attributes_of(old(attributes)@),
                name@,
                value@,
            ));
        },
    }
}

/// What is said of a declaration that is not the first component.
pub const DECLARATION_NOT_FIRST: &'static str =
    "it must have only one xml declaration and it must be the first element in file";

/// `<?`
pub const DECLARATION_OPEN: [u8; 2] = [0x3c, 0x3f];

/// `xml`
pub const DECLARATION_NAME: [u8; 3] = [0x78, 0x6d, 0x6c];

/// `<!--`
pub const COMMENT_OPEN: [u8; 4] = [0x3c, 0x21, 0x2d, 0x2d];

/// `-->`
pub const COMMENT_CLOSE: [u8; 3] = [0x2d, 0x2d, 0x3e];

/// `<![CDATA[`
pub const CDATA_OPEN: [u8; 9] = [0x3c, 0x21, 0x5b, 0x43, 0x44, 0x41, 0x54, 0x41, 0x5b];

/// `]]>`
pub const CDATA_CLOSE: [u8; 3] = [0x5d, 0x5d, 0x3e];

/// `<!`
pub const SECTION_OPEN: [u8; 2] = [0x3c, 0x21];

/// `</`
pub const END_TAG_OPEN: [u8; 2] = [0x3c, 0x2f];

/// `<`
pub const TAG_OPEN: [u8; 1] = [0x3c];

/// `>`
pub const TAG_CLOSE: [u8; 1] = [0x3e];

/// What has been built of a document: the finished top-level components and
/// the elements that are still open, the innermost last.
pub struct Tree {
    pub children: Seq<Node>,
    pub stack: Seq<Node>,
}

/// The tree with one more component: an element that stays open goes onto the
/// stack; anything else becomes the last child of the innermost open element,
/// or of the document where none is open.
pub open spec fn attach(tree: Tree, node: Node, is_open: bool) -> Result<Tree, XMLError> {
    if is_open && node is Element {
        Ok(Tree { stack: tree.stack.push(node), ..tree })
    } else if tree.stack.len() > 0 {
        match tree.stack.last() {
            Node::Element { name, attributes, children } => Ok(
                Tree {
                    stack: tree.stack.drop_last().push(
                        Node::Element { name, attributes, children: children.push(node) },
                    ),
                    ..tree
                },
            ),
            _ => Err(XMLError::InternalError { what: "component in stack is not an element!" }),
        }
    } else {
        Ok(Tree { children: tree.children.push(node), ..tree })
    }
}

/// The tree after an end tag called `name`: the innermost open element must
/// have that name; it is closed and attached.
pub open spec fn close_element(tree: Tree, name: Seq<char>, loc: Loc) -> Result<Tree, XMLError> {
    if tree.stack.len() == 0 {
        Err(XMLError::Invalid { what: "unexpected tag end found", loc })
    } else {
        match tree.stack.last() {
            Node::Element { name: open_name, .. } => if open_name != name {
                Err(XMLError::Invalid { what: "unmatched tag end", loc })
            } else {
                attach(Tree { stack: tree.stack.drop_last(), ..tree }, tree.stack.last(), false)
            },
            _ => Err(XMLError::InternalError { what: "component in stack is not an element!" }),
        }
    }
}

/// The attributes of a declaration from the cursor up to `?>`: `version`,
/// which must be there, then `encoding` and `standalone`, or `standalone`
/// alone.  `count` tells how many places are taken.
pub open spec fn declaration_attributes(
    src: Source,
    version: Seq<char>,
    encoding: Seq<char>,
    standalone: bool,
    count: nat,
) -> Result<(Node, Source), XMLError>
    decreases src.data.len() - src.cursor,
    when src.wf()
{
    let s = src.skip_white_spaces();
    if s.peek2() == (0u8, 0u8) {
        Err(XMLError::EndOfFile { when: "reading tag and its attributes" })
    } else if s.peek2() == (0x3fu8, 0x3eu8) {
        if count == 0 {
            Err(XMLError::Expecting { what: "'version' attribute in xml declation", loc: s.loc() })
        } else {
            Ok((Node::Declaration { version, encoding, standalone }, s.skip(2)))
        }
    } else {
        match attribute_at(s) {
            Err(e) => Err(e),
            Ok(((name, value), next)) => {
                proof {
                    src.lemma_skip_white_spaces();
                    lemma_attribute_at(s);
                }
                if count == 0 {
                    if name != "version"@ {
                        Err(
                            XMLError::Expecting {
                                what: "'version' attribute in xml declation",
                                loc: s.loc(),
                            },
                        )
                    } else {
                        declaration_attributes(next, value, encoding, standalone, 1)
                    }
                } else if count == 1 {
                    if name == "encoding"@ {
                        declaration_attributes(next, version, value, standalone, 2)
                    } else if name == "standalone"@ {
                        declaration_attributes(next, version, encoding, value == "yes"@, 3)
                    } else {
                        Err(
                            XMLError::Expecting {
                                what: "'encoding' or 'standalone' attribute in xml declation",
                                loc: s.loc(),
                            },
                        )
                    }
                } else if count == 2 {
                    if name != "standalone"@ {
                        Err(
                            XMLError::Expecting {
                                what: "'standalone' attribute in xml declation",
                                loc: s.loc(),
                            },
                        )
                    } else {
                        declaration_attributes(next, version, encoding, value == "yes"@, 3)
                    }
                } else {
                    Err(
                        XMLError::Invalid {
                            what: "too many attributes in xml declation",
                            loc: s.loc(),
                        },
                    )
                }
            },
        }
    }
}

/// The attributes of a declaration end inside the input, after their start.
pub proof fn lemma_declaration_attributes(
    src: Source,
    version: Seq<char>,
    encoding: Seq<char>,
    standalone: bool,
    count: nat,
)
    requires
        src.wf(),
    ensures
        declaration_attributes(src, version, encoding, standalone, count) matches Ok((_, end))
            ==> end.wf() && end.data == src.data && src.cursor < end.cursor,
    decreases src.data.len() - src.cursor,
{
    let s = src.skip_white_spaces();
    src.lemma_skip_white_spaces();
    if s.peek2() != (0u8, 0u8) && s.peek2() != (0x3fu8, 0x3eu8) {
        lemma_attribute_at(s);
        if let Ok(((name, value), next)) = attribute_at(s) {
            if count == 0 {
                lemma_declaration_attributes(next, value, encoding, standalone, 1);
            } else if count == 1 {
                lemma_declaration_attributes(next, version, value, standalone, 2);
                lemma_declaration_attributes(next, version, encoding, value == "yes"@, 3);
            } else if count == 2 {
                lemma_declaration_attributes(next, version, encoding, value == "yes"@, 3);
            }
        }
    }
}

/// The declaration whose `<?` stands at the cursor.  It must be the first
/// component of the document.
pub open spec fn declaration_at(src: Source, has_children: bool) -> Result<(Node, Source), XMLError>
    recommends
        src.wf(),
        src.at(DECLARATION_OPEN@),
{
    let s1 = src.skip(2);
    if !s1.at(DECLARATION_NAME@) {
        Err(XMLError::Invalid { what: "invalid declaration, expecting 'xml'", loc: s1.loc() })
    } else if has_children {
        Err(
            XMLError::Invalid {
                what: DECLARATION_NOT_FIRST,
                loc: s1.loc(),
            },
        )
    } else {
        declaration_attributes(s1.skip(3).skip_white_spaces(), "1.0"@, "UTF-8"@, true, 0)
    }
}

/// The attributes of a start tag from the cursor up to `>`, which leaves the
/// element open, or `/>`, which closes it.
pub open spec fn tag_attributes(
    src: Source,
    name: Seq<char>,
    attributes: Seq<(Seq<char>, Seq<char>)>,
) -> Result<(Node, bool, Source), XMLError>
    decreases src.data.len() - src.cursor,
    when src.wf()
{
    let s = src.skip_white_spaces();
    if s.peek2() == (0u8, 0u8) {
        Err(XMLError::EndOfFile { when: "reading tag closing or its attributes" })
    } else if s.peek2().0 == 0x3e {
        Ok((Node::Element { name, attributes, children: Seq::empty() }, true, s.skip(1)))
    } else if s.peek2() == (0x2fu8, 0x3eu8) {
        Ok((Node::Element { name, attributes, children: Seq::empty() }, false, s.skip(2)))
    } else {
        match attribute_at(s) {
            Err(e) => Err(e),
            Ok(((attribute, value), next)) => {
                proof {
                    src.lemma_skip_white_spaces();
                    lemma_attribute_at(s);
                }
                tag_attributes(next, name, attributes_insert(attributes, attribute, value))
            },
        }
    }
}

/// The attributes of a start tag end inside the input, after their start.
pub proof fn lemma_tag_attributes(
    src: Source,
    name: Seq<char>,
    attributes: Seq<(Seq<char>, Seq<char>)>,
)
    requires
        src.wf(),
    ensures
        tag_attributes(src, name, attributes) matches Ok((node, _, end)) ==> end.wf() && end.data
            == src.data && src.cursor < end.cursor && node is Element,
    decreases src.data.len() - src.cursor,
{
    let s = src.skip_white_spaces();
    src.lemma_skip_white_spaces();
    if s.peek2() != (0u8, 0u8) && s.peek2().0 != 0x3e && s.peek2() != (0x2fu8, 0x3eu8) {
        lemma_attribute_at(s);
        if let Ok(((attribute, value), next)) = attribute_at(s) {
            lemma_tag_attributes(next, name, attributes_insert(attributes, attribute, value));
        }
    }
}

/// The start tag whose `<` stands at the cursor: the element without
/// children, whether it stays open, and the place after the tag.
pub open spec fn start_tag_at(src: Source) -> Result<(Node, bool, Source), XMLError> {
    match name_at(src.skip(1)) {
        Err(e) => Err(e),
        Ok((name, s1)) => tag_attributes(s1, name, Seq::empty()),
    }
}

/// The end tag whose `</` stands at the cursor: its name and the place after
/// its `>`.
pub open spec fn end_tag_at(src: Source) -> Result<(Seq<char>, Source), XMLError> {
    match name_at(src.skip(2)) {
        Err(e) => Err(e),
        Ok((name, s1)) => {
            let s2 = s1.skip_white_spaces();
            if s2.eob() {
                Err(XMLError::EndOfFile { when: "reading a closing tag" })
            } else if s2.peek() != 0x3e {
                Err(XMLError::Expecting { what: "'>' to be closing the tag end", loc: s2.loc() })
            } else {
                Ok((name, s2.advance()))
            }
        },
    }
}

/// A text that ends with `close`, expanded or as it stands, and the tree with
/// what `make` turns it into.
pub open spec fn delimited_at(
    src: Source,
    close: Seq<u8>,
    tree: Tree,
    make: spec_fn(Seq<char>) -> Node,
    raw: bool,
) -> Result<(Tree, Source), XMLError> {
    match delimited_text(src, close, raw) {
        Err(e) => Err(e),
        Ok((text, end)) => match attach(tree, make(text), false) {
            Err(e) => Err(e),
            Ok(grown) => Ok((grown, end.skip(close.len() as int))),
        },
    }
}

/// One step of the parser at a place where no white space stands: the
/// component that starts there, and the tree with it.
pub open spec fn component_at(s: Source, tree: Tree) -> Result<(Tree, Source), XMLError> {
    if s.at(DECLARATION_OPEN@) {
        match declaration_at(s, tree.children.len() > 0) {
            Err(e) => Err(e),
            Ok((node, end)) => match attach(tree, node, false) {
                Err(e) => Err(e),
                Ok(grown) => Ok((grown, end)),
            },
        }
    } else if s.at(COMMENT_OPEN@) {
        delimited_at(s.skip(4), COMMENT_CLOSE@, tree, |text: Seq<char>| Node::Comment(text), false)
    } else if s.at(CDATA_OPEN@) {
        delimited_at(
            s.skip(9),
            CDATA_CLOSE@,
            tree,
            |text: Seq<char>| Node::Text { value: text, is_cdata: true },
            true,
        )
    } else if s.at(SECTION_OPEN@) {
        delimited_at(s.skip(2), TAG_CLOSE@, tree, |text: Seq<char>| Node::Other(text), true)
    } else if s.at(END_TAG_OPEN@) {
        match end_tag_at(s) {
            Err(e) => Err(e),
            Ok((name, end)) => match close_element(tree, name, s.loc()) {
                Err(e) => Err(e),
                Ok(grown) => Ok((grown, end)),
            },
        }
    } else if s.at(TAG_OPEN@) {
        match start_tag_at(s) {
            Err(e) => Err(e),
            Ok((node, is_open, end)) => match attach(tree, node, is_open) {
                Err(e) => Err(e),
                Ok(grown) => Ok((grown, end)),
            },
        }
    } else if tree.stack.len() > 0 {
        match text_until(s, TAG_OPEN@) {
            Err(e) => Err(e),
            Ok((text, end)) => match attach(
                tree,
                Node::Text { value: text, is_cdata: false },
                false,
            ) {
                Err(e) => Err(e),
                Ok(grown) => Ok((grown, end)),
            },
        }
    } else if s.eob() {
        Ok((tree, s))
    } else {
        Err(XMLError::Invalid { what: "text outside of an element", loc: s.loc() })
    }
}

/// A step of the parser stays inside the input and moves on, unless the input
/// has ended.
pub proof fn lemma_component_at(s: Source, tree: Tree)
    requires
        s.wf(),
    ensures
        component_at(s, tree) matches Ok((_, end)) ==> end.wf() && end.data == s.data && (s.cursor
            < end.cursor || (s.eob() && end == s)),
{
    if s.at(DECLARATION_OPEN@) {
        let s1 = s.skip(2);
        if s1.at(DECLARATION_NAME@) {
            s1.skip(3).lemma_skip_white_spaces();
            lemma_declaration_attributes(
                s1.skip(3).skip_white_spaces(),
                "1.0"@,
                "UTF-8"@,
                true,
                0,
            );
        }
    } else if s.at(COMMENT_OPEN@) {
        lemma_delimited_text(s.skip(4), COMMENT_CLOSE@, false);
    } else if s.at(CDATA_OPEN@) {
        lemma_delimited_text(s.skip(9), CDATA_CLOSE@, true);
    } else if s.at(SECTION_OPEN@) {
        lemma_delimited_text(s.skip(2), TAG_CLOSE@, true);
    } else if s.at(END_TAG_OPEN@) {
        lemma_name_at(s.skip(2));
        if let Ok((name, s1)) = name_at(s.skip(2)) {
            s1.lemma_skip_white_spaces();
        }
    } else if s.at(TAG_OPEN@) {
        lemma_name_at(s.skip(1));
        if let Ok((name, s1)) = name_at(s.skip(1)) {
            lemma_tag_attributes(s1, name, Seq::empty());
        }
    } else if tree.stack.len() > 0 {
        lemma_text_until(s, TAG_OPEN@);
    }
}

/// The tree at the end of the input, parsing from the cursor on: white space
/// between components is skipped.
pub open spec fn parse_from(src: Source, tree: Tree) -> Result<Tree, XMLError>
    decreases src.data.len() - src.cursor,
    when src.wf()
{
    if src.eob() {
        Ok(tree)
    } else {
        match component_at(src.skip_white_spaces(), tree) {
            Err(e) => Err(e),
            Ok((grown, next)) => {
                proof {
                    src.lemma_skip_white_spaces();
                    lemma_component_at(src.skip_white_spaces(), tree);
                }
                parse_from(next, grown)
            },
        }
    }
}

/// The top-level components of the document that the bytes hold.  Every
/// element must have been closed when the input ends.
pub open spec fn parse_document(data: Seq<u8>) -> Result<Seq<Node>, XMLError> {
    parse_rest(data, Tree { children: Seq::empty(), stack: Seq::empty() })
}

/// The tree that a document under construction stands for.
pub open spec fn tree_of(children: Seq<Component>, stack: Seq<Component>) -> Tree {
    Tree { children: nodes_of(children), stack: nodes_of(stack) }
}

/// Reads the declaration whose `<?` stands at the cursor.
#[verifier::loop_isolation(false)]
pub fn parse_declaration(reader: &mut Reader, has_children: bool) -> (r: Result<
    Component,
    XMLError,
>)
    requires
        old(reader)@.wf(),
        old(reader)@.at(DECLARATION_OPEN@),
    ensures
        final(reader)@.wf(),
        final(reader)@.data == old(reader)@.data,
        match declaration_at(old(reader)@, has_children) {
            Ok((node, end)) => r is Ok && node_of(r->Ok_0) == node && final(reader)@ == end,
            Err(e) => r == Err::<Component, XMLError>(e),
        },
{
    reader.raw_advance_n(2);
    if !reader.sequece_match(DECLARATION_NAME.as_slice()) {
        return Err(
            XMLError::Invalid {
                what: "invalid declaration, expecting 'xml'",
                loc: reader.get_loc(),
            },
        );
    }
    if has_children {
        return Err(
            XMLError::Invalid {
                what: DECLARATION_NOT_FIRST,
                loc: reader.get_loc(),
            },
        );
    }
    reader.raw_advance_n(3);
    proof {
        reader@.lemma_skip_white_spaces();
    }
    reader.skip_white_spaces();
    let mut version = "1.0".to_owned();
    let mut encoding = "UTF-8".to_owned();
    let mut standalone = true;
    let mut attr_count: usize = 0;
    let ghost first = reader@;
    loop
        invariant
            reader@.wf(),
            reader@.data == old(reader)@.data,
            attr_count <= 3,
            declaration_attributes(reader@, version@, encoding@, standalone, attr_count as nat)
                == declaration_attributes(first, "1.0"@, "UTF-8"@, true, 0),
        decreases reader@.data.len() - reader@.cursor,
    {
        proof {
            reader@.lemma_skip_white_spaces();
        }
        reader.skip_white_spaces();
        let next = reader.peek_2bytes();
        if next.0 == 0 && next.1 == 0 {
            return Err(XMLError::EndOfFile { when: "reading tag and its attributes" });
        }
        if next.0 == 0x3f && next.1 == 0x3e {
            if attr_count == 0 {
                return Err(
                    XMLError::Expecting {
                        what: "'version' attribute in xml declation",
                        loc: reader.get_loc(),
                    },
                );
            }
            reader.raw_advance_n(2);
            return Ok(Component::Declaration { version, encoding, standalone });
        }
        let loc0 = reader.get_loc();
        proof {
            lemma_attribute_at(reader@);
        }
        let (name, value) = match parse_attribute(reader) {
            Ok(v) => v,
            Err(e) => {
                return Err(e);
            },
        };
        if attr_count == 0 {
            if !str_eq(name.as_str(), "version") {
                return Err(
                    XMLError::Expecting { what: "'version' attribute in xml declation", loc: loc0 },
                );
            }
            version = value;
            attr_count = 1;
        } else if attr_count == 1 {
            if str_eq(name.as_str(), "encoding") {
                encoding = value;
                attr_count = 2;
            } else if str_eq(name.as_str(), "standalone") {
                standalone = str_eq(value.as_str(), "yes");
                attr_count = 3;
            } else {
                return Err(
                    XMLError::Expecting {
                        what: "'encoding' or 'standalone' attribute in xml declation",
                        loc: loc0,
                    },
                );
            }
        } else if attr_count == 2 {
            if !str_eq(name.as_str(), "standalone") {
                return Err(
                    XMLError::Expecting {
                        what: "'standalone' attribute in xml declation",
                        loc: loc0,
                    },
                );
            }
            standalone = str_eq(value.as_str(), "yes");
            attr_count = 3;
        } else {
            return Err(
                XMLError::Invalid { what: "too many attributes in xml declation", loc: loc0 },
            );
        }
    }
}

/// Reads the start tag whose `<` stands at the cursor.  Gives the element,
/// still without children, and whether it stays open.
#[verifier::loop_isolation(false)]
pub fn parse_start_tag(reader: &mut Reader) -> (r: Result<(Component, bool), XMLError>)
    requires
        old(reader)@.wf(),
        old(reader)@.at(TAG_OPEN@),
    ensures
        final(reader)@.wf(),
        final(reader)@.data == old(reader)@.data,
        match start_tag_at(old(reader)@) {
            Ok((node, is_open, end)) => r is Ok && node_of(r->Ok_0.0) == node && r->Ok_0.1
                == is_open && final(reader)@ == end && r->Ok_0.0 is Element,
            Err(e) => r == Err::<(Component, bool), XMLError>(e),
        },
{
    reader.raw_advance_n(1);
    let mut attributes: Vec<Attribute> = Vec::new();
    proof {
        lemma_name_at(reader@);
    }
    let name = match parse_name(reader) {
        Ok(v) => v,
        Err(e) => {
            return Err(e);
        },
    };
    let ghost first = reader@;
    assert(attributes_of(attributes@) =~= Seq::empty());
    loop
        invariant
            reader@.wf(),
            reader@.data == old(reader)@.data,
            tag_attributes(reader@, name@, attributes_of(attributes@)) == tag_attributes(
                first,
                name@,
                Seq::empty(),
            ),
        decreases reader@.data.len() - reader@.cursor,
    {
        proof {
            reader@.lemma_skip_white_spaces();
        }
        reader.skip_white_spaces();
        let next = reader.peek_2bytes();
        if next.0 == 0 && next.1 == 0 {
            return Err(XMLError::EndOfFile { when: "reading tag closing or its attributes" });
        }
        if next.0 == 0x3e {
            reader.raw_advance_n(1);
            let children: Vec<Component> = Vec::new();
            assert(nodes_of(children@) =~= Seq::empty());
            return Ok((Component::Element { name, attributes, children }, true));
        }
        if next.0 == 0x2f && next.1 == 0x3e {
            reader.raw_advance_n(2);
            let children: Vec<Component> = Vec::new();
            assert(nodes_of(children@) =~= Seq::empty());
            return Ok((Component::Element { name, attributes, children }, false));
        }
        proof {
            lemma_attribute_at(reader@);
        }
        let (attribute, value) = match parse_attribute(reader) {
            Ok(v) => v,
            Err(e) => {
                return Err(e);
            },
        };
        insert_attribute(&mut attributes, attribute, value);
    }
}

/// Reads the end tag whose `</` stands at the cursor, and gives its name.
pub fn parse_end_tag(reader: &mut Reader) -> (r: Result<String, XMLError>)
    requires
        old(reader)@.wf(),
        old(reader)@.at(END_TAG_OPEN@),
    ensures
        final(reader)@.wf(),
        final(reader)@.data == old(reader)@.data,
        match end_tag_at(old(reader)@) {
            Ok((name, end)) => r is Ok && r->Ok_0@ == name && final(reader)@ == end,
            Err(e) => r == Err::<String, XMLError>(e),
        },
{
    reader.raw_advance_n(2);
    proof {
        lemma_name_at(reader@);
    }
    let name = match parse_name(reader) {
        Ok(v) => v,
        Err(e) => {
            return Err(e);
        },
    };
    proof {
        reader@.lemma_skip_white_spaces();
    }
    reader.skip_white_spaces();
    if reader.eob() {
        return Err(XMLError::EndOfFile { when: "reading a closing tag" });
    }
    let c = reader.peek_byte();
    if c != 0x3e {
        return Err(
            XMLError::Expecting { what: "'>' to be closing the tag end", loc: reader.get_loc() },
        );
    }
    reader.advance();
    Ok(name)
}

/// A parsed document: its top-level components.
#[derive(Debug)]
pub struct Document {
    pub children: Vec<Component>,
}

impl Document {
    /// Parses a document.
    pub fn from_data(data: Vec<u8>) -> (r: Result<Document, XMLError>)
        ensures
            match r {
                Ok(doc) => parse_document(data@) == Ok::<Seq<Node>, XMLError>(
                    nodes_of(doc.children@),
                ),
                Err(e) => parse_document(data@) == Err::<Seq<Node>, XMLError>(e),
            },
    {
        let mut doc = Document { children: Vec::new() };
        assert(nodes_of(doc.children@) =~= Seq::empty());
        match doc.parse(data) {
            Ok(_) => Ok(doc),
            Err(e) => Err(e),
        }
    }

    /// Adds a component: an element that stays open goes onto the stack;
    /// anything else becomes a child of the innermost open element, or of the
    /// document where none is open.
    pub fn add_component(&mut self, c: Component, is_open: bool, stack: &mut Vec<Component>) -> (r:
        Result<(), XMLError>)
        ensures
            match attach(tree_of(old(self).children@, old(stack)@), node_of(c), is_open) {
                Ok(tree) => r is Ok && tree_of(final(self).children@, final(stack)@) == tree,
                Err(e) => r == Err::<(), XMLError>(e),
            },
    {
        let is_element = match &c {
            Component::Element { .. } => true,
            _ => false,
        };
        proof {
            lemma_nodes_of_push(stack@, c);
            lemma_nodes_of_push(self.children@, c);
            lemma_nodes_of(stack@);
        }
        if is_open && is_element {
            stack.push(c);
            return Ok(());
        }
        match stack.pop() {
            Some(top) => {
                proof {
                    lemma_nodes_of_drop_last(old(stack)@);
                }
                match top {
                    Component::Element { name, attributes, children } => {
                        let mut children = children;
                        proof {
                            lemma_nodes_of_push(children@, c);
                        }
                        children.push(c);
                        let grown = Component::Element { name, attributes, children };
                        proof {
                            lemma_nodes_of_push(stack@, grown);
                        }
                        stack.push(grown);
                        Ok(())
                    },
                    _ => Err(
                        XMLError::InternalError { what: "component in stack is not an element!" },
                    ),
                }
            },
            None => {
                self.children.push(c);
                Ok(())
            },
        }
    }

    /// Closes the innermost open element, whose name must be `name`, and
    /// attaches it.
    pub fn close_element(&mut self, name: &String, loc: Loc, stack: &mut Vec<Component>) -> (r:
        Result<(), XMLError>)
        ensures
            match close_element(tree_of(old(self).children@, old(stack)@), name@, loc) {
                Ok(tree) => r is Ok && tree_of(final(self).children@, final(stack)@) == tree,
                Err(e) => r == Err::<(), XMLError>(e),
            },
            r is Ok ==> old(stack)@.len() > 0 && node_of(old(stack)@.last()).is_element_named(
                name@,
            ),
    {
        proof {
            lemma_nodes_of(stack@);
        }
        match stack.pop() {
            Some(top) => {
                proof {
                    lemma_nodes_of_drop_last(old(stack)@);
                }
                let matched = match &top {
                    Component::Element { name: open_name, .. } => {
                        if str_eq(open_name.as_str(), name.as_str()) {
                            Ok(())
                        } else {
                            Err(XMLError::Invalid { what: "unmatched tag end", loc })
                        }
                    },
                    _ => Err(
                        XMLError::InternalError { what: "component in stack is not an element!" },
                    ),
                };
                match matched {
                    Ok(_) => self.add_component(top, false, stack),
                    Err(e) => Err(e),
                }
            },
            None => Err(XMLError::Invalid { what: "unexpected tag end found", loc }),
        }
    }

    /// Reads a text up to `close` and attaches the component made of it: a
    /// comment, whose entity references are expanded, or a CDATA text or a
    /// `<!...>` section, which are kept as they stand.
    fn add_delimited(
        &mut self,
        reader: &mut Reader,
        close: &[u8],
        kind: u8,
        stack: &mut Vec<Component>,
    ) -> (r: Result<(), XMLError>)
        requires
            old(reader)@.wf(),
            kind < 3,
        ensures
            final(reader)@.wf(),
            final(reader)@.data == old(reader)@.data,
            match delimited_at(
                old(reader)@,
                close@,
                tree_of(old(self).children@, old(stack)@),
                delimited_node(kind),
                kind != 0,
            ) {
                Ok((tree, end)) => r is Ok && tree_of(final(self).children@, final(stack)@)
                    == tree && final(reader)@ == end,
                Err(e) => r == Err::<(), XMLError>(e),
            },
    {
        proof {
            lemma_delimited_text(reader@, close@, kind != 0);
        }
        let parsed = if kind == 0 {
            parse_text(reader, close)
        } else {
            parse_raw_text(reader, close)
        };
        let text = match parsed {
            Ok(v) => v,
            Err(e) => {
                return Err(e);
            },
        };
        reader.raw_advance_n(close.len());
        let c = if kind == 0 {
            Component::Comment(text)
        } else if kind == 1 {
            Component::Text { value: text, is_cdata: true }
        } else {
            Component::Other(text)
        };
        self.add_component(c, false, stack)
    }

    /// Reads the component that starts at the cursor, where no white space
    /// stands, and adds it.
    pub fn parse_component(&mut self, reader: &mut Reader, stack: &mut Vec<Component>) -> (r:
        Result<(), XMLError>)
        requires
            old(reader)@.wf(),
        ensures
            final(reader)@.wf(),
            final(reader)@.data == old(reader)@.data,
            match component_at(old(reader)@, tree_of(old(self).children@, old(stack)@)) {
                Ok((tree, end)) => r is Ok && tree_of(final(self).children@, final(stack)@)
                    == tree && final(reader)@ == end,
                Err(e) => r == Err::<(), XMLError>(e),
            },
    {
        proof {
            lemma_nodes_of(self.children@);
            lemma_nodes_of(stack@);
        }
        if reader.sequece_match(DECLARATION_OPEN.as_slice()) {
            let declaration = match parse_declaration(reader, self.children.len() > 0) {
                Ok(v) => v,
                Err(e) => {
                    return Err(e);
                },
            };
            self.add_component(declaration, false, stack)
        } else if reader.sequece_match(COMMENT_OPEN.as_slice()) {
            reader.raw_advance_n(4);
            self.add_delimited(reader, COMMENT_CLOSE.as_slice(), 0, stack)
        } else if reader.sequece_match(CDATA_OPEN.as_slice()) {
            reader.raw_advance_n(9);
            self.add_delimited(reader, CDATA_CLOSE.as_slice(), 1, stack)
        } else if reader.sequece_match(SECTION_OPEN.as_slice()) {
            reader.raw_advance_n(2);
            self.add_delimited(reader, TAG_CLOSE.as_slice(), 2, stack)
        } else if reader.sequece_match(END_TAG_OPEN.as_slice()) {
            let loc0 = reader.get_loc();
            let name = match parse_end_tag(reader) {
                Ok(v) => v,
                Err(e) => {
                    return Err(e);
                },
            };
            self.close_element(&name, loc0, stack)
        } else if reader.sequece_match(TAG_OPEN.as_slice()) {
            let (element, is_open) = match parse_start_tag(reader) {
                Ok(v) => v,
                Err(e) => {
                    return Err(e);
                },
            };
            self.add_component(element, is_open, stack)
        } else if stack.len() > 0 {
            let text = match parse_text(reader, TAG_OPEN.as_slice()) {
                Ok(v) => v,
                Err(e) => {
                    return Err(e);
                },
            };
            self.add_component(Component::Text { value: text, is_cdata: false }, false, stack)
        } else if reader.eob() {
            Ok(())
        } else {
            Err(XMLError::Invalid { what: "text outside of an element", loc: reader.get_loc() })
        }
    }

    /// Parses `data` and adds its components to the document.
    #[verifier::loop_isolation(false)]
    pub fn parse(&mut self, data: Vec<u8>) -> (r: Result<(), XMLError>)
        ensures
            match r {
                Ok(_) => data@.len() < usize::MAX && parse_from(
                    Source::start(data@),
                    tree_of(old(self).children@, Seq::empty()),
                ) == Ok::<Tree, XMLError>(tree_of(final(self).children@, Seq::empty())),
                Err(e) => parse_rest(data@, tree_of(old(self).children@, Seq::empty())) == Err::<
                    Seq<Node>,
                    XMLError,
                >(e),
            },
    {
        if data.len() == usize::MAX {
            return Err(XMLError::InternalError { what: "the document is too large" });
        }
        let ghost bytes = data@;
        let mut reader = Reader::new(data);
        let mut stack: Vec<Component> = Vec::new();
        assert(nodes_of(stack@) =~= Seq::empty());
        while !reader.eob()
            invariant
                reader@.wf(),
                reader@.data == bytes,
                parse_from(reader@, tree_of(self.children@, stack@)) == parse_from(
                    Source::start(bytes),
                    tree_of(old(self).children@, Seq::empty()),
                ),
            decreases reader@.data.len() - reader@.cursor,
        {
            proof {
                reader@.lemma_skip_white_spaces();
                lemma_component_at(
                    reader@.skip_white_spaces(),
                    tree_of(self.children@, stack@),
                );
            }
            reader.skip_white_spaces();
            match self.parse_component(&mut reader, &mut stack) {
                Ok(_) => {},
                Err(e) => {
                    return Err(e);
                },
            }
        }
        proof {
            lemma_nodes_of(stack@);
        }
        if stack.len() > 0 {
            return Err(XMLError::EndOfFile { when: "reading an element that was not closed" });
        }
        assert(nodes_of(stack@) =~= Seq::empty());
        Ok(())
    }
}

/// What the texts of the three delimited kinds become: 0 a comment, 1 a
/// CDATA text, 2 a `<!...>` section.
pub open spec fn delimited_node(kind: u8) -> spec_fn(Seq<char>) -> Node {
    if kind == 0 {
        |text: Seq<char>| Node::Comment(text)
    } else if kind == 1 {
        |text: Seq<char>| Node::Text { value: text, is_cdata: true }
    } else {
        |text: Seq<char>| Node::Other(text)
    }
}

/// The top-level components at the end of the input, with `tree` built
/// before it.  Every element must have been closed.
pub open spec fn parse_rest(data: Seq<u8>, tree: Tree) -> Result<Seq<Node>, XMLError> {
    if data.len() >= usize::MAX {
        Err(XMLError::InternalError { what: "the document is too large" })
    } else {
        match parse_from(Source::start(data), tree) {
            Err(e) => Err(e),
            Ok(end) => if end.stack.len() > 0 {
                Err(XMLError::EndOfFile { when: "reading an element that was not closed" })
            } else {
                Ok(end.children)
            },
        }
    }
}

impl Node {
    /// Whether the node is an element called `name`.
    pub open spec fn is_element_named(self, name: Seq<char>) -> bool {
        self matches Node::Element { name: own, .. } && own == name
    }

    /// The children of an element; other nodes have none.
    pub open spec fn child_nodes(self) -> Seq<Node> {
        match self {
            Node::Element { children, .. } => children,
            _ => Seq::empty(),
        }
    }
}

/// The elements called `name` among the nodes, in their order.
pub open spec fn named_elements(nodes: Seq<Node>, name: Seq<char>) -> Seq<Node>
    decreases nodes.len(),
{
    if nodes.len() == 0 {
        Seq::empty()
    } else {
        let before = named_elements(nodes.drop_last(), name);
        if nodes.last().is_element_named(name) {
            before.push(nodes.last())
        } else {
            before
        }
    }
}

/// The place of the first element called `name` from `from` on.
pub open spec fn first_named(nodes: Seq<Node>, name: Seq<char>, from: int) -> Option<int>
    decreases nodes.len() - from,
{
    if from < 0 || from >= nodes.len() {
        None
    } else if nodes[from].is_element_named(name) {
        Some(from)
    } else {
        first_named(nodes, name, from + 1)
    }
}

/// The first text among the nodes from `from` on.
pub open spec fn first_text(nodes: Seq<Node>, from: int) -> Option<Seq<char>>
    decreases nodes.len() - from,
{
    if from < 0 || from >= nodes.len() {
        None
    } else {
        match nodes[from] {
            Node::Text { value, .. } => Some(value),
            _ => first_text(nodes, from + 1),
        }
    }
}

impl Node {
    /// The first child that is an element called `name`.
    pub open spec fn child_named(self, name: Seq<char>) -> Option<Node> {
        match first_named(self.child_nodes(), name, 0) {
            Some(i) => Some(self.child_nodes()[i]),
            None => None,
        }
    }

    /// The value of the element's attribute called `name`.
    pub open spec fn attribute(self, name: Seq<char>) -> Option<Seq<char>> {
        match self {
            Node::Element { attributes, .. } => attribute_value(attributes, name),
            _ => None,
        }
    }
}

/// The element that is found stands at or after `from`.
pub proof fn lemma_first_named(nodes: Seq<Node>, name: Seq<char>, from: int)
    requires
        0 <= from,
    ensures
        first_named(nodes, name, from) matches Some(i) ==> from <= i < nodes.len(),
    decreases nodes.len() - from,
{
    if from < nodes.len() && !nodes[from].is_element_named(name) {
        lemma_first_named(nodes, name, from + 1);
    }
}

impl Component {
    /// Whether the component is an element called `name`.
    pub fn is_element_named(&self, name: &str) -> (r: bool)
        ensures
            r == node_of(*self).is_element_named(name@),
    {
        match self {
            Component::Element { name: own, .. } => str_eq(own.as_str(), name),
            _ => false,
        }
    }

    /// The children of an element.
    pub fn children(&self) -> (r: Option<&Vec<Component>>)
        ensures
            match r {
                Some(children) => *self is Element && *children == self->children && nodes_of(
                    children@,
                ) == node_of(*self).child_nodes(),
                None => !(*self is Element),
            },
    {
        match self {
            Component::Element { children, .. } => Some(children),
            _ => None,
        }
    }

    /// The children of a component that is known to be an element.
    pub fn children_unchecked(&self) -> (r: &Vec<Component>)
        requires
            *self is Element,
        ensures
            *r == self->children,
            nodes_of(r@) == node_of(*self).child_nodes(),
    {
        match self {
            Component::Element { children, .. } => children,
            _ => vstd::pervasive::unreached(),
        }
    }

    /// The children that are elements called `elem_name`, in their order.
    pub fn filter_elements<'a>(&'a self, elem_name: &str) -> (r: Vec<&'a Component>)
        ensures
            r@.len() == named_elements(node_of(*self).child_nodes(), elem_name@).len(),
            forall|i: int|
                0 <= i < r@.len() ==> node_of(*#[trigger] r@[i]) == named_elements(
                    node_of(*self).child_nodes(),
                    elem_name@,
                )[i],
    {
        let mut found: Vec<&'a Component> = Vec::new();
        match self {
            Component::Element { children, .. } => {
                let ghost nodes = nodes_of(children@);
                proof {
                    lemma_nodes_of(children@);
                }
                let mut i: usize = 0;
                assert(nodes.take(0) =~= Seq::empty());
                while i < children.len()
                    invariant
                        i <= children.len(),
                        nodes == nodes_of(children@),
                        nodes.len() == children@.len(),
                        forall|k: int|
                            0 <= k < nodes.len() ==> #[trigger] nodes[k] == node_of(children@[k]),
                        found@.len() == named_elements(nodes.take(i as int), elem_name@).len(),
                        forall|k: int|
                            0 <= k < found@.len() ==> node_of(*#[trigger] found@[k])
                                == named_elements(nodes.take(i as int), elem_name@)[k],
                    decreases children.len() - i,
                {
                    let child = &children[i];
                    proof {
                        let next = nodes.take(i + 1);
                        assert(next.drop_last() =~= nodes.take(i as int));
                        assert(next.last() == node_of(*child));
                    }
                    if child.is_element_named(elem_name) {
                        found.push(child);
                    }
                    i += 1;
                }
                assert(nodes.take(i as int) =~= nodes);
            },
            _ => {},
        }
        found
    }

    /// The first child that is an element called `elem_name`.
    pub fn find_element(&self, elem_name: &str) -> (r: Option<&Component>)
        ensures
            match r {
                Some(child) => node_of(*self).child_named(elem_name@) == Some(node_of(*child)),
                None => node_of(*self).child_named(elem_name@) is None,
            },
    {
        match self {
            Component::Element { children, .. } => {
                let ghost nodes = nodes_of(children@);
                proof {
                    lemma_nodes_of(children@);
                }
                let mut i: usize = 0;
                while i < children.len()
                    invariant
                        i <= children.len(),
                        nodes == nodes_of(children@),
                        nodes.len() == children@.len(),
                        forall|k: int|
                            0 <= k < nodes.len() ==> #[trigger] nodes[k] == node_of(children@[k]),
                        nodes == node_of(*self).child_nodes(),
                        first_named(nodes, elem_name@, i as int) == first_named(
                            nodes,
                            elem_name@,
                            0,
                        ),
                    decreases children.len() - i,
                {
                    let child = &children[i];
                    if child.is_element_named(elem_name) {
                        return Some(child);
                    }
                    i += 1;
                }
                None
            },
            _ => None,
        }
    }

    /// The text of the first child that is a text.
    pub fn first_text(&self) -> (r: Option<&String>)
        ensures
            match r {
                Some(text) => first_text(node_of(*self).child_nodes(), 0) == Some(text@),
                None => first_text(node_of(*self).child_nodes(), 0) is None,
            },
    {
        match self {
            Component::Element { children, .. } => {
                let ghost nodes = nodes_of(children@);
                proof {
                    lemma_nodes_of(children@);
                }
                let mut i: usize = 0;
                while i < children.len()
                    invariant
                        i <= children.len(),
                        nodes == nodes_of(children@),
                        nodes.len() == children@.len(),
                        forall|k: int|
                            0 <= k < nodes.len() ==> #[trigger] nodes[k] == node_of(children@[k]),
                        nodes == node_of(*self).child_nodes(),
                        first_text(nodes, i as int) == first_text(nodes, 0),
                    decreases children.len() - i,
                {
                    match &children[i] {
                        Component::Text { value, .. } => {
                            return Some(value);
                        },
                        _ => {},
                    }
                    i += 1;
                }
                None
            },
            _ => None,
        }
    }

    /// The value of the element's attribute called `name`.
    pub fn attribute(&self, name: &str) -> (r: Option<&String>)
        ensures
            match r {
                Some(value) => node_of(*self).attribute(name@) == Some(value@),
                None => node_of(*self).attribute(name@) is None,
            },
    {
        match self {
            Component::Element { attributes, .. } => {
                match find_attribute(attributes, name) {
                    Some(i) => Some(&attributes[i].value),
                    None => None,
                }
            },
            _ => None,
        }
    }
}

/// A document parses only if every element was closed, so that no element is
/// left open at the end of the input.
pub proof fn lemma_success_leaves_no_open_element(data: Seq<u8>)
    requires
        parse_document(data) is Ok,
    ensures
        parse_from(
            Source::start(data),
            Tree { children: Seq::empty(), stack: Seq::empty() },
        ) matches Ok(tree) && tree.stack.len() == 0 && parse_document(data) == Ok::<
            Seq<Node>,
            XMLError,
        >(tree.children),
{
}

/// An end tag is accepted only where an element is open, and only with the
/// name of the innermost open element, which it takes off the stack.
pub proof fn lemma_end_tag_matches_start_tag(tree: Tree, name: Seq<char>, loc: Loc)
    requires
        close_element(tree, name, loc) is Ok,
    ensures
        tree.stack.len() > 0,
        tree.stack.last().is_element_named(name),
        close_element(tree, name, loc)->Ok_0.stack.len() == tree.stack.len() - 1,
{
}

} // verus!
