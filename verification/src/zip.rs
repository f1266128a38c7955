//! A reader for ZIP archives: the end-of-central-directory record, the
//! central directory and the local file headers with their payloads.

use vstd::prelude::*;
use vstd::slice::{slice_subrange, slice_to_vec};
use crate::inflate::{decompress, inflate, InflateError};
use crate::text::{text_of_bytes, utf8_text};

verus! {

/// The 16-bit little-endian number at `pos`.
pub open spec fn u16_at(data: Seq<u8>, pos: int) -> int {
    data[pos] as int + 256 * (data[pos + 1] as int)
}

/// The 32-bit little-endian number at `pos`.
pub open spec fn u32_at(data: Seq<u8>, pos: int) -> int {
    u16_at(data, pos) + 65536 * u16_at(data, pos + 2)
}

/// Whether the bytes of `sig` stand at `pos`.
pub open spec fn signature_at(data: Seq<u8>, pos: int, sig: Seq<u8>) -> bool {
    &&& 0 <= pos
    &&& pos + sig.len() <= data.len()
    &&& data.subrange(pos, pos + sig.len()) == sig
}

/// The highest place in `low..high` where `sig` stands.
pub open spec fn last_signature(data: Seq<u8>, sig: Seq<u8>, low: int, high: int) -> Option<int>
    decreases high - low,
{
    if high <= low {
        None
    } else if signature_at(data, high - 1, sig) {
        Some(high - 1)
    } else {
        last_signature(data, sig, low, high - 1)
    }
}

/// The lowest place in `low..high` where `sig` stands.
pub open spec fn first_signature(data: Seq<u8>, sig: Seq<u8>, low: int, high: int) -> Option<int>
    decreases high - low,
{
    if high <= low {
        None
    } else if signature_at(data, low, sig) {
        Some(low)
    } else {
        first_signature(data, sig, low + 1, high)
    }
}

/// A cursor into a byte buffer that reads little-endian numbers.
pub struct Reader {
    data: Vec<u8>,
    cursor: usize,
}

impl Reader {
    /// The bytes that the reader reads.
    pub closed spec fn bytes(&self) -> Seq<u8> {
        self.data@
    }

    /// The place of the next byte to read.
    pub closed spec fn position(&self) -> int {
        self.cursor as int
    }

    /// Whether `n` bytes are left at the cursor.
    pub open spec fn has_left(&self, n: int) -> bool {
        self.position() + n <= self.bytes().len()
    }

    /// The `n` bytes at the cursor.
    pub open spec fn next_bytes(&self, n: int) -> Seq<u8> {
        self.bytes().subrange(self.position(), self.position() + n)
    }

    /// A reader at the start of `data`.
    pub fn new(data: Vec<u8>) -> (r: Self)
        ensures
            r.bytes() == data@,
            r.position() == 0,
    {
        Self { data, cursor: 0 }
    }

    /// How many bytes the buffer holds.
    pub fn len(&self) -> (n: usize)
        ensures
            n == self.bytes().len(),
    {
        self.data.len()
    }

    /// Moves the cursor to `pos`.
    pub fn seek(&mut self, pos: usize)
        ensures
            final(self).bytes() == old(self).bytes(),
            final(self).position() == pos,
    {
        self.cursor = pos;
    }

    /// Whether `n` bytes are left at the cursor.
    fn has(&self, n: usize) -> (r: bool)
        ensures
            r == self.has_left(n as int),
            self.bytes().len() <= usize::MAX,
    {
        self.cursor <= self.data.len() && n <= self.data.len() - self.cursor
    }

    /// Whether the bytes of `prefix` stand at `pos`.
    fn prefix_at(&self, pos: usize, prefix: &[u8]) -> (r: bool)
        requires
            pos + prefix@.len() <= self.bytes().len(),
        ensures
            r == signature_at(self.bytes(), pos as int, prefix@),
    {
        let total = self.data.len();
        let mut j: usize = 0;
        while j < prefix.len()
            invariant
                j <= prefix.len(),
                pos + prefix@.len() <= self.data@.len(),
                self.data@.len() == total,
                forall|k: int| 0 <= k < j ==> prefix@[k] == self.data@[pos + k],
            decreases prefix.len() - j,
        {
            if prefix[j] != self.data[pos + j] {
                assert(self.data@.subrange(pos as int, pos + prefix@.len())[j as int]
                    != prefix@[j as int]);
                return false;
            }
            j += 1;
        }
        assert(self.data@.subrange(pos as int, pos + prefix@.len()) =~= prefix@);
        true
    }

    /// The first place at or after the cursor where `prefix` stands.
    pub fn find_prefix(&self, prefix: &[u8]) -> (r: Option<usize>)
        ensures
            match r {
                Some(i) => first_signature(
                    self.bytes(),
                    prefix@,
                    self.position(),
                    self.bytes().len() - prefix@.len() + 1,
                ) == Some(i as int),
                None => first_signature(
                    self.bytes(),
                    prefix@,
                    self.position(),
                    self.bytes().len() - prefix@.len() + 1,
                ) is None,
            },
    {
        if !self.has(prefix.len()) {
            return None;
        }
        let last = self.data.len() - prefix.len();
        let mut i: usize = self.cursor;
        loop
            invariant
                self.cursor <= i <= last,
                last == self.data@.len() - prefix@.len(),
                first_signature(self.bytes(), prefix@, i as int, last + 1) == first_signature(
                    self.bytes(),
                    prefix@,
                    self.position(),
                    last + 1,
                ),
            decreases last - i,
        {
            if self.prefix_at(i, prefix) {
                return Some(i);
            }
            if i == last {
                assert(first_signature(self.bytes(), prefix@, i + 1, last + 1) is None);
                return None;
            }
            i += 1;
        }
    }

    /// The last place at or after the cursor where `prefix` stands.
    pub fn find_prefix_rev(&self, prefix: &[u8]) -> (r: Option<usize>)
        ensures
            match r {
                Some(i) => last_signature(
                    self.bytes(),
                    prefix@,
                    self.position(),
                    self.bytes().len() - prefix@.len() + 1,
                ) == Some(i as int),
                None => last_signature(
                    self.bytes(),
                    prefix@,
                    self.position(),
                    self.bytes().len() - prefix@.len() + 1,
                ) is None,
            },
    {
        if !self.has(prefix.len()) {
            return None;
        }
        let mut i: usize = self.data.len() - prefix.len();
        loop
            invariant
                self.cursor <= i <= self.data@.len() - prefix@.len(),
                last_signature(self.bytes(), prefix@, self.position(), i + 1) == last_signature(
                    self.bytes(),
                    prefix@,
                    self.position(),
                    self.bytes().len() - prefix@.len() + 1,
                ),
            decreases i - self.cursor,
        {
            if self.prefix_at(i, prefix) {
                return Some(i);
            }
            if i == self.cursor {
                assert(last_signature(self.bytes(), prefix@, self.position(), i as int) is None);
                return None;
            }
            i -= 1;
        }
    }

    /// Reads one byte.
    pub fn read_byte(&mut self) -> (r: Option<u8>)
        ensures
            final(self).bytes() == old(self).bytes(),
            match r {
                Some(v) => {
                    &&& old(self).has_left(1)
                    &&& v == old(self).bytes()[old(self).position()]
                    &&& final(self).position() == old(self).position() + 1
                },
                None => !old(self).has_left(1) && final(self).position() == old(self).position(),
            },
    {
        if !self.has(1) {
            return None;
        }
        let v = self.data[self.cursor];
        self.cursor += 1;
        Some(v)
    }

    /// Reads a 16-bit little-endian number.
    pub fn read_u16(&mut self) -> (r: Option<u16>)
        ensures
            final(self).bytes() == old(self).bytes(),
            match r {
                Some(v) => {
                    &&& old(self).has_left(2)
                    &&& v == u16_at(old(self).bytes(), old(self).position())
                    &&& final(self).position() == old(self).position() + 2
                },
                None => !old(self).has_left(2) && final(self).position() == old(self).position(),
            },
    {
        if !self.has(2) {
            return None;
        }
        let low = self.data[self.cursor] as u16;
        let high = self.data[self.cursor + 1] as u16;
        self.cursor += 2;
        Some(low + 256 * high)
    }

    /// The 32-bit little-endian number at the cursor, which stays.
    pub fn peek_u32(&self) -> (r: Option<u32>)
        ensures
            match r {
                Some(v) => self.has_left(4) && v == u32_at(self.bytes(), self.position()),
                None => !self.has_left(4),
            },
    {
        if !self.has(4) {
            return None;
        }
        let b0 = self.data[self.cursor] as u32;
        let b1 = self.data[self.cursor + 1] as u32;
        let b2 = self.data[self.cursor + 2] as u32;
        let b3 = self.data[self.cursor + 3] as u32;
        Some(b0 + 256 * b1 + 65536 * (b2 + 256 * b3))
    }

    /// Reads a 32-bit little-endian number.
    pub fn read_u32(&mut self) -> (r: Option<u32>)
        ensures
            final(self).bytes() == old(self).bytes(),
            match r {
                Some(v) => {
                    &&& old(self).has_left(4)
                    &&& v == u32_at(old(self).bytes(), old(self).position())
                    &&& final(self).position() == old(self).position() + 4
                },
                None => !old(self).has_left(4) && final(self).position() == old(self).position(),
            },
    {
        if !self.has(4) {
            return None;
        }
        let v = self.peek_u32();
        self.cursor += 4;
        v
    }

    /// Moves the cursor `n` bytes on, if so many are left.
    pub fn skip(&mut self, n: usize) -> (r: Option<()>)
        ensures
            final(self).bytes() == old(self).bytes(),
            match r {
                Some(_) => {
                    &&& old(self).has_left(n as int)
                    &&& final(self).position() == old(self).position() + n
                },
                None => {
                    &&& !old(self).has_left(n as int)
                    &&& final(self).position() == old(self).position()
                },
            },
    {
        if !self.has(n) {
            return None;
        }
        self.cursor += n;
        Some(())
    }

    /// Reads `size` bytes.
    pub fn read_vec(&mut self, size: usize) -> (r: Option<Vec<u8>>)
        ensures
            final(self).bytes() == old(self).bytes(),
            match r {
                Some(v) => {
                    &&& old(self).has_left(size as int)
                    &&& v@ == old(self).next_bytes(size as int)
                    &&& final(self).position() == old(self).position() + size
                },
                None => {
                    &&& !old(self).has_left(size as int)
                    &&& final(self).position() == old(self).position()
                },
            },
    {
        if !self.has(size) {
            return None;
        }
        let v = slice_to_vec(slice_subrange(self.data.as_slice(), self.cursor, self.cursor + size));
        self.cursor += size;
        Some(v)
    }

    /// Reads `size` bytes of UTF-8 text.  The cursor stays where the bytes
    /// are not such a text.
    pub fn read_string(&mut self, size: usize) -> (r: Option<String>)
        ensures
            final(self).bytes() == old(self).bytes(),
            match r {
                Some(s) => {
                    &&& old(self).has_left(size as int)
                    &&& utf8_text(old(self).next_bytes(size as int)) == Some(s@)
                    &&& final(self).position() == old(self).position() + size
                },
                None => {
                    &&& !old(self).has_left(size as int) || utf8_text(
                        old(self).next_bytes(size as int),
                    ) is None
                    &&& final(self).position() == old(self).position()
                },
            },
    {
        let start = self.cursor;
        let text = match self.read_vec(size) {
            Some(bytes) => text_of_bytes(bytes),
            None => None,
        };
        if text.is_none() {
            self.cursor = start;
        }
        text
    }
}

/// The signature of a local file header: `50 4B 03 04`.
pub const LOCAL_SIGNATURE: [u8; 4] = [0x50, 0x4b, 0x03, 0x04];

/// The signature of a central directory header: `50 4B 01 02`.
pub const CENTRAL_SIGNATURE: [u8; 4] = [0x50, 0x4b, 0x01, 0x02];

/// The signature of the end-of-central-directory record: `50 4B 05 06`.
pub const END_SIGNATURE: [u8; 4] = [0x50, 0x4b, 0x05, 0x06];

/// How far from the end of the archive the end-of-central-directory record
/// can start: its 22 bytes and a comment of at most 65535.
pub const END_SEARCH_WINDOW: usize = 65557;

/// The four bytes of a signature spell its number, little-endian.
pub proof fn lemma_signature_number(data: Seq<u8>, pos: int, sig: Seq<u8>)
    requires
        0 <= pos,
        pos + 4 <= data.len(),
        sig.len() == 4,
    ensures
        signature_at(data, pos, sig) <==> u32_at(data, pos) == sig[0] + 256 * sig[1] + 65536 * (
        sig[2] + 256 * sig[3]),
{
    let part = data.subrange(pos, pos + 4);
    assert(part[0] == data[pos] && part[1] == data[pos + 1] && part[2] == data[pos + 2] && part[3]
        == data[pos + 3]);
    if u32_at(data, pos) == sig[0] + 256 * sig[1] + 65536 * (sig[2] + 256 * sig[3]) {
        assert(part =~= sig);
    }
}

/// Why an archive could not be read.  Offsets are counted in bytes from the
/// start of the archive.
#[derive(Debug, Clone, Copy, PartialEq, Eq, Structural)]
pub enum ZipError {
    /// No end-of-central-directory signature stands near the end of the archive.
    MissingEndRecord,
    /// The archive ends before the structure that starts at `offset` does.
    Truncated { offset: usize },
    /// The bytes at `offset` are not the signature that must stand there.
    BadSignature { offset: usize },
    /// The member whose local file header starts at `offset` is compressed
    /// with a method other than 0 and 8.
    UnsupportedMethod { offset: usize, method: u16 },
    /// The payload of the member whose local file header starts at `offset`
    /// is not a DEFLATE stream that decodes.
    Inflate { offset: usize, error: InflateError },
    /// The local file header of the member with this index and the central
    /// directory give different compressed sizes.
    SizeMismatch { index: usize },
    /// The name in the central directory header at `offset` is not valid UTF-8.
    NameNotUtf8 { offset: usize },
    /// The content of the member with this index is not valid UTF-8.
    ContentNotUtf8 { index: usize },
}

/// What a local file header says, with the payload decoded.
pub struct LocalView {
    pub min_version: u16,
    pub flag: u16,
    pub compression: u16,
    pub crc32: u32,
    pub compressed_size: u32,
    pub uncompressed_size: u32,
    pub data: Seq<u8>,
}

/// What a central directory header says.
pub struct CentralView {
    pub version: u16,
    pub min_version: u16,
    pub flag: u16,
    pub compression: u16,
    pub crc32: u32,
    pub compressed_size: u32,
    pub uncompressed_size: u32,
    pub offset: u32,
    pub file_name: Seq<char>,
}

/// The data that the payload of the member at `offset` stands for: itself
/// where the method is 0, what it inflates to where the method is 8.  No other
/// method is read.
pub open spec fn decode_payload(offset: int, method: int, payload: Seq<u8>) -> Result<
    Seq<u8>,
    ZipError,
> {
    if method == 0 {
        Ok(payload)
    } else if method == 8 {
        match inflate(payload) {
            Ok(out) => Ok(out),
            Err(error) => Err(ZipError::Inflate { offset: offset as usize, error }),
        }
    } else {
        Err(ZipError::UnsupportedMethod { offset: offset as usize, method: method as u16 })
    }
}

/// Where the payload of the local file header at `pos` ends.
pub open spec fn local_header_end(data: Seq<u8>, pos: int) -> int {
    pos + 30 + u16_at(data, pos + 26) + u16_at(data, pos + 28) + u32_at(data, pos + 18)
}

/// The local file header at `pos`, with its payload decoded.
#[verifier::opaque]
pub open spec fn local_header_at(data: Seq<u8>, pos: int) -> Result<LocalView, ZipError> {
    if pos < 0 || pos + 30 > data.len() {
        Err(ZipError::Truncated { offset: pos as usize })
    } else if !signature_at(data, pos, LOCAL_SIGNATURE@) {
        Err(ZipError::BadSignature { offset: pos as usize })
    } else if local_header_end(data, pos) > data.len() {
        Err(ZipError::Truncated { offset: pos as usize })
    } else {
        let size = u32_at(data, pos + 18);
        let end = local_header_end(data, pos);
        match decode_payload(pos, u16_at(data, pos + 8), data.subrange(end - size, end)) {
            Err(e) => Err(e),
            Ok(content) => Ok(
                LocalView {
                    min_version: u16_at(data, pos + 4) as u16,
                    flag: u16_at(data, pos + 6) as u16,
                    compression: u16_at(data, pos + 8) as u16,
                    crc32: u32_at(data, pos + 14) as u32,
                    compressed_size: size as u32,
                    uncompressed_size: u32_at(data, pos + 22) as u32,
                    data: content,
                },
            ),
        }
    }
}

/// The central directory header at `pos`, and the place after it.
#[verifier::opaque]
pub open spec fn central_header_at(data: Seq<u8>, pos: int) -> Result<(CentralView, int), ZipError> {
    if pos < 0 || pos + 46 > data.len() {
        Err(ZipError::Truncated { offset: pos as usize })
    } else if !signature_at(data, pos, CENTRAL_SIGNATURE@) {
        Err(ZipError::BadSignature { offset: pos as usize })
    } else {
        let name_len = u16_at(data, pos + 28);
        let end = pos + 46 + name_len + u16_at(data, pos + 30) + u16_at(data, pos + 32);
        if end > data.len() {
            Err(ZipError::Truncated { offset: pos as usize })
        } else {
            match utf8_text(data.subrange(pos + 46, pos + 46 + name_len)) {
                None => Err(ZipError::NameNotUtf8 { offset: pos as usize }),
                Some(file_name) => Ok(
                    (
                        CentralView {
                            version: u16_at(data, pos + 4) as u16,
                            min_version: u16_at(data, pos + 6) as u16,
                            flag: u16_at(data, pos + 8) as u16,
                            compression: u16_at(data, pos + 10) as u16,
                            crc32: u32_at(data, pos + 16) as u32,
                            compressed_size: u32_at(data, pos + 20) as u32,
                            uncompressed_size: u32_at(data, pos + 24) as u32,
                            offset: u32_at(data, pos + 42) as u32,
                            file_name,
                        },
                        end,
                    ),
                ),
            }
        }
    }
}

/// The end-of-central-directory record at `pos`; its comment must fit.
#[verifier::opaque]
pub open spec fn end_header_at(data: Seq<u8>, pos: int) -> Result<
    EndOfCentralDirectoryHeader,
    ZipError,
> {
    if pos < 0 || pos + 22 > data.len() {
        Err(ZipError::Truncated { offset: pos as usize })
    } else if !signature_at(data, pos, END_SIGNATURE@) {
        Err(ZipError::BadSignature { offset: pos as usize })
    } else if pos + 22 + u16_at(data, pos + 20) > data.len() {
        Err(ZipError::Truncated { offset: pos as usize })
    } else {
        Ok(
            EndOfCentralDirectoryHeader {
                disk_number: u16_at(data, pos + 4) as u16,
                disk_number_start: u16_at(data, pos + 6) as u16,
                num_central_directories_on_disk: u16_at(data, pos + 8) as u16,
                total_num_central_directories: u16_at(data, pos + 10) as u16,
                central_directory_size: u32_at(data, pos + 12) as u32,
                offset_to_start_of_central_directory: u32_at(data, pos + 16) as u32,
            },
        )
    }
}

/// A local file header and the decoded payload that follows it.
#[derive(Debug)]
pub struct LocalFileHeader {
    pub min_version: u16,
    pub flag: u16,
    pub compression: u16,
    pub crc32: u32,
    pub compressed_size: u32,
    pub uncompressed_size: u32,
    pub data: Vec<u8>,
}

impl View for LocalFileHeader {
    type V = LocalView;

    open spec fn view(&self) -> LocalView {
        LocalView {
            min_version: self.min_version,
            flag: self.flag,
            compression: self.compression,
            crc32: self.crc32,
            compressed_size: self.compressed_size,
            uncompressed_size: self.uncompressed_size,
            data: self.data@,
        }
    }
}

/// The error of a structure that starts at `offset` and does not fit.
fn truncated<T>(offset: usize) -> (r: Result<T, ZipError>)
    ensures
        r == Err::<T, ZipError>(ZipError::Truncated { offset }),
{
    Err(ZipError::Truncated { offset })
}

impl LocalFileHeader {
    /// Reads the local file header at the cursor and decodes its payload.
    pub fn from_reader(reader: &mut Reader) -> (r: Result<Self, ZipError>)
        ensures
            final(reader).bytes() == old(reader).bytes(),
            match r {
                Ok(header) => {
                    &&& local_header_at(old(reader).bytes(), old(reader).position()) == Ok::<
                        LocalView,
                        ZipError,
                    >(header@)
                    &&& final(reader).position() == local_header_end(
                        old(reader).bytes(),
                        old(reader).position(),
                    )
                },
                Err(e) => local_header_at(old(reader).bytes(), old(reader).position()) == Err::<
                    LocalView,
                    ZipError,
                >(e),
            },
    {
        let ghost data = reader.bytes();
        let ghost pos = reader.position();
        reveal(local_header_at);
        let offset = reader.cursor;
        if !reader.has(30) {
            return truncated(offset);
        }
        proof {
            lemma_signature_number(data, pos, LOCAL_SIGNATURE@);
        }
        let signature = reader.read_u32().unwrap();
        if signature != 0x04034b50 {
            return Err(ZipError::BadSignature { offset });
        }
        let min_version = reader.read_u16().unwrap();
        let flag = reader.read_u16().unwrap();
        let compression = reader.read_u16().unwrap();
        reader.skip(4).unwrap();
        let crc32 = reader.read_u32().unwrap();
        let compressed_size = reader.read_u32().unwrap();
        let uncompressed_size = reader.read_u32().unwrap();
        let file_name_len = reader.read_u16().unwrap();
        let extra_len = reader.read_u16().unwrap();
        if reader.skip(file_name_len as usize).is_none() {
            return truncated(offset);
        }
        if reader.skip(extra_len as usize).is_none() {
            return truncated(offset);
        }
        let content = match reader.read_vec(compressed_size as usize) {
            Some(v) => v,
            None => {
                return truncated(offset);
            },
        };
        let data = if compression == 0 {
            content
        } else if compression == 8 {
            match decompress(content.as_slice()) {
                Ok(v) => v,
                Err(error) => {
                    return Err(ZipError::Inflate { offset, error });
                },
            }
        } else {
            return Err(ZipError::UnsupportedMethod { offset, method: compression });
        };
        Ok(
            Self {
                min_version,
                flag,
                compression,
                crc32,
                compressed_size,
                uncompressed_size,
                data,
            },
        )
    }
}

/// A central directory header.
#[derive(Debug)]
pub struct CentralDirectoryHeader {
    pub version: u16,
    pub min_version: u16,
    pub flag: u16,
    pub compression: u16,
    pub crc32: u32,
    pub compressed_size: u32,
    pub uncompressed_size: u32,
    pub offset: u32,
    pub file_name: String,
}

impl View for CentralDirectoryHeader {
    type V = CentralView;

    open spec fn view(&self) -> CentralView {
        CentralView {
            version: self.version,
            min_version: self.min_version,
            flag: self.flag,
            compression: self.compression,
            crc32: self.crc32,
            compressed_size: self.compressed_size,
            uncompressed_size: self.uncompressed_size,
            offset: self.offset,
            file_name: self.file_name@,
        }
    }
}

impl CentralDirectoryHeader {
    /// Reads the central directory header at the cursor and moves past it.
    pub fn from_reader(reader: &mut Reader) -> (r: Result<Self, ZipError>)
        ensures
            final(reader).bytes() == old(reader).bytes(),
            match r {
                Ok(header) => central_header_at(old(reader).bytes(), old(reader).position())
                    == Ok::<(CentralView, int), ZipError>((header@, final(reader).position())),
                Err(e) => central_header_at(old(reader).bytes(), old(reader).position()) == Err::<
                    (CentralView, int),
                    ZipError,
                >(e),
            },
    {
        let ghost data = reader.bytes();
        let ghost pos = reader.position();
        reveal(central_header_at);
        let offset = reader.cursor;
        if !reader.has(46) {
            return truncated(offset);
        }
        proof {
            lemma_signature_number(data, pos, CENTRAL_SIGNATURE@);
        }
        let signature = reader.read_u32().unwrap();
        if signature != 0x02014b50 {
            return Err(ZipError::BadSignature { offset });
        }
        let version = reader.read_u16().unwrap();
        let min_version = reader.read_u16().unwrap();
        let flag = reader.read_u16().unwrap();
        let compression = reader.read_u16().unwrap();
        reader.skip(4).unwrap();
        let crc32 = reader.read_u32().unwrap();
        let compressed_size = reader.read_u32().unwrap();
        let uncompressed_size = reader.read_u32().unwrap();
        let file_name_len = reader.read_u16().unwrap();
        let extra_len = reader.read_u16().unwrap();
        let comment_len = reader.read_u16().unwrap();
        reader.skip(8).unwrap();
        let header_offset = reader.read_u32().unwrap();
        if !reader.has(file_name_len as usize + extra_len as usize + comment_len as usize) {
            return truncated(offset);
        }
        let file_name = match reader.read_string(file_name_len as usize) {
            Some(v) => v,
            None => {
                return Err(ZipError::NameNotUtf8 { offset });
            },
        };
        reader.skip(extra_len as usize + comment_len as usize).unwrap();
        Ok(
            Self {
                version,
                min_version,
                flag,
                compression,
                crc32,
                compressed_size,
                uncompressed_size,
                offset: header_offset,
                file_name,
            },
        )
    }
}

/// The end-of-central-directory record.
#[derive(Debug, Clone, Copy, PartialEq, Eq, Structural)]
pub struct EndOfCentralDirectoryHeader {
    pub disk_number: u16,
    pub disk_number_start: u16,
    pub num_central_directories_on_disk: u16,
    pub total_num_central_directories: u16,
    pub central_directory_size: u32,
    pub offset_to_start_of_central_directory: u32,
}

impl EndOfCentralDirectoryHeader {
    /// Reads the end-of-central-directory record at the cursor and moves past
    /// its comment.
    pub fn from_reader(reader: &mut Reader) -> (r: Result<Self, ZipError>)
        ensures
            final(reader).bytes() == old(reader).bytes(),
            r == end_header_at(old(reader).bytes(), old(reader).position()),
            r is Ok ==> final(reader).position() == old(reader).position() + 22 + u16_at(
                old(reader).bytes(),
                old(reader).position() + 20,
            ),
    {
        let ghost data = reader.bytes();
        let ghost pos = reader.position();
        reveal(end_header_at);
        let offset = reader.cursor;
        if !reader.has(22) {
            return truncated(offset);
        }
        proof {
            lemma_signature_number(data, pos, END_SIGNATURE@);
        }
        let signature = reader.read_u32().unwrap();
        if signature != 0x06054b50 {
            return Err(ZipError::BadSignature { offset });
        }
        let disk_number = reader.read_u16().unwrap();
        let disk_number_start = reader.read_u16().unwrap();
        let num_central_directories_on_disk = reader.read_u16().unwrap();
        let total_num_central_directories = reader.read_u16().unwrap();
        let central_directory_size = reader.read_u32().unwrap();
        let offset_to_start_of_central_directory = reader.read_u32().unwrap();
        let comment_len = reader.read_u16().unwrap();
        if reader.skip(comment_len as usize).is_none() {
            return truncated(offset);
        }
        Ok(
            Self {
                disk_number,
                disk_number_start,
                num_central_directories_on_disk,
                total_num_central_directories,
                central_directory_size,
                offset_to_start_of_central_directory,
            },
        )
    }
}

/// What an archive holds: its end-of-central-directory record and, for each
/// entry, the central directory header and the local file header.
pub struct Archive {
    pub eocd: EndOfCentralDirectoryHeader,
    pub entries: Seq<(CentralView, LocalView)>,
}

/// The next `count` entries of the central directory from `pos` on, after
/// those in `found`.  Each names the place of its local file header, which
/// must give the same compressed size.
pub open spec fn entries_from(
    data: Seq<u8>,
    pos: int,
    count: nat,
    found: Seq<(CentralView, LocalView)>,
) -> Result<Seq<(CentralView, LocalView)>, ZipError>
    decreases count,
{
    if count == 0 {
        Ok(found)
    } else {
        match central_header_at(data, pos) {
            Err(e) => Err(e),
            Ok((central, next)) => match local_header_at(data, central.offset as int) {
                Err(e) => Err(e),
                Ok(local) => if local.compressed_size != central.compressed_size {
                    Err(ZipError::SizeMismatch { index: found.len() as usize })
                } else {
                    entries_from(data, next, (count - 1) as nat, found.push((central, local)))
                },
            },
        }
    }
}

/// Where the search for the end-of-central-directory record starts.
pub open spec fn end_search_start(len: int) -> int {
    if len > END_SEARCH_WINDOW {
        len - END_SEARCH_WINDOW
    } else {
        0
    }
}

/// The archive that the bytes hold: the last end-of-central-directory
/// signature in the search window starts the record, which tells where the
/// central directory starts and how many entries it has.
pub open spec fn open_archive(data: Seq<u8>) -> Result<Archive, ZipError> {
    match last_signature(
        data,
        END_SIGNATURE@,
        end_search_start(data.len() as int),
        data.len() - 3,
    ) {
        None => Err(ZipError::MissingEndRecord),
        Some(pos) => match end_header_at(data, pos) {
            Err(e) => Err(e),
            Ok(eocd) => match entries_from(
                data,
                eocd.offset_to_start_of_central_directory as int,
                eocd.total_num_central_directories as nat,
                Seq::empty(),
            ) {
                Err(e) => Err(e),
                Ok(entries) => Ok(Archive { eocd, entries }),
            },
        },
    }
}

/// Whether each entry's central directory header names a place where a local
/// file header starts, and the two agree on the compressed size.
pub open spec fn entries_consistent(data: Seq<u8>, entries: Seq<(CentralView, LocalView)>) -> bool {
    forall|k: int|
        0 <= k < entries.len() ==> signature_at(
            data,
            (#[trigger] entries[k]).0.offset as int,
            LOCAL_SIGNATURE@,
        ) && entries[k].1.compressed_size == entries[k].0.compressed_size && local_header_at(
            data,
            entries[k].0.offset as int,
        ) == Ok::<LocalView, ZipError>(entries[k].1)
}

/// Entries that are read after consistent ones are consistent together with them.
pub proof fn lemma_entries_from_consistent(
    data: Seq<u8>,
    pos: int,
    count: nat,
    found: Seq<(CentralView, LocalView)>,
)
    requires
        entries_consistent(data, found),
    ensures
        entries_from(data, pos, count, found) matches Ok(entries) ==> entries_consistent(
            data,
            entries,
        ) && entries.len() == found.len() + count,
    decreases count,
{
    reveal(local_header_at);
    if count > 0 {
        if let Ok((central, next)) = central_header_at(data, pos) {
            if let Ok(local) = local_header_at(data, central.offset as int) {
                if local.compressed_size == central.compressed_size {
                    lemma_entries_from_consistent(
                        data,
                        next,
                        (count - 1) as nat,
                        found.push((central, local)),
                    );
                }
            }
        }
    }
}

/// In an archive that opens, every entry of the central directory names a
/// place where the signature of a local file header stands, and the local
/// header there gives the compressed size that the central directory gives.
pub proof fn lemma_archive_entries_consistent(data: Seq<u8>)
    requires
        open_archive(data) is Ok,
    ensures
        entries_consistent(data, open_archive(data)->Ok_0.entries),
        open_archive(data)->Ok_0.entries.len() == open_archive(
            data,
        )->Ok_0.eocd.total_num_central_directories,
{
    let pos = last_signature(
        data,
        END_SIGNATURE@,
        end_search_start(data.len() as int),
        data.len() - 3,
    )->Some_0;
    let eocd = end_header_at(data, pos)->Ok_0;
    lemma_entries_from_consistent(
        data,
        eocd.offset_to_start_of_central_directory as int,
        eocd.total_num_central_directories as nat,
        Seq::empty(),
    );
}

/// An opened archive.
#[derive(Debug)]
pub struct Zip {
    eocd: EndOfCentralDirectoryHeader,
    central_directory_headers: Vec<CentralDirectoryHeader>,
    local_file_headers: Vec<LocalFileHeader>,
}

/// A member of an archive: its name and its content as text.
#[derive(Debug)]
pub struct ZipFile {
    pub name: String,
    pub content: String,
}

impl View for Zip {
    type V = Archive;

    closed spec fn view(&self) -> Archive {
        Archive {
            eocd: self.eocd,
            entries: Seq::new(
                self.central_directory_headers@.len(),
                |k: int| (self.central_directory_headers@[k]@, self.local_file_headers@[k]@),
            ),
        }
    }
}

impl Zip {
    /// Each central directory header has its local file header.
    pub closed spec fn wf(&self) -> bool {
        self.central_directory_headers@.len() == self.local_file_headers@.len()
    }

    /// The place of the first member from `from` on whose content is not text.
    pub open spec fn first_not_text(entries: Seq<(CentralView, LocalView)>, from: int) -> Option<
        int,
    >
        decreases entries.len() - from,
    {
        if from < 0 || from >= entries.len() {
            None
        } else if utf8_text(entries[from].1.data) is None {
            Some(from)
        } else {
            Self::first_not_text(entries, from + 1)
        }
    }

    /// Opens the archive that the bytes of a file hold.
    #[verifier::loop_isolation(false)]
    pub fn from_file(data: Vec<u8>) -> (r: Result<Zip, ZipError>)
        ensures
            match r {
                Ok(zip) => {
                    &&& zip.wf()
                    &&& open_archive(data@) == Ok::<Archive, ZipError>(zip@)
                    &&& entries_consistent(data@, zip@.entries)
                },
                Err(e) => open_archive(data@) == Err::<Archive, ZipError>(e),
            },
    {
        let ghost bytes = data@;
        let mut reader = Reader::new(data);
        let len = reader.len();
        let start = if len > END_SEARCH_WINDOW {
            len - END_SEARCH_WINDOW
        } else {
            0
        };
        reader.seek(start);
        let pidx = match reader.find_prefix_rev(END_SIGNATURE.as_slice()) {
            Some(v) => v,
            None => {
                return Err(ZipError::MissingEndRecord);
            },
        };
        reader.seek(pidx);
        let eocd = match EndOfCentralDirectoryHeader::from_reader(&mut reader) {
            Ok(v) => v,
            Err(e) => {
                return Err(e);
            },
        };
        reader.seek(eocd.offset_to_start_of_central_directory as usize);
        let mut central_directory_headers: Vec<CentralDirectoryHeader> = Vec::new();
        let mut local_file_headers: Vec<LocalFileHeader> = Vec::new();
        let total = eocd.total_num_central_directories;
        let ghost first = reader.position();
        let ghost mut found: Seq<(CentralView, LocalView)> = Seq::empty();
        let mut i: u16 = 0;
        while i < total
            invariant
                i <= total,
                reader.bytes() == bytes,
                central_directory_headers@.len() == i,
                local_file_headers@.len() == i,
                found.len() == i,
                forall|k: int|
                    0 <= k < i ==> #[trigger] found[k] == (
                        central_directory_headers@[k]@,
                        local_file_headers@[k]@,
                    ),
                entries_from(bytes, reader.position(), (total - i) as nat, found) == entries_from(
                    bytes,
                    first,
                    total as nat,
                    Seq::empty(),
                ),
            decreases total - i,
        {
            let cdh = match CentralDirectoryHeader::from_reader(&mut reader) {
                Ok(v) => v,
                Err(e) => {
                    return Err(e);
                },
            };
            let saved_cursor = reader.cursor;
            reader.seek(cdh.offset as usize);
            let lfh = match LocalFileHeader::from_reader(&mut reader) {
                Ok(v) => v,
                Err(e) => {
                    return Err(e);
                },
            };
            if lfh.compressed_size != cdh.compressed_size {
                return Err(ZipError::SizeMismatch { index: i as usize });
            }
            reader.seek(saved_cursor);
            proof {
                found = found.push((cdh@, lfh@));
            }
            central_directory_headers.push(cdh);
            local_file_headers.push(lfh);
            i += 1;
        }
        let zip = Zip { eocd, central_directory_headers, local_file_headers };
        proof {
            assert(zip@.entries =~= found);
            lemma_archive_entries_consistent(bytes);
        }
        Ok(zip)
    }

    /// How many members the archive has.
    pub fn len(&self) -> (n: usize)
        requires
            self.wf(),
        ensures
            n == self@.entries.len(),
    {
        self.central_directory_headers.len()
    }

    /// The members of the archive, each with its name and its content as
    /// text.  Fails at the first member whose content is not valid UTF-8.
    pub fn extract_files(&self) -> (r: Result<Vec<ZipFile>, ZipError>)
        requires
            self.wf(),
        ensures
            match r {
                Ok(files) => {
                    &&& Self::first_not_text(self@.entries, 0) is None
                    &&& files@.len() == self@.entries.len()
                    &&& forall|k: int|
                        0 <= k < files@.len() ==> (#[trigger] files@[k]).name@
                            == self@.entries[k].0.file_name && Some(files@[k].content@)
                            == utf8_text(self@.entries[k].1.data)
                },
                Err(e) => e matches ZipError::ContentNotUtf8 { index } && Self::first_not_text(
                    self@.entries,
                    0,
                ) == Some(index as int),
            },
    {
        let mut files: Vec<ZipFile> = Vec::new();
        let mut i: usize = 0;
        while i < self.central_directory_headers.len()
            invariant
                self.wf(),
                i <= self.central_directory_headers@.len(),
                files@.len() == i,
                Self::first_not_text(self@.entries, i as int) == Self::first_not_text(
                    self@.entries,
                    0,
                ),
                forall|k: int|
                    0 <= k < i ==> (#[trigger] files@[k]).name@ == self@.entries[k].0.file_name
                        && Some(files@[k].content@) == utf8_text(self@.entries[k].1.data),
            decreases self.central_directory_headers@.len() - i,
        {
            let name = self.central_directory_headers[i].file_name.clone();
            let lfh = &self.local_file_headers[i];
            let content = match text_of_bytes(slice_to_vec(lfh.data.as_slice())) {
                Some(v) => v,
                None => {
                    return Err(ZipError::ContentNotUtf8 { index: i });
                },
            };
            files.push(ZipFile { name, content });
            i += 1;
        }
        Ok(files)
    }
}

} // verus!
