use csvim::inflate::InflateError;
use csvim::zip::{
    CentralDirectoryHeader, EndOfCentralDirectoryHeader, LocalFileHeader, Reader, Zip, ZipError,
};

fn open(data: Vec<u8>) -> Result<usize, ZipError> {
    Zip::from_file(data).map(|zip| zip.len())
}

/// An archive with "a.txt" (stored, "hi") and "b.txt" (DEFLATE, "hello").
fn two_files() -> Vec<u8> {
    vec![
        80, 75, 3, 4, 20, 0, 0, 0, 0, 0, 0, 0, 33, 80, 172, 42, 147, 216, 2, 0, 0, 0, 2, 0, 0,
        0, 5, 0, 0, 0, 97, 46, 116, 120, 116, 104, 105, 80, 75, 3, 4, 20, 0, 0, 0, 8, 0, 0, 0,
        33, 80, 134, 166, 16, 54, 7, 0, 0, 0, 5, 0, 0, 0, 5, 0, 0, 0, 98, 46, 116, 120, 116,
        203, 72, 205, 201, 201, 7, 0, 80, 75, 1, 2, 20, 3, 20, 0, 0, 0, 0, 0, 0, 0, 33, 80,
        172, 42, 147, 216, 2, 0, 0, 0, 2, 0, 0, 0, 5, 0, 0, 0, 0, 0, 0, 0, 0, 0, 0, 0, 128, 1,
        0, 0, 0, 0, 97, 46, 116, 120, 116, 80, 75, 1, 2, 20, 3, 20, 0, 0, 0, 8, 0, 0, 0, 33,
        80, 134, 166, 16, 54, 7, 0, 0, 0, 5, 0, 0, 0, 5, 0, 0, 0, 0, 0, 0, 0, 0, 0, 0, 0, 128,
        1, 37, 0, 0, 0, 98, 46, 116, 120, 116, 80, 75, 5, 6, 0, 0, 0, 0, 2, 0, 2, 0, 102, 0, 0,
        0, 79, 0, 0, 0, 0, 0,
    ]
}

#[test]
fn archive_with_a_stored_and_a_deflated_member() {
    let zip = Zip::from_file(two_files()).unwrap();
    assert_eq!(zip.len(), 2);
    let files = zip.extract_files().unwrap();
    assert_eq!(files.len(), 2);
    assert_eq!(files[0].name, "a.txt");
    assert_eq!(files[0].content, "hi");
    assert_eq!(files[1].name, "b.txt");
    assert_eq!(files[1].content, "hello");
}

#[test]
fn central_directory_points_at_local_headers() {
    let data = two_files();
    let mut reader = Reader::new(data.clone());
    reader.seek(79);
    let first = CentralDirectoryHeader::from_reader(&mut reader).unwrap();
    let second = CentralDirectoryHeader::from_reader(&mut reader).unwrap();
    for central in [&first, &second] {
        let at = central.offset as usize;
        assert_eq!(&data[at..at + 4], &[0x50, 0x4b, 0x03, 0x04]);
        reader.seek(at);
        let local = LocalFileHeader::from_reader(&mut reader).unwrap();
        assert_eq!(local.compressed_size, central.compressed_size);
    }
    assert_eq!(first.file_name, "a.txt");
    assert_eq!(first.compression, 0);
    assert_eq!(first.offset, 0);
    assert_eq!(second.file_name, "b.txt");
    assert_eq!(second.compression, 8);
    assert_eq!(second.compressed_size, 7);
    assert_eq!(second.uncompressed_size, 5);
    assert_eq!(second.offset, 37);
}

#[test]
fn end_of_central_directory_record() {
    let mut reader = Reader::new(two_files());
    let at = reader.find_prefix_rev(&[0x50, 0x4b, 0x05, 0x06]).unwrap();
    assert_eq!(at, 181);
    reader.seek(at);
    let eocd = EndOfCentralDirectoryHeader::from_reader(&mut reader).unwrap();
    assert_eq!(eocd.total_num_central_directories, 2);
    assert_eq!(eocd.num_central_directories_on_disk, 2);
    assert_eq!(eocd.central_directory_size, 102);
    assert_eq!(eocd.offset_to_start_of_central_directory, 79);
}

#[test]
fn local_header_with_its_payload() {
    let mut reader = Reader::new(two_files());
    reader.seek(37);
    let local = LocalFileHeader::from_reader(&mut reader).unwrap();
    assert_eq!(local.compression, 8);
    assert_eq!(local.min_version, 20);
    assert_eq!(local.compressed_size, 7);
    assert_eq!(local.uncompressed_size, 5);
    assert_eq!(local.data, b"hello".to_vec());
    reader.seek(1);
    assert_eq!(
        LocalFileHeader::from_reader(&mut reader).unwrap_err(),
        ZipError::BadSignature { offset: 1 }
    );
    reader.seek(190);
    assert_eq!(
        LocalFileHeader::from_reader(&mut reader).unwrap_err(),
        ZipError::Truncated { offset: 190 }
    );
    reader.seek(0);
    assert_eq!(
        CentralDirectoryHeader::from_reader(&mut reader).unwrap_err(),
        ZipError::BadSignature { offset: 0 }
    );
    reader.seek(79);
    assert_eq!(
        EndOfCentralDirectoryHeader::from_reader(&mut reader).unwrap_err(),
        ZipError::BadSignature { offset: 79 }
    );
}

#[test]
fn archive_without_end_record() {
    let mut data = two_files();
    data[181] = 0;
    assert_eq!(open(data), Err(ZipError::MissingEndRecord));
    assert_eq!(open(vec![]), Err(ZipError::MissingEndRecord));
    assert_eq!(open(vec![0x50, 0x4b, 0x05]), Err(ZipError::MissingEndRecord));
}

#[test]
fn truncated_archive() {
    let data = two_files();
    assert_eq!(open(data[..data.len() - 1].to_vec()), Err(ZipError::Truncated { offset: 181 }));
    // without its first 60 bytes the central directory is sought 60 bytes too far
    assert_eq!(open(data[60..].to_vec()), Err(ZipError::BadSignature { offset: 79 }));
    assert_eq!(open(vec![0x50, 0x4b, 0x05, 0x06]), Err(ZipError::Truncated { offset: 0 }));
}

#[test]
fn member_with_an_unknown_method() {
    let mut data = two_files();
    data[8] = 12;
    assert_eq!(open(data), Err(ZipError::UnsupportedMethod { offset: 0, method: 12 }));
}

#[test]
fn member_whose_local_header_is_missing() {
    let mut data = two_files();
    data[39] = 0;
    assert_eq!(open(data), Err(ZipError::BadSignature { offset: 37 }));
}

#[test]
fn member_whose_sizes_disagree() {
    // the central directory says 1 byte where the local header says 2
    let mut data = two_files();
    data[79 + 20] = 1;
    assert_eq!(open(data), Err(ZipError::SizeMismatch { index: 0 }));
}

#[test]
fn member_whose_stream_is_broken() {
    let mut data = two_files();
    data[72] = 7;
    assert_eq!(
        open(data),
        Err(ZipError::Inflate { offset: 37, error: InflateError::ReservedBlockType })
    );
}

#[test]
fn member_that_is_not_text() {
    let mut data = two_files();
    data[35] = 0xff;
    let zip = Zip::from_file(data).unwrap();
    assert_eq!(zip.extract_files().unwrap_err(), ZipError::ContentNotUtf8 { index: 0 });
}

#[test]
fn member_whose_name_is_not_text() {
    let mut data = two_files();
    data[79 + 46] = 0xff;
    assert_eq!(open(data), Err(ZipError::NameNotUtf8 { offset: 79 }));
}

#[test]
fn end_record_is_sought_near_the_end_only() {
    let mut data = two_files();
    data.extend(std::iter::repeat(0u8).take(70000));
    assert_eq!(open(data), Err(ZipError::MissingEndRecord));
}

#[test]
fn end_record_with_a_comment() {
    let mut data = two_files();
    let n = data.len();
    data[n - 2] = 3;
    data.extend_from_slice(b"abc");
    let zip = Zip::from_file(data.clone()).unwrap();
    assert_eq!(zip.len(), 2);
    data.pop();
    assert_eq!(open(data), Err(ZipError::Truncated { offset: 181 }));
}

#[test]
fn reading_numbers() {
    let mut reader = Reader::new(vec![0x34, 0x12, 0x78, 0x56, 0x34, 0x12, 0xff]);
    assert_eq!(reader.len(), 7);
    assert_eq!(reader.read_u16(), Some(0x1234));
    assert_eq!(reader.peek_u32(), Some(0x12345678));
    assert_eq!(reader.read_u32(), Some(0x12345678));
    assert_eq!(reader.read_u16(), None);
    assert_eq!(reader.read_u32(), None);
    assert_eq!(reader.read_byte(), Some(0xff));
    assert_eq!(reader.read_byte(), None);
    reader.seek(100);
    assert_eq!(reader.read_byte(), None);
    assert_eq!(reader.peek_u32(), None);
}

#[test]
fn reading_bytes_and_text() {
    let mut reader = Reader::new(b"abc\xffdef".to_vec());
    assert_eq!(reader.read_string(3), Some("abc".to_string()));
    assert_eq!(reader.read_string(2), None);
    reader.seek(3);
    assert_eq!(reader.read_vec(1), Some(vec![0xff]));
    assert_eq!(reader.skip(1), Some(()));
    assert_eq!(reader.read_vec(3), None);
    assert_eq!(reader.read_vec(2), Some(b"ef".to_vec()));
    assert_eq!(reader.read_vec(0), Some(vec![]));
    assert_eq!(reader.skip(1), None);
}

#[test]
fn finding_a_prefix() {
    let mut reader = Reader::new(b"xxabxxabxx".to_vec());
    assert_eq!(reader.find_prefix(b"ab"), Some(2));
    assert_eq!(reader.find_prefix_rev(b"ab"), Some(6));
    reader.seek(3);
    assert_eq!(reader.find_prefix(b"ab"), Some(6));
    reader.seek(7);
    assert_eq!(reader.find_prefix(b"ab"), None);
    assert_eq!(reader.find_prefix_rev(b"ab"), None);
    assert_eq!(reader.find_prefix_rev(b"xx"), Some(8));
    assert_eq!(reader.find_prefix(b"abcdefghijklmnop"), None);
}
