use csvim::inflate::{copy_back_reference, decompress, InflateError, Method};

#[test]
fn test_decompress_block_type0() {
    let data = vec![1, 8, 0, 247, 255, 82, 97, 119, 32, 68, 97, 116, 97];
    let bytes_window = decompress(&data).unwrap();
    let text = "Raw Data";
    assert_eq!(std::str::from_utf8(&bytes_window[..]).unwrap(), text.to_string());
}

#[test]
fn test_decompress_block_type1() {
    let data = vec![
        243, 72, 205, 201, 201, 215, 81, 240, 192, 70, 85, 101, 22, 40, 114, 1, 0,
    ];

    let bytes_window = decompress(&data).unwrap();
    let text = "Hello, Hello, Hello, Hello, zip!\n";

    assert_eq!(std::str::from_utf8(&bytes_window[..]).unwrap(), text.to_string());
}

#[test]
fn test_decompress_block_type2() {
    let data = vec![
        213, 143, 49, 82, 68, 33, 16, 68, 115, 78, 209, 153, 137, 151, 208, 140, 196, 68, 61,
        0, 43, 243, 63, 212, 2, 67, 193, 80, 236, 191, 189, 195, 95, 215, 19, 152, 88, 53, 9,
        211, 205, 244, 107, 43, 232, 226, 154, 144, 199, 140, 18, 224, 144, 120, 34, 197, 61,
        200, 179, 121, 163, 155, 64, 66, 44, 59, 44, 174, 133, 166, 62, 232, 64, 139, 181, 170,
        127, 107, 156, 145, 15, 92, 200, 155, 151, 226, 151, 86, 238, 6, 97, 190, 158, 74, 98,
        214, 253, 81, 201, 88, 65, 162, 77, 244, 126, 151, 230, 202, 78, 136, 185, 54, 234, 61,
        114, 129, 142, 186, 3, 57, 111, 140, 197, 116, 189, 60, 41, 214, 104, 132, 25, 156, 18,
        48, 60, 155, 215, 33, 15, 10, 139, 224, 252, 125, 141, 206, 153, 78, 68, 243, 206, 42,
        156, 209, 14, 158, 168, 226, 210, 200, 73, 56, 217, 236, 111, 75, 253, 213, 70, 89, 57,
        138, 129, 81, 36, 38, 85, 191, 120, 36, 191, 82, 93, 57, 50, 55, 50, 31, 171, 204, 31,
        120, 62, 127, 132, 101, 98, 109, 192, 219, 3, 235, 63, 53, 53, 223,
    ];

    let bytes_window = decompress(&data).unwrap();
    let text = "It started with a low light,
Next thing I knew they ripped from my bed
And then they took my blood type
It left a strange impression on my head

I wasn't sure what to do
But I knew I had to do something
So I took a deep breath
And I started to run

I ran until I couldn't anymore
Then I ran until I couldn't anymore
Then I ran until I couldn't anymore
Until I ran out of breath

I wasn't sure what to do
But I knew I had to do something
So I took a deep breath
And I started to run

I ran until I couldn't anymore
Then I ran until I couldn't anymore

";

    assert_eq!(std::str::from_utf8(&bytes_window[..]).unwrap(), text.to_string());
}

#[test]
fn stored_block_of_length_zero() {
    let data = vec![1, 0, 0, 255, 255];
    assert_eq!(decompress(&data), Ok(vec![]));
}

#[test]
fn two_stored_blocks() {
    let data = vec![0, 2, 0, 253, 255, 104, 105, 1, 0, 0, 255, 255];
    assert_eq!(decompress(&data), Ok(b"hi".to_vec()));
}

#[test]
fn stored_block_starts_at_the_next_byte_boundary() {
    // a fixed block with the literal 'a', then a stored block with "bc"
    let data = vec![74, 4, 4, 2, 0, 253, 255, 98, 99];
    assert_eq!(decompress(&data), Ok(b"abc".to_vec()));
}

#[test]
fn back_reference_of_distance_one_repeats_the_last_byte() {
    // the literal 'a', then length 258 at distance 1
    let data = vec![75, 28, 5, 0];
    let out = decompress(&data).unwrap();
    assert_eq!(out.len(), 259);
    assert!(out.iter().all(|&b| b == b'a'));
}

#[test]
fn every_copied_byte_equals_the_byte_at_its_distance() {
    let data = vec![
        243, 72, 205, 201, 201, 215, 81, 240, 192, 70, 85, 101, 22, 40, 114, 1, 0,
    ];
    let out = decompress(&data).unwrap();
    // "Hello, " is written once; the next 21 bytes are one copy at distance 7
    for i in 7..28 {
        assert_eq!(out[i], out[i - 7]);
    }
}

#[test]
fn input_after_the_last_block_is_not_read() {
    let mut data = vec![1, 8, 0, 247, 255, 82, 97, 119, 32, 68, 97, 116, 97];
    let short = decompress(&data).unwrap();
    data.extend_from_slice(&[1, 2, 3, 255]);
    assert_eq!(decompress(&data).unwrap(), short);
}

#[test]
fn dynamic_block_whose_zero_runs_end_with_the_alphabet() {
    // 138 and 118 zeros, then one length for the end-of-block symbol
    let data = vec![5, 192, 129, 8, 0, 0, 0, 0, 32, 127, 235, 3];
    assert_eq!(decompress(&data), Ok(vec![]));
}

#[test]
fn dynamic_block_whose_zero_run_passes_the_alphabet() {
    // 138 and 120 zeros where 257 lengths are expected
    let data = vec![5, 192, 129, 8, 0, 0, 0, 0, 32, 127, 109];
    assert_eq!(decompress(&data), Err(InflateError::CodeLengthOverrun));
}

#[test]
fn dynamic_block_with_too_many_codes() {
    let data = vec![245, 192, 129, 8, 0, 0, 0, 0, 32];
    assert_eq!(decompress(&data), Err(InflateError::InvalidCodeCount));
}

#[test]
fn dynamic_block_without_any_code() {
    let data = vec![5, 192, 129, 8, 0, 0, 0, 0, 32, 127, 236, 0];
    assert_eq!(decompress(&data), Err(InflateError::UnknownCode));
}

#[test]
fn reserved_block_type() {
    assert_eq!(decompress(&[7]), Err(InflateError::ReservedBlockType));
}

#[test]
fn stored_block_with_wrong_complement() {
    assert_eq!(decompress(&[1, 1, 0, 0, 0, 65]), Err(InflateError::LengthMismatch));
}

#[test]
fn stored_block_shorter_than_its_length() {
    assert_eq!(decompress(&[1, 3, 0, 252, 255, 65]), Err(InflateError::Truncated));
}

#[test]
fn back_reference_before_the_start() {
    assert_eq!(decompress(&[3, 2, 0]), Err(InflateError::DistanceTooFar));
}

#[test]
fn reserved_length_symbol() {
    assert_eq!(decompress(&[27, 3]), Err(InflateError::ReservedSymbol));
}

#[test]
fn reserved_distance_symbol() {
    assert_eq!(decompress(&[75, 4, 62, 0]), Err(InflateError::ReservedSymbol));
}

#[test]
fn truncated_stream() {
    assert_eq!(decompress(&[243, 72]), Err(InflateError::Truncated));
    assert_eq!(decompress(&[]), Err(InflateError::Truncated));
}

#[test]
fn method_of_the_two_header_bits() {
    assert_eq!(Method::from_u16(0), Method::Stored);
    assert_eq!(Method::from_u16(1), Method::Fixed);
    assert_eq!(Method::from_u16(2), Method::Dynamic);
    assert_eq!(Method::from_u16(3), Method::Invalid);
}

#[test]
fn copy_with_overlap() {
    let mut out = b"ab".to_vec();
    copy_back_reference(&mut out, 2, 5);
    assert_eq!(out, b"abababa".to_vec());
}
