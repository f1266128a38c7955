use csvim::bitstream::Bitstream;
use csvim::huffman::{gen_code_map, reverse_u16_bits};
use csvim::inflate::InflateError;

#[test]
fn bits_come_least_significant_first() {
    let mut s = Bitstream::new(vec![0b1010_0110, 0xff]);
    assert_eq!(s.readbits(1), Ok(0));
    assert_eq!(s.readbits(2), Ok(0b11));
    assert_eq!(s.readbits(5), Ok(0b10100));
    assert_eq!(s.readbits(8), Ok(0xff));
    assert_eq!(s.readbits(1), Err(InflateError::Truncated));
}

#[test]
fn a_field_may_span_bytes() {
    let mut s = Bitstream::new(vec![0x34, 0x12, 0xcd, 0xab]);
    assert_eq!(s.readbits(4), Ok(0x4));
    assert_eq!(s.readbits(16), Ok(0xd123));
    assert_eq!(s.readbits(12), Ok(0xabc));
}

#[test]
fn no_bits_read_as_zero() {
    let mut s = Bitstream::new(vec![]);
    assert_eq!(s.readbits(0), Ok(0));
    assert_eq!(s.needbits(1), Err(InflateError::Truncated));
}

#[test]
fn peek_does_not_consume() {
    let mut s = Bitstream::new(vec![0b0000_0101]);
    assert_eq!(s.needbits(3), Ok(()));
    assert_eq!(s.getbits(3), 0b101);
    assert_eq!(s.getbits(3), 0b101);
    s.dumpbits(1);
    assert_eq!(s.getbits(2), 0b10);
}

#[test]
fn align_drops_the_rest_of_the_byte() {
    let mut s = Bitstream::new(vec![0xff, 0x2a]);
    assert_eq!(s.readbits(3), Ok(7));
    s.align_to_byte();
    assert_eq!(s.readbits(8), Ok(0x2a));
    s.align_to_byte();
    assert_eq!(s.readbits(1), Err(InflateError::Truncated));
}

#[test]
fn reversing_bits() {
    assert_eq!(reverse_u16_bits(0b1, 1), 0b1);
    assert_eq!(reverse_u16_bits(0b110, 3), 0b011);
    assert_eq!(reverse_u16_bits(0b0011_0000, 8), 0b0000_1100);
    assert_eq!(reverse_u16_bits(0xffff, 4), 0xf);
    assert_eq!(reverse_u16_bits(0x8001, 16), 0x8001);
    assert_eq!(reverse_u16_bits(0x1234, 0), 0);
}

#[test]
fn canonical_codes_of_a_small_alphabet() {
    // lengths 3,3,3,3,3,2,4,4 give the codes 010,011,100,101,110,00,1110,1111
    let map = gen_code_map(&[3, 3, 3, 3, 3, 2, 4, 4]);
    assert_eq!(map.min_len(), 2);
    assert_eq!(map.max_len(), 4);
    assert_eq!(map.lookup(0b00, 2), Some(5));
    assert_eq!(map.lookup(0b010, 3), Some(0));
    assert_eq!(map.lookup(0b110, 3), Some(1));
    assert_eq!(map.lookup(0b001, 3), Some(2));
    assert_eq!(map.lookup(0b101, 3), Some(3));
    assert_eq!(map.lookup(0b011, 3), Some(4));
    assert_eq!(map.lookup(0b0111, 4), Some(6));
    assert_eq!(map.lookup(0b1111, 4), Some(7));
    assert_eq!(map.lookup(0b111, 3), None);
    assert_eq!(map.lookup(0b01, 2), None);
}

#[test]
fn symbols_without_a_code_are_left_out() {
    let map = gen_code_map(&[0, 1, 0, 1]);
    assert_eq!(map.min_len(), 1);
    assert_eq!(map.max_len(), 1);
    assert_eq!(map.lookup(0, 1), Some(1));
    assert_eq!(map.lookup(1, 1), Some(3));
    let none = gen_code_map(&[0, 0]);
    assert_eq!(none.min_len(), 15);
    assert_eq!(none.max_len(), 0);
}

#[test]
fn a_later_symbol_replaces_an_earlier_one_under_the_same_key() {
    // three codes of one bit: the third wraps round to the key of the first
    let map = gen_code_map(&[1, 1, 1]);
    assert_eq!(map.lookup(0, 1), Some(2));
    assert_eq!(map.lookup(1, 1), Some(1));
}

#[test]
fn decoding_one_symbol() {
    let map = gen_code_map(&[3, 3, 3, 3, 3, 2, 4, 4]);
    // the codes 00 (5), 1110 (6), 010 (0), first bit first
    let mut s = Bitstream::new(vec![0b1001_1100, 0b0000_0000]);
    assert_eq!(map.decode(&mut s), Ok(5));
    assert_eq!(map.decode(&mut s), Ok(6));
    assert_eq!(map.decode(&mut s), Ok(0));
    let empty = gen_code_map(&[0]);
    assert_eq!(empty.decode(&mut s), Err(InflateError::UnknownCode));
    let mut short = Bitstream::new(vec![]);
    assert_eq!(map.decode(&mut short), Err(InflateError::Truncated));
}

/// The canonical code of each symbol, most significant bit first, by the
/// rule that codes of one length are consecutive and follow, doubled, those
/// of the length before.
fn canonical(lens: &[u8]) -> Vec<(u16, u8)> {
    let mut counts = [0u32; 16];
    for &l in lens {
        if l > 0 {
            counts[l as usize] += 1;
        }
    }
    let mut next = [0u32; 16];
    let mut code = 0;
    for l in 1..16 {
        code = (code + counts[l - 1]) << 1;
        next[l] = code;
    }
    lens.iter()
        .map(|&l| {
            let c = next[l as usize];
            if l > 0 {
                next[l as usize] += 1;
            }
            (c as u16, l)
        })
        .collect()
}

fn fixed_literal_lens() -> Vec<u8> {
    let mut lens = vec![8u8; 144];
    lens.extend(vec![9u8; 112]);
    lens.extend(vec![7u8; 24]);
    lens.extend(vec![8u8; 8]);
    lens
}

#[test]
fn the_table_leads_from_every_code_back_to_its_symbol() {
    let lens = fixed_literal_lens();
    let map = gen_code_map(&lens);
    assert_eq!(map.min_len(), 7);
    assert_eq!(map.max_len(), 9);
    for (symbol, &(code, len)) in canonical(&lens).iter().enumerate() {
        let key = reverse_u16_bits(code, len as usize);
        assert_eq!(map.lookup(key, len as usize), Some(symbol as u16));
    }
}

#[test]
fn no_code_is_the_beginning_of_another() {
    let lens = fixed_literal_lens();
    let codes = canonical(&lens);
    for (i, &(short, short_len)) in codes.iter().enumerate() {
        assert!((short as u32) < (1 << short_len));
        for (j, &(long, long_len)) in codes.iter().enumerate() {
            if i != j && short_len <= long_len {
                assert_ne!(long >> (long_len - short_len), short);
            }
        }
    }
}

#[test]
fn codes_of_the_fixed_alphabet() {
    let map = gen_code_map(&fixed_literal_lens());
    // 'A' is 0x30 + 65 in eight bits, the end of block is seven zeros
    assert_eq!(map.lookup(reverse_u16_bits(0x30 + 65, 8), 8), Some(65));
    assert_eq!(map.lookup(0, 7), Some(256));
    assert_eq!(map.lookup(reverse_u16_bits(0b110010000, 9), 9), Some(144));
    assert_eq!(map.lookup(reverse_u16_bits(0b11000111, 8), 8), Some(287));
    assert_eq!(map.lookup(reverse_u16_bits(0b11001000, 8), 8), None);
}
