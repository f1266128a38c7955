//! A decoder for raw DEFLATE streams: stored, fixed Huffman and dynamic Huffman blocks.

use vstd::prelude::*;
use vstd::slice::slice_to_vec;
use crate::bitstream::{
    bits_value, lemma_bits_value_bound, lemma_bits_value_byte, lemma_bits_value_extends,
    next_byte_boundary, Bitstream,
};
use crate::huffman::{
    decode_symbol, gen_code_map, lemma_decode_symbol_advances, lemma_decode_symbol_extends,
    CodeMap,
};

verus! {

/// Why a DEFLATE stream could not be decoded.
#[derive(Debug, Clone, Copy, PartialEq, Eq, Structural)]
pub enum InflateError {
    /// The input ended while more bits were required.
    Truncated,
    /// A block announced the reserved type `11`.
    ReservedBlockType,
    /// In a stored block, `nlen` is not the one's complement of `len`.
    LengthMismatch,
    /// A dynamic block announced more codes than its alphabet has.
    InvalidCodeCount,
    /// A run of code lengths went past the end of its alphabet.
    CodeLengthOverrun,
    /// The bits at hand spell no code of the table in use.
    UnknownCode,
    /// A symbol that the format reserves was decoded.
    ReservedSymbol,
    /// A back-reference reached before the start of the output.
    DistanceTooFar,
}

/// The kind of a block, as its two header bits announce it.
#[derive(Debug, Clone, Copy, PartialEq, Eq, Structural)]
pub enum Method {
    Stored,
    Fixed,
    Dynamic,
    Invalid,
}

impl Method {
    /// The kind that the two header bits `n` announce.
    pub open spec fn of(n: nat) -> Method {
        if n == 0 {
            Method::Stored
        } else if n == 1 {
            Method::Fixed
        } else if n == 2 {
            Method::Dynamic
        } else {
            Method::Invalid
        }
    }

    /// The kind that the two header bits `n` announce.
    pub fn from_u16(n: u16) -> (m: Method)
        ensures
            m == Method::of(n as nat),
    {
        match n {
            0 => Method::Stored,
            1 => Method::Fixed,
            2 => Method::Dynamic,
            _ => Method::Invalid,
        }
    }
}

/// Base lengths of the length symbols 257..=285.
pub const LENGTH_BASE: [u16; 29] = [
    3, 4, 5, 6, 7, 8, 9, 10, 11, 13, 15, 17, 19, 23, 27, 31, 35, 43, 51, 59, 67, 83, 99, 115, 131,
    163, 195, 227, 258,
];

/// Extra bits of the length symbols 257..=285.
pub const LENGTH_EXTRA: [u8; 29] = [
    0, 0, 0, 0, 0, 0, 0, 0, 1, 1, 1, 1, 2, 2, 2, 2, 3, 3, 3, 3, 4, 4, 4, 4, 5, 5, 5, 5, 0,
];

/// Base distances of the distance symbols 0..=29.
pub const DIST_BASE: [u16; 30] = [
    1, 2, 3, 4, 5, 7, 9, 13, 17, 25, 33, 49, 65, 97, 129, 193, 257, 385, 513, 769, 1025, 1537,
    2049, 3073, 4097, 6145, 8193, 12289, 16385, 24577,
];

/// Extra bits of the distance symbols 0..=29.
pub const DIST_EXTRA: [u8; 30] = [
    0, 0, 0, 0, 1, 1, 2, 2, 3, 3, 4, 4, 5, 5, 6, 6, 7, 7, 8, 8, 9, 9, 10, 10, 11, 11, 12, 12, 13,
    13,
];

/// The order in which a dynamic block sends the lengths of the code length codes.
pub const CL_ORDER: [u8; 19] = [16, 17, 18, 0, 8, 7, 9, 6, 10, 5, 11, 4, 12, 3, 13, 2, 14, 1, 15];

/// Reading `n` bits at `pos`: their value and the position after them.
pub open spec fn read_bits(data: Seq<u8>, pos: int, n: nat) -> Result<(nat, int), InflateError> {
    if pos + n <= 8 * data.len() {
        Ok((bits_value(data, pos, n), pos + n))
    } else {
        Err(InflateError::Truncated)
    }
}

/// The output after a back-reference: `len` bytes, each the byte that stands
/// `dist` places before the end at the moment it is added.
pub open spec fn lz77_copy(out: Seq<u8>, dist: int, len: nat) -> Seq<u8>
    decreases len,
{
    if len == 0 {
        out
    } else {
        lz77_copy(out.push(out[out.len() - dist]), dist, (len - 1) as nat)
    }
}

/// A back-reference keeps what was there and adds `len` bytes, each equal to
/// the byte `dist` places before it in the output as it then stands.
pub proof fn lemma_lz77_copy(out: Seq<u8>, dist: int, len: nat)
    requires
        1 <= dist <= out.len(),
    ensures
        lz77_copy(out, dist, len).len() == out.len() + len,
        forall|i: int| 0 <= i < out.len() ==> lz77_copy(out, dist, len)[i] == out[i],
        forall|i: int|
            out.len() <= i < out.len() + len ==> #[trigger] lz77_copy(out, dist, len)[i]
                == lz77_copy(out, dist, len)[i - dist],
    decreases len,
{
    if len > 0 {
        let next = out.push(out[out.len() - dist]);
        lemma_lz77_copy(next, dist, (len - 1) as nat);
        let all = lz77_copy(out, dist, len);
        assert(all == lz77_copy(next, dist, (len - 1) as nat));
        assert forall|i: int| 0 <= i < out.len() implies all[i] == out[i] by {
            assert(all[i] == next[i]);
        }
        assert forall|i: int| out.len() <= i < out.len() + len implies #[trigger] all[i] == all[i
            - dist] by {
            if i == out.len() {
                assert(all[i] == next[i]);
                assert(all[i - dist] == out[i - dist]);
            }
        }
    }
}

/// Appends a back-reference of `len` bytes at distance `dist`, byte by byte,
/// so that a distance below the length repeats what the copy itself wrote.
pub fn copy_back_reference(out: &mut Vec<u8>, dist: usize, len: usize)
    requires
        1 <= dist <= old(out)@.len(),
    ensures
        final(out)@ == lz77_copy(old(out)@, dist as int, len as nat),
        final(out)@.len() == old(out)@.len() + len,
        forall|i: int| 0 <= i < old(out)@.len() ==> final(out)@[i] == old(out)@[i],
        forall|i: int|
            #![trigger final(out)@[i]]
            old(out)@.len() <= i < old(out)@.len() + len ==> final(out)@[i] == final(out)@[i
                - dist],
{
    let mut k: usize = 0;
    while k < len
        invariant
            k <= len,
            1 <= dist <= old(out)@.len(),
            out@.len() == old(out)@.len() + k,
            lz77_copy(out@, dist as int, (len - k) as nat) == lz77_copy(
                old(out)@,
                dist as int,
                len as nat,
            ),
        decreases len - k,
    {
        let byte = out[out.len() - dist];
        out.push(byte);
        k += 1;
    }
    proof {
        lemma_lz77_copy(old(out)@, dist as int, len as nat);
    }
}

/// What follows a length symbol: its extra bits, a distance symbol and the
/// extra bits of that.  Gives the length, the distance and the position after.
pub open spec fn decode_back_reference(
    dist_lens: Seq<u8>,
    data: Seq<u8>,
    pos: int,
    symbol: nat,
) -> Result<(nat, nat, int), InflateError>
    recommends
        257 <= symbol <= 285,
{
    let index = symbol - 257;
    match read_bits(data, pos, LENGTH_EXTRA@[index] as nat) {
        Err(e) => Err(e),
        Ok((extra, pos1)) => match decode_symbol(dist_lens, data, pos1) {
            Err(e) => Err(e),
            Ok((dist_symbol, pos2)) => if dist_symbol >= 30 {
                Err(InflateError::ReservedSymbol)
            } else {
                match read_bits(data, pos2, DIST_EXTRA@[dist_symbol as int] as nat) {
                    Err(e) => Err(e),
                    Ok((dist_extra, pos3)) => Ok(
                        (
                            LENGTH_BASE@[index] as nat + extra,
                            DIST_BASE@[dist_symbol as int] as nat + dist_extra,
                            pos3,
                        ),
                    ),
                }
            },
        },
    }
}

/// What follows a length symbol ends inside the input, not before its start.
pub proof fn lemma_back_reference_advances(
    dist_lens: Seq<u8>,
    data: Seq<u8>,
    pos: int,
    symbol: nat,
)
    ensures
        decode_back_reference(dist_lens, data, pos, symbol) matches Ok((_, _, next)) ==> pos
            <= next <= 8 * data.len(),
{
    let index = symbol - 257;
    if let Ok((extra, pos1)) = read_bits(data, pos, LENGTH_EXTRA@[index] as nat) {
        lemma_decode_symbol_advances(dist_lens, data, pos1);
    }
}

/// The body of a Huffman block from `pos` on, with `out` decoded so far:
/// literals are appended, length symbols start a back-reference, symbol 256
/// ends the block.  Gives the position after the block and the output.
pub open spec fn decode_symbols(
    lit_lens: Seq<u8>,
    dist_lens: Seq<u8>,
    data: Seq<u8>,
    pos: int,
    out: Seq<u8>,
) -> Result<(int, Seq<u8>), InflateError>
    decreases 8 * data.len() - pos,
{
    match decode_symbol(lit_lens, data, pos) {
        Err(e) => Err(e),
        Ok((symbol, pos1)) => {
            proof {
                lemma_decode_symbol_advances(lit_lens, data, pos);
            }
            if symbol < 256 {
                decode_symbols(lit_lens, dist_lens, data, pos1, out.push(symbol as u8))
            } else if symbol == 256 {
                Ok((pos1, out))
            } else if symbol > 285 {
                Err(InflateError::ReservedSymbol)
            } else {
                match decode_back_reference(dist_lens, data, pos1, symbol) {
                    Err(e) => Err(e),
                    Ok((len, dist, pos2)) => {
                        proof {
                            lemma_back_reference_advances(dist_lens, data, pos1, symbol);
                        }
                        if dist > out.len() {
                            Err(InflateError::DistanceTooFar)
                        } else {
                            decode_symbols(
                                lit_lens,
                                dist_lens,
                                data,
                                pos2,
                                lz77_copy(out, dist as int, len),
                            )
                        }
                    },
                }
            }
        },
    }
}

/// The body of a Huffman block ends inside the input, not before its start.
pub proof fn lemma_decode_symbols_advances(
    lit_lens: Seq<u8>,
    dist_lens: Seq<u8>,
    data: Seq<u8>,
    pos: int,
    out: Seq<u8>,
)
    ensures
        decode_symbols(lit_lens, dist_lens, data, pos, out) matches Ok((next, _)) ==> pos <= next
            <= 8 * data.len(),
    decreases 8 * data.len() - pos,
{
    if let Ok((symbol, pos1)) = decode_symbol(lit_lens, data, pos) {
        lemma_decode_symbol_advances(lit_lens, data, pos);
        if symbol < 256 {
            lemma_decode_symbols_advances(lit_lens, dist_lens, data, pos1, out.push(symbol as u8));
        } else if 256 < symbol <= 285 {
            if let Ok((len, dist, pos2)) = decode_back_reference(dist_lens, data, pos1, symbol) {
                lemma_back_reference_advances(dist_lens, data, pos1, symbol);
                if dist <= out.len() {
                    lemma_decode_symbols_advances(
                        lit_lens,
                        dist_lens,
                        data,
                        pos2,
                        lz77_copy(out, dist as int, len),
                    );
                }
            }
        }
    }
}

/// Reads what follows the length symbol `symbol`: the length and the distance
/// of the back-reference.
fn read_back_reference(stream: &mut Bitstream, distances: &CodeMap, symbol: u16) -> (r: Result<
    (usize, usize),
    InflateError,
>)
    requires
        old(stream).wf(),
        distances.wf(),
        257 <= symbol <= 285,
    ensures
        final(stream).wf(),
        final(stream).bytes() == old(stream).bytes(),
        final(stream).bit_pos() >= old(stream).bit_pos(),
        match decode_back_reference(
            distances.lens(),
            old(stream).bytes(),
            old(stream).bit_pos(),
            symbol as nat,
        ) {
            Ok((len, dist, pos)) => r == Ok::<(usize, usize), InflateError>(
                (len as usize, dist as usize),
            ) && len <= 289 && 1 <= dist <= 32768 && final(stream).bit_pos() == pos,
            Err(e) => r == Err::<(usize, usize), InflateError>(e),
        },
{
    let index = (symbol - 257) as usize;
    let ghost data = stream.bytes();
    let ghost pos0 = stream.bit_pos();
    let extra = match stream.readbits(LENGTH_EXTRA[index] as usize) {
        Ok(v) => v,
        Err(e) => {
            return Err(e);
        },
    };
    proof {
        lemma_bits_value_bound(data, pos0, LENGTH_EXTRA@[index as int] as nat);
        vstd::arithmetic::power2::lemma2_to64();
    }
    let len = LENGTH_BASE[index] as usize + extra as usize;
    let dist_symbol = match distances.decode(stream) {
        Ok(v) => v,
        Err(e) => {
            return Err(e);
        },
    };
    if dist_symbol >= 30 {
        return Err(InflateError::ReservedSymbol);
    }
    let ghost pos2 = stream.bit_pos();
    let dist_extra = match stream.readbits(DIST_EXTRA[dist_symbol as usize] as usize) {
        Ok(v) => v,
        Err(e) => {
            return Err(e);
        },
    };
    proof {
        lemma_bits_value_bound(data, pos2, DIST_EXTRA@[dist_symbol as int] as nat);
    }
    let dist = DIST_BASE[dist_symbol as usize] as usize + dist_extra as usize;
    Ok((len, dist))
}

/// Decodes the body of a Huffman block with the two given codes.
fn inflate_codes(
    stream: &mut Bitstream,
    bytes_window: &mut Vec<u8>,
    literals: &CodeMap,
    distances: &CodeMap,
) -> (r: Result<(), InflateError>)
    requires
        old(stream).wf(),
        literals.wf(),
        distances.wf(),
    ensures
        final(stream).wf(),
        final(stream).bytes() == old(stream).bytes(),
        final(stream).bit_pos() >= old(stream).bit_pos(),
        old(bytes_window)@.is_prefix_of(final(bytes_window)@),
        match decode_symbols(
            literals.lens(),
            distances.lens(),
            old(stream).bytes(),
            old(stream).bit_pos(),
            old(bytes_window)@,
        ) {
            Ok((pos, out)) => r is Ok && final(stream).bit_pos() == pos && final(bytes_window)@
                == out,
            Err(e) => r == Err::<(), InflateError>(e),
        },
{
    loop
        invariant
            stream.wf(),
            literals.wf(),
            distances.wf(),
            stream.bytes() == old(stream).bytes(),
            stream.bit_pos() >= old(stream).bit_pos(),
            old(bytes_window)@.is_prefix_of(bytes_window@),
            decode_symbols(
                literals.lens(),
                distances.lens(),
                stream.bytes(),
                stream.bit_pos(),
                bytes_window@,
            ) == decode_symbols(
                literals.lens(),
                distances.lens(),
                old(stream).bytes(),
                old(stream).bit_pos(),
                old(bytes_window)@,
            ),
        decreases 8 * stream.bytes().len() - stream.bit_pos(),
    {
        let ghost pos0 = stream.bit_pos();
        proof {
            lemma_decode_symbol_advances(literals.lens(), stream.bytes(), pos0);
        }
        let symbol = match literals.decode(stream) {
            Ok(v) => v,
            Err(e) => {
                return Err(e);
            },
        };
        if symbol < 256 {
            bytes_window.push(symbol as u8);
        } else if symbol == 256 {
            return Ok(());
        } else if symbol > 285 {
            return Err(InflateError::ReservedSymbol);
        } else {
            proof {
                lemma_back_reference_advances(
                    distances.lens(),
                    stream.bytes(),
                    stream.bit_pos(),
                    symbol as nat,
                );
            }
            let (len, dist) = match read_back_reference(stream, distances, symbol) {
                Ok(v) => v,
                Err(e) => {
                    return Err(e);
                },
            };
            if dist > bytes_window.len() {
                return Err(InflateError::DistanceTooFar);
            }
            copy_back_reference(bytes_window, dist, len);
        }
    }
}

/// The code lengths of the fixed literal/length alphabet.
pub open spec fn fixed_literal_lens() -> Seq<u8> {
    Seq::new(
        288,
        |i: int|
            if i < 144 {
                8u8
            } else if i < 256 {
                9u8
            } else if i < 280 {
                7u8
            } else {
                8u8
            },
    )
}

/// The code lengths of the fixed distance alphabet: five bits each.
pub open spec fn fixed_distance_lens() -> Seq<u8> {
    Seq::new(32, |i: int| 5u8)
}

/// The body of a block of type 01.
#[verifier::opaque]
pub open spec fn fixed_block(data: Seq<u8>, pos: int, out: Seq<u8>) -> Result<
    (int, Seq<u8>),
    InflateError,
> {
    decode_symbols(fixed_literal_lens(), fixed_distance_lens(), data, pos, out)
}

/// Appends `count` copies of `value`.
fn push_repeated(v: &mut Vec<u8>, value: u8, count: usize)
    ensures
        final(v)@ == old(v)@ + Seq::new(count as nat, |i: int| value),
{
    let mut k: usize = 0;
    while k < count
        invariant
            k <= count,
            v@ == old(v)@ + Seq::new(k as nat, |i: int| value),
        decreases count - k,
    {
        v.push(value);
        k += 1;
        assert(v@ =~= old(v)@ + Seq::new(k as nat, |i: int| value));
    }
}

fn fixed_literal_code() -> (m: CodeMap)
    ensures
        m.wf(),
        m.lens() == fixed_literal_lens(),
{
    let mut lens: Vec<u8> = Vec::new();
    push_repeated(&mut lens, 8, 144);
    push_repeated(&mut lens, 9, 112);
    push_repeated(&mut lens, 7, 24);
    push_repeated(&mut lens, 8, 8);
    assert(lens@ =~= fixed_literal_lens());
    gen_code_map(lens.as_slice())
}

fn fixed_distance_code() -> (m: CodeMap)
    ensures
        m.wf(),
        m.lens() == fixed_distance_lens(),
{
    let mut lens: Vec<u8> = Vec::new();
    push_repeated(&mut lens, 5, 32);
    assert(lens@ =~= fixed_distance_lens());
    gen_code_map(lens.as_slice())
}

/// Decodes the body of a fixed Huffman block.
pub fn read_block_type1(stream: &mut Bitstream, bytes_window: &mut Vec<u8>) -> (r: Result<
    (),
    InflateError,
>)
    requires
        old(stream).wf(),
    ensures
        final(stream).wf(),
        final(stream).bytes() == old(stream).bytes(),
        final(stream).bit_pos() >= old(stream).bit_pos(),
        old(bytes_window)@.is_prefix_of(final(bytes_window)@),
        match fixed_block(old(stream).bytes(), old(stream).bit_pos(), old(bytes_window)@) {
            Ok((pos, out)) => r is Ok && final(stream).bit_pos() == pos && final(bytes_window)@
                == out,
            Err(e) => r == Err::<(), InflateError>(e),
        },
{
    reveal(fixed_block);
    let literals = fixed_literal_code();
    let distances = fixed_distance_code();
    inflate_codes(stream, bytes_window, &literals, &distances)
}

/// The lengths of the code length codes after `n` of them have been read,
/// three bits each, into the places that `CL_ORDER` names.
pub open spec fn code_length_lens(data: Seq<u8>, pos: int, n: nat) -> Seq<u8>
    decreases n,
{
    if n == 0 {
        Seq::new(19, |i: int| 0u8)
    } else {
        code_length_lens(data, pos, (n - 1) as nat).update(
            CL_ORDER@[n - 1] as int,
            bits_value(data, pos + 3 * (n - 1), 3) as u8,
        )
    }
}

/// There are nineteen lengths of code length codes, each at most 7.
pub proof fn lemma_code_length_lens_valid(data: Seq<u8>, pos: int, n: nat)
    requires
        n <= 19,
    ensures
        code_length_lens(data, pos, n).len() == 19,
        forall|i: int| 0 <= i < 19 ==> code_length_lens(data, pos, n)[i] <= 7,
    decreases n,
{
    if n > 0 {
        lemma_code_length_lens_valid(data, pos, (n - 1) as nat);
        lemma_bits_value_bound(data, pos + 3 * (n - 1), 3);
        vstd::arithmetic::power2::lemma2_to64();
    }
}

/// Reads the lengths of `count` code length codes.
fn read_code_length_lens(stream: &mut Bitstream, count: usize) -> (r: Result<
    Vec<u8>,
    InflateError,
>)
    requires
        old(stream).wf(),
        count <= 19,
    ensures
        final(stream).wf(),
        final(stream).bytes() == old(stream).bytes(),
        final(stream).bit_pos() >= old(stream).bit_pos(),
        match r {
            Ok(lens) => old(stream).bit_pos() + 3 * count <= 8 * old(stream).bytes().len()
                && lens@ == code_length_lens(
                old(stream).bytes(),
                old(stream).bit_pos(),
                count as nat,
            ) && final(stream).bit_pos() == old(stream).bit_pos() + 3 * count,
            Err(e) => {
                &&& e == InflateError::Truncated
                &&& old(stream).bit_pos() + 3 * count > 8 * old(stream).bytes().len()
            },
        },
{
    let mut lens: Vec<u8> = Vec::new();
    push_repeated(&mut lens, 0, 19);
    assert(lens@ =~= code_length_lens(stream.bytes(), stream.bit_pos(), 0));
    let mut i: usize = 0;
    while i < count
        invariant
            i <= count <= 19,
            stream.wf(),
            stream.bytes() == old(stream).bytes(),
            stream.bit_pos() >= old(stream).bit_pos(),
            stream.bit_pos() == old(stream).bit_pos() + 3 * i,
            lens@ == code_length_lens(old(stream).bytes(), old(stream).bit_pos(), i as nat),
        decreases count - i,
    {
        proof {
            lemma_code_length_lens_valid(stream.bytes(), old(stream).bit_pos(), i as nat);
            lemma_bits_value_bound(stream.bytes(), stream.bit_pos(), 3);
            vstd::arithmetic::power2::lemma2_to64();
        }
        let value = match stream.readbits(3) {
            Ok(v) => v,
            Err(e) => {
                return Err(e);
            },
        };
        let slot = CL_ORDER[i] as usize;
        lens[slot] = value as u8;
        i += 1;
    }
    proof {
        stream.lemma_wf_bounds();
    }
    Ok(lens)
}

/// The code lengths of an alphabet of `count` symbols, read with the code
/// length code `cl_lens` from `pos` on, `acc` being those read so far and
/// `prev` the length before them.  Symbols 0..=15 are a length; 16 repeats the
/// previous length 3..=6 times; 17 and 18 repeat length zero 3..=10 and
/// 11..=138 times.  Gives the lengths, the position after them and the last
/// length.
pub open spec fn code_lens_from(
    cl_lens: Seq<u8>,
    data: Seq<u8>,
    pos: int,
    count: nat,
    prev: u8,
    acc: Seq<u8>,
) -> Result<(Seq<u8>, int, u8), InflateError>
    decreases count - acc.len(),
{
    if acc.len() >= count {
        Ok((acc, pos, prev))
    } else {
        match decode_symbol(cl_lens, data, pos) {
            Err(e) => Err(e),
            Ok((symbol, pos1)) => if symbol <= 15 {
                code_lens_from(cl_lens, data, pos1, count, symbol as u8, acc.push(symbol as u8))
            } else {
                let width: nat = if symbol == 16 {
                    2
                } else if symbol == 17 {
                    3
                } else {
                    7
                };
                let base: nat = if symbol == 18 {
                    11
                } else {
                    3
                };
                let value: u8 = if symbol == 16 {
                    prev
                } else {
                    0
                };
                match read_bits(data, pos1, width) {
                    Err(e) => Err(e),
                    Ok((extra, pos2)) => if acc.len() + base + extra > count {
                        Err(InflateError::CodeLengthOverrun)
                    } else {
                        code_lens_from(
                            cl_lens,
                            data,
                            pos2,
                            count,
                            value,
                            acc + Seq::new(base + extra, |i: int| value),
                        )
                    },
                }
            },
        }
    }
}

/// The code lengths of an alphabet do not end before they start.
pub proof fn lemma_code_lens_from_advances(
    cl_lens: Seq<u8>,
    data: Seq<u8>,
    pos: int,
    count: nat,
    prev: u8,
    acc: Seq<u8>,
)
    ensures
        code_lens_from(cl_lens, data, pos, count, prev, acc) matches Ok((_, next, _)) ==> pos
            <= next,
    decreases count - acc.len(),
{
    if acc.len() < count {
        if let Ok((symbol, pos1)) = decode_symbol(cl_lens, data, pos) {
            lemma_decode_symbol_advances(cl_lens, data, pos);
            if symbol <= 15 {
                lemma_code_lens_from_advances(
                    cl_lens,
                    data,
                    pos1,
                    count,
                    symbol as u8,
                    acc.push(symbol as u8),
                );
            } else {
                let width: nat = if symbol == 16 {
                    2
                } else if symbol == 17 {
                    3
                } else {
                    7
                };
                let base: nat = if symbol == 18 {
                    11
                } else {
                    3
                };
                let value: u8 = if symbol == 16 {
                    prev
                } else {
                    0
                };
                if let Ok((extra, pos2)) = read_bits(data, pos1, width) {
                    if acc.len() + base + extra <= count {
                        lemma_code_lens_from_advances(
                            cl_lens,
                            data,
                            pos2,
                            count,
                            value,
                            acc + Seq::new(base + extra, |i: int| value),
                        );
                    }
                }
            }
        }
    }
}

/// Reads the code lengths of an alphabet of `count` symbols; `prev` is the
/// length that a repeat at the very start copies.
fn read_code_lens(stream: &mut Bitstream, code: &CodeMap, count: usize, prev: u8) -> (r: Result<
    (Vec<u8>, u8),
    InflateError,
>)
    requires
        old(stream).wf(),
        code.wf(),
        prev <= 15,
    ensures
        final(stream).wf(),
        final(stream).bytes() == old(stream).bytes(),
        final(stream).bit_pos() >= old(stream).bit_pos(),
        match code_lens_from(
            code.lens(),
            old(stream).bytes(),
            old(stream).bit_pos(),
            count as nat,
            prev,
            Seq::empty(),
        ) {
            Ok((lens, pos, last)) => {
                &&& r is Ok
                &&& r->Ok_0.0@ == lens
                &&& r->Ok_0.1 == last
                &&& final(stream).bit_pos() == pos
                &&& lens.len() == count
                &&& last <= 15
                &&& forall|i: int| 0 <= i < lens.len() ==> lens[i] <= 15
            },
            Err(e) => r == Err::<(Vec<u8>, u8), InflateError>(e),
        },
{
    let mut lens: Vec<u8> = Vec::new();
    let mut last: u8 = prev;
    while lens.len() < count
        invariant
            stream.wf(),
            code.wf(),
            stream.bytes() == old(stream).bytes(),
            stream.bit_pos() >= old(stream).bit_pos(),
            lens@.len() <= count,
            last <= 15,
            forall|i: int| 0 <= i < lens@.len() ==> lens@[i] <= 15,
            code_lens_from(
                code.lens(),
                stream.bytes(),
                stream.bit_pos(),
                count as nat,
                last,
                lens@,
            ) == code_lens_from(
                code.lens(),
                old(stream).bytes(),
                old(stream).bit_pos(),
                count as nat,
                prev,
                Seq::empty(),
            ),
        decreases count - lens@.len(),
    {
        let symbol = match code.decode(stream) {
            Ok(v) => v,
            Err(e) => {
                return Err(e);
            },
        };
        if symbol <= 15 {
            lens.push(symbol as u8);
            last = symbol as u8;
        } else {
            let width: usize = if symbol == 16 {
                2
            } else if symbol == 17 {
                3
            } else {
                7
            };
            let base: usize = if symbol == 18 {
                11
            } else {
                3
            };
            let value: u8 = if symbol == 16 {
                last
            } else {
                0
            };
            proof {
                lemma_bits_value_bound(stream.bytes(), stream.bit_pos(), width as nat);
                vstd::arithmetic::power2::lemma2_to64();
            }
            let extra = match stream.readbits(width) {
                Ok(v) => v,
                Err(e) => {
                    return Err(e);
                },
            };
            let repeat: usize = base + extra as usize;
            if repeat > count - lens.len() {
                return Err(InflateError::CodeLengthOverrun);
            }
            push_repeated(&mut lens, value, repeat);
            last = value;
        }
    }
    Ok((lens, last))
}

/// The body of a block of type 10: the three counts, the lengths of the code
/// length codes, the lengths of the literal/length codes and of the distance
/// codes, and then the symbols.
#[verifier::opaque]
pub open spec fn dynamic_block(data: Seq<u8>, pos: int, out: Seq<u8>) -> Result<
    (int, Seq<u8>),
    InflateError,
> {
    match read_bits(data, pos, 5) {
        Err(e) => Err(e),
        Ok((hlit, pos1)) => match read_bits(data, pos1, 5) {
            Err(e) => Err(e),
            Ok((hdist, pos2)) => match read_bits(data, pos2, 4) {
                Err(e) => Err(e),
                Ok((hclen, pos3)) => if hlit + 257 > 286 || hdist + 1 > 30 {
                    Err(InflateError::InvalidCodeCount)
                } else if pos3 + 3 * (hclen + 4) > 8 * data.len() {
                    Err(InflateError::Truncated)
                } else {
                    let cl_lens = code_length_lens(data, pos3, hclen + 4);
                    let pos4 = pos3 + 3 * (hclen + 4);
                    match code_lens_from(cl_lens, data, pos4, hlit + 257, 0, Seq::empty()) {
                        Err(e) => Err(e),
                        Ok((lit_lens, pos5, last)) => match code_lens_from(
                            cl_lens,
                            data,
                            pos5,
                            hdist + 1,
                            last,
                            Seq::empty(),
                        ) {
                            Err(e) => Err(e),
                            Ok((dist_lens, pos6, _)) => decode_symbols(
                                lit_lens,
                                dist_lens,
                                data,
                                pos6,
                                out,
                            ),
                        },
                    }
                },
            },
        },
    }
}

/// Decodes the body of a dynamic Huffman block.
pub fn read_block_type2(stream: &mut Bitstream, bytes_window: &mut Vec<u8>) -> (r: Result<
    (),
    InflateError,
>)
    requires
        old(stream).wf(),
    ensures
        final(stream).wf(),
        final(stream).bytes() == old(stream).bytes(),
        final(stream).bit_pos() >= old(stream).bit_pos(),
        old(bytes_window)@.is_prefix_of(final(bytes_window)@),
        match dynamic_block(old(stream).bytes(), old(stream).bit_pos(), old(bytes_window)@) {
            Ok((pos, out)) => r is Ok && final(stream).bit_pos() == pos && final(bytes_window)@
                == out,
            Err(e) => r == Err::<(), InflateError>(e),
        },
{
    let ghost data = stream.bytes();
    let ghost pos0 = stream.bit_pos();
    proof {
        reveal(dynamic_block);
        vstd::arithmetic::power2::lemma2_to64();
        lemma_bits_value_bound(data, pos0, 5);
        lemma_bits_value_bound(data, pos0 + 5, 5);
        lemma_bits_value_bound(data, pos0 + 10, 4);
    }
    let hlit = match stream.readbits(5) {
        Ok(v) => v,
        Err(e) => {
            return Err(e);
        },
    };
    let hdist = match stream.readbits(5) {
        Ok(v) => v,
        Err(e) => {
            return Err(e);
        },
    };
    let hclen = match stream.readbits(4) {
        Ok(v) => v,
        Err(e) => {
            return Err(e);
        },
    };
    if hlit > 29 || hdist > 29 {
        return Err(InflateError::InvalidCodeCount);
    }
    let num_lit_len_codes = hlit as usize + 257;
    let num_dist_codes = hdist as usize + 1;
    let num_code_len_codes = hclen as usize + 4;
    let cl_code_lens = match read_code_length_lens(stream, num_code_len_codes) {
        Ok(v) => v,
        Err(e) => {
            return Err(e);
        },
    };
    proof {
        lemma_code_length_lens_valid(data, pos0 + 14, num_code_len_codes as nat);
    }
    let cl_code = gen_code_map(cl_code_lens.as_slice());
    let (lit_lens, last) = match read_code_lens(stream, &cl_code, num_lit_len_codes, 0) {
        Ok(v) => v,
        Err(e) => {
            return Err(e);
        },
    };
    let (dist_lens, _) = match read_code_lens(stream, &cl_code, num_dist_codes, last) {
        Ok(v) => v,
        Err(e) => {
            return Err(e);
        },
    };
    let literals = gen_code_map(lit_lens.as_slice());
    let distances = gen_code_map(dist_lens.as_slice());
    inflate_codes(stream, bytes_window, &literals, &distances)
}

/// The body of a block of type 00: from the next byte boundary on, `len` and
/// its one's complement, sixteen bits each, then `len` bytes as they are.
#[verifier::opaque]
pub open spec fn stored_block(data: Seq<u8>, pos: int, out: Seq<u8>) -> Result<
    (int, Seq<u8>),
    InflateError,
> {
    match read_bits(data, next_byte_boundary(pos), 16) {
        Err(e) => Err(e),
        Ok((len, pos1)) => match read_bits(data, pos1, 16) {
            Err(e) => Err(e),
            Ok((nlen, pos2)) => if len + nlen != 0xFFFF {
                Err(InflateError::LengthMismatch)
            } else if pos2 + 8 * len > 8 * data.len() {
                Err(InflateError::Truncated)
            } else {
                Ok((pos2 + 8 * len, out + data.subrange(pos2 / 8, pos2 / 8 + len)))
            },
        },
    }
}

/// Decodes the body of a stored block.
#[verifier::loop_isolation(false)]
pub fn read_block_type0(stream: &mut Bitstream, bytes_window: &mut Vec<u8>) -> (r: Result<
    (),
    InflateError,
>)
    requires
        old(stream).wf(),
    ensures
        final(stream).wf(),
        final(stream).bytes() == old(stream).bytes(),
        final(stream).bit_pos() >= old(stream).bit_pos(),
        old(bytes_window)@.is_prefix_of(final(bytes_window)@),
        match stored_block(old(stream).bytes(), old(stream).bit_pos(), old(bytes_window)@) {
            Ok((pos, out)) => r is Ok && final(stream).bit_pos() == pos && final(bytes_window)@
                == out,
            Err(e) => r == Err::<(), InflateError>(e),
        },
{
    let ghost data = stream.bytes();
    proof {
        reveal(stored_block);
        stream.lemma_wf_bounds();
    }
    stream.align_to_byte();
    let ghost start = stream.bit_pos();
    let len = match stream.readbits(16) {
        Ok(v) => v,
        Err(e) => {
            return Err(e);
        },
    };
    let nlen = match stream.readbits(16) {
        Ok(v) => v,
        Err(e) => {
            return Err(e);
        },
    };
    assert((nlen != !len) <==> (len + nlen != 0xFFFF)) by (bit_vector);
    if nlen != !len {
        return Err(InflateError::LengthMismatch);
    }
    let ghost pos2 = start + 32;
    let ghost first = pos2 / 8;
    assert(bytes_window@ =~= old(bytes_window)@ + data.subrange(first, first + 0));
    let mut i: u16 = 0;
    while i < len
        invariant
            i <= len,
            stream.wf(),
            stream.bytes() == data,
            0 <= start,
            start % 8 == 0,
            pos2 == start + 32,
            first == pos2 / 8,
            stream.bit_pos() == pos2 + 8 * i,
            pos2 + 8 * i <= 8 * data.len(),
            bytes_window@ == old(bytes_window)@ + data.subrange(first, first + i),
        decreases len - i,
    {
        let value = match stream.readbits(8) {
            Ok(v) => v,
            Err(e) => {
                return Err(e);
            },
        };
        proof {
            lemma_bits_value_byte(data, first + i);
            assert(bytes_window@.push(value as u8) =~= old(bytes_window)@ + data.subrange(
                first,
                first + i + 1,
            ));
        }
        bytes_window.push(value as u8);
        i += 1;
    }
    Ok(())
}

/// The body of a block of the given kind.
pub open spec fn block_body(method: Method, data: Seq<u8>, pos: int, out: Seq<u8>) -> Result<
    (int, Seq<u8>),
    InflateError,
> {
    match method {
        Method::Stored => stored_block(data, pos, out),
        Method::Fixed => fixed_block(data, pos, out),
        Method::Dynamic => dynamic_block(data, pos, out),
        Method::Invalid => Err(InflateError::ReservedBlockType),
    }
}

/// No block ends before it starts.
pub proof fn lemma_block_body_advances(method: Method, data: Seq<u8>, pos: int, out: Seq<u8>)
    ensures
        block_body(method, data, pos, out) matches Ok((next, _)) ==> pos <= next <= 8 * data.len(),
{
    reveal(stored_block);
    reveal(fixed_block);
    reveal(dynamic_block);
    match method {
        Method::Stored => {},
        Method::Fixed => {
            lemma_decode_symbols_advances(
                fixed_literal_lens(),
                fixed_distance_lens(),
                data,
                pos,
                out,
            );
        },
        Method::Dynamic => {
            if let Ok((hlit, pos1)) = read_bits(data, pos, 5) {
                if let Ok((hdist, pos2)) = read_bits(data, pos1, 5) {
                    if let Ok((hclen, pos3)) = read_bits(data, pos2, 4) {
                        let cl_lens = code_length_lens(data, pos3, hclen + 4);
                        let pos4 = pos3 + 3 * (hclen + 4);
                        lemma_code_lens_from_advances(
                            cl_lens,
                            data,
                            pos4,
                            hlit + 257,
                            0,
                            Seq::empty(),
                        );
                        if let Ok((lit_lens, pos5, last)) = code_lens_from(
                            cl_lens,
                            data,
                            pos4,
                            hlit + 257,
                            0,
                            Seq::empty(),
                        ) {
                            lemma_code_lens_from_advances(
                                cl_lens,
                                data,
                                pos5,
                                hdist + 1,
                                last,
                                Seq::empty(),
                            );
                            if let Ok((dist_lens, pos6, _)) = code_lens_from(
                                cl_lens,
                                data,
                                pos5,
                                hdist + 1,
                                last,
                                Seq::empty(),
                            ) {
                                lemma_decode_symbols_advances(lit_lens, dist_lens, data, pos6, out);
                            }
                        }
                    }
                }
            }
        },
        Method::Invalid => {},
    }
}

/// The blocks from `pos` on, with `out` decoded so far: each starts with a
/// bit that marks the last block and two bits that give its kind.
pub open spec fn inflate_blocks(data: Seq<u8>, pos: int, out: Seq<u8>) -> Result<
    Seq<u8>,
    InflateError,
>
    decreases 8 * data.len() - pos,
{
    match read_bits(data, pos, 1) {
        Err(e) => Err(e),
        Ok((last, pos1)) => match read_bits(data, pos1, 2) {
            Err(e) => Err(e),
            Ok((kind, pos2)) => match block_body(Method::of(kind), data, pos2, out) {
                Err(e) => Err(e),
                Ok((pos3, grown)) => {
                    proof {
                        lemma_block_body_advances(Method::of(kind), data, pos2, out);
                    }
                    if last == 1 {
                        Ok(grown)
                    } else {
                        inflate_blocks(data, pos3, grown)
                    }
                },
            },
        },
    }
}

/// What a DEFLATE stream decodes to.
pub open spec fn inflate(data: Seq<u8>) -> Result<Seq<u8>, InflateError> {
    inflate_blocks(data, 0, Seq::empty())
}

/// Decodes a raw DEFLATE stream: block after block, up to and including the
/// first one that is marked as the last.
pub fn decompress(data: &[u8]) -> (r: Result<Vec<u8>, InflateError>)
    ensures
        match inflate(data@) {
            Ok(out) => r is Ok && r->Ok_0@ == out,
            Err(e) => r == Err::<Vec<u8>, InflateError>(e),
        },
{
    let mut stream = Bitstream::new(slice_to_vec(data));
    let mut bytes_window: Vec<u8> = Vec::new();
    loop
        invariant
            stream.wf(),
            stream.bytes() == data@,
            inflate_blocks(data@, stream.bit_pos(), bytes_window@) == inflate(data@),
        decreases 8 * data@.len() - stream.bit_pos(),
    {
        let ghost pos0 = stream.bit_pos();
        let last_bit = match stream.readbits(1) {
            Ok(v) => v,
            Err(e) => {
                return Err(e);
            },
        };
        let kind = match stream.readbits(2) {
            Ok(v) => v,
            Err(e) => {
                return Err(e);
            },
        };
        let method = Method::from_u16(kind);
        proof {
            lemma_block_body_advances(method, data@, pos0 + 3, bytes_window@);
        }
        let done = match method {
            Method::Stored => read_block_type0(&mut stream, &mut bytes_window),
            Method::Fixed => read_block_type1(&mut stream, &mut bytes_window),
            Method::Dynamic => read_block_type2(&mut stream, &mut bytes_window),
            Method::Invalid => Err(InflateError::ReservedBlockType),
        };
        match done {
            Ok(_) => {},
            Err(e) => {
                return Err(e);
            },
        }
        if last_bit == 1 {
            return Ok(bytes_window);
        }
    }
}

proof fn lemma_read_bits_extends(data: Seq<u8>, more: Seq<u8>, pos: int, n: nat)
    requires
        0 <= pos,
        read_bits(data, pos, n) is Ok,
    ensures
        read_bits(data + more, pos, n) == read_bits(data, pos, n),
{
    lemma_bits_value_extends(data, more, pos, n);
}

proof fn lemma_back_reference_extends(
    dist_lens: Seq<u8>,
    data: Seq<u8>,
    more: Seq<u8>,
    pos: int,
    symbol: nat,
)
    requires
        0 <= pos,
        decode_back_reference(dist_lens, data, pos, symbol) is Ok,
    ensures
        decode_back_reference(dist_lens, data + more, pos, symbol) == decode_back_reference(
            dist_lens,
            data,
            pos,
            symbol,
        ),
{
    let index = symbol - 257;
    lemma_read_bits_extends(data, more, pos, LENGTH_EXTRA@[index] as nat);
    let pos1 = read_bits(data, pos, LENGTH_EXTRA@[index] as nat)->Ok_0.1;
    lemma_decode_symbol_extends(dist_lens, data, more, pos1);
    lemma_decode_symbol_advances(dist_lens, data, pos1);
    let found = decode_symbol(dist_lens, data, pos1)->Ok_0;
    lemma_read_bits_extends(data, more, found.1, DIST_EXTRA@[found.0 as int] as nat);
}

proof fn lemma_decode_symbols_extends(
    lit_lens: Seq<u8>,
    dist_lens: Seq<u8>,
    data: Seq<u8>,
    more: Seq<u8>,
    pos: int,
    out: Seq<u8>,
)
    requires
        0 <= pos,
        decode_symbols(lit_lens, dist_lens, data, pos, out) is Ok,
    ensures
        decode_symbols(lit_lens, dist_lens, data + more, pos, out) == decode_symbols(
            lit_lens,
            dist_lens,
            data,
            pos,
            out,
        ),
    decreases 8 * data.len() - pos,
{
    lemma_decode_symbol_extends(lit_lens, data, more, pos);
    lemma_decode_symbol_advances(lit_lens, data, pos);
    let (symbol, pos1) = decode_symbol(lit_lens, data, pos)->Ok_0;
    if symbol < 256 {
        lemma_decode_symbols_extends(lit_lens, dist_lens, data, more, pos1, out.push(symbol as u8));
    } else if 256 < symbol <= 285 {
        lemma_back_reference_extends(dist_lens, data, more, pos1, symbol);
        lemma_back_reference_advances(dist_lens, data, pos1, symbol);
        let (len, dist, pos2) = decode_back_reference(dist_lens, data, pos1, symbol)->Ok_0;
        lemma_decode_symbols_extends(
            lit_lens,
            dist_lens,
            data,
            more,
            pos2,
            lz77_copy(out, dist as int, len),
        );
    }
}

proof fn lemma_code_length_lens_extends(data: Seq<u8>, more: Seq<u8>, pos: int, n: nat)
    requires
        0 <= pos,
        pos + 3 * n <= 8 * data.len(),
    ensures
        code_length_lens(data + more, pos, n) == code_length_lens(data, pos, n),
    decreases n,
{
    if n > 0 {
        lemma_code_length_lens_extends(data, more, pos, (n - 1) as nat);
        lemma_bits_value_extends(data, more, pos + 3 * (n - 1), 3);
    }
}

proof fn lemma_code_lens_from_extends(
    cl_lens: Seq<u8>,
    data: Seq<u8>,
    more: Seq<u8>,
    pos: int,
    count: nat,
    prev: u8,
    acc: Seq<u8>,
)
    requires
        0 <= pos,
        code_lens_from(cl_lens, data, pos, count, prev, acc) is Ok,
    ensures
        code_lens_from(cl_lens, data + more, pos, count, prev, acc) == code_lens_from(
            cl_lens,
            data,
            pos,
            count,
            prev,
            acc,
        ),
    decreases count - acc.len(),
{
    if acc.len() < count {
        lemma_decode_symbol_extends(cl_lens, data, more, pos);
        lemma_decode_symbol_advances(cl_lens, data, pos);
        let (symbol, pos1) = decode_symbol(cl_lens, data, pos)->Ok_0;
        if symbol <= 15 {
            lemma_code_lens_from_extends(
                cl_lens,
                data,
                more,
                pos1,
                count,
                symbol as u8,
                acc.push(symbol as u8),
            );
        } else {
            let width: nat = if symbol == 16 {
                2
            } else if symbol == 17 {
                3
            } else {
                7
            };
            let base: nat = if symbol == 18 {
                11
            } else {
                3
            };
            let value: u8 = if symbol == 16 {
                prev
            } else {
                0
            };
            lemma_read_bits_extends(data, more, pos1, width);
            let (extra, pos2) = read_bits(data, pos1, width)->Ok_0;
            lemma_code_lens_from_extends(
                cl_lens,
                data,
                more,
                pos2,
                count,
                value,
                acc + Seq::new(base + extra, |i: int| value),
            );
        }
    }
}

proof fn lemma_block_body_extends(
    method: Method,
    data: Seq<u8>,
    more: Seq<u8>,
    pos: int,
    out: Seq<u8>,
)
    requires
        0 <= pos,
        block_body(method, data, pos, out) is Ok,
    ensures
        block_body(method, data + more, pos, out) == block_body(method, data, pos, out),
{
    reveal(stored_block);
    reveal(fixed_block);
    reveal(dynamic_block);
    match method {
        Method::Stored => {
            let start = next_byte_boundary(pos);
            lemma_read_bits_extends(data, more, start, 16);
            lemma_read_bits_extends(data, more, start + 16, 16);
            let len = bits_value(data, start, 16);
            let first = (start + 32) / 8;
            assert((data + more).subrange(first, first + len) =~= data.subrange(
                first,
                first + len,
            ));
        },
        Method::Fixed => {
            lemma_decode_symbols_extends(
                fixed_literal_lens(),
                fixed_distance_lens(),
                data,
                more,
                pos,
                out,
            );
        },
        Method::Dynamic => {
            lemma_read_bits_extends(data, more, pos, 5);
            lemma_read_bits_extends(data, more, pos + 5, 5);
            lemma_read_bits_extends(data, more, pos + 10, 4);
            let hlit = bits_value(data, pos, 5);
            let hdist = bits_value(data, pos + 5, 5);
            let hclen = bits_value(data, pos + 10, 4);
            let pos3 = pos + 14;
            lemma_code_length_lens_extends(data, more, pos3, hclen + 4);
            let cl_lens = code_length_lens(data, pos3, hclen + 4);
            let pos4 = pos3 + 3 * (hclen + 4);
            lemma_code_lens_from_extends(cl_lens, data, more, pos4, hlit + 257, 0, Seq::empty());
            lemma_code_lens_from_advances(cl_lens, data, pos4, hlit + 257, 0, Seq::empty());
            let (lit_lens, pos5, last) = code_lens_from(
                cl_lens,
                data,
                pos4,
                hlit + 257,
                0,
                Seq::empty(),
            )->Ok_0;
            lemma_code_lens_from_extends(cl_lens, data, more, pos5, hdist + 1, last, Seq::empty());
            lemma_code_lens_from_advances(cl_lens, data, pos5, hdist + 1, last, Seq::empty());
            let (dist_lens, pos6, _) = code_lens_from(
                cl_lens,
                data,
                pos5,
                hdist + 1,
                last,
                Seq::empty(),
            )->Ok_0;
            lemma_decode_symbols_extends(lit_lens, dist_lens, data, more, pos6, out);
        },
        Method::Invalid => {},
    }
}

proof fn lemma_inflate_blocks_extends(data: Seq<u8>, more: Seq<u8>, pos: int, out: Seq<u8>)
    requires
        0 <= pos,
        inflate_blocks(data, pos, out) is Ok,
    ensures
        inflate_blocks(data + more, pos, out) == inflate_blocks(data, pos, out),
    decreases 8 * data.len() - pos,
{
    lemma_read_bits_extends(data, more, pos, 1);
    lemma_read_bits_extends(data, more, pos + 1, 2);
    let last = bits_value(data, pos, 1);
    let kind = bits_value(data, pos + 1, 2);
    let method = Method::of(kind);
    lemma_block_body_extends(method, data, more, pos + 3, out);
    lemma_block_body_advances(method, data, pos + 3, out);
    let (pos3, grown) = block_body(method, data, pos + 3, out)->Ok_0;
    if last != 1 {
        lemma_inflate_blocks_extends(data, more, pos3, grown);
    }
}

/// What a stream decodes to does not depend on what follows it: where `data`
/// decodes, `data` with any bytes after it decodes to the same output.  As
/// `inflate` is a function of the input, the output of a stream is unique.
pub proof fn lemma_inflate_ignores_what_follows(data: Seq<u8>, more: Seq<u8>)
    requires
        inflate(data) is Ok,
    ensures
        inflate(data + more) == inflate(data),
{
    lemma_inflate_blocks_extends(data, more, 0, Seq::empty());
}

} // verus!
