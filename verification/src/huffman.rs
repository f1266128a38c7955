//! Canonical Huffman codes: from a vector of code lengths to a table that
//! maps `(reversed code, length)` to the symbol, and the decoding of one symbol.

use std::collections::HashMap;
use vstd::prelude::*;
use vstd::arithmetic::power2::{
    lemma2_to64, lemma_pow2_pos, lemma_pow2_strictly_increases, lemma_pow2_unfold, pow2,
};
use vstd::arithmetic::div_mod::lemma_fundamental_div_mod_converse;
use crate::bitstream::{Bitstream, bits_value, lemma_bits_value_extends};
use crate::inflate::InflateError;

verus! {

broadcast use vstd::std_specs::hash::group_hash_axioms;

/// The `n` lowest bits of `v` in the opposite order: bit 0 becomes bit `n - 1`.
pub open spec fn reverse_bits(v: nat, n: nat) -> nat
    decreases n,
{
    if n == 0 {
        0
    } else {
        (v % 2) * pow2((n - 1) as nat) + reverse_bits(v / 2, (n - 1) as nat)
    }
}

/// Reversing `n` bits gives a number of `n` bits.
pub proof fn lemma_reverse_bits_bound(v: nat, n: nat)
    ensures
        reverse_bits(v, n) < pow2(n),
    decreases n,
{
    if n == 0 {
        lemma2_to64();
    } else {
        lemma_reverse_bits_bound(v / 2, (n - 1) as nat);
        lemma_pow2_unfold(n);
        let p = pow2((n - 1) as nat);
        assert((v % 2) * p <= p) by (nonlinear_arith)
            requires
                v % 2 <= 1,
        ;
    }
}

/// Only the `n` lowest bits of `v` matter to `reverse_bits(v, n)`.
pub proof fn lemma_reverse_bits_low(v: nat, m: nat, n: nat)
    requires
        n <= m,
    ensures
        reverse_bits(v % pow2(m), n) == reverse_bits(v, n),
    decreases n,
{
    if n > 0 {
        let p = pow2((m - 1) as nat);
        let w = v % pow2(m);
        let q = v / pow2(m);
        lemma_pow2_unfold(m);
        lemma_pow2_pos((m - 1) as nat);
        lemma_pow2_pos(m);
        vstd::arithmetic::div_mod::lemma_fundamental_div_mod(v as int, pow2(m) as int);
        assert(v == 2 * p * q + w) by (nonlinear_arith)
            requires
                v == pow2(m) * q + w,
                pow2(m) == 2 * p,
        ;
        assert(w % 2 == v % 2) by {
            assert(v == 2 * (p * q) + w) by (nonlinear_arith)
                requires
                    v == 2 * p * q + w,
            ;
        }
        assert(w / 2 == (v / 2) % p) by {
            let h = w / 2;
            assert(v / 2 == p * q + h) by {
                assert(v == 2 * (p * q) + w) by (nonlinear_arith)
                    requires
                        v == 2 * p * q + w,
                ;
            }
            assert(h < p);
            assert(p * q == q * p) by (nonlinear_arith);
            lemma_fundamental_div_mod_converse((v / 2) as int, p as int, q as int, h as int);
        }
        lemma_reverse_bits_low(v / 2, (m - 1) as nat, (n - 1) as nat);
        assert(reverse_bits(w / 2, (n - 1) as nat) == reverse_bits(v / 2, (n - 1) as nat));
        assert(reverse_bits(w, n) == (w % 2) * pow2((n - 1) as nat) + reverse_bits(
            w / 2,
            (n - 1) as nat,
        ));
        assert(reverse_bits(v, n) == (v % 2) * pow2((n - 1) as nat) + reverse_bits(
            v / 2,
            (n - 1) as nat,
        ));
        assert(reverse_bits(w, n) == reverse_bits(v, n));
    } else {
        lemma_pow2_pos(m);
    }
}

/// Reverses the `num_bits` lowest bits of `v`.
pub fn reverse_u16_bits(v: u16, num_bits: usize) -> (r: u16)
    requires
        num_bits <= 16,
    ensures
        r == reverse_bits(v as nat, num_bits as nat),
{
    let mut result: u16 = 0;
    let mut rest: u16 = v;
    let mut k: usize = 0;
    proof {
        lemma2_to64();
        assert(0 * pow2(num_bits as nat) == 0) by (nonlinear_arith);
    }
    while k < num_bits
        invariant
            k <= num_bits <= 16,
            result < pow2(k as nat),
            result * pow2((num_bits - k) as nat) + reverse_bits(rest as nat, (num_bits - k) as nat)
                == reverse_bits(v as nat, num_bits as nat),
        decreases num_bits - k,
    {
        let ghost old_result = result;
        let ghost old_rest = rest;
        proof {
            lemma2_to64();
            if k < 15 {
                lemma_pow2_strictly_increases(k as nat, 15);
            }
            assert(result < 0x8000);
            assert(((result << 1) | (rest & 1)) == 2 * result + rest % 2) by (bit_vector)
                requires
                    result < 0x8000,
            ;
            assert(rest >> 1 == rest / 2) by (bit_vector);
        }
        result = (result << 1) | (rest & 1);
        rest = rest >> 1;
        k += 1;
        proof {
            let p = pow2((num_bits - k) as nat);
            lemma_pow2_unfold((num_bits - k + 1) as nat);
            lemma_pow2_unfold(k as nat);
            assert((2 * old_result + old_rest % 2) * p == old_result * (2 * p) + (old_rest % 2) * p)
                by (nonlinear_arith);
        }
    }
    proof {
        lemma2_to64();
        assert(result * 1 == result) by (nonlinear_arith);
    }
    result
}

/// How many of the symbols before `i` have a code of `len` bits.
pub open spec fn rank_of(lens: Seq<u8>, i: int, len: nat) -> nat
    decreases i,
{
    if i <= 0 {
        0
    } else {
        rank_of(lens, i - 1, len) + if lens[i - 1] == len {
            1nat
        } else {
            0nat
        }
    }
}

/// How many symbols have a code of `len` bits; none has a code of no bits.
pub open spec fn count_of_len(lens: Seq<u8>, len: nat) -> nat {
    if len == 0 {
        0
    } else {
        rank_of(lens, lens.len() as int, len)
    }
}

/// The code of the first symbol of `len` bits: the codes of each length
/// follow, doubled, those of the length before.
pub open spec fn first_code(lens: Seq<u8>, len: nat) -> nat
    decreases len,
{
    if len == 0 {
        0
    } else {
        2 * (first_code(lens, (len - 1) as nat) + count_of_len(lens, (len - 1) as nat))
    }
}

/// The canonical code of symbol `i`, most significant bit first: symbols of
/// one length get consecutive codes in the order of their indices.
pub open spec fn code_of(lens: Seq<u8>, i: int) -> nat {
    first_code(lens, lens[i] as nat) + rank_of(lens, i, lens[i] as nat)
}

/// The key under which symbol `i` is stored: its code as the bit reader
/// delivers it, and its length.
pub open spec fn key_of(lens: Seq<u8>, i: int) -> (nat, nat) {
    (reverse_bits(code_of(lens, i), lens[i] as nat), lens[i] as nat)
}

/// The table after the first `n` symbols have been entered.  A later symbol
/// replaces an earlier one under the same key.
pub open spec fn codes_upto(lens: Seq<u8>, n: nat) -> Map<(nat, nat), nat>
    decreases n,
{
    if n == 0 {
        Map::empty()
    } else {
        let before = codes_upto(lens, (n - 1) as nat);
        if lens[n - 1] == 0 {
            before
        } else {
            before.insert(key_of(lens, n - 1), (n - 1) as nat)
        }
    }
}

/// The table of the canonical Huffman code with these lengths, from
/// `(reversed code, length)` to the symbol.  Length 0 means that the symbol
/// has no code.
pub open spec fn canonical_codes(lens: Seq<u8>) -> Map<(nat, nat), nat> {
    codes_upto(lens, lens.len())
}

/// The shortest code length among the first `n` symbols, 15 if none has a code.
pub open spec fn min_len_upto(lens: Seq<u8>, n: nat) -> nat
    decreases n,
{
    if n == 0 {
        15
    } else {
        let before = min_len_upto(lens, (n - 1) as nat);
        if lens[n - 1] != 0 && lens[n - 1] < before {
            lens[n - 1] as nat
        } else {
            before
        }
    }
}

/// The longest code length among the first `n` symbols, 0 if none has a code.
pub open spec fn max_len_upto(lens: Seq<u8>, n: nat) -> nat
    decreases n,
{
    if n == 0 {
        0
    } else {
        let before = max_len_upto(lens, (n - 1) as nat);
        if lens[n - 1] > before {
            lens[n - 1] as nat
        } else {
            before
        }
    }
}

/// The shortest length of a code, 15 if no symbol has a code.
pub open spec fn min_code_len(lens: Seq<u8>) -> nat {
    min_len_upto(lens, lens.len())
}

/// The longest length of a code, 0 if no symbol has a code.
pub open spec fn max_code_len(lens: Seq<u8>) -> nat {
    max_len_upto(lens, lens.len())
}

/// Lengths that a code table can be built from: at most 15 bits each, and no
/// more symbols than 16 bits can number.
pub open spec fn valid_lens(lens: Seq<u8>) -> bool {
    &&& lens.len() <= 0x10000
    &&& forall|i: int| 0 <= i < lens.len() ==> lens[i] <= 15
}

/// The shortest and the longest length lie between 1 and 15, and 0 and 15.
pub proof fn lemma_len_bounds(lens: Seq<u8>, n: nat)
    requires
        n <= lens.len(),
        forall|i: int| 0 <= i < lens.len() ==> lens[i] <= 15,
    ensures
        1 <= min_len_upto(lens, n) <= 15,
        max_len_upto(lens, n) <= 15,
    decreases n,
{
    if n > 0 {
        lemma_len_bounds(lens, (n - 1) as nat);
    }
}

/// Before symbol `i` there are at most `i` symbols of one length.
pub proof fn lemma_rank_bound(lens: Seq<u8>, i: int, len: nat)
    ensures
        rank_of(lens, i, len) <= if i < 0 {
            0
        } else {
            i
        },
    decreases i,
{
    if i > 0 {
        lemma_rank_bound(lens, i - 1, len);
    }
}

/// The number of symbols of one length grows with the symbols counted.
pub proof fn lemma_rank_monotone(lens: Seq<u8>, i: int, j: int, len: nat)
    requires
        i <= j,
    ensures
        rank_of(lens, i, len) <= rank_of(lens, j, len),
    decreases j - i,
{
    if i < j {
        lemma_rank_monotone(lens, i, j - 1, len);
    }
}

/// First codes stay below `(2^(len+1) - 2)` times the number of symbols.
pub proof fn lemma_first_code_bound(lens: Seq<u8>, len: nat)
    ensures
        first_code(lens, len) + 2 * lens.len() <= pow2(len + 1) * lens.len(),
    decreases len,
{
    let n = lens.len();
    lemma_pow2_unfold(len + 1);
    if len == 0 {
        lemma2_to64();
    } else {
        lemma_first_code_bound(lens, (len - 1) as nat);
        lemma_rank_bound(lens, n as int, (len - 1) as nat);
        let p = pow2(len);
        assert(pow2(len + 1) * n == 2 * (p * n)) by (nonlinear_arith)
            requires
                pow2(len + 1) == 2 * p,
        ;
    }
}

/// A decoding table for one canonical Huffman code.
pub struct CodeMap {
    min_len: usize,
    max_len: usize,
    table: HashMap<u32, u16>,
    lens: Ghost<Seq<u8>>,
}

/// What a table of the hash map holds, read as a map from `(code, length)`.
pub open spec fn table_codes(table: Map<u32, u16>) -> Map<(nat, nat), nat> {
    Map::new(
        |k: (nat, nat)|
            k.0 < 0x10000 && 1 <= k.1 <= 15 && table.contains_key((k.1 * 0x10000 + k.0) as u32),
        |k: (nat, nat)| table[(k.1 * 0x10000 + k.0) as u32] as nat,
    )
}

impl CodeMap {
    /// The code lengths that the table was built from.
    pub closed spec fn lens(&self) -> Seq<u8> {
        self.lens@
    }

    /// The table holds the canonical code of `lens()`, with its shortest and
    /// longest length.
    pub closed spec fn wf(&self) -> bool {
        &&& valid_lens(self.lens@)
        &&& table_codes(self.table@) == canonical_codes(self.lens@)
        &&& self.min_len == min_code_len(self.lens@)
        &&& self.max_len == max_code_len(self.lens@)
    }

    /// The shortest length of a code in the table (15 if it is empty).
    pub fn min_len(&self) -> (r: usize)
        requires
            self.wf(),
        ensures
            r == min_code_len(self.lens()),
    {
        self.min_len
    }

    /// The longest length of a code in the table (0 if it is empty).
    pub fn max_len(&self) -> (r: usize)
        requires
            self.wf(),
        ensures
            r == max_code_len(self.lens()),
    {
        self.max_len
    }

    /// The symbol whose code, reversed, is `code` and has `len` bits.
    pub fn lookup(&self, code: u16, len: usize) -> (r: Option<u16>)
        requires
            self.wf(),
            1 <= len <= 15,
        ensures
            match r {
                Some(symbol) => canonical_codes(self.lens()).contains_key(
                    (code as nat, len as nat),
                ) && canonical_codes(self.lens())[(code as nat, len as nat)] == symbol,
                None => !canonical_codes(self.lens()).contains_key((code as nat, len as nat)),
            },
    {
        let key: u32 = (len as u32) * 0x10000 + (code as u32);
        let ghost k = (code as nat, len as nat);
        assert(table_codes(self.table@).contains_key(k) <==> self.table@.contains_key(key));
        match self.table.get(&key) {
            Some(symbol) => Some(*symbol),
            None => None,
        }
    }

    /// Reads one symbol: tries each length from the shortest to the longest
    /// until the bits at hand are a key of the table, and consumes them.
    pub fn decode(&self, stream: &mut Bitstream) -> (r: Result<u16, InflateError>)
        requires
            self.wf(),
            old(stream).wf(),
        ensures
            final(stream).wf(),
            final(stream).bytes() == old(stream).bytes(),
            final(stream).bit_pos() >= old(stream).bit_pos(),
            match decode_symbol(self.lens(), old(stream).bytes(), old(stream).bit_pos()) {
                Ok((symbol, pos)) => r is Ok && r->Ok_0 as nat == symbol && final(stream).bit_pos()
                    == pos,
                Err(e) => {
                    &&& r == Err::<u16, InflateError>(e)
                    &&& final(stream).bit_pos() == old(stream).bit_pos()
                },
            },
    {
        proof {
            lemma_len_bounds(self.lens@, self.lens@.len());
            lemma_decode_symbol_advances(self.lens@, stream.bytes(), stream.bit_pos());
        }
        let mut b: usize = self.min_len;
        while b <= self.max_len
            invariant
                self.wf(),
                stream.wf(),
                stream.bytes() == old(stream).bytes(),
                stream.bit_pos() == old(stream).bit_pos(),
                1 <= b <= 16,
                self.max_len <= 15,
                decode_symbol(self.lens(), old(stream).bytes(), old(stream).bit_pos())
                    == decode_symbol_from(
                    self.lens(),
                    old(stream).bytes(),
                    old(stream).bit_pos(),
                    b as nat,
                ),
            decreases 16 - b,
        {
            match stream.needbits(b) {
                Ok(_) => {},
                Err(e) => {
                    return Err(e);
                },
            }
            let v = stream.getbits(b);
            match self.lookup(v, b) {
                Some(symbol) => {
                    stream.dumpbits(b);
                    return Ok(symbol);
                },
                None => {},
            }
            b += 1;
        }
        Err(InflateError::UnknownCode)
    }
}

/// Decoding one symbol, the lengths below `b` having been tried: the first
/// length at which the next bits are a key of the table decides.
pub open spec fn decode_symbol_from(lens: Seq<u8>, data: Seq<u8>, pos: int, b: nat) -> Result<
    (nat, int),
    InflateError,
>
    decreases max_code_len(lens) + 1 - b,
{
    if b > max_code_len(lens) {
        Err(InflateError::UnknownCode)
    } else if pos + b > 8 * data.len() {
        Err(InflateError::Truncated)
    } else if canonical_codes(lens).contains_key((bits_value(data, pos, b), b)) {
        Ok((canonical_codes(lens)[(bits_value(data, pos, b), b)], pos + b))
    } else {
        decode_symbol_from(lens, data, pos, b + 1)
    }
}

/// The symbol that the bits at `pos` spell in the code with these lengths,
/// and the position after it.
pub open spec fn decode_symbol(lens: Seq<u8>, data: Seq<u8>, pos: int) -> Result<
    (nat, int),
    InflateError,
> {
    decode_symbol_from(lens, data, pos, min_code_len(lens))
}

/// A decoded symbol took at least one bit, all of them from the input.
pub proof fn lemma_decode_symbol_from_advances(lens: Seq<u8>, data: Seq<u8>, pos: int, b: nat)
    ensures
        decode_symbol_from(lens, data, pos, b) matches Ok((_, next)) ==> pos + b <= next <= 8
            * data.len(),
    decreases max_code_len(lens) + 1 - b,
{
    if b <= max_code_len(lens) && pos + b <= 8 * data.len() && !canonical_codes(lens).contains_key(
        (bits_value(data, pos, b), b),
    ) {
        lemma_decode_symbol_from_advances(lens, data, pos, b + 1);
    }
}

/// The shortest length of a code is at least one bit.
pub proof fn lemma_min_len_positive(lens: Seq<u8>, n: nat)
    ensures
        1 <= min_len_upto(lens, n),
    decreases n,
{
    if n > 0 {
        lemma_min_len_positive(lens, (n - 1) as nat);
    }
}

/// A decoded symbol took at least one bit, all of them from the input.
pub proof fn lemma_decode_symbol_advances(lens: Seq<u8>, data: Seq<u8>, pos: int)
    ensures
        decode_symbol(lens, data, pos) matches Ok((_, next)) ==> pos + 1 <= next <= 8 * data.len(),
{
    lemma_min_len_positive(lens, lens.len());
    lemma_decode_symbol_from_advances(lens, data, pos, min_code_len(lens));
}

/// Builds the decoding table of the canonical Huffman code with the given
/// lengths.
pub fn gen_code_map(code_lens: &[u8]) -> (m: CodeMap)
    requires
        valid_lens(code_lens@),
    ensures
        m.wf(),
        m.lens() == code_lens@,
{
    let n = code_lens.len();
    let ghost lens = code_lens@;
    let mut counts: [u64; 16] = [0u64; 16];
    let mut min_len: usize = 15;
    let mut max_len: usize = 0;
    let mut i: usize = 0;
    while i < n
        invariant
            i <= n,
            n == lens.len(),
            lens == code_lens@,
            valid_lens(lens),
            counts@[0] == 0,
            forall|l: int|
                1 <= l < 16 ==> #[trigger] counts@[l] == rank_of(lens, i as int, l as nat),
            min_len == min_len_upto(lens, i as nat),
            max_len == max_len_upto(lens, i as nat),
        decreases n - i,
    {
        let len = code_lens[i] as usize;
        proof {
            lemma_rank_bound(lens, i as int, len as nat);
        }
        if len != 0 {
            counts[len] = counts[len] + 1;
            if len < min_len {
                min_len = len;
            }
            if len > max_len {
                max_len = len;
            }
        }
        i += 1;
    }
    let mut next: [u64; 16] = [0u64; 16];
    let mut code: u64 = 0;
    let mut l: usize = 1;
    proof {
        lemma2_to64();
    }
    while l < 16
        invariant
            1 <= l <= 16,
            n == lens.len(),
            n <= 0x10000,
            counts@[0] == 0,
            forall|j: int|
                1 <= j < 16 ==> #[trigger] counts@[j] == rank_of(lens, n as int, j as nat),
            code == first_code(lens, (l - 1) as nat),
            forall|j: int| 1 <= j < l ==> #[trigger] next@[j] == first_code(lens, j as nat),
        decreases 16 - l,
    {
        proof {
            lemma_first_code_bound(lens, (l - 1) as nat);
            lemma_rank_bound(lens, n as int, (l - 1) as nat);
            lemma2_to64();
            if l < 16 {
                lemma_pow2_strictly_increases(l as nat, 17);
            }
            assert(pow2(l as nat) * n <= 0x20000 * 0x10000) by (nonlinear_arith)
                requires
                    pow2(l as nat) <= 0x20000,
                    n <= 0x10000,
            ;
        }
        code = (code + counts[l - 1]) * 2;
        next[l] = code;
        l += 1;
    }
    let mut table: HashMap<u32, u16> = HashMap::new();
    i = 0;
    assert(table_codes(table@) =~= codes_upto(lens, 0));
    while i < n
        invariant
            i <= n,
            n == lens.len(),
            lens == code_lens@,
            valid_lens(lens),
            forall|j: int|
                1 <= j < 16 ==> #[trigger] next@[j] == first_code(lens, j as nat) + rank_of(
                    lens,
                    i as int,
                    j as nat,
                ),
            table_codes(table@) == codes_upto(lens, i as nat),
        decreases n - i,
    {
        let len = code_lens[i] as usize;
        if len != 0 {
            let code = next[len];
            proof {
                lemma_first_code_bound(lens, len as nat);
                lemma_rank_bound(lens, i as int, len as nat);
                lemma2_to64();
                lemma_pow2_strictly_increases((len + 1) as nat, 17);
                assert(pow2((len + 1) as nat) * n <= 0x20000 * 0x10000) by (nonlinear_arith)
                    requires
                        pow2((len + 1) as nat) <= 0x20000,
                        n <= 0x10000,
                ;
                lemma_reverse_bits_low(code as nat, 16, len as nat);
                lemma_reverse_bits_bound(code as nat, len as nat);
                lemma_pow2_strictly_increases(len as nat, 16);
            }
            let low: u16 = (code % 0x10000) as u16;
            let rev = reverse_u16_bits(low, len);
            let key: u32 = (len as u32) * 0x10000 + (rev as u32);
            let ghost before = table@;
            table.insert(key, i as u16);
            next[len] = code + 1;
            proof {
                let k = key_of(lens, i as int);
                assert(k == (rev as nat, len as nat));
                assert(table_codes(table@) =~= table_codes(before).insert(k, i as nat));
            }
        }
        i += 1;
    }
    CodeMap { min_len, max_len, table, lens: Ghost(lens) }
}

/// The part of the code space that the first `n` symbols take, in units of
/// `2^-15`: a code of `len` bits takes `2^(15 - len)`.
pub open spec fn code_space(lens: Seq<u8>, n: int) -> nat
    decreases n,
{
    if n <= 0 {
        0
    } else {
        code_space(lens, n - 1) + if 1 <= lens[n - 1] <= 15 {
            pow2((15 - lens[n - 1]) as nat)
        } else {
            0nat
        }
    }
}

/// The lengths ask for no more codes than there are: they satisfy Kraft's
/// inequality.
pub open spec fn not_oversubscribed(lens: Seq<u8>) -> bool {
    code_space(lens, lens.len() as int) <= pow2(15)
}

/// The code space that the codes of at most `len` bits take among the first
/// `n` symbols.
pub open spec fn space_upto(lens: Seq<u8>, n: int, len: nat) -> nat
    decreases len,
{
    if len == 0 {
        0
    } else {
        space_upto(lens, n, (len - 1) as nat) + rank_of(lens, n, len) * pow2((15 - len) as nat)
    }
}

proof fn lemma_space_upto_step(lens: Seq<u8>, n: int, len: nat)
    requires
        n > 0,
        len <= 15,
    ensures
        space_upto(lens, n, len) == space_upto(lens, n - 1, len) + if 1 <= lens[n - 1] <= len {
            pow2((15 - lens[n - 1]) as nat)
        } else {
            0nat
        },
    decreases len,
{
    if len > 0 {
        lemma_space_upto_step(lens, n, (len - 1) as nat);
        let p = pow2((15 - len) as nat);
        let r = rank_of(lens, n - 1, len);
        if lens[n - 1] == len {
            assert((r + 1) * p == r * p + p) by (nonlinear_arith);
        }
    }
}

proof fn lemma_space_upto_total(lens: Seq<u8>, n: int)
    requires
        n >= 0,
    ensures
        space_upto(lens, n, 15) == code_space(lens, n),
    decreases n,
{
    if n == 0 {
        lemma_space_upto_zero(lens, 15);
    } else {
        lemma_space_upto_total(lens, n - 1);
        lemma_space_upto_step(lens, n, 15);
    }
}

proof fn lemma_space_upto_zero(lens: Seq<u8>, len: nat)
    ensures
        space_upto(lens, 0, len) == 0,
    decreases len,
{
    if len > 0 {
        lemma_space_upto_zero(lens, (len - 1) as nat);
        assert(0 * pow2((15 - len) as nat) == 0) by (nonlinear_arith);
    }
}

proof fn lemma_space_upto_monotone(lens: Seq<u8>, n: int, a: nat, b: nat)
    requires
        a <= b,
    ensures
        space_upto(lens, n, a) <= space_upto(lens, n, b),
    decreases b - a,
{
    if a < b {
        lemma_space_upto_monotone(lens, n, a, (b - 1) as nat);
    }
}

/// The first code of a length and the number of codes of that length, scaled
/// to fifteen bits, is the space that all codes up to that length take.
proof fn lemma_first_code_space(lens: Seq<u8>, len: nat)
    requires
        len <= 15,
    ensures
        (first_code(lens, len) + count_of_len(lens, len)) * pow2((15 - len) as nat) == space_upto(
            lens,
            lens.len() as int,
            len,
        ),
    decreases len,
{
    let n = lens.len() as int;
    if len == 0 {
        assert(0 * pow2(15) == 0) by (nonlinear_arith);
    } else {
        lemma_first_code_space(lens, (len - 1) as nat);
        let before = first_code(lens, (len - 1) as nat) + count_of_len(lens, (len - 1) as nat);
        let p = pow2((15 - len) as nat);
        let c = rank_of(lens, n, len);
        lemma_pow2_unfold((15 - len + 1) as nat);
        assert(pow2((15 - (len - 1)) as nat) == 2 * p);
        assert((2 * before + c) * p == before * (2 * p) + c * p) by (nonlinear_arith);
    }
}

/// The first codes of a longer length lie beyond the codes of a shorter one,
/// with the bits between the two lengths appended.
proof fn lemma_first_code_grows(lens: Seq<u8>, len: nat, more: nat)
    requires
        more >= 1,
    ensures
        first_code(lens, len + more) >= pow2(more) * (first_code(lens, len) + count_of_len(
            lens,
            len,
        )),
    decreases more,
{
    let t = first_code(lens, len) + count_of_len(lens, len);
    if more == 1 {
        lemma2_to64();
    } else {
        lemma_first_code_grows(lens, len, (more - 1) as nat);
        lemma_pow2_unfold(more);
        let p = pow2((more - 1) as nat);
        let f = first_code(lens, (len + more - 1) as nat);
        assert(2 * (p * t) == (2 * p) * t) by (nonlinear_arith);
        assert(first_code(lens, len + more) >= 2 * f);
    }
}

/// A symbol stands before the end of the run of symbols of its length.
proof fn lemma_rank_below_count(lens: Seq<u8>, i: int)
    requires
        0 <= i < lens.len(),
        lens[i] > 0,
    ensures
        rank_of(lens, i, lens[i] as nat) < count_of_len(lens, lens[i] as nat),
{
    lemma_rank_monotone(lens, i + 1, lens.len() as int, lens[i] as nat);
}

/// Where the lengths are not over-subscribed, the canonical code of every
/// symbol fits in the bits of its length.
pub proof fn lemma_code_fits(lens: Seq<u8>, i: int)
    requires
        valid_lens(lens),
        not_oversubscribed(lens),
        0 <= i < lens.len(),
        lens[i] > 0,
    ensures
        code_of(lens, i) < pow2(lens[i] as nat),
{
    let len = lens[i] as nat;
    let n = lens.len() as int;
    let p = pow2((15 - len) as nat);
    let t = first_code(lens, len) + count_of_len(lens, len);
    lemma_rank_below_count(lens, i);
    lemma_first_code_space(lens, len);
    lemma_space_upto_monotone(lens, n, len, 15);
    lemma_space_upto_total(lens, n);
    lemma_pow2_pos((15 - len) as nat);
    vstd::arithmetic::power2::lemma_pow2_adds(len, (15 - len) as nat);
    let code = code_of(lens, i);
    let full = pow2(len);
    assert(code < full) by (nonlinear_arith)
        requires
            code < t,
            t * p <= full * p,
            p > 0,
    ;
}

/// Reversing the bits of two different numbers of `n` bits gives two
/// different numbers.
pub proof fn lemma_reverse_bits_injective(v: nat, w: nat, n: nat)
    requires
        v < pow2(n),
        w < pow2(n),
        reverse_bits(v, n) == reverse_bits(w, n),
    ensures
        v == w,
    decreases n,
{
    if n == 0 {
        lemma2_to64();
    } else {
        let p = pow2((n - 1) as nat);
        lemma_pow2_unfold(n);
        lemma_reverse_bits_bound(v / 2, (n - 1) as nat);
        lemma_reverse_bits_bound(w / 2, (n - 1) as nat);
        let a = reverse_bits(v / 2, (n - 1) as nat);
        let b = reverse_bits(w / 2, (n - 1) as nat);
        assert(v % 2 == w % 2 && a == b) by (nonlinear_arith)
            requires
                (v % 2) * p + a == (w % 2) * p + b,
                a < p,
                b < p,
                v % 2 <= 1,
                w % 2 <= 1,
        ;
        lemma_reverse_bits_injective(v / 2, w / 2, (n - 1) as nat);
    }
}

/// The canonical codes are distinct and prefix-free: of two coded symbols,
/// the code of the one with the shorter or equal length is not the beginning
/// of the code of the other.  Where the lengths are not over-subscribed, each
/// code also fits in the bits of its length.
pub proof fn lemma_canonical_codes_prefix_free(lens: Seq<u8>, i: int, j: int)
    requires
        valid_lens(lens),
        0 <= i < lens.len(),
        0 <= j < lens.len(),
        i != j,
        0 < lens[i] <= lens[j],
    ensures
        code_of(lens, j) / pow2((lens[j] - lens[i]) as nat) != code_of(lens, i),
        not_oversubscribed(lens) ==> code_of(lens, i) < pow2(lens[i] as nat) && code_of(lens, j)
            < pow2(lens[j] as nat),
{
    let short = lens[i] as nat;
    let long = lens[j] as nat;
    if not_oversubscribed(lens) {
        lemma_code_fits(lens, i);
        lemma_code_fits(lens, j);
    }
    if short == long {
        lemma2_to64();
        assert(pow2((lens[j] - lens[i]) as nat) == 1);
        assert(code_of(lens, j) / 1 == code_of(lens, j));
        if i < j {
            lemma_rank_monotone(lens, i + 1, j, short);
            assert(rank_of(lens, i + 1, short) == rank_of(lens, i, short) + 1);
            assert(code_of(lens, i) < code_of(lens, j));
        } else {
            lemma_rank_monotone(lens, j + 1, i, short);
            assert(rank_of(lens, j + 1, short) == rank_of(lens, j, short) + 1);
            assert(code_of(lens, j) < code_of(lens, i));
        }
    } else {
        let more = (long - short) as nat;
        let t = first_code(lens, short) + count_of_len(lens, short);
        let p = pow2(more);
        lemma_first_code_grows(lens, short, more);
        lemma_rank_below_count(lens, i);
        lemma_pow2_pos(more);
        let code = code_of(lens, j);
        assert(short + more == long);
        assert(first_code(lens, long) >= p * t);
        assert(code >= p * t);
        assert(code / p >= t) by (nonlinear_arith)
            requires
                code >= p * t,
                p > 0,
        ;
        assert(code_of(lens, i) < t);
    }
}

/// The longest length of a code is the greatest of the lengths, and the
/// shortest is the least of those that are not zero.
pub proof fn lemma_code_len_bounds(lens: Seq<u8>, n: nat)
    requires
        n <= lens.len(),
    ensures
        forall|i: int| 0 <= i < n ==> lens[i] <= max_len_upto(lens, n),
        forall|i: int| 0 <= i < n && lens[i] > 0 ==> min_len_upto(lens, n) <= lens[i],
        max_len_upto(lens, n) > 0 ==> exists|i: int| 0 <= i < n && lens[i] == max_len_upto(lens, n),
        max_len_upto(lens, n) == 0 ==> forall|i: int| 0 <= i < n ==> lens[i] == 0,
    decreases n,
{
    if n > 0 {
        lemma_code_len_bounds(lens, (n - 1) as nat);
        let before = max_len_upto(lens, (n - 1) as nat);
        if lens[n - 1] > before {
            assert(lens[n - 1] == max_len_upto(lens, n));
        } else if before > 0 {
            let k = choose|i: int| 0 <= i < n - 1 && lens[i] == before;
            assert(lens[k] == max_len_upto(lens, n));
        }
    }
}

proof fn lemma_codes_upto_holds(lens: Seq<u8>, n: nat, i: int)
    requires
        valid_lens(lens),
        not_oversubscribed(lens),
        n <= lens.len(),
        0 <= i < n,
        lens[i] > 0,
    ensures
        codes_upto(lens, n).contains_key(key_of(lens, i)),
        codes_upto(lens, n)[key_of(lens, i)] == i,
    decreases n,
{
    if i < n - 1 {
        lemma_codes_upto_holds(lens, (n - 1) as nat, i);
        let j = n - 1;
        if lens[j] > 0 && key_of(lens, j) == key_of(lens, i) {
            assert(key_of(lens, j).1 == key_of(lens, i).1);
            assert(lens[j] == lens[i]);
            assert(key_of(lens, j).0 == key_of(lens, i).0);
            lemma_code_fits(lens, i);
            lemma_code_fits(lens, j);
            lemma_reverse_bits_injective(code_of(lens, i), code_of(lens, j), lens[i] as nat);
            lemma_canonical_codes_prefix_free(lens, i, j);
            lemma2_to64();
            assert(pow2((lens[j] - lens[i]) as nat) == 1);
            assert(code_of(lens, j) / 1 == code_of(lens, j));
            assert(false);
        }
    }
}

/// Canonical construction is reversible: where the lengths are not
/// over-subscribed, the table leads from the code of every coded symbol back
/// to that symbol, and its longest length is the greatest of the lengths.
pub proof fn lemma_canonical_codes_reversible(lens: Seq<u8>, i: int)
    requires
        valid_lens(lens),
        not_oversubscribed(lens),
        0 <= i < lens.len(),
        lens[i] > 0,
    ensures
        canonical_codes(lens).contains_key(key_of(lens, i)),
        canonical_codes(lens)[key_of(lens, i)] == i,
        lens[i] <= max_code_len(lens),
        exists|k: int| 0 <= k < lens.len() && lens[k] == max_code_len(lens),
{
    lemma_codes_upto_holds(lens, lens.len(), i);
    lemma_code_len_bounds(lens, lens.len());
}

/// A symbol that is decoded from `data` is decoded the same whatever follows
/// `data`.
pub proof fn lemma_decode_symbol_from_extends(
    lens: Seq<u8>,
    data: Seq<u8>,
    more: Seq<u8>,
    pos: int,
    b: nat,
)
    requires
        0 <= pos,
        decode_symbol_from(lens, data, pos, b) is Ok,
    ensures
        decode_symbol_from(lens, data + more, pos, b) == decode_symbol_from(lens, data, pos, b),
    decreases max_code_len(lens) + 1 - b,
{
    if b <= max_code_len(lens) && pos + b <= 8 * data.len() {
        lemma_bits_value_extends(data, more, pos, b);
        if !canonical_codes(lens).contains_key((bits_value(data, pos, b), b)) {
            lemma_decode_symbol_from_extends(lens, data, more, pos, b + 1);
        }
    }
}

/// A symbol that is decoded from `data` is decoded the same whatever follows
/// `data`.
pub proof fn lemma_decode_symbol_extends(lens: Seq<u8>, data: Seq<u8>, more: Seq<u8>, pos: int)
    requires
        0 <= pos,
        decode_symbol(lens, data, pos) is Ok,
    ensures
        decode_symbol(lens, data + more, pos) == decode_symbol(lens, data, pos),
{
    lemma_decode_symbol_from_extends(lens, data, more, pos, min_code_len(lens));
}

} // verus!
