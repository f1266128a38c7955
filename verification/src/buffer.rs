//! A small fixed buffer in which labels are written: decimal numbers, column
//! letters and short texts.

use vstd::prelude::*;
use vstd::slice::{slice_subrange, slice_to_vec};
use vstd::string::StringSliceAdditionalSpecFns;
use crate::text::{decimal_digits, text_of_bytes, utf8_text};

verus! {

/// How many bytes a buffer holds.
pub const CAPACITY: usize = 64;

/// The letters that name the zero-based column `index`: `A` for 0, `Z` for
/// 25, `AA` for 26.
pub open spec fn column_letters(index: nat) -> Seq<u8>
    decreases index,
{
    if index < 26 {
        seq![(0x41 + index) as u8]
    } else {
        column_letters((index / 26 - 1) as nat).push((0x41 + index % 26) as u8)
    }
}

/// Ten to the power `k`.
pub open spec fn pow10(k: nat) -> nat
    decreases k,
{
    if k == 0 {
        1
    } else {
        10 * pow10((k - 1) as nat)
    }
}

/// A number below `10^k` has at most `k` digits, and at least one.
pub proof fn lemma_decimal_digits_len(value: nat, k: nat)
    requires
        k >= 1,
        value < pow10(k),
    ensures
        1 <= decimal_digits(value).len() <= k,
    decreases k,
{
    if value >= 10 {
        assert(pow10(1) == 10) by {
            reveal_with_fuel(pow10, 2);
        }
        lemma_decimal_digits_len(value / 10, (k - 1) as nat);
    }
}

/// A column below `2^32` has at most seven letters, and at least one.
pub proof fn lemma_column_letters_len(index: nat, k: nat)
    requires
        k >= 1,
        index < column_bound(k),
    ensures
        1 <= column_letters(index).len() <= k,
    decreases k,
{
    if index >= 26 {
        assert(column_bound(1) == 26) by {
            reveal_with_fuel(column_bound, 2);
        }
        lemma_column_letters_len((index / 26 - 1) as nat, (k - 1) as nat);
    }
}

/// How many columns have names of at most `k` letters.
pub open spec fn column_bound(k: nat) -> nat
    decreases k,
{
    if k == 0 {
        0
    } else {
        26 * (column_bound((k - 1) as nat) + 1)
    }
}

/// A buffer of `CAPACITY` bytes, the first `size` of which are in use.
#[derive(Debug)]
pub struct Buffer {
    data: [u8; 64],
    size: usize,
}

impl View for Buffer {
    type V = Seq<u8>;

    closed spec fn view(&self) -> Seq<u8> {
        self.data@.take(self.size as int)
    }
}

/// Turns round the bytes from `start` up to `end`.
fn reverse_range(data: &mut [u8; 64], start: usize, end: usize)
    requires
        start <= end <= 64,
    ensures
        forall|k: int| start <= k < end ==> final(data)@[k] == old(data)@[start + end - 1 - k],
        forall|k: int| 0 <= k < start || end <= k < 64 ==> final(data)@[k] == old(data)@[k],
{
    let mut i: usize = start;
    let mut j: usize = end;
    while i + 1 < j
        invariant
            start <= i <= j <= end <= 64,
            i - start == end - j,
            forall|k: int|
                start <= k < i || j <= k < end ==> data@[k] == old(data)@[start + end - 1 - k],
            forall|k: int| i <= k < j ==> data@[k] == old(data)@[k],
            forall|k: int| 0 <= k < start || end <= k < 64 ==> data@[k] == old(data)@[k],
        decreases j - i,
    {
        let aux = data[i];
        data[i] = data[j - 1];
        data[j - 1] = aux;
        i += 1;
        j -= 1;
    }
}

impl Buffer {
    /// No more bytes are in use than the buffer holds.
    pub closed spec fn wf(&self) -> bool {
        self.size <= 64
    }

    /// An empty buffer.
    pub fn new() -> (b: Self)
        ensures
            b.wf(),
            b@ == Seq::<u8>::empty(),
    {
        let data: [u8; 64] = [0; 64];
        Self { data, size: 0 }
    }

    /// How many bytes are in use.
    pub fn len(&self) -> (n: usize)
        requires
            self.wf(),
        ensures
            n == self@.len(),
    {
        self.size
    }

    /// Writes the decimal digits of `value`: in place of what the buffer
    /// holds, or after it.
    pub fn write_u32(&mut self, value: u32, overwrite: bool)
        requires
            old(self).wf(),
            overwrite || old(self)@.len() + 10 <= CAPACITY,
        ensures
            final(self).wf(),
            final(self)@ == (if overwrite {
                Seq::<u8>::empty()
            } else {
                old(self)@
            }) + decimal_digits(value as nat),
    {
        if overwrite {
            self.size = 0;
        }
        let start = self.size;
        let ghost kept = self@;
        let ghost digits = decimal_digits(value as nat);
        let ghost total = digits.len() as int;
        proof {
            assert(pow10(10) == 10_000_000_000) by {
                reveal_with_fuel(pow10, 11);
            }
            lemma_decimal_digits_len(value as nat, 10);
            assert(digits.take(total) =~= digits);
        }
        let mut v = value;
        loop
            invariant_except_break
                self.size < start + total,
                decimal_digits(v as nat) == digits.take(total - (self.size - start)),
            invariant
                start <= self.size <= start + total <= 64,
                kept == self.data@.take(start as int),
                total == digits.len(),
                forall|k: int|
                    start <= k < self.size ==> #[trigger] self.data@[k] == digits[total - 1 - (k
                        - start)],
            ensures
                self.size == start + total,
            decreases v,
        {
            let c: u8 = 0x30 + (v % 10) as u8;
            proof {
                let rest = digits.take(total - (self.size - start));
                if v >= 10 {
                    assert(rest.last() == c);
                    assert(rest.drop_last() =~= digits.take(total - (self.size - start) - 1));
                    assert(decimal_digits((v / 10) as nat).len() >= 1);
                } else {
                    assert(rest.len() == 1);
                    assert(rest[0] == c);
                }
            }
            self.data[self.size] = c;
            self.size += 1;
            v = v / 10;
            if v == 0 {
                break;
            }
        }
        reverse_range(&mut self.data, start, self.size);
        assert(self@ =~= kept + digits);
    }

    /// Writes the letters of the zero-based column `value` in place of what
    /// the buffer holds.
    pub fn write_letters_base26(&mut self, value: u32)
        ensures
            final(self).wf(),
            final(self)@ == column_letters(value as nat),
    {
        self.size = 0;
        let ghost letters = column_letters(value as nat);
        let ghost total = letters.len() as int;
        proof {
            assert(column_bound(7) == 8_353_082_582) by {
                reveal_with_fuel(column_bound, 8);
            }
            lemma_column_letters_len(value as nat, 7);
            assert(letters.take(total) =~= letters);
        }
        let mut v = value;
        loop
            invariant_except_break
                self.size < total,
                column_letters(v as nat) == letters.take(total - self.size),
            invariant
                self.size <= total <= 7,
                total == letters.len(),
                forall|k: int|
                    0 <= k < self.size ==> #[trigger] self.data@[k] == letters[total - 1 - k],
            ensures
                self.size == total,
            decreases v,
        {
            let c: u8 = 0x41 + (v % 26) as u8;
            proof {
                let rest = letters.take(total - self.size);
                if v >= 26 {
                    assert(rest.last() == c);
                    assert(rest.drop_last() =~= letters.take(total - self.size - 1));
                    assert(column_letters((v / 26 - 1) as nat).len() >= 1);
                } else {
                    assert(rest.len() == 1);
                    assert(rest[0] == c);
                }
            }
            self.data[self.size] = c;
            self.size += 1;
            v = v / 26;
            if v == 0 {
                break;
            }
            v -= 1;
        }
        reverse_range(&mut self.data, 0, self.size);
        assert(self@ =~= letters);
    }

    /// Writes the bytes of `s`, as many as the buffer holds, in place of what
    /// it holds.
    pub fn write_str(&mut self, s: &str)
        ensures
            final(self).wf(),
            final(self)@ == s.spec_bytes().take(
                if s.spec_bytes().len() <= CAPACITY {
                    s.spec_bytes().len() as int
                } else {
                    CAPACITY as int
                },
            ),
    {
        let bytes = s.as_bytes();
        let n = if bytes.len() < 64 {
            bytes.len()
        } else {
            64
        };
        let mut i: usize = 0;
        while i < n
            invariant
                i <= n <= 64,
                n <= bytes@.len(),
                forall|k: int| 0 <= k < i ==> self.data@[k] == bytes@[k],
            decreases n - i,
        {
            self.data[i] = bytes[i];
            i += 1;
        }
        self.size = n;
        assert(self@ =~= bytes@.take(n as int));
    }

    /// What the buffer holds, as text.
    pub fn as_str(&self) -> (r: Option<String>)
        requires
            self.wf(),
        ensures
            match utf8_text(self@) {
                Some(text) => r is Some && r->Some_0@ == text,
                None => r is None,
            },
    {
        let bytes = slice_to_vec(slice_subrange(self.data.as_slice(), 0, self.size));
        assert(bytes@ =~= self@);
        text_of_bytes(bytes)
    }
}

} // verus!
