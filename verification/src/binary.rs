//! A buffer of bits with an exact length.

use crate::bits::{
    bit, bits_of, byte_count, flag, lemma_bit_and, lemma_bit_low_mask, lemma_bit_or, lemma_bit_shl,
    joined_prefix, lemma_bit_shr, lemma_bit_single, lemma_bit_zero, lemma_bits_of_pack,
    lemma_join_step, lemma_low_bit_nonzero, lemma_pack_concat_aligned, lemma_window_bit,
    lemma_window_skip, lemma_window_unique, pack, window,
};
use crate::error::TydiError;
use vstd::layout::size_of;
use vstd::prelude::*;
use vstd::utf8::encode_scalar;

verus! {

/// A sequence of bits, held in bytes. Bit `k` lives in byte `k / 8`, at bit `k % 8`,
/// counted from the least significant bit. Bits of `data` behind `len` carry no
/// meaning.
#[derive(Debug, PartialEq, Eq)]
pub struct TydiBinary {
    pub data: Vec<u8>,
    pub len: usize,
}

/// The number of bytes that hold `len` bits.
pub fn bytes_for(len: usize) -> (r: usize)
    ensures
        r == byte_count(len as nat),
{
    if len % 8 == 0 {
        len / 8
    } else {
        len / 8 + 1
    }
}

/// The eight bits of the first `len` bits of `data` from position `pos` on, as a
/// byte: the part of the byte at `pos / 8` from bit `pos % 8` up, and above it
/// the low bits of the byte that follows. Positions from `len` on read as unset.
fn window_in(data: &Vec<u8>, len: usize, pos: usize) -> (r: u8)
    requires
        len <= 8 * data@.len(),
    ensures
        r == window(bits_of(data@, len as nat), pos as int),
{
    let ghost s = bits_of(data@, len as nat);
    if pos >= len {
        proof {
            assert forall|i: int| 0 <= i < 8 implies bit(0u8, i) == flag(s, pos + i) by {
                lemma_bit_zero(i);
            }
            lemma_window_unique(0u8, s, pos as int);
        }
        return 0u8;
    }
    let q = pos / 8;
    let t = (pos % 8) as u8;
    let avail = len - pos;
    let lo = data[q];
    let hi = if q + 1 < data.len() {
        data[q + 1]
    } else {
        0u8
    };
    let raw = if t == 0 {
        lo
    } else {
        (lo >> t) | (hi << (8 - t))
    };
    let r = if avail >= 8 {
        raw
    } else {
        raw & (0xFFu8 >> (8 - avail as u8))
    };
    proof {
        assert forall|i: int| 0 <= i < 8 implies bit(r, i) == flag(s, pos + i) by {
            let k = pos + i;
            if t != 0 {
                lemma_bit_or(lo >> t, hi << ((8 - t) as u8), i);
                lemma_bit_shr(lo, t, i);
                lemma_bit_shl(hi, (8 - t) as u8, i);
            }
            if avail < 8 {
                lemma_bit_and(raw, 0xFFu8 >> ((8 - avail) as u8), i);
                lemma_bit_low_mask(avail as u8, i);
            }
            if i + t < 8 {
                assert(k / 8 == q && k % 8 == i + t);
            } else {
                assert(k / 8 == q + 1 && k % 8 == i + t - 8);
                lemma_bit_zero(i + t - 8);
            }
        }
        lemma_window_unique(r, s, pos as int);
    }
    r
}

/// The bits `start..end` of `data`, packed.
fn packed(data: &Vec<u8>, start: usize, end: usize) -> (r: Vec<u8>)
    requires
        start <= end <= 8 * data@.len(),
    ensures
        r@ == pack(bits_of(data@, end as nat).skip(start as int)),
{
    let ghost s = bits_of(data@, end as nat);
    let count = bytes_for(end - start);
    let mut out: Vec<u8> = Vec::new();
    let mut j: usize = 0;
    while j < count
        invariant
            start <= end <= 8 * data@.len(),
            s == bits_of(data@, end as nat),
            count == byte_count((end - start) as nat),
            j <= count,
            out@.len() == j,
            forall|x: int| 0 <= x < j ==> out@[x] == window(s.skip(start as int), 8 * x),
        decreases count - j,
    {
        let byte = window_in(data, end, start + 8 * j);
        proof {
            lemma_window_skip(s, start as int, 8 * j);
        }
        out.push(byte);
        j += 1;
    }
    assert(out@ =~= pack(s.skip(start as int)));
    out
}

impl View for TydiBinary {
    type V = Seq<bool>;

    /// The bits that the buffer holds, in order.
    open spec fn view(&self) -> Seq<bool> {
        bits_of(self.data@, self.len as nat)
    }
}

impl Clone for TydiBinary {
    fn clone(&self) -> (r: Self)
        ensures
            r.data@ == self.data@,
            r.len == self.len,
    {
        let data = self.data.clone();
        assert(data@ =~= self.data@);
        TydiBinary { data, len: self.len }
    }
}

impl TydiBinary {
    /// The bytes hold at least `len` bits.
    pub open spec fn wf(&self) -> bool {
        self.len <= 8 * self.data@.len()
    }

    /// The buffer has no spare byte and no set bit behind its length, so that
    /// its bytes are determined by its bits.
    pub open spec fn canonical(&self) -> bool {
        self.data@ == pack(self@)
    }

    /// The buffer without a bit.
    pub fn empty() -> (r: Self)
        ensures
            r.len == 0,
            r.data@ == Seq::<u8>::empty(),
            r@ == Seq::<bool>::empty(),
            r.wf(),
            r.canonical(),
    {
        let r = TydiBinary { data: Vec::new(), len: 0 };
        assert(r@ =~= Seq::<bool>::empty());
        assert(pack(r@) =~= Seq::<u8>::empty());
        r
    }

    /// The first `len` bits of `data`.
    pub fn new(data: Vec<u8>, len: usize) -> (r: Self)
        requires
            len <= 8 * data@.len(),
        ensures
            r.data == data,
            r.len == len,
            r.wf(),
    {
        TydiBinary { data, len }
    }

    /// The first `len` bits of `data`, if `data` holds that many.
    pub fn try_new(data: Vec<u8>, len: usize) -> (r: Result<Self, TydiError>)
        ensures
            len <= 8 * data@.len() ==> (r matches Ok(b) && b.data == data && b.len == len
                && b.wf()),
            len > 8 * data@.len() ==> r == Err::<Self, TydiError>(TydiError::InvalidLength),
    {
        if bytes_for(len) <= data.len() {
            Ok(TydiBinary { data, len })
        } else {
            Err(TydiError::InvalidLength)
        }
    }

    /// Whether the bytes hold at least `len` bits.
    pub fn is_wf(&self) -> (r: bool)
        ensures
            r == self.wf(),
    {
        bytes_for(self.len) <= self.data.len()
    }

    /// The eight bits from position `pos` on, as a byte. Positions behind the end
    /// of the buffer read as unset.
    pub fn byte_at(&self, pos: usize) -> (r: u8)
        requires
            self.wf(),
        ensures
            r == window(self@, pos as int),
    {
        window_in(&self.data, self.len, pos)
    }

    /// The bits of `self`, then the bits of `other`.
    ///
    /// Behind a whole number of bytes the bytes of `other` are appended as they
    /// are. Otherwise every byte of `other` is split: its low bits fill the last
    /// byte of the result, its high bits are carried into a new byte, which is
    /// written only if it holds a bit.
    pub fn concatenate(&self, other: &Self) -> (r: Self)
        requires
            self.wf(),
            other.wf(),
            self.len + other.len <= usize::MAX,
        ensures
            r.wf(),
            r.len == self.len + other.len,
            r@ == self@ + other@,
            self.len % 8 == 0 ==> r.data@ == self.data@.take(self.len as int / 8) + other.data@,
            self.len == 8 * self.data@.len() ==> r.data@ == self.data@ + other.data@,
            self.len % 8 != 0 ==> r.canonical(),
    {
        assert(self.data@.take(self.data@.len() as int) =~= self.data@);
        if self.len == 0 {
            let r = other.clone();
            assert(r@ =~= self@ + other@);
            assert(r.data@ =~= self.data@.take(0) + other.data@);
            return r;
        }
        let new_len = self.len + other.len;
        let self_tail_bits = (self.len % 8) as u8;
        let full_bytes = self.len / 8;
        let ghost all = self@ + other@;

        if self_tail_bits == 0 {
            let mut new_data: Vec<u8> = Vec::new();
            let mut i: usize = 0;
            while i < full_bytes
                invariant
                    full_bytes <= self.data@.len(),
                    i <= full_bytes,
                    new_data@ == self.data@.take(i as int),
                decreases full_bytes - i,
            {
                new_data.push(self.data[i]);
                assert(new_data@ =~= self.data@.take(i + 1));
                i += 1;
            }
            let mut j: usize = 0;
            while j < other.data.len()
                invariant
                    j <= other.data@.len(),
                    new_data@ == self.data@.take(full_bytes as int) + other.data@.take(j as int),
                decreases other.data@.len() - j,
            {
                new_data.push(other.data[j]);
                assert(new_data@ =~= self.data@.take(full_bytes as int) + other.data@.take(j + 1));
                j += 1;
            }
            assert(other.data@.take(other.data@.len() as int) =~= other.data@);
            let r = TydiBinary { data: new_data, len: new_len };
            proof {
                assert forall|k: int| 0 <= k < new_len implies r@[k] == all[k] by {
                    if k >= self.len {
                        assert(k / 8 == full_bytes + (k - self.len) / 8);
                        assert(k % 8 == (k - self.len) % 8);
                    }
                }
                assert(r@ =~= all);
            }
            return r;
        }
        let tail_space = 8 - self_tail_bits;
        let mut new_data = packed(&self.data, 0, self.len);
        let ghost a = self@;
        let ghost b = other@;
        proof {
            assert(bits_of(self.data@, self.len as nat).skip(0) =~= a);
            assert(joined_prefix(a, b, 0) =~= a);
        }
        let other_bytes = bytes_for(other.len);
        let mut i: usize = 0;
        while i < other_bytes
            invariant
                other.wf(),
                b == other@,
                a.len() == self.len,
                b.len() == other.len,
                0 < self_tail_bits < 8,
                self_tail_bits == a.len() % 8,
                full_bytes == a.len() / 8,
                tail_space == 8 - self_tail_bits,
                other_bytes == byte_count(b.len()),
                i <= other_bytes,
                new_data@ == pack(joined_prefix(a, b, i as int)),
            decreases other_bytes - i,
        {
            let other_byte = other.byte_at(8 * i);
            proof {
                lemma_join_step(a, b, i as int, other_byte);
            }
            let last = new_data.len() - 1;
            let fill = new_data[last] | (other_byte << self_tail_bits);
            new_data.set(last, fill);
            if other.len - 8 * i > tail_space as usize {
                new_data.push(other_byte >> tail_space);
            }
            i += 1;
        }
        proof {
            assert(joined_prefix(a, b, other_bytes as int) =~= a + b);
            lemma_bits_of_pack(a + b);
        }
        TydiBinary { data: new_data, len: new_len }
    }

    /// The first `len1` bits, and the rest.
    ///
    /// The first part copies whole bytes and masks the last one. The second part
    /// joins, for each of its bytes, the high bits of one byte of `self` with the
    /// low bits of the next; behind the end of `self` it reads zero.
    pub fn split(&self, len1: usize) -> (r: (Self, Self))
        requires
            self.wf(),
            len1 <= self.len,
        ensures
            r.0.len == len1,
            r.1.len == self.len - len1,
            r.0@ == self@.take(len1 as int),
            r.1@ == self@.skip(len1 as int),
            r.0.wf(),
            r.1.wf(),
            r.0.canonical(),
            r.1.canonical(),
    {
        let len2 = self.len - len1;
        let data1 = packed(&self.data, 0, len1);
        let data2 = packed(&self.data, len1, self.len);
        let bin1 = TydiBinary { data: data1, len: len1 };
        let bin2 = TydiBinary { data: data2, len: len2 };
        proof {
            assert(bits_of(self.data@, len1 as nat).skip(0) =~= self@.take(len1 as int));
            lemma_bits_of_pack(self@.take(len1 as int));
            lemma_bits_of_pack(self@.skip(len1 as int));
        }
        (bin1, bin2)
    }

    /// The first `len1` bits and the rest, if the buffer holds that many.
    pub fn try_split(&self, len1: usize) -> (r: Result<(Self, Self), TydiError>)
        ensures
            self.wf() && len1 <= self.len ==> (r matches Ok(p) && p.0.len == len1 && p.1.len
                == self.len - len1 && p.0@ == self@.take(len1 as int) && p.1@ == self@.skip(
                len1 as int,
            ) && p.0.canonical() && p.1.canonical()),
            !(self.wf() && len1 <= self.len) ==> r == Err::<(Self, Self), TydiError>(
                TydiError::InvalidLength,
            ),
    {
        if self.is_wf() && len1 <= self.len {
            Ok(self.split(len1))
        } else {
            Err(TydiError::InvalidLength)
        }
    }

    /// Bit `k` of the buffer.
    pub fn bit_at(&self, k: usize) -> (r: bool)
        requires
            self.wf(),
            k < self.len,
        ensures
            r == self@[k as int],
    {
        (self.data[k / 8] >> ((k % 8) as u8)) & 1u8 == 1u8
    }

    /// The bits as text: `0b`, then one digit for each bit, the last bit first.
    pub fn to_string(&self) -> (r: String)
        requires
            self.wf(),
        ensures
            r@ == bit_text(self@),
    {
        let mut text = String::new();
        text.append("0b");
        proof {
            reveal_strlit("0b");
            reveal_strlit("0");
            reveal_strlit("1");
        }
        let mut k: usize = self.len;
        while k > 0
            invariant
                self.wf(),
                k <= self.len,
                text@ == bit_text(self@).take(2 + self.len - k),
                "0"@ == seq!['0'],
                "1"@ == seq!['1'],
            decreases k,
        {
            k -= 1;
            if self.bit_at(k) {
                text.append("1");
            } else {
                text.append("0");
            }
            assert(text@ =~= bit_text(self@).take(2 + self.len - k));
        }
        assert(bit_text(self@).take(2 + self.len) =~= bit_text(self@));
        text
    }

    /// The bits as text, grouped by byte: one digit for each bit, the last bit
    /// first, and a space where a byte ends.
    pub fn to_grouped_string(&self) -> (r: String)
        requires
            self.wf(),
        ensures
            r@ == grouped_text(self@),
    {
        let mut text = String::new();
        proof {
            reveal_strlit(" ");
            reveal_strlit("0");
            reveal_strlit("1");
        }
        let mut k: usize = self.len;
        while k > 0
            invariant
                self.wf(),
                k <= self.len,
                text@ == grouped_upto(self@, self.len - k),
                " "@ == seq![' '],
                "0"@ == seq!['0'],
                "1"@ == seq!['1'],
            decreases k,
        {
            k -= 1;
            if k + 1 < self.len && k % 8 == 7 {
                text.append(" ");
            }
            if self.bit_at(k) {
                text.append("1");
            } else {
                text.append("0");
            }
            assert(text@ =~= grouped_upto(self@, self.len - k));
        }
        text
    }

    /// The bytes that hold the bits as text: two hexadecimal digits for each
    /// byte, the last byte first, and a space between two bytes. Bits behind
    /// the length show as they are.
    pub fn to_hex_string(&self) -> (r: String)
        requires
            self.wf(),
        ensures
            r@ == hex_text(self.data@, byte_count(self.len as nat) as int),
    {
        let digits = "0123456789abcdef";
        let mut text = String::new();
        proof {
            reveal_strlit(" ");
            reveal_strlit("0123456789abcdef");
        }
        let count = bytes_for(self.len);
        let mut j: usize = count;
        while j > 0
            invariant
                count <= self.data@.len(),
                j <= count,
                text@ == hex_upto(self.data@, count as int, count - j),
                " "@ == seq![' '],
                digits@ == "0123456789abcdef"@,
                digits@.len() == 16,
                digits.is_ascii(),
            decreases j,
        {
            j -= 1;
            if j + 1 < count {
                text.append(" ");
            }
            let byte = self.data[j];
            let high = (byte >> 4u8) as usize;
            let low = (byte & 0x0fu8) as usize;
            assert(high < 16 && low < 16) by (bit_vector)
                requires
                    high == (byte >> 4u8) as usize,
                    low == (byte & 0x0fu8) as usize,
            ;
            text.append(digits.substring_ascii(high, high + 1));
            text.append(digits.substring_ascii(low, low + 1));
            assert(text@ =~= hex_upto(self.data@, count as int, count - j));
        }
        text
    }

    /// The first `8 * size_of::<T>()` bits as a `T`, and the rest. The `T` is
    /// what `bytemuck` reads out of the bytes that hold those bits.
    pub fn split_for<T: bytemuck::Pod>(&self) -> (r: (T, TydiBinary))
        requires
            self.wf(),
            8 * size_of::<T>() <= self.len,
        ensures
            r.1.len == self.len - 8 * size_of::<T>(),
            r.1@ == self@.skip(8 * size_of::<T>() as int),
            r.1.wf(),
            r.1.canonical(),
    {
        let len = core::mem::size_of::<T>() * 8;
        let (split1, split2) = self.split(len);
        let val: T = read_pod(&split1.data);
        (val, split2)
    }
}

/// The digit of a bit.
pub open spec fn digit_of(b: bool) -> char {
    if b {
        '1'
    } else {
        '0'
    }
}

/// The text of a bit sequence: `0b`, then one digit for each bit, the last bit
/// first.
pub open spec fn bit_text(s: Seq<bool>) -> Seq<char> {
    seq!['0', 'b'] + Seq::new(s.len(), |i: int| digit_of(s[s.len() - 1 - i]))
}

/// The text of the last `j` bits of `s`, the last bit first, with a space
/// where a byte ends.
pub open spec fn grouped_upto(s: Seq<bool>, j: int) -> Seq<char>
    decreases j,
{
    if j <= 0 {
        Seq::empty()
    } else {
        let k = s.len() - j;
        let before = grouped_upto(s, j - 1);
        let spaced = if j > 1 && k % 8 == 7 {
            before.push(' ')
        } else {
            before
        };
        spaced.push(digit_of(s[k]))
    }
}

/// The text of a bit sequence, grouped by byte: one digit for each bit, the
/// last bit first, and a space where a byte ends.
pub open spec fn grouped_text(s: Seq<bool>) -> Seq<char> {
    grouped_upto(s, s.len() as int)
}

/// The hexadecimal digit of a number below 16.
pub open spec fn hex_digit(n: int) -> char {
    "0123456789abcdef"@[n]
}

/// The text of the last `j` of the first `count` bytes of `data`, the last
/// byte first: two hexadecimal digits each, and a space between two bytes.
pub open spec fn hex_upto(data: Seq<u8>, count: int, j: int) -> Seq<char>
    decreases j,
{
    if j <= 0 {
        Seq::empty()
    } else {
        let byte = data[count - j];
        let before = hex_upto(data, count, j - 1);
        let spaced = if j > 1 {
            before.push(' ')
        } else {
            before
        };
        spaced.push(hex_digit((byte >> 4u8) as int)).push(hex_digit((byte & 0x0fu8) as int))
    }
}

/// The text of the first `count` bytes of `data`, the last byte first.
pub open spec fn hex_text(data: Seq<u8>, count: int) -> Seq<char> {
    hex_upto(data, count, count)
}

/// `bytemuck::pod_read_unaligned`: the value whose bytes in memory are `bytes`.
/// Nothing is stated of the value. The call needs as many bytes as a `T` has.
#[verifier::external_body]
fn read_pod<T: bytemuck::Pod>(bytes: &Vec<u8>) -> (r: T)
    requires
        bytes@.len() == size_of::<T>(),
{
    bytemuck::pod_read_unaligned(bytes.as_slice())
}

/// The bytes of the UTF-8 form of `c`: one byte for a character below `0x80`,
/// else a leading byte that says how many bytes follow, and six bits in each
/// byte that follows.
fn utf8_of_char(c: char) -> (r: Vec<u8>)
    ensures
        r@ == encode_scalar(c as u32),
{
    let scalar = c as u32;
    let mut bytes: Vec<u8> = Vec::new();
    if scalar <= 0x7F {
        bytes.push(#[verifier::truncate] ((scalar & 0x7F) as u8));
    } else if scalar <= 0x7FF {
        bytes.push(0xC0 | #[verifier::truncate] (((scalar >> 6) & 0x1F) as u8));
        bytes.push(0x80 | #[verifier::truncate] ((scalar & 0x3F) as u8));
    } else if scalar <= 0xFFFF {
        bytes.push(0xE0 | #[verifier::truncate] (((scalar >> 12) & 0x0F) as u8));
        bytes.push(0x80 | #[verifier::truncate] (((scalar >> 6) & 0x3F) as u8));
        bytes.push(0x80 | #[verifier::truncate] ((scalar & 0x3F) as u8));
    } else {
        bytes.push(0xF0 | #[verifier::truncate] (((scalar >> 18) & 0x7) as u8));
        bytes.push(0x80 | #[verifier::truncate] (((scalar >> 12) & 0x3F) as u8));
        bytes.push(0x80 | #[verifier::truncate] (((scalar >> 6) & 0x3F) as u8));
        bytes.push(0x80 | #[verifier::truncate] ((scalar & 0x3F) as u8));
    }
    assert(bytes@ =~= encode_scalar(scalar));
    bytes
}

/// A type with a binary form of fixed width that can be read off the front of
/// a buffer.
pub trait FromTydiBinary: Sized {
    /// Whether the implementation reads what `decoded` says. One that does not
    /// say so promises nothing of the value it reads.
    open spec fn obeys_decoded() -> bool {
        false
    }

    /// The number of bits that a value takes. An implementation that does not
    /// say so accepts every buffer.
    open spec fn bit_width() -> nat {
        0
    }

    /// The value that the first `bit_width()` bits of `bits` stand for.
    open spec fn decoded(bits: Seq<bool>) -> Self {
        arbitrary()
    }

    /// The value at the front of `value`, and a buffer for what follows it.
    fn from_tydi_binary(value: TydiBinary) -> (r: (Self, TydiBinary))
        requires
            value.wf(),
            value@.len() >= Self::bit_width(),
        ensures
            Self::obeys_decoded() ==> r.0 == Self::decoded(value@),
    ;
}

impl FromTydiBinary for bool {
    open spec fn obeys_decoded() -> bool {
        true
    }

    open spec fn bit_width() -> nat {
        1
    }

    open spec fn decoded(bits: Seq<bool>) -> bool {
        bits[0]
    }

    fn from_tydi_binary(value: TydiBinary) -> (r: (bool, TydiBinary))
        ensures
            r.1.len == value.len - 1,
            r.1@ == value@.skip(1),
            r.1.wf(),
            r.1.canonical(),
    {
        let (bin1, bin2) = value.split(1);
        let byte = bin1.data[0];
        proof {
            assert forall|i: int| 1 <= i < 8 implies !bit(byte, i) by {
                lemma_window_bit(bin1@, 0, i);
            }
            lemma_low_bit_nonzero(byte);
            lemma_window_bit(bin1@, 0, 0);
        }
        (byte != 0, bin2)
    }
}

impl From<bool> for TydiBinary {
    /// One bit.
    fn from(value: bool) -> (r: Self)
        ensures
            r.len == 1,
            r@ == seq![value],
            r.data@ == seq![if value { 1u8 } else { 0u8 }],
            r.wf(),
            r.canonical(),
    {
        let byte = if value {
            1u8
        } else {
            0u8
        };
        let mut data: Vec<u8> = Vec::new();
        data.push(byte);
        let r = TydiBinary { data, len: 1 };
        proof {
            assert forall|i: int| 0 <= i < 8 implies bit(byte, i) == flag(seq![value], i) by {
                lemma_bit_single(0, i);
                lemma_bit_zero(i);
                assert(1u8 << 0u8 == 1u8) by (bit_vector);
            }
            lemma_window_unique(byte, seq![value], 0);
            assert(r.data@ =~= pack(seq![value]));
            lemma_bits_of_pack(seq![value]);
        }
        r
    }
}

impl vstd::std_specs::convert::FromSpecImpl<bool> for TydiBinary {
    open spec fn obeys_from_spec() -> bool {
        false
    }

    open spec fn from_spec(v: bool) -> Self {
        arbitrary()
    }
}

impl From<char> for TydiBinary {
    /// The UTF-8 form of the character, of which the first byte counts: a
    /// character is one code unit of eight bits.
    fn from(value: char) -> (r: Self)
        ensures
            r.len == 8,
            r.data@ == encode_scalar(value as u32),
            r.wf(),
    {
        let data = utf8_of_char(value);
        TydiBinary { data, len: 8 }
    }
}

impl vstd::std_specs::convert::FromSpecImpl<char> for TydiBinary {
    open spec fn obeys_from_spec() -> bool {
        false
    }

    open spec fn from_spec(v: char) -> Self {
        arbitrary()
    }
}

impl From<Vec<bool>> for TydiBinary {
    /// One bit for each flag, in order, eight to a byte.
    fn from(value: Vec<bool>) -> (r: Self)
        ensures
            r.len == value@.len(),
            r@ == value@,
            r.wf(),
            r.canonical(),
    {
        let bit_count = value.len();
        let byte_count = bytes_for(bit_count);
        let mut packed_bytes: Vec<u8> = Vec::new();
        let mut j: usize = 0;
        while j < byte_count
            invariant
                bit_count == value@.len(),
                byte_count == crate::bits::byte_count(bit_count as nat),
                j <= byte_count,
                packed_bytes@.len() == j,
                forall|x: int| 0 <= x < j ==> packed_bytes@[x] == window(value@, 8 * x),
            decreases byte_count - j,
        {
            let mut byte: u8 = 0;
            let mut bit_position: u8 = 0;
            proof {
                assert forall|x: int| 0 <= x < 8 implies !bit(byte, x) by {
                    lemma_bit_zero(x);
                }
            }
            while bit_position < 8
                invariant
                    bit_count == value@.len(),
                    8 * j < bit_count,
                    bit_position <= 8,
                    forall|x: int|
                        0 <= x < 8 ==> bit(byte, x) == (x < bit_position && flag(
                            value@,
                            8 * j + x,
                        )),
                decreases 8 - bit_position,
            {
                let k = 8 * j + bit_position as usize;
                if k < bit_count && value[k] {
                    let ghost before = byte;
                    byte |= 1u8 << bit_position;
                    proof {
                        assert forall|x: int| 0 <= x < 8 implies bit(byte, x) == (x < bit_position
                            + 1 && flag(value@, 8 * j + x)) by {
                            lemma_bit_or(before, 1u8 << bit_position, x);
                            lemma_bit_single(bit_position, x);
                        }
                    }
                }
                bit_position += 1;
            }
            proof {
                lemma_window_unique(byte, value@, 8 * j);
            }
            packed_bytes.push(byte);
            j += 1;
        }
        let r = TydiBinary { data: packed_bytes, len: bit_count };
        proof {
            assert(r.data@ =~= pack(value@));
            lemma_bits_of_pack(value@);
        }
        r
    }
}

impl vstd::std_specs::convert::FromSpecImpl<Vec<bool>> for TydiBinary {
    open spec fn obeys_from_spec() -> bool {
        false
    }

    open spec fn from_spec(v: Vec<bool>) -> Self {
        arbitrary()
    }
}

impl From<TydiBinary> for Vec<bool> {
    /// The bits of the buffer, one flag each. Of a buffer whose length exceeds
    /// what its bytes hold, the bits that the bytes hold.
    fn from(value: TydiBinary) -> (r: Self)
        ensures
            value.wf() ==> r@ == value@,
            !value.wf() ==> r@ == bits_of(value.data@, 8 * value.data@.len()),
    {
        let bit_count = if value.is_wf() {
            value.len
        } else {
            8 * value.data.len()
        };
        let held = TydiBinary { data: value.data, len: bit_count };
        let mut bools: Vec<bool> = Vec::new();
        let mut k: usize = 0;
        while k < bit_count
            invariant
                held.wf(),
                held.len == bit_count,
                k <= bit_count,
                bools@ == held@.take(k as int),
            decreases bit_count - k,
        {
            bools.push(held.bit_at(k));
            assert(bools@ =~= held@.take(k + 1));
            k += 1;
        }
        assert(held@.take(bit_count as int) =~= held@);
        bools
    }
}

impl vstd::std_specs::convert::FromSpecImpl<TydiBinary> for Vec<bool> {
    open spec fn obeys_from_spec() -> bool {
        false
    }

    open spec fn from_spec(v: TydiBinary) -> Self {
        arbitrary()
    }
}

/// Splitting a concatenation where its first part ends gives the two parts
/// back: bit for bit, and byte for byte where a part was canonical.
pub proof fn lemma_split_concatenation(a: TydiBinary, b: TydiBinary)
    ensures
        (a@ + b@).take(a.len as int) == a@,
        (a@ + b@).skip(a.len as int) == b@,
        a.canonical() ==> pack((a@ + b@).take(a.len as int)) == a.data@,
        b.canonical() ==> pack((a@ + b@).skip(a.len as int)) == b.data@,
{
    assert((a@ + b@).take(a.len as int) =~= a@);
    assert((a@ + b@).skip(a.len as int) =~= b@);
}

/// Concatenating the two parts of a split gives the buffer back: bit for bit,
/// and byte for byte where the buffer was canonical.
pub proof fn lemma_concatenation_of_split(x: TydiBinary, n: usize)
    requires
        n <= x.len,
    ensures
        x@.take(n as int) + x@.skip(n as int) == x@,
        x.canonical() && n % 8 == 0 ==> pack(x@.take(n as int)).take(n as int / 8) + pack(
            x@.skip(n as int),
        ) == x.data@,
        x.canonical() && n % 8 != 0 ==> pack(x@.take(n as int) + x@.skip(n as int)) == x.data@,
{
    assert(x@.take(n as int) + x@.skip(n as int) =~= x@);
    if n % 8 == 0 {
        lemma_pack_concat_aligned(x@.take(n as int), x@.skip(n as int));
        assert(pack(x@.take(n as int)).take(n as int / 8) =~= pack(x@.take(n as int)));
    }
}

/// Two canonical buffers with the same bits have the same bytes.
pub proof fn lemma_canonical_bytes(a: TydiBinary, b: TydiBinary)
    requires
        a.canonical(),
        b.canonical(),
        a@ == b@,
    ensures
        a.data@ == b.data@,
        a.len == b.len,
{
    assert(a@.len() == a.len);
    assert(b@.len() == b.len);
}

} // verus!
