//! Bit sequences and their packing into bytes.
//!
//! A buffer of bytes holds bit `k` of a sequence in byte `k / 8`, at bit `k % 8`,
//! counted from the least significant bit. This module states that layout and
//! proves the facts about shifts and masks that the buffer operations rest on.

use vstd::prelude::*;

verus! {

/// Whether bit `i` of `byte` is set; bit 0 is the least significant one.
pub open spec fn bit(byte: u8, i: int) -> bool {
    0 <= i < 8 && (byte >> (i as u8)) & 1u8 == 1u8
}

/// The first `len` bits that `data` holds.
pub open spec fn bits_of(data: Seq<u8>, len: nat) -> Seq<bool> {
    Seq::new(len, |k: int| bit(data[k / 8], k % 8))
}

/// Bit `k` of `s`, read as unset outside of `s`.
pub open spec fn flag(s: Seq<bool>, k: int) -> bool {
    0 <= k < s.len() && s[k]
}

/// `value` if the bit is set, zero if not.
pub open spec fn weight(b: bool, value: u8) -> u8 {
    if b {
        value
    } else {
        0u8
    }
}

/// The byte whose bit `i` is `b[i]`.
pub open spec fn byte_of(
    b0: bool,
    b1: bool,
    b2: bool,
    b3: bool,
    b4: bool,
    b5: bool,
    b6: bool,
    b7: bool,
) -> u8 {
    weight(b0, 1) | weight(b1, 2) | weight(b2, 4) | weight(b3, 8) | weight(b4, 16) | weight(b5, 32)
        | weight(b6, 64) | weight(b7, 128)
}

/// The eight bits of `s` from position `pos` on, as a byte; positions outside of
/// `s` read as unset.
pub open spec fn window(s: Seq<bool>, pos: int) -> u8 {
    byte_of(
        flag(s, pos),
        flag(s, pos + 1),
        flag(s, pos + 2),
        flag(s, pos + 3),
        flag(s, pos + 4),
        flag(s, pos + 5),
        flag(s, pos + 6),
        flag(s, pos + 7),
    )
}

/// The number of bytes that hold `len` bits.
pub open spec fn byte_count(len: nat) -> nat {
    ((len + 7) / 8) as nat
}

/// The bytes that hold `s` and nothing else: as few as can be, with the unused
/// bits of the last byte unset.
pub open spec fn pack(s: Seq<bool>) -> Seq<u8> {
    Seq::new(byte_count(s.len()), |j: int| window(s, 8 * j))
}

/// Bit `i` of `byte_of(b0, .., b7)` is `b[i]`.
proof fn lemma_byte_of_bit(
    b0: bool,
    b1: bool,
    b2: bool,
    b3: bool,
    b4: bool,
    b5: bool,
    b6: bool,
    b7: bool,
)
    ensures
        bit(byte_of(b0, b1, b2, b3, b4, b5, b6, b7), 0) == b0,
        bit(byte_of(b0, b1, b2, b3, b4, b5, b6, b7), 1) == b1,
        bit(byte_of(b0, b1, b2, b3, b4, b5, b6, b7), 2) == b2,
        bit(byte_of(b0, b1, b2, b3, b4, b5, b6, b7), 3) == b3,
        bit(byte_of(b0, b1, b2, b3, b4, b5, b6, b7), 4) == b4,
        bit(byte_of(b0, b1, b2, b3, b4, b5, b6, b7), 5) == b5,
        bit(byte_of(b0, b1, b2, b3, b4, b5, b6, b7), 6) == b6,
        bit(byte_of(b0, b1, b2, b3, b4, b5, b6, b7), 7) == b7,
{
    let x = byte_of(b0, b1, b2, b3, b4, b5, b6, b7);
    assert(((x >> 0u8) & 1u8 == 1u8) == b0 && ((x >> 1u8) & 1u8 == 1u8) == b1 && ((x >> 2u8) & 1u8
        == 1u8) == b2 && ((x >> 3u8) & 1u8 == 1u8) == b3 && ((x >> 4u8) & 1u8 == 1u8) == b4 && ((x
        >> 5u8) & 1u8 == 1u8) == b5 && ((x >> 6u8) & 1u8 == 1u8) == b6 && ((x >> 7u8) & 1u8 == 1u8)
        == b7) by (bit_vector)
        requires
            x == byte_of(b0, b1, b2, b3, b4, b5, b6, b7),
    ;
}

/// Two bytes with the same eight bits are the same byte.
pub proof fn lemma_byte_ext(x: u8, y: u8)
    requires
        forall|i: int| 0 <= i < 8 ==> bit(x, i) == bit(y, i),
    ensures
        x == y,
{
    assert(bit(x, 0) == bit(y, 0));
    assert(bit(x, 1) == bit(y, 1));
    assert(bit(x, 2) == bit(y, 2));
    assert(bit(x, 3) == bit(y, 3));
    assert(bit(x, 4) == bit(y, 4));
    assert(bit(x, 5) == bit(y, 5));
    assert(bit(x, 6) == bit(y, 6));
    assert(bit(x, 7) == bit(y, 7));
    assert(x == y) by (bit_vector)
        requires
            ((x >> 0u8) & 1u8 == 1u8) == ((y >> 0u8) & 1u8 == 1u8),
            ((x >> 1u8) & 1u8 == 1u8) == ((y >> 1u8) & 1u8 == 1u8),
            ((x >> 2u8) & 1u8 == 1u8) == ((y >> 2u8) & 1u8 == 1u8),
            ((x >> 3u8) & 1u8 == 1u8) == ((y >> 3u8) & 1u8 == 1u8),
            ((x >> 4u8) & 1u8 == 1u8) == ((y >> 4u8) & 1u8 == 1u8),
            ((x >> 5u8) & 1u8 == 1u8) == ((y >> 5u8) & 1u8 == 1u8),
            ((x >> 6u8) & 1u8 == 1u8) == ((y >> 6u8) & 1u8 == 1u8),
            ((x >> 7u8) & 1u8 == 1u8) == ((y >> 7u8) & 1u8 == 1u8),
    ;
}

/// Bit `i` of a window is the bit of the sequence at that place.
pub proof fn lemma_window_bit(s: Seq<bool>, pos: int, i: int)
    requires
        0 <= i < 8,
    ensures
        bit(window(s, pos), i) == flag(s, pos + i),
{
    lemma_byte_of_bit(
        flag(s, pos),
        flag(s, pos + 1),
        flag(s, pos + 2),
        flag(s, pos + 3),
        flag(s, pos + 4),
        flag(s, pos + 5),
        flag(s, pos + 6),
        flag(s, pos + 7),
    );
}

/// A byte that agrees with the sequence bit by bit is the window at that place.
pub proof fn lemma_window_unique(x: u8, s: Seq<bool>, pos: int)
    requires
        forall|i: int| 0 <= i < 8 ==> bit(x, i) == flag(s, pos + i),
    ensures
        x == window(s, pos),
{
    assert forall|i: int| 0 <= i < 8 implies bit(x, i) == bit(window(s, pos), i) by {
        lemma_window_bit(s, pos, i);
    }
    lemma_byte_ext(x, window(s, pos));
}


/// A right shift moves bit `i + s` down to bit `i`.
pub proof fn lemma_bit_shr(x: u8, s: u8, i: int)
    requires
        s < 8,
        0 <= i < 8,
    ensures
        bit(x >> s, i) == bit(x, i + s),
{
    let j = i as u8;
    assert(((x >> s) >> j) & 1u8 == 1u8 <==> j + s < 8 && (x >> ((j + s) as u8)) & 1u8 == 1u8)
        by (bit_vector)
        requires
            s < 8,
            j < 8,
    ;
}

/// A left shift moves bit `i - t` up to bit `i` and leaves the low `t` bits unset.
pub proof fn lemma_bit_shl(x: u8, t: u8, i: int)
    requires
        t < 8,
        0 <= i < 8,
    ensures
        bit(x << t, i) == (i >= t && bit(x, i - t)),
{
    let j = i as u8;
    assert(((x << t) >> j) & 1u8 == 1u8 <==> j >= t && (x >> ((j - t) as u8)) & 1u8 == 1u8)
        by (bit_vector)
        requires
            t < 8,
            j < 8,
    ;
}

/// A bit of `x | y` is set where it is set in `x` or in `y`.
pub proof fn lemma_bit_or(x: u8, y: u8, i: int)
    requires
        0 <= i < 8,
    ensures
        bit(x | y, i) == (bit(x, i) || bit(y, i)),
{
    let j = i as u8;
    assert(((x | y) >> j) & 1u8 == 1u8 <==> (x >> j) & 1u8 == 1u8 || (y >> j) & 1u8 == 1u8)
        by (bit_vector)
        requires
            j < 8,
    ;
}

/// A bit of `x & y` is set where it is set in `x` and in `y`.
pub proof fn lemma_bit_and(x: u8, y: u8, i: int)
    requires
        0 <= i < 8,
    ensures
        bit(x & y, i) == (bit(x, i) && bit(y, i)),
{
    let j = i as u8;
    assert(((x & y) >> j) & 1u8 == 1u8 <==> (x >> j) & 1u8 == 1u8 && (y >> j) & 1u8 == 1u8)
        by (bit_vector)
        requires
            j < 8,
    ;
}

/// `0xFF >> (8 - n)` has exactly its low `n` bits set.
pub proof fn lemma_bit_low_mask(n: u8, i: int)
    requires
        1 <= n <= 8,
        0 <= i < 8,
    ensures
        bit(0xFFu8 >> ((8 - n) as u8), i) == (i < n),
{
    let j = i as u8;
    assert(((0xFFu8 >> ((8 - n) as u8)) >> j) & 1u8 == 1u8 <==> j < n) by (bit_vector)
        requires
            1 <= n <= 8,
            j < 8,
    ;
}

/// `1 << t` has bit `t` set and no other.
pub proof fn lemma_bit_single(t: u8, i: int)
    requires
        t < 8,
        0 <= i < 8,
    ensures
        bit(1u8 << t, i) == (i == t),
{
    let j = i as u8;
    assert(((1u8 << t) >> j) & 1u8 == 1u8 <==> j == t) by (bit_vector)
        requires
            t < 8,
            j < 8,
    ;
}

/// No bit of zero is set.
pub proof fn lemma_bit_zero(i: int)
    ensures
        !bit(0u8, i),
{
    if 0 <= i < 8 {
        let j = i as u8;
        assert(!((0u8 >> j) & 1u8 == 1u8)) by (bit_vector)
            requires
                j < 8,
        ;
    }
}

/// A byte is non-zero exactly when its bit 0 is set, if no other bit is.
pub proof fn lemma_low_bit_nonzero(x: u8)
    requires
        forall|i: int| 1 <= i < 8 ==> !bit(x, i),
    ensures
        (x != 0) == bit(x, 0),
{
    assert(!bit(x, 1) && !bit(x, 2) && !bit(x, 3) && !bit(x, 4) && !bit(x, 5) && !bit(x, 6) && !bit(
        x,
        7,
    ));
    assert((x != 0) == ((x >> 0u8) & 1u8 == 1u8)) by (bit_vector)
        requires
            !((x >> 1u8) & 1u8 == 1u8),
            !((x >> 2u8) & 1u8 == 1u8),
            !((x >> 3u8) & 1u8 == 1u8),
            !((x >> 4u8) & 1u8 == 1u8),
            !((x >> 5u8) & 1u8 == 1u8),
            !((x >> 6u8) & 1u8 == 1u8),
            !((x >> 7u8) & 1u8 == 1u8),
    ;
}

/// Unpacking what was packed gives the sequence back.
pub proof fn lemma_bits_of_pack(s: Seq<bool>)
    ensures
        bits_of(pack(s), s.len()) == s,
{
    assert forall|k: int| 0 <= k < s.len() implies bits_of(pack(s), s.len())[k] == s[k] by {
        lemma_window_bit(s, 8 * (k / 8), k % 8);
    }
    assert(bits_of(pack(s), s.len()) =~= s);
}

/// Bytes that hold a sequence in as few bytes as can be, with the unused bits of
/// the last byte unset, are the packing of that sequence.
pub proof fn lemma_pack_of_bits(data: Seq<u8>, len: nat)
    requires
        data.len() == byte_count(len),
        forall|k: int| len <= k < 8 * data.len() ==> !bit(#[trigger] data[k / 8], k % 8),
    ensures
        pack(bits_of(data, len)) == data,
{
    let s = bits_of(data, len);
    assert forall|j: int| 0 <= j < data.len() implies pack(s)[j] == data[j] by {
        assert forall|i: int| 0 <= i < 8 implies bit(data[j], i) == flag(s, 8 * j + i) by {
            let k = 8 * j + i;
            assert(k / 8 == j && k % 8 == i);
        }
        lemma_window_unique(data[j], s, 8 * j);
    }
    assert(pack(s) =~= data);
}

/// Behind a whole number of bytes, packing is byte-wise concatenation.
pub proof fn lemma_pack_concat_aligned(a: Seq<bool>, b: Seq<bool>)
    requires
        a.len() % 8 == 0,
    ensures
        pack(a + b) == pack(a) + pack(b),
{
    let q = a.len() / 8;
    assert forall|j: int| 0 <= j < byte_count((a + b).len()) implies pack(a + b)[j] == (pack(a)
        + pack(b))[j] by {
        if j < q {
            assert(window(a + b, 8 * j) == window(a, 8 * j));
        } else {
            assert(window(a + b, 8 * j) == window(b, 8 * (j - q)));
        }
    }
    assert(pack(a + b) =~= pack(a) + pack(b));
}

/// A window of what follows the first `start` bits is a window of the whole.
pub proof fn lemma_window_skip(s: Seq<bool>, start: int, pos: int)
    requires
        0 <= start <= s.len(),
        0 <= pos,
    ensures
        window(s.skip(start), pos) == window(s, start + pos),
{
    let w = window(s, start + pos);
    let rest = s.skip(start);
    assert forall|i: int| 0 <= i < 8 implies bit(w, i) == flag(rest, pos + i) by {
        lemma_window_bit(s, start + pos, i);
    }
    lemma_window_unique(w, rest, pos);
}

/// A window that ends inside the first `n` bits is a window of the whole.
pub proof fn lemma_window_take(s: Seq<bool>, n: int, pos: int)
    requires
        0 <= n <= s.len(),
        0 <= pos,
        pos + 8 <= n,
    ensures
        window(s.take(n), pos) == window(s, pos),
{
    let w = window(s, pos);
    let front = s.take(n);
    assert forall|i: int| 0 <= i < 8 implies bit(w, i) == flag(front, pos + i) by {
        lemma_window_bit(s, pos, i);
    }
    lemma_window_unique(w, front, pos);
}

/// How the packing grows when up to eight bits follow a prefix that ends
/// inside a byte: the low bits of `next` fill the last byte, and its high bits
/// make one more byte where the new end lies behind the last byte.
pub proof fn lemma_pack_extend(all: Seq<bool>, m: int, m2: int, next: u8)
    requires
        0 <= m <= m2 <= all.len(),
        m2 <= m + 8,
        m % 8 != 0,
        forall|x: int| 0 <= x < 8 ==> bit(next, x) == flag(all.take(m2), m + x),
    ensures
        pack(all.take(m)).len() == m / 8 + 1,
        pack(all.take(m2)) == ({
            let t = (m % 8) as u8;
            let before = pack(all.take(m));
            let filled = before.update(m / 8, before[m / 8] | (next << t));
            if m2 - m > 8 - t {
                filled.push(next >> ((8 - t) as u8))
            } else {
                filled
            }
        }),
{
    let t = (m % 8) as u8;
    let q = m / 8;
    let front = all.take(m);
    let longer = all.take(m2);
    let before = pack(front);
    let fill = before[q] | (next << t);
    let carry = next >> ((8 - t) as u8);
    let filled = before.update(q, fill);
    let after = if m2 - m > 8 - t {
        filled.push(carry)
    } else {
        filled
    };
    assert(before.len() == q + 1);
    assert(before[q] == window(front, 8 * q));
    assert forall|x: int| 0 <= x < 8 implies bit(fill, x) == flag(longer, 8 * q + x) by {
        lemma_bit_or(before[q], next << t, x);
        lemma_bit_shl(next, t, x);
        lemma_window_bit(front, 8 * q, x);
        if x >= t {
            assert(bit(next, x - t) == flag(longer, m + (x - t)));
        }
    }
    lemma_window_unique(fill, longer, 8 * q);
    assert forall|x: int| 0 <= x < 8 implies bit(carry, x) == flag(longer, 8 * q + 8 + x) by {
        lemma_bit_shr(next, (8 - t) as u8, x);
        if x + 8 - t < 8 {
            assert(bit(next, x + 8 - t) == flag(longer, m + (x + 8 - t)));
        }
    }
    lemma_window_unique(carry, longer, 8 * q + 8);
    assert(after.len() == pack(longer).len());
    assert forall|j: int| 0 <= j < after.len() implies after[j] == pack(longer)[j] by {
        if j < q {
            lemma_window_take(all, m, 8 * j);
            lemma_window_take(all, m2, 8 * j);
        }
    }
    assert(after =~= pack(longer));
}

/// The bits of `a + b` that are in place once `i` bytes of `b` have been taken in.
pub open spec fn joined_prefix(a: Seq<bool>, b: Seq<bool>, i: int) -> Seq<bool> {
    (a + b).take(
        if 8 * i <= b.len() {
            a.len() + 8 * i
        } else {
            (a + b).len() as int
        },
    )
}

/// One step of joining `b` to `a` where `a` ends inside a byte: byte `i` of `b`
/// fills the last byte and is carried into a new one if it holds more bits than
/// the last byte had room for.
pub proof fn lemma_join_step(a: Seq<bool>, b: Seq<bool>, i: int, next: u8)
    requires
        a.len() % 8 != 0,
        0 <= i,
        8 * i < b.len(),
        next == window(b, 8 * i),
    ensures
        pack(joined_prefix(a, b, i)).len() == a.len() / 8 + i + 1,
        pack(joined_prefix(a, b, i + 1)) == ({
            let t = (a.len() % 8) as u8;
            let last = a.len() / 8 + i;
            let before = pack(joined_prefix(a, b, i));
            let filled = before.update(last, before[last] | (next << t));
            if b.len() - 8 * i > 8 - t {
                filled.push(next >> ((8 - t) as u8))
            } else {
                filled
            }
        }),
{
    let all = a + b;
    let m = a.len() + 8 * i;
    let m2 = if 8 * (i + 1) <= b.len() {
        a.len() + 8 * (i + 1)
    } else {
        all.len() as int
    };
    assert(joined_prefix(a, b, i) == all.take(m));
    assert(joined_prefix(a, b, i + 1) == all.take(m2));
    assert forall|x: int| 0 <= x < 8 implies bit(next, x) == flag(all.take(m2), m + x) by {
        lemma_window_bit(b, 8 * i, x);
    }
    lemma_pack_extend(all, m, m2, next);
}

} // verus!
