//! Integers as bytes, in the byte order of the machine.
//!
//! An integer of `n` bytes is a sequence of `n` digits to the base 256. In
//! memory the digit of rank 0, the least significant one, comes first on a
//! little-endian machine and last on a big-endian one. Which of the two the
//! machine is, `vstd::endian::endianness()` says.

use vstd::endian::{endianness, Endian};
use vstd::prelude::*;

verus! {

/// `u16::from_ne_bytes`: the integer whose two bytes in memory are `first` and
/// `second`. On a little-endian machine `first` is its low byte, on a
/// big-endian machine its high byte.
#[verifier::external_body]
fn native_u16(first: u8, second: u8) -> (r: u16)
    ensures
        r == match endianness() {
            Endian::Little => first + 256 * second,
            Endian::Big => 256 * first + second,
        },
{
    u16::from_ne_bytes([first, second])
}

/// Whether the machine stores the least significant byte first.
pub fn little_endian() -> (r: bool)
    ensures
        r == (endianness() is Little),
{
    native_u16(1, 0) == 1
}

/// The rank of the digit that lies at index `m` in the memory of an integer of
/// `n` bytes.
pub open spec fn rank(n: nat, m: int) -> int {
    if endianness() is Little {
        m
    } else {
        n - 1 - m
    }
}

/// The digit of rank `k` of `v`.
pub open spec fn digit(v: u128, k: int) -> u8 {
    ((v >> ((8 * k) as u128)) & 0xffu128) as u8
}

/// The `n` low digits of `v`, as they lie in memory.
pub open spec fn native_bytes(v: u128, n: nat) -> Seq<u8> {
    Seq::new(n, |m: int| digit(v, rank(n, m)))
}

/// The integer made of the digits of `bytes` of a rank below `k`.
pub open spec fn value_below(bytes: Seq<u8>, k: int) -> u128
    decreases k,
{
    if k <= 0 {
        0u128
    } else {
        let byte = bytes[rank(bytes.len(), k - 1)];
        value_below(bytes, k - 1) | ((byte as u128) << ((8 * (k - 1)) as u128))
    }
}

/// The integer whose digits, as they lie in memory, are `bytes`.
pub open spec fn native_value(bytes: Seq<u8>) -> u128 {
    value_below(bytes, bytes.len() as int)
}

/// The first `n` bytes of `data`, with zero for each byte that `data` lacks.
pub open spec fn padded(data: Seq<u8>, n: nat) -> Seq<u8> {
    Seq::new(
        n,
        |m: int|
            if m < data.len() {
                data[m]
            } else {
                0u8
            },
    )
}

/// The mask of the `bits` low bits.
pub open spec fn low_mask(bits: int) -> u128 {
    if bits >= 128 {
        u128::MAX
    } else {
        !(u128::MAX << (bits as u128))
    }
}

/// The `n` low digits of `v`, as they lie in memory.
pub fn uint_to_bytes(v: u128, n: usize) -> (r: Vec<u8>)
    requires
        n <= 16,
    ensures
        r@ == native_bytes(v, n as nat),
{
    let little = little_endian();
    let mut out: Vec<u8> = Vec::new();
    let mut m: usize = 0;
    while m < n
        invariant
            n <= 16,
            little == (endianness() is Little),
            m <= n,
            out@.len() == m,
            forall|x: int| 0 <= x < m ==> out@[x] == digit(v, rank(n as nat, x)),
        decreases n - m,
    {
        let k = if little {
            m
        } else {
            n - 1 - m
        };
        let shift: u128 = 8 * (k as u128);
        let low = (v >> shift) & 0xffu128;
        assert(low < 256) by (bit_vector)
            requires
                low == (v >> shift) & 0xffu128,
        ;
        out.push(low as u8);
        m += 1;
    }
    assert(out@ =~= native_bytes(v, n as nat));
    out
}

/// The integer whose digits are the first `n` bytes of `bytes` as they lie in
/// memory, with zero for each byte that `bytes` lacks.
pub fn uint_from_bytes(bytes: &Vec<u8>, n: usize) -> (r: u128)
    requires
        n <= 16,
    ensures
        r == native_value(padded(bytes@, n as nat)),
{
    let little = little_endian();
    let ghost digits = padded(bytes@, n as nat);
    let mut acc: u128 = 0;
    let mut k: usize = 0;
    while k < n
        invariant
            n <= 16,
            little == (endianness() is Little),
            digits == padded(bytes@, n as nat),
            k <= n,
            acc == value_below(digits, k as int),
        decreases n - k,
    {
        let m = if little {
            k
        } else {
            n - 1 - k
        };
        let byte = if m < bytes.len() {
            bytes[m]
        } else {
            0u8
        };
        let shift: u128 = 8 * (k as u128);
        acc = acc | ((byte as u128) << shift);
        k += 1;
    }
    acc
}

/// Putting the low `n` bytes of an integer back together gives its low `8 * n`
/// bits.
pub proof fn lemma_value_below_bytes(v: u128, n: nat, k: int)
    requires
        n <= 16,
        0 <= k <= n,
    ensures
        value_below(native_bytes(v, n), k) == v & low_mask(8 * k),
    decreases k,
{
    let bytes = native_bytes(v, n);
    if k == 0 {
        assert(0u128 == v & !(u128::MAX << 0u128)) by (bit_vector);
    } else {
        lemma_value_below_bytes(v, n, k - 1);
        let shift = (8 * (k - 1)) as u128;
        let m = rank(n, k - 1);
        assert(rank(n, m) == k - 1);
        assert(bytes[m] == digit(v, k - 1));
        let low = v & low_mask(8 * (k - 1));
        let d = digit(v, k - 1);
        if k == 16 {
            assert(low | ((d as u128) << shift) == v & u128::MAX) by (bit_vector)
                requires
                    shift == 120,
                    low == v & !(u128::MAX << shift),
                    d == ((v >> shift) & 0xffu128) as u8,
            ;
        } else {
            let next = (8 * k) as u128;
            assert(low | ((d as u128) << shift) == v & !(u128::MAX << next)) by (bit_vector)
                requires
                    shift <= 112,
                    next == shift + 8,
                    low == v & !(u128::MAX << shift),
                    d == ((v >> shift) & 0xffu128) as u8,
            ;
        }
    }
}

/// An integer that fits into `n` bytes is the integer that its `n` bytes stand
/// for.
pub proof fn lemma_native_round_trip(v: u128, n: nat)
    requires
        n <= 16,
        v == v & low_mask(8 * n as int),
    ensures
        native_bytes(v, n).len() == n,
        native_value(native_bytes(v, n)) == v,
{
    lemma_value_below_bytes(v, n, n as int);
}

} // verus!
