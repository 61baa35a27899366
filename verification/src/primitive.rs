//! The integer types as buffers: the bytes of an integer as they lie in memory,
//! eight bits each, and back.

use crate::binary::{FromTydiBinary, TydiBinary};
use crate::bits::{bits_of, lemma_pack_of_bits, pack};
use crate::native::{
    lemma_native_round_trip, low_mask, native_bytes, native_value, padded, uint_from_bytes,
    uint_to_bytes,
};
use vstd::prelude::*;
use vstd::std_specs::convert::FromSpecImpl;

verus! {

/// The buffer of all the bits of `data`.
fn whole_bytes(data: Vec<u8>) -> (r: TydiBinary)
    requires
        data@.len() <= 16,
    ensures
        r.data == data,
        r.len == 8 * data@.len(),
        r.wf(),
        r.canonical(),
{
    let len = 8 * data.len();
    let r = TydiBinary { data, len };
    proof {
        lemma_pack_of_bits(r.data@, len as nat);
    }
    r
}

/// The integer whose bytes in memory are the first `8 * n` bits of `value`, and
/// a buffer of the bits that follow.
fn leading_uint(value: TydiBinary, n: usize) -> (r: (u128, TydiBinary))
    requires
        value.wf(),
        n <= 16,
        value.len >= 8 * n,
    ensures
        r.0 == native_value(pack(value@.take(8 * n))),
        r.1.len == value.len - 8 * n,
        r.1@ == value@.skip(8 * n),
        r.1.wf(),
        r.1.canonical(),
{
    let (bin1, bin2) = value.split(8 * n);
    proof {
        assert(bin1.data@ == pack(bin1@));
        assert(bin1.data@.len() == n);
        lemma_padded_whole(bin1.data@);
    }
    let v = uint_from_bytes(&bin1.data, n);
    (v, bin2)
}

/// The first `n` bytes of a sequence of exactly `n` bytes are the sequence.
proof fn lemma_padded_whole(data: Seq<u8>)
    ensures
        padded(data, data.len()) == data,
{
    assert(padded(data, data.len()) =~= data);
}

/// The bytes behind the bits of whole bytes are those bytes.
proof fn lemma_pack_whole(data: Seq<u8>, rest: Seq<bool>)
    ensures
        pack((bits_of(data, 8 * data.len()) + rest).take(8 * data.len() as int)) == data,
{
    let bits = bits_of(data, 8 * data.len());
    assert((bits + rest).take(8 * data.len() as int) =~= bits);
    lemma_pack_of_bits(data, 8 * data.len());
}

impl From<u8> for TydiBinary {
    /// The one byte of the integer as they lie in memory.
    fn from(value: u8) -> (r: Self)
        ensures
            r.len == 8,
            r.data@ == native_bytes(value as u128, 1),
            r.wf(),
            r.canonical(),
    {
        whole_bytes(uint_to_bytes(value as u128, 1))
    }
}

impl FromSpecImpl<u8> for TydiBinary {
    open spec fn obeys_from_spec() -> bool {
        false
    }

    open spec fn from_spec(v: u8) -> Self {
        arbitrary()
    }
}

impl From<TydiBinary> for u8 {
    /// The integer whose bytes in memory are the first one byte of the buffer,
    /// with zero for each byte that the buffer lacks.
    fn from(value: TydiBinary) -> (r: u8)
        ensures
            r == native_value(padded(value.data@, 1)) as u8,
    {
        let v = uint_from_bytes(&value.data, 1);
        v as u8
    }
}

impl FromSpecImpl<TydiBinary> for u8 {
    open spec fn obeys_from_spec() -> bool {
        true
    }

    open spec fn from_spec(v: TydiBinary) -> u8 {
        native_value(padded(v.data@, 1)) as u8
    }
}

impl FromTydiBinary for u8 {
    open spec fn obeys_decoded() -> bool {
        true
    }

    open spec fn bit_width() -> nat {
        8
    }

    open spec fn decoded(bits: Seq<bool>) -> u8 {
        native_value(pack(bits.take(8))) as u8
    }

    fn from_tydi_binary(value: TydiBinary) -> (r: (u8, TydiBinary))
        ensures
            r.1.len == value.len - 8,
            r.1@ == value@.skip(8),
            r.1.wf(),
            r.1.canonical(),
    {
        let (v, rest) = leading_uint(value, 1);
        (v as u8, rest)
    }
}

/// A `u8` that was made a buffer, whatever follows it there, is read back as
/// it was.
pub proof fn lemma_round_trip_u8(value: u8, rest: Seq<bool>)
    ensures
        <u8 as FromTydiBinary>::decoded(
            bits_of(native_bytes(value as u128, 1), 8) + rest,
        ) == value,
{
    let bytes = native_bytes(value as u128, 1);
    assert(value as u128 == (value as u128) & !(u128::MAX << 8u128)) by (bit_vector);
    lemma_native_round_trip(value as u128, 1);
    lemma_pack_whole(bytes, rest);
}

impl From<u16> for TydiBinary {
    /// The two bytes of the integer as they lie in memory.
    fn from(value: u16) -> (r: Self)
        ensures
            r.len == 16,
            r.data@ == native_bytes(value as u128, 2),
            r.wf(),
            r.canonical(),
    {
        whole_bytes(uint_to_bytes(value as u128, 2))
    }
}

impl FromSpecImpl<u16> for TydiBinary {
    open spec fn obeys_from_spec() -> bool {
        false
    }

    open spec fn from_spec(v: u16) -> Self {
        arbitrary()
    }
}

impl From<TydiBinary> for u16 {
    /// The integer whose bytes in memory are the first two bytes of the buffer,
    /// with zero for each byte that the buffer lacks.
    fn from(value: TydiBinary) -> (r: u16)
        ensures
            r == native_value(padded(value.data@, 2)) as u16,
    {
        let v = uint_from_bytes(&value.data, 2);
        v as u16
    }
}

impl FromSpecImpl<TydiBinary> for u16 {
    open spec fn obeys_from_spec() -> bool {
        true
    }

    open spec fn from_spec(v: TydiBinary) -> u16 {
        native_value(padded(v.data@, 2)) as u16
    }
}

impl FromTydiBinary for u16 {
    open spec fn obeys_decoded() -> bool {
        true
    }

    open spec fn bit_width() -> nat {
        16
    }

    open spec fn decoded(bits: Seq<bool>) -> u16 {
        native_value(pack(bits.take(16))) as u16
    }

    fn from_tydi_binary(value: TydiBinary) -> (r: (u16, TydiBinary))
        ensures
            r.1.len == value.len - 16,
            r.1@ == value@.skip(16),
            r.1.wf(),
            r.1.canonical(),
    {
        let (v, rest) = leading_uint(value, 2);
        (v as u16, rest)
    }
}

/// A `u16` that was made a buffer, whatever follows it there, is read back as
/// it was.
pub proof fn lemma_round_trip_u16(value: u16, rest: Seq<bool>)
    ensures
        <u16 as FromTydiBinary>::decoded(
            bits_of(native_bytes(value as u128, 2), 16) + rest,
        ) == value,
{
    let bytes = native_bytes(value as u128, 2);
    assert(value as u128 == (value as u128) & !(u128::MAX << 16u128)) by (bit_vector);
    lemma_native_round_trip(value as u128, 2);
    lemma_pack_whole(bytes, rest);
}

impl From<u32> for TydiBinary {
    /// The four bytes of the integer as they lie in memory.
    fn from(value: u32) -> (r: Self)
        ensures
            r.len == 32,
            r.data@ == native_bytes(value as u128, 4),
            r.wf(),
            r.canonical(),
    {
        whole_bytes(uint_to_bytes(value as u128, 4))
    }
}

impl FromSpecImpl<u32> for TydiBinary {
    open spec fn obeys_from_spec() -> bool {
        false
    }

    open spec fn from_spec(v: u32) -> Self {
        arbitrary()
    }
}

impl From<TydiBinary> for u32 {
    /// The integer whose bytes in memory are the first four bytes of the buffer,
    /// with zero for each byte that the buffer lacks.
    fn from(value: TydiBinary) -> (r: u32)
        ensures
            r == native_value(padded(value.data@, 4)) as u32,
    {
        let v = uint_from_bytes(&value.data, 4);
        v as u32
    }
}

impl FromSpecImpl<TydiBinary> for u32 {
    open spec fn obeys_from_spec() -> bool {
        true
    }

    open spec fn from_spec(v: TydiBinary) -> u32 {
        native_value(padded(v.data@, 4)) as u32
    }
}

impl FromTydiBinary for u32 {
    open spec fn obeys_decoded() -> bool {
        true
    }

    open spec fn bit_width() -> nat {
        32
    }

    open spec fn decoded(bits: Seq<bool>) -> u32 {
        native_value(pack(bits.take(32))) as u32
    }

    fn from_tydi_binary(value: TydiBinary) -> (r: (u32, TydiBinary))
        ensures
            r.1.len == value.len - 32,
            r.1@ == value@.skip(32),
            r.1.wf(),
            r.1.canonical(),
    {
        let (v, rest) = leading_uint(value, 4);
        (v as u32, rest)
    }
}

/// A `u32` that was made a buffer, whatever follows it there, is read back as
/// it was.
pub proof fn lemma_round_trip_u32(value: u32, rest: Seq<bool>)
    ensures
        <u32 as FromTydiBinary>::decoded(
            bits_of(native_bytes(value as u128, 4), 32) + rest,
        ) == value,
{
    let bytes = native_bytes(value as u128, 4);
    assert(value as u128 == (value as u128) & !(u128::MAX << 32u128)) by (bit_vector);
    lemma_native_round_trip(value as u128, 4);
    lemma_pack_whole(bytes, rest);
}

impl From<u64> for TydiBinary {
    /// The eight bytes of the integer as they lie in memory.
    fn from(value: u64) -> (r: Self)
        ensures
            r.len == 64,
            r.data@ == native_bytes(value as u128, 8),
            r.wf(),
            r.canonical(),
    {
        whole_bytes(uint_to_bytes(value as u128, 8))
    }
}

impl FromSpecImpl<u64> for TydiBinary {
    open spec fn obeys_from_spec() -> bool {
        false
    }

    open spec fn from_spec(v: u64) -> Self {
        arbitrary()
    }
}

impl From<TydiBinary> for u64 {
    /// The integer whose bytes in memory are the first eight bytes of the buffer,
    /// with zero for each byte that the buffer lacks.
    fn from(value: TydiBinary) -> (r: u64)
        ensures
            r == native_value(padded(value.data@, 8)) as u64,
    {
        let v = uint_from_bytes(&value.data, 8);
        v as u64
    }
}

impl FromSpecImpl<TydiBinary> for u64 {
    open spec fn obeys_from_spec() -> bool {
        true
    }

    open spec fn from_spec(v: TydiBinary) -> u64 {
        native_value(padded(v.data@, 8)) as u64
    }
}

impl FromTydiBinary for u64 {
    open spec fn obeys_decoded() -> bool {
        true
    }

    open spec fn bit_width() -> nat {
        64
    }

    open spec fn decoded(bits: Seq<bool>) -> u64 {
        native_value(pack(bits.take(64))) as u64
    }

    fn from_tydi_binary(value: TydiBinary) -> (r: (u64, TydiBinary))
        ensures
            r.1.len == value.len - 64,
            r.1@ == value@.skip(64),
            r.1.wf(),
            r.1.canonical(),
    {
        let (v, rest) = leading_uint(value, 8);
        (v as u64, rest)
    }
}

/// A `u64` that was made a buffer, whatever follows it there, is read back as
/// it was.
pub proof fn lemma_round_trip_u64(value: u64, rest: Seq<bool>)
    ensures
        <u64 as FromTydiBinary>::decoded(
            bits_of(native_bytes(value as u128, 8), 64) + rest,
        ) == value,
{
    let bytes = native_bytes(value as u128, 8);
    assert(value as u128 == (value as u128) & !(u128::MAX << 64u128)) by (bit_vector);
    lemma_native_round_trip(value as u128, 8);
    lemma_pack_whole(bytes, rest);
}

impl From<u128> for TydiBinary {
    /// The sixteen bytes of the integer as they lie in memory.
    fn from(value: u128) -> (r: Self)
        ensures
            r.len == 128,
            r.data@ == native_bytes(value, 16),
            r.wf(),
            r.canonical(),
    {
        whole_bytes(uint_to_bytes(value, 16))
    }
}

impl FromSpecImpl<u128> for TydiBinary {
    open spec fn obeys_from_spec() -> bool {
        false
    }

    open spec fn from_spec(v: u128) -> Self {
        arbitrary()
    }
}

impl From<TydiBinary> for u128 {
    /// The integer whose bytes in memory are the first sixteen bytes of the buffer,
    /// with zero for each byte that the buffer lacks.
    fn from(value: TydiBinary) -> (r: u128)
        ensures
            r == native_value(padded(value.data@, 16)),
    {
        let v = uint_from_bytes(&value.data, 16);
        v
    }
}

impl FromSpecImpl<TydiBinary> for u128 {
    open spec fn obeys_from_spec() -> bool {
        true
    }

    open spec fn from_spec(v: TydiBinary) -> u128 {
        native_value(padded(v.data@, 16))
    }
}

impl FromTydiBinary for u128 {
    open spec fn obeys_decoded() -> bool {
        true
    }

    open spec fn bit_width() -> nat {
        128
    }

    open spec fn decoded(bits: Seq<bool>) -> u128 {
        native_value(pack(bits.take(128)))
    }

    fn from_tydi_binary(value: TydiBinary) -> (r: (u128, TydiBinary))
        ensures
            r.1.len == value.len - 128,
            r.1@ == value@.skip(128),
            r.1.wf(),
            r.1.canonical(),
    {
        let (v, rest) = leading_uint(value, 16);
        (v, rest)
    }
}

/// A `u128` that was made a buffer, whatever follows it there, is read back as
/// it was.
pub proof fn lemma_round_trip_u128(value: u128, rest: Seq<bool>)
    ensures
        <u128 as FromTydiBinary>::decoded(
            bits_of(native_bytes(value, 16), 128) + rest,
        ) == value,
{
    let bytes = native_bytes(value, 16);
    assert(value == value & u128::MAX) by (bit_vector);
    lemma_native_round_trip(value, 16);
    lemma_pack_whole(bytes, rest);
}

impl From<i8> for TydiBinary {
    /// The one byte of the integer as they lie in memory.
    fn from(value: i8) -> (r: Self)
        ensures
            r.len == 8,
            r.data@ == native_bytes((value as u8) as u128, 1),
            r.wf(),
            r.canonical(),
    {
        whole_bytes(uint_to_bytes((value as u8) as u128, 1))
    }
}

impl FromSpecImpl<i8> for TydiBinary {
    open spec fn obeys_from_spec() -> bool {
        false
    }

    open spec fn from_spec(v: i8) -> Self {
        arbitrary()
    }
}

impl From<TydiBinary> for i8 {
    /// The integer whose bytes in memory are the first one byte of the buffer,
    /// with zero for each byte that the buffer lacks.
    fn from(value: TydiBinary) -> (r: i8)
        ensures
            r == (native_value(padded(value.data@, 1)) as u8) as i8,
    {
        let v = uint_from_bytes(&value.data, 1);
        (v as u8) as i8
    }
}

impl FromSpecImpl<TydiBinary> for i8 {
    open spec fn obeys_from_spec() -> bool {
        true
    }

    open spec fn from_spec(v: TydiBinary) -> i8 {
        (native_value(padded(v.data@, 1)) as u8) as i8
    }
}

impl FromTydiBinary for i8 {
    open spec fn obeys_decoded() -> bool {
        true
    }

    open spec fn bit_width() -> nat {
        8
    }

    open spec fn decoded(bits: Seq<bool>) -> i8 {
        (native_value(pack(bits.take(8))) as u8) as i8
    }

    fn from_tydi_binary(value: TydiBinary) -> (r: (i8, TydiBinary))
        ensures
            r.1.len == value.len - 8,
            r.1@ == value@.skip(8),
            r.1.wf(),
            r.1.canonical(),
    {
        let (v, rest) = leading_uint(value, 1);
        ((v as u8) as i8, rest)
    }
}

/// An `i8` that was made a buffer, whatever follows it there, is read back as
/// it was.
pub proof fn lemma_round_trip_i8(value: i8, rest: Seq<bool>)
    ensures
        <i8 as FromTydiBinary>::decoded(
            bits_of(native_bytes((value as u8) as u128, 1), 8) + rest,
        ) == value,
{
    let bytes = native_bytes((value as u8) as u128, 1);
    let wide = (value as u8) as u128;
    assert(wide == wide & !(u128::MAX << 8u128)) by (bit_vector)
        requires
            wide == (value as u8) as u128,
    ;
    lemma_native_round_trip((value as u8) as u128, 1);
    lemma_pack_whole(bytes, rest);
    assert(((((value as u8) as u128) as u8) as i8) == value) by (bit_vector);
}

impl From<i16> for TydiBinary {
    /// The two bytes of the integer as they lie in memory.
    fn from(value: i16) -> (r: Self)
        ensures
            r.len == 16,
            r.data@ == native_bytes((value as u16) as u128, 2),
            r.wf(),
            r.canonical(),
    {
        whole_bytes(uint_to_bytes((value as u16) as u128, 2))
    }
}

impl FromSpecImpl<i16> for TydiBinary {
    open spec fn obeys_from_spec() -> bool {
        false
    }

    open spec fn from_spec(v: i16) -> Self {
        arbitrary()
    }
}

impl From<TydiBinary> for i16 {
    /// The integer whose bytes in memory are the first two bytes of the buffer,
    /// with zero for each byte that the buffer lacks.
    fn from(value: TydiBinary) -> (r: i16)
        ensures
            r == (native_value(padded(value.data@, 2)) as u16) as i16,
    {
        let v = uint_from_bytes(&value.data, 2);
        (v as u16) as i16
    }
}

impl FromSpecImpl<TydiBinary> for i16 {
    open spec fn obeys_from_spec() -> bool {
        true
    }

    open spec fn from_spec(v: TydiBinary) -> i16 {
        (native_value(padded(v.data@, 2)) as u16) as i16
    }
}

impl FromTydiBinary for i16 {
    open spec fn obeys_decoded() -> bool {
        true
    }

    open spec fn bit_width() -> nat {
        16
    }

    open spec fn decoded(bits: Seq<bool>) -> i16 {
        (native_value(pack(bits.take(16))) as u16) as i16
    }

    fn from_tydi_binary(value: TydiBinary) -> (r: (i16, TydiBinary))
        ensures
            r.1.len == value.len - 16,
            r.1@ == value@.skip(16),
            r.1.wf(),
            r.1.canonical(),
    {
        let (v, rest) = leading_uint(value, 2);
        ((v as u16) as i16, rest)
    }
}

/// An `i16` that was made a buffer, whatever follows it there, is read back as
/// it was.
pub proof fn lemma_round_trip_i16(value: i16, rest: Seq<bool>)
    ensures
        <i16 as FromTydiBinary>::decoded(
            bits_of(native_bytes((value as u16) as u128, 2), 16) + rest,
        ) == value,
{
    let bytes = native_bytes((value as u16) as u128, 2);
    let wide = (value as u16) as u128;
    assert(wide == wide & !(u128::MAX << 16u128)) by (bit_vector)
        requires
            wide == (value as u16) as u128,
    ;
    lemma_native_round_trip((value as u16) as u128, 2);
    lemma_pack_whole(bytes, rest);
    assert(((((value as u16) as u128) as u16) as i16) == value) by (bit_vector);
}

impl From<i32> for TydiBinary {
    /// The four bytes of the integer as they lie in memory.
    fn from(value: i32) -> (r: Self)
        ensures
            r.len == 32,
            r.data@ == native_bytes((value as u32) as u128, 4),
            r.wf(),
            r.canonical(),
    {
        whole_bytes(uint_to_bytes((value as u32) as u128, 4))
    }
}

impl FromSpecImpl<i32> for TydiBinary {
    open spec fn obeys_from_spec() -> bool {
        false
    }

    open spec fn from_spec(v: i32) -> Self {
        arbitrary()
    }
}

impl From<TydiBinary> for i32 {
    /// The integer whose bytes in memory are the first four bytes of the buffer,
    /// with zero for each byte that the buffer lacks.
    fn from(value: TydiBinary) -> (r: i32)
        ensures
            r == (native_value(padded(value.data@, 4)) as u32) as i32,
    {
        let v = uint_from_bytes(&value.data, 4);
        (v as u32) as i32
    }
}

impl FromSpecImpl<TydiBinary> for i32 {
    open spec fn obeys_from_spec() -> bool {
        true
    }

    open spec fn from_spec(v: TydiBinary) -> i32 {
        (native_value(padded(v.data@, 4)) as u32) as i32
    }
}

impl FromTydiBinary for i32 {
    open spec fn obeys_decoded() -> bool {
        true
    }

    open spec fn bit_width() -> nat {
        32
    }

    open spec fn decoded(bits: Seq<bool>) -> i32 {
        (native_value(pack(bits.take(32))) as u32) as i32
    }

    fn from_tydi_binary(value: TydiBinary) -> (r: (i32, TydiBinary))
        ensures
            r.1.len == value.len - 32,
            r.1@ == value@.skip(32),
            r.1.wf(),
            r.1.canonical(),
    {
        let (v, rest) = leading_uint(value, 4);
        ((v as u32) as i32, rest)
    }
}

/// An `i32` that was made a buffer, whatever follows it there, is read back as
/// it was.
pub proof fn lemma_round_trip_i32(value: i32, rest: Seq<bool>)
    ensures
        <i32 as FromTydiBinary>::decoded(
            bits_of(native_bytes((value as u32) as u128, 4), 32) + rest,
        ) == value,
{
    let bytes = native_bytes((value as u32) as u128, 4);
    let wide = (value as u32) as u128;
    assert(wide == wide & !(u128::MAX << 32u128)) by (bit_vector)
        requires
            wide == (value as u32) as u128,
    ;
    lemma_native_round_trip((value as u32) as u128, 4);
    lemma_pack_whole(bytes, rest);
    assert(((((value as u32) as u128) as u32) as i32) == value) by (bit_vector);
}

impl From<i64> for TydiBinary {
    /// The eight bytes of the integer as they lie in memory.
    fn from(value: i64) -> (r: Self)
        ensures
            r.len == 64,
            r.data@ == native_bytes((value as u64) as u128, 8),
            r.wf(),
            r.canonical(),
    {
        whole_bytes(uint_to_bytes((value as u64) as u128, 8))
    }
}

impl FromSpecImpl<i64> for TydiBinary {
    open spec fn obeys_from_spec() -> bool {
        false
    }

    open spec fn from_spec(v: i64) -> Self {
        arbitrary()
    }
}

impl From<TydiBinary> for i64 {
    /// The integer whose bytes in memory are the first eight bytes of the buffer,
    /// with zero for each byte that the buffer lacks.
    fn from(value: TydiBinary) -> (r: i64)
        ensures
            r == (native_value(padded(value.data@, 8)) as u64) as i64,
    {
        let v = uint_from_bytes(&value.data, 8);
        (v as u64) as i64
    }
}

impl FromSpecImpl<TydiBinary> for i64 {
    open spec fn obeys_from_spec() -> bool {
        true
    }

    open spec fn from_spec(v: TydiBinary) -> i64 {
        (native_value(padded(v.data@, 8)) as u64) as i64
    }
}

impl FromTydiBinary for i64 {
    open spec fn obeys_decoded() -> bool {
        true
    }

    open spec fn bit_width() -> nat {
        64
    }

    open spec fn decoded(bits: Seq<bool>) -> i64 {
        (native_value(pack(bits.take(64))) as u64) as i64
    }

    fn from_tydi_binary(value: TydiBinary) -> (r: (i64, TydiBinary))
        ensures
            r.1.len == value.len - 64,
            r.1@ == value@.skip(64),
            r.1.wf(),
            r.1.canonical(),
    {
        let (v, rest) = leading_uint(value, 8);
        ((v as u64) as i64, rest)
    }
}

/// An `i64` that was made a buffer, whatever follows it there, is read back as
/// it was.
pub proof fn lemma_round_trip_i64(value: i64, rest: Seq<bool>)
    ensures
        <i64 as FromTydiBinary>::decoded(
            bits_of(native_bytes((value as u64) as u128, 8), 64) + rest,
        ) == value,
{
    let bytes = native_bytes((value as u64) as u128, 8);
    let wide = (value as u64) as u128;
    assert(wide == wide & !(u128::MAX << 64u128)) by (bit_vector)
        requires
            wide == (value as u64) as u128,
    ;
    lemma_native_round_trip((value as u64) as u128, 8);
    lemma_pack_whole(bytes, rest);
    assert(((((value as u64) as u128) as u64) as i64) == value) by (bit_vector);
}

impl From<i128> for TydiBinary {
    /// The sixteen bytes of the integer as they lie in memory.
    fn from(value: i128) -> (r: Self)
        ensures
            r.len == 128,
            r.data@ == native_bytes(value as u128, 16),
            r.wf(),
            r.canonical(),
    {
        whole_bytes(uint_to_bytes(value as u128, 16))
    }
}

impl FromSpecImpl<i128> for TydiBinary {
    open spec fn obeys_from_spec() -> bool {
        false
    }

    open spec fn from_spec(v: i128) -> Self {
        arbitrary()
    }
}

impl From<TydiBinary> for i128 {
    /// The integer whose bytes in memory are the first sixteen bytes of the buffer,
    /// with zero for each byte that the buffer lacks.
    fn from(value: TydiBinary) -> (r: i128)
        ensures
            r == native_value(padded(value.data@, 16)) as i128,
    {
        let v = uint_from_bytes(&value.data, 16);
        v as i128
    }
}

impl FromSpecImpl<TydiBinary> for i128 {
    open spec fn obeys_from_spec() -> bool {
        true
    }

    open spec fn from_spec(v: TydiBinary) -> i128 {
        native_value(padded(v.data@, 16)) as i128
    }
}

impl FromTydiBinary for i128 {
    open spec fn obeys_decoded() -> bool {
        true
    }

    open spec fn bit_width() -> nat {
        128
    }

    open spec fn decoded(bits: Seq<bool>) -> i128 {
        native_value(pack(bits.take(128))) as i128
    }

    fn from_tydi_binary(value: TydiBinary) -> (r: (i128, TydiBinary))
        ensures
            r.1.len == value.len - 128,
            r.1@ == value@.skip(128),
            r.1.wf(),
            r.1.canonical(),
    {
        let (v, rest) = leading_uint(value, 16);
        (v as i128, rest)
    }
}

/// An `i128` that was made a buffer, whatever follows it there, is read back as
/// it was.
pub proof fn lemma_round_trip_i128(value: i128, rest: Seq<bool>)
    ensures
        <i128 as FromTydiBinary>::decoded(
            bits_of(native_bytes(value as u128, 16), 128) + rest,
        ) == value,
{
    let bytes = native_bytes(value as u128, 16);
    let wide = value as u128;
    assert(wide == wide & u128::MAX) by (bit_vector)
        requires
            wide == value as u128,
    ;
    lemma_native_round_trip(value as u128, 16);
    lemma_pack_whole(bytes, rest);
    assert(((value as u128) as i128) == value) by (bit_vector);
}

impl From<usize> for TydiBinary {
    /// The bytes of the integer as they lie in memory.
    fn from(value: usize) -> (r: Self)
        ensures
            r.len == usize::BITS,
            r.data@ == native_bytes(value as u128, (usize::BITS / 8) as nat),
            r.wf(),
            r.canonical(),
    {
        whole_bytes(uint_to_bytes(value as u128, (usize::BITS / 8) as usize))
    }
}

impl FromSpecImpl<usize> for TydiBinary {
    open spec fn obeys_from_spec() -> bool {
        false
    }

    open spec fn from_spec(v: usize) -> Self {
        arbitrary()
    }
}

impl From<TydiBinary> for usize {
    /// The integer whose bytes in memory are the first bytes of the buffer, as
    /// many as a `usize` has, with zero for each byte that the buffer lacks.
    fn from(value: TydiBinary) -> (r: usize)
        ensures
            r == native_value(padded(value.data@, (usize::BITS / 8) as nat)) as usize,
    {
        let v = uint_from_bytes(&value.data, (usize::BITS / 8) as usize);
        v as usize
    }
}

impl FromSpecImpl<TydiBinary> for usize {
    open spec fn obeys_from_spec() -> bool {
        true
    }

    open spec fn from_spec(v: TydiBinary) -> usize {
        native_value(padded(v.data@, (usize::BITS / 8) as nat)) as usize
    }
}

impl FromTydiBinary for usize {
    open spec fn obeys_decoded() -> bool {
        true
    }

    open spec fn bit_width() -> nat {
        usize::BITS as nat
    }

    open spec fn decoded(bits: Seq<bool>) -> usize {
        native_value(pack(bits.take(usize::BITS as int))) as usize
    }

    fn from_tydi_binary(value: TydiBinary) -> (r: (usize, TydiBinary))
        ensures
            r.1.len == value.len - usize::BITS,
            r.1@ == value@.skip(usize::BITS as int),
            r.1.wf(),
            r.1.canonical(),
    {
        assert(usize::BITS == 32 || usize::BITS == 64);
        let (v, rest) = leading_uint(value, (usize::BITS / 8) as usize);
        (v as usize, rest)
    }
}

/// A `usize` that was made a buffer, whatever follows it there, is read back
/// as it was.
pub proof fn lemma_round_trip_usize(value: usize, rest: Seq<bool>)
    ensures
        <usize as FromTydiBinary>::decoded(
            bits_of(native_bytes(value as u128, (usize::BITS / 8) as nat), usize::BITS as nat)
                + rest,
        ) == value,
{
    let wide = value as u128;
    lemma_word_fits(wide);
    lemma_native_round_trip(wide, (usize::BITS / 8) as nat);
    lemma_pack_whole(native_bytes(wide, (usize::BITS / 8) as nat), rest);
}

impl From<isize> for TydiBinary {
    /// The bytes of the integer as they lie in memory.
    fn from(value: isize) -> (r: Self)
        ensures
            r.len == usize::BITS,
            r.data@ == native_bytes((value as usize) as u128, (usize::BITS / 8) as nat),
            r.wf(),
            r.canonical(),
    {
        whole_bytes(uint_to_bytes((value as usize) as u128, (usize::BITS / 8) as usize))
    }
}

impl FromSpecImpl<isize> for TydiBinary {
    open spec fn obeys_from_spec() -> bool {
        false
    }

    open spec fn from_spec(v: isize) -> Self {
        arbitrary()
    }
}

impl From<TydiBinary> for isize {
    /// The integer whose bytes in memory are the first bytes of the buffer, as
    /// many as an `isize` has, with zero for each byte that the buffer lacks.
    fn from(value: TydiBinary) -> (r: isize)
        ensures
            r == (native_value(padded(value.data@, (usize::BITS / 8) as nat)) as usize) as isize,
    {
        let v = uint_from_bytes(&value.data, (usize::BITS / 8) as usize);
        (v as usize) as isize
    }
}

impl FromSpecImpl<TydiBinary> for isize {
    open spec fn obeys_from_spec() -> bool {
        true
    }

    open spec fn from_spec(v: TydiBinary) -> isize {
        (native_value(padded(v.data@, (usize::BITS / 8) as nat)) as usize) as isize
    }
}

impl FromTydiBinary for isize {
    open spec fn obeys_decoded() -> bool {
        true
    }

    open spec fn bit_width() -> nat {
        usize::BITS as nat
    }

    open spec fn decoded(bits: Seq<bool>) -> isize {
        (native_value(pack(bits.take(usize::BITS as int))) as usize) as isize
    }

    fn from_tydi_binary(value: TydiBinary) -> (r: (isize, TydiBinary))
        ensures
            r.1.len == value.len - usize::BITS,
            r.1@ == value@.skip(usize::BITS as int),
            r.1.wf(),
            r.1.canonical(),
    {
        assert(usize::BITS == 32 || usize::BITS == 64);
        let (v, rest) = leading_uint(value, (usize::BITS / 8) as usize);
        ((v as usize) as isize, rest)
    }
}

/// An `isize` that was made a buffer, whatever follows it there, is read back
/// as it was.
pub proof fn lemma_round_trip_isize(value: isize, rest: Seq<bool>)
    ensures
        <isize as FromTydiBinary>::decoded(
            bits_of(
                native_bytes((value as usize) as u128, (usize::BITS / 8) as nat),
                usize::BITS as nat,
            ) + rest,
        ) == value,
{
    let word = value as usize;
    let wide = word as u128;
    lemma_word_fits(wide);
    lemma_native_round_trip(wide, (usize::BITS / 8) as nat);
    lemma_pack_whole(native_bytes(wide, (usize::BITS / 8) as nat), rest);
    assert((word as isize) == value) by (bit_vector)
        requires
            word == value as usize,
    ;
}

/// An integer of the size of a machine word has no bit above that size.
proof fn lemma_word_fits(wide: u128)
    requires
        wide <= usize::MAX,
    ensures
        wide == wide & low_mask(usize::BITS as int),
{
    if usize::BITS == 32 {
        assert(wide == wide & !(u128::MAX << 32u128)) by (bit_vector)
            requires
                wide <= 0xffff_ffffu128,
        ;
    } else {
        assert(wide == wide & !(u128::MAX << 64u128)) by (bit_vector)
            requires
                wide <= 0xffff_ffff_ffff_ffffu128,
        ;
    }
}

} // verus!
