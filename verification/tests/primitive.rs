use rust_tydi_packages::binary::{FromTydiBinary, TydiBinary};
use rust_tydi_packages::native::{little_endian, uint_from_bytes, uint_to_bytes};

#[test]
fn byte_order_is_that_of_the_machine() {
    assert_eq!(little_endian(), 1u16.to_ne_bytes()[0] == 1);
    assert_eq!(uint_to_bytes(0x0102_0304, 4), 0x0102_0304u32.to_ne_bytes().to_vec());
    assert_eq!(uint_to_bytes(0x0102, 2), 0x0102u16.to_ne_bytes().to_vec());
    assert_eq!(uint_to_bytes(0xAB, 0), Vec::<u8>::new());
    assert_eq!(uint_from_bytes(&0x0102_0304u32.to_ne_bytes().to_vec(), 4), 0x0102_0304);
    // Bytes that the vector lacks count as zero.
    assert_eq!(uint_from_bytes(&vec![], 2), 0);
}

#[test]
fn round_trip_u8() {
    for v in [0u8, u8::MAX, 0xAA, 0x55, 1] {
        let b = TydiBinary::from(v);
        assert_eq!(b.len, 8);
        assert_eq!(b.data, v.to_ne_bytes().to_vec());
        assert_eq!(u8::from(b.clone()), v);
        let (back, rest) = u8::from_tydi_binary(b);
        assert_eq!(back, v);
        assert_eq!(rest, TydiBinary::empty());
    }
}

#[test]
fn round_trip_u16() {
    for v in [0u16, u16::MAX, 0xAAAA, 0x5555, 0x0102] {
        let b = TydiBinary::from(v);
        assert_eq!(b.len, 16);
        assert_eq!(b.data, v.to_ne_bytes().to_vec());
        assert_eq!(u16::from(b.clone()), v);
        let (back, rest) = u16::from_tydi_binary(b);
        assert_eq!(back, v);
        assert_eq!(rest, TydiBinary::empty());
    }
}

#[test]
fn round_trip_u32() {
    for v in [0u32, u32::MAX, 0xAAAA_AAAA, 0x5555_5555, 0x0102_0304] {
        let b = TydiBinary::from(v);
        assert_eq!(b.len, 32);
        assert_eq!(b.data, v.to_ne_bytes().to_vec());
        assert_eq!(u32::from(b.clone()), v);
        let (back, rest) = u32::from_tydi_binary(b);
        assert_eq!(back, v);
        assert_eq!(rest, TydiBinary::empty());
    }
}

#[test]
fn round_trip_u64() {
    for v in [0u64, u64::MAX, 0xAAAA_AAAA_AAAA_AAAA, 0x5555_5555_5555_5555, 0x0102_0304_0506_0708] {
        let b = TydiBinary::from(v);
        assert_eq!(b.len, 64);
        assert_eq!(b.data, v.to_ne_bytes().to_vec());
        assert_eq!(u64::from(b.clone()), v);
        let (back, rest) = u64::from_tydi_binary(b);
        assert_eq!(back, v);
        assert_eq!(rest, TydiBinary::empty());
    }
}

#[test]
fn round_trip_u128() {
    for v in [
        0u128,
        u128::MAX,
        0xAAAA_AAAA_AAAA_AAAA_AAAA_AAAA_AAAA_AAAA,
        0x0102_0304_0506_0708_090A_0B0C_0D0E_0F10,
    ] {
        let b = TydiBinary::from(v);
        assert_eq!(b.len, 128);
        assert_eq!(b.data, v.to_ne_bytes().to_vec());
        assert_eq!(u128::from(b.clone()), v);
        let (back, rest) = u128::from_tydi_binary(b);
        assert_eq!(back, v);
        assert_eq!(rest, TydiBinary::empty());
    }
}

#[test]
fn round_trip_usize() {
    for v in [0usize, usize::MAX, 0xAAAA_AAAA, 0x0102_0304] {
        let b = TydiBinary::from(v);
        assert_eq!(b.len, usize::BITS as usize);
        assert_eq!(b.data, v.to_ne_bytes().to_vec());
        assert_eq!(usize::from(b.clone()), v);
        let (back, rest) = usize::from_tydi_binary(b);
        assert_eq!(back, v);
        assert_eq!(rest, TydiBinary::empty());
    }
}

#[test]
fn round_trip_i8() {
    for v in [0i8, -1, i8::MIN, i8::MAX, 0x55, -0x56] {
        let b = TydiBinary::from(v);
        assert_eq!(b.len, 8);
        assert_eq!(b.data, v.to_ne_bytes().to_vec());
        assert_eq!(i8::from(b.clone()), v);
        let (back, rest) = i8::from_tydi_binary(b);
        assert_eq!(back, v);
        assert_eq!(rest, TydiBinary::empty());
    }
}

#[test]
fn round_trip_i16() {
    for v in [0i16, -1, i16::MIN, i16::MAX, 0x5555, -0x5556] {
        let b = TydiBinary::from(v);
        assert_eq!(b.len, 16);
        assert_eq!(b.data, v.to_ne_bytes().to_vec());
        assert_eq!(i16::from(b.clone()), v);
        let (back, rest) = i16::from_tydi_binary(b);
        assert_eq!(back, v);
        assert_eq!(rest, TydiBinary::empty());
    }
}

#[test]
fn round_trip_i32() {
    for v in [0i32, -1, i32::MIN, i32::MAX, 0x5555_5555, -0x5555_5556] {
        let b = TydiBinary::from(v);
        assert_eq!(b.len, 32);
        assert_eq!(b.data, v.to_ne_bytes().to_vec());
        assert_eq!(i32::from(b.clone()), v);
        let (back, rest) = i32::from_tydi_binary(b);
        assert_eq!(back, v);
        assert_eq!(rest, TydiBinary::empty());
    }
}

#[test]
fn round_trip_i64() {
    for v in [0i64, -1, i64::MIN, i64::MAX, 0x5555_5555_5555_5555, -0x5555_5555_5555_5556] {
        let b = TydiBinary::from(v);
        assert_eq!(b.len, 64);
        assert_eq!(b.data, v.to_ne_bytes().to_vec());
        assert_eq!(i64::from(b.clone()), v);
        let (back, rest) = i64::from_tydi_binary(b);
        assert_eq!(back, v);
        assert_eq!(rest, TydiBinary::empty());
    }
}

#[test]
fn round_trip_i128() {
    for v in [0i128, -1, i128::MIN, i128::MAX, 0x5555_5555_5555_5555_5555_5555_5555_5555] {
        let b = TydiBinary::from(v);
        assert_eq!(b.len, 128);
        assert_eq!(b.data, v.to_ne_bytes().to_vec());
        assert_eq!(i128::from(b.clone()), v);
        let (back, rest) = i128::from_tydi_binary(b);
        assert_eq!(back, v);
        assert_eq!(rest, TydiBinary::empty());
    }
}

#[test]
fn round_trip_isize() {
    for v in [0isize, -1, isize::MIN, isize::MAX, 0x5555_5555] {
        let b = TydiBinary::from(v);
        assert_eq!(b.len, usize::BITS as usize);
        assert_eq!(b.data, v.to_ne_bytes().to_vec());
        assert_eq!(isize::from(b.clone()), v);
        let (back, rest) = isize::from_tydi_binary(b);
        assert_eq!(back, v);
        assert_eq!(rest, TydiBinary::empty());
    }
}

#[test]
fn an_integer_is_read_off_the_front() {
    let joined = TydiBinary::from(0xBEEFu16)
        .concatenate(&TydiBinary::from(vec![true, false, true]));
    let (value, rest) = u16::from_tydi_binary(joined);
    assert_eq!(value, 0xBEEF);
    assert_eq!(rest, TydiBinary { data: vec![0b101], len: 3 });
}

#[test]
fn an_integer_of_a_short_buffer_is_filled_with_zero() {
    let short = TydiBinary { data: 0x0102u16.to_ne_bytes().to_vec(), len: 16 };
    let expected = if little_endian() { 0x0102u32 } else { 0x0102_0000u32 };
    assert_eq!(u32::from(short), expected);
    assert_eq!(u64::from(TydiBinary::empty()), 0);
}

#[test]
fn test_date_time_packing() {
    // A point in time travels as its milliseconds since the epoch.
    let dt_original = chrono::DateTime::from_timestamp_millis(1_750_000_000_000).unwrap();
    let binary: TydiBinary = (dt_original.timestamp_millis() as u64).into();
    assert_eq!(binary.len, 64);
    let (int_value, rest) = i64::from_tydi_binary(binary);
    assert_eq!(rest.len, 0);
    let reconstructed = chrono::DateTime::from_timestamp_millis(int_value).unwrap();
    assert_eq!(reconstructed, dt_original);
    // A time before the epoch has negative milliseconds.
    let early = chrono::DateTime::from_timestamp_millis(-86_400_000).unwrap();
    let binary: TydiBinary = (early.timestamp_millis() as u64).into();
    let (int_value, _) = i64::from_tydi_binary(binary);
    assert_eq!(chrono::DateTime::from_timestamp_millis(int_value).unwrap(), early);
}
