use rust_tydi_packages::binary::{bytes_for, FromTydiBinary, TydiBinary};
use rust_tydi_packages::error::TydiError;

#[test]
fn test_binary_glue() {
    let bin1 = TydiBinary {
        data: vec![0b10101010, 0b11110000],
        len: 16,
    };
    let string1 = bin1.to_string();
    assert_eq!(string1, "0b1111000010101010");

    let bin2 = TydiBinary {
        data: vec![0b10101010, 0b00001111], // 0xaa, 0x0f
        len: 12,
    };
    let string2 = bin2.to_string();
    assert_eq!(string2, "0b111110101010");

    let last_bin = TydiBinary { data: vec![0b101], len: 3 }; // Value = 5
    let char_bin = TydiBinary { data: vec![0b01000011], len: 8 }; // Value = 67 or 0x43
    let package = last_bin.concatenate(&char_bin); // Expected value = 0x021D or [0x1D, 0x02]
    assert_eq!(package.data[0], 0x1D);
    assert_eq!(package.data[1], 0x02);
    let package_string = package.to_string();
    assert_eq!(package_string, "0b01000011101");

    let bin3 = TydiBinary::new(vec![0xAB, 0x0C], 12);
    // 0xAB = 1010 1011, 0xC0 = 1100 0000
    let string3 = bin3.to_string();
    assert_eq!(string3, "0b110010101011");

    let bin4 = TydiBinary::new(vec![0xDE, 0x0F], 16);
    // 0xDE = 1101 1110, 0x0F = 0000 1111
    let string4 = bin4.to_string();
    assert_eq!(string4, "0b0000111111011110");

    let result2 = bin3.concatenate(&bin4);
    let result_string2 = result2.to_string();
    assert_eq!(result_string2, "0b0000111111011110110010101011");
    let (recovered3, recovered4) = result2.split(12);
    println!("recovered3: {:?} (recovered4: {:?})\n", recovered3, recovered4);
    assert_eq!(recovered3.data, vec![0xAB, 0x0C]);
    assert_eq!(recovered3.to_string(), "0b110010101011");
    assert_eq!(recovered4.data, vec![0xDE, 0x0F]);
    assert_eq!(recovered4.to_string(), "0b0000111111011110");

    let number = 123456789u64;
    let tydi_number: TydiBinary = number.into();
    println!("number: {}, tydi: {:?}", number, tydi_number);
}

#[test]
fn test_binary_from_u32() {
    let value = 12345678u64;
    let binary = TydiBinary::from(value);

    assert_eq!(binary.len, 64);
    assert_eq!(binary.data, value.to_ne_bytes().to_vec());

    let binary: TydiBinary = value.into();

    assert_eq!(binary.len, 64);
    assert_eq!(binary.data, value.to_ne_bytes().to_vec());
}

#[test]
fn test_binary_from_f64() {
    let value: f64 = 3.14159;
    // The buffer of a float is the buffer of its bits.
    let binary = TydiBinary::from(value.to_bits());

    assert_eq!(binary.len, 64);
    assert_eq!(binary.data, value.to_ne_bytes().to_vec());
}

#[test]
fn test_binary_from_string() {
    let value = 'm';
    let binary = TydiBinary::from(value);

    assert_eq!(binary.len, 8);
}

#[test]
fn char_is_one_code_unit() {
    let binary = TydiBinary::from('m');
    assert_eq!(binary.data, vec![0x6d]);
    assert_eq!(binary.to_string(), "0b01101101");
    let wide = TydiBinary::from('é');
    assert_eq!(wide.len, 8);
    assert_eq!(wide.data, vec![0xC3, 0xA9]);
    assert_eq!(wide.to_string(), "0b11000011");
}

#[test]
fn empty_buffer() {
    let e = TydiBinary::empty();
    assert_eq!(e.len, 0);
    assert!(e.data.is_empty());
    assert_eq!(e.to_string(), "0b");
}

#[test]
fn bytes_for_rounds_up() {
    assert_eq!(bytes_for(0), 0);
    assert_eq!(bytes_for(1), 1);
    assert_eq!(bytes_for(8), 1);
    assert_eq!(bytes_for(9), 2);
    assert_eq!(bytes_for(64), 8);
}

#[test]
fn try_new_checks_the_length() {
    let ok = TydiBinary::try_new(vec![0xFF], 8).unwrap();
    assert_eq!(ok.len, 8);
    assert_eq!(ok.data, vec![0xFF]);
    assert!(ok.is_wf());
    assert_eq!(TydiBinary::try_new(vec![0xFF], 9), Err(TydiError::InvalidLength));
    assert_eq!(TydiBinary::try_new(vec![], 1), Err(TydiError::InvalidLength));
    assert!(TydiBinary::try_new(vec![], 0).is_ok());
}

#[test]
fn try_split_checks_the_offset() {
    let b = TydiBinary::new(vec![0xAB, 0x0C], 12);
    assert_eq!(b.try_split(13), Err(TydiError::InvalidLength));
    let (first, second) = b.try_split(12).unwrap();
    assert_eq!(first, TydiBinary { data: vec![0xAB, 0x0C], len: 12 });
    assert_eq!(second, TydiBinary { data: vec![], len: 0 });
    let broken = TydiBinary { data: vec![1], len: 20 };
    assert!(!broken.is_wf());
    assert_eq!(broken.try_split(2), Err(TydiError::InvalidLength));
}

#[test]
fn concatenate_scenario_three_and_eight_bits() {
    let a = TydiBinary { data: vec![0b101], len: 3 };
    let b = TydiBinary { data: vec![0b01000011], len: 8 };
    let joined = a.concatenate(&b);
    assert_eq!(joined.data, vec![0x1D, 0x02]);
    assert_eq!(joined.len, 11);
    let (first, second) = joined.split(3);
    assert_eq!(first, a);
    assert_eq!(second, b);
}

#[test]
fn concatenate_behind_whole_bytes_appends_bytes() {
    let a = TydiBinary { data: vec![0x12, 0x34], len: 16 };
    let b = TydiBinary { data: vec![0x56, 0x07], len: 11 };
    let joined = a.concatenate(&b);
    assert_eq!(joined.data, vec![0x12, 0x34, 0x56, 0x07]);
    assert_eq!(joined.len, 27);
}

#[test]
fn concatenate_with_empty_first_part_returns_the_second() {
    let a = TydiBinary::empty();
    let b = TydiBinary { data: vec![0xF5], len: 5 };
    let joined = a.concatenate(&b);
    assert_eq!(joined, b);
}

#[test]
fn concatenate_with_empty_second_part() {
    let a = TydiBinary { data: vec![0x15], len: 5 };
    let joined = a.concatenate(&TydiBinary::empty());
    assert_eq!(joined, a);
}

#[test]
fn concatenate_writes_the_carry_only_if_bits_remain() {
    // 3 + 5 bits fill one byte exactly.
    let a = TydiBinary { data: vec![0b101], len: 3 };
    let b = TydiBinary { data: vec![0b10011], len: 5 };
    let joined = a.concatenate(&b);
    assert_eq!(joined.data, vec![0b10011_101]);
    assert_eq!(joined.len, 8);
    // 3 + 6 bits need one bit of a second byte.
    let c = TydiBinary { data: vec![0b110011], len: 6 };
    let joined = a.concatenate(&c);
    assert_eq!(joined.data, vec![0b10011_101, 0b1]);
    assert_eq!(joined.len, 9);
}

#[test]
fn concatenate_ignores_what_lies_behind_the_length() {
    // The upper five bits of the first byte and the second byte carry no meaning.
    let a = TydiBinary { data: vec![0b11111_101, 0xFF], len: 3 };
    let b = TydiBinary { data: vec![0b01000011], len: 8 };
    let joined = a.concatenate(&b);
    assert_eq!(joined.data, vec![0x1D, 0x02]);
    assert_eq!(joined.len, 11);
}

#[test]
fn split_and_concatenate_round_trip() {
    let x = TydiBinary::new(vec![0xDE, 0xAD, 0xBE, 0x0F], 28);
    for n in 0..=28usize {
        let (first, second) = x.split(n);
        assert_eq!(first.len, n);
        assert_eq!(second.len, 28 - n);
        assert_eq!(first.data.len(), bytes_for(n));
        assert_eq!(second.data.len(), bytes_for(28 - n));
        let back = first.concatenate(&second);
        assert_eq!(back, x);
        let (a, b) = back.split(n);
        assert_eq!(a, first);
        assert_eq!(b, second);
    }
}

#[test]
fn split_at_zero_and_at_the_end() {
    let x = TydiBinary::new(vec![0x5A], 7);
    let (first, second) = x.split(0);
    assert_eq!(first, TydiBinary::empty());
    assert_eq!(second, x);
    let (first, second) = x.split(7);
    assert_eq!(first, x);
    assert_eq!(second, TydiBinary::empty());
}

#[test]
fn split_masks_the_last_byte_of_the_first_part() {
    let x = TydiBinary::new(vec![0xFF, 0xFF], 16);
    let (first, second) = x.split(3);
    assert_eq!(first.data, vec![0b111]);
    assert_eq!(second.data, vec![0xFF, 0b11111]);
    assert_eq!(second.len, 13);
}

#[test]
fn byte_at_reads_across_a_byte_border() {
    let x = TydiBinary::new(vec![0xAB, 0xCD], 16);
    assert_eq!(x.byte_at(0), 0xAB);
    assert_eq!(x.byte_at(8), 0xCD);
    assert_eq!(x.byte_at(4), 0xDA);
    assert_eq!(x.byte_at(12), 0x0C);
    assert_eq!(x.byte_at(16), 0);
    let short = TydiBinary::new(vec![0xFF], 3);
    assert_eq!(short.byte_at(0), 0b111);
    assert_eq!(short.byte_at(1), 0b11);
}

#[test]
fn bit_at_counts_from_the_low_bit() {
    let x = TydiBinary::new(vec![0b0000_0101, 0b1], 9);
    assert!(x.bit_at(0));
    assert!(!x.bit_at(1));
    assert!(x.bit_at(2));
    assert!(!x.bit_at(7));
    assert!(x.bit_at(8));
}

#[test]
fn to_string_puts_the_last_bit_first() {
    let x = TydiBinary::new(vec![0b1], 3);
    assert_eq!(x.to_string(), "0b001");
    let y = TydiBinary::new(vec![0b0000_0001, 0b10], 10);
    assert_eq!(y.to_string(), "0b1000000001");
}

#[test]
fn flags_to_buffer_and_back() {
    let flags = vec![true, false, true, true, false, false, false, false, true];
    let b = TydiBinary::from(flags.clone());
    assert_eq!(b.len, 9);
    assert_eq!(b.data, vec![0b0000_1101, 0b1]);
    let back: Vec<bool> = Vec::<bool>::from(b);
    assert_eq!(back, flags);
    let none = TydiBinary::from(Vec::<bool>::new());
    assert_eq!(none, TydiBinary::empty());
}

#[test]
fn flags_of_a_buffer_are_its_bits() {
    let b = TydiBinary { data: vec![0b110], len: 3 };
    let flags: Vec<bool> = b.into();
    assert_eq!(flags, vec![false, true, true]);
    // Of a buffer whose length exceeds its bytes, the bits that the bytes hold.
    let broken = TydiBinary { data: vec![0b1], len: 100 };
    let flags: Vec<bool> = broken.into();
    assert_eq!(flags, vec![true, false, false, false, false, false, false, false]);
}

#[test]
fn bool_to_buffer_and_back() {
    let t = TydiBinary::from(true);
    assert_eq!(t, TydiBinary { data: vec![1], len: 1 });
    let f = TydiBinary::from(false);
    assert_eq!(f, TydiBinary { data: vec![0], len: 1 });
    let joined = t.concatenate(&TydiBinary::from(0xA5u8));
    let (value, rest) = bool::from_tydi_binary(joined);
    assert!(value);
    assert_eq!(rest, TydiBinary { data: vec![0xA5], len: 8 });
    let (value, rest) = bool::from_tydi_binary(f);
    assert!(!value);
    assert_eq!(rest, TydiBinary::empty());
}

#[test]
fn split_for_reads_a_value_and_leaves_the_rest() {
    let a = TydiBinary::from(0xDEADBEEFu32);
    let b = TydiBinary::from(0x1234u16);
    let joined = a.concatenate(&b);
    let (value, rest): (u32, TydiBinary) = joined.split_for();
    assert_eq!(value, 0xDEADBEEF);
    assert_eq!(rest.len, 16);
    let (tail, rest): (u16, TydiBinary) = rest.split_for();
    assert_eq!(tail, 0x1234);
    assert_eq!(rest, TydiBinary::empty());
}

#[test]
fn split_for_reads_behind_a_bit_offset() {
    let joined = TydiBinary::from(true).concatenate(&TydiBinary::from(0x0102_0304u32));
    let (_, rest) = joined.split(1);
    let (value, rest): (u32, TydiBinary) = rest.split_for();
    assert_eq!(value, 0x0102_0304);
    assert_eq!(rest.len, 0);
}

#[test]
fn clone_keeps_bytes_and_length() {
    let x = TydiBinary { data: vec![1, 2, 3], len: 20 };
    let y = x.clone();
    assert_eq!(x, y);
}

#[test]
fn grouped_string_separates_bytes() {
    assert_eq!(TydiBinary::empty().to_grouped_string(), "");
    assert_eq!(TydiBinary::new(vec![0xAB, 0x0C], 12).to_grouped_string(), "1100 10101011");
    assert_eq!(TydiBinary::new(vec![0xAA, 0xF0], 16).to_grouped_string(), "11110000 10101010");
    assert_eq!(TydiBinary::new(vec![0x01], 1).to_grouped_string(), "1");
    assert_eq!(TydiBinary::new(vec![0x00, 0x00, 0x01], 17).to_grouped_string(), "1 00000000 00000000");
}

#[test]
fn hex_string_shows_the_bytes_that_hold_bits() {
    assert_eq!(TydiBinary::empty().to_hex_string(), "");
    assert_eq!(TydiBinary::new(vec![0xAB, 0x0C], 12).to_hex_string(), "0c ab");
    assert_eq!(TydiBinary::new(vec![0xDE, 0x0F], 16).to_hex_string(), "0f de");
    // Bits behind the length show as they are; spare bytes do not show.
    assert_eq!(TydiBinary::new(vec![0xFF, 0x12], 3).to_hex_string(), "ff");
    assert_eq!(TydiBinary::new(vec![0x09], 8).to_hex_string(), "09");
}
