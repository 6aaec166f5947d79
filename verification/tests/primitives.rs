use pade::{PadeDecode, PadeDecodeError, PadeEncode, PadeWidth};

#[test]
fn implemented_pade() {
    let tim = 128_u128;
    println!("{:?}", tim.pade_header_bits());
}

#[test]
fn integers_take_no_header_bits() {
    assert_eq!(128_u128.pade_header_bits(), 0);
    assert_eq!(128_u128.pade_variant_map_bits(), 0);
    assert_eq!(7_u8.pade_header_bits(), 0);
    assert_eq!((-7_i64).pade_variant_map_bits(), 0);
    assert_eq!(true.pade_header_bits(), 1);
    assert_eq!(true.pade_variant_map_bits(), 0);
}

#[test]
fn unsigned_integers_are_written_most_significant_byte_first() {
    assert_eq!(7u8.pade_encode(), vec![7]);
    assert_eq!(0x0102u16.pade_encode(), vec![1, 2]);
    assert_eq!(0x0102_0304u32.pade_encode(), vec![1, 2, 3, 4]);
    assert_eq!(0x0102_0304_0506_0708u64.pade_encode(), vec![1, 2, 3, 4, 5, 6, 7, 8]);
    assert_eq!(
        0x0102_0304_0506_0708_090A_0B0C_0D0E_0F10u128.pade_encode(),
        vec![1, 2, 3, 4, 5, 6, 7, 8, 9, 10, 11, 12, 13, 14, 15, 16]
    );
    assert_eq!(u64::MAX.pade_encode(), vec![255; 8]);
    assert_eq!(0u32.pade_encode(), vec![0; 4]);
}

#[test]
fn signed_integers_are_written_in_twos_complement() {
    assert_eq!((-1i8).pade_encode(), vec![0xFF]);
    assert_eq!(i8::MIN.pade_encode(), vec![0x80]);
    assert_eq!((-2i16).pade_encode(), vec![0xFF, 0xFE]);
    assert_eq!(34342i32.pade_encode(), vec![0, 0, 0x86, 0x26]);
    assert_eq!((-34342i32).pade_encode(), vec![0xFF, 0xFF, 0x79, 0xDA]);
    assert_eq!(i64::MIN.pade_encode(), vec![0x80, 0, 0, 0, 0, 0, 0, 0]);
    assert_eq!((-1i128).pade_encode(), vec![0xFF; 16]);
    assert_eq!(i128::MAX.pade_encode()[0], 0x7F);
}

#[test]
fn unsigned_integers_round_trip() {
    for v in [0u8, 1, 127, 128, 255] {
        assert_eq!(u8::pade_decode(&mut v.pade_encode().as_slice(), None), Ok(v));
    }
    for v in [0u16, 1, 0x00FF, 0x0100, u16::MAX] {
        assert_eq!(u16::pade_decode(&mut v.pade_encode().as_slice(), None), Ok(v));
    }
    for v in [0u32, 100, 200, 0x0102_0304, u32::MAX] {
        assert_eq!(u32::pade_decode(&mut v.pade_encode().as_slice(), None), Ok(v));
    }
    for v in [0u64, 1 << 40, u64::MAX] {
        assert_eq!(u64::pade_decode(&mut v.pade_encode().as_slice(), None), Ok(v));
    }
    for v in [0u128, 95, 4023, 323424, 1 << 100, u128::MAX] {
        assert_eq!(u128::pade_decode(&mut v.pade_encode().as_slice(), None), Ok(v));
    }
}

#[test]
fn signed_integers_round_trip() {
    for v in [i8::MIN, -1, 0, 1, i8::MAX] {
        assert_eq!(i8::pade_decode(&mut v.pade_encode().as_slice(), None), Ok(v));
    }
    for v in [i16::MIN, -2, 0, 300, i16::MAX] {
        assert_eq!(i16::pade_decode(&mut v.pade_encode().as_slice(), None), Ok(v));
    }
    for v in [i32::MIN, -34342, 0, 34342, i32::MAX] {
        assert_eq!(i32::pade_decode(&mut v.pade_encode().as_slice(), None), Ok(v));
    }
    for v in [i64::MIN, -1, 0, 1 << 40, i64::MAX] {
        assert_eq!(i64::pade_decode(&mut v.pade_encode().as_slice(), None), Ok(v));
    }
    for v in [i128::MIN, -1, 0, 1 << 100, i128::MAX] {
        assert_eq!(i128::pade_decode(&mut v.pade_encode().as_slice(), None), Ok(v));
    }
}

#[test]
fn decoding_reads_known_bytes() {
    assert_eq!(u16::pade_decode(&mut [1u8, 2].as_slice(), None), Ok(0x0102));
    assert_eq!(u32::pade_decode(&mut [0u8, 0, 0x86, 0x26].as_slice(), None), Ok(34342));
    assert_eq!(i16::pade_decode(&mut [0xFFu8, 0xFE].as_slice(), None), Ok(-2));
    assert_eq!(i8::pade_decode(&mut [0x80u8].as_slice(), None), Ok(-128));
    assert_eq!(i32::pade_decode(&mut [0xFFu8, 0xFF, 0x79, 0xDA].as_slice(), None), Ok(-34342));
}

#[test]
fn decoding_moves_the_cursor_by_the_width() {
    let bytes = [1u8, 2, 3, 4, 5, 6, 7];
    let mut cursor = bytes.as_slice();
    assert_eq!(u16::pade_decode(&mut cursor, None), Ok(0x0102));
    assert_eq!(cursor, &[3, 4, 5, 6, 7]);
    assert_eq!(u32::pade_decode(&mut cursor, None), Ok(0x0304_0506));
    assert_eq!(cursor, &[7]);
    assert_eq!(u8::pade_decode(&mut cursor, None), Ok(7));
    assert!(cursor.is_empty());
}

#[test]
fn decoding_ignores_the_header_context() {
    assert_eq!(u16::pade_decode(&mut [1u8, 2].as_slice(), Some(1)), Ok(0x0102));
    assert_eq!(u16::pade_decode_with_width(&mut [2u8].as_slice(), 1, Some(7)), Ok(2));
}

#[test]
fn short_input_is_invalid_size_and_leaves_the_cursor() {
    let bytes = [1u8, 2, 3];
    let mut cursor = bytes.as_slice();
    assert_eq!(u32::pade_decode(&mut cursor, None), Err(PadeDecodeError::InvalidSize));
    assert_eq!(cursor, &[1, 2, 3]);
    assert_eq!(i128::pade_decode(&mut cursor, None), Err(PadeDecodeError::InvalidSize));
    assert_eq!(cursor, &[1, 2, 3]);
    let mut empty: &[u8] = &[];
    assert_eq!(u8::pade_decode(&mut empty, None), Err(PadeDecodeError::InvalidSize));
    assert_eq!(i8::pade_decode(&mut empty, None), Err(PadeDecodeError::InvalidSize));
    assert_eq!(u16::pade_decode(&mut empty, None), Err(PadeDecodeError::InvalidSize));
    assert_eq!(u64::pade_decode(&mut empty, None), Err(PadeDecodeError::InvalidSize));
}

#[test]
fn narrowed_integer_round_trips_at_its_width() {
    let x = 34342i32;
    assert!(x.pade_fits_width(3));
    let bytes = x.pade_encode_with_width(3);
    assert_eq!(bytes, vec![0x00, 0x86, 0x26]);
    let mut cursor = bytes.as_slice();
    assert_eq!(i32::pade_decode_with_width(&mut cursor, 3, None), Ok(34342));
    assert!(cursor.is_empty());

    let y = 320u64;
    assert!(y.pade_fits_width(2));
    assert_eq!(y.pade_encode_with_width(2), vec![1, 64]);
    assert_eq!(u64::pade_decode_with_width(&mut [1u8, 64, 9].as_slice(), 2, None), Ok(320));

    let z = 0u128;
    assert!(z.pade_fits_width(0));
    assert_eq!(z.pade_encode_with_width(0), Vec::<u8>::new());
    assert_eq!(u128::pade_decode_with_width(&mut [9u8].as_slice(), 0, None), Ok(0));
}

#[test]
fn narrowing_at_the_native_width_keeps_every_value() {
    for v in [i32::MIN, -1, 0, 1, i32::MAX] {
        assert!(v.pade_fits_width(4));
        let bytes = v.pade_encode_with_width(4);
        assert_eq!(bytes, v.pade_encode());
        assert_eq!(i32::pade_decode_with_width(&mut bytes.as_slice(), 4, None), Ok(v));
    }
}

#[test]
fn values_that_do_not_fit_a_width_are_told_apart() {
    assert!(255u16.pade_fits_width(1));
    assert!(!256u16.pade_fits_width(1));
    assert!(0xFF_FFFFu32.pade_fits_width(3));
    assert!(!0x100_0000u32.pade_fits_width(3));
    assert!(!(-1i32).pade_fits_width(3));
    assert!(!1u8.pade_fits_width(0));
    assert!(!7u16.pade_fits_width(3));
}

#[test]
fn width_above_native_is_incorrect_width() {
    let bytes = [0u8; 40];
    let mut cursor = bytes.as_slice();
    assert_eq!(
        u16::pade_decode_with_width(&mut cursor, 3, None),
        Err(PadeDecodeError::IncorrectWidth)
    );
    assert_eq!(
        i32::pade_decode_with_width(&mut cursor, 5, None),
        Err(PadeDecodeError::IncorrectWidth)
    );
    assert_eq!(
        u128::pade_decode_with_width(&mut cursor, 17, None),
        Err(PadeDecodeError::IncorrectWidth)
    );
    assert_eq!(cursor.len(), 40);
    let mut empty: &[u8] = &[];
    assert_eq!(
        u8::pade_decode_with_width(&mut empty, 2, None),
        Err(PadeDecodeError::IncorrectWidth)
    );
}

#[test]
fn narrowed_decode_of_short_input_is_invalid_size() {
    let bytes = [1u8, 2];
    let mut cursor = bytes.as_slice();
    assert_eq!(
        u32::pade_decode_with_width(&mut cursor, 3, None),
        Err(PadeDecodeError::InvalidSize)
    );
    assert_eq!(cursor, &[1, 2]);
}

#[test]
fn narrowed_decode_pads_with_zeros() {
    assert_eq!(i32::pade_decode_with_width(&mut [0xFFu8].as_slice(), 1, None), Ok(255));
    assert_eq!(i8::pade_decode_with_width(&mut [0xFFu8].as_slice(), 1, None), Ok(-1));
    assert_eq!(u64::pade_decode_with_width(&mut [1u8, 0, 0].as_slice(), 3, None), Ok(65536));
}

#[test]
fn a_flag_on_its_own_is_the_first_bit_of_a_byte() {
    assert_eq!(true.pade_encode(), vec![0b1000_0000]);
    assert_eq!(false.pade_encode(), vec![0]);
    assert_eq!(bool::pade_decode(&mut [0b1000_0000u8].as_slice(), None), Ok(true));
    assert_eq!(bool::pade_decode(&mut [0b0111_1111u8].as_slice(), None), Ok(false));
    let mut empty: &[u8] = &[];
    assert_eq!(bool::pade_decode(&mut empty, None), Err(PadeDecodeError::InvalidSize));
}

#[test]
fn a_flag_from_a_shared_header_takes_no_bytes() {
    let bytes = [9u8, 9];
    let mut cursor = bytes.as_slice();
    assert_eq!(bool::pade_decode(&mut cursor, Some(1)), Ok(true));
    assert_eq!(bool::pade_decode(&mut cursor, Some(0)), Ok(false));
    assert_eq!(cursor.len(), 2);
}

#[test]
fn errors_have_a_text() {
    assert_eq!(PadeDecodeError::InvalidSize.message(), "input ends before the value does");
    assert_eq!(PadeDecodeError::IncorrectWidth.message(), "width is larger than the type's own");
    assert_eq!(PadeDecodeError::UnknownVariant.message(), "no variant has this tag");
}
