use pade::{Address, Bytes, Layout, PadeDecodeError, Value, U256};

fn roundtrip_decode_encode_decode(layout: &Layout, slice: &mut &[u8]) {
    if let Ok(decoded) = layout.pade_decode(slice) {
        assert!(layout.admits(&decoded));
        let bytes = layout.pade_encode(&decoded);
        let decoded2 = layout.pade_decode(&mut bytes.as_slice()).unwrap();
        assert_eq!(decoded, decoded2);
    }
}

fn unit() -> Layout {
    Layout::Struct(vec![])
}

fn unit_value() -> Value {
    Value::Struct(vec![])
}

fn pair_of_u128() -> Layout {
    Layout::Struct(vec![Layout::fixed::<u128>(), Layout::fixed::<u128>()])
}

// Three variants, each with two wide integers.
fn cases_layout() -> Layout {
    Layout::Enum(vec![pair_of_u128(), pair_of_u128(), pair_of_u128()])
}

fn cases(variant: usize, a: u128, b: u128) -> Value {
    Value::Enum(variant, Box::new(Value::Struct(vec![Value::fixed(&a), Value::fixed(&b)])))
}

fn inside_layout() -> Layout {
    Layout::Struct(vec![Layout::fixed::<u128>(), Layout::fixed::<u128>(), cases_layout()])
}

fn outer_struct_a_layout() -> Layout {
    Layout::Struct(vec![
        Layout::narrow::<i32>(3),
        cases_layout(),
        Layout::Sequence(Box::new(Layout::fixed::<u128>())),
        inside_layout(),
        cases_layout(),
    ])
}

fn outer_struct_a_value() -> Value {
    Value::Struct(vec![
        Value::fixed(&34342i32),
        cases(1, 10, 2000000),
        Value::Sequence(vec![
            Value::fixed(&1u128),
            Value::fixed(&2u128),
            Value::fixed(&3u128),
            Value::fixed(&4023u128),
            Value::fixed(&323424u128),
        ]),
        Value::Struct(vec![
            Value::fixed(&234093323u128),
            Value::fixed(&234234u128),
            cases(2, 123, 423),
        ]),
        cases(2, 100, 2000000),
    ])
}

fn outer_struct_b_layout() -> Layout {
    Layout::Struct(vec![
        Layout::Bool,
        Layout::Bool,
        Layout::Bool,
        Layout::Bool,
        Layout::Bool,
        Layout::Bool,
        cases_layout(),
        cases_layout(),
    ])
}

fn test_struct_layout() -> Layout {
    Layout::Struct(vec![
        Layout::fixed::<u32>(),
        Layout::Optional(Box::new(Layout::fixed::<u128>())),
        Layout::fixed::<u32>(),
        Layout::Bool,
    ])
}

fn order_quantities_layout() -> Layout {
    Layout::Enum(vec![
        Layout::Struct(vec![Layout::fixed::<u128>()]),
        Layout::Struct(vec![
            Layout::fixed::<u128>(),
            Layout::fixed::<u128>(),
            Layout::fixed::<u128>(),
        ]),
    ])
}

fn user_order_layout() -> Layout {
    Layout::Struct(vec![
        Layout::fixed::<u32>(),
        Layout::Bool,
        Layout::fixed::<u16>(),
        Layout::fixed::<U256>(),
        Layout::Optional(Box::new(Layout::fixed::<Address>())),
        Layout::Optional(Box::new(Layout::Bytes)),
        Layout::Bool,
        Layout::Optional(Box::new(Layout::fixed::<u8>())),
        order_quantities_layout(),
        Layout::fixed::<u128>(),
        Layout::fixed::<u128>(),
        Layout::Bool,
        Layout::Enum(vec![unit(), unit()]),
    ])
}

fn roundtrip_outer_struct_a(slice: &mut &[u8]) {
    roundtrip_decode_encode_decode(&outer_struct_a_layout(), slice);
}

fn roundtrip_outer_struct_b(slice: &mut &[u8]) {
    roundtrip_decode_encode_decode(&outer_struct_b_layout(), slice);
}

fn roundtrip_user_order(slice: &mut &[u8]) {
    roundtrip_decode_encode_decode(&user_order_layout(), slice);
}

fn roundtrip_test_struct(slice: &mut &[u8]) {
    roundtrip_decode_encode_decode(&test_struct_layout(), slice);
}

#[test]
fn enums_have_correct_variant_bit_width() {
    let one_option = Layout::Enum(vec![unit()]);
    let two_options = Layout::Enum(vec![unit(), unit()]);
    let three_options = Layout::Enum(vec![unit(), unit(), unit()]);
    let five_options = Layout::Enum(vec![unit(), unit(), unit(), unit(), unit()]);

    assert_eq!(
        one_option.pade_variant_map_bits(),
        1,
        "Wrong number of variant bits for One option"
    );
    assert_eq!(
        two_options.pade_variant_map_bits(),
        1,
        "Wrong number of variant bits for Two option"
    );
    assert_eq!(
        three_options.pade_variant_map_bits(),
        2,
        "Wrong number of variant bits for Three option"
    );
    assert_eq!(
        five_options.pade_variant_map_bits(),
        3,
        "Wrong number of variant bits for Five option"
    );
}

#[test]
fn supports_struct_with_enum() {
    let layout = outer_struct_a_layout();
    let outer = outer_struct_a_value();

    let encoded = layout.pade_encode(&outer);
    let mut slice = encoded.as_slice();
    roundtrip_outer_struct_a(&mut slice);
    assert!(slice.is_empty());
    assert_eq!(layout.pade_decode(&mut encoded.as_slice()), Ok(outer));
}

#[test]
fn regression_panic_1() {
    let mut bytes: &[u8] = &[
        9, 0, 134, 0, 1, 0, 0, 0, 0, 0, 0, 0, 0, 0, 0, 0, 0, 0, 0, 0, 2, 0, 38, 0, 0, 0, 0, 0, 0,
        0, 0, 0, 0, 0, 0, 0, 0, 0, 10, 0, 0, 0, 0, 0, 0, 0, 0, 0, 0, 0, 0, 0, 30, 132, 128, 0, 0,
        80, 0, 0, 0, 0, 0, 0, 28, 0, 0, 0, 0, 0, 0, 0, 0, 1, 0, 0, 0, 0, 0, 0, 0, 0, 0, 0, 0, 0, 0,
        0, 0, 2, 0, 0, 0, 0, 0, 0, 0, 0, 0, 0, 0, 0, 0, 0, 0, 3, 0, 0, 0, 0, 0, 0, 0, 0, 0, 0, 0,
        0, 0, 0, 15, 183, 0, 0, 0, 0, 0, 0, 0, 0, 0, 0, 0, 0, 0, 4, 239, 96, 2, 0, 0, 0, 0, 0, 0,
        0, 0, 0, 0, 0, 0, 13, 243, 251, 11, 0, 0, 0, 0, 0, 0, 0, 0, 0, 0, 0, 0, 0, 3, 146, 250, 0,
        0, 0, 0, 0, 0, 0, 0, 0, 0, 0, 0, 0, 0, 0, 123, 0, 0, 0, 0, 0, 0, 0, 255, 245, 0, 0, 0, 0,
        0, 1, 167, 0, 0, 0, 0, 0, 0, 0, 0, 0, 0, 0, 0, 0,
    ];
    let _ = outer_struct_a_layout().pade_decode(&mut bytes);
}

#[test]
fn regression_panic_2() {
    let mut bytes: &[u8] = &[0];
    let result = outer_struct_a_layout().pade_decode(&mut bytes);
    assert_eq!(result, Err(PadeDecodeError::InvalidSize));
    assert_eq!(bytes, &[0]);
}

#[test]
fn regression_panic_3() {
    let mut bytes: &[u8] = &[
        246, 0, 134, 38, 0, 0, 0, 0, 0, 0, 0, 0, 0, 0, 0, 0, 0, 0, 0, 10, 0, 0, 0, 0, 0, 0, 0, 0,
        0, 0, 0, 0, 0, 30, 132, 128, 0, 0, 80,
    ];
    let _ = outer_struct_a_layout().pade_decode(&mut bytes);
}

#[test]
fn bool_ordering_more_than_1byte() {
    let layout = outer_struct_b_layout();
    // a, b, c, c1, c3, c2, d, e
    let outer = Value::Struct(vec![
        Value::Bool(true),
        Value::Bool(true),
        Value::Bool(true),
        Value::Bool(false),
        Value::Bool(true),
        Value::Bool(false),
        cases(1, 0, 0),
        cases(2, 0, 0),
    ]);

    let encoded = layout.pade_encode(&outer);
    let mut slice = encoded.as_slice();
    println!("{:08b}", slice[0]);
    println!("{:08b}", slice[1]);
    assert_eq!(slice[0], 0b1110_1001);
    assert_eq!(slice[1], 0b1000_0000);
    assert_eq!(encoded.len(), 2 + 32 + 32);
    roundtrip_outer_struct_b(&mut slice);
    assert_eq!(layout.pade_decode(&mut encoded.as_slice()), Ok(outer));
}

#[test]
fn bool_ordering_more_than_1byte_diff_size() {
    let layout = Layout::Struct(vec![
        Layout::Bool,
        Layout::Bool,
        Layout::Bool,
        Layout::Bool,
        Layout::Bool,
        cases_layout(),
        cases_layout(),
    ]);
    let outer = Value::Struct(vec![
        Value::Bool(true),
        Value::Bool(true),
        Value::Bool(true),
        Value::Bool(false),
        Value::Bool(false),
        cases(1, 0, 0),
        cases(2, 0, 0),
    ]);

    let encoded = layout.pade_encode(&outer);
    let mut slice = encoded.as_slice();
    let decoded = layout.pade_decode(&mut slice).unwrap();

    assert_eq!(outer, decoded);
}

#[test]
fn bool_ordering_lower() {
    let layout = Layout::Struct(vec![
        Layout::Bool,
        Layout::Bool,
        Layout::Bool,
        Layout::Bool,
        Layout::Bool,
        Layout::Bool,
    ]);
    // a, b, c, c1, c3, c2
    let outer = Value::Struct(vec![
        Value::Bool(true),
        Value::Bool(true),
        Value::Bool(true),
        Value::Bool(false),
        Value::Bool(true),
        Value::Bool(false),
    ]);

    let encoded = layout.pade_encode(&outer);
    let mut slice = encoded.as_slice();
    println!("{:08b}", slice[0]);
    let decoded = layout.pade_decode(&mut slice).unwrap();

    assert_eq!(outer, decoded);
}

#[test]
fn option_struct() {
    let layout = test_struct_layout();
    let s = Value::Struct(vec![
        Value::fixed(&100u32),
        Value::Optional(Some(Box::new(Value::fixed(&95u128)))),
        Value::fixed(&200u32),
        Value::Bool(true),
    ]);
    let bytes = layout.pade_encode(&s);
    let mut slice = bytes.as_slice();
    roundtrip_test_struct(&mut slice);
    assert_eq!(layout.pade_decode(&mut bytes.as_slice()), Ok(s));
}

#[test]
fn super_specific_dave_test() {
    let layout = user_order_layout();
    let item = Value::Struct(vec![
        Value::fixed(&25u32),
        Value::Bool(false),
        Value::fixed(&50u16),
        Value::fixed(&U256::from_u128(29769_u128)),
        Value::Optional(None),
        Value::Optional(None),
        Value::Bool(true),
        Value::Optional(None),
        Value::Enum(
            1,
            Box::new(Value::Struct(vec![
                Value::fixed(&0u128),
                Value::fixed(&99u128),
                Value::fixed(&0u128),
            ])),
        ),
        Value::fixed(&0u128),
        Value::fixed(&0u128),
        Value::Bool(false),
        Value::Enum(1, Box::new(unit_value())),
    ]);
    let bytes = layout.pade_encode(&item);
    let mut slice = bytes.as_slice();
    roundtrip_user_order(&mut slice);
    assert_eq!(layout.pade_decode(&mut bytes.as_slice()), Ok(item));
}

#[test]
fn user_order_with_every_optional_present() {
    let layout = user_order_layout();
    let item = Value::Struct(vec![
        Value::fixed(&25u32),
        Value::Bool(true),
        Value::fixed(&50u16),
        Value::fixed(&U256::from_u128(u128::MAX)),
        Value::Optional(Some(Box::new(Value::fixed(&Address { bytes: [7; 20] })))),
        Value::Optional(Some(Box::new(Value::Bytes(Bytes::copy_from_slice(&[1, 2, 3]))))),
        Value::Bool(true),
        Value::Optional(Some(Box::new(Value::fixed(&9u8)))),
        Value::Enum(0, Box::new(Value::Struct(vec![Value::fixed(&77u128)]))),
        Value::fixed(&1u128),
        Value::fixed(&2u128),
        Value::Bool(true),
        Value::Enum(0, Box::new(unit_value())),
    ]);
    let bytes = layout.pade_encode(&item);
    // ref_id, header, pair_index, min_price
    assert_eq!(&bytes[..4], &[0, 0, 0, 25]);
    assert_eq!(bytes[4], 0b1000_0000);
    assert_eq!(&bytes[5..7], &[0, 50]);
    // recipient, hook_data, zero_for_one, standing_validation, order_quantities
    assert_eq!(bytes[39], 0b1111_0000);
    // exact_in, signature
    assert_eq!(bytes[bytes.len() - 1], 0b1000_0000);
    let mut slice = bytes.as_slice();
    assert_eq!(layout.pade_decode(&mut slice), Ok(item));
    assert!(slice.is_empty());
}

#[test]
fn truncated_prefix_is_invalid_size() {
    let layout = outer_struct_a_layout();
    let encoded = layout.pade_encode(&outer_struct_a_value());
    let mut slice = &encoded[..37];
    assert_eq!(layout.pade_decode(&mut slice), Err(PadeDecodeError::InvalidSize));
    assert_eq!(slice.len(), 37);
}

#[test]
fn every_truncation_of_a_valid_encoding_is_an_error() {
    let layout = outer_struct_a_layout();
    let encoded = layout.pade_encode(&outer_struct_a_value());
    for cut in 0..encoded.len() {
        let mut slice = &encoded[..cut];
        assert_eq!(layout.pade_decode(&mut slice), Err(PadeDecodeError::InvalidSize));
        assert_eq!(slice.len(), cut);
    }
}

#[test]
fn mutated_encodings_never_abort() {
    let layouts = [
        outer_struct_a_layout(),
        outer_struct_b_layout(),
        test_struct_layout(),
        user_order_layout(),
    ];
    let seed = outer_struct_a_layout().pade_encode(&outer_struct_a_value());
    let mut state: u64 = 0x9E37_79B9_7F4A_7C15;
    for round in 0..400usize {
        let mut bytes = seed.clone();
        for _ in 0..(1 + round % 7) {
            state = state.wrapping_mul(6364136223846793005).wrapping_add(1442695040888963407);
            let at = (state >> 33) as usize % bytes.len();
            bytes[at] = (state >> 24) as u8;
        }
        state = state.wrapping_mul(6364136223846793005).wrapping_add(1442695040888963407);
        bytes.truncate((state >> 33) as usize % (bytes.len() + 1));
        for layout in layouts.iter() {
            let mut slice = bytes.as_slice();
            roundtrip_decode_encode_decode(layout, &mut slice);
        }
    }
}
