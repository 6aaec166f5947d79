use alloy::primitives::FixedBytes as AlloyFixedBytes;
use alloy::signers::local::LocalSigner;
use alloy::signers::SignerSync;
use pade::{
    Address, Bytes, FixedBytes, PadeDecode, PadeDecodeError, PadeEncode, PadeWidth, Signature,
    Uint, I24, U160, U256,
};

fn sample_signature(v: bool) -> Signature {
    let mut r = [0u8; 32];
    let mut s = [0u8; 32];
    for i in 0..32 {
        r[i] = i as u8 + 1;
        s[i] = 0xA0 + i as u8;
    }
    Signature::new(U256::from_be_bytes(r), U256::from_be_bytes(s), v)
}

#[test]
fn encodes_and_decodes_signature() {
    let signer = LocalSigner::random();
    let hash = AlloyFixedBytes::<32>::default();
    let sig = signer.sign_hash_sync(&hash).unwrap();
    let model = Signature::new(
        U256::from_be_bytes(sig.r().to_be_bytes::<32>()),
        U256::from_be_bytes(sig.s().to_be_bytes::<32>()),
        sig.v(),
    );
    let encoded = model.pade_encode();
    let decoded_sig = Signature::pade_decode(&mut encoded.as_slice(), None).unwrap();
    assert_eq!(model, decoded_sig);
    let back = alloy::primitives::Signature::new(
        alloy::primitives::U256::from_be_bytes(decoded_sig.r.to_be_bytes()),
        alloy::primitives::U256::from_be_bytes(decoded_sig.s.to_be_bytes()),
        decoded_sig.v,
    );
    assert_eq!(sig, back);
    assert_eq!(encoded[0], sig.v() as u8);
    assert_eq!(&encoded[1..33], &sig.r().to_be_bytes::<32>());
    assert_eq!(&encoded[33..65], &sig.s().to_be_bytes::<32>());
}

#[test]
fn signature_is_parity_then_two_scalars() {
    let sig = sample_signature(true);
    let bytes = sig.pade_encode();
    assert_eq!(bytes.len(), 65);
    assert_eq!(bytes[0], 1);
    assert_eq!(&bytes[1..33], &sig.r.to_be_bytes());
    assert_eq!(&bytes[33..65], &sig.s.to_be_bytes());
    assert_eq!(sample_signature(false).pade_encode()[0], 0);

    let mut longer = bytes.clone();
    longer.push(77);
    let mut cursor = longer.as_slice();
    assert_eq!(Signature::pade_decode(&mut cursor, None), Ok(sig));
    assert_eq!(cursor, &[77]);
}

#[test]
fn signature_decode_brings_the_recovery_byte_to_a_parity() {
    let mut bytes = sample_signature(false).pade_encode();
    for (byte, parity) in
        [(0u8, false), (1, true), (27, false), (28, true), (35, false), (36, true), (255, false)]
    {
        bytes[0] = byte;
        let decoded = Signature::pade_decode(&mut bytes.as_slice(), None).unwrap();
        assert_eq!(decoded, sample_signature(parity));
    }
}

#[test]
fn signature_with_an_unknown_recovery_byte_is_rejected() {
    let mut bytes = sample_signature(false).pade_encode();
    for byte in [2u8, 5, 26, 29, 34] {
        bytes[0] = byte;
        let mut cursor = bytes.as_slice();
        assert_eq!(
            Signature::pade_decode(&mut cursor, None),
            Err(PadeDecodeError::UnknownVariant)
        );
        assert_eq!(cursor.len(), 65);
    }
}

#[test]
fn short_signature_is_invalid_size() {
    let bytes = sample_signature(true).pade_encode();
    let mut cursor = &bytes[..64];
    assert_eq!(Signature::pade_decode(&mut cursor, None), Err(PadeDecodeError::InvalidSize));
    assert_eq!(cursor.len(), 64);
    let mut empty: &[u8] = &[];
    assert_eq!(Signature::pade_decode(&mut empty, None), Err(PadeDecodeError::InvalidSize));
}

#[test]
fn wide_integers_are_their_bytes() {
    let x = U256::from_u128(29769);
    let bytes = x.pade_encode();
    assert_eq!(bytes.len(), 32);
    assert_eq!(&bytes[..30], &[0u8; 30]);
    assert_eq!(&bytes[30..], &[0x74, 0x49]);
    assert_eq!(U256::pade_decode(&mut bytes.as_slice(), None), Ok(x));

    let y = U160::from_u128(u128::MAX);
    let bytes = y.pade_encode();
    assert_eq!(bytes.len(), 20);
    assert_eq!(&bytes[..4], &[0u8; 4]);
    assert_eq!(&bytes[4..], &[0xFF; 16]);
    assert_eq!(U160::pade_decode(&mut bytes.as_slice(), None), Ok(y));

    let small = Uint::<16>::from_u128(0x0102);
    assert_eq!(small.to_be_bytes()[14..], [1, 2]);
}

#[test]
fn wide_integers_agree_with_alloy() {
    let x = alloy::primitives::U256::from(29769_u128);
    assert_eq!(U256::from_u128(29769).to_be_bytes(), x.to_be_bytes::<32>());
    let y = alloy::primitives::U160::from(u128::MAX);
    assert_eq!(U160::from_u128(u128::MAX).to_be_bytes(), y.to_be_bytes::<20>());
}

#[test]
fn wide_integers_can_be_narrowed() {
    let x = U256::from_u128(29769);
    assert!(x.pade_fits_width(2));
    assert!(!x.pade_fits_width(1));
    assert_eq!(x.pade_encode_with_width(2), vec![0x74, 0x49]);
    assert_eq!(U256::pade_decode_with_width(&mut [0x74u8, 0x49].as_slice(), 2, None), Ok(x));
    assert_eq!(
        U256::pade_decode_with_width(&mut [0u8; 40].as_slice(), 33, None),
        Err(PadeDecodeError::IncorrectWidth)
    );
    assert_eq!(
        U160::pade_decode_with_width(&mut [0u8; 40].as_slice(), 21, None),
        Err(PadeDecodeError::IncorrectWidth)
    );
    assert_eq!(
        U256::pade_decode(&mut [0u8; 31].as_slice(), None),
        Err(PadeDecodeError::InvalidSize)
    );
}

#[test]
fn small_signed_integer_is_three_bytes() {
    assert_eq!(I24::new(-1).unwrap().pade_encode(), vec![0xFF, 0xFF, 0xFF]);
    assert_eq!(I24::new(0x12_3456).unwrap().pade_encode(), vec![0x12, 0x34, 0x56]);
    assert_eq!(I24::new(-0x80_0000).unwrap().pade_encode(), vec![0x80, 0, 0]);
    assert_eq!(I24::new(0x80_0000), None);
    assert_eq!(I24::new(-0x80_0001), None);
    for v in [-0x80_0000, -34342, -1, 0, 1, 34342, 0x7F_FFFF] {
        let x = I24::new(v).unwrap();
        assert_eq!(x.to_i32(), v);
        assert_eq!(I24::pade_decode(&mut x.pade_encode().as_slice(), None), Ok(x));
    }
    assert_eq!(I24::pade_decode(&mut [1u8, 2].as_slice(), None), Err(PadeDecodeError::InvalidSize));
    assert_eq!(
        I24::pade_decode_with_width(&mut [1u8, 2, 3, 4].as_slice(), 4, None),
        Err(PadeDecodeError::IncorrectWidth)
    );
}

#[test]
fn small_signed_integer_agrees_with_alloy() {
    for v in [-0x80_0000i32, -34342, -1, 0, 1, 34342, 0x7F_FFFF] {
        let theirs = alloy::primitives::aliases::I24::try_from(v).unwrap();
        assert_eq!(I24::new(v).unwrap().be, theirs.to_be_bytes::<3>());
    }
}

#[test]
fn address_is_twenty_bytes() {
    let mut raw = [0u8; 20];
    for i in 0..20 {
        raw[i] = 0x10 + i as u8;
    }
    let address = Address { bytes: raw };
    let mut bytes = address.pade_encode();
    assert_eq!(bytes, raw.to_vec());
    bytes.push(1);
    let mut cursor = bytes.as_slice();
    assert_eq!(Address::pade_decode(&mut cursor, None), Ok(address));
    assert_eq!(cursor, &[1]);
    assert_eq!(
        Address::pade_decode(&mut [0u8; 19].as_slice(), None),
        Err(PadeDecodeError::InvalidSize)
    );
}

#[test]
fn narrowed_address_is_padded_on_the_left() {
    let mut raw = [0u8; 20];
    raw[17] = 1;
    raw[18] = 2;
    raw[19] = 3;
    let address = Address { bytes: raw };
    assert!(address.pade_fits_width(3));
    assert!(!address.pade_fits_width(2));
    assert_eq!(address.pade_encode_with_width(3), vec![1, 2, 3]);
    let bytes = [1u8, 2, 3, 4];
    let mut cursor = bytes.as_slice();
    assert_eq!(Address::pade_decode_with_width(&mut cursor, 3, None), Ok(address));
    assert_eq!(cursor, &[4]);
    assert_eq!(
        Address::pade_decode_with_width(&mut cursor, 20, None),
        Err(PadeDecodeError::InvalidSize)
    );
    assert_eq!(
        Address::pade_decode_with_width(&mut cursor, 21, None),
        Err(PadeDecodeError::IncorrectWidth)
    );
}

#[test]
fn hash_is_thirty_two_bytes() {
    let mut raw = [0u8; 32];
    for i in 0..32 {
        raw[i] = 0xF0 ^ i as u8;
    }
    let hash = FixedBytes::<32> { bytes: raw };
    let bytes = hash.pade_encode();
    assert_eq!(bytes, raw.to_vec());
    assert_eq!(FixedBytes::<32>::pade_decode(&mut bytes.as_slice(), None), Ok(hash));
    let mut short = &bytes[..31];
    assert_eq!(
        FixedBytes::<32>::pade_decode(&mut short, None),
        Err(PadeDecodeError::InvalidSize)
    );
    assert_eq!(short.len(), 31);
}

#[test]
fn byte_string_goes_behind_a_three_byte_length() {
    let data = Bytes::copy_from_slice(&[0xAA, 0xBB, 0xCC]);
    assert!(data.is_encodable());
    let mut bytes = data.pade_encode();
    assert_eq!(bytes, vec![0, 0, 3, 0xAA, 0xBB, 0xCC]);
    bytes.push(5);
    let mut cursor = bytes.as_slice();
    assert_eq!(Bytes::pade_decode(&mut cursor, None), Ok(data));
    assert_eq!(cursor, &[5]);

    let empty = Bytes::copy_from_slice(&[]);
    assert_eq!(empty.pade_encode(), vec![0, 0, 0]);
    assert_eq!(Bytes::pade_decode(&mut [0u8, 0, 0].as_slice(), None), Ok(empty));

    let long = Bytes::copy_from_slice(&vec![7u8; 0x1_0203]);
    let bytes = long.pade_encode();
    assert_eq!(&bytes[..3], &[1, 2, 3]);
    assert_eq!(bytes.len(), 3 + 0x1_0203);
    assert_eq!(Bytes::pade_decode(&mut bytes.as_slice(), None), Ok(long));
}

#[test]
fn byte_string_longer_than_the_prefix_can_say_is_not_encodable() {
    assert!(Bytes { data: vec![0u8; 0xFF_FFFF] }.is_encodable());
    assert!(!Bytes { data: vec![0u8; 0x100_0000] }.is_encodable());
}

#[test]
fn truncated_byte_string_is_invalid_size() {
    let mut cursor: &[u8] = &[0, 0];
    assert_eq!(Bytes::pade_decode(&mut cursor, None), Err(PadeDecodeError::InvalidSize));
    assert_eq!(cursor.len(), 2);
    let mut cursor: &[u8] = &[0, 0, 4, 1, 2, 3];
    assert_eq!(Bytes::pade_decode(&mut cursor, None), Err(PadeDecodeError::InvalidSize));
    assert_eq!(cursor, &[0, 0, 4, 1, 2, 3]);
    let mut cursor: &[u8] = &[0xFF, 0xFF, 0xFF];
    assert_eq!(Bytes::pade_decode(&mut cursor, None), Err(PadeDecodeError::InvalidSize));
}
