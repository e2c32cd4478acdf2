use fixed_codec::types;
use fixed_codec::{
    decode_data, decode_list, encode_data, encode_list, Address, CodecError, FixedCodec, Hex,
    Metadata, ValidatorExtend,
};

fn address_bytes() -> Vec<u8> {
    (1u8..=20).collect()
}

fn validator(key: &str, propose_weight: u32, vote_weight: u32) -> ValidatorExtend {
    ValidatorExtend {
        bls_pub_key: Hex::from_string(key.to_string()).unwrap(),
        address: Address::from_bytes(address_bytes()).unwrap(),
        propose_weight,
        vote_weight,
    }
}

fn same_validator(a: &ValidatorExtend, b: &ValidatorExtend) -> bool {
    a.bls_pub_key.as_string() == b.bls_pub_key.as_string()
        && a.address.as_bytes() == b.address.as_bytes()
        && a.propose_weight == b.propose_weight
        && a.vote_weight == b.vote_weight
}

fn metadata(verifier_list: Vec<ValidatorExtend>) -> Metadata {
    Metadata {
        chain_id: types::Hash::from_bytes(vec![0xabu8; 32]).unwrap(),
        common_ref: Hex::from_string("0x6364".to_string()).unwrap(),
        timeout_gap: 20,
        cycles_limit: 999_999_999_999,
        cycles_price: 1,
        interval: 3000,
        verifier_list,
        propose_ratio: 15,
        prevote_ratio: 10,
        precommit_ratio: 10,
        brake_ratio: 7,
        tx_num_limit: 20000,
        max_tx_size: 1024,
    }
}

fn list_of(n: usize) -> Vec<u8> {
    let items: Vec<Vec<u8>> = (0..n).map(|i| encode_data(&[i as u8 + 1])).collect();
    encode_list(&items)
}

#[test]
fn u32_min_and_max() {
    assert_eq!(0u32.encode_fixed(), vec![0, 0, 0, 0]);
    assert_eq!(u32::MAX.encode_fixed(), vec![0xff, 0xff, 0xff, 0xff]);
    assert_eq!(u32::decode_fixed(&[0xff, 0xff, 0xff, 0xff]), Ok(u32::MAX));
}

#[test]
fn u64_min_and_max() {
    assert_eq!(0u64.encode_fixed(), vec![0u8; 8]);
    assert_eq!(u64::MAX.encode_fixed(), vec![0xffu8; 8]);
    assert_eq!(u64::decode_fixed(&[0u8; 8]), Ok(0));
}

#[test]
fn bool_accepts_only_zero_and_one() {
    assert_eq!(bool::decode_fixed(&[0x00]), Ok(false));
    assert_eq!(bool::decode_fixed(&[0x01]), Ok(true));
    for b in 0x02u8..=0xff {
        assert_eq!(bool::decode_fixed(&[b]), Err(CodecError::DecodeBool));
    }
}

#[test]
fn empty_input_fails_per_type() {
    assert_eq!(bool::decode_fixed(&[]), Err(CodecError::DecodeBool));
    assert_eq!(u8::decode_fixed(&[]), Err(CodecError::DecodeUint8));
    assert_eq!(u32::decode_fixed(&[]), Err(CodecError::DecodeUint32));
    assert_eq!(u64::decode_fixed(&[]), Err(CodecError::DecodeUint64));
}

#[test]
fn short_input_fails() {
    assert_eq!(u32::decode_fixed(&[1, 2, 3]), Err(CodecError::DecodeUint32));
    assert_eq!(u64::decode_fixed(&[1, 2, 3, 4, 5, 6, 7]), Err(CodecError::DecodeUint64));
}

#[test]
fn trailing_bytes_are_ignored() {
    assert_eq!(bool::decode_fixed(&[1, 9, 9]), Ok(true));
    assert_eq!(u8::decode_fixed(&[7, 9]), Ok(7));
    assert_eq!(u32::decode_fixed(&[1, 0, 0, 0, 9]), Ok(1));
    assert_eq!(u64::decode_fixed(&[2, 0, 0, 0, 0, 0, 0, 0, 9]), Ok(2));
}

#[test]
fn invalid_utf8_fails() {
    assert_eq!(
        String::decode_fixed(&[0xff, 0xfe]),
        Err(CodecError::StringUTF8(vec![0xff, 0xfe]))
    );
}

#[test]
fn hex_round_trip_keeps_prefix() {
    let h = Hex::from_string("0xdeadbeef".to_string()).unwrap();
    let bytes = h.rlp_encode();
    let items = decode_list(&bytes).unwrap();
    assert_eq!(decode_data(&items[0]).unwrap(), b"deadbeef".to_vec());
    let back = Hex::rlp_decode(&bytes).unwrap();
    assert_eq!(back.as_string(), "0xdeadbeef");
}

#[test]
fn validator_wrong_arity() {
    assert_eq!(
        ValidatorExtend::rlp_decode(&list_of(3)).err(),
        Some(CodecError::IncorrectListLen)
    );
    assert_eq!(
        ValidatorExtend::rlp_decode(&list_of(5)).err(),
        Some(CodecError::IncorrectListLen)
    );
    assert_eq!(
        ValidatorExtend::rlp_decode(&encode_data(b"abc")).err(),
        Some(CodecError::IncorrectListLen)
    );
}

#[test]
fn metadata_wrong_arity() {
    assert_eq!(
        Metadata::rlp_decode(&list_of(12)).err(),
        Some(CodecError::ListTooShort(12))
    );
    assert_eq!(
        Metadata::rlp_decode(&list_of(0)).err(),
        Some(CodecError::ListTooShort(0))
    );
    assert_eq!(
        Metadata::rlp_decode(&list_of(14)).err(),
        Some(CodecError::IncorrectListLen)
    );
}

#[test]
fn verifier_list_round_trip() {
    let vs = three_validators();
    let m = metadata(three_validators());
    let bytes = m.rlp_encode();
    let items = decode_list(&bytes).unwrap();
    assert_eq!(items.len(), 13);
    let inner = decode_list(&items[6]).unwrap();
    assert_eq!(inner.len(), 3);
    let back = Metadata::rlp_decode(&bytes).unwrap();
    assert_eq!(back.verifier_list.len(), 3);
    for (a, b) in back.verifier_list.iter().zip(vs.iter()) {
        assert!(same_validator(a, b));
    }
}

fn three_validators() -> Vec<ValidatorExtend> {
    vec![
        validator("0x0001020304050607", 1, 2),
        validator("0xaabbccddeeff0011", 3, 4),
        validator("0x", 0, u32::MAX),
    ]
}

#[test]
fn metadata_round_trip() {
    let m = metadata(vec![validator("0x0001020304050607", 10, 20)]);
    let bytes = m.encode_fixed();
    assert_eq!(bytes, m.rlp_encode());
    let back = Metadata::decode_fixed(&bytes).unwrap();
    assert_eq!(back.chain_id.as_bytes(), vec![0xabu8; 32]);
    assert_eq!(back.common_ref.as_string(), "0x6364");
    assert_eq!(back.timeout_gap, 20);
    assert_eq!(back.cycles_limit, 999_999_999_999);
    assert_eq!(back.cycles_price, 1);
    assert_eq!(back.interval, 3000);
    assert_eq!(back.propose_ratio, 15);
    assert_eq!(back.prevote_ratio, 10);
    assert_eq!(back.precommit_ratio, 10);
    assert_eq!(back.brake_ratio, 7);
    assert_eq!(back.tx_num_limit, 20000);
    assert_eq!(back.max_tx_size, 1024);
    let items = decode_list(&bytes).unwrap();
    assert_eq!(items[12], vec![0x82, 0x04, 0x00]);
    assert_eq!(items[5], vec![0x82, 0x0b, 0xb8]);
    assert_eq!(items[4], vec![0x01]);
}

#[test]
fn encode_fixed_bool_seed() {
    assert_eq!(true.encode_fixed(), vec![0x01]);
    assert_eq!(false.encode_fixed(), vec![0x00]);
    assert_eq!(bool::decode_fixed(&[0x01]), Ok(true));
}

#[test]
fn encode_fixed_u32_seed() {
    assert_eq!(305419896u32.encode_fixed(), vec![0x78, 0x56, 0x34, 0x12]);
    assert_eq!(u32::decode_fixed(&[0x78, 0x56, 0x34, 0x12]), Ok(0x12345678));
}

#[test]
fn encode_fixed_u64_seed() {
    assert_eq!(1u64.encode_fixed(), vec![0x01, 0, 0, 0, 0, 0, 0, 0]);
    assert_eq!(u64::decode_fixed(&[0x01, 0, 0, 0, 0, 0, 0, 0]), Ok(1));
}

#[test]
fn encode_fixed_string_seed() {
    let s = "abc".to_string();
    let bytes = s.encode_fixed();
    assert_eq!(bytes, vec![0x61, 0x62, 0x63]);
    assert_eq!(String::decode_fixed(&bytes), Ok("abc".to_string()));
}

#[test]
fn u8_and_bytes_identity() {
    assert_eq!(0x7fu8.encode_fixed(), vec![0x7f]);
    assert_eq!(u8::decode_fixed(&[0x80]), Ok(0x80));
    let b = vec![1u8, 2, 3];
    assert_eq!(b.encode_fixed(), vec![1, 2, 3]);
    assert_eq!(Vec::<u8>::decode_fixed(&[]), Ok(vec![]));
}

#[test]
fn hex_rlp_seed() {
    let h = Hex::from_string("0xdeadbeef".to_string()).unwrap();
    let mut expected = vec![0xc9, 0x88];
    expected.extend_from_slice(b"deadbeef");
    assert_eq!(h.rlp_encode(), expected);
    assert_eq!(h.encode_fixed(), expected);
    assert_eq!(Hex::decode_fixed(&expected).unwrap().as_string(), "0xdeadbeef");
}

#[test]
fn validator_rlp_seed() {
    let v = validator("0x0001020304050607", 10, 20);
    let bytes = v.rlp_encode();
    assert_eq!(bytes.len(), 43);
    assert_eq!(bytes[0], 0xea);
    assert_eq!(&bytes[41..], &[0x0a, 0x14]);
    let back = ValidatorExtend::rlp_decode(&bytes).unwrap();
    assert!(same_validator(&back, &v));

    let items = decode_list(&bytes).unwrap();
    let truncated = encode_list(&items[..3].to_vec());
    assert_eq!(
        ValidatorExtend::rlp_decode(&truncated).err(),
        Some(CodecError::IncorrectListLen)
    );
}

#[test]
fn hex_rejects_bad_text() {
    assert!(matches!(
        Hex::from_string("deadbeef".to_string()),
        Err(CodecError::Custom(_))
    ));
    assert!(matches!(
        Hex::from_string("0xzz".to_string()),
        Err(CodecError::Custom(_))
    ));
    assert!(matches!(
        Hex::from_string("0xé1".to_string()),
        Err(CodecError::Custom(_))
    ));
    let bad = encode_list(&vec![encode_data(b"zz")]);
    assert!(matches!(Hex::rlp_decode(&bad), Err(CodecError::Custom(_))));
    let not_utf8 = encode_list(&vec![encode_data(&[0xff, 0xfe])]);
    assert_eq!(Hex::rlp_decode(&not_utf8).err(), Some(CodecError::ExpectedData));
}

#[test]
fn hash_and_address_lengths() {
    assert_eq!(
        types::Hash::from_bytes(vec![0u8; 31]).err(),
        Some(CodecError::InvalidLength)
    );
    let short = encode_list(&vec![encode_data(&[7u8; 31])]);
    assert_eq!(
        types::Hash::rlp_decode(&short).err(),
        Some(CodecError::InvalidLength)
    );
    let h = types::Hash::from_bytes(vec![5u8; 32]).unwrap();
    let bytes = h.encode_fixed();
    assert_eq!(bytes[0], 0xe1);
    assert_eq!(bytes[1], 0xa0);
    assert_eq!(types::Hash::decode_fixed(&bytes).unwrap().as_bytes(), vec![5u8; 32]);

    let a = Address::from_bytes(address_bytes()).unwrap();
    let bytes = a.encode_fixed();
    assert_eq!(bytes[..2], [0xd5, 0x94]);
    assert_eq!(Address::decode_fixed(&bytes).unwrap().as_bytes(), address_bytes());
    assert_eq!(
        Address::rlp_decode(&types::Hash::from_bytes(vec![5u8; 32]).unwrap().rlp_encode()).err(),
        Some(CodecError::InvalidLength)
    );
}

#[test]
fn rlp_byte_strings() {
    assert_eq!(encode_data(&[]), vec![0x80]);
    assert_eq!(encode_data(&[0x05]), vec![0x05]);
    assert_eq!(encode_data(&[0x80]), vec![0x81, 0x80]);
    let long = vec![0x11u8; 56];
    let enc = encode_data(&long);
    assert_eq!(enc[..2], [0xb8, 56]);
    assert_eq!(decode_data(&enc).unwrap(), long);
    assert_eq!(decode_data(&[0x81, 0x05]), Err(CodecError::Malformed));
    assert_eq!(decode_data(&[0xc0]), Err(CodecError::ExpectedData));
    assert_eq!(decode_data(&[0x83, 1, 2]), Err(CodecError::Malformed));
    assert_eq!(decode_data(&[0x05, 0x06]), Err(CodecError::Malformed));
}

#[test]
fn rlp_lists() {
    assert_eq!(encode_list(&vec![]), vec![0xc0]);
    assert_eq!(decode_list(&[0xc0]), Ok(vec![]));
    let items = vec![encode_data(b"cat"), encode_data(b"dog")];
    let enc = encode_list(&items);
    assert_eq!(enc, vec![0xc8, 0x83, b'c', b'a', b't', 0x83, b'd', b'o', b'g']);
    assert_eq!(decode_list(&enc), Ok(items));
    assert_eq!(decode_list(&[0x83, 1, 2, 3]), Err(CodecError::ExpectedList));
    assert_eq!(decode_list(&[0xc2, 0x83, 1]), Err(CodecError::Malformed));
    let long: Vec<Vec<u8>> = (0..60u8).map(|i| encode_data(&[i])).collect();
    let enc = encode_list(&long);
    assert_eq!(enc[..2], [0xf8, 60]);
    assert_eq!(decode_list(&enc), Ok(long));
}

#[test]
fn noncanonical_integer_fails() {
    let mut items: Vec<Vec<u8>> = decode_list(&validator("0x00", 1, 2).rlp_encode()).unwrap();
    items[2] = encode_data(&[0x00, 0x01]);
    assert_eq!(
        ValidatorExtend::rlp_decode(&encode_list(&items)).err(),
        Some(CodecError::Malformed)
    );
    items[2] = encode_data(&[1, 2, 3, 4, 5]);
    assert!(ValidatorExtend::rlp_decode(&encode_list(&items)).is_err());
}
