use asn1_codec::bits::BitString;
use asn1_codec::constraints::{Bounded, Constraint, Constraints, Extensible, Size, Value};
use asn1_codec::error::EncodeError;
use asn1_codec::integer::Integer;
use asn1_codec::oer::config::{EncoderOptions, EncodingRules};
use asn1_codec::oer::de::Decoder;
use asn1_codec::oer::enc::{determine_integer_size_and_sign, Encoder};
use asn1_codec::tag::{Class, Tag};

fn value_range(start: i128, end: i128) -> Constraints {
    Constraints::new(vec![Constraint::Value(Extensible::new(Value::new(Bounded::Range {
        start: Some(start),
        end: Some(end),
    })))])
}

fn big(n: &num_bigint::BigInt) -> Integer {
    Integer::from_signed_bytes(&n.to_signed_bytes_be())
}

#[test]
fn test_encode_bool() {
    let mut encoder = Encoder::new();
    encoder.encode_bool(true);
    assert_eq!(encoder.output(), vec![0xffu8]);
    encoder.encode_bool(false);
    assert_eq!(encoder.output(), vec![0xffu8, 0]);
    let mut e = Encoder::new();
    e.encode_bool(true);
    assert_eq!(e.output(), &[0xffu8]);
    let mut e = Encoder::new();
    e.encode_bool(false);
    assert_eq!(e.output(), &[0x0]);
}

#[test]
fn test_encode_integer_manual_setup() {
    let consts = value_range(0, 255);
    let mut encoder = Encoder::default();
    let result = encoder.encode_integer_with_constraints(&consts, &Integer::from_i64(244));
    assert!(result.is_ok());
    assert_eq!(encoder.output(), vec![244u8]);
    let mut encoder = Encoder::default();
    let value = Integer::from_i64(256);
    let result = encoder.encode_integer_with_constraints(&consts, &value);
    assert!(matches!(result, Err(EncodeError::IntegerOutOfRange { .. })));
    assert_eq!(encoder.output(), Vec::<u8>::new());
}

#[test]
fn test_integer_with_length_determinant() {
    let constraints = Constraints::default();
    let mut encoder = Encoder::default();
    let result = encoder.encode_integer_with_constraints(&constraints, &Integer::from_i64(244));
    assert!(result.is_ok());
    assert_eq!(encoder.output(), vec![2u8, 0, 244]);
    let mut encoder = Encoder::default();
    let result =
        encoder.encode_integer_with_constraints(&constraints, &Integer::from_i64(-1_234_567));
    assert!(result.is_ok());
    assert_eq!(encoder.output(), vec![0x03u8, 0xED, 0x29, 0x79]);
}

#[test]
fn test_large_lengths() {
    let constraints = Constraints::default();
    let mut encoder = Encoder::default();
    let number = num_bigint::BigInt::from(256).pow(127) - 1;
    let result = encoder.encode_integer_with_constraints(&constraints, &big(&number));
    assert!(result.is_ok());
    let mut vc = vec![0x81u8, 0x80, 0x00];
    vc.extend(std::iter::repeat(0xffu8).take(127));
    assert_eq!(encoder.output(), vc);
}

#[test]
fn test_decode_bool() {
    let mut d = Decoder::new(&[0xffu8]);
    assert!(d.decode_bool().unwrap());
    let mut d = Decoder::new(&[0u8]);
    assert!(!d.decode_bool().unwrap());
    let mut d = Decoder::new(&[0xffu8, 0xff]);
    assert!(d.decode_bool().unwrap());
    let mut d = Decoder::new(&[0x33u8, 0x0]);
    assert!(d.decode_bool().unwrap());
}

#[test]
fn test_decode_length_invalid() {
    let mut decoder = Decoder::new(&[0xffu8]);
    assert!(decoder.decode_length().is_err());
    let mut decoder = Decoder::new(&[0xffu8, 0xff]);
    assert!(decoder.decode_length().is_err());
}

#[test]
fn test_decode_length_valid() {
    // Max length
    let max_length = num_bigint::BigUint::from(2u8).pow(1016u32) - num_bigint::BigUint::from(1u8);
    assert_eq!(max_length.to_bytes_be(), [0xffu8; 127]);
    assert_eq!(max_length.to_bytes_be().len(), 127);
    // a length past the platform's addressing is refused
    let mut too_long = vec![0xffu8];
    too_long.extend(max_length.to_bytes_be());
    let mut decoder = Decoder::new(&too_long);
    assert!(decoder.decode_length().is_err());
    let mut decoder = Decoder::new(&[0x01u8, 0xff]);
    assert_eq!(decoder.decode_length().unwrap(), 1);
    let mut decoder = Decoder::new(&[0x03u8, 0xff, 0xff, 0xfe]);
    assert_eq!(decoder.decode_length().unwrap(), 3);
    let mut data: [u8; 0x80] = [0xffu8; 0x80];
    data[0] = 0x7f;
    let mut decoder = Decoder::new(&data);
    assert_eq!(decoder.decode_length().unwrap(), 127);

    let length: [u8; 1] = [0x82u8];
    let length_determinant: [u8; 0x02] = [0x01u8, 0x02];
    let data: [u8; 258] = [0xffu8; 258];
    let mut combined: [u8; 261] = [0x0; 261];
    combined[..1].copy_from_slice(&length);
    combined[1..=2].copy_from_slice(&length_determinant);
    combined[3..].copy_from_slice(&data);
    let mut decoder = Decoder::new(&combined);
    assert_eq!(decoder.decode_length().unwrap(), 258);
}

#[test]
fn length_determinant_boundary() {
    let mut e = Encoder::new();
    e.encode_length(127, false);
    assert_eq!(e.output(), vec![0x7f]);
    let mut e = Encoder::new();
    e.encode_length(128, false);
    assert_eq!(e.output(), vec![0x81, 0x80]);
    let mut e = Encoder::new();
    e.encode_length(256, false);
    assert_eq!(e.output(), vec![0x82, 0x01, 0x00]);
    let mut e = Encoder::new();
    e.encode_length(5, true);
    assert_eq!(e.output(), vec![0x85]);
}

#[test]
fn integer_width_selection() {
    let range = |s, e| Bounded::Range { start: Some(s), end: Some(e) };
    assert_eq!(determine_integer_size_and_sign(&range(0, 255)), (false, Some(1)));
    assert_eq!(determine_integer_size_and_sign(&range(0, 65535)), (false, Some(2)));
    assert_eq!(determine_integer_size_and_sign(&range(0, 65536)), (false, Some(4)));
    assert_eq!(determine_integer_size_and_sign(&range(0, u64::MAX as i128)), (false, Some(8)));
    assert_eq!(determine_integer_size_and_sign(&range(0, u64::MAX as i128 + 1)), (false, None));
    assert_eq!(determine_integer_size_and_sign(&range(-128, 127)), (true, Some(1)));
    assert_eq!(determine_integer_size_and_sign(&range(-129, 127)), (true, Some(2)));
    assert_eq!(determine_integer_size_and_sign(&Bounded::Unbounded), (true, None));
    assert_eq!(
        determine_integer_size_and_sign(&Bounded::Range { start: Some(5), end: None }),
        (false, None)
    );
}

#[test]
fn fixed_width_integers() {
    let mut e = Encoder::new();
    e.encode_integer_with_constraints(&value_range(0, 65535), &Integer::from_i64(258)).unwrap();
    assert_eq!(e.output(), vec![0x01, 0x02]);
    let mut e = Encoder::new();
    e.encode_integer_with_constraints(&value_range(-200, 200), &Integer::from_i64(-2)).unwrap();
    assert_eq!(e.output(), vec![0xff, 0xfe]);
    let mut e = Encoder::new();
    let r = e.encode_integer_with_padding(9, &Integer::from_i64(1), false);
    assert_eq!(r, Err(EncodeError::UnexpectedIntegerWidth { octets: 9 }));
    let mut e = Encoder::new();
    let r = e.encode_integer_with_padding(1, &Integer::from_i64(300), false);
    assert!(matches!(r, Err(EncodeError::MoreBytesThanExpected { .. })));
}

#[test]
fn extensible_value_constraint_is_invisible() {
    let extensible = Constraints::new(vec![Constraint::Value(
        Extensible::new(Value::new(Bounded::Range { start: Some(0), end: Some(255) }))
            .set_extensible(true),
    )]);
    let mut e = Encoder::new();
    e.encode_integer_with_constraints(&extensible, &Integer::from_i64(300)).unwrap();
    assert_eq!(e.output(), vec![0x02, 0x01, 0x2c]);
}

#[test]
fn unsigned_unconstrained_refuses_negative() {
    let mut e = Encoder::new();
    let r = e.encode_unconstrained_integer(&Integer::from_i64(-1), false, false);
    assert_eq!(r, Err(EncodeError::NegativeUnsigned));
}

#[test]
fn integer_round_trip() {
    for (bound, v) in [((0i128, 255i128), 244i64), ((-1000, 1000), -999), ((0, 70000), 65536)] {
        let c = value_range(bound.0, bound.1);
        let mut e = Encoder::new();
        e.encode_integer_with_constraints(&c, &Integer::from_i64(v)).unwrap();
        let bytes = e.output();
        let mut d = Decoder::new(&bytes);
        assert_eq!(d.decode_integer_with_constraints(&c).unwrap(), Integer::from_i64(v));
        assert_eq!(d.remaining_len(), 0);
    }
    let c = Constraints::default();
    let n = num_bigint::BigInt::from(-3) * num_bigint::BigInt::from(10).pow(40);
    let mut e = Encoder::new();
    e.encode_integer_with_constraints(&c, &big(&n)).unwrap();
    let bytes = e.output();
    let mut d = Decoder::new(&bytes);
    assert_eq!(d.decode_integer_with_constraints(&c).unwrap(), big(&n));
}

#[test]
fn decoded_value_outside_bound_is_refused() {
    let mut d = Decoder::new(&[0x10]);
    assert!(d.decode_integer_with_constraints(&value_range(0, 15)).is_err());
}

#[test]
fn octet_strings() {
    let fixed = Constraints::new(vec![Constraint::Size(Extensible::new(Size::fixed(3)))]);
    let mut e = Encoder::new();
    e.encode_octet_string(&fixed, &[1, 2, 3]).unwrap();
    assert_eq!(e.output(), vec![1, 2, 3]);
    let mut e = Encoder::new();
    assert_eq!(
        e.encode_octet_string(&fixed, &[1, 2]),
        Err(EncodeError::NotInSizeConstraintRange { length: 2 })
    );
    let mut e = Encoder::new();
    e.encode_octet_string(&Constraints::default(), &[9, 8]).unwrap();
    let bytes = e.output();
    assert_eq!(bytes, vec![2, 9, 8]);
    let mut d = Decoder::new(&bytes);
    assert_eq!(d.decode_octet_string(&Constraints::default()).unwrap(), vec![9, 8]);
    let mut d = Decoder::new(&[1, 2, 3]);
    assert_eq!(d.decode_octet_string(&fixed).unwrap(), vec![1, 2, 3]);
    let mut e = Encoder::new();
    e.encode_octet_string(&Constraints::default(), &[]).unwrap();
    assert_eq!(e.output(), vec![0]);
}

#[test]
fn bit_strings() {
    let mut bits = BitString::from_vec(vec![0xAB, 0xCD]);
    bits.truncate(12);
    let mut e = Encoder::new();
    e.encode_bit_string(&Constraints::default(), &bits).unwrap();
    let bytes = e.output();
    assert_eq!(bytes, vec![0x03, 0x04, 0xAB, 0xC0]);
    let mut d = Decoder::new(&bytes);
    assert_eq!(d.decode_bit_string(&Constraints::default()).unwrap(), bits);

    let fixed = Constraints::new(vec![Constraint::Size(Extensible::new(Size::fixed(12)))]);
    let mut e = Encoder::new();
    e.encode_bit_string(&fixed, &bits).unwrap();
    let bytes = e.output();
    assert_eq!(bytes, vec![0xAB, 0xC0]);
    let mut d = Decoder::new(&bytes);
    assert_eq!(d.decode_bit_string(&fixed).unwrap(), bits);
}

#[test]
fn enumerated() {
    let mut e = Encoder::new();
    e.encode_enumerated(5);
    assert_eq!(e.output(), vec![5]);
    let mut e = Encoder::new();
    e.encode_enumerated(-1);
    assert_eq!(e.output(), vec![0x81, 0xff]);
    let mut e = Encoder::new();
    e.encode_enumerated(1000);
    let bytes = e.output();
    assert_eq!(bytes, vec![0x82, 0x03, 0xe8]);
    let mut d = Decoder::new(&bytes);
    assert_eq!(d.decode_enumerated().unwrap(), 1000);
}

#[test]
fn test_object_identifier() {
    let mut e = Encoder::new();
    e.encode_object_identifier(&[1, 2, 34567, 88]).unwrap();
    assert_eq!(e.output(), vec![0x05, 0x2A, 0x82, 0x8E, 0x07, 0x58]);
    let mut e = Encoder::new();
    assert_eq!(
        e.encode_object_identifier(&[3, 1]),
        Err(EncodeError::InvalidObjectIdentifier)
    );
    assert_eq!(e.encode_object_identifier(&[1]), Err(EncodeError::InvalidObjectIdentifier));
}

#[test]
fn null_takes_nothing() {
    let mut e = Encoder::new();
    e.encode_null();
    assert!(e.output().is_empty());
}

#[test]
fn options() {
    assert!(EncoderOptions::coer().encoding_rules.is_coer());
    assert!(EncodingRules::Coer.is_coer());
}

#[test]
fn sequence_preamble_and_extensions() {
    let mut e = Encoder::new();
    e.encode_sequence_preamble(true, true, &[true, false]);
    e.encode_integer_with_constraints(&value_range(0, 255), &Integer::from_i64(5)).unwrap();
    e.encode_extension_additions(&vec![Some(vec![0xAA]), None, Some(vec![])]);
    let bytes = e.output();
    assert_eq!(bytes, vec![0xC0, 0x05, 0x02, 0x05, 0xA0, 0x01, 0xAA, 0x00]);

    let mut d = Decoder::new(&bytes);
    let (ext, presence) = d.decode_sequence_preamble(true, 2).unwrap();
    assert!(ext);
    assert_eq!(presence, vec![true, false]);
    assert_eq!(
        d.decode_integer_with_constraints(&value_range(0, 255)).unwrap(),
        Integer::from_i64(5)
    );
    let adds = d.decode_extension_additions().unwrap();
    assert_eq!(adds, vec![Some(vec![0xAA]), None, Some(vec![])]);
    assert_eq!(d.remaining_len(), 0);
}

#[test]
fn unknown_extension_is_skipped() {
    // A newer writer adds an extension field; an older reader knows only the root.
    let mut e = Encoder::new();
    e.encode_sequence_preamble(true, true, &[]);
    e.encode_bool(true);
    e.encode_extension_additions(&vec![Some(vec![0x02, 0x01, 0x2c])]);
    e.encode_bool(false);
    let bytes = e.output();

    let mut d = Decoder::new(&bytes);
    let (ext, _) = d.decode_sequence_preamble(true, 0).unwrap();
    assert!(ext);
    assert!(d.decode_bool().unwrap());
    let _ = d.decode_extension_additions().unwrap();
    assert!(!d.decode_bool().unwrap());
    assert_eq!(d.remaining_len(), 0);
}

#[test]
fn preamble_without_extension_bit() {
    let mut e = Encoder::new();
    e.encode_sequence_preamble(false, false, &[true, true, false, true, false, false, false, false, true]);
    let bytes = e.output();
    assert_eq!(bytes, vec![0b1101_0000, 0b1000_0000]);
    let mut d = Decoder::new(&bytes);
    let (ext, p) = d.decode_sequence_preamble(false, 9).unwrap();
    assert!(!ext);
    assert_eq!(p, vec![true, true, false, true, false, false, false, false, true]);
}

#[test]
fn choice_alternatives() {
    let mut e = Encoder::new();
    e.encode_choice(Tag::new(Class::Context, 1), &[0xff], false).unwrap();
    assert_eq!(e.output(), vec![0x81, 0xff]);
    let mut e = Encoder::new();
    e.encode_choice(Tag::new(Class::Context, 70), &[1, 2], true).unwrap();
    let bytes = e.output();
    assert_eq!(bytes, vec![0xBF, 0x46, 0x02, 1, 2]);
    let mut d = Decoder::new(&bytes);
    assert_eq!(d.decode_choice_tag().unwrap(), Tag::new(Class::Context, 70));
    assert_eq!(d.decode_octet_string(&Constraints::default()).unwrap(), vec![1, 2]);
}

#[test]
fn top_level_encode_and_decode() {
    let bytes = asn1_codec::oer::encode(&Integer::from_i64(-1_234_567)).unwrap();
    assert_eq!(bytes, vec![0x03, 0xED, 0x29, 0x79]);
    assert_eq!(asn1_codec::oer::decode::<Integer>(&bytes).unwrap(), Integer::from_i64(-1_234_567));
    let c = value_range(0, 255);
    let bytes = asn1_codec::oer::encode_with_constraints(&c, &Integer::from_i64(244)).unwrap();
    assert_eq!(bytes, vec![0xF4]);
    assert_eq!(
        asn1_codec::oer::decode_with_constraints::<Integer>(&c, &bytes).unwrap(),
        Integer::from_i64(244)
    );
    assert!(asn1_codec::oer::encode_with_constraints(&c, &Integer::from_i64(256)).is_err());
    assert!(asn1_codec::oer::decode::<Integer>(&[0x02, 0x01]).is_err());
}

#[test]
fn object_identifier_round_trip() {
    let mut e = Encoder::new();
    e.encode_object_identifier(&[2, 999, 1]).unwrap();
    let bytes = e.output();
    assert_eq!(bytes, vec![0x03, 0x88, 0x37, 0x01]);
    let mut d = Decoder::new(&bytes);
    assert_eq!(d.decode_object_identifier().unwrap(), vec![2, 999, 1]);
    let mut d = Decoder::new(&[0x05, 0x2A, 0x82, 0x8E, 0x07, 0x58]);
    assert_eq!(d.decode_object_identifier().unwrap(), vec![1, 2, 34567, 88]);
}

#[test]
fn test_large_int() {
    // Signed integer with byte length of 128
    // Needs long form to represent in most cases
    let number = num_bigint::BigInt::from(256u32).pow(127u32) - 1u32;
    let integer = big(&number);
    for result in [asn1_codec::oer::encode(&integer).unwrap()] {
        assert!(result.len() > 128);
        let decoded = asn1_codec::oer::decode::<Integer>(&result).unwrap();
        match decoded {
            Integer::Variable(value) => assert!(value == number.to_signed_bytes_be()),
            _ => panic!("Expected BigInt integer"),
        }
    }
}

#[test]
fn test_primititive_int() {
    let number: i64 = i32::MAX.into();
    let integer = Integer::from_i64(number);
    for result in [asn1_codec::oer::encode(&integer).unwrap()] {
        assert!(result.len() > 4);
        let decoded = asn1_codec::oer::decode::<Integer>(&result).unwrap();
        match decoded {
            Integer::Primitive(value) => assert!(value == number),
            _ => panic!("Expected primitive integer"),
        }
    }
}

#[test]
fn out_of_range_error_carries_value_and_bound() {
    let c = value_range(0, 255);
    let mut e = Encoder::new();
    match e.encode_integer_with_constraints(&c, &Integer::from_i64(256)) {
        Err(EncodeError::IntegerOutOfRange { value, expected }) => {
            assert_eq!(value, Integer::from_i64(256));
            assert_eq!(expected, Bounded::Range { start: Some(0), end: Some(255) });
        },
        _ => panic!("Expected out of range"),
    }
    assert!(e.output().is_empty());
}

#[test]
fn generic_entry_points() {
    let bytes = asn1_codec::oer::encode(&true).unwrap();
    assert_eq!(bytes, vec![0xff]);
    assert!(asn1_codec::oer::decode::<bool>(&bytes).unwrap());
    assert_eq!(asn1_codec::oer::encode(&false).unwrap(), vec![0x00]);
    let fixed = Constraints::new(vec![Constraint::Size(Extensible::new(Size::fixed(2)))]);
    let bytes = asn1_codec::oer::encode_with_constraints(&fixed, &vec![7u8, 8]).unwrap();
    assert_eq!(bytes, vec![7, 8]);
    assert_eq!(asn1_codec::oer::decode_with_constraints::<Vec<u8>>(&fixed, &bytes).unwrap(), vec![7, 8]);
    assert!(asn1_codec::oer::encode_with_constraints(&fixed, &vec![1u8]).is_err());
    let bytes = asn1_codec::oer::encode(&vec![1u8, 2, 3]).unwrap();
    assert_eq!(bytes, vec![3, 1, 2, 3]);
    assert_eq!(asn1_codec::oer::decode::<Vec<u8>>(&bytes).unwrap(), vec![1, 2, 3]);
}

#[test]
fn set_fields_in_tag_order() {
    let fields = vec![
        (Tag::new(Class::Context, 2), vec![0x22]),
        (Tag::new(Class::Universal, 1), vec![0xff]),
        (Tag::new(Class::Context, 0), vec![0x20, 0x21]),
        (Tag::new(Class::Application, 5), vec![]),
    ];
    let mut e = Encoder::new();
    e.encode_set(&fields).unwrap();
    assert_eq!(e.output(), vec![0xff, 0x20, 0x21, 0x22]);
    let dup = vec![(Tag::new(Class::Context, 1), vec![1]), (Tag::new(Class::Context, 1), vec![2])];
    let mut e = Encoder::new();
    assert_eq!(e.encode_set(&dup), Err(EncodeError::DuplicateSetTag));
    assert!(e.output().is_empty());
}

#[test]
fn width_overflow_error() {
    let mut e = Encoder::new();
    assert_eq!(
        e.encode_integer_with_padding(2, &Integer::from_i64(70000), false),
        Err(EncodeError::MoreBytesThanExpected { value: 3, expected: 2 })
    );
}
