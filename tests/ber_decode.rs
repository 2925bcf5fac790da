use asn1_codec::ber::de::Decoder;
use asn1_codec::ber::sequence::{BerSequence, SequenceShape};
use asn1_codec::ber::DecoderOptions;
use asn1_codec::bits::BitString;
use asn1_codec::error::DecodeError;
use asn1_codec::integer::Integer;
use asn1_codec::time::{
    parse_any_generalized_time_string, parse_canonical_generalized_time_string, parse_date_string,
};
use asn1_codec::tag::{
    Class, Tag, TAG_BIT_STRING, TAG_BOOL, TAG_INTEGER, TAG_OBJECT_IDENTIFIER, TAG_OCTET_STRING,
    TAG_SEQUENCE, TAG_UTF8_STRING, TAG_VISIBLE_STRING,
};

fn ber(input: &[u8]) -> Decoder {
    Decoder::new(input, DecoderOptions::ber())
}

fn decode_bool(input: &[u8]) -> bool {
    let mut d = ber(input);
    let v = d.decode_bool(Tag::universal(TAG_BOOL)).unwrap();
    assert_eq!(d.decoded_len(), input.len());
    v
}

fn decode_sized(input: &[u8], width: usize) -> i128 {
    let mut d = ber(input);
    let v = d.decode_sized_integer(Tag::universal(TAG_INTEGER), width).unwrap();
    assert_eq!(d.decoded_len(), input.len());
    v
}

fn decode_utf8(input: &[u8]) -> String {
    let mut d = ber(input);
    let v = d.decode_utf8_string(Tag::universal(TAG_UTF8_STRING)).unwrap();
    assert_eq!(d.decoded_len(), input.len());
    v
}

#[test]
fn boolean() {
    assert!(decode_bool(&[0x01, 0x01, 0xff]));
    assert!(!decode_bool(&[0x01, 0x01, 0x00]));
}

#[test]
fn boolean_strict_rules() {
    let mut d = Decoder::new(&[0x01, 0x01, 0x33], DecoderOptions::der());
    assert!(d.decode_bool(Tag::universal(TAG_BOOL)).is_err());
    assert!(decode_bool(&[0x01, 0x01, 0x33]));
}

#[test]
fn tagged_boolean() {
    let input = [0xa2, 0x03, 0x01, 0x01, 0xff];
    let mut d = ber(&input);
    let (mut inner, streaming) = d
        .parse_constructed_contents(Tag::new(Class::Context, 2), false)
        .unwrap();
    assert!(inner.decode_bool(Tag::universal(TAG_BOOL)).unwrap());
    d.finish_constructed_contents(&inner, streaming).unwrap();
    assert_eq!(d.decoded_len(), input.len());
}

#[test]
fn integer() {
    assert_eq!(32768, decode_sized(&[0x02, 0x03, 0x00, 0x80, 0x00], 4));
    assert_eq!(32767, decode_sized(&[0x02, 0x02, 0x7f, 0xff], 4));
    assert_eq!(256, decode_sized(&[0x02, 0x02, 0x01, 0x00], 2));
    assert_eq!(255, decode_sized(&[0x02, 0x02, 0x00, 0xff], 2));
    assert_eq!(128, decode_sized(&[0x02, 0x02, 0x00, 0x80], 2));
    assert_eq!(127, decode_sized(&[0x02, 0x01, 0x7f], 1));
    assert_eq!(1, decode_sized(&[0x02, 0x01, 0x01], 1));
    assert_eq!(0, decode_sized(&[0x02, 0x01, 0x00], 1));
    assert_eq!(-1, decode_sized(&[0x02, 0x01, 0xff], 1));
    assert_eq!(-128, decode_sized(&[0x02, 0x01, 0x80], 2));
    assert_eq!(-129, decode_sized(&[0x02, 0x02, 0xff, 0x7f], 2));
    assert_eq!(-256, decode_sized(&[0x02, 0x02, 0xff, 0x00], 2));
    assert_eq!(-32768, decode_sized(&[0x02, 0x02, 0x80, 0x00], 4));
    assert_eq!(-32769, decode_sized(&[0x02, 0x03, 0xff, 0x7f, 0xff], 4));

    let mut data = [0u8; 261];
    data[0] = 0x02;
    data[1] = 0x82;
    data[2] = 0x01;
    data[3] = 0x01;
    data[4] = 0x01;
    let mut bigint = num_bigint::BigInt::from(1);
    bigint <<= 2048;
    let expected = Integer::from_signed_bytes(&bigint.to_signed_bytes_be());
    let mut d = ber(&data);
    assert_eq!(expected, d.decode_integer(Tag::universal(TAG_INTEGER)).unwrap());
    assert_eq!(d.decoded_len(), data.len());
}

#[test]
fn integer_too_wide_for_word() {
    let mut d = ber(&[0x02, 0x02, 0x00, 0x80]);
    assert!(d.decode_sized_integer(Tag::universal(TAG_INTEGER), 1).is_err());
    let mut d = ber(&[0x02, 0x00]);
    assert!(d.decode_sized_integer(Tag::universal(TAG_INTEGER), 8).is_err());
}

#[test]
fn octet_string() {
    let octet_string = vec![1u8, 2, 3, 4, 5, 6];
    let primitive_encoded = &[0x4, 0x6, 1, 2, 3, 4, 5, 6];
    let constructed_encoded = &[0x24, 0x80, 0x4, 0x4, 1, 2, 3, 4, 0x4, 0x2, 5, 6, 0x0, 0x0];

    let mut d = ber(primitive_encoded);
    assert_eq!(octet_string, d.decode_octet_string(Tag::universal(TAG_OCTET_STRING)).unwrap());
    assert_eq!(d.decoded_len(), primitive_encoded.len());
    let mut d = ber(constructed_encoded);
    assert_eq!(octet_string, d.decode_octet_string(Tag::universal(TAG_OCTET_STRING)).unwrap());
    assert_eq!(d.decoded_len(), constructed_encoded.len());
}

#[test]
fn octet_string_pieces_refused_under_der() {
    let constructed_encoded = &[0x24, 0x80, 0x4, 0x4, 1, 2, 3, 4, 0x4, 0x2, 5, 6, 0x0, 0x0];
    let mut d = Decoder::new(constructed_encoded, DecoderOptions::der());
    assert!(d.decode_octet_string(Tag::universal(TAG_OCTET_STRING)).is_err());
}

#[test]
fn bit_string() {
    let mut bitstring = BitString::from_vec(vec![0x0A, 0x3B, 0x5F, 0x29, 0x1C, 0xD0]);
    let n = bitstring.len();
    bitstring.truncate(n - 4);

    let mut d = ber(&[0x03, 0x07, 0x04, 0x0A, 0x3B, 0x5F, 0x29, 0x1C, 0xD0]);
    let primitive_encoded = d.decode_bit_string(Tag::universal(TAG_BIT_STRING)).unwrap();

    let constructed = [
        0x23, 0x80, // TAG + LENGTH
        0x03, 0x03, 0x00, 0x0A, 0x3B, // Part 1
        0x03, 0x05, 0x04, 0x5F, 0x29, 0x1C, 0xD0, // Part 2
        0x00, 0x00, // EOC
    ];
    let mut d = ber(&constructed);
    let constructed_encoded = d.decode_bit_string(Tag::universal(TAG_BIT_STRING)).unwrap();
    assert_eq!(d.decoded_len(), constructed.len());

    assert_eq!(bitstring, primitive_encoded);
    assert_eq!(bitstring, constructed_encoded);

    let mut d = ber(&[0x03, 0x01, 0x00]);
    let empty = d.decode_bit_string(Tag::universal(TAG_BIT_STRING)).unwrap();
    assert_eq!(BitString::from_vec(vec![]), empty);

    let mut d = ber(&[0x03, 0x00]);
    assert!(d.decode_bit_string(Tag::universal(TAG_BIT_STRING)).is_err());
}

#[test]
fn bit_string_invalid_unused_count() {
    let mut d = ber(&[0x03, 0x02, 0x08, 0xff]);
    assert!(d.decode_bit_string(Tag::universal(TAG_BIT_STRING)).is_err());
}

#[test]
fn utf8_string() {
    let name = String::from("Jones");
    let primitive = &[0x0C, 0x05, 0x4A, 0x6F, 0x6E, 0x65, 0x73];
    let definite_constructed = &[
        0x2C, 0x09, // TAG + LENGTH
        0x04, 0x03, // PART 1 TLV
        0x4A, 0x6F, 0x6E, 0x04, 0x02, // PART 2 TLV
        0x65, 0x73,
    ];
    let indefinite_constructed = &[
        0x2C, 0x80, // TAG + LENGTH
        0x04, 0x03, // PART 1 TLV
        0x4A, 0x6F, 0x6E, 0x04, 0x02, // PART 2 TLV
        0x65, 0x73, 0x00, 0x00,
    ];

    assert_eq!(name, decode_utf8(primitive));
    assert_eq!(name, decode_utf8(definite_constructed));
    assert_eq!(name, decode_utf8(indefinite_constructed));
}

#[test]
fn utf8_string_invalid() {
    let mut d = ber(&[0x0C, 0x02, 0xC3, 0x28]);
    assert!(d.decode_utf8_string(Tag::universal(TAG_UTF8_STRING)).is_err());
}

#[test]
fn sequence_of() {
    let input = [0x30, 0x9, 0x0C, 0x03, 0x4A, 0x6F, 0x6E, 0x0C, 0x02, 0x65, 0x73];
    let mut d = ber(&input);
    let (mut inner, streaming) = d
        .parse_constructed_contents(Tag::universal(TAG_SEQUENCE), true)
        .unwrap();
    let mut items = Vec::new();
    while inner.remaining_len() > 0 {
        items.push(inner.decode_utf8_string(Tag::universal(TAG_UTF8_STRING)).unwrap());
    }
    d.finish_constructed_contents(&inner, streaming).unwrap();
    assert_eq!(vec!["Jon", "es"], items);
    assert_eq!(d.decoded_len(), input.len());
}

#[test]
fn sequence() {
    let bytes = [
        0x30, 0x0A, // TAG + LENGTH
        0x16, 0x05, 0x53, 0x6d, 0x69, 0x74, 0x68, // Ia5String "Smith"
        0x01, 0x01, 0xff, // BOOL True
    ];
    let mut d = ber(&bytes);
    let (mut inner, streaming) = d
        .parse_constructed_contents(Tag::universal(TAG_SEQUENCE), true)
        .unwrap();
    let name = inner.decode_ia5_string(Tag::universal(22)).unwrap();
    let ok = inner.decode_bool(Tag::universal(TAG_BOOL)).unwrap();
    d.finish_constructed_contents(&inner, streaming).unwrap();
    assert_eq!(b"Smith".to_vec(), name);
    assert!(ok);
}

#[test]
fn sequence_with_extra_data_is_refused() {
    let bytes = [0x30, 0x04, 0x01, 0x01, 0xff, 0x00];
    let mut d = ber(&bytes);
    let (mut inner, streaming) = d
        .parse_constructed_contents(Tag::universal(TAG_SEQUENCE), true)
        .unwrap();
    assert!(inner.decode_bool(Tag::universal(TAG_BOOL)).unwrap());
    assert!(d.finish_constructed_contents(&inner, streaming).is_err());
}

#[test]
fn tagging() {
    let jones = b"Jones".to_vec();
    let mut d = ber(&[0x1A, 0x05, 0x4A, 0x6F, 0x6E, 0x65, 0x73]);
    assert_eq!(jones, d.decode_visible_string(Tag::universal(TAG_VISIBLE_STRING)).unwrap());

    let mut d = ber(&[0x43, 0x05, 0x4A, 0x6F, 0x6E, 0x65, 0x73]);
    assert_eq!(jones, d.decode_visible_string(Tag::new(Class::Application, 3)).unwrap());

    let input = [0xa2, 0x07, 0x43, 0x5, 0x4A, 0x6F, 0x6E, 0x65, 0x73];
    let mut d = ber(&input);
    let (mut inner, streaming) = d
        .parse_constructed_contents(Tag::new(Class::Context, 2), false)
        .unwrap();
    assert_eq!(jones, inner.decode_visible_string(Tag::new(Class::Application, 3)).unwrap());
    d.finish_constructed_contents(&inner, streaming).unwrap();

    let input = [0x67, 0x07, 0x43, 0x5, 0x4A, 0x6F, 0x6E, 0x65, 0x73];
    let mut d = ber(&input);
    let (mut inner, streaming) = d
        .parse_constructed_contents(Tag::new(Class::Application, 7), false)
        .unwrap();
    assert_eq!(jones, inner.decode_visible_string(Tag::new(Class::Application, 3)).unwrap());
    d.finish_constructed_contents(&inner, streaming).unwrap();

    let mut d = ber(&[0x82, 0x05, 0x4A, 0x6F, 0x6E, 0x65, 0x73]);
    assert_eq!(jones, d.decode_visible_string(Tag::new(Class::Context, 2)).unwrap());
}

#[test]
fn mismatched_tag_is_refused() {
    let mut d = ber(&[0x02, 0x01, 0x01]);
    assert!(d.decode_bool(Tag::universal(TAG_BOOL)).is_err());
}

#[test]
fn high_tag_number_identifier() {
    let (id, n) = asn1_codec::ber::de::parse_identifier_octet(&[0x9F, 0x81, 0x00]).unwrap();
    assert_eq!(id.tag, Tag::new(Class::Context, 128));
    assert!(!id.is_constructed);
    assert_eq!(n, 3);
}

#[test]
fn flip1() {
    let mut d = ber(&[
        0x10, 0x10, 0x23, 0x00, 0xfe, 0x7f, 0x10, 0x03, 0x00, 0xff, 0xe4, 0x04, 0x50, 0x10, 0x50,
        0x10, 0x10, 0x10,
    ]);
    let _ = d.decode_any();
}

#[test]
fn any() {
    let expected = [0x1A, 0x05, 0x4A, 0x6F, 0x6E, 0x65, 0x73];
    let mut d = ber(&expected);
    assert_eq!(expected.to_vec(), d.decode_any().unwrap());
    assert_eq!(d.decoded_len(), expected.len());
}

#[test]
fn any_indefinite() {
    let any = [
        0x30, 0x80, 0x2C, 0x80, 0x04, 0x03, 0x4A, 0x6F, 0x6E, 0x04, 0x02, 0x65, 0x73, 0x00, 0x00,
        0x00, 0x00,
    ];
    let mut d = ber(&any);
    assert_eq!(any.to_vec(), d.decode_any().unwrap());
    assert_eq!(d.decoded_len(), any.len());
}

#[test]
fn any_indefinite_fail_no_eoc() {
    let any = [
        0x30, 0x80, 0x2C, 0x80, 0x04, 0x03, 0x4A, 0x6F, 0x6E, 0x04, 0x02, 0x65, 0x73, 0x00, 0x00,
    ];
    let mut d = ber(&any);
    assert!(d.decode_any().is_err());
}

#[test]
fn decoding_oid() {
    let mut decoder = Decoder::new(&[0x06, 0x03, 0x88, 0x37, 0x01], DecoderOptions::der());
    let oid = decoder.decode_object_identifier(Tag::universal(TAG_OBJECT_IDENTIFIER));
    assert!(oid.is_ok());
    let oid = oid.unwrap();
    assert_eq!(vec![2u32, 999, 1], oid);
}

#[test]
fn oid_arcs_from_contents() {
    let arcs = asn1_codec::ber::de::decode_object_identifier_from_bytes(&[0x2A, 0x82, 0x8E, 0x07, 0x58])
        .unwrap();
    assert_eq!(vec![1u32, 2, 34567, 88], arcs);
    assert!(asn1_codec::ber::de::decode_object_identifier_from_bytes(&[0x2A, 0x82]).is_err());
}

#[test]
fn null_value() {
    let mut d = ber(&[0x05, 0x00]);
    assert!(d.decode_null(Tag::universal(5)).is_ok());
    let mut d = ber(&[0x05, 0x01, 0x00]);
    assert!(d.decode_null(Tag::universal(5)).is_err());
}

#[test]
fn long_form_length() {
    let mut data = vec![0x04, 0x81, 0x80];
    data.extend(std::iter::repeat(7u8).take(128));
    let mut d = ber(&data);
    let v = d.decode_octet_string(Tag::universal(TAG_OCTET_STRING)).unwrap();
    assert_eq!(v.len(), 128);
    assert_eq!(d.decoded_len(), data.len());
}

#[test]
fn utc_time() {
    let time = chrono::DateTime::parse_from_str("991231235959+0000", "%y%m%d%H%M%S%z").unwrap();
    // 991231235959Z
    let has_z = [
        0x17, 0x0D, 0x39, 0x39, 0x31, 0x32, 0x33, 0x31, 0x32, 0x33, 0x35, 0x39, 0x35, 0x39, 0x5A,
    ];
    // 991231235959+0000
    let has_noz = [
        0x17, 0x11, 0x39, 0x39, 0x31, 0x32, 0x33, 0x31, 0x32, 0x33, 0x35, 0x39, 0x35, 0x39, 0x2B,
        0x30, 0x30, 0x30, 0x30,
    ];
    let tag = Tag::universal(asn1_codec::tag::TAG_UTC_TIME);
    let decoded = ber(&has_z).decode_utc_time(tag).unwrap();
    assert_eq!(time.timestamp(), decoded.timestamp);

    let decoded = Decoder::new(&has_z, DecoderOptions::der()).decode_utc_time(tag).unwrap();
    assert_eq!(time.timestamp(), decoded.timestamp);

    let decoded = ber(&has_noz).decode_utc_time(tag).unwrap();
    assert_eq!(time.timestamp(), decoded.timestamp);
    assert!(Decoder::new(&has_noz, DecoderOptions::der()).decode_utc_time(tag).is_err());
}

#[test]
fn generalized_time() {
    let time =
        chrono::DateTime::parse_from_str("20001231205959.999+0000", "%Y%m%d%H%M%S%.3f%z").unwrap();
    let has_z = [
        0x18, 0x13, 0x32, 0x30, 0x30, 0x30, 0x31, 0x32, 0x33, 0x31, 0x32, 0x30, 0x35, 0x39, 0x35,
        0x39, 0x2E, 0x39, 0x39, 0x39, 0x5A,
    ];
    let tag = Tag::universal(asn1_codec::tag::TAG_GENERALIZED_TIME);
    let decoded = ber(&has_z).decode_generalized_time(tag).unwrap();
    assert_eq!(time.timestamp(), decoded.timestamp);
    assert_eq!(time.timestamp_subsec_nanos(), decoded.nanos);
    assert_eq!(decoded.offset_seconds, 0);
}

#[test]
fn time_string_formats() {
    let a = parse_any_generalized_time_string("20001231205959,5+0130").unwrap();
    assert_eq!(a.offset_seconds, 5400);
    assert_eq!(a.nanos, 500_000_000);
    let b = parse_any_generalized_time_string("200012312059").unwrap();
    assert_eq!(b.timestamp, 978296340);
    assert!(parse_any_generalized_time_string("2000").is_err());
    assert!(parse_canonical_generalized_time_string("20001231205959,5Z").is_err());
    assert!(parse_canonical_generalized_time_string("20001231205959+0000").is_err());
    assert!(parse_canonical_generalized_time_string("20001231205959Z").is_ok());
    let d = parse_date_string("19710917").unwrap();
    assert_eq!((d.year, d.month, d.day), (1971, 9, 17));
    assert!(parse_date_string("19711317").is_err());
}

#[test]
fn optional_field_absent_on_failure() {
    let input = [0x01, 0x01, 0xff];
    let mut d = ber(&input);
    assert_eq!(d.decode_optional_octet_string(Tag::universal(TAG_OCTET_STRING)), None);
    assert_eq!(d.decoded_len(), 0);
    assert!(d.decode_bool(Tag::universal(TAG_BOOL)).unwrap());
    let mut d = ber(&[0x04, 0x01, 0x07]);
    assert_eq!(d.decode_optional_octet_string(Tag::universal(TAG_OCTET_STRING)), Some(vec![7]));
}

#[test]
fn checkpoint_and_rewind() {
    let input = [0x01, 0x01, 0xff, 0x01, 0x01, 0x00];
    let mut d = ber(&input);
    let mark = d.checkpoint();
    assert!(d.decode_bool(Tag::universal(TAG_BOOL)).unwrap());
    d.rewind(mark);
    assert_eq!(d.remaining(), input.to_vec());
    let id = d.peek_identifier().unwrap();
    assert_eq!(id.tag, Tag::universal(TAG_BOOL));
}

#[test]
fn restricted_alphabets() {
    let mut d = ber(&[0x12, 0x03, 0x31, 0x20, 0x39]);
    assert_eq!(d.decode_numeric_string(Tag::universal(18)).unwrap(), b"1 9".to_vec());
    let mut d = ber(&[0x12, 0x01, 0x41]);
    assert!(d.decode_numeric_string(Tag::universal(18)).is_err());
    let mut d = ber(&[0x13, 0x02, 0x41, 0x2A]);
    assert!(d.decode_printable_string(Tag::universal(19)).is_err());
    let mut d = ber(&[0x1A, 0x01, 0x0A]);
    assert!(d.decode_visible_string(Tag::universal(TAG_VISIBLE_STRING)).is_err());
    let mut d = ber(&[0x1E, 0x03, 0x00, 0x41, 0x00]);
    assert!(d.decode_bmp_string(Tag::universal(30)).is_err());
    let mut d = ber(&[0x16, 0x02, 0x7F, 0x00]);
    assert_eq!(d.decode_ia5_string(Tag::universal(22)).unwrap(), vec![0x7F, 0x00]);
}

#[test]
fn integer_into_native_types() {
    let mut d = ber(&[0x02, 0x03, 0x00, 0x80, 0x00]);
    assert_eq!(d.decode_integer_as::<i32>(Tag::universal(TAG_INTEGER)).unwrap(), 32768);
    let mut d = ber(&[0x02, 0x02, 0x00, 0xff]);
    assert_eq!(d.decode_integer_as::<u32>(Tag::universal(TAG_INTEGER)).unwrap(), 255);
    let mut d = ber(&[0x02, 0x01, 0xff]);
    assert!(d.decode_integer_as::<u64>(Tag::universal(TAG_INTEGER)).is_err());
    let mut d = ber(&[0x02, 0x09, 0x00, 0x80, 0, 0, 0, 0, 0, 0, 0]);
    assert!(d.decode_integer_as::<i64>(Tag::universal(TAG_INTEGER)).is_err());
    let mut d = ber(&[0x02, 0x09, 0x00, 0x80, 0, 0, 0, 0, 0, 0, 0]);
    let v = d.decode_integer_as::<Integer>(Tag::universal(TAG_INTEGER)).unwrap();
    assert_eq!(v.to_u64(), Some(1u64 << 63));
}

#[test]
fn strict_rules_errors() {
    let mut d = Decoder::new(&[0x01, 0x01, 0x33], DecoderOptions::cer());
    assert_eq!(d.decode_bool(Tag::universal(TAG_BOOL)), Err(DecodeError::InvalidBool { value: 0x33 }));
    let constructed = [0x24, 0x80, 0x4, 0x4, 1, 2, 3, 4, 0x0, 0x0];
    let mut d = Decoder::new(&constructed, DecoderOptions::der());
    assert_eq!(
        d.decode_octet_string(Tag::universal(TAG_OCTET_STRING)),
        Err(DecodeError::ConstructedEncodingNotAllowed)
    );
    let mut d = ber(&[0x04, 0x01, 0x07]);
    assert!(d.parse_constructed_contents(Tag::universal(TAG_OCTET_STRING), true).is_err());
    assert_eq!(d.decoded_len(), 0);
}

#[test]
fn indefinite_close() {
    let input = [0x30, 0x80, 0x01, 0x01, 0xff, 0x00, 0x00, 0x05, 0x00];
    let mut d = ber(&input);
    let (mut inner, streaming) = d.parse_constructed_contents(Tag::universal(TAG_SEQUENCE), true).unwrap();
    assert!(streaming);
    assert!(inner.decode_bool(Tag::universal(TAG_BOOL)).unwrap());
    d.finish_constructed_contents(&inner, streaming).unwrap();
    assert_eq!(d.decoded_len(), 7);
    assert!(d.decode_null(Tag::universal(5)).is_ok());
}

const FOO: SequenceShape = SequenceShape { no_fields: false, all_optional: false };
const OPTIONALS: SequenceShape = SequenceShape { no_fields: false, all_optional: true };

#[derive(Debug, PartialEq)]
struct Foo {
    name: Vec<u8>,
    ok: bool,
}

impl BerSequence for Foo {
    fn decode_fields(dec: &mut Decoder) -> Result<Self, DecodeError> {
        let name = dec.decode_ia5_string(Tag::universal(22))?;
        let ok = dec.decode_bool(Tag::universal(TAG_BOOL))?;
        Ok(Foo { name, ok })
    }
}

#[derive(Debug, PartialEq)]
struct Optionals {
    flag: Option<bool>,
}

impl BerSequence for Optionals {
    fn decode_fields(dec: &mut Decoder) -> Result<Self, DecodeError> {
        Ok(Optionals { flag: dec.decode_bool(Tag::universal(TAG_BOOL)).ok() })
    }
}

#[test]
fn sequence_through_fields() {
    let bytes = [
        0x30, 0x0A, 0x16, 0x05, 0x53, 0x6d, 0x69, 0x74, 0x68, 0x01, 0x01, 0xff,
    ];
    let mut d = ber(&bytes);
    let foo: Foo = d.decode_sequence(Tag::universal(TAG_SEQUENCE), FOO, None).unwrap();
    assert_eq!(foo, Foo { name: b"Smith".to_vec(), ok: true });
    assert_eq!(d.decoded_len(), bytes.len());
    let mut d = ber(&[0x30, 0x00]);
    let v: Optionals =
        d.decode_sequence(Tag::universal(TAG_SEQUENCE), OPTIONALS, Some(Optionals { flag: None })).unwrap();
    assert_eq!(v, Optionals { flag: None });
    let mut d = ber(&[0x30, 0x00]);
    assert_eq!(
        d.decode_sequence::<Foo>(Tag::universal(TAG_SEQUENCE), FOO, None),
        Err(DecodeError::Incomplete { needed: 1 })
    );
    let mut d = ber(&[0x30, 0x00]);
    let empty = SequenceShape { no_fields: true, all_optional: true };
    assert_eq!(
        d.decode_sequence::<Foo>(Tag::universal(TAG_SEQUENCE), empty, None),
        Err(DecodeError::UnexpectedEmptyInput)
    );
    let mut d = ber(&[0x30, 0x03, 0x01, 0x01, 0x00]);
    let v: Optionals =
        d.decode_sequence(Tag::universal(TAG_SEQUENCE), OPTIONALS, Some(Optionals { flag: None })).unwrap();
    assert_eq!(v, Optionals { flag: Some(false) });
}

#[test]
fn sequence_of_items() {
    let input = [0x30, 0x9, 0x0C, 0x03, 0x4A, 0x6F, 0x6E, 0x0C, 0x02, 0x65, 0x73];
    let mut d = ber(&input);
    let items: Vec<String> = d.decode_sequence_of(Tag::universal(TAG_SEQUENCE)).unwrap();
    assert_eq!(vec!["Jon", "es"], items);
    assert_eq!(d.decoded_len(), input.len());
    let indefinite = [0x30, 0x80, 0x01, 0x01, 0xff, 0x01, 0x01, 0x00, 0x00, 0x00];
    let mut d = ber(&indefinite);
    let items: Vec<bool> = d.decode_sequence_of(Tag::universal(TAG_SEQUENCE)).unwrap();
    assert_eq!(items, vec![true, false]);
    assert_eq!(d.decoded_len(), indefinite.len());
    let mut d = ber(&[0x30, 0x04, 0x01, 0x01, 0xff, 0x05]);
    assert!(d.decode_sequence_of::<bool>(Tag::universal(TAG_SEQUENCE)).is_err());
}

#[test]
fn extra_data_error() {
    let bytes = [0x30, 0x04, 0x01, 0x01, 0xff, 0x00];
    let mut d = ber(&bytes);
    let (mut inner, streaming) = d.parse_constructed_contents(Tag::universal(TAG_SEQUENCE), true).unwrap();
    assert!(inner.decode_bool(Tag::universal(TAG_BOOL)).unwrap());
    assert_eq!(
        d.finish_constructed_contents(&inner, streaming),
        Err(DecodeError::UnexpectedExtraData { length: 1 })
    );
}
