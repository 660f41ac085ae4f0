use per_codec::bits::BitBuffer;
use per_codec::constraints::Constraint;
use per_codec::constraints::Constraints;
use per_codec::constraints::Extensible;
use per_codec::constraints::Range;
use per_codec::constraints::Value;
use per_codec::de::Decoder;
use per_codec::enc::Encoder;
use per_codec::enc::EncoderOptions;
use per_codec::enc::Input;
use per_codec::error::Error;
use per_codec::strings::BmpString;
use per_codec::strings::Ia5String;
use per_codec::strings::TeletexString;
use per_codec::tag::Class;
use per_codec::tag::Tag;
use per_codec::variants::Field;
use per_codec::variants::FieldPresence;
use per_codec::variants::Variants;

fn ctx(n: u32) -> Tag {
    Tag::new(Class::Context, n)
}

fn no_constraints() -> Constraints {
    Constraints::new(Vec::new())
}

#[test]
fn enumerated_uses_the_unconstrained_byte_form() {
    let mut encoder = Encoder::new(EncoderOptions::unaligned());
    encoder.encode_enumerated(Tag::new(Class::Universal, 10), 3, 1).unwrap();
    assert_eq!(vec![0x01, 0x01], encoder.output());
}

#[test]
fn object_identifier_wraps_delegate_octets() {
    let mut encoder = Encoder::new(EncoderOptions::unaligned());
    encoder
        .encode_object_identifier(Tag::new(Class::Universal, 6), &[0x06, 0x03, 0x2A, 0x03, 0x04])
        .unwrap();
    assert_eq!(vec![0x05, 0x06, 0x03, 0x2A, 0x03, 0x04], encoder.output());
}

#[test]
fn time_values_wrap_delegate_octets() {
    let mut utc = Encoder::new(EncoderOptions::unaligned());
    utc.encode_utc_time(Tag::new(Class::Universal, 23), &[0x31, 0x32]).unwrap();
    assert_eq!(vec![0x02, 0x31, 0x32], utc.output());
    let mut gen = Encoder::new(EncoderOptions::unaligned());
    gen.encode_generalized_time(Tag::new(Class::Universal, 24), &[0x39]).unwrap();
    assert_eq!(vec![0x01, 0x39], gen.output());
}

#[test]
fn any_value_is_an_unconstrained_octet_string() {
    let mut encoder = Encoder::new(EncoderOptions::unaligned());
    encoder.encode_any(ctx(0), &vec![0xCA, 0xFE]).unwrap();
    assert_eq!(vec![0x02, 0xCA, 0xFE], encoder.output());
}

#[test]
fn teletex_string_is_raw_octets() {
    let mut encoder = Encoder::new(EncoderOptions::unaligned());
    let value = TeletexString::new(vec![0x41, 0x42]);
    encoder
        .encode_teletex_string(Tag::new(Class::Universal, 20), &no_constraints(), &value)
        .unwrap();
    assert_eq!(vec![0x02, 0x41, 0x42], encoder.output());
}

#[test]
fn bmp_string_packs_sixteen_bit_units() {
    let mut encoder = Encoder::new(EncoderOptions::unaligned());
    let value = BmpString::from_code_units(&[0x0041]);
    encoder
        .encode_bmp_string(Tag::new(Class::Universal, 30), &no_constraints(), &value)
        .unwrap();
    assert_eq!(vec![0x01, 0x00, 0x41], encoder.output());
}

#[test]
fn ia5_string_rejects_non_ascii() {
    assert!(Ia5String::from_bytes(&[0x41, 0xFF]).is_err());
    assert!(Ia5String::from_bytes(b"ok").is_ok());
}

#[test]
fn choice_extension_alternative_is_open_type_wrapped() {
    let root = Variants::new(vec![Field::new(ctx(0), FieldPresence::Required)]);
    let extended = Variants::new(vec![Field::new(ctx(5), FieldPresence::Required)]);
    let marker = Constraints::new(vec![Constraint::Extensible]);
    let mut parent = Encoder::new(EncoderOptions::unaligned());
    let mut alt = Encoder::new(EncoderOptions::unaligned());
    alt.encode_integer(
        ctx(5),
        &Constraints::new(vec![Constraint::Value(Extensible::new(Value::new(
            Range::<i128>::new(0, 255),
        )))]),
        0x7F,
    )
    .unwrap();
    parent.encode_choice(&marker, &root, &extended, ctx(5), alt).unwrap();
    // Extension bit 1, index 0 as a normally small integer (0 000000), then
    // the alternative's byte behind a one-byte length.
    assert_eq!(vec![0x80, 0x01, 0x7F], parent.output());
}

#[test]
fn check_length_reports_the_offending_length() {
    let bound = Range::<usize>::new(1, 2);
    assert!(Error::check_length(2, &bound).is_ok());
    match Error::check_length(5, &bound) {
        Err(Error::InvalidLength { length, expected }) => {
            assert_eq!(5, length);
            assert_eq!(Some(1), expected.start);
            assert_eq!(Some(2), expected.end);
        },
        other => panic!("expected an invalid-length error, got {:?}", other),
    }
}

#[test]
fn decoding_truncated_input_is_an_error() {
    let mut short = BitBuffer::new();
    short.push(true);
    let mut decoder = Decoder::new(false, short);
    assert!(decoder.decode_integer(&no_constraints()).is_err());
}

#[test]
fn extend_records_under_the_tag_in_set_mode() {
    let mut options = EncoderOptions::unaligned();
    options.set_encoding = true;
    let mut encoder = Encoder::new(options);
    let mut high = BitBuffer::new();
    high.push_byte(0xBB);
    let mut low = BitBuffer::new();
    low.push_byte(0xAA);
    encoder.extend(ctx(9), Input::Bits(&high));
    encoder.extend(ctx(3), Input::Bits(&low));
    // Canonical order by tag, not call order.
    assert_eq!(vec![0xAA, 0xBB], encoder.output());
}

#[test]
fn set_bit_flags_optional_fields() {
    let fields = Variants::new(vec![
        Field::new(ctx(0), FieldPresence::Optional),
        Field::new(ctx(1), FieldPresence::Default),
    ]);
    let parent = Encoder::new(EncoderOptions::unaligned());
    let mut child = parent.new_sequence_encoder(&fields);
    child.set_bit(ctx(1), true).unwrap();
    child.encode_integer(
        ctx(1),
        &Constraints::new(vec![Constraint::Value(Extensible::new(Value::new(
            Range::<i128>::new(0, 255),
        )))]),
        0x42,
    )
    .unwrap();
    let mut parent = parent;
    parent
        .encode_constructed(Tag::new(Class::Universal, 16), &no_constraints(), child)
        .unwrap();
    // Presence bits 0 1, then the present field's byte.
    assert_eq!(vec![0x50, 0x80], parent.output());
}
