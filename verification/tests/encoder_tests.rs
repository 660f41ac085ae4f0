use per_codec::bits::BitBuffer;
use per_codec::constraints::Constraint;
use per_codec::constraints::Constraints;
use per_codec::constraints::Extensible;
use per_codec::constraints::Range;
use per_codec::constraints::Size;
use per_codec::constraints::Value;
use per_codec::enc::Encoder;
use per_codec::enc::EncoderOptions;
use per_codec::tag::Class;
use per_codec::tag::Tag;
use per_codec::variants::Field;
use per_codec::variants::FieldPresence;
use per_codec::variants::Variants;

fn ctx(n: u32) -> Tag {
    Tag::new(Class::Context, n)
}

fn no_constraints() -> Constraints {
    Constraints::new(Vec::new())
}

fn value_range(start: i128, end: i128) -> Constraints {
    Constraints::new(vec![Constraint::Value(Extensible::new(Value::new(Range::<i128>::new(
        start, end,
    ))))])
}

fn value_from(start: i128) -> Constraints {
    Constraints::new(vec![Constraint::Value(Extensible::new(Value::new(Range::start_from(
        start,
    ))))])
}

fn value_up_to(end: i128) -> Constraints {
    Constraints::new(vec![Constraint::Value(Extensible::new(Value::new(Range::up_to(end))))])
}

fn encode_int(options: EncoderOptions, constraints: &Constraints, value: i128) -> Vec<u8> {
    let mut encoder = Encoder::new(options);
    encoder.encode_integer(Tag::new(Class::Universal, 2), constraints, value).unwrap();
    encoder.output()
}

#[test]
fn length() {
    let encoder = Encoder::new(EncoderOptions::unaligned());
    let mut buffer = BitBuffer::new();
    let units = vec![BitBuffer::new(); 4];
    let size = Extensible::new(Size::new(Range::<usize>::new(1, 64)));
    encoder.encode_length(&mut buffer, &units, Some(&size)).unwrap();
    assert_eq!(vec![0x0C], buffer.into_vec());
}

#[test]
fn sequence() {
    // A SEQUENCE of eight required BOOLEANs, all true, is one 0xFF byte.
    let parent = Encoder::new(EncoderOptions::unaligned());
    let mut fields = Vec::new();
    for i in 0..8 {
        fields.push(Field::new(ctx(i), FieldPresence::Required));
    }
    let fields = Variants::new(fields);
    let mut child = parent.new_sequence_encoder(&fields);
    for i in 0..8 {
        child.encode_bool(ctx(i), true).unwrap();
    }
    let mut parent = parent;
    parent.encode_constructed(Tag::new(Class::Universal, 16), &no_constraints(), child).unwrap();
    assert_eq!(vec![0xFF], parent.output());
}

#[test]
fn constrained_integer() {
    // An eight-bit-unsigned-range value encodes as exactly its byte.
    assert_eq!(
        vec![0xFF],
        encode_int(EncoderOptions::unaligned(), &value_range(0, 255), 0xFF)
    );
}

#[test]
fn unconstrained_integer() {
    assert_eq!(
        vec![0b00000010, 0b00010000, 0],
        encode_int(EncoderOptions::unaligned(), &no_constraints(), 4096)
    );
    let up_to_65535 = value_up_to(65535);
    assert_eq!(
        vec![0b00000001, 0b01111111],
        encode_int(EncoderOptions::unaligned(), &up_to_65535, 127)
    );
    assert_eq!(
        vec![0b00000001, 0b10000000],
        encode_int(EncoderOptions::unaligned(), &up_to_65535, -128)
    );
    assert_eq!(
        vec![0b00000010, 0b00000000, 0b10000000],
        encode_int(EncoderOptions::unaligned(), &up_to_65535, 128)
    );
}

#[test]
fn semi_constrained_integer() {
    assert_eq!(
        vec![2, 0b00010000, 1],
        encode_int(EncoderOptions::unaligned(), &value_from(-1), 4096)
    );
    assert_eq!(
        vec![1, 0b01111110],
        encode_int(EncoderOptions::unaligned(), &value_from(1), 127)
    );
    assert_eq!(
        vec![1, 0b10000000],
        encode_int(EncoderOptions::unaligned(), &value_from(0), 128)
    );
}

#[test]
fn sequence_of() {
    // Each element is the encoding of a default eight-BOOLEAN byte: 0x00.
    let make_buffer = |length: usize| -> Vec<u8> {
        let mut elements = Vec::new();
        for _ in 0..length {
            let mut b = BitBuffer::new();
            b.push_byte(0);
            elements.push(b);
        }
        let mut encoder = Encoder::new(EncoderOptions::unaligned());
        encoder
            .encode_sequence_of(Tag::new(Class::Universal, 16), &elements, &no_constraints())
            .unwrap();
        encoder.output()
    };
    assert_eq!(vec![5, 0, 0, 0, 0, 0], make_buffer(5));
    assert!(make_buffer(130).starts_with(&[0b10000000u8, 0b10000010]));
    assert!(make_buffer(16000).starts_with(&[0b10111110u8, 0b10000000]));
    let buffer = make_buffer(32768);
    assert_eq!(32768 + 2, buffer.len());
    assert!(buffer.starts_with(&[0b11000010]));
    assert!(buffer.ends_with(&[0]));
    let buffer = make_buffer(99000);
    assert_eq!(99000 + 4, buffer.len());
    assert!(buffer.starts_with(&[0b11000100]));
    assert!(buffer[1 + 65536..].starts_with(&[0b11000010]));
    assert!(buffer[65536 + 32768 + 2..].starts_with(&[0b10000010, 0b10111000]));
}

#[test]
fn range() {
    let constraints = Range::<i128>::new(0, 255);
    assert_eq!(Some(256), constraints.range());
}

#[test]
fn length_form_boundaries() {
    // Length 127: one byte 0x7F. Length 128: two bytes with top bits `10`.
    // Length 16384: one full 16K fragment (marker 0xC1) closed by a zero byte.
    let encoder = Encoder::new(EncoderOptions::unaligned());
    let expected: [(usize, Vec<u8>); 3] = [
        (127, vec![0x7F]),
        (128, vec![0x80, 0x80]),
        (16384, vec![0xC1, 0x00]),
    ];
    for (len, bytes) in expected {
        let mut buffer = BitBuffer::new();
        let units = vec![BitBuffer::new(); len];
        encoder.encode_length(&mut buffer, &units, None).unwrap();
        assert_eq!(bytes, buffer.into_vec(), "length {}", len);
    }
}

#[test]
fn invalid_length_error() {
    let mut encoder = Encoder::new(EncoderOptions::unaligned());
    let size = Constraints::new(vec![Constraint::Size(Extensible::new(Size::new(Range::<usize>::new(
        1, 2,
    ))))]);
    let result = encoder.encode_octet_string(ctx(0), &size, &[1, 2, 3, 4, 5]);
    match result {
        Err(per_codec::error::Error::InvalidLength { length, .. }) => assert_eq!(length, 5),
        other => panic!("expected an invalid-length error, got {:?}", other),
    }
}

#[test]
fn fixed_size_octet_string_has_no_length_field() {
    // With a single possible size the content stands alone.
    let mut encoder = Encoder::new(EncoderOptions::unaligned());
    let size = Constraints::new(vec![Constraint::Size(Extensible::new(Size::new(
        Range::single_value(2usize),
    )))]);
    encoder.encode_octet_string(ctx(0), &size, &[0xAB, 0xCD]).unwrap();
    assert_eq!(vec![0xAB, 0xCD], encoder.output());
}

#[test]
fn bit_string_counts_bits() {
    let mut encoder = Encoder::new(EncoderOptions::unaligned());
    let mut value = BitBuffer::new();
    value.push(true);
    value.push(false);
    value.push(true);
    value.push(false);
    encoder.encode_bit_string(ctx(0), &no_constraints(), &value).unwrap();
    assert_eq!(vec![0x04, 0xA0], encoder.output());
}

#[test]
fn utf8_string_is_length_prefixed_bytes() {
    let mut encoder = Encoder::new(EncoderOptions::unaligned());
    encoder.encode_utf8_string(ctx(0), "hi").unwrap();
    assert_eq!(vec![0x02, b'h', b'i'], encoder.output());
}

#[test]
fn normally_small_integer_form() {
    let encoder = Encoder::new(EncoderOptions::unaligned());
    let mut buffer = BitBuffer::new();
    encoder.encode_normally_small_integer(5, &mut buffer);
    // Flag bit 0, then five as a six-bit field: 0 000101 -> 0x0A.
    assert_eq!(vec![0x0A], buffer.into_vec());
}

#[test]
fn boolean_is_one_bit() {
    let mut encoder = Encoder::new(EncoderOptions::unaligned());
    encoder.encode_bool(ctx(0), true).unwrap();
    encoder.encode_bool(ctx(1), false).unwrap();
    encoder.encode_bool(ctx(2), true).unwrap();
    // 101 padded to a byte: 0xA0.
    assert_eq!(vec![0xA0], encoder.output());
}

#[test]
fn null_emits_nothing() {
    let mut encoder = Encoder::new(EncoderOptions::unaligned());
    encoder.encode_null(ctx(0)).unwrap();
    assert_eq!(vec![0x00], encoder.output());
}

#[test]
fn set_canonical_order_is_call_order_independent() {
    // Two values of the same SET type supplied in different construction
    // order produce identical encodings.
    let fields = Variants::new(vec![
        Field::new(ctx(7), FieldPresence::Required),
        Field::new(ctx(1), FieldPresence::Required),
    ]);
    let build = |first_low: bool| -> Vec<u8> {
        let parent = Encoder::new(EncoderOptions::unaligned());
        let mut child = parent.new_set_encoder(&fields);
        if first_low {
            child.encode_integer(ctx(1), &value_range(0, 255), 0x11).unwrap();
            child.encode_integer(ctx(7), &value_range(0, 255), 0x77).unwrap();
        } else {
            child.encode_integer(ctx(7), &value_range(0, 255), 0x77).unwrap();
            child.encode_integer(ctx(1), &value_range(0, 255), 0x11).unwrap();
        }
        let mut parent = parent;
        parent
            .encode_constructed(Tag::new(Class::Universal, 17), &no_constraints(), child)
            .unwrap();
        parent.output()
    };
    let one = build(true);
    let two = build(false);
    assert_eq!(one, two);
    // Tag-ascending order: the field under the smaller tag comes first.
    assert_eq!(vec![0x11, 0x77], one);
}

#[test]
fn choice_single_root_alternative_is_transparent() {
    // CHOICE with a single root alternative: no discriminant bits, only the
    // alternative's own bytes.
    let root = Variants::new(vec![Field::new(ctx(0), FieldPresence::Required)]);
    let extended = Variants::new(Vec::new());
    let mut parent = Encoder::new(EncoderOptions::unaligned());
    let mut alt = Encoder::new(EncoderOptions::unaligned().without_set_encoding());
    alt.encode_integer(ctx(0), &value_range(0, 255), 0x5A).unwrap();
    parent.encode_choice(&no_constraints(), &root, &extended, ctx(0), alt).unwrap();
    assert_eq!(vec![0x5A], parent.output());
}

#[test]
fn choice_two_root_alternatives_use_one_discriminant_bit() {
    let root = Variants::new(vec![
        Field::new(ctx(0), FieldPresence::Required),
        Field::new(ctx(1), FieldPresence::Required),
    ]);
    let extended = Variants::new(Vec::new());
    let mut parent = Encoder::new(EncoderOptions::unaligned());
    let mut alt = Encoder::new(EncoderOptions::unaligned().without_set_encoding());
    alt.encode_integer(ctx(1), &value_range(0, 255), 0xFF).unwrap();
    parent.encode_choice(&no_constraints(), &root, &extended, ctx(1), alt).unwrap();
    // Index 1 in one bit, then 0xFF: 1 11111111 -> 0xFF 0x80.
    assert_eq!(vec![0xFF, 0x80], parent.output());
}

#[test]
fn choice_unknown_variant_is_an_error() {
    let root = Variants::new(vec![Field::new(ctx(0), FieldPresence::Required)]);
    let extended = Variants::new(Vec::new());
    let mut parent = Encoder::new(EncoderOptions::unaligned());
    let alt = Encoder::new(EncoderOptions::unaligned().without_set_encoding());
    let result = parent.encode_choice(&no_constraints(), &root, &extended, ctx(9), alt);
    assert!(matches!(result, Err(per_codec::error::Error::Custom { .. })));
}

#[test]
fn log2_matches_field_widths() {
    assert_eq!(0, per_codec::log2(1));
    assert_eq!(1, per_codec::log2(2));
    assert_eq!(2, per_codec::log2(3));
    assert_eq!(6, per_codec::log2(64));
    assert_eq!(8, per_codec::log2(255));
    assert_eq!(8, per_codec::log2(256));
    assert_eq!(9, per_codec::log2(257));
}

#[test]
fn canonical_sort_orders_by_tag() {
    let mut v = Variants::new(vec![
        Field::new(ctx(5), FieldPresence::Required),
        Field::new(Tag::new(Class::Universal, 9), FieldPresence::Optional),
        Field::new(ctx(1), FieldPresence::Required),
    ]);
    v.canonical_sort();
    let tags: Vec<Tag> = v.iter().iter().map(|f| f.tag).collect();
    assert_eq!(
        vec![Tag::new(Class::Universal, 9), ctx(1), ctx(5)],
        tags
    );
}

#[test]
fn smallest_tag_of_variants() {
    let v = Variants::new(vec![
        Field::new(ctx(5), FieldPresence::Required),
        Field::new(ctx(2), FieldPresence::Required),
    ]);
    assert_eq!(ctx(2), v.smallest_tag());
}

#[test]
fn override_constraints_keeps_child_kinds() {
    let parent = Constraints::new(vec![
        Constraint::Value(Extensible::new(Value::new(Range::<i128>::new(0, 10)))),
        Constraint::Size(Extensible::new(Size::new(Range::<usize>::new(1, 5)))),
    ]);
    let child = Constraints::new(vec![Constraint::Value(Extensible::new(Value::new(
        Range::<i128>::new(0, 99),
    )))]);
    let merged = Constraints::override_constraints(parent, child);
    // The child's value bound wins; the parent's size bound is added.
    assert_eq!(2, merged.0.len());
    assert!(matches!(merged.0[0], Constraint::Value(_)));
    assert!(matches!(merged.0[1], Constraint::Size(_)));
}
