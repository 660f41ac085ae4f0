use per_codec::bits::BitBuffer;
use per_codec::constraints::Constraint;
use per_codec::constraints::Constraints;
use per_codec::constraints::Extensible;
use per_codec::constraints::PermittedAlphabet;
use per_codec::constraints::Range;
use per_codec::constraints::Size;
use per_codec::constraints::Value;
use per_codec::de::Decoder;
use per_codec::enc::Encoder;
use per_codec::enc::EncoderOptions;
use per_codec::strings::NumericString;
use per_codec::variants::Field;
use per_codec::variants::FieldPresence;
use per_codec::variants::Variants;
use per_codec::strings::PrintableString;
use per_codec::strings::VisibleString;
use per_codec::tag::Class;
use per_codec::tag::Tag;

fn no_constraints() -> Constraints {
    Constraints::new(Vec::new())
}

fn value_range(start: i128, end: i128) -> Constraints {
    Constraints::new(vec![Constraint::Value(Extensible::new(Value::new(Range::<i128>::new(
        start, end,
    ))))])
}

fn extensible_value_range(start: i128, end: i128) -> Constraints {
    Constraints::new(vec![Constraint::Value(Extensible::new_extensible(
        Value::new(Range::<i128>::new(start, end)),
        Vec::new(),
    ))])
}

fn int_roundtrip(aligned: bool, constraints: &Constraints, value: i128) -> i128 {
    let encoder = Encoder::new(if aligned {
        EncoderOptions::aligned()
    } else {
        EncoderOptions::unaligned()
    });
    let mut buffer = BitBuffer::new();
    encoder.encode_integer_into_buffer(constraints, value, &mut buffer).unwrap();
    let mut decoder = Decoder::new(aligned, buffer);
    decoder.decode_integer(constraints).unwrap()
}

#[test]
fn integer_roundtrip_unconstrained() {
    for &v in &[0i128, 1, -1, 127, 128, -128, -129, 4096, i128::MAX, i128::MIN] {
        assert_eq!(v, int_roundtrip(false, &no_constraints(), v));
        assert_eq!(v, int_roundtrip(true, &no_constraints(), v));
    }
}

#[test]
fn integer_roundtrip_semi_constrained() {
    let c = Constraints::new(vec![Constraint::Value(Extensible::new(Value::new(
        Range::start_from(-1),
    )))]);
    for &v in &[-1i128, 0, 63, 64, 4096, 1 << 40] {
        assert_eq!(v, int_roundtrip(false, &c, v));
        assert_eq!(v, int_roundtrip(true, &c, v));
    }
}

#[test]
fn integer_roundtrip_constrained_small_range() {
    let c = value_range(0, 255);
    for &v in &[0i128, 1, 127, 255] {
        assert_eq!(v, int_roundtrip(false, &c, v));
        assert_eq!(v, int_roundtrip(true, &c, v));
    }
    let c = value_range(-5, 5);
    for &v in &[-5i128, 0, 5] {
        assert_eq!(v, int_roundtrip(false, &c, v));
    }
}

#[test]
fn integer_roundtrip_constrained_large_range() {
    let c = value_range(0, 1 << 40);
    for &v in &[0i128, 65536, 1 << 40] {
        assert_eq!(v, int_roundtrip(false, &c, v));
        assert_eq!(v, int_roundtrip(true, &c, v));
    }
}

#[test]
fn integer_roundtrip_extensible() {
    let c = extensible_value_range(0, 255);
    // Inside the root range, and outside it through the extension branch.
    for &v in &[0i128, 255, 256, -1, 99999] {
        assert_eq!(v, int_roundtrip(false, &c, v));
        assert_eq!(v, int_roundtrip(true, &c, v));
    }
}

#[test]
fn octet_string_roundtrip() {
    let cases: [(&[u8], Constraints); 4] = [
        (&[], no_constraints()),
        (&[0xDE, 0xAD, 0xBE, 0xEF], no_constraints()),
        (
            &[1, 2, 3],
            Constraints::new(vec![Constraint::Size(Extensible::new(Size::new(Range::<usize>::new(
                1, 10,
            ))))]),
        ),
        (
            &[7, 7],
            Constraints::new(vec![Constraint::Size(Extensible::new(Size::new(
                Range::single_value(2usize),
            )))]),
        ),
    ];
    for &aligned in &[false, true] {
        for (bytes, constraints) in &cases {
            let encoder = Encoder::new(if aligned {
                EncoderOptions::aligned()
            } else {
                EncoderOptions::unaligned()
            });
            let mut buffer = BitBuffer::new();
            encoder.encode_octet_string_into_buffer(constraints, bytes, &mut buffer).unwrap();
            let mut decoder = Decoder::new(aligned, buffer);
            let back = decoder.decode_octet_string(constraints).unwrap();
            assert_eq!(bytes.to_vec(), back);
        }
    }
}

#[test]
fn bool_roundtrip() {
    let mut buffer = BitBuffer::new();
    buffer.push(true);
    buffer.push(false);
    let mut decoder = Decoder::new(false, buffer);
    assert_eq!(true, decoder.decode_bool().unwrap());
    assert_eq!(false, decoder.decode_bool().unwrap());
    assert!(decoder.decode_bool().is_err());
}

#[test]
fn length_roundtrip_with_fragmentation() {
    // 99000 one-byte units: one 64K fragment, one 32K fragment, then a
    // two-byte final count; the decoder reassembles the content.
    let encoder = Encoder::new(EncoderOptions::unaligned());
    let mut units = Vec::new();
    for i in 0..99000usize {
        let mut b = BitBuffer::new();
        b.push_byte((i % 251) as u8);
        units.push(b);
    }
    let mut buffer = BitBuffer::new();
    encoder.encode_length(&mut buffer, &units, None).unwrap();
    let mut decoder = Decoder::new(false, buffer);
    let content = decoder.decode_unconstrained_length(8).unwrap();
    assert_eq!(99000 * 8, content.len());
    for i in 0..16 {
        let mut byte = 0u8;
        for k in 0..8 {
            byte = byte * 2 + if content.get(8 * i + k) { 1 } else { 0 };
        }
        assert_eq!((i % 251) as u8, byte);
    }
}

#[test]
fn visible_string() {
    let value = VisibleString::from_bytes(b"John").unwrap();
    let mut unaligned = Encoder::new(EncoderOptions::unaligned());
    unaligned
        .encode_visible_string(Tag::new(Class::Universal, 26), &no_constraints(), &value)
        .unwrap();
    assert_eq!(vec![4, 0x95, 0xBF, 0x46, 0xE0], unaligned.output());
    let mut aligned = Encoder::new(EncoderOptions::aligned());
    aligned
        .encode_visible_string(Tag::new(Class::Universal, 26), &no_constraints(), &value)
        .unwrap();
    assert_eq!(vec![4, 0x4A, 0x6F, 0x68, 0x6E], aligned.output());
}

#[test]
fn permitted_alphabet_remaps_characters() {
    // Two permitted characters pack each character into one bit.
    let value = VisibleString::from_bytes(b"NANA").unwrap();
    let constraints = Constraints::new(vec![Constraint::PermittedAlphabet(Extensible::new(
        PermittedAlphabet::new(vec![b'A' as u32, b'N' as u32]),
    ))]);
    let mut encoder = Encoder::new(EncoderOptions::unaligned());
    encoder
        .encode_visible_string(Tag::new(Class::Universal, 26), &constraints, &value)
        .unwrap();
    // Count 4, then indices 1 0 1 0: 00000100 1010 -> 0x04 0xA0.
    assert_eq!(vec![0x04, 0xA0], encoder.output());
}

#[test]
fn permitted_alphabet_rejects_foreign_characters() {
    let value = VisibleString::from_bytes(b"Z").unwrap();
    let constraints = Constraints::new(vec![Constraint::PermittedAlphabet(Extensible::new(
        PermittedAlphabet::new(vec![b'A' as u32, b'N' as u32]),
    ))]);
    let mut encoder = Encoder::new(EncoderOptions::unaligned());
    let result =
        encoder.encode_visible_string(Tag::new(Class::Universal, 26), &constraints, &value);
    assert!(matches!(result, Err(per_codec::error::Error::Custom { .. })));
}

#[test]
fn visible_string_roundtrip() {
    for aligned in [false, true] {
        let value = VisibleString::from_bytes(b"John").unwrap();
        let mut encoder = Encoder::new(if aligned {
            EncoderOptions::aligned()
        } else {
            EncoderOptions::unaligned()
        });
        encoder
            .encode_visible_string(Tag::new(Class::Universal, 26), &no_constraints(), &value)
            .unwrap();
        let mut bits = BitBuffer::new();
        bits.append_bytes(&encoder.output());
        let mut decoder = Decoder::new(aligned, bits);
        let chars = decoder.decode_known_multipler_string(&no_constraints(), 7).unwrap();
        let expected: Vec<u32> = b"John".iter().map(|&b| b as u32).collect();
        assert_eq!(expected, chars);
    }
}

#[test]
fn permitted_alphabet_roundtrip() {
    let value = VisibleString::from_bytes(b"NANA").unwrap();
    let constraints = Constraints::new(vec![Constraint::PermittedAlphabet(Extensible::new(
        PermittedAlphabet::new(vec![b'A' as u32, b'N' as u32]),
    ))]);
    let mut encoder = Encoder::new(EncoderOptions::unaligned());
    encoder
        .encode_visible_string(Tag::new(Class::Universal, 26), &constraints, &value)
        .unwrap();
    let mut buffer = BitBuffer::new();
    buffer.append_bytes(&encoder.output());
    let mut decoder = Decoder::new(false, buffer);
    let chars = decoder.decode_known_multipler_string(&constraints, 7).unwrap();
    let expected: Vec<u32> = b"NANA".iter().map(|&b| b as u32).collect();
    assert_eq!(expected, chars);
}

#[test]
fn printable_string_checks_its_character_set() {
    assert!(PrintableString::from_bytes(b"Hello").is_ok());
    assert!(PrintableString::from_bytes(b"no digits 123").is_err());
}

#[test]
fn numeric_string_packs_digit_indices() {
    let value = NumericString::from_bytes(b"12 3").unwrap();
    let mut encoder = Encoder::new(EncoderOptions::unaligned());
    encoder
        .encode_numeric_string(Tag::new(Class::Universal, 18), &no_constraints(), &value)
        .unwrap();
    // Count 4, then indices 1, 2, 10, 3 in four bits each.
    assert_eq!(vec![0x04, 0x12, 0xA3], encoder.output());
    assert!(NumericString::from_bytes(b"1a").is_err());
}

#[test]
fn extension_additions_are_wrapped_and_flagged() {
    let parent = Encoder::new(EncoderOptions::unaligned());
    let fields = Variants::new(vec![Field::new(
        Tag::new(Class::Context, 0),
        FieldPresence::Required,
    )]);
    let mut child = parent.new_sequence_encoder(&fields);
    child.encode_bool(Tag::new(Class::Context, 0), true).unwrap();
    // One extension addition holding the byte 0x55.
    let mut ext = child.new_extension_encoder(Tag::new(Class::Context, 1));
    ext.encode_integer(Tag::new(Class::Context, 1), &value_range(0, 255), 0x55).unwrap();
    child.encode_extension_addition(Tag::new(Class::Context, 1), ext).unwrap();
    let mut parent = parent;
    let extensible = Constraints::new(vec![Constraint::Extensible]);
    parent
        .encode_constructed(Tag::new(Class::Universal, 16), &extensible, child)
        .unwrap();
    let out = parent.output();
    // Extension bit 1, body bit 1, then count 1 as a normally small
    // integer (0 000001), bitmap bit 1, then the block 0x55 behind a
    // one-byte length: 11 0000001 1 00000001 01010101 (+ padding).
    assert_eq!(vec![0xC0, 0xC0, 0x55, 0x40], out);
}
