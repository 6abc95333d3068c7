use proto_presence::decode::{decode, decode_with_limit, MessageValue, DEFAULT_RECURSION_LIMIT};
use proto_presence::samples::{check_proto2, check_proto3, proto2_registry, proto3_registry, SAMPLE_ONEOF};
use proto_presence::schema::{FieldDescriptor, MessageSchema, PresenceKind, SchemaRegistry, WireKind};
use proto_presence::wire::{
    read_fixed32, read_fixed64, read_length_delimited, read_tag, read_varint, DecodeError,
    WireValue,
};

fn varint(mut v: u64) -> Vec<u8> {
    let mut out = Vec::new();
    loop {
        if v < 0x80 {
            out.push(v as u8);
            return out;
        }
        out.push((v & 0x7f) as u8 | 0x80);
        v >>= 7;
    }
}

fn decode_proto2(buf: &[u8]) -> Result<MessageValue, DecodeError> {
    decode(&proto2_registry(), 0, buf)
}

/// The elements of the repeated field at index `i` of the proto2 sample.
fn list(m: &MessageValue, i: usize) -> Vec<WireValue> {
    m.repeated_values(&proto2_field(i)).unwrap().into_iter().map(|e| e.value).collect()
}

fn proto2_field(i: usize) -> FieldDescriptor {
    proto2_registry().schemas[0].fields[i].clone()
}

/// A message type whose field 1 embeds the type itself.
fn self_nesting() -> SchemaRegistry {
    SchemaRegistry {
        schemas: vec![MessageSchema {
            fields: vec![FieldDescriptor {
                number: 1,
                wire_kind: WireKind::LengthDelimited,
                presence: PresenceKind::Proto2Optional,
                child: Some(0),
            }],
        }],
    }
}

fn nested(levels: usize) -> Vec<u8> {
    let mut buf = Vec::new();
    for _ in 0..levels {
        let mut outer = vec![0x0a];
        outer.extend(varint(buf.len() as u64));
        outer.extend(buf);
        buf = outer;
    }
    buf
}

#[test]
fn proto2_sample_passes() {
    assert!(check_proto2());
}

#[test]
fn proto3_sample_passes() {
    assert!(check_proto3());
}

#[test]
fn empty_buffer_is_empty_message() {
    for reg in [proto2_registry(), proto3_registry(), self_nesting()] {
        for id in 0..reg.schemas.len() {
            let m = decode(&reg, id, &[]).unwrap();
            assert!(m.values().is_empty());
            assert!(m.presence().is_empty());
            assert!(m.selections().is_empty());
        }
    }
}

#[test]
fn default_applies_when_absent() {
    let m = decode_proto2(&[]).unwrap();
    let d = proto2_field(3);
    assert_eq!(m.stored_value(&d), None);
    assert_eq!(m.effective_value(&d), WireValue::Varint(7));
}

#[test]
fn default_yields_to_wire_value() {
    let m = decode_proto2(&[0x20, 0x00]).unwrap();
    let d = proto2_field(3);
    assert_eq!(m.stored_value(&d), Some(WireValue::Varint(0)));
    assert_eq!(m.effective_value(&d), WireValue::Varint(0));
    assert!(m.is_present(4));
}

#[test]
fn oneof_unselected_after_empty() {
    let m = decode_proto2(&[]).unwrap();
    assert_eq!(m.oneof_selection(SAMPLE_ONEOF), None);
    assert_eq!(m.stored_value(&proto2_field(6)), None);
    assert_eq!(m.effective_value(&proto2_field(6)), WireValue::Varint(0));
}

#[test]
fn repeated_empty_after_empty() {
    let m = decode_proto2(&[]).unwrap();
    assert_eq!(list(&m, 5), Vec::<WireValue>::new());
}

#[test]
fn oneof_last_member_wins() {
    // choice_int = 5, then choice_msg = {}
    let m = decode_proto2(&[0x38, 0x05, 0x42, 0x00]).unwrap();
    assert_eq!(m.oneof_selection(SAMPLE_ONEOF), Some(8));
    assert_eq!(m.stored_value(&proto2_field(6)), None);
    assert_eq!(m.effective_value(&proto2_field(6)), WireValue::Varint(0));
    assert_eq!(m.stored_value(&proto2_field(7)), Some(WireValue::Bytes(vec![])));
    // the other order
    let m = decode_proto2(&[0x42, 0x00, 0x38, 0x05]).unwrap();
    assert_eq!(m.oneof_selection(SAMPLE_ONEOF), Some(7));
    assert_eq!(m.stored_value(&proto2_field(6)), Some(WireValue::Varint(5)));
    assert_eq!(m.stored_value(&proto2_field(7)), None);
}

#[test]
fn singular_last_value_wins() {
    let m = decode_proto2(&[0x18, 0x01, 0x18, 0x02]).unwrap();
    assert_eq!(m.stored_value(&proto2_field(2)), Some(WireValue::Varint(2)));
    assert_eq!(m.presence(), &[3]);
}

#[test]
fn repeated_plain_and_packed() {
    let m = decode_proto2(&[0x30, 0x01, 0x32, 0x03, 0x02, 0x03, 0x04, 0x30, 0x05]).unwrap();
    let expected: Vec<WireValue> = [1, 2, 3, 4, 5].iter().map(|v| WireValue::Varint(*v)).collect();
    assert_eq!(list(&m, 5), expected);
    assert!(m.is_present(6));
}

#[test]
fn empty_packed_span_gives_empty_list() {
    let m = decode_proto2(&[0x32, 0x00]).unwrap();
    assert_eq!(list(&m, 5), Vec::<WireValue>::new());
}

#[test]
fn unknown_fields_are_skipped() {
    // field 9 varint, field 10 fixed64, field 11 bytes, field 12 fixed32
    let buf = [
        0x48, 0x96, 0x01, 0x51, 1, 2, 3, 4, 5, 6, 7, 8, 0x5a, 0x02, 0xaa, 0xbb, 0x65, 1, 2, 3, 4,
        0x08, 0x2a,
    ];
    let m = decode_proto2(&buf).unwrap();
    assert_eq!(m.presence(), &[1]);
    assert_eq!(m.effective_value(&proto2_field(0)), WireValue::Varint(42));
    assert_eq!(m.values().len(), 1);
}

#[test]
fn embedded_message_is_read() {
    let reg = proto2_registry();
    let m = decode(&reg, 0, &[0x12, 0x02, 0x08, 0x05]).unwrap();
    let child = m.child_message(&reg, &reg.schemas[0].fields[1], DEFAULT_RECURSION_LIMIT).unwrap();
    assert_eq!(child.effective_value(&reg.schemas[1].fields[0]), WireValue::Varint(5));
    assert!(m.is_present(2));
}

#[test]
fn absent_embedded_message_reads_as_defaults() {
    let reg = proto2_registry();
    let m = decode(&reg, 0, &[]).unwrap();
    let child = m.child_message(&reg, &reg.schemas[0].fields[4], DEFAULT_RECURSION_LIMIT).unwrap();
    assert_eq!(child.stored_value(&reg.schemas[1].fields[0]), None);
    assert_eq!(child.effective_value(&reg.schemas[1].fields[0]), WireValue::Varint(0));
}

#[test]
fn bad_embedded_message_fails_the_decode() {
    assert_eq!(decode_proto2(&[0x12, 0x01, 0x08]).unwrap_err(), DecodeError::TruncatedInput);
}

#[test]
fn malformed_varint() {
    let mut buf = vec![0x08];
    buf.extend([0xff; 10]);
    buf.push(0x01);
    assert_eq!(decode_proto2(&buf).unwrap_err(), DecodeError::MalformedVarint);
}

#[test]
fn truncated_input() {
    assert_eq!(decode_proto2(&[0x08]).unwrap_err(), DecodeError::TruncatedInput);
    assert_eq!(decode_proto2(&[0x08, 0x80]).unwrap_err(), DecodeError::TruncatedInput);
    assert_eq!(decode_proto2(&[0x12, 0x05, 0x08]).unwrap_err(), DecodeError::TruncatedInput);
    assert_eq!(decode_proto2(&[0x51, 1, 2, 3]).unwrap_err(), DecodeError::TruncatedInput);
}

#[test]
fn wire_type_mismatch() {
    // field 1 is a varint, sent as fixed32
    assert_eq!(decode_proto2(&[0x0d, 1, 2, 3, 4]).unwrap_err(), DecodeError::WireTypeMismatch);
    // unknown field 9 with wire type 6
    assert_eq!(decode_proto2(&[0x4e, 0x00]).unwrap_err(), DecodeError::WireTypeMismatch);
    // a start-group wire type
    assert_eq!(decode_proto2(&[0x4b]).unwrap_err(), DecodeError::WireTypeMismatch);
}

#[test]
fn recursion_limit_exceeded() {
    let reg = self_nesting();
    assert_eq!(decode(&reg, 0, &nested(101)).unwrap_err(), DecodeError::RecursionLimitExceeded);
    assert!(decode(&reg, 0, &nested(100)).is_ok());
    assert_eq!(
        decode_with_limit(&reg, 0, &nested(4), 3).unwrap_err(),
        DecodeError::RecursionLimitExceeded
    );
    assert!(decode_with_limit(&reg, 0, &nested(3), 3).is_ok());
}

#[test]
fn child_message_uses_the_given_limit() {
    let reg = self_nesting();
    let m = decode_with_limit(&reg, 0, &nested(150), 200).unwrap();
    let child = m.child_message(&reg, &reg.schemas[0].fields[0], 200).unwrap();
    assert!(child.is_present(1));
    assert_eq!(
        m.child_message(&reg, &reg.schemas[0].fields[0], DEFAULT_RECURSION_LIMIT).unwrap_err(),
        DecodeError::RecursionLimitExceeded
    );
}

#[test]
fn too_deep_chain_after_other_fields() {
    let reg = self_nesting();
    let mut buf = vec![0x0a, 0x00, 0x48, 0x01];
    buf.extend(nested(101));
    assert_eq!(decode(&reg, 0, &buf).unwrap_err(), DecodeError::RecursionLimitExceeded);
}

#[test]
fn too_deep_chain_after_fields_at_every_level() {
    let reg = self_nesting();
    let build = |levels: usize| {
        let mut buf: Vec<u8> = Vec::new();
        for _ in 0..levels {
            let mut outer = vec![0x0a, 0x00, 0x0a];
            outer.extend(varint(buf.len() as u64));
            outer.extend(buf);
            buf = outer;
        }
        buf
    };
    assert_eq!(decode(&reg, 0, &build(101)).unwrap_err(), DecodeError::RecursionLimitExceeded);
    assert!(decode(&reg, 0, &build(100)).is_ok());
}

#[test]
fn deep_nesting_far_beyond_limit() {
    let reg = self_nesting();
    assert_eq!(decode(&reg, 0, &nested(5000)).unwrap_err(), DecodeError::RecursionLimitExceeded);
}

#[test]
fn varint_values() {
    assert_eq!(read_varint(&[0xac, 0x02], 0), Ok((300, 2)));
    assert_eq!(read_varint(&[0x00, 0x7f], 1), Ok((127, 2)));
    let max = [0xff, 0xff, 0xff, 0xff, 0xff, 0xff, 0xff, 0xff, 0xff, 0x01];
    assert_eq!(read_varint(&max, 0), Ok((u64::MAX, 10)));
    assert_eq!(read_varint(&[0xff; 10], 0), Err(DecodeError::MalformedVarint));
    assert_eq!(read_varint(&[0xff; 3], 0), Err(DecodeError::TruncatedInput));
}

#[test]
fn fixed_values() {
    assert_eq!(read_fixed32(&[0x78, 0x56, 0x34, 0x12], 0), Ok((0x12345678, 4)));
    assert_eq!(read_fixed64(&[1, 0, 0, 0, 0, 0, 0, 0x80], 0), Ok((0x8000_0000_0000_0001, 8)));
    assert_eq!(read_fixed32(&[1, 2, 3], 0), Err(DecodeError::TruncatedInput));
    assert_eq!(read_fixed64(&[1, 2, 3, 4, 5, 6, 7], 0), Err(DecodeError::TruncatedInput));
}

#[test]
fn tags_and_spans() {
    assert_eq!(read_tag(&[0x42], 0), Ok((8, 2, 1)));
    assert_eq!(read_length_delimited(&[0x02, 0xaa, 0xbb, 0xcc], 0), Ok((vec![0xaa, 0xbb], 3)));
    assert_eq!(read_length_delimited(&[0x04, 0xaa], 0), Err(DecodeError::TruncatedInput));
}

#[test]
fn fixed_fields_decode() {
    let reg = SchemaRegistry {
        schemas: vec![MessageSchema {
            fields: vec![
                FieldDescriptor { number: 1, wire_kind: WireKind::Fixed32, presence: PresenceKind::Proto3Plain, child: None },
                FieldDescriptor { number: 2, wire_kind: WireKind::Fixed64, presence: PresenceKind::Proto3Optional, child: None },
                FieldDescriptor { number: 3, wire_kind: WireKind::LengthDelimited, presence: PresenceKind::Proto3Plain, child: None },
            ],
        }],
    };
    let empty = decode(&reg, 0, &[]).unwrap();
    assert_eq!(empty.effective_value(&reg.schemas[0].fields[0]), WireValue::Fixed32(0));
    assert_eq!(empty.effective_value(&reg.schemas[0].fields[1]), WireValue::Fixed64(0));
    assert_eq!(empty.effective_value(&reg.schemas[0].fields[2]), WireValue::Bytes(vec![]));
    let m = decode(&reg, 0, &[0x0d, 7, 0, 0, 0, 0x11, 9, 0, 0, 0, 0, 0, 0, 0, 0x1a, 1, b'a']).unwrap();
    assert_eq!(m.effective_value(&reg.schemas[0].fields[0]), WireValue::Fixed32(7));
    assert_eq!(m.effective_value(&reg.schemas[0].fields[1]), WireValue::Fixed64(9));
    assert_eq!(m.effective_value(&reg.schemas[0].fields[2]), WireValue::Bytes(vec![b'a']));
}

#[test]
fn proto3_sample_fields() {
    let reg = proto3_registry();
    let m = decode(&reg, 0, &[0x08, 0x03, 0x18, 0x00]).unwrap();
    let f = &reg.schemas[0].fields;
    assert_eq!(m.effective_value(&f[0]), WireValue::Varint(3));
    assert_eq!(m.stored_value(&f[2]), Some(WireValue::Varint(0)));
    assert_eq!(m.stored_value(&f[3]), None);
}
