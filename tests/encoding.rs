use proto_presence::decode::decode;
use proto_presence::encode::{write_entry, write_fixed32, write_fixed64, write_varint};
use proto_presence::samples::{proto2_registry, proto3_registry, SAMPLE_ONEOF};
use proto_presence::schema::PresenceKind;
use proto_presence::wire::{read_varint, WireValue};

#[test]
fn varint_bytes() {
    let mut out = vec![0xee];
    write_varint(300, &mut out);
    assert_eq!(out, vec![0xee, 0xac, 0x02]);
    let mut out = Vec::new();
    write_varint(0, &mut out);
    assert_eq!(out, vec![0x00]);
    let mut out = Vec::new();
    write_varint(u64::MAX, &mut out);
    assert_eq!(out, vec![0xff, 0xff, 0xff, 0xff, 0xff, 0xff, 0xff, 0xff, 0xff, 0x01]);
}

#[test]
fn varint_written_reads_back() {
    for v in [0u64, 1, 127, 128, 16383, 16384, 1 << 35, u64::MAX - 1, u64::MAX] {
        let mut out = Vec::new();
        write_varint(v, &mut out);
        assert_eq!(read_varint(&out, 0), Ok((v, out.len())));
    }
}

#[test]
fn fixed_bytes() {
    let mut out = Vec::new();
    write_fixed32(0x12345678, &mut out);
    assert_eq!(out, vec![0x78, 0x56, 0x34, 0x12]);
    let mut out = Vec::new();
    write_fixed64(0x0102030405060708, &mut out);
    assert_eq!(out, vec![8, 7, 6, 5, 4, 3, 2, 1]);
}

#[test]
fn entry_bytes() {
    let mut out = Vec::new();
    write_entry(2, &WireValue::Bytes(vec![0x08, 0x05]), &mut out);
    assert_eq!(out, vec![0x12, 0x02, 0x08, 0x05]);
    let mut out = Vec::new();
    write_entry(1, &WireValue::Varint(150), &mut out);
    assert_eq!(out, vec![0x08, 0x96, 0x01]);
}

#[test]
fn canonical_input_encodes_back() {
    let reg = proto2_registry();
    let buf = [0x08, 0x96, 0x01, 0x12, 0x02, 0x08, 0x05, 0x30, 0x01, 0x30, 0x02, 0x38, 0x05, 0x42, 0x00];
    let m = decode(&reg, 0, &buf).unwrap();
    assert_eq!(m.encode(), buf.to_vec());
}

#[test]
fn decode_after_encode_keeps_the_message() {
    let reg = proto2_registry();
    // a packed list, an unknown field, a oneof member overwritten
    let buf = [0x32, 0x02, 0x01, 0x02, 0x48, 0x01, 0x38, 0x05, 0x42, 0x00, 0x20, 0x09];
    let m = decode(&reg, 0, &buf).unwrap();
    let again = decode(&reg, 0, &m.encode()).unwrap();
    assert_eq!(again, m);
    assert_eq!(again.oneof_selection(SAMPLE_ONEOF), Some(8));
    for f in &reg.schemas[0].fields {
        if f.presence != PresenceKind::Repeated {
            assert_eq!(again.effective_value(f), m.effective_value(f));
        }
    }
}

#[test]
fn empty_packed_span_keeps_presence() {
    let reg = proto2_registry();
    let m = decode(&reg, 0, &[0x32, 0x00]).unwrap();
    assert!(m.is_present(6));
    assert_eq!(m.encode(), vec![0x32, 0x00]);
    let again = decode(&reg, 0, &m.encode()).unwrap();
    assert!(again.is_present(6));
    assert!(again.repeated_values(&reg.schemas[0].fields[5]).unwrap().is_empty());
}

#[test]
fn packed_proto3_list_encodes_back() {
    let reg = proto3_registry();
    let buf = [0x32, 0x01, 0x01];
    let m = decode(&reg, 0, &buf).unwrap();
    assert_eq!(m.encode(), buf.to_vec());
    let elements = m.repeated_values(&reg.schemas[0].fields[4]).unwrap();
    assert_eq!(elements.len(), 1);
    assert_eq!(elements[0].value, WireValue::Varint(1));
}

#[test]
fn canonical_proto3_message_encodes_back() {
    let reg = proto3_registry();
    let buf = [0x08, 0x05, 0x18, 0x00, 0x32, 0x03, 0x01, 0x96, 0x01, 0x38, 0x02];
    let m = decode(&reg, 0, &buf).unwrap();
    assert_eq!(m.encode(), buf.to_vec());
    assert_eq!(m.stored_value(&reg.schemas[0].fields[2]), Some(WireValue::Varint(0)));
}
