//! Two sample message types, one per dialect, and checks of what decoding
//! the empty buffer gives for each kind of field.
//!
//! Each sample message has a child message type with a single integer field
//! `value = 1`, and these fields:
//! `int32 = 1`, a child message `= 2`, an optional `int32 = 3`, (proto2 only)
//! an optional `int32 = 4` with default 7, an optional child message `= 5`, a
//! repeated `int32 = 6`, and a oneof holding `int32 = 7` and a child message
//! `= 8`.
use vstd::prelude::*;
use crate::wire::{DecodeError, RawValue, WireValue};
use crate::schema::{FieldDescriptor, MessageSchema, PresenceKind, SchemaRegistry, WireKind};
use crate::decode::{decode, entries_view, empty_model, spec_decode, spec_selection, DEFAULT_RECURSION_LIMIT};
use crate::access::{list_of, spec_effective, spec_stored};
use crate::laws::lemma_empty_buffer;

verus! {

/// The oneof group of the sample messages.
pub const SAMPLE_ONEOF: u32 = 0;

fn field(number: u32, wire_kind: WireKind, presence: PresenceKind, child: Option<usize>) -> (r: FieldDescriptor)
    ensures
        r == (FieldDescriptor { number, wire_kind, presence, child }),
{
    FieldDescriptor { number, wire_kind, presence, child }
}

/// The proto2 sample: schema 0 is the message, schema 1 its child.
pub open spec fn is_proto2_sample(reg: SchemaRegistry) -> bool {
    &&& reg.schemas@.len() == 2
    &&& reg.schemas@[0].fields@.len() == 8
    &&& reg.schemas@[0].fields@[0] == (FieldDescriptor { number: 1, wire_kind: WireKind::Varint, presence: PresenceKind::Proto2Required, child: None })
    &&& reg.schemas@[0].fields@[1] == (FieldDescriptor { number: 2, wire_kind: WireKind::LengthDelimited, presence: PresenceKind::Proto2Required, child: Some(1) })
    &&& reg.schemas@[0].fields@[2] == (FieldDescriptor { number: 3, wire_kind: WireKind::Varint, presence: PresenceKind::Proto2Optional, child: None })
    &&& reg.schemas@[0].fields@[3] == (FieldDescriptor { number: 4, wire_kind: WireKind::Varint, presence: PresenceKind::Proto2OptionalWithDefault(WireValue::Varint(7)), child: None })
    &&& reg.schemas@[0].fields@[4] == (FieldDescriptor { number: 5, wire_kind: WireKind::LengthDelimited, presence: PresenceKind::Proto2Optional, child: Some(1) })
    &&& reg.schemas@[0].fields@[5] == (FieldDescriptor { number: 6, wire_kind: WireKind::Varint, presence: PresenceKind::Repeated, child: None })
    &&& reg.schemas@[0].fields@[6] == (FieldDescriptor { number: 7, wire_kind: WireKind::Varint, presence: PresenceKind::OneofMember(SAMPLE_ONEOF), child: None })
    &&& reg.schemas@[0].fields@[7] == (FieldDescriptor { number: 8, wire_kind: WireKind::LengthDelimited, presence: PresenceKind::OneofMember(SAMPLE_ONEOF), child: Some(1) })
    &&& reg.schemas@[1].fields@.len() == 1
    &&& reg.schemas@[1].fields@[0] == (FieldDescriptor { number: 1, wire_kind: WireKind::Varint, presence: PresenceKind::Proto2Optional, child: None })
}

/// Builds the proto2 sample.
pub fn proto2_registry() -> (r: SchemaRegistry)
    ensures
        r.well_formed(),
        is_proto2_sample(r),
{
    let sample = MessageSchema {
        fields: vec![
            field(1, WireKind::Varint, PresenceKind::Proto2Required, None),
            field(2, WireKind::LengthDelimited, PresenceKind::Proto2Required, Some(1)),
            field(3, WireKind::Varint, PresenceKind::Proto2Optional, None),
            field(4, WireKind::Varint, PresenceKind::Proto2OptionalWithDefault(WireValue::Varint(7)), None),
            field(5, WireKind::LengthDelimited, PresenceKind::Proto2Optional, Some(1)),
            field(6, WireKind::Varint, PresenceKind::Repeated, None),
            field(7, WireKind::Varint, PresenceKind::OneofMember(SAMPLE_ONEOF), None),
            field(8, WireKind::LengthDelimited, PresenceKind::OneofMember(SAMPLE_ONEOF), Some(1)),
        ],
    };
    let child = MessageSchema {
        fields: vec![field(1, WireKind::Varint, PresenceKind::Proto2Optional, None)],
    };
    let r = SchemaRegistry { schemas: vec![sample, child] };
    assert(r.schemas@[0].well_formed(2));
    assert(r.schemas@[1].well_formed(2));
    r
}

/// The proto3 sample: schema 0 is the message, schema 1 its child.
pub open spec fn is_proto3_sample(reg: SchemaRegistry) -> bool {
    &&& reg.schemas@.len() == 2
    &&& reg.schemas@[0].fields@.len() == 7
    &&& reg.schemas@[0].fields@[0] == (FieldDescriptor { number: 1, wire_kind: WireKind::Varint, presence: PresenceKind::Proto3Plain, child: None })
    &&& reg.schemas@[0].fields@[1] == (FieldDescriptor { number: 2, wire_kind: WireKind::LengthDelimited, presence: PresenceKind::Proto3Plain, child: Some(1) })
    &&& reg.schemas@[0].fields@[2] == (FieldDescriptor { number: 3, wire_kind: WireKind::Varint, presence: PresenceKind::Proto3Optional, child: None })
    &&& reg.schemas@[0].fields@[3] == (FieldDescriptor { number: 5, wire_kind: WireKind::LengthDelimited, presence: PresenceKind::Proto3Optional, child: Some(1) })
    &&& reg.schemas@[0].fields@[4] == (FieldDescriptor { number: 6, wire_kind: WireKind::Varint, presence: PresenceKind::Repeated, child: None })
    &&& reg.schemas@[0].fields@[5] == (FieldDescriptor { number: 7, wire_kind: WireKind::Varint, presence: PresenceKind::OneofMember(SAMPLE_ONEOF), child: None })
    &&& reg.schemas@[0].fields@[6] == (FieldDescriptor { number: 8, wire_kind: WireKind::LengthDelimited, presence: PresenceKind::OneofMember(SAMPLE_ONEOF), child: Some(1) })
    &&& reg.schemas@[1].fields@.len() == 1
    &&& reg.schemas@[1].fields@[0] == (FieldDescriptor { number: 1, wire_kind: WireKind::Varint, presence: PresenceKind::Proto3Plain, child: None })
}

/// Builds the proto3 sample.
pub fn proto3_registry() -> (r: SchemaRegistry)
    ensures
        r.well_formed(),
        is_proto3_sample(r),
{
    let sample = MessageSchema {
        fields: vec![
            field(1, WireKind::Varint, PresenceKind::Proto3Plain, None),
            field(2, WireKind::LengthDelimited, PresenceKind::Proto3Plain, Some(1)),
            field(3, WireKind::Varint, PresenceKind::Proto3Optional, None),
            field(5, WireKind::LengthDelimited, PresenceKind::Proto3Optional, Some(1)),
            field(6, WireKind::Varint, PresenceKind::Repeated, None),
            field(7, WireKind::Varint, PresenceKind::OneofMember(SAMPLE_ONEOF), None),
            field(8, WireKind::LengthDelimited, PresenceKind::OneofMember(SAMPLE_ONEOF), Some(1)),
        ],
    };
    let child = MessageSchema {
        fields: vec![field(1, WireKind::Varint, PresenceKind::Proto3Plain, None)],
    };
    let r = SchemaRegistry { schemas: vec![sample, child] };
    assert(r.schemas@[0].well_formed(2));
    assert(r.schemas@[1].well_formed(2));
    r
}

/// Decodes the empty buffer as the proto2 sample and checks every field:
/// the required fields read as zero, the optional ones are absent and read
/// as zero, the field with a default reads as 7, the list is empty and the
/// oneof has no member selected.
pub fn check_proto2() -> (r: bool)
    ensures
        r,
        forall|reg: SchemaRegistry| #[trigger] is_proto2_sample(reg) ==> ({
            let f = reg.schemas@[0].fields@;
            let g = reg.schemas@[1].fields@;
            &&& spec_decode(reg, 0, Seq::empty(), DEFAULT_RECURSION_LIMIT as nat) matches Ok(m)
            &&& m.presence.len() == 0
            &&& spec_selection(m, SAMPLE_ONEOF) is None
            &&& spec_effective(m, f[0]) == RawValue::Varint(0)
            &&& spec_stored(m, f[1]) is None
            &&& spec_decode(reg, 1, Seq::empty(), DEFAULT_RECURSION_LIMIT as nat) matches Ok(c)
            &&& spec_stored(c, g[0]) is None
            &&& spec_effective(c, g[0]) == RawValue::Varint(0)
            &&& spec_stored(m, f[2]) is None
            &&& spec_effective(m, f[2]) == RawValue::Varint(0)
            &&& spec_stored(m, f[3]) is None
            &&& spec_effective(m, f[3]) == RawValue::Varint(7)
            &&& spec_stored(m, f[4]) is None
            &&& list_of(m.values, f[5]) == Ok::<Seq<(u32, RawValue)>, DecodeError>(Seq::empty())
        }),
{
    proof {
        assert forall|reg: SchemaRegistry| #[trigger] is_proto2_sample(reg) implies ({
            let f = reg.schemas@[0].fields@;
            let g = reg.schemas@[1].fields@;
            &&& spec_decode(reg, 0, Seq::empty(), DEFAULT_RECURSION_LIMIT as nat) matches Ok(m)
            &&& m.presence.len() == 0
            &&& spec_selection(m, SAMPLE_ONEOF) is None
            &&& spec_effective(m, f[0]) == RawValue::Varint(0)
            &&& spec_stored(m, f[1]) is None
            &&& spec_decode(reg, 1, Seq::empty(), DEFAULT_RECURSION_LIMIT as nat) matches Ok(c)
            &&& spec_stored(c, g[0]) is None
            &&& spec_effective(c, g[0]) == RawValue::Varint(0)
            &&& spec_stored(m, f[2]) is None
            &&& spec_effective(m, f[2]) == RawValue::Varint(0)
            &&& spec_stored(m, f[3]) is None
            &&& spec_effective(m, f[3]) == RawValue::Varint(7)
            &&& spec_stored(m, f[4]) is None
            &&& list_of(m.values, f[5]) == Ok::<Seq<(u32, RawValue)>, DecodeError>(Seq::empty())
        }) by {
            lemma_empty_buffer(reg, 0, DEFAULT_RECURSION_LIMIT as nat);
            lemma_empty_buffer(reg, 1, DEFAULT_RECURSION_LIMIT as nat);
            assert(!empty_model().presence.contains(1u32));
            assert(!empty_model().presence.contains(2u32));
            assert(!empty_model().presence.contains(3u32));
            assert(!empty_model().presence.contains(4u32));
            assert(!empty_model().presence.contains(5u32));
        }
    }
    let reg = proto2_registry();
    let empty: Vec<u8> = Vec::new();
    let msg = match decode(&reg, 0, empty.as_slice()) {
        Ok(m) => m,
        Err(_) => return false,
    };
    assert(msg@.presence =~= Seq::<u32>::empty());
    let list = match msg.repeated_values(&reg.schemas[0].fields[5]) {
        Ok(l) => l,
        Err(_) => return false,
    };
    assert(msg@.values =~= Seq::<(u32, RawValue)>::empty());
    assert(entries_view(list@).len() == 0);
    let fields = &reg.schemas[0].fields;
    let child_field = &reg.schemas[1].fields[0];
    let req_msg = match msg.child_message(&reg, &fields[1], DEFAULT_RECURSION_LIMIT) {
        Ok(m) => m,
        Err(_) => return false,
    };
    msg.effective_value(&fields[0]).as_varint() == Some(0u64)
        && req_msg.stored_value(child_field).is_none()
        && req_msg.effective_value(child_field).as_varint() == Some(0u64)
        && msg.stored_value(&fields[2]).is_none()
        && msg.effective_value(&fields[2]).as_varint() == Some(0u64)
        && msg.stored_value(&fields[3]).is_none()
        && msg.effective_value(&fields[3]).as_varint() == Some(7u64)
        && msg.stored_value(&fields[4]).is_none()
        && list.len() == 0
        && msg.oneof_selection(SAMPLE_ONEOF).is_none()
}

/// Decodes the empty buffer as the proto3 sample and checks every field:
/// the plain integer reads as zero, the messages and the optional integer are
/// absent, the list is empty and the oneof has no member selected.
pub fn check_proto3() -> (r: bool)
    ensures
        r,
        forall|reg: SchemaRegistry| #[trigger] is_proto3_sample(reg) ==> ({
            let f = reg.schemas@[0].fields@;
            &&& spec_decode(reg, 0, Seq::empty(), DEFAULT_RECURSION_LIMIT as nat) matches Ok(m)
            &&& m.presence.len() == 0
            &&& spec_selection(m, SAMPLE_ONEOF) is None
            &&& spec_effective(m, f[0]) == RawValue::Varint(0)
            &&& spec_stored(m, f[1]) is None
            &&& spec_stored(m, f[2]) is None
            &&& spec_effective(m, f[2]) == RawValue::Varint(0)
            &&& spec_stored(m, f[3]) is None
            &&& list_of(m.values, f[4]) == Ok::<Seq<(u32, RawValue)>, DecodeError>(Seq::empty())
        }),
{
    proof {
        assert forall|reg: SchemaRegistry| #[trigger] is_proto3_sample(reg) implies ({
            let f = reg.schemas@[0].fields@;
            &&& spec_decode(reg, 0, Seq::empty(), DEFAULT_RECURSION_LIMIT as nat) matches Ok(m)
            &&& m.presence.len() == 0
            &&& spec_selection(m, SAMPLE_ONEOF) is None
            &&& spec_effective(m, f[0]) == RawValue::Varint(0)
            &&& spec_stored(m, f[1]) is None
            &&& spec_stored(m, f[2]) is None
            &&& spec_effective(m, f[2]) == RawValue::Varint(0)
            &&& spec_stored(m, f[3]) is None
            &&& list_of(m.values, f[4]) == Ok::<Seq<(u32, RawValue)>, DecodeError>(Seq::empty())
        }) by {
            lemma_empty_buffer(reg, 0, DEFAULT_RECURSION_LIMIT as nat);
            assert(!empty_model().presence.contains(1u32));
            assert(!empty_model().presence.contains(2u32));
            assert(!empty_model().presence.contains(3u32));
            assert(!empty_model().presence.contains(5u32));
        }
    }
    let reg = proto3_registry();
    let empty: Vec<u8> = Vec::new();
    let msg = match decode(&reg, 0, empty.as_slice()) {
        Ok(m) => m,
        Err(_) => return false,
    };
    assert(msg@.presence =~= Seq::<u32>::empty());
    let list = match msg.repeated_values(&reg.schemas[0].fields[4]) {
        Ok(l) => l,
        Err(_) => return false,
    };
    assert(msg@.values =~= Seq::<(u32, RawValue)>::empty());
    assert(entries_view(list@).len() == 0);
    let fields = &reg.schemas[0].fields;
    msg.effective_value(&fields[0]).as_varint() == Some(0u64)
        && msg.stored_value(&fields[1]).is_none()
        && msg.stored_value(&fields[2]).is_none()
        && msg.effective_value(&fields[2]).as_varint() == Some(0u64)
        && msg.stored_value(&fields[3]).is_none()
        && list.len() == 0
        && msg.oneof_selection(SAMPLE_ONEOF).is_none()
}

} // verus!
