//! Static descriptions of message types. Schemas live in a registry and
//! refer to one another by index, so that a message type may embed itself or
//! take part in a cycle of types without any schema owning another.
use vstd::prelude::*;
use crate::wire::{RawValue, WireValue, WIRE_VARINT, WIRE_FIXED32, WIRE_FIXED64, WIRE_LEN};

verus! {

/// How a field's values are laid out on the wire.
#[derive(Clone, Copy, Debug, PartialEq, Eq, Structural)]
pub enum WireKind {
    Varint,
    Fixed32,
    Fixed64,
    LengthDelimited,
}

/// How a field tracks presence, by dialect.
#[derive(Clone, Debug, PartialEq, Eq)]
pub enum PresenceKind {
    Proto2Required,
    Proto2Optional,
    Proto2OptionalWithDefault(WireValue),
    Proto3Plain,
    Proto3Optional,
    Repeated,
    /// A member of the oneof group with the given identifier.
    OneofMember(u32),
}

/// One field of a message type.
#[derive(Clone, Debug, PartialEq, Eq)]
pub struct FieldDescriptor {
    pub number: u32,
    pub wire_kind: WireKind,
    pub presence: PresenceKind,
    /// For an embedded message, the index of its schema in the registry.
    pub child: Option<usize>,
}

/// A message type: its fields, unique by number.
#[derive(Clone, Debug, PartialEq, Eq)]
pub struct MessageSchema {
    pub fields: Vec<FieldDescriptor>,
}

/// Every message type that decoding may meet, indexed by schema id.
#[derive(Clone, Debug, PartialEq, Eq)]
pub struct SchemaRegistry {
    pub schemas: Vec<MessageSchema>,
}

/// The wire type that values of a kind are written with.
pub open spec fn spec_wire_type(k: WireKind) -> u64 {
    match k {
        WireKind::Varint => WIRE_VARINT,
        WireKind::Fixed32 => WIRE_FIXED32,
        WireKind::Fixed64 => WIRE_FIXED64,
        WireKind::LengthDelimited => WIRE_LEN,
    }
}

pub fn wire_type(k: WireKind) -> (r: u64)
    ensures
        r == spec_wire_type(k),
{
    match k {
        WireKind::Varint => WIRE_VARINT,
        WireKind::Fixed32 => WIRE_FIXED32,
        WireKind::Fixed64 => WIRE_FIXED64,
        WireKind::LengthDelimited => WIRE_LEN,
    }
}

/// Whether a raw value has the shape of a kind.
pub open spec fn value_has_kind(v: RawValue, k: WireKind) -> bool {
    match k {
        WireKind::Varint => v is Varint,
        WireKind::Fixed32 => v is Fixed32,
        WireKind::Fixed64 => v is Fixed64,
        WireKind::LengthDelimited => v is Bytes,
    }
}

/// The language-neutral zero of a kind: 0, or the empty byte string.
pub open spec fn spec_zero_value(k: WireKind) -> RawValue {
    match k {
        WireKind::Varint => RawValue::Varint(0),
        WireKind::Fixed32 => RawValue::Fixed32(0),
        WireKind::Fixed64 => RawValue::Fixed64(0),
        WireKind::LengthDelimited => RawValue::Bytes(Seq::empty()),
    }
}

pub fn zero_value(k: WireKind) -> (r: WireValue)
    ensures
        r@ == spec_zero_value(k),
{
    match k {
        WireKind::Varint => WireValue::Varint(0),
        WireKind::Fixed32 => WireValue::Fixed32(0),
        WireKind::Fixed64 => WireValue::Fixed64(0),
        WireKind::LengthDelimited => {
            let b: Vec<u8> = Vec::new();
            assert(b@ =~= Seq::<u8>::empty());
            WireValue::Bytes(b)
        },
    }
}

/// The index of the first field of `fields` from `i` on that has number `n`.
pub open spec fn find_field_from(fields: Seq<FieldDescriptor>, n: u64, i: nat) -> Option<nat>
    decreases fields.len() - i,
{
    if i >= fields.len() {
        None
    } else if fields[i as int].number as u64 == n {
        Some(i)
    } else {
        find_field_from(fields, n, i + 1)
    }
}

/// The descriptor with number `n` in a schema, if there is one.
pub open spec fn spec_lookup(s: MessageSchema, n: u64) -> Option<FieldDescriptor> {
    match find_field_from(s.fields@, n, 0) {
        Some(i) => Some(s.fields@[i as int]),
        None => None,
    }
}

proof fn lemma_find_field_from(fields: Seq<FieldDescriptor>, n: u64, i: nat)
    ensures
        find_field_from(fields, n, i) matches Some(j) ==> i <= j < fields.len()
            && fields[j as int].number as u64 == n,
    decreases fields.len() - i,
{
    if i < fields.len() && fields[i as int].number as u64 != n {
        lemma_find_field_from(fields, n, i + 1);
    }
}

/// A descriptor that is found has the number looked for, and is well formed
/// where the schema is.
pub proof fn lemma_lookup(s: MessageSchema, n: u64, n_schemas: nat)
    ensures
        spec_lookup(s, n) matches Some(d) ==> d.number as u64 == n && (s.well_formed(n_schemas)
            ==> d.well_formed(n_schemas)),
{
    lemma_find_field_from(s.fields@, n, 0);
}

impl MessageSchema {
    /// The descriptor of field number `n`.
    pub fn lookup(&self, n: u64) -> (r: Option<&FieldDescriptor>)
        ensures
            match r {
                Some(d) => spec_lookup(*self, n) == Some(*d),
                None => spec_lookup(*self, n) is None,
            },
    {
        let mut i: usize = 0;
        while i < self.fields.len()
            invariant
                i <= self.fields@.len(),
                find_field_from(self.fields@, n, 0) == find_field_from(self.fields@, n, i as nat),
            decreases self.fields@.len() - i,
        {
            if self.fields[i].number as u64 == n {
                return Some(&self.fields[i]);
            }
            i = i + 1;
        }
        None
    }

    /// Field numbers are unique, and a child schema is given to
    /// length-delimited fields alone, within a registry of `n_schemas`.
    pub open spec fn well_formed(&self, n_schemas: nat) -> bool {
        &&& forall|i: int, j: int|
            0 <= i < j < self.fields@.len() ==> self.fields@[i].number != self.fields@[j].number
        &&& forall|i: int| 0 <= i < self.fields@.len() ==> (#[trigger] self.fields@[i]).well_formed(n_schemas)
    }
}

impl FieldDescriptor {
    /// A child schema only on a length-delimited field and within the
    /// registry; a declared default of the field's own kind.
    pub open spec fn well_formed(&self, n_schemas: nat) -> bool {
        &&& (self.child matches Some(c) ==> self.wire_kind == WireKind::LengthDelimited && c < n_schemas)
        &&& (self.presence matches PresenceKind::Proto2OptionalWithDefault(v) ==> value_has_kind(v@, self.wire_kind))
    }
}

impl SchemaRegistry {
    pub open spec fn well_formed(&self) -> bool {
        forall|i: int| 0 <= i < self.schemas@.len() ==> (#[trigger] self.schemas@[i]).well_formed(self.schemas@.len())
    }
}

} // verus!
