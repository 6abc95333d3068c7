//! The message decoder: runs the wire readers against a schema and records
//! every known field's values, the presence of singular fields and the
//! current member of each oneof group.
use vstd::prelude::*;
use crate::wire::{
    DecodeError, RawValue, WireValue, WIRE_LEN, spec_read_tag, spec_read_value, read_tag,
    read_value, lemma_read_tag_advances, lemma_read_value_advances,
};
use crate::schema::{
    FieldDescriptor, MessageSchema, PresenceKind, SchemaRegistry, WireKind, spec_lookup,
    spec_wire_type, wire_type, lemma_lookup,
};

verus! {

/// How deeply embedded messages may nest unless the caller says otherwise.
pub const DEFAULT_RECURSION_LIMIT: usize = 100;

/// One value of a known field, in the order met on the wire.
#[derive(Clone, Debug, PartialEq, Eq)]
pub struct FieldEntry {
    pub number: u32,
    pub value: WireValue,
}

/// The member currently selected in a oneof group.
#[derive(Clone, Copy, Debug, PartialEq, Eq, Structural)]
pub struct OneofSelection {
    pub oneof: u32,
    pub field: u32,
}

/// A decoded message. An embedded message is kept as its bytes, which the
/// decoder has checked to decode against the child schema.
#[derive(Clone, Debug, PartialEq, Eq)]
pub struct MessageValue {
    /// The values of the known fields, in wire order. A packed span is one
    /// entry that holds the span's bytes, checked to hold whole elements.
    pub(crate) values: Vec<FieldEntry>,
    /// The numbers of the fields seen, each once, in order of first sight.
    /// Oneof members are tracked by `selections` instead.
    pub(crate) presence: Vec<u32>,
    /// One entry per oneof group that has a member selected.
    pub(crate) selections: Vec<OneofSelection>,
}

/// The mathematical form of a `MessageValue`.
pub struct MessageModel {
    pub values: Seq<(u32, RawValue)>,
    pub presence: Seq<u32>,
    pub selections: Seq<OneofSelection>,
}

pub open spec fn entries_view(s: Seq<FieldEntry>) -> Seq<(u32, RawValue)> {
    s.map_values(|e: FieldEntry| (e.number, e.value@))
}

impl View for MessageValue {
    type V = MessageModel;

    closed spec fn view(&self) -> MessageModel {
        MessageModel {
            values: entries_view(self.values@),
            presence: self.presence@,
            selections: self.selections@,
        }
    }
}

/// What a message's view is made of.
pub(crate) broadcast proof fn lemma_view(m: &MessageValue)
    ensures
        #[trigger] m@ == (MessageModel {
            values: entries_view(m.values@),
            presence: m.presence@,
            selections: m.selections@,
        }),
{
}

/// The message that holds nothing.
pub open spec fn empty_model() -> MessageModel {
    MessageModel { values: Seq::empty(), presence: Seq::empty(), selections: Seq::empty() }
}

/// Presence with field `n` marked.
pub open spec fn mark(p: Seq<u32>, n: u32) -> Seq<u32> {
    if p.contains(n) {
        p
    } else {
        p.push(n)
    }
}

/// The index of the entry for oneof group `g`, searching from `i`.
pub open spec fn find_oneof_from(s: Seq<OneofSelection>, g: u32, i: nat) -> Option<nat>
    decreases s.len() - i,
{
    if i >= s.len() {
        None
    } else if s[i as int].oneof == g {
        Some(i)
    } else {
        find_oneof_from(s, g, i + 1)
    }
}

/// Selections with member `n` selected in group `g`, replacing any other.
pub open spec fn select(s: Seq<OneofSelection>, g: u32, n: u32) -> Seq<OneofSelection> {
    match find_oneof_from(s, g, 0) {
        Some(j) => s.update(j as int, OneofSelection { oneof: g, field: n }),
        None => s.push(OneofSelection { oneof: g, field: n }),
    }
}

/// The member selected in group `g`, if any.
pub open spec fn spec_selection(m: MessageModel, g: u32) -> Option<u32> {
    match find_oneof_from(m.selections, g, 0) {
        Some(j) => Some(m.selections[j as int].field),
        None => None,
    }
}

/// The message after a value `v` of field `d` is read.
pub open spec fn record(m: MessageModel, d: FieldDescriptor, v: RawValue) -> MessageModel {
    MessageModel {
        values: m.values.push((d.number, v)),
        presence: match d.presence {
            PresenceKind::OneofMember(_) => m.presence,
            _ => mark(m.presence, d.number),
        },
        selections: match d.presence {
            PresenceKind::OneofMember(g) => select(m.selections, g, d.number),
            _ => m.selections,
        },
    }
}

/// A repeated scalar field sent as one length-delimited span.
pub open spec fn is_packed(d: FieldDescriptor, wt: u64) -> bool {
    d.presence is Repeated && d.wire_kind != WireKind::LengthDelimited && wt == WIRE_LEN
}

/// The elements of a packed span from `pos` on, appended to `values`.
pub open spec fn unpack(bytes: Seq<u8>, pos: nat, d: FieldDescriptor, values: Seq<(u32, RawValue)>) -> Result<Seq<(u32, RawValue)>, DecodeError>
    decreases bytes.len() - pos,
    via unpack_decreases
{
    if pos >= bytes.len() {
        Ok(values)
    } else {
        match spec_read_value(bytes, pos as int, spec_wire_type(d.wire_kind)) {
            Err(e) => Err(e),
            Ok((v, p)) => unpack(bytes, p as nat, d, values.push((d.number, v))),
        }
    }
}

#[via_fn]
proof fn unpack_decreases(bytes: Seq<u8>, pos: nat, d: FieldDescriptor, values: Seq<(u32, RawValue)>) {
    lemma_read_value_advances(bytes, pos as int, spec_wire_type(d.wire_kind));
}

/// Decodes the fields of schema `id` in `buf` from `pos` on into `acc`, for
/// a message nested `depth` levels deep, with at most `limit` levels.
pub open spec fn decode_from(reg: SchemaRegistry, id: nat, buf: Seq<u8>, pos: nat, depth: nat, limit: nat, acc: MessageModel) -> Result<MessageModel, DecodeError>
    decreases buf.len(), buf.len() - pos,
    via decode_from_decreases
{
    if pos >= buf.len() {
        Ok(acc)
    } else {
        match spec_read_tag(buf, pos as int) {
            Err(e) => Err(e),
            Ok((n, wt, p1)) => match spec_lookup(reg.schemas@[id as int], n) {
                None => match spec_read_value(buf, p1, wt) {
                    Err(e) => Err(e),
                    Ok((_, p2)) => decode_from(reg, id, buf, p2 as nat, depth, limit, acc),
                },
                Some(d) => if is_packed(d, wt) {
                    match spec_read_value(buf, p1, wt) {
                        Err(e) => Err(e),
                        Ok((v, p2)) => match unpack(v->Bytes_0, 0, d, Seq::empty()) {
                            Err(e) => Err(e),
                            Ok(_) => decode_from(reg, id, buf, p2 as nat, depth, limit, record(acc, d, v)),
                        },
                    }
                } else if wt != spec_wire_type(d.wire_kind) {
                    Err(DecodeError::WireTypeMismatch)
                } else {
                    match spec_read_value(buf, p1, wt) {
                        Err(e) => Err(e),
                        Ok((v, p2)) => match (d.child, v) {
                            (Some(c), RawValue::Bytes(b)) => if depth + 1 > limit {
                                Err(DecodeError::RecursionLimitExceeded)
                            } else {
                                match decode_from(reg, c as nat, b, 0, depth + 1, limit, empty_model()) {
                                    Err(e) => Err(e),
                                    Ok(_) => decode_from(reg, id, buf, p2 as nat, depth, limit, record(acc, d, v)),
                                }
                            },
                            _ => decode_from(reg, id, buf, p2 as nat, depth, limit, record(acc, d, v)),
                        },
                    }
                },
            },
        }
    }
}

#[via_fn]
proof fn decode_from_decreases(reg: SchemaRegistry, id: nat, buf: Seq<u8>, pos: nat, depth: nat, limit: nat, acc: MessageModel) {
    lemma_read_tag_advances(buf, pos as int);
    if let Ok((n, wt, p1)) = spec_read_tag(buf, pos as int) {
        lemma_read_value_advances(buf, p1, wt);
    }
}

/// What decoding `buf` against schema `id` gives, with at most `limit`
/// levels of embedded messages.
pub open spec fn spec_decode(reg: SchemaRegistry, id: nat, buf: Seq<u8>, limit: nat) -> Result<MessageModel, DecodeError> {
    decode_from(reg, id, buf, 0, 0, limit, empty_model())
}

pub open spec fn model_of(r: Result<MessageValue, DecodeError>) -> Result<MessageModel, DecodeError> {
    match r {
        Ok(m) => Ok(m@),
        Err(e) => Err(e),
    }
}

impl MessageValue {
    /// The values of the known fields, in wire order.
    pub fn values(&self) -> (r: &[FieldEntry])
        ensures
            entries_view(r@) == self@.values,
    {
        self.values.as_slice()
    }

    /// The numbers of the fields seen, each once, in order of first sight.
    pub fn presence(&self) -> (r: &[u32])
        ensures
            r@ == self@.presence,
    {
        self.presence.as_slice()
    }

    /// The member selected in each oneof group that has one.
    pub fn selections(&self) -> (r: &[OneofSelection])
        ensures
            r@ == self@.selections,
    {
        self.selections.as_slice()
    }

    /// The message that holds nothing.
    pub fn empty() -> (r: MessageValue)
        ensures
            r@ == empty_model(),
    {
        let r = MessageValue { values: Vec::new(), presence: Vec::new(), selections: Vec::new() };
        assert(r@.values =~= Seq::<(u32, RawValue)>::empty());
        r
    }

    fn mark_present(&mut self, n: u32)
        ensures
            final(self)@ == (MessageModel { presence: mark(old(self)@.presence, n), ..old(self)@ }),
    {
        let mut i: usize = 0;
        while i < self.presence.len()
            invariant
                i <= self.presence@.len(),
                forall|j: int| 0 <= j < i ==> self.presence@[j] != n,
            decreases self.presence@.len() - i,
        {
            if self.presence[i] == n {
                assert(self.presence@.contains(n)) by {
                    assert(self.presence@[i as int] == n);
                }
                return;
            }
            i = i + 1;
        }
        self.presence.push(n);
    }

    fn select(&mut self, g: u32, n: u32)
        ensures
            final(self)@ == (MessageModel { selections: select(old(self)@.selections, g, n), ..old(self)@ }),
    {
        let mut i: usize = 0;
        while i < self.selections.len()
            invariant
                i <= self.selections@.len(),
                *self == *old(self),
                find_oneof_from(self.selections@, g, 0) == find_oneof_from(self.selections@, g, i as nat),
            decreases self.selections@.len() - i,
        {
            if self.selections[i].oneof == g {
                let ghost before = self.selections@;
                self.selections.set(i, OneofSelection { oneof: g, field: n });
                assert(self.selections@ =~= select(before, g, n));
                return;
            }
            i = i + 1;
        }
        let ghost before = self.selections@;
        self.selections.push(OneofSelection { oneof: g, field: n });
        assert(self.selections@ =~= select(before, g, n));
    }

    fn record(&mut self, d: &FieldDescriptor, v: WireValue)
        ensures
            final(self)@ == record(old(self)@, *d, v@),
    {
        let ghost old_values = self.values@;
        self.values.push(FieldEntry { number: d.number, value: v });
        assert(entries_view(self.values@) =~= entries_view(old_values).push((d.number, v@)));
        match d.presence {
            PresenceKind::OneofMember(g) => self.select(g, d.number),
            _ => self.mark_present(d.number),
        }
    }
}

pub(crate) fn unpack_into(bytes: &[u8], d: &FieldDescriptor, values: &mut Vec<FieldEntry>) -> (r: Result<(), DecodeError>)
    ensures
        match r {
            Ok(()) => unpack(bytes@, 0, *d, entries_view(old(values)@)) == Ok::<Seq<(u32, RawValue)>, DecodeError>(entries_view(final(values)@)),
            Err(e) => unpack(bytes@, 0, *d, entries_view(old(values)@)) == Err::<Seq<(u32, RawValue)>, DecodeError>(e),
        },
{
    let wt = wire_type(d.wire_kind);
    let mut pos: usize = 0;
    while pos < bytes.len()
        invariant
            pos <= bytes@.len(),
            wt == spec_wire_type(d.wire_kind),
            unpack(bytes@, 0, *d, entries_view(old(values)@)) == unpack(bytes@, pos as nat, *d, entries_view(values@)),
        decreases bytes@.len() - pos,
    {
        let (v, p) = match read_value(bytes, pos, wt) {
            Ok(x) => x,
            Err(e) => return Err(e),
        };
        proof {
            lemma_read_value_advances(bytes@, pos as int, wt);
        }
        let ghost before = values@;
        values.push(FieldEntry { number: d.number, value: v });
        assert(entries_view(values@) =~= entries_view(before).push((d.number, v@)));
        pos = p;
    }
    Ok(())
}

/// Decodes `buf` as a message of schema `id` nested `depth` levels deep.
/// It calls itself only one level deeper and never past `limit`, so at most
/// `limit + 1` calls are ever open at once.
fn decode_at(reg: &SchemaRegistry, id: usize, buf: &[u8], depth: usize, limit: usize) -> (r: Result<MessageValue, DecodeError>)
    requires
        reg.well_formed(),
        id < reg.schemas@.len(),
        depth <= limit,
    ensures
        model_of(r) == decode_from(*reg, id as nat, buf@, 0, depth as nat, limit as nat, empty_model()),
    decreases buf@.len(),
{
    let mut m = MessageValue::empty();
    let mut pos: usize = 0;
    let schema: &MessageSchema = &reg.schemas[id];
    proof {
        assert(schema.well_formed(reg.schemas@.len()));
    }
    while pos < buf.len()
        invariant
            pos <= buf@.len(),
            reg.well_formed(),
            *schema == reg.schemas@[id as int],
            schema.well_formed(reg.schemas@.len()),
            decode_from(*reg, id as nat, buf@, 0, depth as nat, limit as nat, empty_model())
                == decode_from(*reg, id as nat, buf@, pos as nat, depth as nat, limit as nat, m@),
        decreases buf@.len() - pos,
    {
        let (n, wt, p1) = match read_tag(buf, pos) {
            Ok(x) => x,
            Err(e) => return Err(e),
        };
        proof {
            lemma_read_tag_advances(buf@, pos as int);
            lemma_read_value_advances(buf@, p1 as int, wt);
            lemma_lookup(*schema, n, reg.schemas@.len());
        }
        match schema.lookup(n) {
            None => {
                let (_, p2) = match read_value(buf, p1, wt) {
                    Ok(x) => x,
                    Err(e) => return Err(e),
                };
                pos = p2;
            },
            Some(d) => {
                if matches!(d.presence, PresenceKind::Repeated) && d.wire_kind != WireKind::LengthDelimited && wt == WIRE_LEN {
                    assert(is_packed(*d, wt));
                    let (v, p2) = match read_value(buf, p1, wt) {
                        Ok(x) => x,
                        Err(e) => return Err(e),
                    };
                    match &v {
                        WireValue::Bytes(b) => {
                            let mut elements: Vec<FieldEntry> = Vec::new();
                            assert(entries_view(elements@) =~= Seq::<(u32, RawValue)>::empty());
                            match unpack_into(b.as_slice(), d, &mut elements) {
                                Ok(()) => {},
                                Err(e) => return Err(e),
                            }
                        },
                        _ => {},
                    }
                    m.record(d, v);
                    pos = p2;
                } else if wt != wire_type(d.wire_kind) {
                    return Err(DecodeError::WireTypeMismatch);
                } else {
                    let (v, p2) = match read_value(buf, p1, wt) {
                        Ok(x) => x,
                        Err(e) => return Err(e),
                    };
                    match (d.child, &v) {
                        (Some(c), WireValue::Bytes(b)) => {
                            if depth >= limit {
                                return Err(DecodeError::RecursionLimitExceeded);
                            }
                            match decode_at(reg, c, b.as_slice(), depth + 1, limit) {
                                Ok(_) => {},
                                Err(e) => return Err(e),
                            }
                        },
                        _ => {},
                    }
                    m.record(d, v);
                    pos = p2;
                }
            },
        }
    }
    Ok(m)
}

/// Decodes `buf` as a message of schema `id`, allowing embedded messages to
/// nest at most `limit` levels deep.
pub fn decode_with_limit(reg: &SchemaRegistry, id: usize, buf: &[u8], limit: usize) -> (r: Result<MessageValue, DecodeError>)
    requires
        reg.well_formed(),
        id < reg.schemas@.len(),
    ensures
        model_of(r) == spec_decode(*reg, id as nat, buf@, limit as nat),
{
    decode_at(reg, id, buf, 0, limit)
}

/// Decodes `buf` as a message of schema `id`, allowing embedded messages to
/// nest `DEFAULT_RECURSION_LIMIT` levels deep.
pub fn decode(reg: &SchemaRegistry, id: usize, buf: &[u8]) -> (r: Result<MessageValue, DecodeError>)
    requires
        reg.well_formed(),
        id < reg.schemas@.len(),
    ensures
        model_of(r) == spec_decode(*reg, id as nat, buf@, DEFAULT_RECURSION_LIMIT as nat),
        buf@.len() == 0 ==> (r matches Ok(m) && m@ == empty_model()),
{
    decode_at(reg, id, buf, 0, DEFAULT_RECURSION_LIMIT)
}

} // verus!
