//! Queries on a decoded message: which fields were seen, the value stored
//! for a field, and the value a reader gets once defaults are applied.
use vstd::prelude::*;
use crate::wire::{DecodeError, RawValue, WireValue};
use crate::schema::{
    FieldDescriptor, PresenceKind, SchemaRegistry, WireKind, spec_zero_value, zero_value,
};
use crate::decode::{
    FieldEntry, MessageModel, MessageValue, entries_view,
    find_oneof_from, lemma_view, spec_selection, spec_decode, model_of, empty_model, decode_with_limit, unpack,
    unpack_into,
};

verus! {

broadcast use lemma_view;

/// The last value of field `n` among `vals`.
pub open spec fn last_value_of(vals: Seq<(u32, RawValue)>, n: u32) -> Option<RawValue>
    decreases vals.len(),
{
    if vals.len() == 0 {
        None
    } else if vals.last().0 == n {
        Some(vals.last().1)
    } else {
        last_value_of(vals.drop_last(), n)
    }
}

/// Whether a value of field `d` is a packed span of its elements.
pub open spec fn is_span(d: FieldDescriptor, v: RawValue) -> bool {
    v is Bytes && d.presence is Repeated && d.wire_kind != WireKind::LengthDelimited
}

/// The elements of repeated field `d` among `vals`, in wire order: a packed
/// span gives its elements, any other value of `d` itself.
pub open spec fn list_of(vals: Seq<(u32, RawValue)>, d: FieldDescriptor) -> Result<Seq<(u32, RawValue)>, DecodeError>
    decreases vals.len(),
{
    if vals.len() == 0 {
        Ok(Seq::empty())
    } else {
        match list_of(vals.drop_last(), d) {
            Err(e) => Err(e),
            Ok(acc) => if vals.last().0 != d.number {
                Ok(acc)
            } else if is_span(d, vals.last().1) {
                unpack(vals.last().1->Bytes_0, 0, d, acc)
            } else {
                Ok(acc.push(vals.last()))
            },
        }
    }
}

proof fn lemma_list_err(s: Seq<(u32, RawValue)>, d: FieldDescriptor, k: int, e: DecodeError)
    requires
        0 <= k <= s.len(),
        list_of(s.take(k), d) == Err::<Seq<(u32, RawValue)>, DecodeError>(e),
    ensures
        list_of(s, d) == Err::<Seq<(u32, RawValue)>, DecodeError>(e),
    decreases s.len() - k,
{
    if k == s.len() {
        assert(s.take(k) =~= s);
    } else {
        assert(s.take(k + 1).drop_last() =~= s.take(k));
        lemma_list_err(s, d, k + 1, e);
    }
}

/// The value stored for a singular or oneof field: the last one read, where
/// the field is present or is its group's selected member.
pub open spec fn spec_stored(m: MessageModel, d: FieldDescriptor) -> Option<RawValue> {
    match d.presence {
        PresenceKind::Repeated => None,
        PresenceKind::OneofMember(g) => if spec_selection(m, g) == Some(d.number) {
            last_value_of(m.values, d.number)
        } else {
            None
        },
        _ => if m.presence.contains(d.number) {
            last_value_of(m.values, d.number)
        } else {
            None
        },
    }
}

/// The value a reader gets: the stored one, else the declared default, else
/// the zero of the field's kind.
pub open spec fn spec_effective(m: MessageModel, d: FieldDescriptor) -> RawValue {
    match spec_stored(m, d) {
        Some(v) => v,
        None => match d.presence {
            PresenceKind::Proto2OptionalWithDefault(v) => v@,
            _ => spec_zero_value(d.wire_kind),
        },
    }
}

impl MessageValue {
    /// Whether field `n` was seen on the wire.
    pub fn is_present(&self, n: u32) -> (r: bool)
        ensures
            r == self@.presence.contains(n),
    {
        let mut i: usize = 0;
        while i < self.presence.len()
            invariant
                i <= self.presence@.len(),
                forall|j: int| 0 <= j < i ==> self.presence@[j] != n,
            decreases self.presence@.len() - i,
        {
            if self.presence[i] == n {
                return true;
            }
            i = i + 1;
        }
        false
    }

    /// The member selected in oneof group `g`, if any.
    pub fn oneof_selection(&self, g: u32) -> (r: Option<u32>)
        ensures
            r == spec_selection(self@, g),
    {
        let mut i: usize = 0;
        while i < self.selections.len()
            invariant
                i <= self.selections@.len(),
                find_oneof_from(self.selections@, g, 0) == find_oneof_from(self.selections@, g, i as nat),
            decreases self.selections@.len() - i,
        {
            if self.selections[i].oneof == g {
                return Some(self.selections[i].field);
            }
            i = i + 1;
        }
        None
    }

    fn last_value(&self, n: u32) -> (r: Option<WireValue>)
        ensures
            match r {
                Some(v) => last_value_of(self@.values, n) == Some(v@),
                None => last_value_of(self@.values, n) is None,
            },
    {
        let mut i: usize = self.values.len();
        assert(self@.values.take(i as int) =~= self@.values);
        while i > 0
            invariant
                i <= self.values@.len(),
                last_value_of(self@.values, n) == last_value_of(self@.values.take(i as int), n),
            decreases i,
        {
            assert(self@.values.take(i as int).drop_last() =~= self@.values.take(i - 1));
            if self.values[i - 1].number == n {
                return Some(self.values[i - 1].value.duplicate());
            }
            i = i - 1;
        }
        None
    }

    /// The stored value of a singular or oneof field, or `None` where it is
    /// absent. A repeated field has a list instead: see `repeated_values`.
    pub fn stored_value(&self, d: &FieldDescriptor) -> (r: Option<WireValue>)
        requires
            !(d.presence is Repeated),
        ensures
            match r {
                Some(v) => spec_stored(self@, *d) == Some(v@),
                None => spec_stored(self@, *d) is None,
            },
    {
        match d.presence {
            PresenceKind::Repeated => None,
            PresenceKind::OneofMember(g) => {
                match self.oneof_selection(g) {
                    Some(f) => if f == d.number {
                        self.last_value(d.number)
                    } else {
                        None
                    },
                    None => None,
                }
            },
            _ => if self.is_present(d.number) {
                self.last_value(d.number)
            } else {
                None
            },
        }
    }

    /// The value of a singular or oneof field with defaults applied.
    pub fn effective_value(&self, d: &FieldDescriptor) -> (r: WireValue)
        requires
            !(d.presence is Repeated),
        ensures
            r@ == spec_effective(self@, *d),
    {
        match self.stored_value(d) {
            Some(v) => v,
            None => match &d.presence {
                PresenceKind::Proto2OptionalWithDefault(v) => v.duplicate(),
                _ => zero_value(d.wire_kind),
            },
        }
    }

    /// The elements of repeated field `d`, in wire order. Decoding has
    /// checked every packed span, so only a message put together by hand can
    /// give an error.
    pub fn repeated_values(&self, d: &FieldDescriptor) -> (r: Result<Vec<FieldEntry>, DecodeError>)
        ensures
            match r {
                Ok(out) => list_of(self@.values, *d) == Ok::<Seq<(u32, RawValue)>, DecodeError>(entries_view(out@)),
                Err(e) => list_of(self@.values, *d) == Err::<Seq<(u32, RawValue)>, DecodeError>(e),
            },
    {
        let mut out: Vec<FieldEntry> = Vec::new();
        let mut i: usize = 0;
        assert(self@.values.take(0) =~= Seq::<(u32, RawValue)>::empty());
        assert(entries_view(out@) =~= Seq::<(u32, RawValue)>::empty());
        while i < self.values.len()
            invariant
                i <= self.values@.len(),
                list_of(self@.values.take(i as int), *d) == Ok::<Seq<(u32, RawValue)>, DecodeError>(entries_view(out@)),
            decreases self.values@.len() - i,
        {
            assert(self@.values.take(i + 1).drop_last() =~= self@.values.take(i as int));
            assert(self@.values.take(i + 1).last() == self@.values[i as int]);
            let e = &self.values[i];
            if e.number == d.number {
                let span = matches!(d.presence, PresenceKind::Repeated) && d.wire_kind != WireKind::LengthDelimited;
                match &e.value {
                    WireValue::Bytes(b) if span => {
                        match unpack_into(b.as_slice(), d, &mut out) {
                            Ok(()) => {},
                            Err(err) => {
                                proof {
                                    lemma_list_err(self@.values, *d, i + 1, err);
                                }
                                return Err(err);
                            },
                        }
                    },
                    _ => {
                        let ghost before = out@;
                        out.push(FieldEntry { number: e.number, value: e.value.duplicate() });
                        assert(entries_view(out@) =~= entries_view(before).push(self@.values[i as int]));
                    },
                }
            }
            i = i + 1;
        }
        assert(self@.values.take(self.values@.len() as int) =~= self@.values);
        Ok(out)
    }

    /// The embedded message in field `d`, decoded with at most `limit` levels
    /// of messages inside it. Where the field is absent this is the message
    /// with every field absent, so that reading its fields gives their own
    /// defaults.
    pub fn child_message(&self, reg: &SchemaRegistry, d: &FieldDescriptor, limit: usize) -> (r: Result<MessageValue, DecodeError>)
        requires
            reg.well_formed(),
            d.well_formed(reg.schemas@.len()),
            d.child is Some,
            !(d.presence is Repeated),
        ensures
            match spec_stored(self@, *d) {
                Some(RawValue::Bytes(b)) => model_of(r) == spec_decode(*reg, d.child.unwrap() as nat, b, limit as nat),
                _ => r matches Ok(m) && m@ == empty_model(),
            },
    {
        let c = match d.child {
            Some(c) => c,
            None => return Ok(MessageValue::empty()),
        };
        match self.stored_value(d) {
            Some(WireValue::Bytes(b)) => decode_with_limit(reg, c, b.as_slice(), limit),
            _ => Ok(MessageValue::empty()),
        }
    }
}

} // verus!
