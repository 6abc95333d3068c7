//! Properties that hold of every schema and every buffer.
use vstd::prelude::*;
use crate::wire::{DecodeError, RawValue, WIRE_LEN, spec_read_tag, spec_read_value};
use crate::schema::{
    FieldDescriptor, PresenceKind, SchemaRegistry, WireKind, spec_lookup, spec_wire_type,
    lemma_lookup,
};
use crate::decode::{
    MessageModel, OneofSelection, decode_from, empty_model, find_oneof_from, is_packed,
    record, select, spec_decode, spec_selection,
};
use crate::access::{spec_effective, spec_stored, list_of};
use crate::encode::encode_values;
use crate::round_trip::{entry_ok, replay, lemma_decode_prefix};

verus! {

/// Decoding the empty buffer succeeds, for every schema and limit, with no
/// field seen, no value stored and no oneof member selected.
pub proof fn lemma_empty_buffer(reg: SchemaRegistry, id: nat, limit: nat)
    ensures
        spec_decode(reg, id, Seq::empty(), limit) == Ok::<MessageModel, DecodeError>(empty_model()),
        empty_model().presence.len() == 0,
        empty_model().values.len() == 0,
        forall|g: u32| spec_selection(empty_model(), g) is None,
{
}

/// After decoding the empty buffer, a field with a declared default has no
/// stored value, and its effective value is the default.
pub proof fn lemma_default_after_empty(reg: SchemaRegistry, id: nat, limit: nat, d: FieldDescriptor)
    requires
        d.presence is Proto2OptionalWithDefault,
    ensures
        spec_decode(reg, id, Seq::empty(), limit) matches Ok(m) && spec_stored(m, d) is None
            && spec_effective(m, d) == d.presence->Proto2OptionalWithDefault_0@,
{
}

/// After decoding the empty buffer, a repeated field's list is empty, and
/// it is a list: never an absent value.
pub proof fn lemma_repeated_after_empty(reg: SchemaRegistry, id: nat, limit: nat, d: FieldDescriptor)
    requires
        d.presence is Repeated,
    ensures
        spec_decode(reg, id, Seq::empty(), limit) matches Ok(m) && list_of(m.values, d)
            == Ok::<Seq<(u32, RawValue)>, DecodeError>(Seq::empty()),
{
}

/// The oneof group that field `n` of schema `id` belongs to, if any.
pub open spec fn group_of(reg: SchemaRegistry, id: nat, n: u32) -> Option<u32> {
    match spec_lookup(reg.schemas@[id as int], n as u64) {
        Some(d) => match d.presence {
            PresenceKind::OneofMember(g) => Some(g),
            _ => None,
        },
        None => None,
    }
}

/// The number of the last value in `vals` that belongs to a member of
/// oneof group `g`.
pub open spec fn last_member(reg: SchemaRegistry, id: nat, vals: Seq<(u32, RawValue)>, g: u32) -> Option<u32>
    decreases vals.len(),
{
    if vals.len() == 0 {
        None
    } else if group_of(reg, id, vals.last().0) == Some(g) {
        Some(vals.last().0)
    } else {
        last_member(reg, id, vals.drop_last(), g)
    }
}

/// Each group's selection is the member read last.
pub open spec fn selections_follow_wire(reg: SchemaRegistry, id: nat, m: MessageModel) -> bool {
    forall|g: u32| spec_selection(m, g) == last_member(reg, id, m.values, g)
}

proof fn lemma_find_update(s: Seq<OneofSelection>, j: int, x: OneofSelection, g: u32, i: nat)
    requires
        0 <= j < s.len(),
        s[j].oneof == x.oneof,
    ensures
        find_oneof_from(s.update(j, x), g, i) == find_oneof_from(s, g, i),
    decreases s.len() - i,
{
    if i < s.len() {
        lemma_find_update(s, j, x, g, i + 1);
    }
}

proof fn lemma_find_push(s: Seq<OneofSelection>, x: OneofSelection, g: u32, i: nat)
    requires
        i <= s.len(),
    ensures
        find_oneof_from(s.push(x), g, i) == (match find_oneof_from(s, g, i) {
            Some(k) => Some(k),
            None => if x.oneof == g { Some(s.len()) } else { None },
        }),
    decreases s.len() - i,
{
    if i < s.len() {
        assert(s.push(x)[i as int] == s[i as int]);
        lemma_find_push(s, x, g, i + 1);
    } else {
        assert(find_oneof_from(s.push(x), g, i + 1) is None);
    }
}

proof fn lemma_find_found(s: Seq<OneofSelection>, g: u32, i: nat)
    ensures
        find_oneof_from(s, g, i) matches Some(k) ==> i <= k < s.len() && s[k as int].oneof == g,
    decreases s.len() - i,
{
    if i < s.len() {
        lemma_find_found(s, g, i + 1);
    }
}

/// Selecting `n` in group `h` sets that group's selection and leaves the
/// others alone.
proof fn lemma_select(s: Seq<OneofSelection>, h: u32, n: u32, g: u32)
    ensures
        spec_selection(MessageModel { values: Seq::empty(), presence: Seq::empty(), selections: select(s, h, n) }, g)
            == if g == h { Some(n) } else {
                spec_selection(MessageModel { values: Seq::empty(), presence: Seq::empty(), selections: s }, g)
            },
{
    let x = OneofSelection { oneof: h, field: n };
    lemma_find_found(s, h, 0);
    lemma_find_found(s, g, 0);
    match find_oneof_from(s, h, 0) {
        Some(j) => {
            lemma_find_update(s, j as int, x, g, 0);
        },
        None => {
            lemma_find_push(s, x, g, 0);
        },
    }
}

/// Reading one value of field `d` keeps selections following the wire.
proof fn lemma_record_keeps(reg: SchemaRegistry, id: nat, m: MessageModel, d: FieldDescriptor, v: RawValue)
    requires
        selections_follow_wire(reg, id, m),
        spec_lookup(reg.schemas@[id as int], d.number as u64) == Some(d),
    ensures
        selections_follow_wire(reg, id, record(m, d, v)),
{
    let r = record(m, d, v);
    assert(r.values.drop_last() =~= m.values);
    assert forall|g: u32| spec_selection(r, g) == last_member(reg, id, r.values, g) by {
        lemma_select(m.selections, d.presence->OneofMember_0, d.number, g);
        assert(spec_selection(m, g) == spec_selection(MessageModel { values: Seq::empty(), presence: Seq::empty(), selections: m.selections }, g));
        assert(spec_selection(r, g) == spec_selection(MessageModel { values: Seq::empty(), presence: Seq::empty(), selections: r.selections }, g));
    }
}

proof fn lemma_decode_from_keeps(reg: SchemaRegistry, id: nat, buf: Seq<u8>, pos: nat, depth: nat, limit: nat, acc: MessageModel)
    requires
        selections_follow_wire(reg, id, acc),
    ensures
        decode_from(reg, id, buf, pos, depth, limit, acc) matches Ok(m) ==> selections_follow_wire(reg, id, m),
    decreases buf.len() - pos,
{
    if pos < buf.len() {
        crate::wire::lemma_read_tag_advances(buf, pos as int);
        if let Ok((n, wt, p1)) = spec_read_tag(buf, pos as int) {
            crate::wire::lemma_read_value_advances(buf, p1, wt);
            lemma_lookup(reg.schemas@[id as int], n, 0);
            match spec_lookup(reg.schemas@[id as int], n) {
                None => {
                    if let Ok((_, p2)) = spec_read_value(buf, p1, wt) {
                        lemma_decode_from_keeps(reg, id, buf, p2 as nat, depth, limit, acc);
                    }
                },
                Some(d) => {
                    if let Ok((v, p2)) = spec_read_value(buf, p1, wt) {
                        if is_packed(d, wt) {
                            lemma_record_keeps(reg, id, acc, d, v);
                            lemma_decode_from_keeps(reg, id, buf, p2 as nat, depth, limit, record(acc, d, v));
                        } else if wt == spec_wire_type(d.wire_kind) {
                            lemma_record_keeps(reg, id, acc, d, v);
                            lemma_decode_from_keeps(reg, id, buf, p2 as nat, depth, limit, record(acc, d, v));
                        }
                    }
                },
            }
        }
    }
}

/// Last one wins: after a successful decode, the member selected in each
/// oneof group is the member whose value came last on the wire.
pub proof fn lemma_oneof_last_wins(reg: SchemaRegistry, id: nat, buf: Seq<u8>, limit: nat)
    ensures
        spec_decode(reg, id, buf, limit) matches Ok(m) ==> forall|g: u32|
            spec_selection(m, g) == last_member(reg, id, m.values, g),
{
    lemma_decode_from_keeps(reg, id, buf, 0, 0, limit, empty_model());
}

/// `buf` opens with known fields of schema `id` in canonical form, `s`,
/// each of which decoding `depth` levels deep reads back as itself.
pub open spec fn canonical_prefix(reg: SchemaRegistry, id: nat, buf: Seq<u8>, s: Seq<(u32, RawValue)>, depth: nat, limit: nat) -> bool {
    &&& forall|i: int| 0 <= i < s.len() ==> #[trigger] entry_ok(reg, id, depth, limit, s[i])
    &&& encode_values(s).len() <= buf.len()
    &&& buf.subrange(0, encode_values(s).len() as int) == encode_values(s)
}

/// At `pos`, `buf` holds a field that opens a chain of `ps.len() + 1`
/// embedded messages, one inside the other. Inside the message at level
/// `i + 1`, the fields `ps[i]` in canonical form come before the next link.
pub open spec fn nests(reg: SchemaRegistry, id: nat, buf: Seq<u8>, pos: nat, depth: nat, limit: nat, ps: Seq<Seq<(u32, RawValue)>>) -> bool
    decreases ps.len(),
{
    match spec_read_tag(buf, pos as int) {
        Ok((n, wt, p1)) => match spec_lookup(reg.schemas@[id as int], n) {
            Some(d) => match (d.child, spec_read_value(buf, p1, wt)) {
                (Some(c), Ok((RawValue::Bytes(b), _))) => d.wire_kind == WireKind::LengthDelimited
                    && wt == WIRE_LEN && (ps.len() > 0 ==> canonical_prefix(reg, c as nat, b, ps[0], depth + 1, limit)
                    && nests(reg, c as nat, b, encode_values(ps[0]).len(), depth + 1, limit, ps.drop_first())),
                _ => false,
            },
            None => false,
        },
        Err(_) => false,
    }
}

/// Decoding that reaches the start of a chain deeper than the levels left
/// fails with `RecursionLimitExceeded`.
pub proof fn lemma_nested_fails(reg: SchemaRegistry, id: nat, buf: Seq<u8>, pos: nat, ps: Seq<Seq<(u32, RawValue)>>, depth: nat, limit: nat, acc: MessageModel)
    requires
        nests(reg, id, buf, pos, depth, limit, ps),
        depth <= limit,
        depth + ps.len() + 1 > limit,
    ensures
        decode_from(reg, id, buf, pos, depth, limit, acc) == Err::<MessageModel, DecodeError>(DecodeError::RecursionLimitExceeded),
    decreases ps.len(),
{
    crate::wire::lemma_read_tag_advances(buf, pos as int);
    if let Ok((n, wt, p1)) = spec_read_tag(buf, pos as int) {
        if let Some(d) = spec_lookup(reg.schemas@[id as int], n) {
            if let (Some(c), Ok((RawValue::Bytes(b), _))) = (d.child, spec_read_value(buf, p1, wt)) {
                if depth + 1 <= limit {
                    let s = ps[0];
                    assert(s.take(0) =~= Seq::<(u32, RawValue)>::empty());
                    assert(replay(reg, c as nat, Seq::empty()) == empty_model());
                    lemma_decode_prefix(reg, c as nat, b, s, 0, depth + 1, limit);
                    lemma_nested_fails(reg, c as nat, b, encode_values(s).len(), ps.drop_first(), depth + 1, limit, replay(reg, c as nat, s));
                }
            }
        }
    }
}

/// A buffer that nests embedded messages more than `limit` levels deep fails
/// with `RecursionLimitExceeded`, wherever the chain stands: other fields in
/// canonical form may come before it, `s` at the top and `ps[i]` inside the
/// message at level `i + 1`.
pub proof fn lemma_recursion_limit(reg: SchemaRegistry, id: nat, s: Seq<(u32, RawValue)>, ps: Seq<Seq<(u32, RawValue)>>, buf: Seq<u8>, limit: nat)
    requires
        canonical_prefix(reg, id, buf, s, 0, limit),
        nests(reg, id, buf, encode_values(s).len(), 0, limit, ps),
        ps.len() + 1 > limit,
    ensures
        spec_decode(reg, id, buf, limit) == Err::<MessageModel, DecodeError>(DecodeError::RecursionLimitExceeded),
{
    assert(s.take(0) =~= Seq::<(u32, RawValue)>::empty());
    lemma_decode_prefix(reg, id, buf, s, 0, 0, limit);
    lemma_nested_fails(reg, id, buf, encode_values(s).len(), ps, 0, limit, replay(reg, id, s));
}

} // verus!
