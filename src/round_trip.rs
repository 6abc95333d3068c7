//! Decoding what the encoder writes for a decoded message gives that
//! message back, and a canonical buffer survives decoding and encoding.
use vstd::prelude::*;
use crate::wire::{DecodeError, RawValue, spec_read_tag, spec_read_value, lemma_read_tag_advances, lemma_read_value_advances};
use crate::schema::{SchemaRegistry, spec_lookup, spec_wire_type, value_has_kind, lemma_lookup};
use crate::decode::{MessageModel, decode_from, empty_model, is_packed, record, spec_decode, unpack};
use crate::access::is_span;
use crate::encode::{encode_entry, encode_values, raw_wire_type, tag_len, lemma_entry_round_trip};

verus! {

/// The message that reading the values `s` one by one against schema `id`
/// builds.
pub open spec fn replay(reg: SchemaRegistry, id: nat, s: Seq<(u32, RawValue)>) -> MessageModel
    decreases s.len(),
{
    if s.len() == 0 {
        empty_model()
    } else {
        match spec_lookup(reg.schemas@[id as int], s.last().0 as u64) {
            Some(d) => record(replay(reg, id, s.drop_last()), d, s.last().1),
            None => replay(reg, id, s.drop_last()),
        }
    }
}

/// A value that decoding schema `id`, `depth` levels deep, would read back
/// as itself: a value of the field's own kind, or a packed span of whole
/// elements; an embedded message that decodes one level deeper.
pub open spec fn entry_ok(reg: SchemaRegistry, id: nat, depth: nat, limit: nat, e: (u32, RawValue)) -> bool {
    match spec_lookup(reg.schemas@[id as int], e.0 as u64) {
        None => false,
        Some(d) => {
            &&& d.number == e.0
            &&& (e.1 matches RawValue::Bytes(b) ==> b.len() <= u64::MAX)
            &&& if is_span(d, e.1) {
                unpack(e.1->Bytes_0, 0, d, Seq::empty()) is Ok
            } else {
                value_has_kind(e.1, d.wire_kind)
            }
            &&& (d.child matches Some(c) ==> (e.1 matches RawValue::Bytes(b) ==> depth + 1 <= limit
                && decode_from(reg, c as nat, b, 0, depth + 1, limit, empty_model()) is Ok))
        },
    }
}

proof fn lemma_kind_wire_type(v: RawValue, k: crate::schema::WireKind)
    ensures
        value_has_kind(v, k) <==> raw_wire_type(v) == spec_wire_type(k),
{
}

proof fn lemma_replay_values(reg: SchemaRegistry, id: nat, s: Seq<(u32, RawValue)>)
    requires
        forall|i: int| 0 <= i < s.len() ==> #[trigger] spec_lookup(reg.schemas@[id as int], s[i].0 as u64) is Some,
    ensures
        replay(reg, id, s).values == s,
    decreases s.len(),
{
    if s.len() > 0 {
        assert(spec_lookup(reg.schemas@[id as int], s[s.len() - 1].0 as u64) is Some);
        lemma_replay_values(reg, id, s.drop_last());
        lemma_lookup(reg.schemas@[id as int], s.last().0 as u64, 0);
        assert(s.drop_last().push(s.last()) =~= s);
    }
}

proof fn lemma_replay_push(reg: SchemaRegistry, id: nat, s: Seq<(u32, RawValue)>, e: (u32, RawValue))
    requires
        spec_lookup(reg.schemas@[id as int], e.0 as u64) is Some,
    ensures
        replay(reg, id, s.push(e)) == record(replay(reg, id, s), spec_lookup(reg.schemas@[id as int], e.0 as u64)->Some_0, e.1),
{
    assert(s.push(e).drop_last() =~= s);
}

proof fn lemma_encode_prefix(s: Seq<(u32, RawValue)>, k: nat)
    requires
        k <= s.len(),
    ensures
        encode_values(s.take(k as int)).len() <= encode_values(s).len(),
        encode_values(s).subrange(0, encode_values(s.take(k as int)).len() as int) == encode_values(s.take(k as int)),
    decreases s.len(),
{
    if k == s.len() {
        assert(s.take(k as int) =~= s);
        assert(encode_values(s).subrange(0, encode_values(s).len() as int) =~= encode_values(s));
    } else {
        let t = s.drop_last();
        assert(t.take(k as int) =~= s.take(k as int));
        lemma_encode_prefix(t, k);
        let p = encode_values(s.take(k as int));
        assert(encode_values(s).subrange(0, p.len() as int) =~= encode_values(t).subrange(0, p.len() as int));
    }
}

/// The bytes of value `k` stand where the values before it end.
proof fn lemma_encode_entry_at(s: Seq<(u32, RawValue)>, k: nat)
    requires
        k < s.len(),
    ensures
        encode_values(s.take((k + 1) as int)).len() == encode_values(s.take(k as int)).len() + encode_entry(s[k as int].0, s[k as int].1).len(),
        encode_values(s.take((k + 1) as int)).len() <= encode_values(s).len(),
        encode_values(s).subrange(encode_values(s.take(k as int)).len() as int, encode_values(s.take((k + 1) as int)).len() as int)
            == encode_entry(s[k as int].0, s[k as int].1),
{
    lemma_encode_prefix(s, k + 1);
    let a = encode_values(s.take(k as int));
    let e = encode_entry(s[k as int].0, s[k as int].1);
    assert(s.take((k + 1) as int).drop_last() =~= s.take(k as int));
    assert(encode_values(s.take((k + 1) as int)) == a + e);
    let whole = encode_values(s);
    assert(whole.subrange(a.len() as int, (a.len() + e.len()) as int) =~= e) by {
        assert forall|i: int| 0 <= i < e.len() implies whole.subrange(a.len() as int, (a.len() + e.len()) as int)[i] == e[i] by {
            assert(whole.subrange(0, (a.len() + e.len()) as int)[a.len() + i] == (a + e)[a.len() + i]);
        }
    }
}

/// Where the canonical encoding of `s` opens `buf`, decoding reads it value
/// by value, `depth` levels deep, and goes on after it with the message
/// that `s` replays to.
pub proof fn lemma_decode_prefix(reg: SchemaRegistry, id: nat, buf: Seq<u8>, s: Seq<(u32, RawValue)>, k: nat, depth: nat, limit: nat)
    requires
        k <= s.len(),
        forall|i: int| 0 <= i < s.len() ==> #[trigger] entry_ok(reg, id, depth, limit, s[i]),
        encode_values(s).len() <= buf.len(),
        buf.subrange(0, encode_values(s).len() as int) == encode_values(s),
    ensures
        decode_from(reg, id, buf, encode_values(s.take(k as int)).len(), depth, limit, replay(reg, id, s.take(k as int)))
            == decode_from(reg, id, buf, encode_values(s).len(), depth, limit, replay(reg, id, s)),
    decreases s.len() - k,
{
    let whole = encode_values(s);
    let pos = encode_values(s.take(k as int)).len();
    if k == s.len() {
        assert(s.take(k as int) =~= s);
    } else {
        let e = s[k as int];
        assert(entry_ok(reg, id, depth, limit, e));
        lemma_encode_entry_at(s, k);
        let next = encode_values(s.take((k + 1) as int)).len();
        assert(buf.subrange(pos as int, next as int) =~= whole.subrange(pos as int, next as int)) by {
            assert forall|i: int| 0 <= i < next - pos implies buf.subrange(pos as int, next as int)[i] == whole.subrange(pos as int, next as int)[i] by {
                assert(buf.subrange(0, whole.len() as int)[pos + i] == whole[pos + i]);
            }
        }
        lemma_entry_round_trip(buf, pos as int, e.0, e.1);
        let d = spec_lookup(reg.schemas@[id as int], e.0 as u64)->Some_0;
        lemma_kind_wire_type(e.1, d.wire_kind);
        assert(s.take((k + 1) as int).drop_last() =~= s.take(k as int));
        assert(s.take((k + 1) as int).last() == e);
        assert(replay(reg, id, s.take((k + 1) as int)) == record(replay(reg, id, s.take(k as int)), d, e.1));
        lemma_decode_prefix(reg, id, buf, s, k + 1, depth, limit);
    }
}

proof fn lemma_decode_encoded(reg: SchemaRegistry, id: nat, s: Seq<(u32, RawValue)>, limit: nat)
    requires
        forall|i: int| 0 <= i < s.len() ==> #[trigger] entry_ok(reg, id, 0, limit, s[i]),
    ensures
        spec_decode(reg, id, encode_values(s), limit) == Ok::<MessageModel, DecodeError>(replay(reg, id, s)),
{
    let buf = encode_values(s);
    assert(buf.subrange(0, buf.len() as int) =~= buf);
    assert(s.take(0) =~= Seq::<(u32, RawValue)>::empty());
    lemma_decode_prefix(reg, id, buf, s, 0, 0, limit);
}

/// What decoding keeps true of the message built so far: it is what its
/// values replay to, and each value reads back as itself.
pub open spec fn replay_inv(reg: SchemaRegistry, id: nat, limit: nat, m: MessageModel) -> bool {
    &&& m == replay(reg, id, m.values)
    &&& forall|i: int| 0 <= i < m.values.len() ==> #[trigger] entry_ok(reg, id, 0, limit, m.values[i])
}

proof fn lemma_read_value_kind(buf: Seq<u8>, pos: int, wt: u64)
    requires
        0 <= pos,
    ensures
        spec_read_value(buf, pos, wt) matches Ok((v, _)) ==> raw_wire_type(v) == wt && (v matches RawValue::Bytes(b) ==> b.len() < buf.len()),
{
    lemma_read_value_advances(buf, pos, wt);
}

proof fn lemma_record_inv(reg: SchemaRegistry, id: nat, limit: nat, acc: MessageModel, d: crate::schema::FieldDescriptor, v: RawValue)
    requires
        replay_inv(reg, id, limit, acc),
        spec_lookup(reg.schemas@[id as int], d.number as u64) == Some(d),
        entry_ok(reg, id, 0, limit, (d.number, v)),
    ensures
        replay_inv(reg, id, limit, record(acc, d, v)),
{
    let m1 = record(acc, d, v);
    lemma_replay_push(reg, id, acc.values, (d.number, v));
    assert forall|i: int| 0 <= i < m1.values.len() implies #[trigger] entry_ok(reg, id, 0, limit, m1.values[i]) by {
        if i < acc.values.len() {
            assert(m1.values[i] == acc.values[i]);
        }
    }
}

proof fn lemma_decode_inv(reg: SchemaRegistry, id: nat, buf: Seq<u8>, pos: nat, limit: nat, acc: MessageModel)
    requires
        reg.well_formed(),
        id < reg.schemas@.len(),
        buf.len() <= u64::MAX,
        replay_inv(reg, id, limit, acc),
    ensures
        decode_from(reg, id, buf, pos, 0, limit, acc) matches Ok(m) ==> replay_inv(reg, id, limit, m),
    decreases buf.len() - pos,
{
    if pos < buf.len() {
        lemma_read_tag_advances(buf, pos as int);
        if let Ok((n, wt, p1)) = spec_read_tag(buf, pos as int) {
            lemma_read_value_advances(buf, p1, wt);
            lemma_read_value_kind(buf, p1, wt);
            let schema = reg.schemas@[id as int];
            assert(schema.well_formed(reg.schemas@.len()));
            lemma_lookup(schema, n, reg.schemas@.len());
            match spec_lookup(schema, n) {
                None => {
                    if let Ok((_, p2)) = spec_read_value(buf, p1, wt) {
                        lemma_decode_inv(reg, id, buf, p2 as nat, limit, acc);
                    }
                },
                Some(d) => {
                    if let Ok((v, p2)) = spec_read_value(buf, p1, wt) {
                        assert(spec_lookup(schema, d.number as u64) == Some(d));
                        lemma_kind_wire_type(v, d.wire_kind);
                        if decode_from(reg, id, buf, pos, 0, limit, acc) is Ok && (is_packed(d, wt) || wt == spec_wire_type(d.wire_kind)) {
                            assert(entry_ok(reg, id, 0, limit, (d.number, v)));
                            lemma_record_inv(reg, id, limit, acc, d, v);
                            lemma_decode_inv(reg, id, buf, p2 as nat, limit, record(acc, d, v));
                        }
                    }
                },
            }
        }
    }
}

/// Decoding what the encoder writes for a decoded message gives that very
/// message back: the same values in the same order, the same presence and
/// the same oneof selections, so the same stored and effective values.
pub proof fn lemma_decode_encode(reg: SchemaRegistry, id: nat, buf: Seq<u8>, limit: nat)
    requires
        reg.well_formed(),
        id < reg.schemas@.len(),
        buf.len() <= u64::MAX,
    ensures
        spec_decode(reg, id, buf, limit) matches Ok(m) ==> spec_decode(reg, id, encode_values(m.values), limit)
            == Ok::<MessageModel, DecodeError>(m),
{
    assert(replay_inv(reg, id, limit, empty_model())) by {
        assert(replay(reg, id, Seq::empty()) == empty_model());
    }
    lemma_decode_inv(reg, id, buf, 0, limit, empty_model());
    if let Ok(m) = spec_decode(reg, id, buf, limit) {
        lemma_decode_encoded(reg, id, m.values, limit);
    }
}

/// A canonical buffer, one that holds known fields of schema `id` one after
/// another with tags and lengths in their shortest form, decodes to a
/// message that encodes back to the same bytes. A repeated scalar field may
/// stand in it packed, as a span of whole elements, or one element per tag.
pub proof fn lemma_encode_decode(reg: SchemaRegistry, id: nat, s: Seq<(u32, RawValue)>, limit: nat)
    requires
        forall|i: int| 0 <= i < s.len() ==> #[trigger] entry_ok(reg, id, 0, limit, s[i]),
    ensures
        spec_decode(reg, id, encode_values(s), limit) matches Ok(m) && m.values == s
            && encode_values(m.values) == encode_values(s),
{
    lemma_decode_encoded(reg, id, s, limit);
    assert forall|i: int| 0 <= i < s.len() implies #[trigger] spec_lookup(reg.schemas@[id as int], s[i].0 as u64) is Some by {
        assert(entry_ok(reg, id, 0, limit, s[i]));
    }
    lemma_replay_values(reg, id, s);
}

} // verus!
