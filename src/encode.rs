//! Writing values back to the wire format.
use vstd::prelude::*;
use crate::decode::{MessageValue, lemma_view};
use crate::wire::{
    spec_read_tag, spec_read_value, spec_read_length_delimited,
    varint_bits, varint_from, spec_read_varint, le32, le64, DecodeError, RawValue, WireValue,
    WIRE_VARINT, WIRE_FIXED32, WIRE_FIXED64, WIRE_LEN,
};

verus! {

broadcast use lemma_view;

/// Bits `7k` to `7k + 6` of `v`.
pub open spec fn group7(v: u64, k: nat) -> u8 {
    ((v >> (7 * k) as u64) & 0x7f) as u8
}

/// The shortest varint of `v`, from its group `k` on.
pub open spec fn varint_encoding_from(v: u64, k: nat) -> Seq<u8>
    decreases 10 - k,
{
    if k >= 9 || v >> (7 * (k + 1)) as u64 == 0 {
        seq![group7(v, k)]
    } else {
        seq![group7(v, k) | 0x80].add(varint_encoding_from(v, k + 1))
    }
}

/// The shortest varint of `v`: seven bits per byte, low bits first, the high
/// bit of each byte but the last set.
pub open spec fn varint_encoding(v: u64) -> Seq<u8> {
    varint_encoding_from(v, 0)
}

proof fn lemma_bits_step(v: u64, acc: u64, s: u64)
    requires
        s <= 63,
        acc == v & !(0xffff_ffff_ffff_ffffu64 << s),
    ensures
        acc | (((((v >> s) & 0x7f) as u8) & 0x7f) as u64) << s == v & !(0xffff_ffff_ffff_ffffu64 << (s + 7) as u64),
{
    assert(acc == v & !(0xffff_ffff_ffff_ffffu64 << s) ==> acc | (((((v >> s) & 0x7f) as u8) & 0x7f) as u64) << s == v & !(0xffff_ffff_ffff_ffffu64 << (s + 7) as u64)) by (bit_vector)
        requires s <= 63;
}

proof fn lemma_bits_done(v: u64, s: u64)
    requires
        s <= 70,
        s >= 64 || v >> s == 0,
    ensures
        v & !(0xffff_ffff_ffff_ffffu64 << s) == v,
{
    assert(s <= 70 && (s >= 64 || v >> s == 0) ==> v & !(0xffff_ffff_ffff_ffffu64 << s) == v) by (bit_vector);
}

proof fn lemma_byte_bits(v: u64, s: u64, g: u8)
    requires
        g == ((v >> s) & 0x7f) as u8,
    ensures
        g < 128,
        (g | 0x80) >= 128,
        (g | 0x80) & 0x7f == g & 0x7f,
{
    assert(((v >> s) & 0x7f) < 128) by (bit_vector);
    assert(g < 128 ==> (g | 0x80) >= 128 && (g | 0x80) & 0x7f == g & 0x7f) by (bit_vector);
}

proof fn lemma_encoding_len(v: u64, k: nat)
    requires
        k <= 9,
    ensures
        1 <= varint_encoding_from(v, k).len() <= 10 - k,
    decreases 10 - k,
{
    if !(k >= 9 || v >> (7 * (k + 1)) as u64 == 0) {
        lemma_encoding_len(v, k + 1);
    }
}

proof fn lemma_read_encoding_from(buf: Seq<u8>, pos: int, v: u64, k: nat)
    requires
        0 <= pos,
        k <= 9,
        pos + k + varint_encoding_from(v, k).len() <= buf.len(),
        buf.subrange(pos + k, pos + k + varint_encoding_from(v, k).len()) == varint_encoding_from(v, k),
        varint_bits(buf, pos, k) == v & !(0xffff_ffff_ffff_ffffu64 << (7 * k) as u64),
    ensures
        varint_from(buf, pos, k) == Ok::<(u64, int), DecodeError>((v, pos + k + varint_encoding_from(v, k).len())),
    decreases 10 - k,
{
    let e = varint_encoding_from(v, k);
    lemma_encoding_len(v, k);
    assert(buf[pos + k] == e[0]);
    lemma_byte_bits(v, (7 * k) as u64, group7(v, k));
    lemma_bits_step(v, varint_bits(buf, pos, k), (7 * k) as u64);
    if k >= 9 || v >> (7 * (k + 1)) as u64 == 0 {
        lemma_bits_done(v, (7 * k + 7) as u64);
        assert(varint_bits(buf, pos, k + 1) == v);
    } else {
        let rest = varint_encoding_from(v, k + 1);
        assert(e == seq![group7(v, k) | 0x80].add(rest));
        assert(buf.subrange(pos + k + 1, pos + k + 1 + rest.len()) =~= rest) by {
            assert forall|i: int| 0 <= i < rest.len() implies buf.subrange(pos + k + 1, pos + k + 1 + rest.len())[i] == rest[i] by {
                assert(buf.subrange(pos + k, pos + k + e.len())[i + 1] == e[i + 1]);
            }
        }
        lemma_read_encoding_from(buf, pos, v, k + 1);
    }
}

/// Reading a varint where the shortest varint of `v` stands gives `v` back,
/// and the position just past those bytes.
pub proof fn lemma_varint_round_trip(buf: Seq<u8>, pos: int, v: u64)
    requires
        0 <= pos,
        pos + varint_encoding(v).len() <= buf.len(),
        buf.subrange(pos, pos + varint_encoding(v).len()) == varint_encoding(v),
    ensures
        spec_read_varint(buf, pos) == Ok::<(u64, int), DecodeError>((v, pos + varint_encoding(v).len())),
{
    assert(v & !(0xffff_ffff_ffff_ffffu64 << 0u64) == 0) by (bit_vector);
    lemma_read_encoding_from(buf, pos, v, 0);
}

/// Appends the shortest varint of `v`.
pub fn write_varint(v: u64, out: &mut Vec<u8>)
    ensures
        final(out)@ == old(out)@ + varint_encoding(v),
{
    let mut k: u64 = 0;
    while k < 9 && (v >> (7 * (k + 1))) != 0
        invariant
            k <= 9,
            out@ + varint_encoding_from(v, k as nat) == old(out)@ + varint_encoding(v),
        decreases 9 - k,
    {
        let ghost before = out@;
        out.push((((v >> (7 * k)) & 0x7f) as u8) | 0x80);
        assert(out@ + varint_encoding_from(v, (k + 1) as nat) =~= before + varint_encoding_from(v, k as nat));
        k = k + 1;
    }
    let ghost before = out@;
    out.push(((v >> (7 * k)) & 0x7f) as u8);
    assert(out@ =~= before + varint_encoding_from(v, k as nat));
}

/// The four bytes of `v`, least significant first.
pub open spec fn le32_bytes(v: u32) -> Seq<u8> {
    seq![
        (v % 0x100) as u8,
        (v / 0x100 % 0x100) as u8,
        (v / 0x100 / 0x100 % 0x100) as u8,
        (v / 0x100 / 0x100 / 0x100) as u8,
    ]
}

/// The eight bytes of `v`, least significant first.
pub open spec fn le64_bytes(v: u64) -> Seq<u8> {
    le32_bytes((v % 0x1_0000_0000) as u32) + le32_bytes((v / 0x1_0000_0000) as u32)
}

/// Reading four bytes where `le32_bytes(v)` stands gives `v`.
pub proof fn lemma_le32_round_trip(buf: Seq<u8>, pos: int, v: u32)
    requires
        0 <= pos,
        pos + 4 <= buf.len(),
        buf.subrange(pos, pos + 4) == le32_bytes(v),
    ensures
        le32(buf, pos) == v,
{
    assert(buf[pos] == le32_bytes(v)[0]);
    assert(buf[pos + 1] == le32_bytes(v)[1]);
    assert(buf[pos + 2] == le32_bytes(v)[2]);
    assert(buf[pos + 3] == le32_bytes(v)[3]);
}

/// Reading eight bytes where `le64_bytes(v)` stands gives `v`.
pub proof fn lemma_le64_round_trip(buf: Seq<u8>, pos: int, v: u64)
    requires
        0 <= pos,
        pos + 8 <= buf.len(),
        buf.subrange(pos, pos + 8) == le64_bytes(v),
    ensures
        le64(buf, pos) == v,
{
    let lo = (v % 0x1_0000_0000) as u32;
    let hi = (v / 0x1_0000_0000) as u32;
    assert(buf.subrange(pos, pos + 4) =~= le32_bytes(lo)) by {
        assert forall|i: int| 0 <= i < 4 implies buf.subrange(pos, pos + 4)[i] == le32_bytes(lo)[i] by {
            assert(buf.subrange(pos, pos + 8)[i] == le64_bytes(v)[i]);
        }
    }
    assert(buf.subrange(pos + 4, pos + 8) =~= le32_bytes(hi)) by {
        assert forall|i: int| 0 <= i < 4 implies buf.subrange(pos + 4, pos + 8)[i] == le32_bytes(hi)[i] by {
            assert(buf.subrange(pos, pos + 8)[i + 4] == le64_bytes(v)[i + 4]);
        }
    }
    lemma_le32_round_trip(buf, pos, lo);
    lemma_le32_round_trip(buf, pos + 4, hi);
}

/// Appends the four bytes of `v`, least significant first.
pub fn write_fixed32(v: u32, out: &mut Vec<u8>)
    ensures
        final(out)@ == old(out)@ + le32_bytes(v),
{
    out.push((v % 0x100) as u8);
    out.push((v / 0x100 % 0x100) as u8);
    out.push((v / 0x100 / 0x100 % 0x100) as u8);
    out.push((v / 0x100 / 0x100 / 0x100) as u8);
    assert(out@ =~= old(out)@ + le32_bytes(v));
}

/// Appends the eight bytes of `v`, least significant first.
pub fn write_fixed64(v: u64, out: &mut Vec<u8>)
    ensures
        final(out)@ == old(out)@ + le64_bytes(v),
{
    write_fixed32((v % 0x1_0000_0000) as u32, out);
    write_fixed32((v / 0x1_0000_0000) as u32, out);
    assert(out@ =~= old(out)@ + le64_bytes(v));
}

/// The wire type that a value is written with.
pub open spec fn raw_wire_type(v: RawValue) -> u64 {
    match v {
        RawValue::Varint(_) => WIRE_VARINT,
        RawValue::Fixed32(_) => WIRE_FIXED32,
        RawValue::Fixed64(_) => WIRE_FIXED64,
        RawValue::Bytes(_) => WIRE_LEN,
    }
}

/// The bytes that follow a value's tag.
pub open spec fn payload(v: RawValue) -> Seq<u8> {
    match v {
        RawValue::Varint(x) => varint_encoding(x),
        RawValue::Fixed32(x) => le32_bytes(x),
        RawValue::Fixed64(x) => le64_bytes(x),
        RawValue::Bytes(b) => varint_encoding(b.len() as u64) + b,
    }
}

/// One field value on the wire: its tag, then its payload.
pub open spec fn encode_entry(n: u32, v: RawValue) -> Seq<u8> {
    varint_encoding((n as u64 * 8 + raw_wire_type(v)) as u64) + payload(v)
}

/// Field values written one after another, in order.
pub open spec fn encode_values(s: Seq<(u32, RawValue)>) -> Seq<u8>
    decreases s.len(),
{
    if s.len() == 0 {
        Seq::empty()
    } else {
        encode_values(s.drop_last()) + encode_entry(s.last().0, s.last().1)
    }
}

/// Appends field `n` with value `v`.
pub fn write_entry(n: u32, v: &WireValue, out: &mut Vec<u8>)
    ensures
        final(out)@ == old(out)@ + encode_entry(n, v@),
{
    match v {
        WireValue::Varint(x) => {
            write_varint(n as u64 * 8 + WIRE_VARINT, out);
            write_varint(*x, out);
        },
        WireValue::Fixed32(x) => {
            write_varint(n as u64 * 8 + WIRE_FIXED32, out);
            write_fixed32(*x, out);
        },
        WireValue::Fixed64(x) => {
            write_varint(n as u64 * 8 + WIRE_FIXED64, out);
            write_fixed64(*x, out);
        },
        WireValue::Bytes(b) => {
            write_varint(n as u64 * 8 + WIRE_LEN, out);
            write_varint(b.len() as u64, out);
            let ghost mid = out@;
            let mut i: usize = 0;
            while i < b.len()
                invariant
                    i <= b@.len(),
                    out@ == mid + b@.take(i as int),
                decreases b@.len() - i,
            {
                out.push(b[i]);
                i = i + 1;
                assert(out@ =~= mid + b@.take(i as int));
            }
            assert(b@.take(b@.len() as int) =~= b@);
        },
    }
    assert(out@ =~= old(out)@ + encode_entry(n, v@));
}

impl MessageValue {
    /// The message's field values written back in the order they were read.
    pub fn encode(&self) -> (r: Vec<u8>)
        ensures
            r@ == encode_values(self@.values),
    {
        let mut out: Vec<u8> = Vec::new();
        let mut i: usize = 0;
        assert(self@.values.take(0) =~= Seq::<(u32, RawValue)>::empty());
        while i < self.values.len()
            invariant
                i <= self.values@.len(),
                out@ == encode_values(self@.values.take(i as int)),
            decreases self.values@.len() - i,
        {
            write_entry(self.values[i].number, &self.values[i].value, &mut out);
            assert(self@.values.take(i + 1).drop_last() =~= self@.values.take(i as int));
            i = i + 1;
        }
        assert(self@.values.take(self.values@.len() as int) =~= self@.values);
        out
    }
}

/// Where `a + b` stands at `pos`, `a` stands at `pos` and `b` after it.
pub proof fn lemma_split(buf: Seq<u8>, pos: int, a: Seq<u8>, b: Seq<u8>)
    requires
        0 <= pos,
        pos + a.len() + b.len() <= buf.len(),
        buf.subrange(pos, pos + a.len() + b.len()) == a + b,
    ensures
        buf.subrange(pos, pos + a.len()) == a,
        buf.subrange(pos + a.len(), pos + a.len() + b.len()) == b,
{
    assert forall|i: int| 0 <= i < a.len() implies buf.subrange(pos, pos + a.len())[i] == a[i] by {
        assert(buf.subrange(pos, pos + a.len() + b.len())[i] == (a + b)[i]);
    }
    assert forall|i: int| 0 <= i < b.len() implies buf.subrange(pos + a.len(), pos + a.len() + b.len())[i] == b[i] by {
        let j = i + a.len();
        assert(buf.subrange(pos, pos + a.len() + b.len())[j] == (a + b)[j]);
        assert((a + b)[j] == b[i]);
        assert(buf.subrange(pos, pos + a.len() + b.len())[j] == buf[pos + j]);
    }
    assert(buf.subrange(pos, pos + a.len()) =~= a);
    assert(buf.subrange(pos + a.len(), pos + a.len() + b.len()) =~= b);
}

/// The length of a value's tag.
pub open spec fn tag_len(n: u32, v: RawValue) -> int {
    varint_encoding((n as u64 * 8 + raw_wire_type(v)) as u64).len() as int
}

/// Reading a field where `encode_entry(n, v)` stands gives field `n`, the
/// wire type of `v`, and `v`.
pub proof fn lemma_entry_round_trip(buf: Seq<u8>, pos: int, n: u32, v: RawValue)
    requires
        0 <= pos,
        pos + encode_entry(n, v).len() <= buf.len(),
        buf.subrange(pos, pos + encode_entry(n, v).len()) == encode_entry(n, v),
        v matches RawValue::Bytes(b) ==> b.len() <= u64::MAX,
    ensures
        spec_read_tag(buf, pos) == Ok::<(u64, u64, int), DecodeError>((n as u64, raw_wire_type(v), pos + tag_len(n, v))),
        spec_read_value(buf, pos + tag_len(n, v), raw_wire_type(v)) == Ok::<(RawValue, int), DecodeError>((v, pos + encode_entry(n, v).len())),
{
    let t = (n as u64 * 8 + raw_wire_type(v)) as u64;
    let tag = varint_encoding(t);
    let p = pos + tag.len();
    lemma_split(buf, pos, tag, payload(v));
    lemma_varint_round_trip(buf, pos, t);
    match v {
        RawValue::Varint(x) => {
            lemma_varint_round_trip(buf, p, x);
        },
        RawValue::Fixed32(x) => {
            lemma_le32_round_trip(buf, p, x);
        },
        RawValue::Fixed64(x) => {
            lemma_le64_round_trip(buf, p, x);
        },
        RawValue::Bytes(b) => {
            let l = varint_encoding(b.len() as u64);
            lemma_split(buf, p, l, b);
            lemma_varint_round_trip(buf, p, b.len() as u64);
            assert(spec_read_length_delimited(buf, p) == Ok::<(Seq<u8>, int), DecodeError>((b, p + l.len() + b.len())));
        },
    }
}

} // verus!
