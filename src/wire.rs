//! Cursor-free readers over a byte buffer: every reader takes a buffer and a
//! position and hands back the value read together with the position just
//! past it.
use vstd::prelude::*;

verus! {

/// Why a decode call failed.
#[derive(Clone, Copy, Debug, PartialEq, Eq, Structural)]
pub enum DecodeError {
    /// Ten bytes of a varint all had their continuation bit set.
    MalformedVarint,
    /// A value runs past the end of the buffer.
    TruncatedInput,
    /// A wire type that is invalid, or that does not match the field's kind.
    WireTypeMismatch,
    /// Embedded messages are nested deeper than the configured limit.
    RecursionLimitExceeded,
}

/// A varint never has more than this many bytes.
pub const MAX_VARINT_BYTES: usize = 10;

/// Wire type of a varint.
pub const WIRE_VARINT: u64 = 0;
/// Wire type of eight little-endian bytes.
pub const WIRE_FIXED64: u64 = 1;
/// Wire type of a length-delimited span.
pub const WIRE_LEN: u64 = 2;
/// Wire type of four little-endian bytes.
pub const WIRE_FIXED32: u64 = 5;

/// A value as it stands on the wire, before any schema gives it a meaning.
#[derive(Clone, Debug, PartialEq, Eq)]
pub enum WireValue {
    Varint(u64),
    Fixed32(u32),
    Fixed64(u64),
    Bytes(Vec<u8>),
}

/// The mathematical form of a `WireValue`.
pub enum RawValue {
    Varint(u64),
    Fixed32(u32),
    Fixed64(u64),
    Bytes(Seq<u8>),
}

impl WireValue {
    /// The integer of a varint value.
    pub fn as_varint(&self) -> (r: Option<u64>)
        ensures
            r == (match self@ {
                RawValue::Varint(v) => Some(v),
                _ => None::<u64>,
            }),
    {
        match self {
            WireValue::Varint(v) => Some(*v),
            _ => None,
        }
    }

    /// A copy of this value.
    pub fn duplicate(&self) -> (r: WireValue)
        ensures
            r@ == self@,
    {
        match self {
            WireValue::Varint(v) => WireValue::Varint(*v),
            WireValue::Fixed32(v) => WireValue::Fixed32(*v),
            WireValue::Fixed64(v) => WireValue::Fixed64(*v),
            WireValue::Bytes(b) => {
                let mut out: Vec<u8> = Vec::new();
                let mut i: usize = 0;
                while i < b.len()
                    invariant
                        i <= b@.len(),
                        out@ == b@.take(i as int),
                    decreases b@.len() - i,
                {
                    out.push(b[i]);
                    i = i + 1;
                    assert(out@ =~= b@.take(i as int));
                }
                assert(out@ =~= b@);
                WireValue::Bytes(out)
            },
        }
    }
}

impl View for WireValue {
    type V = RawValue;

    open spec fn view(&self) -> RawValue {
        match self {
            WireValue::Varint(v) => RawValue::Varint(*v),
            WireValue::Fixed32(v) => RawValue::Fixed32(*v),
            WireValue::Fixed64(v) => RawValue::Fixed64(*v),
            WireValue::Bytes(b) => RawValue::Bytes(b@),
        }
    }
}

/// Turns the position of a result into a mathematical integer.
pub open spec fn lift<T>(r: Result<(T, usize), DecodeError>) -> Result<(T, int), DecodeError> {
    match r {
        Ok((v, p)) => Ok((v, p as int)),
        Err(e) => Err(e),
    }
}

/// The value held by the first `n` bytes of a varint at `pos`: byte `k`
/// supplies bits `7k` to `7k + 6` through its low seven bits.
pub open spec fn varint_bits(buf: Seq<u8>, pos: int, n: nat) -> u64
    decreases n,
{
    if n == 0 {
        0
    } else {
        varint_bits(buf, pos, (n - 1) as nat) | (((buf[pos + n - 1] & 0x7f) as u64) << (7 * (n
            - 1)) as u64)
    }
}

/// Reads on from byte `k` of a varint at `pos`, bytes `0..k` having had their
/// continuation bit set.
pub open spec fn varint_from(buf: Seq<u8>, pos: int, k: nat) -> Result<(u64, int), DecodeError>
    decreases MAX_VARINT_BYTES - k,
{
    if k >= MAX_VARINT_BYTES {
        Err(DecodeError::MalformedVarint)
    } else if pos + k >= buf.len() {
        Err(DecodeError::TruncatedInput)
    } else if buf[pos + k] < 128 {
        Ok((varint_bits(buf, pos, k + 1), pos + k + 1))
    } else {
        varint_from(buf, pos, k + 1)
    }
}

/// The varint at `pos` and the position after it.
pub open spec fn spec_read_varint(buf: Seq<u8>, pos: int) -> Result<(u64, int), DecodeError> {
    varint_from(buf, pos, 0)
}

/// Reads the varint at `pos`.
pub fn read_varint(buf: &[u8], pos: usize) -> (r: Result<(u64, usize), DecodeError>)
    requires
        pos <= buf@.len(),
    ensures
        lift(r) == spec_read_varint(buf@, pos as int),
{
    let mut v: u64 = 0;
    let mut k: usize = 0;
    while k < MAX_VARINT_BYTES
        invariant
            pos <= buf@.len(),
            k <= MAX_VARINT_BYTES,
            v == varint_bits(buf@, pos as int, k as nat),
            varint_from(buf@, pos as int, 0) == varint_from(buf@, pos as int, k as nat),
        decreases MAX_VARINT_BYTES - k,
    {
        if k >= buf.len() - pos {
            return Err(DecodeError::TruncatedInput);
        }
        let b = buf[pos + k];
        v = v | (((b & 0x7f) as u64) << (7 * k) as u64);
        if b < 128 {
            return Ok((v, pos + k + 1));
        }
        k = k + 1;
    }
    Err(DecodeError::MalformedVarint)
}

/// The little-endian integer in the four bytes at `pos`.
pub open spec fn le32(buf: Seq<u8>, pos: int) -> u32 {
    (buf[pos] as int + 0x100 * buf[pos + 1] as int + 0x10000 * buf[pos + 2] as int + 0x1000000
        * buf[pos + 3] as int) as u32
}

/// The little-endian integer in the eight bytes at `pos`.
pub open spec fn le64(buf: Seq<u8>, pos: int) -> u64 {
    (le32(buf, pos) as int + 0x1_0000_0000 * le32(buf, pos + 4) as int) as u64
}

pub open spec fn spec_read_fixed32(buf: Seq<u8>, pos: int) -> Result<(u32, int), DecodeError> {
    if pos + 4 > buf.len() {
        Err(DecodeError::TruncatedInput)
    } else {
        Ok((le32(buf, pos), pos + 4))
    }
}

pub open spec fn spec_read_fixed64(buf: Seq<u8>, pos: int) -> Result<(u64, int), DecodeError> {
    if pos + 8 > buf.len() {
        Err(DecodeError::TruncatedInput)
    } else {
        Ok((le64(buf, pos), pos + 8))
    }
}

/// Reads the four-byte little-endian integer at `pos`.
pub fn read_fixed32(buf: &[u8], pos: usize) -> (r: Result<(u32, usize), DecodeError>)
    requires
        pos <= buf@.len(),
    ensures
        lift(r) == spec_read_fixed32(buf@, pos as int),
{
    if buf.len() - pos < 4 {
        return Err(DecodeError::TruncatedInput);
    }
    let v: u32 = buf[pos] as u32 + 0x100 * (buf[pos + 1] as u32) + 0x10000 * (buf[pos + 2] as u32)
        + 0x1000000 * (buf[pos + 3] as u32);
    Ok((v, pos + 4))
}

/// Reads the eight-byte little-endian integer at `pos`.
pub fn read_fixed64(buf: &[u8], pos: usize) -> (r: Result<(u64, usize), DecodeError>)
    requires
        pos <= buf@.len(),
    ensures
        lift(r) == spec_read_fixed64(buf@, pos as int),
{
    if buf.len() - pos < 8 {
        return Err(DecodeError::TruncatedInput);
    }
    let lo = match read_fixed32(buf, pos) {
        Ok((v, _)) => v,
        Err(e) => return Err(e),
    };
    let hi = match read_fixed32(buf, pos + 4) {
        Ok((v, _)) => v,
        Err(e) => return Err(e),
    };
    Ok((lo as u64 + 0x1_0000_0000 * (hi as u64), pos + 8))
}

/// A length-delimited span at `pos`: a varint length, then that many bytes.
pub open spec fn spec_read_length_delimited(buf: Seq<u8>, pos: int) -> Result<
    (Seq<u8>, int),
    DecodeError,
> {
    match spec_read_varint(buf, pos) {
        Err(e) => Err(e),
        Ok((n, p)) => if n > buf.len() - p {
            Err(DecodeError::TruncatedInput)
        } else {
            Ok((buf.subrange(p, p + n), p + n))
        },
    }
}

/// Reads a length-delimited span and copies its bytes out.
pub fn read_length_delimited(buf: &[u8], pos: usize) -> (r: Result<(Vec<u8>, usize), DecodeError>)
    requires
        pos <= buf@.len(),
    ensures
        match r {
            Ok((b, p)) => spec_read_length_delimited(buf@, pos as int) == Ok::<(Seq<u8>, int), DecodeError>((b@, p as int)),
            Err(e) => spec_read_length_delimited(buf@, pos as int) == Err::<(Seq<u8>, int), DecodeError>(e),
        },
{
    let (n, p) = match read_varint(buf, pos) {
        Ok(x) => x,
        Err(e) => return Err(e),
    };
    proof {
        lemma_read_varint_advances(buf@, pos as int);
    }
    if n > (buf.len() - p) as u64 {
        return Err(DecodeError::TruncatedInput);
    }
    let end = p + n as usize;
    let mut out: Vec<u8> = Vec::new();
    let mut i: usize = p;
    while i < end
        invariant
            p <= i <= end <= buf@.len(),
            out@ == buf@.subrange(p as int, i as int),
        decreases end - i,
    {
        out.push(buf[i]);
        i = i + 1;
        proof {
            assert(out@ =~= buf@.subrange(p as int, i as int));
        }
    }
    Ok((out, end))
}

/// A varint that is read ends after its start and within the buffer.
pub proof fn lemma_read_varint_advances(buf: Seq<u8>, pos: int)
    ensures
        spec_read_varint(buf, pos) matches Ok((_, p)) ==> pos < p <= buf.len() && p <= pos + 10,
{
    lemma_varint_from_advances(buf, pos, 0);
}

proof fn lemma_varint_from_advances(buf: Seq<u8>, pos: int, k: nat)
    ensures
        varint_from(buf, pos, k) matches Ok((_, p)) ==> pos + k < p <= buf.len() && p <= pos + 10,
    decreases MAX_VARINT_BYTES - k,
{
    if k < MAX_VARINT_BYTES && pos + k < buf.len() && buf[pos + k] >= 128 {
        lemma_varint_from_advances(buf, pos, k + 1);
    }
}

/// The tag at `pos`: a field number and a wire type.
pub open spec fn spec_read_tag(buf: Seq<u8>, pos: int) -> Result<(u64, u64, int), DecodeError> {
    match spec_read_varint(buf, pos) {
        Err(e) => Err(e),
        Ok((t, p)) => Ok((t / 8, t % 8, p)),
    }
}

/// Reads the tag at `pos`.
pub fn read_tag(buf: &[u8], pos: usize) -> (r: Result<(u64, u64, usize), DecodeError>)
    requires
        pos <= buf@.len(),
    ensures
        match r {
            Ok((n, w, p)) => spec_read_tag(buf@, pos as int) == Ok::<(u64, u64, int), DecodeError>((n, w, p as int)),
            Err(e) => spec_read_tag(buf@, pos as int) == Err::<(u64, u64, int), DecodeError>(e),
        },
{
    match read_varint(buf, pos) {
        Ok((t, p)) => Ok((t / 8, t % 8, p)),
        Err(e) => Err(e),
    }
}

/// The value of wire type `wt` at `pos`. Wire types other than varint,
/// fixed64, length-delimited and fixed32 cannot be read.
pub open spec fn spec_read_value(buf: Seq<u8>, pos: int, wt: u64) -> Result<(RawValue, int), DecodeError> {
    if wt == WIRE_VARINT {
        match spec_read_varint(buf, pos) {
            Err(e) => Err(e),
            Ok((v, p)) => Ok((RawValue::Varint(v), p)),
        }
    } else if wt == WIRE_FIXED64 {
        match spec_read_fixed64(buf, pos) {
            Err(e) => Err(e),
            Ok((v, p)) => Ok((RawValue::Fixed64(v), p)),
        }
    } else if wt == WIRE_LEN {
        match spec_read_length_delimited(buf, pos) {
            Err(e) => Err(e),
            Ok((b, p)) => Ok((RawValue::Bytes(b), p)),
        }
    } else if wt == WIRE_FIXED32 {
        match spec_read_fixed32(buf, pos) {
            Err(e) => Err(e),
            Ok((v, p)) => Ok((RawValue::Fixed32(v), p)),
        }
    } else {
        Err(DecodeError::WireTypeMismatch)
    }
}

/// Reads the value of wire type `wt` at `pos`.
pub fn read_value(buf: &[u8], pos: usize, wt: u64) -> (r: Result<(WireValue, usize), DecodeError>)
    requires
        pos <= buf@.len(),
    ensures
        match r {
            Ok((v, p)) => spec_read_value(buf@, pos as int, wt) == Ok::<(RawValue, int), DecodeError>((v@, p as int)),
            Err(e) => spec_read_value(buf@, pos as int, wt) == Err::<(RawValue, int), DecodeError>(e),
        },
{
    if wt == WIRE_VARINT {
        match read_varint(buf, pos) {
            Ok((v, p)) => Ok((WireValue::Varint(v), p)),
            Err(e) => Err(e),
        }
    } else if wt == WIRE_FIXED64 {
        match read_fixed64(buf, pos) {
            Ok((v, p)) => Ok((WireValue::Fixed64(v), p)),
            Err(e) => Err(e),
        }
    } else if wt == WIRE_LEN {
        match read_length_delimited(buf, pos) {
            Ok((b, p)) => Ok((WireValue::Bytes(b), p)),
            Err(e) => Err(e),
        }
    } else if wt == WIRE_FIXED32 {
        match read_fixed32(buf, pos) {
            Ok((v, p)) => Ok((WireValue::Fixed32(v), p)),
            Err(e) => Err(e),
        }
    } else {
        Err(DecodeError::WireTypeMismatch)
    }
}

/// A value that is read ends after its start and within the buffer, and a
/// length-delimited one is shorter than what it was read from.
pub proof fn lemma_read_value_advances(buf: Seq<u8>, pos: int, wt: u64)
    requires
        0 <= pos,
    ensures
        spec_read_value(buf, pos, wt) matches Ok((v, p)) ==> pos < p <= buf.len() && (
        v matches RawValue::Bytes(b) ==> b.len() < p - pos),
{
    lemma_read_varint_advances(buf, pos);
}

/// A tag that is read ends after its start and within the buffer.
pub proof fn lemma_read_tag_advances(buf: Seq<u8>, pos: int)
    ensures
        spec_read_tag(buf, pos) matches Ok((_, _, p)) ==> pos < p <= buf.len(),
{
    lemma_read_varint_advances(buf, pos);
}

} // verus!
