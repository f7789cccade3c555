//! The Protobuf wire format, as far as the cache file uses it: varints,
//! fields with a number and a wire type, and messages as sequences of fields.
//! Groups, which the cache file never holds, are skipped as prost skips them.

use vstd::prelude::*;

verus! {

/// The varint encoding of `v`: seven bits per byte, least significant first,
/// the high bit set on every byte but the last.
pub open spec fn encode_varint(v: nat) -> Seq<u8>
    decreases v,
{
    if v < 128 {
        seq![v as u8]
    } else {
        seq![(v % 128 + 128) as u8] + encode_varint(v / 128)
    }
}

/// Reads a varint from the start of `b`, using at most `budget` bytes: its
/// value and the number of bytes it takes.
pub open spec fn parse_varint(b: Seq<u8>, budget: nat) -> Option<(nat, nat)>
    decreases budget,
{
    if budget == 0 || b.len() == 0 {
        None
    } else if b[0] < 128 {
        Some((b[0] as nat, 1))
    } else {
        match parse_varint(b.skip(1), (budget - 1) as nat) {
            Some((w, n)) => Some(((b[0] - 128) as nat + 128 * w, n + 1)),
            None => None,
        }
    }
}

/// The most bytes that a varint of 64 bits takes.
pub open spec fn varint_budget() -> nat {
    10
}

/// Reads a varint of at most ten bytes whose value fits in 64 bits.
pub open spec fn parse_u64_varint(b: Seq<u8>) -> Option<(u64, nat)> {
    match parse_varint(b, varint_budget()) {
        Some((v, n)) => if v <= u64::MAX {
            Some((v as u64, n))
        } else {
            None
        },
        None => None,
    }
}

/// `128` to the power `k`.
pub open spec fn pow128(k: nat) -> nat
    decreases k,
{
    if k == 0 {
        1
    } else {
        128 * pow128((k - 1) as nat)
    }
}

proof fn lemma_parse_varint_len(b: Seq<u8>, budget: nat)
    ensures
        parse_varint(b, budget) matches Some((v, n)) ==> 1 <= n <= budget && n <= b.len(),
    decreases budget,
{
    if budget > 0 && b.len() > 0 && b[0] >= 128 {
        lemma_parse_varint_len(b.skip(1), (budget - 1) as nat);
    }
}

proof fn lemma_varint_roundtrip(v: nat, rest: Seq<u8>, budget: nat)
    requires
        1 <= budget,
        v < pow128(budget),
    ensures
        parse_varint(encode_varint(v) + rest, budget) == Some((v, encode_varint(v).len())),
    decreases v,
{
    let e = encode_varint(v);
    if v < 128 {
        assert((e + rest)[0] == v as u8);
    } else {
        let q = v / 128;
        assert(budget >= 2) by {
            if budget == 1 {
                assert(pow128(1) == 128 * pow128(0));
            }
        }
        assert(pow128(budget) == 128 * pow128((budget - 1) as nat));
        assert(q < pow128((budget - 1) as nat));
        lemma_varint_roundtrip(q, rest, (budget - 1) as nat);
        assert((e + rest).skip(1) =~= encode_varint(q) + rest);
        assert((e + rest)[0] == (v % 128 + 128) as u8);
    }
}

/// Every 64-bit value reads back from its varint encoding.
pub proof fn lemma_u64_varint_roundtrip(v: u64, rest: Seq<u8>)
    ensures
        parse_u64_varint(encode_varint(v as nat) + rest) == Some((v, encode_varint(v as nat).len())),
        1 <= encode_varint(v as nat).len() <= 10,
{
    reveal_with_fuel(pow128, 11);
    assert(pow128(10) == 1180591620717411303424);
    lemma_varint_roundtrip(v as nat, rest, 10);
    lemma_parse_varint_len(encode_varint(v as nat) + rest, 10);
}

fn read_varint_within(buf: &[u8], pos: usize, end: usize, budget: u32) -> (r: Option<(u64, usize)>)
    requires
        pos <= end <= buf@.len(),
        budget <= 10,
    ensures
        match r {
            Some((v, n)) => parse_varint(buf@.subrange(pos as int, end as int), budget as nat) == Some(
                (v as nat, n as nat),
            ) && 1 <= n <= budget && pos + n <= end,
            None => match parse_varint(buf@.subrange(pos as int, end as int), budget as nat) {
                Some((v, _)) => v > u64::MAX,
                None => true,
            },
        },
    decreases budget,
{
    let ghost b = buf@.subrange(pos as int, end as int);
    proof {
        lemma_parse_varint_len(b, budget as nat);
    }
    if budget == 0 || pos >= end {
        return None;
    }
    let x = buf[pos];
    assert(b[0] == x);
    if x < 128 {
        return Some((x as u64, 1));
    }
    assert(b.skip(1) =~= buf@.subrange(pos + 1, end as int));
    let low: u64 = (x - 128) as u64;
    match read_varint_within(buf, pos + 1, end, budget - 1) {
        None => None,
        Some((w, n)) => {
            if w > (0xffff_ffff_ffff_ffffu64 - low) / 128 {
                assert(low + 128 * w > u64::MAX) by (nonlinear_arith)
                    requires
                        w > (0xffff_ffff_ffff_ffffu64 - low) / 128,
                        low < 128,
                ;
                None
            } else {
                assert(low + 128 * w <= u64::MAX) by (nonlinear_arith)
                    requires
                        w <= (0xffff_ffff_ffff_ffffu64 - low) / 128,
                        low < 128,
                ;
                Some((low + 128 * w, n + 1))
            }
        },
    }
}

/// Reads a varint of at most ten bytes, whose value fits in 64 bits, from
/// the bytes of `buf` from `pos` up to `end`: its value and the number of
/// bytes it takes.
pub fn read_varint(buf: &[u8], pos: usize, end: usize) -> (r: Option<(u64, usize)>)
    requires
        pos <= end <= buf@.len(),
    ensures
        match r {
            Some((v, n)) => parse_u64_varint(buf@.subrange(pos as int, end as int)) == Some((v, n as nat))
                && pos + n <= end,
            None => parse_u64_varint(buf@.subrange(pos as int, end as int)) is None,
        },
{
    read_varint_within(buf, pos, end, 10)
}

/// Appends the varint encoding of `v`.
pub fn write_varint(out: &mut Vec<u8>, v: u64)
    ensures
        final(out)@ == old(out)@ + encode_varint(v as nat),
{
    let mut rest = v;
    while rest >= 128
        invariant
            old(out)@ + encode_varint(v as nat) == out@ + encode_varint(rest as nat),
        decreases rest,
    {
        let ghost before = out@;
        out.push((rest % 128 + 128) as u8);
        assert(encode_varint(rest as nat) == seq![(rest % 128 + 128) as u8] + encode_varint(
            (rest / 128) as nat,
        ));
        assert(out@ + encode_varint((rest / 128) as nat) =~= before + encode_varint(rest as nat));
        rest = rest / 128;
    }
    out.push(rest as u8);
    assert(out@ =~= old(out)@ + encode_varint(v as nat));
}

/// The content of a field, by wire type.
pub enum Payload {
    /// Wire type 0.
    Varint(u64),
    /// Wire type 1: eight bytes.
    Fixed64(Seq<u8>),
    /// Wire type 2: a length and that many bytes.
    Bytes(Seq<u8>),
    /// Wire type 5: four bytes, little-endian.
    Fixed32(u32),
    /// Wire type 3: a group, whose content is only ever skipped.
    Group,
}

/// A field of a message: its number and content.
pub struct Field {
    pub number: u64,
    pub payload: Payload,
}

/// The largest field number.
pub open spec fn max_field_number() -> u64 {
    0x1fff_ffff
}

/// The wire type of a field's content.
pub open spec fn wire_type(p: Payload) -> nat {
    match p {
        Payload::Varint(_) => 0,
        Payload::Fixed64(_) => 1,
        Payload::Bytes(_) => 2,
        Payload::Fixed32(_) => 5,
        Payload::Group => 3,
    }
}

/// The four little-endian bytes of `v`.
pub open spec fn le32(v: u32) -> Seq<u8> {
    seq![v as u8, (v >> 8u32) as u8, (v >> 16u32) as u8, (v >> 24u32) as u8]
}

/// The `u32` that four little-endian bytes write.
pub open spec fn from_le32(b: Seq<u8>) -> u32 {
    from_le32_bytes(b[0], b[1], b[2], b[3])
}

/// The `u32` whose little-endian bytes are `b0`, `b1`, `b2`, `b3`.
pub open spec fn from_le32_bytes(b0: u8, b1: u8, b2: u8, b3: u8) -> u32 {
    (b0 as u32) | ((b1 as u32) << 8u32) | ((b2 as u32) << 16u32) | ((b3 as u32) << 24u32)
}

/// The bytes of a field's content.
pub open spec fn payload_bytes(p: Payload) -> Seq<u8> {
    match p {
        Payload::Varint(v) => encode_varint(v as nat),
        Payload::Fixed64(b) => b,
        Payload::Bytes(b) => encode_varint(b.len()) + b,
        Payload::Fixed32(v) => le32(v),
        Payload::Group => Seq::empty(),
    }
}

/// The bytes of a field: its key (number and wire type) and its content.
pub open spec fn encode_field(f: Field) -> Seq<u8> {
    encode_varint((f.number * 8 + wire_type(f.payload)) as nat) + payload_bytes(f.payload)
}

/// The bytes of a message made of `fs`, in order.
pub open spec fn encode_fields(fs: Seq<Field>) -> Seq<u8>
    decreases fs.len(),
{
    if fs.len() == 0 {
        Seq::empty()
    } else {
        encode_field(fs[0]) + encode_fields(fs.skip(1))
    }
}

/// A field that can be written: its number is in range, and its content
/// has the size that its wire type needs.
pub open spec fn field_ok(f: Field) -> bool {
    &&& 1 <= f.number <= max_field_number()
    &&& match f.payload {
        Payload::Fixed64(b) => b.len() == 8,
        Payload::Bytes(b) => b.len() <= u64::MAX,
        Payload::Group => false,
        _ => true,
    }
}

/// Every field of `fs` can be written.
pub open spec fn fields_ok(fs: Seq<Field>) -> bool {
    forall|i: int| 0 <= i < fs.len() ==> field_ok(#[trigger] fs[i])
}

/// Skips the content of a field of wire type `wt` and number `number` at the
/// start of `b`, as prost's `skip_field` does with recursion budget `count`:
/// the number of bytes the content takes. A group is skipped up to its end
/// key, its own fields with one less budget; an end key here, a budget of 0
/// and unknown wire types are errors.
pub open spec fn skip_len(b: Seq<u8>, wt: nat, number: nat, count: nat) -> Option<nat>
    decreases b.len(), 1nat,
{
    if count == 0 {
        None
    } else if wt == 0 {
        match parse_u64_varint(b) {
            Some((_, m)) => Some(m),
            None => None,
        }
    } else if wt == 1 {
        if b.len() >= 8 {
            Some(8)
        } else {
            None
        }
    } else if wt == 2 {
        match parse_u64_varint(b) {
            Some((len, m)) => if m + len <= b.len() {
                Some((m + len) as nat)
            } else {
                None
            },
            None => None,
        }
    } else if wt == 3 {
        group_len(b, number, (count - 1) as nat)
    } else if wt == 5 {
        if b.len() >= 4 {
            Some(4)
        } else {
            None
        }
    } else {
        None
    }
}

/// The bytes that the rest of a group numbered `number` takes at the start of
/// `b`, up to and with its end key; its fields are skipped with budget
/// `count`. An end key of another number is an error.
pub open spec fn group_len(b: Seq<u8>, number: nat, count: nat) -> Option<nat>
    decreases b.len(), 0nat,
{
    match parse_u64_varint(b) {
        None => None,
        Some((key, n)) => if key > u32::MAX || key / 8 == 0 || n == 0 || n > b.len() {
            None
        } else if key % 8 == 4 {
            if key / 8 == number {
                Some(n)
            } else {
                None
            }
        } else {
            match skip_len(b.skip(n as int), (key % 8) as nat, (key / 8) as nat, count) {
                None => None,
                Some(m) => if m > b.len() - n {
                    None
                } else {
                    match group_len(b.skip((n + m) as int), number, count) {
                        Some(k) => Some(n + m + k),
                        None => None,
                    }
                },
            }
        },
    }
}

/// Reads one field from the start of `b`: the field and the number of bytes
/// it takes. Keys above 32 bits, field number 0, end keys and unknown wire
/// types are errors; a group is skipped, with recursion budget `count`, and
/// read as a field of wire type 3.
pub open spec fn parse_field(b: Seq<u8>, count: nat) -> Option<(Field, nat)> {
    match parse_u64_varint(b) {
        None => None,
        Some((key, n)) => {
            let number = key / 8;
            let wt = key % 8;
            let rest = b.skip(n as int);
            if key > u32::MAX || number == 0 {
                None
            } else if wt == 0 {
                match parse_u64_varint(rest) {
                    Some((v, m)) => Some((Field { number, payload: Payload::Varint(v) }, n + m)),
                    None => None,
                }
            } else if wt == 1 {
                if rest.len() >= 8 {
                    Some((Field { number, payload: Payload::Fixed64(rest.take(8)) }, n + 8))
                } else {
                    None
                }
            } else if wt == 2 {
                match parse_u64_varint(rest) {
                    Some((len, m)) => if m + len <= rest.len() {
                        Some(
                            (
                                Field {
                                    number,
                                    payload: Payload::Bytes(rest.subrange(m as int, m + len)),
                                },
                                (n + m + len) as nat,
                            ),
                        )
                    } else {
                        None
                    },
                    None => None,
                }
            } else if wt == 3 {
                match skip_len(rest, 3, number as nat, count) {
                    Some(g) => Some((Field { number, payload: Payload::Group }, n + g)),
                    None => None,
                }
            } else if wt == 5 {
                if rest.len() >= 4 {
                    Some((Field { number, payload: Payload::Fixed32(from_le32(rest.take(4))) }, n + 4))
                } else {
                    None
                }
            } else {
                None
            }
        },
    }
}

/// Reads a whole message whose fields prost reads with recursion budget
/// `count`: its fields, in order.
pub open spec fn parse_fields(b: Seq<u8>, count: nat) -> Option<Seq<Field>>
    decreases b.len(),
{
    if b.len() == 0 {
        Some(Seq::empty())
    } else {
        match parse_field(b, count) {
            Some((f, n)) => if 0 < n <= b.len() {
                match parse_fields(b.skip(n as int), count) {
                    Some(fs) => Some(seq![f] + fs),
                    None => None,
                }
            } else {
                None
            },
            None => None,
        }
    }
}

/// A 32-bit field holds its value least significant byte first, as the
/// Protobuf wire format has it for `fixed32` and `float`.
pub proof fn lemma_le32_is_little_endian(v: u32)
    ensures
        le32(v).len() == 4,
        le32(v)[0] == v % 256,
        le32(v)[1] == (v / 256) % 256,
        le32(v)[2] == (v / 65536) % 256,
        le32(v)[3] == v / 16777216,
{
    let b0 = v as u8;
    let b1 = (v >> 8u32) as u8;
    let b2 = (v >> 16u32) as u8;
    let b3 = (v >> 24u32) as u8;
    assert(b0 == v % 256 && b1 == (v / 256) % 256 && b2 == (v / 65536) % 256 && b3 == v / 16777216)
        by (bit_vector)
        requires
            b0 == v as u8,
            b1 == (v >> 8u32) as u8,
            b2 == (v >> 16u32) as u8,
            b3 == (v >> 24u32) as u8,
    ;
}

/// Four bytes of a 32-bit field are read least significant first.
pub proof fn lemma_from_le32_is_little_endian(b0: u8, b1: u8, b2: u8, b3: u8)
    ensures
        from_le32_bytes(b0, b1, b2, b3) == b0 + 256 * b1 + 65536 * b2 + 16777216 * b3,
{
    let v = from_le32_bytes(b0, b1, b2, b3);
    assert(v == b0 + 256 * b1 + 65536 * b2 + 16777216 * b3) by (bit_vector)
        requires
            v == (b0 as u32) | ((b1 as u32) << 8u32) | ((b2 as u32) << 16u32) | ((b3 as u32) << 24u32),
    ;
}

/// A varint holds seven bits per byte, least significant group first, with
/// the high bit set on every byte but the last: its first byte is the low
/// seven bits of the value (with the high bit where more follow), and the
/// rest is the varint of the value shifted right by seven.
pub proof fn lemma_varint_is_base128(v: nat)
    ensures
        v < 128 ==> encode_varint(v) == seq![v as u8],
        v >= 128 ==> encode_varint(v).len() >= 2 && encode_varint(v)[0] == v % 128 + 128 && encode_varint(
            v,
        ).skip(1) == encode_varint(v / 128),
        forall|i: int| 0 <= i < encode_varint(v).len() ==> (#[trigger] encode_varint(v)[i] >= 128) == (i
            < encode_varint(v).len() - 1),
    decreases v,
{
    if v >= 128 {
        lemma_varint_is_base128(v / 128);
        let e = encode_varint(v);
        assert(e.skip(1) =~= encode_varint(v / 128));
        assert forall|i: int| 0 <= i < e.len() implies (#[trigger] e[i] >= 128) == (i < e.len() - 1) by {
            if i > 0 {
                assert(e[i] == encode_varint(v / 128)[i - 1]);
            }
        }
    }
}

/// The bytes of a field are its key, the number times eight plus the wire
/// type (0 for a varint, 1 for eight bytes, 2 for a length and bytes, 5 for
/// four bytes), followed by its content: the varint, the eight bytes, the
/// length as a varint and the bytes, or the four little-endian bytes.
pub proof fn lemma_field_layout(f: Field)
    ensures
        f.payload matches Payload::Varint(v) ==> encode_field(f) == encode_varint((f.number * 8) as nat)
            + encode_varint(v as nat),
        f.payload matches Payload::Fixed64(b) ==> encode_field(f) == encode_varint((f.number * 8 + 1) as nat)
            + b,
        f.payload matches Payload::Bytes(b) ==> encode_field(f) == encode_varint((f.number * 8 + 2) as nat)
            + encode_varint(b.len()) + b,
        f.payload matches Payload::Fixed32(v) ==> encode_field(f) == encode_varint((f.number * 8 + 5) as nat)
            + le32(v),
{
    if f.payload is Bytes {
        let b = f.payload->Bytes_0;
        assert(encode_field(f) =~= encode_varint((f.number * 8 + 2) as nat) + encode_varint(b.len()) + b);
    }
}

proof fn lemma_le32_roundtrip(v: u32)
    ensures
        from_le32(le32(v)) == v,
{
    let b0 = v as u8;
    let b1 = (v >> 8u32) as u8;
    let b2 = (v >> 16u32) as u8;
    let b3 = (v >> 24u32) as u8;
    assert(from_le32_bytes(b0, b1, b2, b3) == v) by (bit_vector)
        requires
            b0 == v as u8,
            b1 == (v >> 8u32) as u8,
            b2 == (v >> 16u32) as u8,
            b3 == (v >> 24u32) as u8,
    ;
}

proof fn lemma_field_roundtrip(f: Field, rest: Seq<u8>, count: nat)
    requires
        field_ok(f),
    ensures
        parse_field(encode_field(f) + rest, count) == Some((f, encode_field(f).len())),
        encode_field(f).len() > 0,
{
    let key: u64 = (f.number * 8 + wire_type(f.payload)) as u64;
    let kb = encode_varint(key as nat);
    let pb = payload_bytes(f.payload);
    let b = encode_field(f) + rest;
    assert(b =~= kb + (pb + rest));
    lemma_u64_varint_roundtrip(key, pb + rest);
    assert(key / 8 == f.number);
    assert(key % 8 == wire_type(f.payload));
    assert(b.skip(kb.len() as int) =~= pb + rest);
    match f.payload {
        Payload::Varint(v) => {
            lemma_u64_varint_roundtrip(v, rest);
        },
        Payload::Fixed64(bytes) => {
            assert((pb + rest).take(8) =~= bytes);
        },
        Payload::Bytes(bytes) => {
            let lb = encode_varint(bytes.len());
            assert(pb + rest =~= lb + (bytes + rest));
            lemma_u64_varint_roundtrip(bytes.len() as u64, bytes + rest);
            assert((pb + rest).subrange(lb.len() as int, (lb.len() + bytes.len()) as int) =~= bytes);
        },
        Payload::Fixed32(v) => {
            lemma_le32_roundtrip(v);
            assert((pb + rest).take(4) =~= le32(v));
        },
        Payload::Group => {},
    }
}

/// A message written from fields reads back as the same fields.
pub proof fn lemma_fields_roundtrip(fs: Seq<Field>, count: nat)
    requires
        fields_ok(fs),
    ensures
        parse_fields(encode_fields(fs), count) == Some(fs),
    decreases fs.len(),
{
    if fs.len() > 0 {
        let rest = encode_fields(fs.skip(1));
        lemma_field_roundtrip(fs[0], rest, count);
        let b = encode_fields(fs);
        let n = encode_field(fs[0]).len();
        assert(b.skip(n as int) =~= rest);
        assert(fields_ok(fs.skip(1)));
        lemma_fields_roundtrip(fs.skip(1), count);
        assert(seq![fs[0]] + fs.skip(1) =~= fs);
    }
}

/// Writing fields one after another writes the fields joined.
pub proof fn lemma_encode_fields_append(a: Seq<Field>, b: Seq<Field>)
    ensures
        encode_fields(a + b) == encode_fields(a) + encode_fields(b),
    decreases a.len(),
{
    if a.len() == 0 {
        assert(a + b =~= b);
    } else {
        lemma_encode_fields_append(a.skip(1), b);
        assert((a + b).skip(1) =~= a.skip(1) + b);
        assert((a + b)[0] == a[0]);
    }
}


/// A field as read from a buffer: content of wire types 1 and 2 is given as
/// a range of the buffer; a group has been skipped.
pub enum RawPayload {
    Varint(u64),
    Fixed64 { start: usize },
    Bytes { start: usize, end: usize },
    Fixed32(u32),
    Group,
}

/// A field as read from a buffer.
pub struct RawField {
    pub number: u64,
    pub payload: RawPayload,
}

/// The field that a field read from `buf` stands for.
pub open spec fn raw_field_view(f: RawField, buf: Seq<u8>) -> Field {
    Field {
        number: f.number,
        payload: match f.payload {
            RawPayload::Varint(v) => Payload::Varint(v),
            RawPayload::Fixed64 { start } => Payload::Fixed64(buf.subrange(start as int, start + 8)),
            RawPayload::Bytes { start, end } => Payload::Bytes(buf.subrange(start as int, end as int)),
            RawPayload::Fixed32(v) => Payload::Fixed32(v),
            RawPayload::Group => Payload::Group,
        },
    }
}

/// The fields that fields read from `buf` stand for.
pub open spec fn raw_fields_view(fs: Seq<RawField>, buf: Seq<u8>) -> Seq<Field> {
    fs.map_values(|f: RawField| raw_field_view(f, buf))
}

/// The ranges that a field read from a buffer refers to lie before `end`.
pub open spec fn raw_field_within(f: RawField, end: int) -> bool {
    match f.payload {
        RawPayload::Fixed64 { start } => start + 8 <= end,
        RawPayload::Bytes { start, end: e } => start <= e <= end,
        _ => true,
    }
}

/// Skips the content of a field of wire type `wt` and number `number` that
/// starts at `pos`, as [`skip_len`] says: the number of bytes it takes.
fn skip_content(buf: &[u8], pos: usize, end: usize, wt: u64, number: u64, count: u32) -> (r: Option<usize>)
    requires
        pos <= end <= buf@.len(),
    ensures
        match r {
            Some(m) => skip_len(buf@.subrange(pos as int, end as int), wt as nat, number as nat, count as nat)
                == Some(m as nat) && pos + m <= end,
            None => skip_len(buf@.subrange(pos as int, end as int), wt as nat, number as nat, count as nat)
                is None,
        },
    decreases end - pos, 1nat,
{
    if count == 0 {
        return None;
    }
    if wt == 0 {
        match read_varint(buf, pos, end) {
            Some((_, m)) => Some(m),
            None => None,
        }
    } else if wt == 1 {
        if end - pos >= 8 {
            Some(8)
        } else {
            None
        }
    } else if wt == 2 {
        match read_varint(buf, pos, end) {
            Some((len, m)) => {
                if len <= (end - pos - m) as u64 {
                    Some(m + len as usize)
                } else {
                    None
                }
            },
            None => None,
        }
    } else if wt == 3 {
        skip_group(buf, pos, end, number, count - 1)
    } else if wt == 5 {
        if end - pos >= 4 {
            Some(4)
        } else {
            None
        }
    } else {
        None
    }
}

/// Skips the rest of a group numbered `number` that starts at `pos`, up to
/// and with its end key, as [`group_len`] says: the number of bytes it takes.
fn skip_group(buf: &[u8], pos: usize, end: usize, number: u64, count: u32) -> (r: Option<usize>)
    requires
        pos <= end <= buf@.len(),
    ensures
        match r {
            Some(k) => group_len(buf@.subrange(pos as int, end as int), number as nat, count as nat) == Some(
                k as nat,
            ) && pos + k <= end,
            None => group_len(buf@.subrange(pos as int, end as int), number as nat, count as nat) is None,
        },
    decreases end - pos, 0nat,
{
    let ghost b = buf@.subrange(pos as int, end as int);
    let (key, n) = match read_varint(buf, pos, end) {
        Some(x) => x,
        None => return None,
    };
    if key > 0xffff_ffff || key / 8 == 0 || n == 0 {
        return None;
    }
    if key % 8 == 4 {
        if key / 8 == number {
            return Some(n);
        } else {
            return None;
        }
    }
    let p = pos + n;
    assert(b.skip(n as int) =~= buf@.subrange(p as int, end as int));
    let m = match skip_content(buf, p, end, key % 8, key / 8, count) {
        Some(m) => m,
        None => return None,
    };
    let q = p + m;
    assert(b.skip(n + m) =~= buf@.subrange(q as int, end as int));
    match skip_group(buf, q, end, number, count) {
        Some(k) => Some(n + m + k),
        None => None,
    }
}

/// Reads one field from the bytes of `buf` from `pos` up to `end`, skipping
/// a group with recursion budget `count`: the field and the number of bytes
/// it takes.
pub fn read_field(buf: &[u8], pos: usize, end: usize, count: u32) -> (r: Option<(RawField, usize)>)
    requires
        pos <= end <= buf@.len(),
    ensures
        match r {
            Some((f, n)) => parse_field(buf@.subrange(pos as int, end as int), count as nat) == Some(
                (raw_field_view(f, buf@), n as nat),
            ) && raw_field_within(f, end as int) && 0 < n && pos + n <= end,
            None => parse_field(buf@.subrange(pos as int, end as int), count as nat) is None,
        },
{
    let ghost b = buf@.subrange(pos as int, end as int);
    let (key, n) = match read_varint(buf, pos, end) {
        Some(x) => x,
        None => return None,
    };
    if key > 0xffff_ffff || key / 8 == 0 {
        return None;
    }
    let number = key / 8;
    let wt = key % 8;
    let p = pos + n;
    assert(b.skip(n as int) =~= buf@.subrange(p as int, end as int));
    if wt == 0 {
        match read_varint(buf, p, end) {
            Some((v, m)) => Some((RawField { number, payload: RawPayload::Varint(v) }, n + m)),
            None => None,
        }
    } else if wt == 1 {
        if end - p >= 8 {
            assert(buf@.subrange(p as int, end as int).take(8) =~= buf@.subrange(p as int, p + 8));
            Some((RawField { number, payload: RawPayload::Fixed64 { start: p } }, n + 8))
        } else {
            None
        }
    } else if wt == 2 {
        match read_varint(buf, p, end) {
            Some((len, m)) => {
                if len <= (end - p - m) as u64 {
                    let start = p + m;
                    let stop = start + len as usize;
                    assert(buf@.subrange(p as int, end as int).subrange(m as int, m + len) =~= buf@.subrange(
                        start as int,
                        stop as int,
                    ));
                    Some(
                        (
                            RawField { number, payload: RawPayload::Bytes { start, end: stop } },
                            n + m + len as usize,
                        ),
                    )
                } else {
                    None
                }
            },
            None => None,
        }
    } else if wt == 3 {
        match skip_content(buf, p, end, 3, number, count) {
            Some(g) => Some((RawField { number, payload: RawPayload::Group }, n + g)),
            None => None,
        }
    } else if wt == 5 {
        if end - p >= 4 {
            let v = (buf[p] as u32) | ((buf[p + 1] as u32) << 8u32) | ((buf[p + 2] as u32) << 16u32) | ((
            buf[p + 3] as u32) << 24u32);
            let ghost four = buf@.subrange(p as int, end as int).take(4);
            assert(four[0] == buf@[p as int]);
            assert(four[1] == buf@[p + 1]);
            assert(four[2] == buf@[p + 2]);
            assert(four[3] == buf@[p + 3]);
            Some((RawField { number, payload: RawPayload::Fixed32(v) }, n + 4))
        } else {
            None
        }
    } else {
        None
    }
}

/// Reads the fields of the message in the bytes of `buf` from `start` up to
/// `end`, whose fields prost reads with recursion budget `count`.
pub fn read_fields(buf: &[u8], start: usize, end: usize, count: u32) -> (r: Option<Vec<RawField>>)
    requires
        start <= end <= buf@.len(),
    ensures
        match r {
            Some(fs) => parse_fields(buf@.subrange(start as int, end as int), count as nat) == Some(
                raw_fields_view(fs@, buf@),
            ) && forall|i: int| 0 <= i < fs@.len() ==> raw_field_within(#[trigger] fs@[i], end as int),
            None => parse_fields(buf@.subrange(start as int, end as int), count as nat) is None,
        },
{
    let mut fields: Vec<RawField> = Vec::new();
    let mut pos = start;
    while pos < end
        invariant
            start <= pos <= end <= buf@.len(),
            parse_fields(buf@.subrange(start as int, end as int), count as nat) == match parse_fields(
                buf@.subrange(pos as int, end as int),
                count as nat,
            ) {
                Some(rest) => Some(raw_fields_view(fields@, buf@) + rest),
                None => None,
            },
            forall|i: int| 0 <= i < fields@.len() ==> raw_field_within(#[trigger] fields@[i], end as int),
        decreases end - pos,
    {
        let ghost b = buf@.subrange(pos as int, end as int);
        match read_field(buf, pos, end, count) {
            Some((f, n)) => {
                assert(b.skip(n as int) =~= buf@.subrange(pos + n, end as int));
                let ghost before = raw_fields_view(fields@, buf@);
                fields.push(f);
                assert(raw_fields_view(fields@, buf@) =~= before.push(raw_field_view(f, buf@)));
                proof {
                    match parse_fields(buf@.subrange(pos + n, end as int), count as nat) {
                        Some(rest) => {
                            assert(before + (seq![raw_field_view(f, buf@)] + rest) =~= before.push(
                                raw_field_view(f, buf@),
                            ) + rest);
                        },
                        None => {},
                    }
                }
                pos = pos + n;
            },
            None => {
                return None;
            },
        }
    }
    assert(buf@.subrange(pos as int, end as int) =~= Seq::<u8>::empty());
    assert(raw_fields_view(fields@, buf@) + Seq::<Field>::empty() =~= raw_fields_view(fields@, buf@));
    Some(fields)
}

fn write_key(out: &mut Vec<u8>, number: u64, wt: u64)
    requires
        1 <= number <= max_field_number(),
        wt < 8,
    ensures
        final(out)@ == old(out)@ + encode_varint((number * 8 + wt) as nat),
{
    write_varint(out, number * 8 + wt);
}

/// Appends a field of wire type 0.
pub fn write_varint_field(out: &mut Vec<u8>, number: u64, v: u64)
    requires
        1 <= number <= max_field_number(),
    ensures
        final(out)@ == old(out)@ + encode_field(Field { number, payload: Payload::Varint(v) }),
{
    write_key(out, number, 0);
    write_varint(out, v);
    assert(final(out)@ =~= old(out)@ + encode_field(Field { number, payload: Payload::Varint(v) }));
}

/// Appends a field of wire type 2.
pub fn write_bytes_field(out: &mut Vec<u8>, number: u64, bytes: Vec<u8>)
    requires
        1 <= number <= max_field_number(),
    ensures
        final(out)@ == old(out)@ + encode_field(Field { number, payload: Payload::Bytes(bytes@) }),
{
    let mut bytes = bytes;
    let ghost content = bytes@;
    write_key(out, number, 2);
    write_varint(out, bytes.len() as u64);
    out.append(&mut bytes);
    assert(final(out)@ =~= old(out)@ + encode_field(Field { number, payload: Payload::Bytes(content) }));
}

/// Appends a field of wire type 5.
pub fn write_fixed32_field(out: &mut Vec<u8>, number: u64, v: u32)
    requires
        1 <= number <= max_field_number(),
    ensures
        final(out)@ == old(out)@ + encode_field(Field { number, payload: Payload::Fixed32(v) }),
{
    write_key(out, number, 5);
    out.push(v as u8);
    out.push((v >> 8u32) as u8);
    out.push((v >> 16u32) as u8);
    out.push((v >> 24u32) as u8);
    assert(final(out)@ =~= old(out)@ + encode_field(Field { number, payload: Payload::Fixed32(v) }));
}

} // verus!
