//! The cache file's encoding of the map list, in the Protobuf wire format.
//!
//! Messages and field numbers:
//!
//! - `MapList`: `map<string, MapMetadata> map_metadata = 1`
//! - `MapMetadata`: `uint32 key = 1`, `string hash = 2`, `string song_name = 3`,
//!   `string song_sub_name = 4`, `string song_author_name = 5`,
//!   `string level_author_name = 6`, `uint32 duration = 7`, `uint32 uploaded = 8`,
//!   `uint32 last_updated = 9`, `uint32 mods = 10`, `optional string curator_name = 11`,
//!   `Votes votes = 12`, `repeated Difficulty difficulties = 13`
//! - `Votes`: `uint32 up = 1`, `uint32 down = 2`
//! - `Difficulty`: `float njs = 1`, `uint32 notes = 2`, `string characteristic_name = 3`,
//!   `string difficulty_name = 4`, `uint32 mods = 5`, `string environment_name = 6`,
//!   `Ranked ranked = 7`
//! - `Ranked`: `RankedValue score_saber = 1`, `RankedValue beat_leader = 2`
//! - `RankedValue`: `bool is_ranked = 1`, `float stars = 2`
//!
//! Every field but the curator's name is required, and written whatever its
//! value; the curator's name is written where it is set. A map entry leaves
//! out its id where the id is empty and its record where the record is the
//! default one. Reading skips unknown fields (groups among them, within
//! prost's recursion budget), lets a later scalar take the
//! place of an earlier one, merges repeated occurrences of a message field,
//! gives a field that is absent its default, and refuses fields whose wire
//! type does not match and text that is not UTF-8.

use vstd::prelude::*;
use vstd::slice::{slice_subrange, slice_to_vec};
use vstd::utf8::{decode_utf8, encode_utf8, encode_utf8_decode_utf8, encode_utf8_valid_utf8, valid_utf8};

use crate::mapdata::{
    lists_keys, opt_string_view, Difficulty, DifficultyView, MapList, MapMetadata, MapMetadataView, Ranked,
    RankedValue, Votes,
};
use crate::wire::{
    encode_varint, le32, lemma_u64_varint_roundtrip, encode_field, fields_ok, field_ok, lemma_fields_roundtrip, max_field_number, encode_fields, lemma_encode_fields_append, parse_fields, raw_field_view,
    raw_field_within, raw_fields_view, read_fields, write_bytes_field, write_fixed32_field,
    write_varint_field, Field, Payload, RawField, RawPayload,
};

verus! {

/// Applies `step` to `acc` for each field of `fs` in turn, stopping at the
/// first field it refuses.
pub open spec fn fold_fields<T>(acc: T, fs: Seq<Field>, step: spec_fn(T, Field) -> Option<T>) -> Option<T>
    decreases fs.len(),
{
    if fs.len() == 0 {
        Some(acc)
    } else {
        match step(acc, fs[0]) {
            Some(next) => fold_fields(next, fs.skip(1), step),
            None => None,
        }
    }
}

proof fn lemma_fold_append<T>(acc: T, a: Seq<Field>, b: Seq<Field>, step: spec_fn(T, Field) -> Option<T>)
    ensures
        fold_fields(acc, a + b, step) == match fold_fields(acc, a, step) {
            Some(mid) => fold_fields(mid, b, step),
            None => None,
        },
    decreases a.len(),
{
    if a.len() == 0 {
        assert(a + b =~= b);
    } else {
        assert((a + b)[0] == a[0]);
        assert((a + b).skip(1) =~= a.skip(1) + b);
        match step(acc, a[0]) {
            Some(next) => lemma_fold_append(next, a.skip(1), b, step),
            None => {},
        }
    }
}

proof fn lemma_fold_single<T>(acc: T, f: Field, step: spec_fn(T, Field) -> Option<T>)
    ensures
        fold_fields(acc, seq![f], step) == step(acc, f),
{
    assert(seq![f].skip(1) =~= Seq::<Field>::empty());
    assert(seq![f][0] == f);
    match step(acc, f) {
        Some(next) => {
            assert(fold_fields(next, Seq::<Field>::empty(), step) == Some(next));
        },
        None => {},
    }
}

proof fn lemma_encode_single(f: Field)
    ensures
        encode_fields(seq![f]) == encode_field(f),
{
    assert(seq![f].skip(1) =~= Seq::<Field>::empty());
    assert(seq![f][0] == f);
    assert(encode_fields(Seq::<Field>::empty()) == Seq::<u8>::empty());
    assert(encode_field(f) + Seq::<u8>::empty() =~= encode_field(f));
}

/// A varint field.
pub open spec fn varint_field(number: u64, v: u64) -> Field {
    Field { number, payload: Payload::Varint(v) }
}

/// A required varint field: written whatever its value.
pub open spec fn varint_fields(number: u64, v: u64) -> Seq<Field> {
    seq![varint_field(number, v)]
}

/// A required 32-bit field: written whatever its value.
pub open spec fn fixed32_fields(number: u64, v: u32) -> Seq<Field> {
    seq![Field { number, payload: Payload::Fixed32(v) }]
}

/// A string field.
pub open spec fn string_field(number: u64, s: Seq<char>) -> Field {
    Field { number, payload: Payload::Bytes(encode_utf8(s)) }
}

/// A required string field: written even where it is empty.
pub open spec fn string_fields(number: u64, s: Seq<char>) -> Seq<Field> {
    seq![string_field(number, s)]
}

/// A string field where `s` is not empty, else nothing, as a map entry's key
/// is written.
pub open spec fn opt_string(number: u64, s: Seq<char>) -> Seq<Field> {
    if s.len() == 0 {
        Seq::empty()
    } else {
        seq![string_field(number, s)]
    }
}

/// A field holding the message made of `fs`.
pub open spec fn message_field(number: u64, fs: Seq<Field>) -> Field {
    Field { number, payload: Payload::Bytes(encode_fields(fs)) }
}

/// The varint that a `bool` is written as.
pub open spec fn bool_value(b: bool) -> u64 {
    if b {
        1
    } else {
        0
    }
}

/// The text that a string field holds, where it is UTF-8.
pub open spec fn string_payload(p: Payload) -> Option<Seq<char>> {
    match p {
        Payload::Bytes(b) => if valid_utf8(b) {
            Some(decode_utf8(b))
        } else {
            None
        },
        _ => None,
    }
}

/// The recursion budgets with which prost reads the fields of each message
/// of the cache file: the map list's with 100, and each nested message's with
/// one less than the message that holds it. Skipping a group costs one more
/// for each level of groups.
pub const LIST_DEPTH: u32 = 100;
/// See [`LIST_DEPTH`].
pub const ENTRY_DEPTH: u32 = 99;
/// See [`LIST_DEPTH`].
pub const METADATA_DEPTH: u32 = 98;
/// See [`LIST_DEPTH`].
pub const VOTES_DEPTH: u32 = 97;
/// See [`LIST_DEPTH`].
pub const DIFFICULTY_DEPTH: u32 = 97;
/// See [`LIST_DEPTH`].
pub const RANKED_DEPTH: u32 = 96;
/// See [`LIST_DEPTH`].
pub const RANKED_VALUE_DEPTH: u32 = 95;

/// Reads a message from `b` into `acc`, field by field with `step`, with
/// recursion budget `count` for its fields.
pub open spec fn decode_message<T>(b: Seq<u8>, count: u32, acc: T, step: spec_fn(T, Field) -> Option<T>) -> Option<T> {
    match parse_fields(b, count as nat) {
        Some(fs) => fold_fields(acc, fs, step),
        None => None,
    }
}

/// Reads a message field into `acc`.
pub open spec fn message_payload<T>(p: Payload, count: u32, acc: T, step: spec_fn(T, Field) -> Option<T>) -> Option<T> {
    match p {
        Payload::Bytes(b) => decode_message(b, count, acc, step),
        _ => None,
    }
}

// ---------------------------------------------------------------------------
// RankedValue

/// The fields of a `RankedValue`.
pub open spec fn ranked_value_fields(r: RankedValue) -> Seq<Field> {
    varint_fields(1, bool_value(r.is_ranked)) + fixed32_fields(2, r.stars_bits)
}

/// Reads one field of a `RankedValue`.
pub open spec fn ranked_value_step(acc: RankedValue, f: Field) -> Option<RankedValue> {
    if f.number == 1 {
        match f.payload {
            Payload::Varint(v) => Some(RankedValue { is_ranked: v != 0, ..acc }),
            _ => None,
        }
    } else if f.number == 2 {
        match f.payload {
            Payload::Fixed32(v) => Some(RankedValue { stars_bits: v, ..acc }),
            _ => None,
        }
    } else {
        Some(acc)
    }
}

/// [`ranked_value_step`] as a function value.
pub open spec fn ranked_value_stepper() -> spec_fn(RankedValue, Field) -> Option<RankedValue> {
    |acc: RankedValue, f: Field| ranked_value_step(acc, f)
}

/// A `RankedValue` with every field at its default.
pub open spec fn default_ranked_value() -> RankedValue {
    RankedValue { is_ranked: false, stars_bits: 0 }
}

proof fn lemma_ranked_value_roundtrip(r: RankedValue)
    ensures
        fold_fields(default_ranked_value(), ranked_value_fields(r), ranked_value_stepper()) == Some(r),
{
    let step = ranked_value_stepper();
    let a = varint_fields(1, bool_value(r.is_ranked));
    let b = fixed32_fields(2, r.stars_bits);
    lemma_fold_append(default_ranked_value(), a, b, step);
    let mid = RankedValue { is_ranked: r.is_ranked, stars_bits: 0 };
    lemma_fold_single(default_ranked_value(), varint_field(1, bool_value(r.is_ranked)), step);
    assert(fold_fields(default_ranked_value(), a, step) == Some(mid));
    lemma_fold_single(mid, Field { number: 2, payload: Payload::Fixed32(r.stars_bits) }, step);
}

fn encode_ranked_value(r: &RankedValue) -> (out: Vec<u8>)
    ensures
        out@ == encode_fields(ranked_value_fields(*r)),
{
    let mut out: Vec<u8> = Vec::new();
    let flag: u64 = if r.is_ranked { 1 } else { 0 };
    write_varint_fields(&mut out, 1, flag);
    let ghost first = out@;
    write_fixed32_fields(&mut out, 2, r.stars_bits);
    assert(out@ =~= first + encode_fields(fixed32_fields(2, r.stars_bits)));
    proof {
        lemma_encode_fields_append(varint_fields(1, bool_value(r.is_ranked)), fixed32_fields(2, r.stars_bits));
    }
    out
}

fn decode_ranked_value(buf: &[u8], start: usize, end: usize, acc: RankedValue) -> (r: Option<RankedValue>)
    requires
        start <= end <= buf@.len(),
    ensures
        r == decode_message(buf@.subrange(start as int, end as int), RANKED_VALUE_DEPTH, acc, ranked_value_stepper()),
{
    let fields = match read_fields(buf, start, end, RANKED_VALUE_DEPTH) {
        Some(fs) => fs,
        None => return None,
    };
    let ghost fsv = raw_fields_view(fields@, buf@);
    let mut cur = acc;
    let n = fields.len();
    assert(fsv.skip(0) =~= fsv);
    for i in 0..n
        invariant
            n == fields@.len(),
            fsv == raw_fields_view(fields@, buf@),
            parse_fields(buf@.subrange(start as int, end as int), RANKED_VALUE_DEPTH as nat) == Some(fsv),
            fold_fields(acc, fsv, ranked_value_stepper()) == fold_fields(cur, fsv.skip(i as int), ranked_value_stepper()),
    {
        let f = &fields[i];
        let ghost fv = raw_field_view(*f, buf@);
        assert(fsv.skip(i as int)[0] == fv);
        assert(fsv.skip(i as int).skip(1) =~= fsv.skip(i + 1));
        let next: Option<RankedValue> = if f.number == 1 {
            match f.payload {
                RawPayload::Varint(v) => Some(RankedValue { is_ranked: v != 0, ..cur }),
                _ => None,
            }
        } else if f.number == 2 {
            match f.payload {
                RawPayload::Fixed32(v) => Some(RankedValue { stars_bits: v, ..cur }),
                _ => None,
            }
        } else {
            Some(cur)
        };
        assert(ranked_value_step(cur, fv) == next);
        assert((ranked_value_stepper())(cur, fv) == next);
        match next {
            Some(x) => {
                cur = x;
            },
            None => {
                assert(fold_fields(cur, fsv.skip(i as int), ranked_value_stepper()) is None);
                return None;
            },
        }
    }
    assert(fsv.skip(n as int) =~= Seq::<Field>::empty());
    Some(cur)
}


// ---------------------------------------------------------------------------
// Sizes and well-formedness of the fields that are written

/// Every field of `fs` has a number in range and is of wire type 0, 2 or 5.
pub open spec fn numbers_ok(fs: Seq<Field>) -> bool {
    forall|i: int|
        0 <= i < fs.len() ==> 1 <= (#[trigger] fs[i]).number <= max_field_number() && !(
        fs[i].payload is Fixed64) && !(fs[i].payload is Group)
}

proof fn lemma_numbers_ok_append(a: Seq<Field>, b: Seq<Field>)
    requires
        numbers_ok(a),
        numbers_ok(b),
    ensures
        numbers_ok(a + b),
{
    assert forall|i: int| 0 <= i < (a + b).len() implies 1 <= (#[trigger] (a + b)[i]).number
        <= max_field_number() && !((a + b)[i].payload is Fixed64) && !((a + b)[i].payload is Group) by {
        if i < a.len() {
            assert((a + b)[i] == a[i]);
        } else {
            assert((a + b)[i] == b[i - a.len()]);
        }
    }
}

proof fn lemma_field_within_fields(fs: Seq<Field>, i: int)
    requires
        0 <= i < fs.len(),
    ensures
        encode_field(fs[i]).len() <= encode_fields(fs).len(),
    decreases fs.len(),
{
    if i > 0 {
        lemma_field_within_fields(fs.skip(1), i - 1);
        assert(fs.skip(1)[i - 1] == fs[i]);
    }
}

proof fn lemma_fields_ok(fs: Seq<Field>)
    requires
        numbers_ok(fs),
        encode_fields(fs).len() <= u64::MAX,
    ensures
        fields_ok(fs),
        forall|i: int|
            0 <= i < fs.len() ==> ((#[trigger] fs[i]).payload matches Payload::Bytes(b) ==> b.len()
                <= encode_fields(fs).len()),
{
    assert forall|i: int|
        0 <= i < fs.len() implies field_ok(#[trigger] fs[i]) && (fs[i].payload matches Payload::Bytes(
        b) ==> b.len() <= encode_fields(fs).len()) by {
        lemma_field_within_fields(fs, i);
    }
}

/// Reading back a message written from fields gives the value they were written from.
proof fn lemma_message_roundtrip<T>(fs: Seq<Field>, count: u32, acc: T, step: spec_fn(T, Field) -> Option<T>, x: T)
    requires
        numbers_ok(fs),
        encode_fields(fs).len() <= u64::MAX,
        fold_fields(acc, fs, step) == Some(x),
    ensures
        decode_message(encode_fields(fs), count, acc, step) == Some(x),
{
    lemma_fields_ok(fs);
    lemma_fields_roundtrip(fs, count as nat);
}

proof fn lemma_string_roundtrip(s: Seq<char>)
    ensures
        string_payload(Payload::Bytes(encode_utf8(s))) == Some(s),
        encode_utf8(s).len() == 0 <==> s.len() == 0,
{
    encode_utf8_valid_utf8(s);
    encode_utf8_decode_utf8(s);
    if s.len() == 0 {
        assert(encode_utf8(s) =~= Seq::<u8>::empty());
    }
    if encode_utf8(s).len() == 0 {
        assert(decode_utf8(Seq::<u8>::empty()) =~= Seq::<char>::empty());
    }
}

proof fn lemma_opt_numbers(number: u64, v: u64, w: u32, s: Seq<char>)
    requires
        1 <= number <= max_field_number(),
    ensures
        numbers_ok(varint_fields(number, v)),
        numbers_ok(fixed32_fields(number, w)),
        numbers_ok(string_fields(number, s)),
        numbers_ok(opt_string(number, s)),
{
}

/// Reads the text of the bytes of `buf` from `start` up to `end`.
fn read_string(buf: &[u8], start: usize, end: usize) -> (r: Option<String>)
    requires
        start <= end <= buf@.len(),
    ensures
        match r {
            Some(s) => string_payload(Payload::Bytes(buf@.subrange(start as int, end as int))) == Some(s@),
            None => string_payload(Payload::Bytes(buf@.subrange(start as int, end as int))) is None,
        },
{
    let bytes = slice_to_vec(slice_subrange(buf, start, end));
    string_from_utf8(bytes)
}

/// The text that UTF-8 bytes encode.
///
/// Trusted: calls std's `String::from_utf8`. Claimed, as its documentation
/// says: it succeeds exactly on valid UTF-8, and the string it gives is the
/// one those bytes encode.
#[verifier::external_body]
fn string_from_utf8(bytes: Vec<u8>) -> (r: Option<String>)
    ensures
        match r {
            Some(s) => valid_utf8(bytes@) && s@ == decode_utf8(bytes@),
            None => !valid_utf8(bytes@),
        },
{
    String::from_utf8(bytes).ok()
}

/// Appends a string field, where the string is not empty.
fn write_opt_string(out: &mut Vec<u8>, number: u64, s: &String)
    requires
        1 <= number <= max_field_number(),
    ensures
        final(out)@ == old(out)@ + encode_fields(opt_string(number, s@)),
{
    if s.as_str().is_empty() {
        assert(old(out)@ + encode_fields(opt_string(number, s@)) =~= old(out)@);
        return;
    }
    let bytes = slice_to_vec(s.as_str().as_bytes());
    write_bytes_field(out, number, bytes);
    proof {
        lemma_encode_single(string_field(number, s@));
    }
}

/// Appends a varint field.
fn write_varint_fields(out: &mut Vec<u8>, number: u64, v: u64)
    requires
        1 <= number <= max_field_number(),
    ensures
        final(out)@ == old(out)@ + encode_fields(varint_fields(number, v)),
{
    write_varint_field(out, number, v);
    proof {
        lemma_encode_single(varint_field(number, v));
    }
}

// ---------------------------------------------------------------------------
// Votes

/// The fields of `Votes`.
pub open spec fn votes_fields(v: Votes) -> Seq<Field> {
    varint_fields(1, v.up as u64) + varint_fields(2, v.down as u64)
}

/// Reads one field of `Votes`.
pub open spec fn votes_step(acc: Votes, f: Field) -> Option<Votes> {
    if f.number == 1 {
        match f.payload {
            Payload::Varint(v) => Some(Votes { up: v as u32, ..acc }),
            _ => None,
        }
    } else if f.number == 2 {
        match f.payload {
            Payload::Varint(v) => Some(Votes { down: v as u32, ..acc }),
            _ => None,
        }
    } else {
        Some(acc)
    }
}

/// [`votes_step`] as a function value.
pub open spec fn votes_stepper() -> spec_fn(Votes, Field) -> Option<Votes> {
    |acc: Votes, f: Field| votes_step(acc, f)
}

/// `Votes` with every field at its default.
pub open spec fn default_votes() -> Votes {
    Votes { up: 0, down: 0 }
}

proof fn lemma_votes_roundtrip(v: Votes)
    requires
        encode_fields(votes_fields(v)).len() <= u64::MAX,
    ensures
        numbers_ok(votes_fields(v)),
        decode_message(encode_fields(votes_fields(v)), VOTES_DEPTH, default_votes(), votes_stepper()) == Some(v),
{
    let step = votes_stepper();
    let a = varint_fields(1, v.up as u64);
    let b = varint_fields(2, v.down as u64);
    lemma_fold_append(default_votes(), a, b, step);
    let mid = Votes { up: v.up, down: 0 };
    lemma_fold_single(default_votes(), varint_field(1, v.up as u64), step);
    assert(fold_fields(default_votes(), a, step) == Some(mid));
    lemma_fold_single(mid, varint_field(2, v.down as u64), step);
    lemma_opt_numbers(1, v.up as u64, 0, Seq::empty());
    lemma_opt_numbers(2, v.down as u64, 0, Seq::empty());
    lemma_numbers_ok_append(a, b);
    lemma_message_roundtrip(votes_fields(v), VOTES_DEPTH, default_votes(), step, v);
}

fn encode_votes(v: &Votes) -> (out: Vec<u8>)
    ensures
        out@ == encode_fields(votes_fields(*v)),
{
    let mut out: Vec<u8> = Vec::new();
    write_varint_fields(&mut out, 1, v.up as u64);
    write_varint_fields(&mut out, 2, v.down as u64);
    proof {
        lemma_encode_fields_append(varint_fields(1, v.up as u64), varint_fields(2, v.down as u64));
    }
    assert(out@ =~= encode_fields(votes_fields(*v)));
    out
}

fn decode_votes(buf: &[u8], start: usize, end: usize, acc: Votes) -> (r: Option<Votes>)
    requires
        start <= end <= buf@.len(),
    ensures
        r == decode_message(buf@.subrange(start as int, end as int), VOTES_DEPTH, acc, votes_stepper()),
{
    let fields = match read_fields(buf, start, end, VOTES_DEPTH) {
        Some(fs) => fs,
        None => return None,
    };
    let ghost fsv = raw_fields_view(fields@, buf@);
    let mut cur = acc;
    let n = fields.len();
    assert(fsv.skip(0) =~= fsv);
    for i in 0..n
        invariant
            n == fields@.len(),
            fsv == raw_fields_view(fields@, buf@),
            parse_fields(buf@.subrange(start as int, end as int), VOTES_DEPTH as nat) == Some(fsv),
            fold_fields(acc, fsv, votes_stepper()) == fold_fields(cur, fsv.skip(i as int), votes_stepper()),
    {
        let f = &fields[i];
        let ghost fv = raw_field_view(*f, buf@);
        assert(fsv.skip(i as int)[0] == fv);
        assert(fsv.skip(i as int).skip(1) =~= fsv.skip(i + 1));
        let next: Option<Votes> = if f.number == 1 {
            match f.payload {
                RawPayload::Varint(v) => Some(Votes { up: v as u32, ..cur }),
                _ => None,
            }
        } else if f.number == 2 {
            match f.payload {
                RawPayload::Varint(v) => Some(Votes { down: v as u32, ..cur }),
                _ => None,
            }
        } else {
            Some(cur)
        };
        assert((votes_stepper())(cur, fv) == next);
        match next {
            Some(x) => {
                cur = x;
            },
            None => {
                assert(fold_fields(cur, fsv.skip(i as int), votes_stepper()) is None);
                return None;
            },
        }
    }
    assert(fsv.skip(n as int) =~= Seq::<Field>::empty());
    Some(cur)
}

// ---------------------------------------------------------------------------
// Ranked

/// The fields of a `Ranked`.
pub open spec fn ranked_fields(r: Ranked) -> Seq<Field> {
    seq![
        message_field(1, ranked_value_fields(r.score_saber)),
        message_field(2, ranked_value_fields(r.beat_leader)),
    ]
}

/// Reads one field of a `Ranked`.
pub open spec fn ranked_step(acc: Ranked, f: Field) -> Option<Ranked> {
    if f.number == 1 {
        match message_payload(f.payload, RANKED_VALUE_DEPTH, acc.score_saber, ranked_value_stepper()) {
            Some(v) => Some(Ranked { score_saber: v, ..acc }),
            None => None,
        }
    } else if f.number == 2 {
        match message_payload(f.payload, RANKED_VALUE_DEPTH, acc.beat_leader, ranked_value_stepper()) {
            Some(v) => Some(Ranked { beat_leader: v, ..acc }),
            None => None,
        }
    } else {
        Some(acc)
    }
}

/// [`ranked_step`] as a function value.
pub open spec fn ranked_stepper() -> spec_fn(Ranked, Field) -> Option<Ranked> {
    |acc: Ranked, f: Field| ranked_step(acc, f)
}

/// A `Ranked` with every field at its default.
pub open spec fn default_ranked() -> Ranked {
    Ranked { score_saber: default_ranked_value(), beat_leader: default_ranked_value() }
}

proof fn lemma_ranked_value_message(r: RankedValue)
    requires
        encode_fields(ranked_value_fields(r)).len() <= u64::MAX,
    ensures
        numbers_ok(ranked_value_fields(r)),
        decode_message(encode_fields(ranked_value_fields(r)), RANKED_VALUE_DEPTH, default_ranked_value(), ranked_value_stepper())
            == Some(r),
{
    let a = varint_fields(1, bool_value(r.is_ranked));
    let b = fixed32_fields(2, r.stars_bits);
    lemma_ranked_value_roundtrip(r);
    lemma_opt_numbers(1, bool_value(r.is_ranked), 0, Seq::empty());
    lemma_opt_numbers(2, 0, r.stars_bits, Seq::empty());
    lemma_numbers_ok_append(a, b);
    lemma_message_roundtrip(ranked_value_fields(r), RANKED_VALUE_DEPTH, default_ranked_value(), ranked_value_stepper(), r);
}

proof fn lemma_ranked_roundtrip(r: Ranked)
    requires
        encode_fields(ranked_fields(r)).len() <= u64::MAX,
    ensures
        numbers_ok(ranked_fields(r)),
        decode_message(encode_fields(ranked_fields(r)), RANKED_DEPTH, default_ranked(), ranked_stepper()) == Some(r),
{
    let step = ranked_stepper();
    let f1 = message_field(1, ranked_value_fields(r.score_saber));
    let f2 = message_field(2, ranked_value_fields(r.beat_leader));
    let fs = ranked_fields(r);
    assert(numbers_ok(fs));
    lemma_fields_ok(fs);
    assert(fs[0] == f1 && fs[1] == f2);
    lemma_ranked_value_message(r.score_saber);
    lemma_ranked_value_message(r.beat_leader);
    let mid = Ranked { score_saber: r.score_saber, beat_leader: default_ranked_value() };
    assert(ranked_fields(r) =~= seq![f1] + seq![f2]);
    lemma_fold_append(default_ranked(), seq![f1], seq![f2], step);
    lemma_fold_single(default_ranked(), f1, step);
    lemma_fold_single(mid, f2, step);
    lemma_message_roundtrip(ranked_fields(r), RANKED_DEPTH, default_ranked(), step, r);
}

fn encode_ranked(r: &Ranked) -> (out: Vec<u8>)
    ensures
        out@ == encode_fields(ranked_fields(*r)),
{
    let mut out: Vec<u8> = Vec::new();
    let first = encode_ranked_value(&r.score_saber);
    write_bytes_field(&mut out, 1, first);
    let second = encode_ranked_value(&r.beat_leader);
    write_bytes_field(&mut out, 2, second);
    proof {
        let f1 = message_field(1, ranked_value_fields(r.score_saber));
        let f2 = message_field(2, ranked_value_fields(r.beat_leader));
        assert(ranked_fields(*r) =~= seq![f1] + seq![f2]);
        lemma_encode_fields_append(seq![f1], seq![f2]);
        lemma_encode_single(f1);
        lemma_encode_single(f2);
    }
    assert(out@ =~= encode_fields(ranked_fields(*r)));
    out
}

fn decode_ranked(buf: &[u8], start: usize, end: usize, acc: Ranked) -> (r: Option<Ranked>)
    requires
        start <= end <= buf@.len(),
    ensures
        r == decode_message(buf@.subrange(start as int, end as int), RANKED_DEPTH, acc, ranked_stepper()),
{
    let fields = match read_fields(buf, start, end, RANKED_DEPTH) {
        Some(fs) => fs,
        None => return None,
    };
    let ghost fsv = raw_fields_view(fields@, buf@);
    let mut cur = acc;
    let n = fields.len();
    assert(fsv.skip(0) =~= fsv);
    for i in 0..n
        invariant
            n == fields@.len(),
            end <= buf@.len(),
            fsv == raw_fields_view(fields@, buf@),
            parse_fields(buf@.subrange(start as int, end as int), RANKED_DEPTH as nat) == Some(fsv),
            forall|j: int| 0 <= j < fields@.len() ==> raw_field_within(#[trigger] fields@[j], end as int),
            fold_fields(acc, fsv, ranked_stepper()) == fold_fields(cur, fsv.skip(i as int), ranked_stepper()),
    {
        let f = &fields[i];
        let ghost fv = raw_field_view(*f, buf@);
        assert(raw_field_within(fields@[i as int], end as int));
        assert(fsv.skip(i as int)[0] == fv);
        assert(fsv.skip(i as int).skip(1) =~= fsv.skip(i + 1));
        let next: Option<Ranked> = if f.number == 1 {
            match f.payload {
                RawPayload::Bytes { start: s, end: e } => match decode_ranked_value(buf, s, e, cur.score_saber) {
                    Some(v) => Some(Ranked { score_saber: v, ..cur }),
                    None => None,
                },
                _ => None,
            }
        } else if f.number == 2 {
            match f.payload {
                RawPayload::Bytes { start: s, end: e } => match decode_ranked_value(buf, s, e, cur.beat_leader) {
                    Some(v) => Some(Ranked { beat_leader: v, ..cur }),
                    None => None,
                },
                _ => None,
            }
        } else {
            Some(cur)
        };
        assert((ranked_stepper())(cur, fv) == next);
        match next {
            Some(x) => {
                cur = x;
            },
            None => {
                assert(fold_fields(cur, fsv.skip(i as int), ranked_stepper()) is None);
                return None;
            },
        }
    }
    assert(fsv.skip(n as int) =~= Seq::<Field>::empty());
    Some(cur)
}


/// Appends a 32-bit field.
fn write_fixed32_fields(out: &mut Vec<u8>, number: u64, v: u32)
    requires
        1 <= number <= max_field_number(),
    ensures
        final(out)@ == old(out)@ + encode_fields(fixed32_fields(number, v)),
{
    write_fixed32_field(out, number, v);
    proof {
        lemma_encode_single(Field { number, payload: Payload::Fixed32(v) });
    }
}

/// Appends a field holding an encoded message.
fn write_message_field(out: &mut Vec<u8>, number: u64, message: Vec<u8>, Ghost(fs): Ghost<Seq<Field>>)
    requires
        1 <= number <= max_field_number(),
        message@ == encode_fields(fs),
    ensures
        final(out)@ == old(out)@ + encode_fields(seq![message_field(number, fs)]),
{
    write_bytes_field(out, number, message);
    proof {
        lemma_encode_single(message_field(number, fs));
    }
}

// ---------------------------------------------------------------------------
// Difficulty

/// The fields of a `Difficulty`.
#[verifier::opaque]
pub open spec fn difficulty_fields(d: DifficultyView) -> Seq<Field> {
    fixed32_fields(1, d.njs) + varint_fields(2, d.notes as u64) + string_fields(3, d.characteristic_name)
        + string_fields(4, d.difficulty_name) + varint_fields(5, d.mods as u64) + string_fields(
        6,
        d.environment_name,
    ) + seq![message_field(7, ranked_fields(d.ranked))]
}

/// Reads one field of a `Difficulty`.
#[verifier::opaque]
pub open spec fn difficulty_step(acc: DifficultyView, f: Field) -> Option<DifficultyView> {
    if f.number == 1 {
        match f.payload {
            Payload::Fixed32(v) => Some(DifficultyView { njs: v, ..acc }),
            _ => None,
        }
    } else if f.number == 2 {
        match f.payload {
            Payload::Varint(v) => Some(DifficultyView { notes: v as u32, ..acc }),
            _ => None,
        }
    } else if f.number == 3 {
        match string_payload(f.payload) {
            Some(s) => Some(DifficultyView { characteristic_name: s, ..acc }),
            None => None,
        }
    } else if f.number == 4 {
        match string_payload(f.payload) {
            Some(s) => Some(DifficultyView { difficulty_name: s, ..acc }),
            None => None,
        }
    } else if f.number == 5 {
        match f.payload {
            Payload::Varint(v) => Some(DifficultyView { mods: v as u32, ..acc }),
            _ => None,
        }
    } else if f.number == 6 {
        match string_payload(f.payload) {
            Some(s) => Some(DifficultyView { environment_name: s, ..acc }),
            None => None,
        }
    } else if f.number == 7 {
        match message_payload(f.payload, RANKED_DEPTH, acc.ranked, ranked_stepper()) {
            Some(r) => Some(DifficultyView { ranked: r, ..acc }),
            None => None,
        }
    } else {
        Some(acc)
    }
}

/// [`difficulty_step`] as a function value.
pub open spec fn difficulty_stepper() -> spec_fn(DifficultyView, Field) -> Option<DifficultyView> {
    |acc: DifficultyView, f: Field| difficulty_step(acc, f)
}

/// A `Difficulty` with every field at its default.
pub open spec fn default_difficulty_view() -> DifficultyView {
    DifficultyView {
        njs: 0,
        notes: 0,
        characteristic_name: Seq::empty(),
        difficulty_name: Seq::empty(),
        mods: 0,
        environment_name: Seq::empty(),
        ranked: default_ranked(),
    }
}

fn default_difficulty() -> (r: Difficulty)
    ensures
        r@ == default_difficulty_view(),
{
    let r = Difficulty {
        njs: 0,
        notes: 0,
        characteristic_name: String::new(),
        difficulty_name: String::new(),
        mods: 0,
        environment_name: String::new(),
        ranked: Ranked {
            score_saber: RankedValue { is_ranked: false, stars_bits: 0 },
            beat_leader: RankedValue { is_ranked: false, stars_bits: 0 },
        },
    };
    assert(r@ =~= default_difficulty_view());
    r
}

proof fn lemma_difficulty_roundtrip(d: DifficultyView)
    requires
        encode_fields(difficulty_fields(d)).len() <= u64::MAX,
    ensures
        numbers_ok(difficulty_fields(d)),
        decode_message(encode_fields(difficulty_fields(d)), DIFFICULTY_DEPTH, default_difficulty_view(), difficulty_stepper())
            == Some(d),
{
    reveal(difficulty_fields);
    reveal(difficulty_step);
    let step = difficulty_stepper();
    let a1 = fixed32_fields(1, d.njs);
    let a2 = varint_fields(2, d.notes as u64);
    let a3 = string_fields(3, d.characteristic_name);
    let a4 = string_fields(4, d.difficulty_name);
    let a5 = varint_fields(5, d.mods as u64);
    let a6 = string_fields(6, d.environment_name);
    let f7 = message_field(7, ranked_fields(d.ranked));
    let a7 = seq![f7];
    let p2 = a1 + a2;
    let p3 = p2 + a3;
    let p4 = p3 + a4;
    let p5 = p4 + a5;
    let p6 = p5 + a6;
    let fs = p6 + a7;
    assert(fs == difficulty_fields(d));
    lemma_opt_numbers(1, 0, d.njs, Seq::empty());
    lemma_opt_numbers(2, d.notes as u64, 0, d.characteristic_name);
    lemma_opt_numbers(3, 0, 0, d.characteristic_name);
    lemma_opt_numbers(4, 0, 0, d.difficulty_name);
    lemma_opt_numbers(5, d.mods as u64, 0, Seq::empty());
    lemma_opt_numbers(6, 0, 0, d.environment_name);
    lemma_numbers_ok_append(a1, a2);
    lemma_numbers_ok_append(p2, a3);
    lemma_numbers_ok_append(p3, a4);
    lemma_numbers_ok_append(p4, a5);
    lemma_numbers_ok_append(p5, a6);
    lemma_numbers_ok_append(p6, a7);
    lemma_fields_ok(fs);
    assert(fs[fs.len() - 1] == f7);
    lemma_ranked_roundtrip(d.ranked);
    lemma_string_roundtrip(d.characteristic_name);
    lemma_string_roundtrip(d.difficulty_name);
    lemma_string_roundtrip(d.environment_name);
    let d0 = default_difficulty_view();
    let d1 = DifficultyView { njs: d.njs, ..d0 };
    let d2 = DifficultyView { notes: d.notes, ..d1 };
    let d3 = DifficultyView { characteristic_name: d.characteristic_name, ..d2 };
    let d4 = DifficultyView { difficulty_name: d.difficulty_name, ..d3 };
    let d5 = DifficultyView { mods: d.mods, ..d4 };
    let d6 = DifficultyView { environment_name: d.environment_name, ..d5 };
    lemma_fold_single(d0, Field { number: 1, payload: Payload::Fixed32(d.njs) }, step);
    assert(fold_fields(d0, a1, step) == Some(d1));
    lemma_fold_single(d1, varint_field(2, d.notes as u64), step);
    assert(fold_fields(d1, a2, step) == Some(d2));
    lemma_fold_single(d2, string_field(3, d.characteristic_name), step);
    assert(fold_fields(d2, a3, step) == Some(d3));
    lemma_fold_single(d3, string_field(4, d.difficulty_name), step);
    assert(fold_fields(d3, a4, step) == Some(d4));
    lemma_fold_single(d4, varint_field(5, d.mods as u64), step);
    assert(fold_fields(d4, a5, step) == Some(d5));
    lemma_fold_single(d5, string_field(6, d.environment_name), step);
    assert(fold_fields(d5, a6, step) == Some(d6));
    lemma_fold_single(d6, f7, step);
    assert(fold_fields(d6, a7, step) == Some(d));
    lemma_fold_append(d0, a1, a2, step);
    lemma_fold_append(d0, p2, a3, step);
    lemma_fold_append(d0, p3, a4, step);
    lemma_fold_append(d0, p4, a5, step);
    lemma_fold_append(d0, p5, a6, step);
    lemma_fold_append(d0, p6, a7, step);
    lemma_message_roundtrip(fs, DIFFICULTY_DEPTH, d0, step, d);
}

fn encode_difficulty(d: &Difficulty) -> (out: Vec<u8>)
    ensures
        out@ == encode_fields(difficulty_fields(d@)),
{
    reveal(difficulty_fields);
    let ghost v = d@;
    let ghost a1 = fixed32_fields(1, v.njs);
    let ghost a2 = varint_fields(2, v.notes as u64);
    let ghost a3 = string_fields(3, v.characteristic_name);
    let ghost a4 = string_fields(4, v.difficulty_name);
    let ghost a5 = varint_fields(5, v.mods as u64);
    let ghost a6 = string_fields(6, v.environment_name);
    let ghost a7 = seq![message_field(7, ranked_fields(v.ranked))];
    let mut out: Vec<u8> = Vec::new();
    write_fixed32_fields(&mut out, 1, d.njs);
    write_varint_fields(&mut out, 2, d.notes as u64);
    write_string_field(&mut out, 3, &d.characteristic_name);
    write_string_field(&mut out, 4, &d.difficulty_name);
    write_varint_fields(&mut out, 5, d.mods as u64);
    write_string_field(&mut out, 6, &d.environment_name);
    let ranked = encode_ranked(&d.ranked);
    write_message_field(&mut out, 7, ranked, Ghost(ranked_fields(v.ranked)));
    proof {
        lemma_encode_fields_append(a1, a2);
        lemma_encode_fields_append(a1 + a2, a3);
        lemma_encode_fields_append(a1 + a2 + a3, a4);
        lemma_encode_fields_append(a1 + a2 + a3 + a4, a5);
        lemma_encode_fields_append(a1 + a2 + a3 + a4 + a5, a6);
        lemma_encode_fields_append(a1 + a2 + a3 + a4 + a5 + a6, a7);
    }
    assert(out@ =~= encode_fields(difficulty_fields(d@)));
    out
}

fn decode_difficulty(buf: &[u8], start: usize, end: usize, acc: Difficulty) -> (r: Option<Difficulty>)
    requires
        start <= end <= buf@.len(),
    ensures
        match r {
            Some(x) => decode_message(buf@.subrange(start as int, end as int), DIFFICULTY_DEPTH, acc@, difficulty_stepper())
                == Some(x@),
            None => decode_message(buf@.subrange(start as int, end as int), DIFFICULTY_DEPTH, acc@, difficulty_stepper()) is None,
        },
{
    reveal(difficulty_step);
    let fields = match read_fields(buf, start, end, DIFFICULTY_DEPTH) {
        Some(fs) => fs,
        None => return None,
    };
    let ghost fsv = raw_fields_view(fields@, buf@);
    let ghost acc_view = acc@;
    let mut cur = acc;
    let n = fields.len();
    assert(fsv.skip(0) =~= fsv);
    for i in 0..n
        invariant
            n == fields@.len(),
            end <= buf@.len(),
            fsv == raw_fields_view(fields@, buf@),
            parse_fields(buf@.subrange(start as int, end as int), DIFFICULTY_DEPTH as nat) == Some(fsv),
            forall|j: int| 0 <= j < fields@.len() ==> raw_field_within(#[trigger] fields@[j], end as int),
            acc_view == acc@,
            start <= end,
            fold_fields(acc_view, fsv, difficulty_stepper()) == fold_fields(
                cur@,
                fsv.skip(i as int),
                difficulty_stepper(),
            ),
    {
        let f = &fields[i];
        let ghost fv = raw_field_view(*f, buf@);
        let ghost before = cur@;
        proof {
            reveal(difficulty_step);
            reveal(metadata_step);
        }
        assert(raw_field_within(fields@[i as int], end as int));
        assert(fsv.skip(i as int)[0] == fv);
        assert(fsv.skip(i as int).skip(1) =~= fsv.skip(i + 1));
        let ok: bool = if f.number == 1 {
            match f.payload {
                RawPayload::Fixed32(v) => {
                    cur.njs = v;
                    true
                },
                _ => false,
            }
        } else if f.number == 2 {
            match f.payload {
                RawPayload::Varint(v) => {
                    cur.notes = v as u32;
                    true
                },
                _ => false,
            }
        } else if f.number == 3 {
            match f.payload {
                RawPayload::Bytes { start: s, end: e } => match read_string(buf, s, e) {
                    Some(text) => {
                        cur.characteristic_name = text;
                        true
                    },
                    None => false,
                },
                _ => false,
            }
        } else if f.number == 4 {
            match f.payload {
                RawPayload::Bytes { start: s, end: e } => match read_string(buf, s, e) {
                    Some(text) => {
                        cur.difficulty_name = text;
                        true
                    },
                    None => false,
                },
                _ => false,
            }
        } else if f.number == 5 {
            match f.payload {
                RawPayload::Varint(v) => {
                    cur.mods = v as u32;
                    true
                },
                _ => false,
            }
        } else if f.number == 6 {
            match f.payload {
                RawPayload::Bytes { start: s, end: e } => match read_string(buf, s, e) {
                    Some(text) => {
                        cur.environment_name = text;
                        true
                    },
                    None => false,
                },
                _ => false,
            }
        } else if f.number == 7 {
            match f.payload {
                RawPayload::Bytes { start: s, end: e } => match decode_ranked(buf, s, e, cur.ranked) {
                    Some(r) => {
                        cur.ranked = r;
                        true
                    },
                    None => false,
                },
                _ => false,
            }
        } else {
            true
        };
        if ok {
            assert((difficulty_stepper())(before, fv) == Some(cur@));
        } else {
            assert((difficulty_stepper())(before, fv) is None);
            assert(fold_fields(before, fsv.skip(i as int), difficulty_stepper()) is None);
            assert(decode_message(buf@.subrange(start as int, end as int), DIFFICULTY_DEPTH, acc_view, difficulty_stepper()) is None);
            return None;
        }
    }
    assert(fsv.skip(n as int) =~= Seq::<Field>::empty());
    Some(cur)
}


/// Appends a string field.
fn write_string_field(out: &mut Vec<u8>, number: u64, s: &String)
    requires
        1 <= number <= max_field_number(),
    ensures
        final(out)@ == old(out)@ + encode_fields(seq![string_field(number, s@)]),
{
    let bytes = slice_to_vec(s.as_str().as_bytes());
    write_bytes_field(out, number, bytes);
    proof {
        lemma_encode_single(string_field(number, s@));
    }
}

// ---------------------------------------------------------------------------
// MapMetadata

/// The curator field, where there is a curator.
pub open spec fn curator_fields(c: Option<Seq<char>>) -> Seq<Field> {
    match c {
        Some(s) => seq![string_field(11, s)],
        None => Seq::empty(),
    }
}

/// The fields of a list of difficulties, one per difficulty, in order.
pub open spec fn difficulty_list_fields(ds: Seq<DifficultyView>) -> Seq<Field> {
    ds.map_values(|d: DifficultyView| message_field(13, difficulty_fields(d)))
}

/// The fields of a `MapMetadata`.
#[verifier::opaque]
pub open spec fn metadata_fields(m: MapMetadataView) -> Seq<Field> {
    varint_fields(1, m.key as u64)
        + string_fields(2, m.hash)
        + string_fields(3, m.song_name)
        + string_fields(4, m.song_sub_name)
        + string_fields(5, m.song_author_name)
        + string_fields(6, m.level_author_name)
        + varint_fields(7, m.duration as u64)
        + varint_fields(8, m.uploaded as u64)
        + varint_fields(9, m.last_updated as u64)
        + varint_fields(10, m.mods as u64)
        + curator_fields(m.curator_name)
        + seq![message_field(12, votes_fields(m.votes))]
        + difficulty_list_fields(m.difficulties)
}

/// Reads one field of a `MapMetadata`.
#[verifier::opaque]
pub open spec fn metadata_step(acc: MapMetadataView, f: Field) -> Option<MapMetadataView> {
    if f.number == 1 {
        match f.payload {
            Payload::Varint(v) => Some(MapMetadataView { key: v as u32, ..acc }),
            _ => None,
        }
    } else if f.number == 2 {
        match string_payload(f.payload) {
            Some(s) => Some(MapMetadataView { hash: s, ..acc }),
            None => None,
        }
    } else if f.number == 3 {
        match string_payload(f.payload) {
            Some(s) => Some(MapMetadataView { song_name: s, ..acc }),
            None => None,
        }
    } else if f.number == 4 {
        match string_payload(f.payload) {
            Some(s) => Some(MapMetadataView { song_sub_name: s, ..acc }),
            None => None,
        }
    } else if f.number == 5 {
        match string_payload(f.payload) {
            Some(s) => Some(MapMetadataView { song_author_name: s, ..acc }),
            None => None,
        }
    } else if f.number == 6 {
        match string_payload(f.payload) {
            Some(s) => Some(MapMetadataView { level_author_name: s, ..acc }),
            None => None,
        }
    } else if f.number == 7 {
        match f.payload {
            Payload::Varint(v) => Some(MapMetadataView { duration: v as u32, ..acc }),
            _ => None,
        }
    } else if f.number == 8 {
        match f.payload {
            Payload::Varint(v) => Some(MapMetadataView { uploaded: v as u32, ..acc }),
            _ => None,
        }
    } else if f.number == 9 {
        match f.payload {
            Payload::Varint(v) => Some(MapMetadataView { last_updated: v as u32, ..acc }),
            _ => None,
        }
    } else if f.number == 10 {
        match f.payload {
            Payload::Varint(v) => Some(MapMetadataView { mods: v as u32, ..acc }),
            _ => None,
        }
    } else if f.number == 11 {
        match string_payload(f.payload) {
            Some(s) => Some(MapMetadataView { curator_name: Some(s), ..acc }),
            None => None,
        }
    } else if f.number == 12 {
        match message_payload(f.payload, VOTES_DEPTH, acc.votes, votes_stepper()) {
            Some(v) => Some(MapMetadataView { votes: v, ..acc }),
            None => None,
        }
    } else if f.number == 13 {
        match message_payload(f.payload, DIFFICULTY_DEPTH, default_difficulty_view(), difficulty_stepper()) {
            Some(d) => Some(MapMetadataView { difficulties: acc.difficulties.push(d), ..acc }),
            None => None,
        }
    } else {
        Some(acc)
    }
}

/// [`metadata_step`] as a function value.
pub open spec fn metadata_stepper() -> spec_fn(MapMetadataView, Field) -> Option<MapMetadataView> {
    |acc: MapMetadataView, f: Field| metadata_step(acc, f)
}

/// A `MapMetadata` with every field at its default.
pub open spec fn default_metadata_view() -> MapMetadataView {
    MapMetadataView {
        key: 0,
        hash: Seq::empty(),
        song_name: Seq::empty(),
        song_sub_name: Seq::empty(),
        song_author_name: Seq::empty(),
        level_author_name: Seq::empty(),
        duration: 0,
        uploaded: 0,
        last_updated: 0,
        mods: 0,
        curator_name: None,
        votes: default_votes(),
        difficulties: Seq::empty(),
    }
}

fn default_metadata() -> (r: MapMetadata)
    ensures
        r@ == default_metadata_view(),
{
    let r = MapMetadata {
        key: 0,
        hash: String::new(),
        song_name: String::new(),
        song_sub_name: String::new(),
        song_author_name: String::new(),
        level_author_name: String::new(),
        duration: 0,
        uploaded: 0,
        last_updated: 0,
        mods: 0,
        curator_name: None,
        votes: Votes { up: 0, down: 0 },
        difficulties: Vec::new(),
    };
    assert(r@.difficulties =~= Seq::<DifficultyView>::empty());
    assert(r@ =~= default_metadata_view());
    r
}

proof fn lemma_curator_fields(c: Option<Seq<char>>)
    ensures
        numbers_ok(curator_fields(c)),
{
}

proof fn lemma_difficulty_list_numbers(ds: Seq<DifficultyView>)
    ensures
        numbers_ok(difficulty_list_fields(ds)),
{
}

proof fn lemma_difficulty_list_roundtrip(acc: MapMetadataView, ds: Seq<DifficultyView>)
    requires
        forall|i: int| 0 <= i < ds.len() ==> encode_fields(difficulty_fields(#[trigger] ds[i])).len() <= u64::MAX,
    ensures
        fold_fields(acc, difficulty_list_fields(ds), metadata_stepper()) == Some(
            MapMetadataView { difficulties: acc.difficulties + ds, ..acc },
        ),
    decreases ds.len(),
{
    reveal(metadata_step);
    let fs = difficulty_list_fields(ds);
    if ds.len() == 0 {
        assert(acc.difficulties + ds =~= acc.difficulties);
    } else {
        let d = ds[0];
        lemma_difficulty_roundtrip(d);
        let next = MapMetadataView { difficulties: acc.difficulties.push(d), ..acc };
        assert(fs[0] == message_field(13, difficulty_fields(d)));
        assert((metadata_stepper())(acc, fs[0]) == Some(next));
        assert(fs.skip(1) =~= difficulty_list_fields(ds.skip(1)));
        assert forall|i: int| 0 <= i < ds.skip(1).len() implies encode_fields(
            difficulty_fields(#[trigger] ds.skip(1)[i]),
        ).len() <= u64::MAX by {
            assert(ds.skip(1)[i] == ds[i + 1]);
        }
        lemma_difficulty_list_roundtrip(next, ds.skip(1));
        assert(next.difficulties + ds.skip(1) =~= acc.difficulties + ds);
    }
}

#[verifier::rlimit(60)]
proof fn lemma_metadata_roundtrip(m: MapMetadataView)
    requires
        encode_fields(metadata_fields(m)).len() <= u64::MAX,
    ensures
        numbers_ok(metadata_fields(m)),
        decode_message(encode_fields(metadata_fields(m)), METADATA_DEPTH, default_metadata_view(), metadata_stepper())
            == Some(m),
{
    reveal(metadata_fields);
    reveal(metadata_step);
    let step = metadata_stepper();
    let a1 = varint_fields(1, m.key as u64);
    let a2 = string_fields(2, m.hash);
    let a3 = string_fields(3, m.song_name);
    let a4 = string_fields(4, m.song_sub_name);
    let a5 = string_fields(5, m.song_author_name);
    let a6 = string_fields(6, m.level_author_name);
    let a7 = varint_fields(7, m.duration as u64);
    let a8 = varint_fields(8, m.uploaded as u64);
    let a9 = varint_fields(9, m.last_updated as u64);
    let a10 = varint_fields(10, m.mods as u64);
    let a11 = curator_fields(m.curator_name);
    let f12 = message_field(12, votes_fields(m.votes));
    let a12 = seq![f12];
    let a13 = difficulty_list_fields(m.difficulties);
    let p_2 = a1 + a2;
    let p_3 = p_2 + a3;
    let p_4 = p_3 + a4;
    let p_5 = p_4 + a5;
    let p_6 = p_5 + a6;
    let p_7 = p_6 + a7;
    let p_8 = p_7 + a8;
    let p_9 = p_8 + a9;
    let p_10 = p_9 + a10;
    let p_11 = p_10 + a11;
    let p_12 = p_11 + a12;
    let p_13 = p_12 + a13;
   let fs = p_13;
    assert(fs == metadata_fields(m));
    lemma_opt_numbers(1, m.key as u64, 0, Seq::empty());
    lemma_opt_numbers(2, 0, 0, m.hash);
    lemma_string_roundtrip(m.hash);
    lemma_opt_numbers(3, 0, 0, m.song_name);
    lemma_string_roundtrip(m.song_name);
    lemma_opt_numbers(4, 0, 0, m.song_sub_name);
    lemma_string_roundtrip(m.song_sub_name);
    lemma_opt_numbers(5, 0, 0, m.song_author_name);
    lemma_string_roundtrip(m.song_author_name);
    lemma_opt_numbers(6, 0, 0, m.level_author_name);
    lemma_string_roundtrip(m.level_author_name);
    lemma_opt_numbers(7, m.duration as u64, 0, Seq::empty());
    lemma_opt_numbers(8, m.uploaded as u64, 0, Seq::empty());
    lemma_opt_numbers(9, m.last_updated as u64, 0, Seq::empty());
    lemma_opt_numbers(10, m.mods as u64, 0, Seq::empty());
    lemma_curator_fields(m.curator_name);
    lemma_difficulty_list_numbers(m.difficulties);
    lemma_numbers_ok_append(a1, a2);
    lemma_numbers_ok_append(p_2, a3);
    lemma_numbers_ok_append(p_3, a4);
    lemma_numbers_ok_append(p_4, a5);
    lemma_numbers_ok_append(p_5, a6);
    lemma_numbers_ok_append(p_6, a7);
    lemma_numbers_ok_append(p_7, a8);
    lemma_numbers_ok_append(p_8, a9);
    lemma_numbers_ok_append(p_9, a10);
    lemma_numbers_ok_append(p_10, a11);
    lemma_numbers_ok_append(p_11, a12);
    lemma_numbers_ok_append(p_12, a13);
   lemma_fields_ok(fs);
    let base = p_12.len();
    assert(fs[base - 1] == f12);
    lemma_votes_roundtrip(m.votes);
    assert forall|i: int| 0 <= i < m.difficulties.len() implies encode_fields(
        difficulty_fields(#[trigger] m.difficulties[i]),
    ).len() <= u64::MAX by {
        assert(fs[base + i] == a13[i]);
    }
    let m0 = default_metadata_view();
    let m1 = MapMetadataView { key: m.key, ..m0 };
    let m2 = MapMetadataView { hash: m.hash, ..m1 };
    let m3 = MapMetadataView { song_name: m.song_name, ..m2 };
    let m4 = MapMetadataView { song_sub_name: m.song_sub_name, ..m3 };
    let m5 = MapMetadataView { song_author_name: m.song_author_name, ..m4 };
    let m6 = MapMetadataView { level_author_name: m.level_author_name, ..m5 };
    let m7 = MapMetadataView { duration: m.duration, ..m6 };
    let m8 = MapMetadataView { uploaded: m.uploaded, ..m7 };
    let m9 = MapMetadataView { last_updated: m.last_updated, ..m8 };
    let m10 = MapMetadataView { mods: m.mods, ..m9 };
    let m11 = MapMetadataView { curator_name: m.curator_name, ..m10 };
    let m12 = MapMetadataView { votes: m.votes, ..m11 };
    lemma_fold_single(m0, varint_field(1, m.key as u64), step);
    assert(fold_fields(m0, a1, step) == Some(m1));
    lemma_fold_single(m1, string_field(2, m.hash), step);
    assert(fold_fields(m1, a2, step) == Some(m2));
    lemma_fold_single(m2, string_field(3, m.song_name), step);
    assert(fold_fields(m2, a3, step) == Some(m3));
    lemma_fold_single(m3, string_field(4, m.song_sub_name), step);
    assert(fold_fields(m3, a4, step) == Some(m4));
    lemma_fold_single(m4, string_field(5, m.song_author_name), step);
    assert(fold_fields(m4, a5, step) == Some(m5));
    lemma_fold_single(m5, string_field(6, m.level_author_name), step);
    assert(fold_fields(m5, a6, step) == Some(m6));
    lemma_fold_single(m6, varint_field(7, m.duration as u64), step);
    assert(fold_fields(m6, a7, step) == Some(m7));
    lemma_fold_single(m7, varint_field(8, m.uploaded as u64), step);
    assert(fold_fields(m7, a8, step) == Some(m8));
    lemma_fold_single(m8, varint_field(9, m.last_updated as u64), step);
    assert(fold_fields(m8, a9, step) == Some(m9));
    lemma_fold_single(m9, varint_field(10, m.mods as u64), step);
    assert(fold_fields(m9, a10, step) == Some(m10));
    match m.curator_name {
        Some(c) => {
            lemma_fold_single(m10, string_field(11, c), step);
            lemma_string_roundtrip(c);
        },
        None => {},
    }
    assert(fold_fields(m10, a11, step) == Some(m11));
    lemma_fold_single(m11, f12, step);
    assert(fold_fields(m11, a12, step) == Some(m12));
    lemma_difficulty_list_roundtrip(m12, m.difficulties);
    assert(m12.difficulties + m.difficulties =~= m.difficulties);
    assert(MapMetadataView { difficulties: m.difficulties, ..m12 } == m);
    lemma_fold_append(m0, a1, a2, step);
    lemma_fold_append(m0, p_2, a3, step);
    lemma_fold_append(m0, p_3, a4, step);
    lemma_fold_append(m0, p_4, a5, step);
    lemma_fold_append(m0, p_5, a6, step);
    lemma_fold_append(m0, p_6, a7, step);
    lemma_fold_append(m0, p_7, a8, step);
    lemma_fold_append(m0, p_8, a9, step);
    lemma_fold_append(m0, p_9, a10, step);
    lemma_fold_append(m0, p_10, a11, step);
    lemma_fold_append(m0, p_11, a12, step);
    lemma_fold_append(m0, p_12, a13, step);
   lemma_message_roundtrip(fs, METADATA_DEPTH, m0, step, m);
}

fn encode_metadata(m: &MapMetadata) -> (out: Vec<u8>)
    ensures
        out@ == encode_fields(metadata_fields(m@)),
{
    reveal(metadata_fields);
    let ghost v = m@;
    let ghost a1 = varint_fields(1, v.key as u64);
    let ghost a2 = string_fields(2, v.hash);
    let ghost a3 = string_fields(3, v.song_name);
    let ghost a4 = string_fields(4, v.song_sub_name);
    let ghost a5 = string_fields(5, v.song_author_name);
    let ghost a6 = string_fields(6, v.level_author_name);
    let ghost a7 = varint_fields(7, v.duration as u64);
    let ghost a8 = varint_fields(8, v.uploaded as u64);
    let ghost a9 = varint_fields(9, v.last_updated as u64);
    let ghost a10 = varint_fields(10, v.mods as u64);
    let ghost a11 = curator_fields(v.curator_name);
    let ghost a12 = seq![message_field(12, votes_fields(v.votes))];
    let mut out: Vec<u8> = Vec::new();
    write_varint_fields(&mut out, 1, m.key as u64);
    write_string_field(&mut out, 2, &m.hash);
    write_string_field(&mut out, 3, &m.song_name);
    write_string_field(&mut out, 4, &m.song_sub_name);
    write_string_field(&mut out, 5, &m.song_author_name);
    write_string_field(&mut out, 6, &m.level_author_name);
    write_varint_fields(&mut out, 7, m.duration as u64);
    write_varint_fields(&mut out, 8, m.uploaded as u64);
    write_varint_fields(&mut out, 9, m.last_updated as u64);
    write_varint_fields(&mut out, 10, m.mods as u64);
    match &m.curator_name {
        Some(c) => {
            write_string_field(&mut out, 11, c);
        },
        None => {
            assert(encode_fields(a11) =~= Seq::<u8>::empty());
        },
    }
    let votes = encode_votes(&m.votes);
    write_message_field(&mut out, 12, votes, Ghost(votes_fields(v.votes)));
    proof {
        lemma_encode_fields_append(a1, a2);
        lemma_encode_fields_append(a1 + a2, a3);
        lemma_encode_fields_append(a1 + a2 + a3, a4);
        lemma_encode_fields_append(a1 + a2 + a3 + a4, a5);
        lemma_encode_fields_append(a1 + a2 + a3 + a4 + a5, a6);
        lemma_encode_fields_append(a1 + a2 + a3 + a4 + a5 + a6, a7);
        lemma_encode_fields_append(a1 + a2 + a3 + a4 + a5 + a6 + a7, a8);
        lemma_encode_fields_append(a1 + a2 + a3 + a4 + a5 + a6 + a7 + a8, a9);
        lemma_encode_fields_append(a1 + a2 + a3 + a4 + a5 + a6 + a7 + a8 + a9, a10);
        lemma_encode_fields_append(a1 + a2 + a3 + a4 + a5 + a6 + a7 + a8 + a9 + a10, a11);
        lemma_encode_fields_append(a1 + a2 + a3 + a4 + a5 + a6 + a7 + a8 + a9 + a10 + a11, a12);
    }
    let ghost head = out@;
    let ghost ds = v.difficulties;
    let n = m.difficulties.len();
    assert(difficulty_list_fields(ds.take(0)) =~= Seq::<Field>::empty());
    for i in 0..n
        invariant
            n == m.difficulties@.len(),
            ds == m@.difficulties,
            out@ == head + encode_fields(difficulty_list_fields(ds.take(i as int))),
    {
        let ghost before = out@;
        let encoded = encode_difficulty(&m.difficulties[i]);
        assert(ds[i as int] == m.difficulties@[i as int]@);
        write_message_field(&mut out, 13, encoded, Ghost(difficulty_fields(ds[i as int])));
        proof {
            assert(difficulty_list_fields(ds.take(i + 1)) =~= difficulty_list_fields(ds.take(i as int))
                + seq![message_field(13, difficulty_fields(ds[i as int]))]);
            lemma_encode_fields_append(
                difficulty_list_fields(ds.take(i as int)),
                seq![message_field(13, difficulty_fields(ds[i as int]))],
            );
        }
    }
    assert(ds.take(n as int) =~= ds);
    proof {
        lemma_encode_fields_append(a1 + a2 + a3 + a4 + a5 + a6 + a7 + a8 + a9 + a10 + a11 + a12, difficulty_list_fields(ds));
    }
    assert(out@ =~= encode_fields(metadata_fields(m@)));
    out
}

fn decode_metadata(buf: &[u8], start: usize, end: usize, acc: MapMetadata) -> (r: Option<MapMetadata>)
    requires
        start <= end <= buf@.len(),
    ensures
        match r {
            Some(x) => decode_message(buf@.subrange(start as int, end as int), METADATA_DEPTH, acc@, metadata_stepper())
                == Some(x@),
            None => decode_message(buf@.subrange(start as int, end as int), METADATA_DEPTH, acc@, metadata_stepper()) is None,
        },
{
    reveal(metadata_step);
    let fields = match read_fields(buf, start, end, METADATA_DEPTH) {
        Some(fs) => fs,
        None => return None,
    };
    let ghost fsv = raw_fields_view(fields@, buf@);
    let ghost acc_view = acc@;
    let mut cur = acc;
    let n = fields.len();
    assert(fsv.skip(0) =~= fsv);
    for i in 0..n
        invariant
            n == fields@.len(),
            end <= buf@.len(),
            fsv == raw_fields_view(fields@, buf@),
            parse_fields(buf@.subrange(start as int, end as int), METADATA_DEPTH as nat) == Some(fsv),
            forall|j: int| 0 <= j < fields@.len() ==> raw_field_within(#[trigger] fields@[j], end as int),
            acc_view == acc@,
            start <= end,
            fold_fields(acc_view, fsv, metadata_stepper()) == fold_fields(
                cur@,
                fsv.skip(i as int),
                metadata_stepper(),
            ),
    {
        let f = &fields[i];
        let ghost fv = raw_field_view(*f, buf@);
        let ghost before = cur@;
        proof {
            reveal(difficulty_step);
            reveal(metadata_step);
        }
        assert(raw_field_within(fields@[i as int], end as int));
        assert(fsv.skip(i as int)[0] == fv);
        assert(fsv.skip(i as int).skip(1) =~= fsv.skip(i + 1));
        let ok: bool = if f.number == 1 {
            match f.payload {
                RawPayload::Varint(v) => {
                    cur.key = v as u32;
                    true
                },
                _ => false,
            }
        } else if f.number == 2 {
            match f.payload {
                RawPayload::Bytes { start: s, end: e } => match read_string(buf, s, e) {
                    Some(text) => {
                        cur.hash = text;
                        true
                    },
                    None => false,
                },
                _ => false,
            }
        } else if f.number == 3 {
            match f.payload {
                RawPayload::Bytes { start: s, end: e } => match read_string(buf, s, e) {
                    Some(text) => {
                        cur.song_name = text;
                        true
                    },
                    None => false,
                },
                _ => false,
            }
        } else if f.number == 4 {
            match f.payload {
                RawPayload::Bytes { start: s, end: e } => match read_string(buf, s, e) {
                    Some(text) => {
                        cur.song_sub_name = text;
                        true
                    },
                    None => false,
                },
                _ => false,
            }
        } else if f.number == 5 {
            match f.payload {
                RawPayload::Bytes { start: s, end: e } => match read_string(buf, s, e) {
                    Some(text) => {
                        cur.song_author_name = text;
                        true
                    },
                    None => false,
                },
                _ => false,
            }
        } else if f.number == 6 {
            match f.payload {
                RawPayload::Bytes { start: s, end: e } => match read_string(buf, s, e) {
                    Some(text) => {
                        cur.level_author_name = text;
                        true
                    },
                    None => false,
                },
                _ => false,
            }
        } else if f.number == 7 {
            match f.payload {
                RawPayload::Varint(v) => {
                    cur.duration = v as u32;
                    true
                },
                _ => false,
            }
        } else if f.number == 8 {
            match f.payload {
                RawPayload::Varint(v) => {
                    cur.uploaded = v as u32;
                    true
                },
                _ => false,
            }
        } else if f.number == 9 {
            match f.payload {
                RawPayload::Varint(v) => {
                    cur.last_updated = v as u32;
                    true
                },
                _ => false,
            }
        } else if f.number == 10 {
            match f.payload {
                RawPayload::Varint(v) => {
                    cur.mods = v as u32;
                    true
                },
                _ => false,
            }
        } else if f.number == 11 {
            match f.payload {
                RawPayload::Bytes { start: s, end: e } => match read_string(buf, s, e) {
                    Some(text) => {
                        cur.curator_name = Some(text);
                        true
                    },
                    None => false,
                },
                _ => false,
            }
        } else if f.number == 12 {
            match f.payload {
                RawPayload::Bytes { start: s, end: e } => match decode_votes(buf, s, e, cur.votes) {
                    Some(v) => {
                        cur.votes = v;
                        true
                    },
                    None => false,
                },
                _ => false,
            }
        } else if f.number == 13 {
            match f.payload {
                RawPayload::Bytes { start: s, end: e } => match decode_difficulty(buf, s, e, default_difficulty()) {
                    Some(d) => {
                        let ghost dv = d@;
                        cur.difficulties.push(d);
                        assert(cur@.difficulties =~= before.difficulties.push(dv));
                        true
                    },
                    None => false,
                },
                _ => false,
            }
        } else {
            true
        };
        if ok {
            assert((metadata_stepper())(before, fv) == Some(cur@));
        } else {
            assert((metadata_stepper())(before, fv) is None);
            assert(fold_fields(before, fsv.skip(i as int), metadata_stepper()) is None);
            assert(decode_message(buf@.subrange(start as int, end as int), METADATA_DEPTH, acc_view, metadata_stepper()) is None);
            return None;
        }
    }
    assert(fsv.skip(n as int) =~= Seq::<Field>::empty());
    Some(cur)
}


// ---------------------------------------------------------------------------
// Map entries and the map list

/// The record field of a map entry: left out where the record is the
/// default one, as an entry's value is.
pub open spec fn entry_value_fields(m: MapMetadataView) -> Seq<Field> {
    if m == default_metadata_view() {
        Seq::empty()
    } else {
        seq![message_field(2, metadata_fields(m))]
    }
}

/// The fields of one entry of the map: its id and its record.
#[verifier::opaque]
pub open spec fn entry_fields(id: Seq<char>, m: MapMetadataView) -> Seq<Field> {
    opt_string(1, id) + entry_value_fields(m)
}

/// Reads one field of a map entry.
#[verifier::opaque]
pub open spec fn entry_step(acc: (Seq<char>, MapMetadataView), f: Field) -> Option<(Seq<char>, MapMetadataView)> {
    if f.number == 1 {
        match string_payload(f.payload) {
            Some(s) => Some((s, acc.1)),
            None => None,
        }
    } else if f.number == 2 {
        match message_payload(f.payload, METADATA_DEPTH, acc.1, metadata_stepper()) {
            Some(m) => Some((acc.0, m)),
            None => None,
        }
    } else {
        Some(acc)
    }
}

/// [`entry_step`] as a function value.
pub open spec fn entry_stepper() -> spec_fn((Seq<char>, MapMetadataView), Field) -> Option<(Seq<char>, MapMetadataView)> {
    |acc: (Seq<char>, MapMetadataView), f: Field| entry_step(acc, f)
}

/// A map entry with both parts at their defaults.
pub open spec fn default_entry() -> (Seq<char>, MapMetadataView) {
    (Seq::empty(), default_metadata_view())
}

/// The fields of a map list that lists the records of `m` in the order of `ids`.
pub open spec fn list_fields(ids: Seq<Seq<char>>, m: Map<Seq<char>, MapMetadataView>) -> Seq<Field> {
    ids.map_values(|k: Seq<char>| message_field(1, entry_fields(k, m[k])))
}

/// Reads one field of a map list: an entry takes the place of any earlier
/// one with the same id.
pub open spec fn list_step(acc: Map<Seq<char>, MapMetadataView>, f: Field) -> Option<Map<Seq<char>, MapMetadataView>> {
    if f.number == 1 {
        match message_payload(f.payload, ENTRY_DEPTH, default_entry(), entry_stepper()) {
            Some(e) => Some(acc.insert(e.0, e.1)),
            None => None,
        }
    } else {
        Some(acc)
    }
}

/// [`list_step`] as a function value.
pub open spec fn list_stepper() -> spec_fn(Map<Seq<char>, MapMetadataView>, Field) -> Option<Map<Seq<char>, MapMetadataView>> {
    |acc: Map<Seq<char>, MapMetadataView>, f: Field| list_step(acc, f)
}

/// The bytes of a map list that lists the records of `m` in the order of `ids`.
pub open spec fn spec_encode_map_list(ids: Seq<Seq<char>>, m: Map<Seq<char>, MapMetadataView>) -> Seq<u8> {
    encode_fields(list_fields(ids, m))
}

/// The map that the bytes of a map list hold, or `None` where they are not
/// a well-formed map list.
pub open spec fn spec_decode_map_list(bytes: Seq<u8>) -> Option<Map<Seq<char>, MapMetadataView>> {
    decode_message(bytes, LIST_DEPTH, Map::empty(), list_stepper())
}

/// `ids` lists the keys of `m`, each once.
pub open spec fn keys_listed(ids: Seq<Seq<char>>, m: Map<Seq<char>, MapMetadataView>) -> bool {
    &&& forall|i: int, j: int| 0 <= i < j < ids.len() ==> ids[i] != ids[j]
    &&& forall|i: int| 0 <= i < ids.len() ==> m.contains_key(#[trigger] ids[i])
    &&& forall|k: Seq<char>| #[trigger] m.contains_key(k) ==> ids.contains(k)
}

proof fn lemma_entry_roundtrip(id: Seq<char>, m: MapMetadataView)
    requires
        encode_fields(entry_fields(id, m)).len() <= u64::MAX,
    ensures
        numbers_ok(entry_fields(id, m)),
        decode_message(encode_fields(entry_fields(id, m)), ENTRY_DEPTH, default_entry(), entry_stepper()) == Some((id, m)),
{
    reveal(entry_fields);
    reveal(entry_step);
    let step = entry_stepper();
    let a1 = opt_string(1, id);
    let f2 = message_field(2, metadata_fields(m));
    let a2 = entry_value_fields(m);
    let fs = a1 + a2;
    lemma_opt_numbers(1, 0, 0, id);
    lemma_numbers_ok_append(a1, a2);
    lemma_fields_ok(fs);
    lemma_string_roundtrip(id);
    let e0 = default_entry();
    let e1 = (id, default_metadata_view());
    if id.len() != 0 {
        lemma_fold_single(e0, string_field(1, id), step);
    }
    assert(fold_fields(e0, a1, step) == Some(e1));
    if m == default_metadata_view() {
        assert(a2 =~= Seq::<Field>::empty());
        assert(fold_fields(e1, a2, step) == Some((id, m)));
    } else {
        assert(fs[fs.len() - 1] == f2);
        lemma_metadata_roundtrip(m);
        lemma_fold_single(e1, f2, step);
    }
    lemma_fold_append(e0, a1, a2, step);
    lemma_message_roundtrip(fs, ENTRY_DEPTH, e0, step, (id, m));
}

proof fn lemma_list_fold(
    acc: Map<Seq<char>, MapMetadataView>,
    ids: Seq<Seq<char>>,
    m: Map<Seq<char>, MapMetadataView>,
)
    requires
        forall|i: int| 0 <= i < ids.len() ==> encode_fields(entry_fields(#[trigger] ids[i], m[ids[i]])).len() <= u64::MAX,
        forall|i: int| 0 <= i < ids.len() ==> m.contains_key(#[trigger] ids[i]),
    ensures
        fold_fields(acc, list_fields(ids, m), list_stepper()) == Some(
            acc.union_prefer_right(m.restrict(ids.to_set())),
        ),
    decreases ids.len(),
{
    let fs = list_fields(ids, m);
    if ids.len() == 0 {
        assert(acc.union_prefer_right(m.restrict(ids.to_set())) =~= acc);
    } else {
        let k = ids[0];
        lemma_entry_roundtrip(k, m[k]);
        let next = acc.insert(k, m[k]);
        assert(fs[0] == message_field(1, entry_fields(k, m[k])));
        assert((list_stepper())(acc, fs[0]) == Some(next));
        let rest = ids.skip(1);
        assert(fs.skip(1) =~= list_fields(rest, m));
        assert forall|i: int| 0 <= i < rest.len() implies encode_fields(
            entry_fields(#[trigger] rest[i], m[rest[i]]),
        ).len() <= u64::MAX by {
            assert(rest[i] == ids[i + 1]);
        }
        assert forall|i: int| 0 <= i < rest.len() implies m.contains_key(#[trigger] rest[i]) by {
            assert(rest[i] == ids[i + 1]);
        }
        assert(m.contains_key(k));
        lemma_list_fold(next, rest, m);
        assert forall|x: Seq<char>| ids.to_set().contains(x) <==> (x == k || rest.to_set().contains(x)) by {
            if ids.to_set().contains(x) {
                let j = choose|j: int| 0 <= j < ids.len() && ids[j] == x;
                if j > 0 {
                    assert(rest[j - 1] == x);
                }
            }
            if rest.to_set().contains(x) {
                let j = choose|j: int| 0 <= j < rest.len() && rest[j] == x;
                assert(ids[j + 1] == x);
            }
            if x == k {
                assert(ids[0] == x);
            }
        }
        let lhs = next.union_prefer_right(m.restrict(rest.to_set()));
        let rhs = acc.union_prefer_right(m.restrict(ids.to_set()));
        assert forall|x: Seq<char>| lhs.contains_key(x) <==> rhs.contains_key(x) by {
            if x == k {
                assert(ids.to_set().contains(x));
            }
        }
        assert forall|x: Seq<char>| #[trigger] lhs.contains_key(x) implies lhs[x] == rhs[x] by {
            if rest.to_set().contains(x) && m.contains_key(x) {
                assert(ids.to_set().contains(x));
            } else if x == k {
                assert(ids.to_set().contains(x));
            } else {
                assert(!ids.to_set().contains(x) || !m.contains_key(x));
            }
        }
        assert(lhs =~= rhs);
    }
}

/// The map list written from a map, in any order that lists each key once,
/// reads back as that map.
pub proof fn lemma_map_list_roundtrip(ids: Seq<Seq<char>>, m: Map<Seq<char>, MapMetadataView>)
    requires
        keys_listed(ids, m),
        spec_encode_map_list(ids, m).len() <= u64::MAX,
    ensures
        spec_decode_map_list(spec_encode_map_list(ids, m)) == Some(m),
{
    let fs = list_fields(ids, m);
    assert(numbers_ok(fs));
    lemma_fields_ok(fs);
    assert forall|i: int| 0 <= i < ids.len() implies encode_fields(
        entry_fields(#[trigger] ids[i], m[ids[i]]),
    ).len() <= u64::MAX by {
        assert(fs[i] == message_field(1, entry_fields(ids[i], m[ids[i]])));
    }
    assert forall|i: int| 0 <= i < ids.len() implies m.contains_key(#[trigger] ids[i]) by {}
    lemma_list_fold(Map::empty(), ids, m);
    assert forall|k: Seq<char>| m.contains_key(k) implies ids.to_set().contains(k) by {}
    assert(Map::<Seq<char>, MapMetadataView>::empty().union_prefer_right(m.restrict(ids.to_set())) =~= m);
    lemma_message_roundtrip(fs, LIST_DEPTH, Map::empty(), list_stepper(), m);
}

fn encode_entry(id: &String, m: &MapMetadata) -> (out: Vec<u8>)
    ensures
        out@ == encode_fields(entry_fields(id@, m@)),
{
    reveal(entry_fields);
    let mut out: Vec<u8> = Vec::new();
    write_opt_string(&mut out, 1, id);
    if is_default_metadata(m) {
        assert(encode_fields(entry_value_fields(m@)) =~= Seq::<u8>::empty());
    } else {
        let record = encode_metadata(m);
        write_message_field(&mut out, 2, record, Ghost(metadata_fields(m@)));
    }
    proof {
        lemma_encode_fields_append(opt_string(1, id@), entry_value_fields(m@));
    }
    assert(out@ =~= encode_fields(entry_fields(id@, m@)));
    out
}

/// Whether a record is the default one, every field at its default.
fn is_default_metadata(m: &MapMetadata) -> (r: bool)
    ensures
        r == (m@ == default_metadata_view()),
{
    let r = m.key == 0 && m.hash.as_str().is_empty() && m.song_name.as_str().is_empty()
        && m.song_sub_name.as_str().is_empty() && m.song_author_name.as_str().is_empty()
        && m.level_author_name.as_str().is_empty() && m.duration == 0 && m.uploaded == 0
        && m.last_updated == 0 && m.mods == 0 && m.curator_name.is_none() && m.votes.up == 0
        && m.votes.down == 0 && m.difficulties.len() == 0;
    proof {
        if r {
            assert(m@.hash =~= Seq::<char>::empty());
            assert(m@.song_name =~= Seq::<char>::empty());
            assert(m@.song_sub_name =~= Seq::<char>::empty());
            assert(m@.song_author_name =~= Seq::<char>::empty());
            assert(m@.level_author_name =~= Seq::<char>::empty());
            assert(m@.difficulties =~= Seq::<DifficultyView>::empty());
            assert(m@ =~= default_metadata_view());
        }
    }
    r
}

/// Encodes the map list for the cache file. It reads back as the same map.
pub fn encode_map_list(list: &MapList) -> (out: Vec<u8>)
    ensures
        out@ == spec_encode_map_list(list.id_seq().map_values(|s: String| s@), list@),
        spec_decode_map_list(out@) == Some(list@),
{
    let ids = list.ids();
    let ghost idv = ids@.map_values(|s: String| s@);
    let ghost m = list@;
    let n = ids.len();
    let mut out: Vec<u8> = Vec::new();
    assert(list_fields(idv.take(0), m) =~= Seq::<Field>::empty());
    for i in 0..n
        invariant
            n == ids@.len(),
            idv == ids@.map_values(|s: String| s@),
            m == list@,
            lists_keys(ids@, m),
            out@ == encode_fields(list_fields(idv.take(i as int), m)),
    {
        let id = &ids[i];
        assert(idv[i as int] == id@);
        assert(m.contains_key(id@));
        let record = match list.get(id) {
            Some(r) => r,
            None => {
                assert(false);
                return Vec::new();
            },
        };
        let entry = encode_entry(id, record);
        let ghost before = out@;
        write_message_field(&mut out, 1, entry, Ghost(entry_fields(id@, m[id@])));
        proof {
            assert(list_fields(idv.take(i + 1), m) =~= list_fields(idv.take(i as int), m) + seq![
                message_field(1, entry_fields(id@, m[id@])),
            ]);
            lemma_encode_fields_append(
                list_fields(idv.take(i as int), m),
                seq![message_field(1, entry_fields(id@, m[id@]))],
            );
        }
    }
    assert(idv.take(n as int) =~= idv);
    let total: usize = out.len();
    proof {
        assert forall|i: int, j: int| 0 <= i < j < idv.len() implies idv[i] != idv[j] by {
            assert(ids@[i]@ != ids@[j]@);
        }
        assert forall|i: int| 0 <= i < idv.len() implies m.contains_key(#[trigger] idv[i]) by {
            assert(m.contains_key(ids@[i]@));
        }
        assert forall|k: Seq<char>| #[trigger] m.contains_key(k) implies idv.contains(k) by {
            let j = choose|j: int| 0 <= j < ids@.len() && (#[trigger] ids@[j])@ == k;
            assert(idv[j] == k);
        }
        assert(out@ == spec_encode_map_list(idv, m));
        assert(out@.len() == total);
        lemma_map_list_roundtrip(idv, m);
    }
    out
}

fn decode_entry(buf: &[u8], start: usize, end: usize) -> (r: Option<(String, MapMetadata)>)
    requires
        start <= end <= buf@.len(),
    ensures
        match r {
            Some(e) => decode_message(buf@.subrange(start as int, end as int), ENTRY_DEPTH, default_entry(), entry_stepper())
                == Some((e.0@, e.1@)),
            None => decode_message(buf@.subrange(start as int, end as int), ENTRY_DEPTH, default_entry(), entry_stepper())
                is None,
        },
{
    let fields = match read_fields(buf, start, end, ENTRY_DEPTH) {
        Some(fs) => fs,
        None => return None,
    };
    let ghost fsv = raw_fields_view(fields@, buf@);
    let mut id = String::new();
    let mut record = default_metadata();
    let n = fields.len();
    assert(fsv.skip(0) =~= fsv);
    assert((id@, record@) == default_entry());
    for i in 0..n
        invariant
            n == fields@.len(),
            end <= buf@.len(),
            start <= end,
            fsv == raw_fields_view(fields@, buf@),
            parse_fields(buf@.subrange(start as int, end as int), ENTRY_DEPTH as nat) == Some(fsv),
            forall|j: int| 0 <= j < fields@.len() ==> raw_field_within(#[trigger] fields@[j], end as int),
            fold_fields(default_entry(), fsv, entry_stepper()) == fold_fields(
                (id@, record@),
                fsv.skip(i as int),
                entry_stepper(),
            ),
    {
        proof {
            reveal(entry_step);
        }
        let f = &fields[i];
        let ghost fv = raw_field_view(*f, buf@);
        let ghost before = (id@, record@);
        assert(raw_field_within(fields@[i as int], end as int));
        assert(fsv.skip(i as int)[0] == fv);
        assert(fsv.skip(i as int).skip(1) =~= fsv.skip(i + 1));
        let ok: bool = if f.number == 1 {
            match f.payload {
                RawPayload::Bytes { start: s, end: e } => match read_string(buf, s, e) {
                    Some(text) => {
                        id = text;
                        true
                    },
                    None => false,
                },
                _ => false,
            }
        } else if f.number == 2 {
            match f.payload {
                RawPayload::Bytes { start: s, end: e } => {
                    let current = record.duplicate();
                    match decode_metadata(buf, s, e, current) {
                        Some(m) => {
                            record = m;
                            true
                        },
                        None => false,
                    }
                },
                _ => false,
            }
        } else {
            true
        };
        if ok {
            assert((entry_stepper())(before, fv) == Some((id@, record@)));
        } else {
            assert((entry_stepper())(before, fv) is None);
            assert(fold_fields(before, fsv.skip(i as int), entry_stepper()) is None);
            return None;
        }
    }
    assert(fsv.skip(n as int) =~= Seq::<Field>::empty());
    Some((id, record))
}

/// Decodes the map list of a cache file, or gives `None` where the bytes are
/// not a well-formed map list.
pub fn decode_map_list(bytes: &[u8]) -> (r: Option<MapList>)
    ensures
        match r {
            Some(list) => spec_decode_map_list(bytes@) == Some(list@),
            None => spec_decode_map_list(bytes@) is None,
        },
{
    let end = bytes.len();
    assert(bytes@.subrange(0, end as int) =~= bytes@);
    let fields = match read_fields(bytes, 0, end, LIST_DEPTH) {
        Some(fs) => fs,
        None => return None,
    };
    let ghost fsv = raw_fields_view(fields@, bytes@);
    let mut list = MapList::new();
    let n = fields.len();
    assert(fsv.skip(0) =~= fsv);
    for i in 0..n
        invariant
            n == fields@.len(),
            end == bytes@.len(),
            fsv == raw_fields_view(fields@, bytes@),
            parse_fields(bytes@, LIST_DEPTH as nat) == Some(fsv),
            forall|j: int| 0 <= j < fields@.len() ==> raw_field_within(#[trigger] fields@[j], end as int),
            fold_fields(Map::empty(), fsv, list_stepper()) == fold_fields(list@, fsv.skip(i as int), list_stepper()),
    {
        let f = &fields[i];
        let ghost fv = raw_field_view(*f, bytes@);
        let ghost before = list@;
        assert(raw_field_within(fields@[i as int], end as int));
        assert(fsv.skip(i as int)[0] == fv);
        assert(fsv.skip(i as int).skip(1) =~= fsv.skip(i + 1));
        let ok: bool = if f.number == 1 {
            match f.payload {
                RawPayload::Bytes { start: s, end: e } => match decode_entry(bytes, s, e) {
                    Some((id, record)) => {
                        list.insert(id, record);
                        true
                    },
                    None => false,
                },
                _ => false,
            }
        } else {
            true
        };
        if ok {
            assert((list_stepper())(before, fv) == Some(list@));
        } else {
            assert((list_stepper())(before, fv) is None);
            assert(fold_fields(before, fsv.skip(i as int), list_stepper()) is None);
            return None;
        }
    }
    assert(fsv.skip(n as int) =~= Seq::<Field>::empty());
    Some(list)
}


// ---------------------------------------------------------------------------
// The schema of the cache file

/// A `Votes` message carries the up votes under field 1 and the down votes
/// under field 2, as varints and in that order: its bytes are `08`, the up
/// votes' varint, `10`, the down votes' varint.
pub proof fn lemma_votes_schema(v: Votes)
    ensures
        votes_fields(v) == seq![varint_field(1, v.up as u64), varint_field(2, v.down as u64)],
        encode_fields(votes_fields(v)) == seq![0x08u8] + encode_varint(v.up as nat) + seq![0x10u8]
            + encode_varint(v.down as nat),
{
    let f1 = varint_field(1, v.up as u64);
    let f2 = varint_field(2, v.down as u64);
    assert(votes_fields(v) =~= seq![f1, f2]);
    lemma_encode_fields_append(seq![f1], seq![f2]);
    assert(seq![f1] + seq![f2] =~= seq![f1, f2]);
    lemma_encode_single(f1);
    lemma_encode_single(f2);
    assert(encode_varint(8) == seq![0x08u8]);
    assert(encode_varint(16) == seq![0x10u8]);
    assert(encode_fields(votes_fields(v)) =~= seq![0x08u8] + encode_varint(v.up as nat) + seq![0x10u8]
        + encode_varint(v.down as nat));
}

/// Reading a `Votes` message: field 1 gives the up votes and field 2 the down
/// votes, each the low 32 bits of its varint.
pub proof fn lemma_votes_read(up: u64, down: u64)
    ensures
        decode_message(
            encode_fields(seq![varint_field(1, up), varint_field(2, down)]),
            VOTES_DEPTH,
            default_votes(),
            votes_stepper(),
        ) == Some(Votes { up: up as u32, down: down as u32 }),
{
    let f1 = varint_field(1, up);
    let f2 = varint_field(2, down);
    let fs = seq![f1, f2];
    let step = votes_stepper();
    let mid = Votes { up: up as u32, down: 0 };
    assert(seq![f1] + seq![f2] =~= fs);
    lemma_fold_single(default_votes(), f1, step);
    lemma_fold_single(mid, f2, step);
    lemma_fold_append(default_votes(), seq![f1], seq![f2], step);
    lemma_encode_fields_append(seq![f1], seq![f2]);
    lemma_encode_single(f1);
    lemma_encode_single(f2);
    lemma_u64_varint_roundtrip(8, Seq::empty());
    lemma_u64_varint_roundtrip(16, Seq::empty());
    lemma_u64_varint_roundtrip(up, Seq::empty());
    lemma_u64_varint_roundtrip(down, Seq::empty());
    assert(Seq::<u8>::empty().len() == 0);
    assert(encode_varint(8) + Seq::<u8>::empty() =~= encode_varint(8));
    assert(encode_varint(16) + Seq::<u8>::empty() =~= encode_varint(16));
    assert(encode_varint(up as nat) + Seq::<u8>::empty() =~= encode_varint(up as nat));
    assert(encode_varint(down as nat) + Seq::<u8>::empty() =~= encode_varint(down as nat));
    assert(encode_fields(fs).len() <= 40);
    lemma_message_roundtrip(fs, VOTES_DEPTH, default_votes(), step, Votes { up: up as u32, down: down as u32 });
}

/// A `RankedValue` message carries whether the difficulty is ranked under
/// field 1, as the varint 1 or 0, and the star rating under field 2, as four
/// little-endian bytes: its bytes are `08`, the flag, `15`, the rating.
pub proof fn lemma_ranked_value_schema(r: RankedValue)
    ensures
        ranked_value_fields(r) == seq![
            varint_field(1, if r.is_ranked { 1 } else { 0 }),
            Field { number: 2, payload: Payload::Fixed32(r.stars_bits) },
        ],
        encode_fields(ranked_value_fields(r)) == seq![0x08u8, if r.is_ranked { 1u8 } else { 0u8 }, 0x15u8]
            + le32(r.stars_bits),
{
    let f1 = varint_field(1, if r.is_ranked { 1 } else { 0 });
    let f2 = Field { number: 2, payload: Payload::Fixed32(r.stars_bits) };
    assert(ranked_value_fields(r) =~= seq![f1, f2]);
    lemma_encode_fields_append(seq![f1], seq![f2]);
    assert(seq![f1] + seq![f2] =~= seq![f1, f2]);
    lemma_encode_single(f1);
    lemma_encode_single(f2);
    assert(encode_varint(8) == seq![0x08u8]);
    assert(encode_varint(21) == seq![0x15u8]);
    if r.is_ranked {
        assert(encode_varint(1) == seq![1u8]);
    } else {
        assert(encode_varint(0) == seq![0u8]);
    }
    assert(encode_fields(ranked_value_fields(r)) =~= seq![0x08u8, if r.is_ranked { 1u8 } else { 0u8 }, 0x15u8]
        + le32(r.stars_bits));
}

/// Reading a `RankedValue` message: field 1 says the difficulty is ranked
/// exactly where its varint is not 0, and field 2 gives the star rating's bits.
pub proof fn lemma_ranked_value_read(flag: u64, stars_bits: u32)
    ensures
        decode_message(
            encode_fields(seq![varint_field(1, flag), Field { number: 2, payload: Payload::Fixed32(stars_bits) }]),
            RANKED_VALUE_DEPTH,
            default_ranked_value(),
            ranked_value_stepper(),
        ) == Some(RankedValue { is_ranked: flag != 0, stars_bits }),
{
    let f1 = varint_field(1, flag);
    let f2 = Field { number: 2, payload: Payload::Fixed32(stars_bits) };
    let fs = seq![f1, f2];
    let step = ranked_value_stepper();
    let mid = RankedValue { is_ranked: flag != 0, stars_bits: 0 };
    assert(seq![f1] + seq![f2] =~= fs);
    lemma_fold_single(default_ranked_value(), f1, step);
    lemma_fold_single(mid, f2, step);
    lemma_fold_append(default_ranked_value(), seq![f1], seq![f2], step);
    lemma_encode_fields_append(seq![f1], seq![f2]);
    lemma_encode_single(f1);
    lemma_encode_single(f2);
    lemma_u64_varint_roundtrip(8, Seq::empty());
    lemma_u64_varint_roundtrip(21, Seq::empty());
    lemma_u64_varint_roundtrip(flag, Seq::empty());
    assert(encode_varint(8) + Seq::<u8>::empty() =~= encode_varint(8));
    assert(encode_varint(21) + Seq::<u8>::empty() =~= encode_varint(21));
    assert(encode_varint(flag as nat) + Seq::<u8>::empty() =~= encode_varint(flag as nat));
    assert(encode_fields(fs).len() <= 40);
    lemma_message_roundtrip(fs, RANKED_VALUE_DEPTH, default_ranked_value(), step, RankedValue { is_ranked: flag != 0, stars_bits });
}

/// A `Ranked` message carries the ScoreSaber ranking under field 1 and the
/// BeatLeader ranking under field 2, each as a `RankedValue` message.
pub proof fn lemma_ranked_schema(r: Ranked)
    ensures
        ranked_fields(r) == seq![
            message_field(1, ranked_value_fields(r.score_saber)),
            message_field(2, ranked_value_fields(r.beat_leader)),
        ],
{
}

/// A `Difficulty` message carries, in order: the note jump speed under field
/// 1 as four bytes, the note count under 2, the characteristic under 3, the
/// difficulty's name under 4, the mods under 5, the environment under 6, and
/// the ranking under 7 as a `Ranked` message.
pub proof fn lemma_difficulty_schema(d: DifficultyView)
    ensures
        difficulty_fields(d) == seq![
            Field { number: 1, payload: Payload::Fixed32(d.njs) },
            varint_field(2, d.notes as u64),
            string_field(3, d.characteristic_name),
            string_field(4, d.difficulty_name),
            varint_field(5, d.mods as u64),
            string_field(6, d.environment_name),
            message_field(7, ranked_fields(d.ranked)),
        ],
{
    reveal(difficulty_fields);
    assert(difficulty_fields(d) =~= seq![
        Field { number: 1, payload: Payload::Fixed32(d.njs) },
        varint_field(2, d.notes as u64),
        string_field(3, d.characteristic_name),
        string_field(4, d.difficulty_name),
        varint_field(5, d.mods as u64),
        string_field(6, d.environment_name),
        message_field(7, ranked_fields(d.ranked)),
    ]);
}

/// A `MapMetadata` message carries, in order: the key under field 1, the hash
/// under 2, the song's name, sub-name and author and the level's author under
/// 3 to 6, the duration under 7, the upload time under 8, the update time
/// under 9, the mods under 10, the curator's name under 11 where there is
/// one, the votes under 12 as a `Votes` message, and each difficulty, in
/// order, under 13 as a `Difficulty` message.
pub proof fn lemma_metadata_schema(m: MapMetadataView)
    ensures
        metadata_fields(m) == seq![
            varint_field(1, m.key as u64),
            string_field(2, m.hash),
            string_field(3, m.song_name),
            string_field(4, m.song_sub_name),
            string_field(5, m.song_author_name),
            string_field(6, m.level_author_name),
            varint_field(7, m.duration as u64),
            varint_field(8, m.uploaded as u64),
            varint_field(9, m.last_updated as u64),
            varint_field(10, m.mods as u64),
        ] + match m.curator_name {
            Some(c) => seq![string_field(11, c)],
            None => Seq::empty(),
        } + seq![message_field(12, votes_fields(m.votes))] + m.difficulties.map_values(
            |d: DifficultyView| message_field(13, difficulty_fields(d)),
        ),
{
    reveal(metadata_fields);
    assert(metadata_fields(m) =~= seq![
        varint_field(1, m.key as u64),
        string_field(2, m.hash),
        string_field(3, m.song_name),
        string_field(4, m.song_sub_name),
        string_field(5, m.song_author_name),
        string_field(6, m.level_author_name),
        varint_field(7, m.duration as u64),
        varint_field(8, m.uploaded as u64),
        varint_field(9, m.last_updated as u64),
        varint_field(10, m.mods as u64),
    ] + match m.curator_name {
        Some(c) => seq![string_field(11, c)],
        None => Seq::empty(),
    } + seq![message_field(12, votes_fields(m.votes))] + m.difficulties.map_values(
        |d: DifficultyView| message_field(13, difficulty_fields(d)),
    ));
}

/// A map entry carries the map's id under field 1, left out where it is
/// empty, and its record under field 2 as a `MapMetadata` message, left out
/// where the record is the default one; the map list carries each entry, in
/// the order of its ids, under field 1.
pub proof fn lemma_map_list_schema(ids: Seq<Seq<char>>, m: Map<Seq<char>, MapMetadataView>, id: Seq<char>, r: MapMetadataView)
    ensures
        entry_fields(id, r) == (if id.len() == 0 {
            Seq::<Field>::empty()
        } else {
            seq![string_field(1, id)]
        }) + (if r == default_metadata_view() {
            Seq::<Field>::empty()
        } else {
            seq![message_field(2, metadata_fields(r))]
        }),
        list_fields(ids, m).len() == ids.len(),
        forall|i: int| 0 <= i < ids.len() ==> #[trigger] list_fields(ids, m)[i] == message_field(1, entry_fields(ids[i], m[ids[i]])),
{
    reveal(entry_fields);
}

/// Where a map list holds two entries with the same id, reading it keeps the
/// later entry's record: a map list of an entry for `id` with record `a`
/// followed by one with record `b` reads as `id` mapped to `b` alone.
pub proof fn lemma_later_entry_is_kept(id: Seq<char>, a: MapMetadataView, b: MapMetadataView)
    requires
        encode_fields(
            seq![message_field(1, entry_fields(id, a)), message_field(1, entry_fields(id, b))],
        ).len() <= u64::MAX,
    ensures
        spec_decode_map_list(
            encode_fields(seq![message_field(1, entry_fields(id, a)), message_field(1, entry_fields(id, b))]),
        ) == Some(Map::<Seq<char>, MapMetadataView>::empty().insert(id, b)),
{
    let f1 = message_field(1, entry_fields(id, a));
    let f2 = message_field(1, entry_fields(id, b));
    let fs = seq![f1, f2];
    let step = list_stepper();
    let m0 = Map::<Seq<char>, MapMetadataView>::empty();
    let m1 = m0.insert(id, a);
    let m2 = m1.insert(id, b);
    assert(numbers_ok(fs));
    lemma_fields_ok(fs);
    assert(fs[0] == f1 && fs[1] == f2);
    lemma_entry_roundtrip(id, a);
    lemma_entry_roundtrip(id, b);
    assert(seq![f1] + seq![f2] =~= fs);
    lemma_fold_single(m0, f1, step);
    lemma_fold_single(m1, f2, step);
    lemma_fold_append(m0, seq![f1], seq![f2], step);
    assert(m2 =~= m0.insert(id, b));
    lemma_message_roundtrip(fs, LIST_DEPTH, m0, step, m2);
}

} // verus!
