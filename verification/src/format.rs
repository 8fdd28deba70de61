//! The byte format of messages and of saved worlds.
//!
//! Numbers are little-endian. A string is the length of its UTF-8 form as a
//! `u64`, then the UTF-8 form. An enum is one tag byte, then the fields of
//! the variant. A set of entities is their number as a `u64`, then each
//! entity behind its identifier, in ascending order of the identifiers, so
//! that a value has one encoding only.
//!
//! Each `ser_*` function says how a value is written and each `parse_*`
//! function how bytes are read, from a position on and up to the position it
//! returns. The lemmas show that the two are inverse to each other.

use crate::ecs::{Direction, EntityID, EntityType, EntityView, Point};
use crate::game::{GameActionView, GameStateView};
use crate::net::{MessageView, ServerMessageView};
use vstd::bytes::{
    lemma_auto_spec_u32_to_from_le_bytes, lemma_auto_spec_u64_to_from_le_bytes,
    spec_u32_from_le_bytes, spec_u32_to_le_bytes, spec_u64_from_le_bytes, spec_u64_to_le_bytes,
};
use vstd::prelude::*;
use vstd::utf8::{
    decode_utf8, decode_utf8_encode_utf8, encode_utf8, encode_utf8_decode_utf8,
    encode_utf8_valid_utf8, valid_utf8,
};

verus! {

/// Why bytes were not decoded.
#[derive(Debug, Clone, Copy, PartialEq, Eq, Structural)]
pub enum WireError {
    /// The payload is longer than a message may be.
    TooLarge,
    /// The bytes end inside a value.
    UnexpectedEnd,
    /// A tag byte names no variant.
    BadTag,
    /// The bytes of a string are not UTF-8.
    BadUtf8,
    /// The identifiers of the entities are not in ascending order.
    UnorderedIds,
    /// Bytes are left after the value.
    TrailingBytes,
}

/// Whether `s` stands in `b` from position `pos` on.
pub open spec fn matches_at(b: Seq<u8>, pos: int, s: Seq<u8>) -> bool {
    0 <= pos && pos + s.len() <= b.len() && b.subrange(pos, pos + s.len()) == s
}

/// Where two pieces stand one behind the other, their concatenation stands.
pub proof fn lemma_matches_join(b: Seq<u8>, pos: int, s1: Seq<u8>, s2: Seq<u8>)
    requires
        matches_at(b, pos, s1),
        matches_at(b, pos + s1.len(), s2),
    ensures
        matches_at(b, pos, s1 + s2),
{
    assert(b.subrange(pos, pos + (s1 + s2).len()) =~= b.subrange(pos, pos + s1.len())
        + b.subrange(pos + s1.len(), pos + s1.len() + s2.len()));
}

/// Where a concatenation stands, its two pieces stand one behind the other.
pub proof fn lemma_matches_split(b: Seq<u8>, pos: int, s1: Seq<u8>, s2: Seq<u8>)
    requires
        matches_at(b, pos, s1 + s2),
    ensures
        matches_at(b, pos, s1),
        matches_at(b, pos + s1.len(), s2),
{
    let whole = b.subrange(pos, pos + (s1 + s2).len());
    assert(b.subrange(pos, pos + s1.len()) =~= s1) by {
        assert forall|i: int| 0 <= i < s1.len() implies b.subrange(pos, pos + s1.len())[i]
            == s1[i] by {
            assert(whole[i] == (s1 + s2)[i]);
        }
    }
    assert(b.subrange(pos + s1.len(), pos + s1.len() + s2.len()) =~= s2) by {
        assert forall|i: int| 0 <= i < s2.len() implies b.subrange(
            pos + s1.len(),
            pos + s1.len() + s2.len(),
        )[i] == s2[i] by {
            assert(whole[s1.len() + i] == (s1 + s2)[s1.len() + i]);
        }
    }
}

/// One byte.
pub open spec fn ser_u8(v: u8) -> Seq<u8> {
    seq![v]
}

/// One byte.
pub open spec fn parse_u8(b: Seq<u8>, pos: int) -> Result<(u8, int), WireError> {
    if 0 <= pos < b.len() {
        Ok((b[pos], pos + 1))
    } else {
        Err(WireError::UnexpectedEnd)
    }
}

/// Four bytes, the lowest first.
pub open spec fn ser_u32(v: u32) -> Seq<u8> {
    spec_u32_to_le_bytes(v)
}

/// Four bytes, the lowest first.
pub open spec fn parse_u32(b: Seq<u8>, pos: int) -> Result<(u32, int), WireError> {
    if 0 <= pos && pos + 4 <= b.len() {
        Ok((spec_u32_from_le_bytes(b.subrange(pos, pos + 4)), pos + 4))
    } else {
        Err(WireError::UnexpectedEnd)
    }
}

/// Eight bytes, the lowest first.
pub open spec fn ser_u64(v: u64) -> Seq<u8> {
    spec_u64_to_le_bytes(v)
}

/// Eight bytes, the lowest first.
pub open spec fn parse_u64(b: Seq<u8>, pos: int) -> Result<(u64, int), WireError> {
    if 0 <= pos && pos + 8 <= b.len() {
        Ok((spec_u64_from_le_bytes(b.subrange(pos, pos + 8)), pos + 8))
    } else {
        Err(WireError::UnexpectedEnd)
    }
}

/// A signed number, written as the unsigned number with the same bits.
pub open spec fn ser_i32(v: i32) -> Seq<u8> {
    ser_u32(v as u32)
}

/// A signed number, read as the unsigned number with the same bits.
pub open spec fn parse_i32(b: Seq<u8>, pos: int) -> Result<(i32, int), WireError> {
    match parse_u32(b, pos) {
        Ok((u, end)) => Ok((u as i32, end)),
        Err(e) => Err(e),
    }
}

/// Whether the UTF-8 form of `s` has a length that fits the length field.
pub open spec fn valid_string(s: Seq<char>) -> bool {
    encode_utf8(s).len() <= u64::MAX
}

/// A string: the length of its UTF-8 form, then that form.
pub open spec fn ser_string(s: Seq<char>) -> Seq<u8> {
    ser_u64(encode_utf8(s).len() as u64) + encode_utf8(s)
}

/// A string: the length of its UTF-8 form, then that form.
pub open spec fn parse_string(b: Seq<u8>, pos: int) -> Result<(Seq<char>, int), WireError> {
    match parse_u64(b, pos) {
        Ok((n, start)) => if n > b.len() - start {
            Err(WireError::UnexpectedEnd)
        } else if !valid_utf8(b.subrange(start, start + n)) {
            Err(WireError::BadUtf8)
        } else {
            Ok((decode_utf8(b.subrange(start, start + n)), start + n))
        },
        Err(e) => Err(e),
    }
}

/// Whether the name, if there is one, is a string that can be written.
pub open spec fn valid_name(name: Option<Seq<char>>) -> bool {
    match name {
        Some(s) => valid_string(s),
        None => true,
    }
}

/// An optional name: tag 0 for none, tag 1 and the string for one.
pub open spec fn ser_name(name: Option<Seq<char>>) -> Seq<u8> {
    match name {
        None => ser_u8(0),
        Some(s) => ser_u8(1) + ser_string(s),
    }
}

/// An optional name: tag 0 for none, tag 1 and the string for one.
pub open spec fn parse_name(b: Seq<u8>, pos: int) -> Result<(Option<Seq<char>>, int), WireError> {
    match parse_u8(b, pos) {
        Ok((tag, start)) => if tag == 0 {
            Ok((None, start))
        } else if tag == 1 {
            match parse_string(b, start) {
                Ok((s, end)) => Ok((Some(s), end)),
                Err(e) => Err(e),
            }
        } else {
            Err(WireError::BadTag)
        },
        Err(e) => Err(e),
    }
}

/// The tag of a direction.
pub open spec fn direction_tag(d: Direction) -> u8 {
    match d {
        Direction::Up => 0,
        Direction::Down => 1,
        Direction::Left => 2,
        Direction::Right => 3,
    }
}

/// A direction: one tag byte.
pub open spec fn ser_direction(d: Direction) -> Seq<u8> {
    ser_u8(direction_tag(d))
}

/// A direction: one tag byte.
pub open spec fn parse_direction(b: Seq<u8>, pos: int) -> Result<(Direction, int), WireError> {
    match parse_u8(b, pos) {
        Ok((tag, end)) => if tag == 0 {
            Ok((Direction::Up, end))
        } else if tag == 1 {
            Ok((Direction::Down, end))
        } else if tag == 2 {
            Ok((Direction::Left, end))
        } else if tag == 3 {
            Ok((Direction::Right, end))
        } else {
            Err(WireError::BadTag)
        },
        Err(e) => Err(e),
    }
}

/// The tag of an entity type.
pub open spec fn entity_type_tag(t: EntityType) -> u8 {
    match t {
        EntityType::Player => 0,
        EntityType::Tree => 1,
    }
}

/// An entity type: one tag byte.
pub open spec fn ser_entity_type(t: EntityType) -> Seq<u8> {
    ser_u8(entity_type_tag(t))
}

/// An entity type: one tag byte.
pub open spec fn parse_entity_type(b: Seq<u8>, pos: int) -> Result<(EntityType, int), WireError> {
    match parse_u8(b, pos) {
        Ok((tag, end)) => if tag == 0 {
            Ok((EntityType::Player, end))
        } else if tag == 1 {
            Ok((EntityType::Tree, end))
        } else {
            Err(WireError::BadTag)
        },
        Err(e) => Err(e),
    }
}

/// Whether the entity can be written: its name can.
pub open spec fn valid_entity(e: EntityView) -> bool {
    valid_name(e.name)
}

/// An entity: the two coordinates, the name, the type.
pub open spec fn ser_entity(e: EntityView) -> Seq<u8> {
    ser_i32(e.position.x) + ser_i32(e.position.y) + ser_name(e.name) + ser_entity_type(
        e.entity_type,
    )
}

/// An entity: the two coordinates, the name, the type.
pub open spec fn parse_entity(b: Seq<u8>, pos: int) -> Result<(EntityView, int), WireError> {
    match parse_i32(b, pos) {
        Ok((x, after_x)) => match parse_i32(b, after_x) {
            Ok((y, after_y)) => match parse_name(b, after_y) {
                Ok((name, after_name)) => match parse_entity_type(b, after_name) {
                    Ok((entity_type, end)) => Ok(
                        (EntityView { position: Point { x, y }, name, entity_type }, end),
                    ),
                    Err(e) => Err(e),
                },
                Err(e) => Err(e),
            },
            Err(e) => Err(e),
        },
        Err(e) => Err(e),
    }
}

/// What was read as one byte stands where it was read.
pub proof fn lemma_parse_u8_sound(b: Seq<u8>, pos: int)
    requires
        parse_u8(b, pos) is Ok,
    ensures
        ({
            let (v, end) = parse_u8(b, pos).unwrap();
            end == pos + 1 && matches_at(b, pos, ser_u8(v))
        }),
{
    assert(b.subrange(pos, pos + 1) =~= seq![b[pos]]);
}

/// A byte that stands in the bytes is read back.
pub proof fn lemma_parse_u8_complete(b: Seq<u8>, pos: int, v: u8)
    requires
        matches_at(b, pos, ser_u8(v)),
    ensures
        parse_u8(b, pos) == Ok::<(u8, int), WireError>((v, pos + 1)),
{
    assert(b.subrange(pos, pos + 1)[0] == v);
}

/// What was read as a `u32` stands where it was read.
pub proof fn lemma_parse_u32_sound(b: Seq<u8>, pos: int)
    requires
        parse_u32(b, pos) is Ok,
    ensures
        ({
            let (v, end) = parse_u32(b, pos).unwrap();
            end == pos + 4 && ser_u32(v).len() == 4 && matches_at(b, pos, ser_u32(v))
        }),
{
    lemma_auto_spec_u32_to_from_le_bytes();
}

/// A `u32` that stands in the bytes is read back.
pub proof fn lemma_parse_u32_complete(b: Seq<u8>, pos: int, v: u32)
    requires
        matches_at(b, pos, ser_u32(v)),
    ensures
        ser_u32(v).len() == 4,
        parse_u32(b, pos) == Ok::<(u32, int), WireError>((v, pos + 4)),
{
    lemma_auto_spec_u32_to_from_le_bytes();
}

/// What was read as a `u64` stands where it was read.
pub proof fn lemma_parse_u64_sound(b: Seq<u8>, pos: int)
    requires
        parse_u64(b, pos) is Ok,
    ensures
        ({
            let (v, end) = parse_u64(b, pos).unwrap();
            end == pos + 8 && ser_u64(v).len() == 8 && matches_at(b, pos, ser_u64(v))
        }),
{
    lemma_auto_spec_u64_to_from_le_bytes();
}

/// A `u64` that stands in the bytes is read back.
pub proof fn lemma_parse_u64_complete(b: Seq<u8>, pos: int, v: u64)
    requires
        matches_at(b, pos, ser_u64(v)),
    ensures
        ser_u64(v).len() == 8,
        parse_u64(b, pos) == Ok::<(u64, int), WireError>((v, pos + 8)),
{
    lemma_auto_spec_u64_to_from_le_bytes();
}

/// What was read as an `i32` stands where it was read.
pub proof fn lemma_parse_i32_sound(b: Seq<u8>, pos: int)
    requires
        parse_i32(b, pos) is Ok,
    ensures
        ({
            let (v, end) = parse_i32(b, pos).unwrap();
            end == pos + 4 && ser_i32(v).len() == 4 && matches_at(b, pos, ser_i32(v))
        }),
{
    lemma_parse_u32_sound(b, pos);
    let u = parse_u32(b, pos).unwrap().0;
    assert((u as i32) as u32 == u) by (bit_vector);
}

/// An `i32` that stands in the bytes is read back.
pub proof fn lemma_parse_i32_complete(b: Seq<u8>, pos: int, v: i32)
    requires
        matches_at(b, pos, ser_i32(v)),
    ensures
        ser_i32(v).len() == 4,
        parse_i32(b, pos) == Ok::<(i32, int), WireError>((v, pos + 4)),
{
    lemma_parse_u32_complete(b, pos, v as u32);
    assert((v as u32) as i32 == v) by (bit_vector);
}

/// What was read as a string stands where it was read.
pub proof fn lemma_parse_string_sound(b: Seq<u8>, pos: int)
    requires
        parse_string(b, pos) is Ok,
    ensures
        ({
            let (s, end) = parse_string(b, pos).unwrap();
            end == pos + ser_string(s).len() && valid_string(s) && matches_at(
                b,
                pos,
                ser_string(s),
            )
        }),
{
    lemma_parse_u64_sound(b, pos);
    let (n, start) = parse_u64(b, pos).unwrap();
    let raw = b.subrange(start, start + n);
    decode_utf8_encode_utf8(raw);
    let s = decode_utf8(raw);
    assert(encode_utf8(s) == raw);
    assert(matches_at(b, start, encode_utf8(s)));
    lemma_matches_join(b, pos, ser_u64(n), encode_utf8(s));
}

/// A string that stands in the bytes is read back.
pub proof fn lemma_parse_string_complete(b: Seq<u8>, pos: int, s: Seq<char>)
    requires
        valid_string(s),
        matches_at(b, pos, ser_string(s)),
    ensures
        parse_string(b, pos) == Ok::<(Seq<char>, int), WireError>((s, pos + ser_string(s).len())),
{
    let raw = encode_utf8(s);
    let n = raw.len() as u64;
    lemma_matches_split(b, pos, ser_u64(n), raw);
    lemma_parse_u64_complete(b, pos, n);
    encode_utf8_valid_utf8(s);
    encode_utf8_decode_utf8(s);
}

/// What was read as a name stands where it was read.
pub proof fn lemma_parse_name_sound(b: Seq<u8>, pos: int)
    requires
        parse_name(b, pos) is Ok,
    ensures
        ({
            let (name, end) = parse_name(b, pos).unwrap();
            end == pos + ser_name(name).len() && valid_name(name) && matches_at(
                b,
                pos,
                ser_name(name),
            )
        }),
{
    lemma_parse_u8_sound(b, pos);
    let (tag, start) = parse_u8(b, pos).unwrap();
    if tag == 1 {
        lemma_parse_string_sound(b, start);
        let s = parse_string(b, start).unwrap().0;
        lemma_matches_join(b, pos, ser_u8(1), ser_string(s));
    }
}

/// A name that stands in the bytes is read back.
pub proof fn lemma_parse_name_complete(b: Seq<u8>, pos: int, name: Option<Seq<char>>)
    requires
        valid_name(name),
        matches_at(b, pos, ser_name(name)),
    ensures
        parse_name(b, pos) == Ok::<(Option<Seq<char>>, int), WireError>(
            (name, pos + ser_name(name).len()),
        ),
{
    match name {
        None => {
            lemma_parse_u8_complete(b, pos, 0);
        },
        Some(s) => {
            lemma_matches_split(b, pos, ser_u8(1), ser_string(s));
            lemma_parse_u8_complete(b, pos, 1);
            lemma_parse_string_complete(b, pos + 1, s);
        },
    }
}

/// What was read as a direction stands where it was read.
pub proof fn lemma_parse_direction_sound(b: Seq<u8>, pos: int)
    requires
        parse_direction(b, pos) is Ok,
    ensures
        ({
            let (d, end) = parse_direction(b, pos).unwrap();
            end == pos + 1 && matches_at(b, pos, ser_direction(d))
        }),
{
    lemma_parse_u8_sound(b, pos);
}

/// A direction that stands in the bytes is read back.
pub proof fn lemma_parse_direction_complete(b: Seq<u8>, pos: int, d: Direction)
    requires
        matches_at(b, pos, ser_direction(d)),
    ensures
        parse_direction(b, pos) == Ok::<(Direction, int), WireError>((d, pos + 1)),
{
    lemma_parse_u8_complete(b, pos, direction_tag(d));
}

/// What was read as an entity type stands where it was read.
pub proof fn lemma_parse_entity_type_sound(b: Seq<u8>, pos: int)
    requires
        parse_entity_type(b, pos) is Ok,
    ensures
        ({
            let (t, end) = parse_entity_type(b, pos).unwrap();
            end == pos + 1 && matches_at(b, pos, ser_entity_type(t))
        }),
{
    lemma_parse_u8_sound(b, pos);
}

/// An entity type that stands in the bytes is read back.
pub proof fn lemma_parse_entity_type_complete(b: Seq<u8>, pos: int, t: EntityType)
    requires
        matches_at(b, pos, ser_entity_type(t)),
    ensures
        parse_entity_type(b, pos) == Ok::<(EntityType, int), WireError>((t, pos + 1)),
{
    lemma_parse_u8_complete(b, pos, entity_type_tag(t));
}

/// What was read as an entity stands where it was read.
pub proof fn lemma_parse_entity_sound(b: Seq<u8>, pos: int)
    requires
        parse_entity(b, pos) is Ok,
    ensures
        ({
            let (e, end) = parse_entity(b, pos).unwrap();
            end == pos + ser_entity(e).len() && valid_entity(e) && matches_at(
                b,
                pos,
                ser_entity(e),
            )
        }),
{
    lemma_parse_i32_sound(b, pos);
    let (x, after_x) = parse_i32(b, pos).unwrap();
    lemma_parse_i32_sound(b, after_x);
    let (y, after_y) = parse_i32(b, after_x).unwrap();
    lemma_parse_name_sound(b, after_y);
    let (name, after_name) = parse_name(b, after_y).unwrap();
    lemma_parse_entity_type_sound(b, after_name);
    let (entity_type, end) = parse_entity_type(b, after_name).unwrap();
    lemma_matches_join(b, pos, ser_i32(x), ser_i32(y));
    lemma_matches_join(b, pos, ser_i32(x) + ser_i32(y), ser_name(name));
    lemma_matches_join(
        b,
        pos,
        ser_i32(x) + ser_i32(y) + ser_name(name),
        ser_entity_type(entity_type),
    );
}

/// An entity that stands in the bytes is read back.
pub proof fn lemma_parse_entity_complete(b: Seq<u8>, pos: int, e: EntityView)
    requires
        valid_entity(e),
        matches_at(b, pos, ser_entity(e)),
    ensures
        parse_entity(b, pos) == Ok::<(EntityView, int), WireError>((e, pos + ser_entity(e).len())),
{
    let sx = ser_i32(e.position.x);
    let sy = ser_i32(e.position.y);
    let sn = ser_name(e.name);
    let st = ser_entity_type(e.entity_type);
    lemma_matches_split(b, pos, sx + sy + sn, st);
    lemma_matches_split(b, pos, sx + sy, sn);
    lemma_matches_split(b, pos, sx, sy);
    lemma_parse_i32_complete(b, pos, e.position.x);
    lemma_parse_i32_complete(b, pos + 4, e.position.y);
    lemma_parse_name_complete(b, pos + 8, e.name);
    lemma_parse_entity_type_complete(b, pos + 8 + sn.len(), e.entity_type);
}

/// One entity behind its identifier.
pub open spec fn ser_entry(entry: (u32, EntityView)) -> Seq<u8> {
    ser_u32(entry.0) + ser_entity(entry.1)
}

/// One entity behind its identifier.
pub open spec fn parse_entry(b: Seq<u8>, pos: int) -> Result<((u32, EntityView), int), WireError> {
    match parse_u32(b, pos) {
        Ok((id, start)) => match parse_entity(b, start) {
            Ok((e, end)) => Ok(((id, e), end)),
            Err(e) => Err(e),
        },
        Err(e) => Err(e),
    }
}

/// Whether the identifiers of `es` go strictly up.
pub open spec fn ascending(es: Seq<(u32, EntityView)>) -> bool {
    forall|i: int, j: int| 0 <= i < j < es.len() ==> es[i].0 < es[j].0
}

/// Whether every entity of `es` can be written.
pub open spec fn all_valid(es: Seq<(u32, EntityView)>) -> bool {
    forall|i: int| 0 <= i < es.len() ==> valid_entity(#[trigger] es[i].1)
}

/// The entries of `es`, one behind the other.
pub open spec fn ser_entries_body(es: Seq<(u32, EntityView)>) -> Seq<u8>
    decreases es.len(),
{
    if es.len() == 0 {
        Seq::empty()
    } else {
        ser_entries_body(es.drop_last()) + ser_entry(es.last())
    }
}

/// The number of entries, then the entries.
pub open spec fn ser_entries(es: Seq<(u32, EntityView)>) -> Seq<u8> {
    ser_u64(es.len() as u64) + ser_entries_body(es)
}

/// The first `k` entries from `pos` on. An entry whose identifier is not
/// above the one before it is refused.
pub open spec fn parse_entries_body(b: Seq<u8>, pos: int, k: nat) -> Result<
    (Seq<(u32, EntityView)>, int),
    WireError,
>
    decreases k,
{
    if k == 0 {
        Ok((Seq::empty(), pos))
    } else {
        match parse_entries_body(b, pos, (k - 1) as nat) {
            Ok((es, at)) => match parse_entry(b, at) {
                Ok((entry, end)) => if es.len() > 0 && entry.0 <= es.last().0 {
                    Err(WireError::UnorderedIds)
                } else {
                    Ok((es.push(entry), end))
                },
                Err(e) => Err(e),
            },
            Err(e) => Err(e),
        }
    }
}

/// The number of entries, then the entries.
pub open spec fn parse_entries(b: Seq<u8>, pos: int) -> Result<
    (Seq<(u32, EntityView)>, int),
    WireError,
> {
    match parse_u64(b, pos) {
        Ok((n, start)) => parse_entries_body(b, start, n as nat),
        Err(e) => Err(e),
    }
}

/// What was read as an entry stands where it was read.
pub proof fn lemma_parse_entry_sound(b: Seq<u8>, pos: int)
    requires
        parse_entry(b, pos) is Ok,
    ensures
        ({
            let (entry, end) = parse_entry(b, pos).unwrap();
            end == pos + ser_entry(entry).len() && end > pos && valid_entity(entry.1)
                && matches_at(b, pos, ser_entry(entry))
        }),
{
    lemma_parse_u32_sound(b, pos);
    let (id, start) = parse_u32(b, pos).unwrap();
    lemma_parse_entity_sound(b, start);
    let e = parse_entity(b, start).unwrap().0;
    lemma_matches_join(b, pos, ser_u32(id), ser_entity(e));
}

/// An entry that stands in the bytes is read back.
pub proof fn lemma_parse_entry_complete(b: Seq<u8>, pos: int, entry: (u32, EntityView))
    requires
        valid_entity(entry.1),
        matches_at(b, pos, ser_entry(entry)),
    ensures
        parse_entry(b, pos) == Ok::<((u32, EntityView), int), WireError>(
            (entry, pos + ser_entry(entry).len()),
        ),
{
    lemma_matches_split(b, pos, ser_u32(entry.0), ser_entity(entry.1));
    lemma_parse_u32_complete(b, pos, entry.0);
    lemma_parse_entity_complete(b, pos + 4, entry.1);
}

/// What was read as `k` entries are `k` entries in ascending order that
/// stand where they were read.
pub proof fn lemma_parse_entries_body_sound(b: Seq<u8>, pos: int, k: nat)
    requires
        0 <= pos <= b.len(),
        parse_entries_body(b, pos, k) is Ok,
    ensures
        ({
            let (es, end) = parse_entries_body(b, pos, k).unwrap();
            &&& es.len() == k
            &&& ascending(es)
            &&& all_valid(es)
            &&& end == pos + ser_entries_body(es).len()
            &&& matches_at(b, pos, ser_entries_body(es))
        }),
    decreases k,
{
    if k == 0 {
        assert(b.subrange(pos, pos) =~= Seq::<u8>::empty());
    } else {
        lemma_parse_entries_body_sound(b, pos, (k - 1) as nat);
        let (before, at) = parse_entries_body(b, pos, (k - 1) as nat).unwrap();
        lemma_parse_entry_sound(b, at);
        let entry = parse_entry(b, at).unwrap().0;
        let es = before.push(entry);
        assert(es.drop_last() =~= before);
        lemma_matches_join(b, pos, ser_entries_body(before), ser_entry(entry));
        assert forall|i: int, j: int| 0 <= i < j < es.len() implies es[i].0 < es[j].0 by {
            if j == before.len() && i < before.len() {
                if i < before.len() - 1 {
                    assert(before[i].0 < before[before.len() - 1].0);
                }
            }
        }
    }
}

/// A run of entries can only grow: once the first `k` are refused, so are
/// the first `n` for any `n` from `k` on.
pub proof fn lemma_parse_entries_body_error_stays(b: Seq<u8>, pos: int, k: nat, n: nat)
    requires
        k <= n,
        parse_entries_body(b, pos, k) is Err,
    ensures
        parse_entries_body(b, pos, n) == parse_entries_body(b, pos, k),
    decreases n,
{
    if n > k {
        lemma_parse_entries_body_error_stays(b, pos, k, (n - 1) as nat);
    }
}

/// Entries in ascending order that stand in the bytes are read back.
pub proof fn lemma_parse_entries_body_complete(b: Seq<u8>, pos: int, es: Seq<(u32, EntityView)>)
    requires
        ascending(es),
        all_valid(es),
        matches_at(b, pos, ser_entries_body(es)),
    ensures
        parse_entries_body(b, pos, es.len()) == Ok::<(Seq<(u32, EntityView)>, int), WireError>(
            (es, pos + ser_entries_body(es).len()),
        ),
    decreases es.len(),
{
    if es.len() > 0 {
        let before = es.drop_last();
        lemma_matches_split(b, pos, ser_entries_body(before), ser_entry(es.last()));
        assert(ascending(before));
        assert(all_valid(before)) by {
            assert forall|i: int| 0 <= i < before.len() implies valid_entity(
                #[trigger] before[i].1,
            ) by {
                assert(before[i] == es[i]);
            }
        }
        lemma_parse_entries_body_complete(b, pos, before);
        assert(valid_entity(es[es.len() - 1].1));
        lemma_parse_entry_complete(b, pos + ser_entries_body(before).len(), es.last());
        if before.len() > 0 {
            assert(before.last() == es[es.len() - 2]);
            assert(es[es.len() - 2].0 < es[es.len() - 1].0);
        }
        assert(before.push(es.last()) =~= es);
        assert((es.len() - 1) as nat == before.len());
    } else {
        assert(es =~= Seq::<(u32, EntityView)>::empty());
    }
}

/// What was read as a run of entries stands where it was read.
pub proof fn lemma_parse_entries_sound(b: Seq<u8>, pos: int)
    requires
        parse_entries(b, pos) is Ok,
    ensures
        ({
            let (es, end) = parse_entries(b, pos).unwrap();
            &&& ascending(es)
            &&& all_valid(es)
            &&& es.len() <= u64::MAX
            &&& end == pos + ser_entries(es).len()
            &&& matches_at(b, pos, ser_entries(es))
        }),
{
    lemma_parse_u64_sound(b, pos);
    let (n, start) = parse_u64(b, pos).unwrap();
    lemma_parse_entries_body_sound(b, start, n as nat);
    let es = parse_entries_body(b, start, n as nat).unwrap().0;
    lemma_matches_join(b, pos, ser_u64(n), ser_entries_body(es));
}

/// A run of entries in ascending order that stands in the bytes is read
/// back.
pub proof fn lemma_parse_entries_complete(b: Seq<u8>, pos: int, es: Seq<(u32, EntityView)>)
    requires
        ascending(es),
        all_valid(es),
        es.len() <= u64::MAX,
        matches_at(b, pos, ser_entries(es)),
    ensures
        parse_entries(b, pos) == Ok::<(Seq<(u32, EntityView)>, int), WireError>(
            (es, pos + ser_entries(es).len()),
        ),
{
    lemma_matches_split(b, pos, ser_u64(es.len() as u64), ser_entries_body(es));
    lemma_parse_u64_complete(b, pos, es.len() as u64);
    lemma_parse_entries_body_complete(b, pos + 8, es);
}

/// The map that holds each entry of `es` under its identifier.
pub open spec fn entries_map(es: Seq<(u32, EntityView)>) -> Map<u32, EntityView>
    decreases es.len(),
{
    if es.len() == 0 {
        Map::empty()
    } else {
        entries_map(es.drop_last()).insert(es.last().0, es.last().1)
    }
}

/// Whether `ks` holds the keys of `m`, each once, in ascending order.
pub open spec fn lists(ks: Seq<u32>, m: Map<u32, EntityView>) -> bool {
    &&& forall|i: int, j: int| 0 <= i < j < ks.len() ==> ks[i] < ks[j]
    &&& forall|k: u32| ks.contains(k) <==> m.contains_key(k)
}

/// Whether the keys of `m` can be listed, which is so for every map that a
/// program holds.
pub open spec fn listable(m: Map<u32, EntityView>) -> bool {
    exists|ks: Seq<u32>| lists(ks, m)
}

/// The keys of `m` in ascending order.
pub open spec fn sorted_keys(m: Map<u32, EntityView>) -> Seq<u32> {
    choose|ks: Seq<u32>| lists(ks, m)
}

/// The entities of `m` behind their identifiers, in ascending order.
pub open spec fn entries_of(m: Map<u32, EntityView>) -> Seq<(u32, EntityView)> {
    Seq::new(sorted_keys(m).len(), |i: int| (sorted_keys(m)[i], m[sorted_keys(m)[i]]))
}

/// Whether the entities of `m` can be written.
pub open spec fn valid_entities(m: Map<u32, EntityView>) -> bool {
    &&& listable(m)
    &&& sorted_keys(m).len() <= u64::MAX
    &&& forall|k: u32| m.contains_key(k) ==> valid_entity(#[trigger] m[k])
}

/// A set of entities: their number, then each behind its identifier, the
/// identifiers ascending.
pub open spec fn ser_entities(m: Map<u32, EntityView>) -> Seq<u8> {
    ser_entries(entries_of(m))
}

/// A set of entities: their number, then each behind its identifier, the
/// identifiers ascending.
pub open spec fn parse_entities(b: Seq<u8>, pos: int) -> Result<
    (Map<u32, EntityView>, int),
    WireError,
> {
    match parse_entries(b, pos) {
        Ok((es, end)) => Ok((entries_map(es), end)),
        Err(e) => Err(e),
    }
}

/// The keys of a map have one ascending order only.
pub proof fn lemma_listing_unique(a: Seq<u32>, b: Seq<u32>, m: Map<u32, EntityView>)
    requires
        lists(a, m),
        lists(b, m),
    ensures
        a == b,
    decreases a.len(),
{
    if a.len() == 0 {
        if b.len() > 0 {
            assert(b.contains(b[0]));
            assert(a.contains(b[0]));
        }
        assert(a =~= b);
    } else {
        let la = a.last();
        assert(a.contains(la));
        assert(b.contains(la));
        let lb = b.last();
        assert(b.contains(lb));
        assert(a.contains(lb));
        let ia = choose|i: int| 0 <= i < a.len() && a[i] == lb;
        let ib = choose|i: int| 0 <= i < b.len() && b[i] == la;
        assert(la == lb) by {
            if ia < a.len() - 1 {
                assert(a[ia] < a[a.len() - 1]);
            }
            if ib < b.len() - 1 {
                assert(b[ib] < b[b.len() - 1]);
            }
        }
        let rest = m.remove(la);
        let a0 = a.drop_last();
        let b0 = b.drop_last();
        assert(lists(a0, rest)) by {
            assert forall|k: u32| a0.contains(k) <==> rest.contains_key(k) by {
                if a0.contains(k) {
                    let i = choose|i: int| 0 <= i < a0.len() && a0[i] == k;
                    assert(a[i] == k && a[i] < a[a.len() - 1]);
                    assert(a.contains(k));
                }
                if rest.contains_key(k) {
                    assert(a.contains(k));
                    let i = choose|i: int| 0 <= i < a.len() && a[i] == k;
                    assert(a0[i] == k);
                }
            }
        }
        assert(lists(b0, rest)) by {
            assert forall|k: u32| b0.contains(k) <==> rest.contains_key(k) by {
                if b0.contains(k) {
                    let i = choose|i: int| 0 <= i < b0.len() && b0[i] == k;
                    assert(b[i] == k && b[i] < b[b.len() - 1]);
                    assert(b.contains(k));
                }
                if rest.contains_key(k) {
                    assert(b.contains(k));
                    let i = choose|i: int| 0 <= i < b.len() && b[i] == k;
                    assert(b0[i] == k);
                }
            }
        }
        lemma_listing_unique(a0, b0, rest);
        assert(a =~= a0.push(la));
        assert(b =~= b0.push(lb));
    }
}

/// The map of entries in ascending order holds exactly their identifiers,
/// each with its entity.
pub proof fn lemma_entries_map_lookup(es: Seq<(u32, EntityView)>)
    requires
        ascending(es),
    ensures
        forall|k: u32|
            entries_map(es).contains_key(k) <==> exists|i: int|
                0 <= i < es.len() && (#[trigger] es[i]).0 == k,
        forall|i: int| 0 <= i < es.len() ==> entries_map(es)[(#[trigger] es[i]).0] == es[i].1,
    decreases es.len(),
{
    if es.len() > 0 {
        let before = es.drop_last();
        assert(ascending(before));
        lemma_entries_map_lookup(before);
        assert forall|k: u32|
            entries_map(es).contains_key(k) <==> exists|i: int|
                0 <= i < es.len() && (#[trigger] es[i]).0 == k by {
            if entries_map(es).contains_key(k) {
                if k == es.last().0 {
                    assert(es[es.len() - 1].0 == k);
                } else {
                    assert(entries_map(before).contains_key(k));
                    let i = choose|i: int| 0 <= i < before.len() && (#[trigger] before[i]).0 == k;
                    assert(before[i] == es[i]);
                    assert(es[i].0 == k);
                }
            }
            if exists|i: int| 0 <= i < es.len() && (#[trigger] es[i]).0 == k {
                let i = choose|i: int| 0 <= i < es.len() && (#[trigger] es[i]).0 == k;
                if i < before.len() {
                    assert(before[i] == es[i]);
                    assert(before[i].0 == k);
                    assert(entries_map(before).contains_key(k));
                } else {
                    assert(k == es.last().0);
                }
            }
        }
        assert forall|i: int| 0 <= i < es.len() implies entries_map(es)[(#[trigger] es[i]).0]
            == es[i].1 by {
            if i < before.len() {
                assert(before[i] == es[i]);
                assert(es[i].0 < es[es.len() - 1].0);
            }
        }
    }
}

/// Entries in ascending order are the entries of their map.
pub proof fn lemma_entries_of_entries_map(es: Seq<(u32, EntityView)>)
    requires
        ascending(es),
    ensures
        listable(entries_map(es)),
        entries_of(entries_map(es)) == es,
{
    let m = entries_map(es);
    let ks = Seq::new(es.len(), |i: int| es[i].0);
    lemma_entries_map_lookup(es);
    assert(lists(ks, m)) by {
        assert forall|k: u32| ks.contains(k) <==> m.contains_key(k) by {
            if ks.contains(k) {
                let i = choose|i: int| 0 <= i < ks.len() && ks[i] == k;
                assert(es[i].0 == k);
            }
            if m.contains_key(k) {
                let i = choose|i: int| 0 <= i < es.len() && (#[trigger] es[i]).0 == k;
                assert(ks[i] == k);
            }
        }
    }
    lemma_listing_unique(sorted_keys(m), ks, m);
    assert(entries_of(m) =~= es) by {
        assert forall|i: int| 0 <= i < es.len() implies entries_of(m)[i] == es[i] by {
            assert(m[es[i].0] == es[i].1);
        }
    }
}

/// The entries of a map are in ascending order, and their map is the map.
pub proof fn lemma_entries_map_of_entries(m: Map<u32, EntityView>)
    requires
        listable(m),
    ensures
        ascending(entries_of(m)),
        entries_of(m).len() == sorted_keys(m).len(),
        entries_map(entries_of(m)) == m,
{
    let ks = sorted_keys(m);
    let es = entries_of(m);
    assert(lists(ks, m));
    assert(ascending(es));
    lemma_entries_map_lookup(es);
    assert(entries_map(es) =~= m) by {
        assert forall|k: u32| entries_map(es).contains_key(k) <==> m.contains_key(k) by {
            if entries_map(es).contains_key(k) {
                let i = choose|i: int| 0 <= i < es.len() && (#[trigger] es[i]).0 == k;
                assert(ks[i] == k);
                assert(ks.contains(k));
            }
            if m.contains_key(k) {
                assert(ks.contains(k));
                let i = choose|i: int| 0 <= i < ks.len() && ks[i] == k;
                assert(es[i].0 == k);
            }
        }
        assert forall|k: u32| entries_map(es).contains_key(k) implies entries_map(es)[k]
            == m[k] by {
            let i = choose|i: int| 0 <= i < es.len() && (#[trigger] es[i]).0 == k;
            assert(entries_map(es)[es[i].0] == es[i].1);
        }
    }
}

/// What was read as a set of entities stands where it was read.
pub proof fn lemma_parse_entities_sound(b: Seq<u8>, pos: int)
    requires
        parse_entities(b, pos) is Ok,
    ensures
        ({
            let (m, end) = parse_entities(b, pos).unwrap();
            &&& valid_entities(m)
            &&& end == pos + ser_entities(m).len()
            &&& matches_at(b, pos, ser_entities(m))
        }),
{
    lemma_parse_entries_sound(b, pos);
    let es = parse_entries(b, pos).unwrap().0;
    lemma_entries_of_entries_map(es);
    lemma_entries_map_lookup(es);
    let m = entries_map(es);
    lemma_entries_map_of_entries(m);
    assert forall|k: u32| m.contains_key(k) implies valid_entity(#[trigger] m[k]) by {
        let i = choose|i: int| 0 <= i < es.len() && (#[trigger] es[i]).0 == k;
        assert(m[es[i].0] == es[i].1);
        assert(valid_entity(es[i].1));
    }
}

/// A set of entities that stands in the bytes is read back.
pub proof fn lemma_parse_entities_complete(b: Seq<u8>, pos: int, m: Map<u32, EntityView>)
    requires
        valid_entities(m),
        matches_at(b, pos, ser_entities(m)),
    ensures
        parse_entities(b, pos) == Ok::<(Map<u32, EntityView>, int), WireError>(
            (m, pos + ser_entities(m).len()),
        ),
{
    lemma_entries_map_of_entries(m);
    let es = entries_of(m);
    assert(lists(sorted_keys(m), m));
    assert(all_valid(es)) by {
        assert forall|i: int| 0 <= i < es.len() implies valid_entity(#[trigger] es[i].1) by {
            assert(sorted_keys(m).contains(sorted_keys(m)[i]));
            assert(m.contains_key(es[i].0));
        }
    }
    lemma_parse_entries_complete(b, pos, es);
}

/// Whether the action can be written: a name in it can.
pub open spec fn valid_action(a: GameActionView) -> bool {
    match a {
        GameActionView::SpawnPlayer(name) => valid_string(name),
        _ => true,
    }
}

/// An action: tag 0 and the direction of a move, tag 1 and the name of a
/// player to spawn, tag 2 and the identifier of an entity to take over, or
/// tag 3, the request to save.
pub open spec fn ser_action(a: GameActionView) -> Seq<u8> {
    match a {
        GameActionView::Move(d) => ser_u8(0) + ser_direction(d),
        GameActionView::SpawnPlayer(name) => ser_u8(1) + ser_string(name),
        GameActionView::SpawnAs(id) => ser_u8(2) + ser_u32(id.0),
        GameActionView::SaveWorld => ser_u8(3),
    }
}

/// An action: a tag, then the fields of the variant that the tag names.
pub open spec fn parse_action(b: Seq<u8>, pos: int) -> Result<(GameActionView, int), WireError> {
    match parse_u8(b, pos) {
        Ok((tag, start)) => if tag == 0 {
            match parse_direction(b, start) {
                Ok((d, end)) => Ok((GameActionView::Move(d), end)),
                Err(e) => Err(e),
            }
        } else if tag == 1 {
            match parse_string(b, start) {
                Ok((name, end)) => Ok((GameActionView::SpawnPlayer(name), end)),
                Err(e) => Err(e),
            }
        } else if tag == 2 {
            match parse_u32(b, start) {
                Ok((id, end)) => Ok((GameActionView::SpawnAs(EntityID(id)), end)),
                Err(e) => Err(e),
            }
        } else if tag == 3 {
            Ok((GameActionView::SaveWorld, start))
        } else {
            Err(WireError::BadTag)
        },
        Err(e) => Err(e),
    }
}

/// Whether the server message can be written: the entities in it can.
pub open spec fn valid_server_message(m: ServerMessageView) -> bool {
    match m {
        ServerMessageView::EntityMap(entities) => valid_entities(entities),
        ServerMessageView::PlayerID(_) => true,
    }
}

/// A server message: tag 0 and a set of entities, or tag 1 and the
/// identifier of the player.
pub open spec fn ser_server_message(m: ServerMessageView) -> Seq<u8> {
    match m {
        ServerMessageView::EntityMap(entities) => ser_u8(0) + ser_entities(entities),
        ServerMessageView::PlayerID(id) => ser_u8(1) + ser_u32(id.0),
    }
}

/// A server message: a tag, then the fields of the variant that the tag
/// names.
pub open spec fn parse_server_message(b: Seq<u8>, pos: int) -> Result<
    (ServerMessageView, int),
    WireError,
> {
    match parse_u8(b, pos) {
        Ok((tag, start)) => if tag == 0 {
            match parse_entities(b, start) {
                Ok((entities, end)) => Ok((ServerMessageView::EntityMap(entities), end)),
                Err(e) => Err(e),
            }
        } else if tag == 1 {
            match parse_u32(b, start) {
                Ok((id, end)) => Ok((ServerMessageView::PlayerID(EntityID(id)), end)),
                Err(e) => Err(e),
            }
        } else {
            Err(WireError::BadTag)
        },
        Err(e) => Err(e),
    }
}

/// Whether the message can be written.
pub open spec fn valid_message(m: MessageView) -> bool {
    match m {
        MessageView::Client(a) => valid_action(a),
        MessageView::Server(s) => valid_server_message(s),
    }
}

/// A message: tag 0 and an action of a client, or tag 1 and a message of
/// the server.
pub open spec fn ser_message(m: MessageView) -> Seq<u8> {
    match m {
        MessageView::Client(a) => ser_u8(0) + ser_action(a),
        MessageView::Server(s) => ser_u8(1) + ser_server_message(s),
    }
}

/// A message: a tag, then the action or the server message.
pub open spec fn parse_message(b: Seq<u8>, pos: int) -> Result<(MessageView, int), WireError> {
    match parse_u8(b, pos) {
        Ok((tag, start)) => if tag == 0 {
            match parse_action(b, start) {
                Ok((a, end)) => Ok((MessageView::Client(a), end)),
                Err(e) => Err(e),
            }
        } else if tag == 1 {
            match parse_server_message(b, start) {
                Ok((s, end)) => Ok((MessageView::Server(s), end)),
                Err(e) => Err(e),
            }
        } else {
            Err(WireError::BadTag)
        },
        Err(e) => Err(e),
    }
}

/// Whether the world can be written: its counter is one that a generator
/// can hold, and its entities and its name can be written.
pub open spec fn valid_world(w: GameStateView) -> bool {
    w.count <= u32::MAX && valid_entities(w.entities) && valid_string(w.world_name)
}

/// A world: the counter of the generator, the entities, the name.
pub open spec fn ser_world(w: GameStateView) -> Seq<u8> {
    ser_u32(w.count as u32) + ser_entities(w.entities) + ser_string(w.world_name)
}

/// A world: the counter of the generator, the entities, the name.
pub open spec fn parse_world(b: Seq<u8>, pos: int) -> Result<(GameStateView, int), WireError> {
    match parse_u32(b, pos) {
        Ok((count, after_count)) => match parse_entities(b, after_count) {
            Ok((entities, after_entities)) => match parse_string(b, after_entities) {
                Ok((world_name, end)) => Ok(
                    (GameStateView { count: count as nat, entities, world_name }, end),
                ),
                Err(e) => Err(e),
            },
            Err(e) => Err(e),
        },
        Err(e) => Err(e),
    }
}

/// What was read as an action stands where it was read.
pub proof fn lemma_parse_action_sound(b: Seq<u8>, pos: int)
    requires
        parse_action(b, pos) is Ok,
    ensures
        ({
            let (a, end) = parse_action(b, pos).unwrap();
            end == pos + ser_action(a).len() && valid_action(a) && matches_at(
                b,
                pos,
                ser_action(a),
            )
        }),
{
    lemma_parse_u8_sound(b, pos);
    let (tag, start) = parse_u8(b, pos).unwrap();
    if tag == 0 {
        lemma_parse_direction_sound(b, start);
        let d = parse_direction(b, start).unwrap().0;
        lemma_matches_join(b, pos, ser_u8(0), ser_direction(d));
    } else if tag == 1 {
        lemma_parse_string_sound(b, start);
        let name = parse_string(b, start).unwrap().0;
        lemma_matches_join(b, pos, ser_u8(1), ser_string(name));
    } else if tag == 2 {
        lemma_parse_u32_sound(b, start);
        let id = parse_u32(b, start).unwrap().0;
        lemma_matches_join(b, pos, ser_u8(2), ser_u32(id));
    }
}

/// An action that stands in the bytes is read back.
pub proof fn lemma_parse_action_complete(b: Seq<u8>, pos: int, a: GameActionView)
    requires
        valid_action(a),
        matches_at(b, pos, ser_action(a)),
    ensures
        parse_action(b, pos) == Ok::<(GameActionView, int), WireError>(
            (a, pos + ser_action(a).len()),
        ),
{
    match a {
        GameActionView::Move(d) => {
            lemma_matches_split(b, pos, ser_u8(0), ser_direction(d));
            lemma_parse_u8_complete(b, pos, 0);
            lemma_parse_direction_complete(b, pos + 1, d);
        },
        GameActionView::SpawnPlayer(name) => {
            lemma_matches_split(b, pos, ser_u8(1), ser_string(name));
            lemma_parse_u8_complete(b, pos, 1);
            lemma_parse_string_complete(b, pos + 1, name);
        },
        GameActionView::SpawnAs(id) => {
            lemma_matches_split(b, pos, ser_u8(2), ser_u32(id.0));
            lemma_parse_u8_complete(b, pos, 2);
            lemma_parse_u32_complete(b, pos + 1, id.0);
        },
        GameActionView::SaveWorld => {
            lemma_parse_u8_complete(b, pos, 3);
        },
    }
}

/// What was read as a server message stands where it was read.
pub proof fn lemma_parse_server_message_sound(b: Seq<u8>, pos: int)
    requires
        parse_server_message(b, pos) is Ok,
    ensures
        ({
            let (m, end) = parse_server_message(b, pos).unwrap();
            end == pos + ser_server_message(m).len() && valid_server_message(m) && matches_at(
                b,
                pos,
                ser_server_message(m),
            )
        }),
{
    lemma_parse_u8_sound(b, pos);
    let (tag, start) = parse_u8(b, pos).unwrap();
    if tag == 0 {
        lemma_parse_entities_sound(b, start);
        let entities = parse_entities(b, start).unwrap().0;
        lemma_matches_join(b, pos, ser_u8(0), ser_entities(entities));
    } else {
        lemma_parse_u32_sound(b, start);
        let id = parse_u32(b, start).unwrap().0;
        lemma_matches_join(b, pos, ser_u8(1), ser_u32(id));
    }
}

/// A server message that stands in the bytes is read back.
pub proof fn lemma_parse_server_message_complete(b: Seq<u8>, pos: int, m: ServerMessageView)
    requires
        valid_server_message(m),
        matches_at(b, pos, ser_server_message(m)),
    ensures
        parse_server_message(b, pos) == Ok::<(ServerMessageView, int), WireError>(
            (m, pos + ser_server_message(m).len()),
        ),
{
    match m {
        ServerMessageView::EntityMap(entities) => {
            lemma_matches_split(b, pos, ser_u8(0), ser_entities(entities));
            lemma_parse_u8_complete(b, pos, 0);
            lemma_parse_entities_complete(b, pos + 1, entities);
        },
        ServerMessageView::PlayerID(id) => {
            lemma_matches_split(b, pos, ser_u8(1), ser_u32(id.0));
            lemma_parse_u8_complete(b, pos, 1);
            lemma_parse_u32_complete(b, pos + 1, id.0);
        },
    }
}

/// What was read as a message stands where it was read.
pub proof fn lemma_parse_message_sound(b: Seq<u8>, pos: int)
    requires
        parse_message(b, pos) is Ok,
    ensures
        ({
            let (m, end) = parse_message(b, pos).unwrap();
            end == pos + ser_message(m).len() && valid_message(m) && matches_at(
                b,
                pos,
                ser_message(m),
            )
        }),
{
    lemma_parse_u8_sound(b, pos);
    let (tag, start) = parse_u8(b, pos).unwrap();
    if tag == 0 {
        lemma_parse_action_sound(b, start);
        let a = parse_action(b, start).unwrap().0;
        lemma_matches_join(b, pos, ser_u8(0), ser_action(a));
    } else {
        lemma_parse_server_message_sound(b, start);
        let s = parse_server_message(b, start).unwrap().0;
        lemma_matches_join(b, pos, ser_u8(1), ser_server_message(s));
    }
}

/// A message that stands in the bytes is read back.
pub proof fn lemma_parse_message_complete(b: Seq<u8>, pos: int, m: MessageView)
    requires
        valid_message(m),
        matches_at(b, pos, ser_message(m)),
    ensures
        parse_message(b, pos) == Ok::<(MessageView, int), WireError>(
            (m, pos + ser_message(m).len()),
        ),
{
    match m {
        MessageView::Client(a) => {
            lemma_matches_split(b, pos, ser_u8(0), ser_action(a));
            lemma_parse_u8_complete(b, pos, 0);
            lemma_parse_action_complete(b, pos + 1, a);
        },
        MessageView::Server(s) => {
            lemma_matches_split(b, pos, ser_u8(1), ser_server_message(s));
            lemma_parse_u8_complete(b, pos, 1);
            lemma_parse_server_message_complete(b, pos + 1, s);
        },
    }
}

/// What was read as a world stands where it was read.
pub proof fn lemma_parse_world_sound(b: Seq<u8>, pos: int)
    requires
        parse_world(b, pos) is Ok,
    ensures
        ({
            let (w, end) = parse_world(b, pos).unwrap();
            end == pos + ser_world(w).len() && valid_world(w) && matches_at(b, pos, ser_world(w))
        }),
{
    lemma_parse_u32_sound(b, pos);
    let (count, after_count) = parse_u32(b, pos).unwrap();
    lemma_parse_entities_sound(b, after_count);
    let (entities, after_entities) = parse_entities(b, after_count).unwrap();
    lemma_parse_string_sound(b, after_entities);
    let world_name = parse_string(b, after_entities).unwrap().0;
    lemma_matches_join(b, pos, ser_u32(count), ser_entities(entities));
    lemma_matches_join(b, pos, ser_u32(count) + ser_entities(entities), ser_string(world_name));
}

/// A world that stands in the bytes is read back.
pub proof fn lemma_parse_world_complete(b: Seq<u8>, pos: int, w: GameStateView)
    requires
        valid_world(w),
        matches_at(b, pos, ser_world(w)),
    ensures
        parse_world(b, pos) == Ok::<(GameStateView, int), WireError>((w, pos + ser_world(w).len())),
{
    let sc = ser_u32(w.count as u32);
    let se = ser_entities(w.entities);
    lemma_matches_split(b, pos, sc + se, ser_string(w.world_name));
    lemma_matches_split(b, pos, sc, se);
    lemma_parse_u32_complete(b, pos, w.count as u32);
    lemma_parse_entities_complete(b, pos + 4, w.entities);
    lemma_parse_string_complete(b, pos + 4 + se.len(), w.world_name);
}

/// The most bytes that a message may have: 10 MiB.
pub const MAX_MESSAGE_SIZE: usize = 10485760;

/// The message that the payload `b` holds, or why it holds none: it is too
/// long, it is not the encoding of a message, or bytes follow the message.
pub open spec fn spec_decode_message(b: Seq<u8>) -> Result<MessageView, WireError> {
    if b.len() > MAX_MESSAGE_SIZE {
        Err(WireError::TooLarge)
    } else {
        match parse_message(b, 0) {
            Ok((m, end)) => if end == b.len() {
                Ok(m)
            } else {
                Err(WireError::TrailingBytes)
            },
            Err(e) => Err(e),
        }
    }
}

/// The world that the file contents `b` hold, or why they hold none.
pub open spec fn spec_decode_world(b: Seq<u8>) -> Result<GameStateView, WireError> {
    match parse_world(b, 0) {
        Ok((w, end)) => if end == b.len() {
            Ok(w)
        } else {
            Err(WireError::TrailingBytes)
        },
        Err(e) => Err(e),
    }
}

/// Decoding undoes encoding: the encoding of a message, if it is no longer
/// than a message may be, decodes to that message.
pub proof fn lemma_message_round_trip(m: MessageView)
    requires
        valid_message(m),
        ser_message(m).len() <= MAX_MESSAGE_SIZE,
    ensures
        spec_decode_message(ser_message(m)) == Ok::<MessageView, WireError>(m),
{
    let b = ser_message(m);
    assert(b.subrange(0, b.len() as int) =~= b);
    lemma_parse_message_complete(b, 0, m);
}

/// Encoding undoes decoding: a payload that decodes to a message is the
/// encoding of that message, byte for byte.
pub proof fn lemma_message_bytes_round_trip(b: Seq<u8>)
    requires
        spec_decode_message(b) is Ok,
    ensures
        valid_message(spec_decode_message(b).unwrap()),
        ser_message(spec_decode_message(b).unwrap()) == b,
{
    lemma_parse_message_sound(b, 0);
    assert(b.subrange(0, b.len() as int) =~= b);
}

/// Loading undoes saving: the encoding of a world decodes to a world with
/// the same counter, the same entities and the same name.
pub proof fn lemma_world_round_trip(w: GameStateView)
    requires
        valid_world(w),
    ensures
        spec_decode_world(ser_world(w)) == Ok::<GameStateView, WireError>(w),
{
    let b = ser_world(w);
    assert(b.subrange(0, b.len() as int) =~= b);
    lemma_parse_world_complete(b, 0, w);
}

/// Saving undoes loading: file contents that decode to a world are the
/// encoding of that world, byte for byte.
pub proof fn lemma_world_bytes_round_trip(b: Seq<u8>)
    requires
        spec_decode_world(b) is Ok,
    ensures
        valid_world(spec_decode_world(b).unwrap()),
        ser_world(spec_decode_world(b).unwrap()) == b,
{
    lemma_parse_world_sound(b, 0);
    assert(b.subrange(0, b.len() as int) =~= b);
}

} // verus!
