//! Encoding and decoding of messages and of saved worlds.
//!
//! The functions here write and read the byte format that the module
//! `format` lays down. The caller moves the bytes: one message per stream,
//! one world per file.

use crate::ecs::{Direction, Entity, EntityGenerator, EntityID, EntityMap, EntityType, EntityView, Point};
use crate::format::{
    ascending, entries_map, entries_of, lemma_listing_unique,
    lemma_parse_entries_body_error_stays, listable, lists, parse_action, parse_direction,
    parse_entities, parse_entity, parse_entity_type, parse_entries_body, parse_entry, parse_i32,
    parse_message, parse_name, parse_server_message, parse_string, parse_u32, parse_u64, parse_u8,
    ser_action, ser_direction, ser_entities, ser_entity, ser_entity_type, ser_entries_body,
    ser_entry, ser_i32, ser_message, ser_name, ser_server_message, ser_string, ser_u32, ser_u64,
    ser_u8, ser_world, sorted_keys, spec_decode_message, spec_decode_world, valid_action,
    valid_entities, valid_entity, valid_message, valid_name, valid_server_message, valid_string,
    valid_world, WireError, MAX_MESSAGE_SIZE,
};
use crate::game::{GameAction, GameState, GameStateView};
use crate::net::{Message, MessageView, ServerMessage};
use vstd::bytes::{u32_from_le_bytes, u32_to_le_bytes, u64_from_le_bytes, u64_to_le_bytes};
use vstd::prelude::*;
use vstd::slice::{slice_subrange, slice_to_vec};
use vstd::string::StrSliceExecFns;
use vstd::utf8::{decode_utf8, valid_utf8};

verus! {

/// `String::from_utf8` of `std`: the string that the bytes are the UTF-8
/// form of, or nothing where they are not UTF-8.
#[verifier::external_body]
fn string_from_utf8(bytes: Vec<u8>) -> (s: Option<String>)
    ensures
        match s {
            Some(s) => valid_utf8(bytes@) && s@ == decode_utf8(bytes@),
            None => !valid_utf8(bytes@),
        },
{
    String::from_utf8(bytes).ok()
}

/// `sort_unstable` of `std` on a slice of `u32`: the same numbers, each as
/// often as before, in ascending order.
#[verifier::external_body]
fn sort_ascending(v: &mut Vec<u32>)
    ensures
        final(v)@.to_multiset() == old(v)@.to_multiset(),
        forall|i: int, j: int| 0 <= i < j < final(v)@.len() ==> final(v)@[i] <= final(v)@[j],
{
    v.sort_unstable();
}

/// Whether what was read is what the format says is read, for a value that
/// is its own model.
spec fn reads<T>(r: Result<(T, usize), WireError>, p: Result<(T, int), WireError>) -> bool {
    match r {
        Ok((v, end)) => p == Ok::<(T, int), WireError>((v, end as int)),
        Err(e) => p == Err::<(T, int), WireError>(e),
    }
}

/// Whether what was read is what the format says is read, for a value with
/// a view.
spec fn reads_view<T: View>(r: Result<(T, usize), WireError>, p: Result<(T::V, int), WireError>) -> bool {
    match r {
        Ok((v, end)) => p == Ok::<(T::V, int), WireError>((v@, end as int)),
        Err(e) => p == Err::<(T::V, int), WireError>(e),
    }
}

/// Whether a read stopped inside the bytes.
spec fn in_bounds<T>(r: Result<(T, usize), WireError>, len: nat) -> bool {
    match r {
        Ok((_, end)) => end <= len,
        Err(_) => true,
    }
}

fn write_u8(out: &mut Vec<u8>, v: u8)
    ensures
        final(out)@ == old(out)@ + ser_u8(v),
{
    out.push(v);
    assert(out@ =~= old(out)@ + ser_u8(v));
}

fn write_u32(out: &mut Vec<u8>, v: u32)
    ensures
        final(out)@ == old(out)@ + ser_u32(v),
{
    let mut raw = u32_to_le_bytes(v);
    out.append(&mut raw);
}

fn write_u64(out: &mut Vec<u8>, v: u64)
    ensures
        final(out)@ == old(out)@ + ser_u64(v),
{
    let mut raw = u64_to_le_bytes(v);
    out.append(&mut raw);
}

fn write_i32(out: &mut Vec<u8>, v: i32)
    ensures
        final(out)@ == old(out)@ + ser_i32(v),
{
    write_u32(out, v as u32);
}

fn write_string(out: &mut Vec<u8>, s: &str)
    ensures
        valid_string(s@),
        final(out)@ == old(out)@ + ser_string(s@),
{
    let mut raw = s.as_bytes_vec();
    write_u64(out, raw.len() as u64);
    out.append(&mut raw);
    assert(out@ =~= old(out)@ + ser_string(s@));
}

fn write_name(out: &mut Vec<u8>, name: &Option<String>)
    ensures
        valid_name(
            match name {
                Some(s) => Some(s@),
                None => None,
            },
        ),
        final(out)@ == old(out)@ + ser_name(
            match name {
                Some(s) => Some(s@),
                None => None,
            },
        ),
{
    match name {
        None => {
            write_u8(out, 0);
        },
        Some(s) => {
            write_u8(out, 1);
            write_string(out, s.as_str());
            assert(out@ =~= old(out)@ + (ser_u8(1) + ser_string(s@)));
        },
    }
}

fn write_direction(out: &mut Vec<u8>, d: Direction)
    ensures
        final(out)@ == old(out)@ + ser_direction(d),
{
    let tag: u8 = match d {
        Direction::Up => 0,
        Direction::Down => 1,
        Direction::Left => 2,
        Direction::Right => 3,
    };
    write_u8(out, tag);
}

fn write_entity_type(out: &mut Vec<u8>, t: EntityType)
    ensures
        final(out)@ == old(out)@ + ser_entity_type(t),
{
    let tag: u8 = match t {
        EntityType::Player => 0,
        EntityType::Tree => 1,
    };
    write_u8(out, tag);
}

fn write_entity(out: &mut Vec<u8>, e: &Entity)
    ensures
        valid_entity(e@),
        final(out)@ == old(out)@ + ser_entity(e@),
{
    write_i32(out, e.position.x);
    write_i32(out, e.position.y);
    write_name(out, &e.name);
    write_entity_type(out, e.entity_type);
    assert(out@ =~= old(out)@ + ser_entity(e@));
}

/// The identifiers of `entities` in ascending order.
fn ascending_ids(entities: &EntityMap) -> (ks: Vec<u32>)
    ensures
        lists(ks@, entities@),
        ks@ == sorted_keys(entities@),
        listable(entities@),
{
    let ids = entities.ids();
    let mut ks: Vec<u32> = Vec::new();
    let mut i: usize = 0;
    while i < ids.len()
        invariant
            i <= ids.len(),
            ks.len() == i,
            forall|j: int| 0 <= j < i ==> ks@[j] == (#[trigger] ids@[j]).0,
        decreases ids.len() - i,
    {
        ks.push(ids[i].0);
        i += 1;
    }
    let ghost unsorted = ks@;
    proof {
        assert(unsorted.no_duplicates()) by {
            assert forall|a: int, b: int|
                0 <= a < unsorted.len() && 0 <= b < unsorted.len() && a != b implies unsorted[a]
                != unsorted[b] by {
                assert(ids@[a] != ids@[b]);
            }
        }
    }
    sort_ascending(&mut ks);
    proof {
        unsorted.to_multiset_ensures();
        ks@.to_multiset_ensures();
        unsorted.lemma_multiset_has_no_duplicates();
        ks@.lemma_multiset_has_no_duplicates_conv();
        assert forall|a: int, b: int| 0 <= a < b < ks@.len() implies ks@[a] < ks@[b] by {
            assert(ks@[a] <= ks@[b] && ks@[a] != ks@[b]);
        }
        assert forall|k: u32| ks@.contains(k) <==> entities@.contains_key(k) by {
            assert(ks@.contains(k) <==> ks@.to_multiset().count(k) > 0);
            assert(unsorted.contains(k) <==> unsorted.to_multiset().count(k) > 0);
            if unsorted.contains(k) {
                let j = choose|j: int| 0 <= j < unsorted.len() && unsorted[j] == k;
                assert(ids@.contains(ids@[j]));
            }
            if entities@.contains_key(k) {
                assert(ids@.contains(EntityID(k)));
                let j = choose|j: int| 0 <= j < ids@.len() && ids@[j] == EntityID(k);
                assert(unsorted[j] == k);
            }
        }
        assert(lists(ks@, entities@));
        lemma_listing_unique(ks@, sorted_keys(entities@), entities@);
    }
    ks
}

fn write_entities(out: &mut Vec<u8>, entities: &EntityMap)
    ensures
        valid_entities(entities@),
        final(out)@ == old(out)@ + ser_entities(entities@),
{
    let ks = ascending_ids(entities);
    let ghost es = entries_of(entities@);
    write_u64(out, ks.len() as u64);
    let ghost head = out@;
    let mut i: usize = 0;
    proof {
        assert(es.take(0) =~= Seq::<(u32, EntityView)>::empty());
        assert(out@ =~= head + ser_entries_body(es.take(0)));
    }
    while i < ks.len()
        invariant
            i <= ks.len(),
            lists(ks@, entities@),
            ks@ == sorted_keys(entities@),
            es == entries_of(entities@),
            es.len() == ks.len(),
            out@ == head + ser_entries_body(es.take(i as int)),
            forall|j: int| 0 <= j < i ==> valid_entity(#[trigger] entities@[ks@[j]]),
        decreases ks.len() - i,
    {
        let id = ks[i];
        assert(ks@.contains(id));
        match entities.get(&EntityID(id)) {
            Some(e) => {
                let ghost before = out@;
                write_u32(out, id);
                write_entity(out, e);
                proof {
                    assert(es[i as int] == (id, e@));
                    assert(es.take(i + 1).drop_last() =~= es.take(i as int));
                    assert(es.take(i + 1).last() == es[i as int]);
                    assert(out@ =~= before + ser_entry(es[i as int]));
                    assert(out@ =~= head + ser_entries_body(es.take(i + 1)));
                }
            },
            None => {},
        }
        i += 1;
    }
    proof {
        assert(es.take(ks.len() as int) =~= es);
        assert forall|k: u32| entities@.contains_key(k) implies valid_entity(
            #[trigger] entities@[k],
        ) by {
            assert(ks@.contains(k));
            let j = choose|j: int| 0 <= j < ks@.len() && ks@[j] == k;
            assert(valid_entity(entities@[ks@[j]]));
        }
        assert(out@ =~= old(out)@ + ser_entities(entities@));
    }
}

fn write_action(out: &mut Vec<u8>, action: &GameAction)
    ensures
        valid_action(action@),
        final(out)@ == old(out)@ + ser_action(action@),
{
    match action {
        GameAction::Move(d) => {
            write_u8(out, 0);
            write_direction(out, *d);
            assert(out@ =~= old(out)@ + (ser_u8(0) + ser_direction(*d)));
        },
        GameAction::SpawnPlayer(name) => {
            write_u8(out, 1);
            write_string(out, name.as_str());
            assert(out@ =~= old(out)@ + (ser_u8(1) + ser_string(name@)));
        },
        GameAction::SpawnAs(id) => {
            write_u8(out, 2);
            write_u32(out, id.0);
            assert(out@ =~= old(out)@ + (ser_u8(2) + ser_u32(id.0)));
        },
        GameAction::SaveWorld => {
            write_u8(out, 3);
        },
    }
}

fn write_server_message(out: &mut Vec<u8>, msg: &ServerMessage)
    ensures
        valid_server_message(msg@),
        final(out)@ == old(out)@ + ser_server_message(msg@),
{
    match msg {
        ServerMessage::EntityMap(entities) => {
            write_u8(out, 0);
            write_entities(out, entities);
            assert(out@ =~= old(out)@ + (ser_u8(0) + ser_entities(entities@)));
        },
        ServerMessage::PlayerID(id) => {
            write_u8(out, 1);
            write_u32(out, id.0);
            assert(out@ =~= old(out)@ + (ser_u8(1) + ser_u32(id.0)));
        },
    }
}

/// The bytes of `msg`.
///
/// Every message has an encoding. One longer than `MAX_MESSAGE_SIZE` is
/// refused by the receiver.
pub fn encode_message(msg: &Message) -> (bytes: Vec<u8>)
    ensures
        valid_message(msg@),
        bytes@ == ser_message(msg@),
{
    let mut out: Vec<u8> = Vec::new();
    match msg {
        Message::Client(action) => {
            write_u8(&mut out, 0);
            write_action(&mut out, action);
            assert(out@ =~= ser_u8(0) + ser_action(action@));
        },
        Message::Server(server) => {
            write_u8(&mut out, 1);
            write_server_message(&mut out, server);
            assert(out@ =~= ser_u8(1) + ser_server_message(server@));
        },
    }
    out
}

/// The bytes of a world, as they are saved.
pub fn encode_world(state: &GameState) -> (bytes: Vec<u8>)
    ensures
        valid_world(state@),
        bytes@ == ser_world(state@),
{
    let mut out: Vec<u8> = Vec::new();
    write_u32(&mut out, state.entity_gen.current());
    write_entities(&mut out, &state.entities);
    write_string(&mut out, state.world_name.as_str());
    assert(out@ =~= ser_world(state@));
    out
}

fn read_u8(bytes: &[u8], pos: usize) -> (r: Result<(u8, usize), WireError>)
    requires
        pos <= bytes@.len(),
    ensures
        reads(r, parse_u8(bytes@, pos as int)),
        in_bounds(r, bytes@.len()),
{
    if pos < bytes.len() {
        Ok((bytes[pos], pos + 1))
    } else {
        Err(WireError::UnexpectedEnd)
    }
}

fn read_u32(bytes: &[u8], pos: usize) -> (r: Result<(u32, usize), WireError>)
    requires
        pos <= bytes@.len(),
    ensures
        reads(r, parse_u32(bytes@, pos as int)),
        in_bounds(r, bytes@.len()),
{
    if bytes.len() - pos >= 4 {
        let raw = slice_subrange(bytes, pos, pos + 4);
        Ok((u32_from_le_bytes(raw), pos + 4))
    } else {
        Err(WireError::UnexpectedEnd)
    }
}

fn read_u64(bytes: &[u8], pos: usize) -> (r: Result<(u64, usize), WireError>)
    requires
        pos <= bytes@.len(),
    ensures
        reads(r, parse_u64(bytes@, pos as int)),
        in_bounds(r, bytes@.len()),
{
    if bytes.len() - pos >= 8 {
        let raw = slice_subrange(bytes, pos, pos + 8);
        Ok((u64_from_le_bytes(raw), pos + 8))
    } else {
        Err(WireError::UnexpectedEnd)
    }
}

fn read_i32(bytes: &[u8], pos: usize) -> (r: Result<(i32, usize), WireError>)
    requires
        pos <= bytes@.len(),
    ensures
        reads(r, parse_i32(bytes@, pos as int)),
        in_bounds(r, bytes@.len()),
{
    match read_u32(bytes, pos) {
        Ok((u, end)) => Ok((u as i32, end)),
        Err(e) => Err(e),
    }
}

fn read_string(bytes: &[u8], pos: usize) -> (r: Result<(String, usize), WireError>)
    requires
        pos <= bytes@.len(),
    ensures
        reads_view(r, parse_string(bytes@, pos as int)),
        in_bounds(r, bytes@.len()),
{
    let (n, start) = match read_u64(bytes, pos) {
        Ok(read) => read,
        Err(e) => {
            return Err(e);
        },
    };
    if n > (bytes.len() - start) as u64 {
        return Err(WireError::UnexpectedEnd);
    }
    let end = start + n as usize;
    let raw = slice_to_vec(slice_subrange(bytes, start, end));
    match string_from_utf8(raw) {
        Some(s) => Ok((s, end)),
        None => Err(WireError::BadUtf8),
    }
}

fn read_name(bytes: &[u8], pos: usize) -> (r: Result<(Option<String>, usize), WireError>)
    requires
        pos <= bytes@.len(),
    ensures
        match r {
            Ok((name, end)) => parse_name(bytes@, pos as int) == Ok::<
                (Option<Seq<char>>, int),
                WireError,
            >(
                (
                    match name {
                        Some(s) => Some(s@),
                        None => None,
                    },
                    end as int,
                ),
            ),
            Err(e) => parse_name(bytes@, pos as int) == Err::<(Option<Seq<char>>, int), WireError>(
                e,
            ),
        },
        in_bounds(r, bytes@.len()),
{
    let (tag, start) = match read_u8(bytes, pos) {
        Ok(read) => read,
        Err(e) => {
            return Err(e);
        },
    };
    if tag == 0 {
        Ok((None, start))
    } else if tag == 1 {
        match read_string(bytes, start) {
            Ok((s, end)) => Ok((Some(s), end)),
            Err(e) => Err(e),
        }
    } else {
        Err(WireError::BadTag)
    }
}

fn read_direction(bytes: &[u8], pos: usize) -> (r: Result<(Direction, usize), WireError>)
    requires
        pos <= bytes@.len(),
    ensures
        reads(r, parse_direction(bytes@, pos as int)),
        in_bounds(r, bytes@.len()),
{
    let (tag, end) = match read_u8(bytes, pos) {
        Ok(read) => read,
        Err(e) => {
            return Err(e);
        },
    };
    if tag == 0 {
        Ok((Direction::Up, end))
    } else if tag == 1 {
        Ok((Direction::Down, end))
    } else if tag == 2 {
        Ok((Direction::Left, end))
    } else if tag == 3 {
        Ok((Direction::Right, end))
    } else {
        Err(WireError::BadTag)
    }
}

fn read_entity_type(bytes: &[u8], pos: usize) -> (r: Result<(EntityType, usize), WireError>)
    requires
        pos <= bytes@.len(),
    ensures
        reads(r, parse_entity_type(bytes@, pos as int)),
        in_bounds(r, bytes@.len()),
{
    let (tag, end) = match read_u8(bytes, pos) {
        Ok(read) => read,
        Err(e) => {
            return Err(e);
        },
    };
    if tag == 0 {
        Ok((EntityType::Player, end))
    } else if tag == 1 {
        Ok((EntityType::Tree, end))
    } else {
        Err(WireError::BadTag)
    }
}

fn read_entity(bytes: &[u8], pos: usize) -> (r: Result<(Entity, usize), WireError>)
    requires
        pos <= bytes@.len(),
    ensures
        reads_view(r, parse_entity(bytes@, pos as int)),
        in_bounds(r, bytes@.len()),
{
    let (x, after_x) = match read_i32(bytes, pos) {
        Ok(read) => read,
        Err(e) => {
            return Err(e);
        },
    };
    let (y, after_y) = match read_i32(bytes, after_x) {
        Ok(read) => read,
        Err(e) => {
            return Err(e);
        },
    };
    let (name, after_name) = match read_name(bytes, after_y) {
        Ok(read) => read,
        Err(e) => {
            return Err(e);
        },
    };
    let (entity_type, end) = match read_entity_type(bytes, after_name) {
        Ok(read) => read,
        Err(e) => {
            return Err(e);
        },
    };
    Ok((Entity { position: Point { x, y }, name, entity_type }, end))
}

fn read_entities(bytes: &[u8], pos: usize) -> (r: Result<(EntityMap, usize), WireError>)
    requires
        pos <= bytes@.len(),
    ensures
        reads_view(r, parse_entities(bytes@, pos as int)),
        in_bounds(r, bytes@.len()),
{
    let (n, start) = match read_u64(bytes, pos) {
        Ok(read) => read,
        Err(e) => {
            return Err(e);
        },
    };
    let mut entities = EntityMap::new();
    let mut last: Option<u32> = None;
    let mut at: usize = start;
    let mut i: u64 = 0;
    let ghost mut es: Seq<(u32, EntityView)> = Seq::empty();
    while i < n
        invariant
            i <= n,
            start <= bytes@.len(),
            at <= bytes@.len(),
            parse_u64(bytes@, pos as int) == Ok::<(u64, int), WireError>((n, start as int)),
            parse_entries_body(bytes@, start as int, i as nat) == Ok::<
                (Seq<(u32, EntityView)>, int),
                WireError,
            >((es, at as int)),
            entities@ == entries_map(es),
            es.len() == i,
            match last {
                Some(id) => es.len() > 0 && es.last().0 == id,
                None => es.len() == 0,
            },
        decreases n - i,
    {
        let ghost next = parse_entries_body(bytes@, start as int, (i + 1) as nat);
        let (id, after_id) = match read_u32(bytes, at) {
            Ok(read) => read,
            Err(e) => {
                proof {
                    lemma_parse_entries_body_error_stays(
                        bytes@,
                        start as int,
                        (i + 1) as nat,
                        n as nat,
                    );
                }
                return Err(e);
            },
        };
        let (entity, end) = match read_entity(bytes, after_id) {
            Ok(read) => read,
            Err(e) => {
                proof {
                    lemma_parse_entries_body_error_stays(
                        bytes@,
                        start as int,
                        (i + 1) as nat,
                        n as nat,
                    );
                }
                return Err(e);
            },
        };
        assert(parse_entry(bytes@, at as int) == Ok::<((u32, EntityView), int), WireError>(
            ((id, entity@), end as int),
        ));
        let ordered = match last {
            Some(prev) => prev < id,
            None => true,
        };
        if !ordered {
            proof {
                lemma_parse_entries_body_error_stays(
                    bytes@,
                    start as int,
                    (i + 1) as nat,
                    n as nat,
                );
            }
            return Err(WireError::UnorderedIds);
        }
        proof {
            let grown = es.push((id, entity@));
            assert(grown.drop_last() =~= es);
            es = grown;
        }
        entities.insert(EntityID(id), entity);
        last = Some(id);
        at = end;
        i += 1;
    }
    Ok((entities, at))
}

fn read_action(bytes: &[u8], pos: usize) -> (r: Result<(GameAction, usize), WireError>)
    requires
        pos <= bytes@.len(),
    ensures
        reads_view(r, parse_action(bytes@, pos as int)),
        in_bounds(r, bytes@.len()),
{
    let (tag, start) = match read_u8(bytes, pos) {
        Ok(read) => read,
        Err(e) => {
            return Err(e);
        },
    };
    if tag == 0 {
        match read_direction(bytes, start) {
            Ok((d, end)) => Ok((GameAction::Move(d), end)),
            Err(e) => Err(e),
        }
    } else if tag == 1 {
        match read_string(bytes, start) {
            Ok((name, end)) => Ok((GameAction::SpawnPlayer(name), end)),
            Err(e) => Err(e),
        }
    } else if tag == 2 {
        match read_u32(bytes, start) {
            Ok((id, end)) => Ok((GameAction::SpawnAs(EntityID(id)), end)),
            Err(e) => Err(e),
        }
    } else if tag == 3 {
        Ok((GameAction::SaveWorld, start))
    } else {
        Err(WireError::BadTag)
    }
}

fn read_server_message(bytes: &[u8], pos: usize) -> (r: Result<(ServerMessage, usize), WireError>)
    requires
        pos <= bytes@.len(),
    ensures
        reads_view(r, parse_server_message(bytes@, pos as int)),
        in_bounds(r, bytes@.len()),
{
    let (tag, start) = match read_u8(bytes, pos) {
        Ok(read) => read,
        Err(e) => {
            return Err(e);
        },
    };
    if tag == 0 {
        match read_entities(bytes, start) {
            Ok((entities, end)) => Ok((ServerMessage::EntityMap(entities), end)),
            Err(e) => Err(e),
        }
    } else if tag == 1 {
        match read_u32(bytes, start) {
            Ok((id, end)) => Ok((ServerMessage::PlayerID(EntityID(id)), end)),
            Err(e) => Err(e),
        }
    } else {
        Err(WireError::BadTag)
    }
}

fn read_message(bytes: &[u8], pos: usize) -> (r: Result<(Message, usize), WireError>)
    requires
        pos <= bytes@.len(),
    ensures
        reads_view(r, parse_message(bytes@, pos as int)),
        in_bounds(r, bytes@.len()),
{
    let (tag, start) = match read_u8(bytes, pos) {
        Ok(read) => read,
        Err(e) => {
            return Err(e);
        },
    };
    if tag == 0 {
        match read_action(bytes, start) {
            Ok((action, end)) => Ok((Message::Client(action), end)),
            Err(e) => Err(e),
        }
    } else if tag == 1 {
        match read_server_message(bytes, start) {
            Ok((server, end)) => Ok((Message::Server(server), end)),
            Err(e) => Err(e),
        }
    } else {
        Err(WireError::BadTag)
    }
}

/// The message that the payload holds.
///
/// A payload longer than `MAX_MESSAGE_SIZE` is refused unread. Otherwise the
/// result is the message of which the payload is the encoding, or the first
/// reason for which it is the encoding of none.
pub fn decode_message(bytes: &[u8]) -> (r: Result<Message, WireError>)
    ensures
        match r {
            Ok(m) => spec_decode_message(bytes@) == Ok::<MessageView, WireError>(m@),
            Err(e) => spec_decode_message(bytes@) == Err::<MessageView, WireError>(e),
        },
{
    if bytes.len() > MAX_MESSAGE_SIZE {
        return Err(WireError::TooLarge);
    }
    match read_message(bytes, 0) {
        Ok((msg, end)) => if end == bytes.len() {
            Ok(msg)
        } else {
            Err(WireError::TrailingBytes)
        },
        Err(e) => Err(e),
    }
}

/// The world that the contents of a file hold: the inverse of
/// [`encode_world`].
pub fn decode_world(bytes: &[u8]) -> (r: Result<GameState, WireError>)
    ensures
        match r {
            Ok(w) => spec_decode_world(bytes@) == Ok::<GameStateView, WireError>(w@),
            Err(e) => spec_decode_world(bytes@) == Err::<GameStateView, WireError>(e),
        },
{
    let (count, after_count) = match read_u32(bytes, 0) {
        Ok(read) => read,
        Err(e) => {
            return Err(e);
        },
    };
    let (entities, after_entities) = match read_entities(bytes, after_count) {
        Ok(read) => read,
        Err(e) => {
            return Err(e);
        },
    };
    let (world_name, end) = match read_string(bytes, after_entities) {
        Ok(read) => read,
        Err(e) => {
            return Err(e);
        },
    };
    if end == bytes.len() {
        Ok(GameState { entity_gen: EntityGenerator::from_count(count), entities, world_name })
    } else {
        Err(WireError::TrailingBytes)
    }
}

} // verus!
