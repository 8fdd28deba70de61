//! The hash collections of `rustc_hash` that the world is stored in.
//!
//! `FxHashMap` and `FxHashSet` are the hash map and hash set of `std` with
//! `FxBuildHasher` as the hasher builder. The functions here make the calls
//! and state what each does to the collection's contents; these statements
//! are taken on trust from the documentation of `std`.

use rustc_hash::FxBuildHasher;
use std::collections::HashMap;
use std::collections::HashSet;
use vstd::prelude::*;

verus! {

/// The hasher builder of `rustc_hash`, a unit struct.
#[verifier::external_type_specification]
#[verifier::external_body]
pub struct ExFxBuildHasher(FxBuildHasher);

/// `HashMap::insert` of `std`, on a map that hashes with `FxBuildHasher`:
/// `v` stands under `k` afterwards, every other key keeps its value, and
/// what stood under `k` before is returned.
#[verifier::external_body]
fn fx_map_insert<V>(m: &mut HashMap<u32, V, FxBuildHasher>, k: u32, v: V) -> (prev:
    Option<V>)
    ensures
        final(m)@ == old(m)@.insert(k, v),
        match prev {
            Some(e) => old(m)@.contains_key(k) && e == old(m)@[k],
            None => !old(m)@.contains_key(k),
        },
{
    m.insert(k, v)
}

/// `HashMap::get` of `std`, on a map that hashes with `FxBuildHasher`: the
/// value under `k`, or `None` where the map has no such key.
#[verifier::external_body]
fn fx_map_get<V>(m: &HashMap<u32, V, FxBuildHasher>, k: u32) -> (found: Option<&V>)
    ensures
        match found {
            Some(e) => m@.contains_key(k) && *e == m@[k],
            None => !m@.contains_key(k),
        },
{
    m.get(&k)
}

/// `HashMap::get_mut` of `std`, on a map that hashes with `FxBuildHasher`:
/// the value under `k`, to be changed in place, or `None` where the map has
/// no such key. Whatever the caller leaves in the value stands under `k`
/// afterwards, and every other key keeps its value.
#[verifier::external_body]
fn fx_map_get_mut<V>(m: &mut HashMap<u32, V, FxBuildHasher>, k: u32) -> (found: Option<&mut V>)
    ensures
        match found {
            Some(v) => old(m)@.contains_key(k) && *v == old(m)@[k] && final(m)@ == old(m)@.insert(
                k,
                *final(v),
            ),
            None => !old(m)@.contains_key(k) && final(m)@ == old(m)@,
        },
{
    m.get_mut(&k)
}

/// `HashMap::len` of `std`: the number of keys.
#[verifier::external_body]
fn fx_map_len<V>(m: &HashMap<u32, V, FxBuildHasher>) -> (n: usize)
    ensures
        n == m@.dom().len(),
{
    m.len()
}

/// `HashMap::keys` of `std`, collected: every key of the map once, in the
/// order in which the map is walked, which is left open.
#[verifier::external_body]
fn fx_map_keys<V>(m: &HashMap<u32, V, FxBuildHasher>) -> (keys: Vec<u32>)
    ensures
        keys@.no_duplicates(),
        keys@.to_set() == m@.dom(),
{
    m.keys().copied().collect()
}

/// `HashSet::insert` of `std`, on a set that hashes with `FxBuildHasher`: the
/// cell is in the set afterwards, with all that was there; the result says
/// whether it is new.
#[verifier::external_body]
fn fx_set_insert(s: &mut HashSet<(i32, i32), FxBuildHasher>, cell: (i32, i32)) -> (fresh:
    bool)
    ensures
        final(s)@ == old(s)@.insert(cell),
        fresh == !old(s)@.contains(cell),
{
    s.insert(cell)
}

/// `HashSet::contains` of `std`, on a set that hashes with `FxBuildHasher`:
/// whether the cell is in the set.
#[verifier::external_body]
fn fx_set_contains(s: &HashSet<(i32, i32), FxBuildHasher>, cell: (i32, i32)) -> (found:
    bool)
    ensures
        found == s@.contains(cell),
{
    s.contains(&cell)
}

/// `HashMap::insert` of `std`, on a map from cells to identifiers that
/// hashes with `FxBuildHasher`: `id` stands under `cell` afterwards, every
/// other cell keeps its identifier, and what stood under `cell` before is
/// returned.
#[verifier::external_body]
fn fx_cell_map_insert(m: &mut HashMap<(i32, i32), u32, FxBuildHasher>, cell: (i32, i32), id: u32) -> (prev:
    Option<u32>)
    ensures
        final(m)@ == old(m)@.insert(cell, id),
        match prev {
            Some(p) => old(m)@.contains_key(cell) && p == old(m)@[cell],
            None => !old(m)@.contains_key(cell),
        },
{
    m.insert(cell, id)
}

/// `HashMap::get` of `std`, on a map from cells to identifiers that hashes
/// with `FxBuildHasher`: the identifier under `cell`, or `None` where the
/// map has no such cell.
#[verifier::external_body]
fn fx_cell_map_get(m: &HashMap<(i32, i32), u32, FxBuildHasher>, cell: (i32, i32)) -> (found: Option<
    u32,
>)
    ensures
        match found {
            Some(id) => m@.contains_key(cell) && id == m@[cell],
            None => !m@.contains_key(cell),
        },
{
    m.get(&cell).copied()
}

/// A map from 32-bit identifiers to values, stored in an `FxHashMap`.
#[derive(Debug, PartialEq, Eq)]
pub struct IdMap<V> {
    inner: HashMap<u32, V, FxBuildHasher>,
}

impl<V> View for IdMap<V> {
    type V = Map<u32, V>;

    closed spec fn view(&self) -> Map<u32, V> {
        self.inner@
    }
}

impl<V> IdMap<V> {
    /// The empty map.
    pub fn new() -> (m: Self)
        ensures
            m@ == Map::<u32, V>::empty(),
    {
        IdMap { inner: HashMap::<u32, V, FxBuildHasher>::default() }
    }

    /// Puts `value` under `key`, in place of what was there, which is returned.
    pub fn insert(&mut self, key: u32, value: V) -> (prev: Option<V>)
        ensures
            final(self)@ == old(self)@.insert(key, value),
            match prev {
                Some(v) => old(self)@.contains_key(key) && v == old(self)@[key],
                None => !old(self)@.contains_key(key),
            },
    {
        fx_map_insert(&mut self.inner, key, value)
    }

    /// The value under `key`, if there is one.
    pub fn get(&self, key: u32) -> (found: Option<&V>)
        ensures
            match found {
                Some(v) => self@.contains_key(key) && *v == self@[key],
                None => !self@.contains_key(key),
            },
    {
        fx_map_get(&self.inner, key)
    }

    /// The value under `key`, to be changed in place, if there is one.
    pub fn get_mut(&mut self, key: u32) -> (found: Option<&mut V>)
        ensures
            match found {
                Some(v) => old(self)@.contains_key(key) && *v == old(self)@[key] && final(self)@
                    == old(self)@.insert(key, *final(v)),
                None => !old(self)@.contains_key(key) && final(self)@ == old(self)@,
            },
    {
        fx_map_get_mut(&mut self.inner, key)
    }

    /// Whether there is a value under `key`.
    pub fn contains_key(&self, key: u32) -> (b: bool)
        ensures
            b == self@.contains_key(key),
    {
        fx_map_get(&self.inner, key).is_some()
    }

    /// The number of keys.
    pub fn len(&self) -> (n: usize)
        ensures
            n == self@.dom().len(),
    {
        fx_map_len(&self.inner)
    }

    /// The keys, each once, in no particular order.
    pub fn keys(&self) -> (keys: Vec<u32>)
        ensures
            keys@.no_duplicates(),
            forall|k: u32| keys@.contains(k) <==> self@.contains_key(k),
    {
        let keys = fx_map_keys(&self.inner);
        proof {
            assert forall|k: u32| keys@.contains(k) <==> self@.contains_key(k) by {
                assert(keys@.to_set().contains(k) <==> self.inner@.dom().contains(k));
            }
        }
        keys
    }
}

impl<V: Clone> Clone for IdMap<V> {
    /// A map with the same keys, each value cloned.
    fn clone(&self) -> (m: Self)
        ensures
            m@ == self@,
    {
        IdMap { inner: self.inner.clone() }
    }
}

/// A set of grid cells, stored in an `FxHashSet`.
#[derive(Debug, PartialEq, Eq)]
pub struct CellSet {
    inner: HashSet<(i32, i32), FxBuildHasher>,
}

impl View for CellSet {
    type V = Set<(i32, i32)>;

    closed spec fn view(&self) -> Set<(i32, i32)> {
        self.inner@
    }
}

impl CellSet {
    /// The empty set.
    pub fn new() -> (s: Self)
        ensures
            s@ == Set::<(i32, i32)>::empty(),
    {
        CellSet { inner: HashSet::<(i32, i32), FxBuildHasher>::default() }
    }

    /// Adds `cell`; says whether it was new.
    pub fn insert(&mut self, cell: (i32, i32)) -> (fresh: bool)
        ensures
            final(self)@ == old(self)@.insert(cell),
            fresh == !old(self)@.contains(cell),
    {
        fx_set_insert(&mut self.inner, cell)
    }

    /// Whether `cell` is in the set.
    pub fn contains(&self, cell: &(i32, i32)) -> (found: bool)
        ensures
            found == self@.contains(*cell),
    {
        fx_set_contains(&self.inner, *cell)
    }
}

/// A map from grid cells to identifiers, stored in an `FxHashMap`.
#[derive(Debug, PartialEq, Eq)]
pub struct CellMap {
    inner: HashMap<(i32, i32), u32, FxBuildHasher>,
}

impl View for CellMap {
    type V = Map<(i32, i32), u32>;

    closed spec fn view(&self) -> Map<(i32, i32), u32> {
        self.inner@
    }
}

impl CellMap {
    /// The empty map.
    pub fn new() -> (m: Self)
        ensures
            m@ == Map::<(i32, i32), u32>::empty(),
    {
        CellMap { inner: HashMap::<(i32, i32), u32, FxBuildHasher>::default() }
    }

    /// Puts `id` under `cell`, in place of what was there, which is returned.
    pub fn insert(&mut self, cell: (i32, i32), id: u32) -> (prev: Option<u32>)
        ensures
            final(self)@ == old(self)@.insert(cell, id),
            match prev {
                Some(p) => old(self)@.contains_key(cell) && p == old(self)@[cell],
                None => !old(self)@.contains_key(cell),
            },
    {
        fx_cell_map_insert(&mut self.inner, cell, id)
    }

    /// The identifier under `cell`, if there is one.
    pub fn get(&self, cell: &(i32, i32)) -> (found: Option<u32>)
        ensures
            match found {
                Some(id) => self@.contains_key(*cell) && id == self@[*cell],
                None => !self@.contains_key(*cell),
            },
    {
        fx_cell_map_get(&self.inner, *cell)
    }
}

} // verus!
