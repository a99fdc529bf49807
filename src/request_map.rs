//! The ordered map that stores outstanding help requests.
//!
//! `indexmap::IndexMap` keeps its entries in insertion order. Verus sees the
//! map only through [`entries_of`], the sequence of its key/value pairs in
//! that order, and through the wrappers below, each of which calls one method
//! of the map.
use vstd::prelude::*;

verus! {

/// Group number of a requester.
pub type Group = u16;

/// Handle of the requester's voice channel.
pub type VoiceChannel = u64;

/// Position in the order of arrival.
pub type Rank = usize;

/// What the map holds for one group: its voice channel and arrival rank.
pub type Slot = (VoiceChannel, Rank);

/// The map type behind the help queue.
pub type RequestMap = indexmap::IndexMap<Group, Slot>;

#[verifier::external_type_specification]
#[verifier::external_body]
#[verifier::reject_recursive_types(K)]
#[verifier::reject_recursive_types(V)]
#[verifier::reject_recursive_types(S)]
pub struct ExIndexMap<K, V, S>(indexmap::IndexMap<K, V, S>);

/// The key/value pairs of a map, in the map's order.
pub uninterp spec fn entries_of(m: RequestMap) -> Seq<(Group, Slot)>;

/// Whether `g` is the key of some entry of `s`.
pub open spec fn has_key(s: Seq<(Group, Slot)>, g: Group) -> bool {
    exists|i: int| 0 <= i < s.len() && #[trigger] s[i].0 == g
}

/// Relies on `IndexMap::new`: the new map is empty.
#[verifier::external_body]
pub(crate) fn map_new() -> (m: RequestMap)
    ensures
        entries_of(m) == Seq::<(Group, Slot)>::empty(),
{
    indexmap::IndexMap::new()
}

/// Relies on `IndexMap::len`: the number of entries.
#[verifier::external_body]
pub(crate) fn map_len(m: &RequestMap) -> (n: usize)
    ensures
        n == entries_of(*m).len(),
{
    m.len()
}

/// Relies on `IndexMap::is_empty`: whether the map has no entries.
#[verifier::external_body]
pub(crate) fn map_is_empty(m: &RequestMap) -> (b: bool)
    ensures
        b == (entries_of(*m).len() == 0),
{
    m.is_empty()
}

/// Relies on `IndexMap::get_index`: the entry at position `i` in the map's
/// order, if there is one.
#[verifier::external_body]
pub(crate) fn map_get_index(m: &RequestMap, i: usize) -> (r: Option<(Group, Slot)>)
    ensures
        i < entries_of(*m).len() ==> r == Some(entries_of(*m)[i as int]),
        i >= entries_of(*m).len() ==> r is None,
{
    m.get_index(i).map(|(k, v)| (*k, *v))
}

/// Relies on `IndexMap::contains_key`: whether some entry has key `g`.
#[verifier::external_body]
pub(crate) fn map_contains_key(m: &RequestMap, g: Group) -> (b: bool)
    ensures
        b == has_key(entries_of(*m), g),
{
    m.contains_key(&g)
}

/// Relies on `IndexMap::insert`: a new key goes last in the order; an
/// existing key keeps its place, takes the new value and hands back the old.
#[verifier::external_body]
pub(crate) fn map_insert(m: &mut RequestMap, g: Group, v: Slot) -> (r: Option<Slot>)
    ensures
        !has_key(entries_of(*old(m)), g) ==> {
            &&& r is None
            &&& entries_of(*final(m)) == entries_of(*old(m)).push((g, v))
        },
        has_key(entries_of(*old(m)), g) ==> exists|i: int|
            0 <= i < entries_of(*old(m)).len()
                && #[trigger] entries_of(*old(m))[i].0 == g
                && r == Some(entries_of(*old(m))[i].1)
                && entries_of(*final(m)) == entries_of(*old(m)).update(i, (g, v)),
{
    m.insert(g, v)
}

/// Relies on `IndexMap::shift_remove`: the entry with key `g` leaves the map,
/// the others keep their order, and its value is handed back.
#[verifier::external_body]
pub(crate) fn map_shift_remove(m: &mut RequestMap, g: Group) -> (r: Option<Slot>)
    ensures
        !has_key(entries_of(*old(m)), g) ==> {
            &&& r is None
            &&& entries_of(*final(m)) == entries_of(*old(m))
        },
        has_key(entries_of(*old(m)), g) ==> exists|i: int|
            0 <= i < entries_of(*old(m)).len()
                && #[trigger] entries_of(*old(m))[i].0 == g
                && r == Some(entries_of(*old(m))[i].1)
                && entries_of(*final(m)) == entries_of(*old(m)).remove(i),
{
    m.shift_remove(&g)
}

/// Relies on `IndexMap::clear`: no entry is left.
#[verifier::external_body]
pub(crate) fn map_clear(m: &mut RequestMap)
    ensures
        entries_of(*final(m)) == Seq::<(Group, Slot)>::empty(),
{
    m.clear()
}

} // verus!
