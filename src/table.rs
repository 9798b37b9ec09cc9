//! An insertion-ordered table of lines, backed by `indexmap::IndexMap`.
use indexmap::IndexMap;
use vstd::prelude::*;

verus! {

#[verifier::external_type_specification]
#[verifier::external_body]
#[verifier::reject_recursive_types(K)]
#[verifier::reject_recursive_types(V)]
#[verifier::reject_recursive_types(S)]
pub struct ExIndexMap<K, V, S>(IndexMap<K, V, S>);

/// What an `IndexMap` of lines holds: its key-value pairs, in the map's order.
pub uninterp spec fn table_entries(m: IndexMap<Vec<u8>, u64>) -> Seq<(Seq<u8>, u64)>;

/// The keys of a sequence of entries, in order.
pub open spec fn entry_keys(e: Seq<(Seq<u8>, u64)>) -> Seq<Seq<u8>> {
    e.map_values(|p: (Seq<u8>, u64)| p.0)
}

/// Relies on `IndexMap::new`: a new map is empty.
#[verifier::external_body]
pub(crate) fn table_new() -> (r: IndexMap<Vec<u8>, u64>)
    ensures
        table_entries(r) == Seq::<(Seq<u8>, u64)>::empty(),
{
    IndexMap::new()
}

/// Relies on `IndexMap::len`: the number of key-value pairs.
#[verifier::external_body]
pub(crate) fn table_len(m: &IndexMap<Vec<u8>, u64>) -> (r: usize)
    ensures
        r == table_entries(*m).len(),
{
    m.len()
}

/// Relies on `IndexMap::get_index_of`: the position of the pair whose key
/// equals `key`, if there is one.
#[verifier::external_body]
pub(crate) fn table_find(m: &IndexMap<Vec<u8>, u64>, key: &[u8]) -> (r: Option<usize>)
    ensures
        match r {
            Some(i) => i < table_entries(*m).len() && table_entries(*m)[i as int].0 == key@,
            None => !entry_keys(table_entries(*m)).contains(key@),
        },
{
    m.get_index_of(key)
}

/// Relies on `IndexMap::insert`: a key that is not yet in the map is added
/// last in order, with its value.
#[verifier::external_body]
pub(crate) fn table_insert(m: &mut IndexMap<Vec<u8>, u64>, key: Vec<u8>, value: u64)
    requires
        !entry_keys(table_entries(*old(m))).contains(key@),
    ensures
        table_entries(*final(m)) == table_entries(*old(m)).push((key@, value)),
{
    m.insert(key, value);
}

/// Relies on `IndexMut<usize>` of `IndexMap`: replaces the value at a position
/// that is in bounds, keeping the key and the order.
#[verifier::external_body]
pub(crate) fn table_set(m: &mut IndexMap<Vec<u8>, u64>, i: usize, value: u64)
    requires
        i < table_entries(*old(m)).len(),
    ensures
        table_entries(*final(m)) == table_entries(*old(m)).update(
            i as int,
            (table_entries(*old(m))[i as int].0, value),
        ),
{
    m[i] = value;
}

/// Relies on `IndexMap::get_index`: the pair at a position, if it is in bounds.
#[verifier::external_body]
pub(crate) fn table_get(m: &IndexMap<Vec<u8>, u64>, i: usize) -> (r: Option<(&Vec<u8>, u64)>)
    ensures
        match r {
            Some(p) => i < table_entries(*m).len() && p.0@ == table_entries(*m)[i as int].0
                && p.1 == table_entries(*m)[i as int].1,
            None => i >= table_entries(*m).len(),
        },
{
    m.get_index(i).map(|(k, v)| (k, *v))
}

} // verus!
