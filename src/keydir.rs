//! The key directory: a `DashMap` from each live key to the position of the
//! record that holds its value.
//!
//! The map is owned by the store and changed only through `&mut`, so that
//! what it holds is a function of its value.
use dashmap::DashMap;
use vstd::prelude::*;

use crate::engine::CommandPos;

verus! {

/// `dashmap::DashMap`, opaque: what it holds is `dir_contents`.
#[verifier::external_type_specification]
#[verifier::external_body]
#[verifier::reject_recursive_types(K)]
#[verifier::reject_recursive_types(V)]
#[verifier::reject_recursive_types(S)]
pub struct ExDashMap<K, V, S>(DashMap<K, V, S>);

/// The map from keys to the positions of their records.
pub type KeyDirMap = DashMap<String, CommandPos>;

/// What a key directory holds: each key, by its characters, with the
/// position of its record.
pub uninterp spec fn dir_contents(m: DashMap<String, CommandPos>) -> Map<Seq<char>, CommandPos>;

/// Relies on `DashMap::new`: a new map is empty.
#[verifier::external_body]
pub(crate) fn dir_new() -> (r: KeyDirMap)
    ensures
        dir_contents(r).is_empty(),
{
    DashMap::new()
}

/// Relies on `DashMap::get`: the entry of the key, if there is one.
#[verifier::external_body]
pub(crate) fn dir_get(m: &KeyDirMap, k: &String) -> (r: Option<CommandPos>)
    ensures
        r == (if dir_contents(*m).contains_key(k@) {
            Some(dir_contents(*m)[k@])
        } else {
            None
        }),
{
    m.get(k).map(|e| *e.value())
}

/// Relies on `DashMap::insert`: afterwards the key maps to the value, the
/// other keys keep theirs, and the key's previous value comes back.
#[verifier::external_body]
pub(crate) fn dir_insert(m: &mut KeyDirMap, k: String, v: CommandPos) -> (r:
    Option<CommandPos>)
    ensures
        dir_contents(*final(m)) == dir_contents(*old(m)).insert(k@, v),
        r == (if dir_contents(*old(m)).contains_key(k@) {
            Some(dir_contents(*old(m))[k@])
        } else {
            None
        }),
{
    m.insert(k, v)
}

/// Relies on `DashMap::remove`: afterwards the key is gone, the other keys
/// keep theirs, and the key's value comes back if it had one.
#[verifier::external_body]
pub(crate) fn dir_remove(m: &mut KeyDirMap, k: &String) -> (r: Option<
    CommandPos,
>)
    ensures
        dir_contents(*final(m)) == dir_contents(*old(m)).remove(k@),
        r == (if dir_contents(*old(m)).contains_key(k@) {
            Some(dir_contents(*old(m))[k@])
        } else {
            None
        }),
{
    m.remove(k).map(|(_, v)| v)
}

/// Relies on `DashMap::iter`: it visits every entry of the map once, in
/// some order.
#[verifier::external_body]
pub(crate) fn dir_entries(m: &KeyDirMap) -> (r: Vec<(String, CommandPos)>)
    ensures
        forall|i: int|
            0 <= i < r@.len() ==> dir_contents(*m).contains_key(#[trigger] r@[i].0@)
                && dir_contents(*m)[r@[i].0@] == r@[i].1,
        forall|i: int, j: int| 0 <= i < j < r@.len() ==> r@[i].0@ != r@[j].0@,
        forall|k: Seq<char>|
            dir_contents(*m).contains_key(k) ==> exists|i: int|
                0 <= i < r@.len() && #[trigger] r@[i].0@ == k,
{
    m.iter().map(|e| (e.key().clone(), *e.value())).collect()
}

} // verus!
