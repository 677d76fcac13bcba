//! The insertion-ordered collections of the `indexmap` crate, as this library uses them.
//!
//! Verus does not look inside these collections. What a collection holds is given a name here,
//! and each method that the library calls is wrapped in a function whose contract says, over
//! that name, what the method does. None of these contracts is proved.

use indexmap::{IndexMap, IndexSet};
use std::hash::RandomState;
use vstd::prelude::*;

verus! {

/// `indexmap::IndexSet`, a set that keeps its values in the order of their insertion.
#[verifier::external_type_specification]
#[verifier::external_body]
#[verifier::reject_recursive_types(T)]
#[verifier::reject_recursive_types(S)]
pub struct ExIndexSet<T, S>(IndexSet<T, S>);

/// `indexmap::IndexMap`, a map that keeps its entries in the order of their insertion.
#[verifier::external_type_specification]
#[verifier::external_body]
#[verifier::reject_recursive_types(K)]
#[verifier::reject_recursive_types(V)]
#[verifier::reject_recursive_types(S)]
pub struct ExIndexMap<K, V, S>(IndexMap<K, V, S>);

/// An ordered set of indices.
pub type IndexList = IndexSet<u32, RandomState>;

/// An ordered set of names.
pub type NameList = IndexSet<String, RandomState>;

/// A map from indices to counts.
pub type CountMap = IndexMap<u32, usize, RandomState>;

/// A map from names to lists of names, in the order in which the names came.
pub type RecordMap = IndexMap<String, Vec<String>, RandomState>;

/// The values of an ordered set of indices, in their order.
pub uninterp spec fn indices(set: IndexSet<u32, RandomState>) -> Seq<u32>;

/// The values of an ordered set of names, each as its characters, in their order.
pub uninterp spec fn names(set: IndexSet<String, RandomState>) -> Seq<Seq<char>>;

/// The entries of a map from indices to counts.
pub uninterp spec fn counts(map: IndexMap<u32, usize, RandomState>) -> Map<u32, usize>;

/// The entries of a map from names to lists of names, in their order: each name and each
/// name of its list as its characters.
pub uninterp spec fn records(map: IndexMap<String, Vec<String>, RandomState>) -> Seq<
    (Seq<char>, Seq<Seq<char>>),
>;

/// The characters of each string of a list.
pub open spec fn texts(list: Seq<String>) -> Seq<Seq<char>> {
    Seq::new(list.len(), |i: int| list[i]@)
}

/// The entries after `value` was stored under `key`: an entry of that key keeps its place and
/// gets the value, and a new key comes last.
pub open spec fn recorded(
    entries: Seq<(Seq<char>, Seq<Seq<char>>)>,
    key: Seq<char>,
    value: Seq<Seq<char>>,
) -> Seq<(Seq<char>, Seq<Seq<char>>)> {
    if exists|i: int| 0 <= i < entries.len() && (#[trigger] entries[i]).0 == key {
        entries.update(
            choose|i: int| 0 <= i < entries.len() && (#[trigger] entries[i]).0 == key,
            (key, value),
        )
    } else {
        entries.push((key, value))
    }
}

/// The place of `x` in `row`, from 0; the length of `row` where `x` is not in it, so that what
/// a row leaves out comes after all that it holds.
pub open spec fn place(row: Seq<u32>, x: u32) -> int {
    if row.contains(x) {
        row.index_of(x)
    } else {
        row.len() as int
    }
}

/// `IndexSet::new`: the new set is empty.
#[verifier::external_body]
pub(crate) fn index_list_new() -> (set: IndexList)
    ensures
        indices(set) == Seq::<u32>::empty(),
{
    IndexSet::new()
}

/// `IndexSet::clone`: the copy holds the same values in the same order.
#[verifier::external_body]
pub(crate) fn index_list_clone(set: &IndexList) -> (copy: IndexList)
    ensures
        indices(copy) == indices(*set),
{
    set.clone()
}

/// `IndexSet::len`: the number of values in the set.
#[verifier::external_body]
pub(crate) fn index_list_len(set: &IndexList) -> (n: usize)
    ensures
        n == indices(*set).len(),
{
    set.len()
}

/// `IndexSet::insert`: a value that the set does not hold yet goes to its end, and the call
/// returns `true`; a value that it holds leaves the set as it is, and the call returns `false`.
#[verifier::external_body]
pub(crate) fn index_list_insert(set: &mut IndexList, value: u32) -> (fresh: bool)
    ensures
        fresh == !indices(*old(set)).contains(value),
        indices(*final(set)) == if fresh {
            indices(*old(set)).push(value)
        } else {
            indices(*old(set))
        },
{
    set.insert(value)
}

/// `IndexSet::pop`: takes the last value out and returns it, the others keep their order; on
/// an empty set it returns `None`.
#[verifier::external_body]
pub(crate) fn index_list_pop(set: &mut IndexList) -> (last: Option<u32>)
    ensures
        indices(*old(set)).len() == 0 ==> last is None && indices(*final(set)) == indices(
            *old(set),
        ),
        indices(*old(set)).len() > 0 ==> last == Some(indices(*old(set)).last()) && indices(
            *final(set),
        ) == indices(*old(set)).drop_last(),
{
    set.pop()
}

/// `IndexSet::get_index`: the value at place `index`, `None` from the length of the set on.
#[verifier::external_body]
pub(crate) fn index_list_get_index(set: &IndexList, index: usize) -> (value: Option<u32>)
    ensures
        index < indices(*set).len() ==> value == Some(indices(*set)[index as int]),
        index >= indices(*set).len() ==> value is None,
{
    set.get_index(index).copied()
}

/// `IndexSet::get_index_of`: a place at which the set holds `value`, `None` exactly where it
/// does not hold it.
#[verifier::external_body]
pub(crate) fn index_list_get_index_of(set: &IndexList, value: u32) -> (index: Option<usize>)
    ensures
        index is None <==> !indices(*set).contains(value),
        index is Some ==> index->0 < indices(*set).len() && indices(*set)[index->0 as int]
            == value,
{
    set.get_index_of(&value)
}

/// `IndexSet::new`: the new set is empty.
#[verifier::external_body]
pub(crate) fn name_list_new() -> (set: NameList)
    ensures
        names(set) == Seq::<Seq<char>>::empty(),
{
    IndexSet::new()
}

/// `IndexSet::len`: the number of names in the set.
#[verifier::external_body]
pub(crate) fn name_list_len(set: &NameList) -> (n: usize)
    ensures
        n == names(*set).len(),
{
    set.len()
}

/// `IndexSet::contains`: whether the set holds `name`.
#[verifier::external_body]
pub(crate) fn name_list_contains(set: &NameList, name: &String) -> (found: bool)
    ensures
        found == names(*set).contains(name@),
{
    set.contains(name)
}

/// `IndexSet::insert_full`: a name that the set does not hold yet goes to its end; the call
/// returns that place and `true`. A name that it holds leaves the set as it is; the call
/// returns a place at which the set holds it and `false`.
#[verifier::external_body]
pub(crate) fn name_list_insert_full(set: &mut NameList, name: String) -> (at: (usize, bool))
    ensures
        at.1 == !names(*old(set)).contains(name@),
        at.1 ==> at.0 == names(*old(set)).len() && names(*final(set)) == names(*old(set)).push(
            name@,
        ),
        !at.1 ==> at.0 < names(*old(set)).len() && names(*old(set))[at.0 as int] == name@
            && names(*final(set)) == names(*old(set)),
{
    set.insert_full(name)
}

/// `IndexSet::get_index`: the name at place `index`, `None` from the length of the set on.
#[verifier::external_body]
pub(crate) fn name_list_get_index(set: &NameList, index: usize) -> (name: Option<&String>)
    ensures
        index < names(*set).len() ==> name is Some && name->0@ == names(*set)[index as int],
        index >= names(*set).len() ==> name is None,
{
    set.get_index(index)
}

/// `IndexSet::get_index_of`: a place at which the set holds `name`, `None` exactly where it
/// does not hold it.
#[verifier::external_body]
pub(crate) fn name_list_get_index_of(set: &NameList, name: &str) -> (index: Option<usize>)
    ensures
        index is None <==> !names(*set).contains(name@),
        index is Some ==> index->0 < names(*set).len() && names(*set)[index->0 as int] == name@,
{
    set.get_index_of(name)
}

/// `IndexMap::new`: the new map is empty.
#[verifier::external_body]
pub(crate) fn count_map_new() -> (made: CountMap)
    ensures
        counts(made) == (Map::<u32, usize>::empty()),
{
    IndexMap::new()
}

/// `IndexMap::get`: the count stored under `key`, `None` where there is none.
#[verifier::external_body]
pub(crate) fn count_map_get(map: &CountMap, key: u32) -> (count: Option<usize>)
    ensures
        count == if counts(*map).contains_key(key) {
            Some(counts(*map)[key])
        } else {
            None
        },
{
    map.get(&key).copied()
}

/// `IndexMap::insert`: stores `count` under `key`, in place of what was stored there.
#[verifier::external_body]
pub(crate) fn count_map_insert(map: &mut CountMap, key: u32, count: usize)
    ensures
        counts(*final(map)) == counts(*old(map)).insert(key, count),
{
    map.insert(key, count);
}

/// `IndexMap::new`: the new map is empty.
#[verifier::external_body]
pub(crate) fn record_map_new() -> (made: RecordMap)
    ensures
        records(made).len() == 0,
{
    IndexMap::new()
}

/// `IndexMap::len`: the number of entries of the map.
#[verifier::external_body]
pub(crate) fn record_map_len(map: &RecordMap) -> (n: usize)
    ensures
        n == records(*map).len(),
{
    map.len()
}

/// `IndexMap::insert`: stores `value` under `key`. A key that the map holds keeps its place
/// and gets the new value; a new key goes to the end.
#[verifier::external_body]
pub(crate) fn record_map_insert(map: &mut RecordMap, key: String, value: Vec<String>)
    ensures
        records(*final(map)) == recorded(records(*old(map)), key@, texts(value@)),
{
    map.insert(key, value);
}

/// `IndexMap::get_index`: the entry at place `index`, `None` from the length of the map on.
#[verifier::external_body]
pub(crate) fn record_map_get_index(map: &RecordMap, index: usize) -> (entry: Option<
    (&String, &Vec<String>),
>)
    ensures
        index >= records(*map).len() ==> entry is None,
        index < records(*map).len() ==> entry is Some && (entry->0).0@ == records(
            *map,
        )[index as int].0 && texts((entry->0).1@) == records(*map)[index as int].1,
{
    map.get_index(index)
}

} // verus!
