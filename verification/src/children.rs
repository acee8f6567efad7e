//! The children of a node: a concurrent hash map from a name to the index of
//! the child's node.
//!
//! The map itself is `dashmap::DashMap`. Each function here hands its arguments
//! to one method of it, and its contract says what that method does to the
//! contents. `DashMap` changes its contents through a shared reference and
//! locks a part of them meanwhile; here a change takes the map by exclusive
//! reference, so that no other reference into it can be alive.

use vstd::prelude::*;

use dashmap::DashMap;

use crate::path::Name;

verus! {

/// Declares `dashmap::DashMap`, of which nothing is known but what the
/// functions of this module say.
#[verifier::external_type_specification]
#[verifier::external_body]
#[verifier::reject_recursive_types(K)]
#[verifier::reject_recursive_types(V)]
#[verifier::reject_recursive_types(S)]
pub struct ExDashMap<K, V, S>(DashMap<K, V, S>);

/// What the map holds: under each name, the index of the child of that name.
pub uninterp spec fn children_map(children: DashMap<Vec<u8>, usize>) -> Map<Seq<u8>, usize>;

/// `DashMap::new`: a map that holds nothing.
#[verifier::external_body]
pub(crate) fn children_new() -> (children: DashMap<Vec<u8>, usize>)
    ensures
        (children_map(children) == Map::<Seq<u8>, usize>::empty()),
{
    DashMap::new()
}

/// `DashMap::get`: the index that the map holds under `name`, if it holds one.
/// The guard that `get` returns is given up at once.
#[verifier::external_body]
pub(crate) fn children_get(children: &DashMap<Vec<u8>, usize>, name: &[u8]) -> (found: Option<
    usize,
>)
    ensures
        found == (if children_map(*children).contains_key(name@) {
            Some(children_map(*children)[name@])
        } else {
            None
        }),
{
    children.get(name).map(|entry| *entry.value())
}

/// `DashMap::entry` with `Entry::or_insert`: the index that the map holds
/// under `name`, after `fresh` has been put there if it held none.
#[verifier::external_body]
pub(crate) fn children_entry(
    children: &mut DashMap<Vec<u8>, usize>,
    name: Vec<u8>,
    fresh: usize,
) -> (index: usize)
    ensures
        index == (if children_map(*old(children)).contains_key(name@) {
            children_map(*old(children))[name@]
        } else {
            fresh
        }),
        children_map(*final(children)) == children_map(*old(children)).insert(name@, index),
{
    *children.entry(name).or_insert(fresh)
}

/// `DashMap::insert`: puts `index` under `name`, in place of what was there, and
/// returns what was there.
#[verifier::external_body]
pub(crate) fn children_insert(
    children: &mut DashMap<Vec<u8>, usize>,
    name: Vec<u8>,
    index: usize,
) -> (replaced: Option<usize>)
    ensures
        replaced == (if children_map(*old(children)).contains_key(name@) {
            Some(children_map(*old(children))[name@])
        } else {
            None
        }),
        children_map(*final(children)) == children_map(*old(children)).insert(name@, index),
{
    children.insert(name, index)
}

/// `DashMap::is_empty`: whether the map holds nothing.
#[verifier::external_body]
pub(crate) fn children_is_empty(children: &DashMap<Vec<u8>, usize>) -> (empty: bool)
    ensures
        empty == (children_map(*children) == Map::<Seq<u8>, usize>::empty()),
{
    children.is_empty()
}

/// The pairs of a name and an index in `pairs` are those that `contents` holds,
/// each once.
pub open spec fn lists(pairs: Seq<(Vec<u8>, usize)>, contents: Map<Name, usize>) -> bool {
    &&& forall|i: int|
        #![trigger pairs[i]]
        0 <= i < pairs.len() ==> contents.contains_key(pairs[i].0@) && contents[pairs[i].0@]
            == pairs[i].1
    &&& forall|i: int, j: int|
        #![trigger pairs[i], pairs[j]]
        0 <= i < j < pairs.len() ==> pairs[i].0@ != pairs[j].0@
    &&& forall|name: Name|
        #[trigger]
        contents.contains_key(name) ==> exists|i: int|
            0 <= i < pairs.len() && #[trigger] pairs[i].0@ == name
}

/// `DashMap::iter`: every pair of a name and an index that the map holds, once,
/// in an order that is not specified.
#[verifier::external_body]
pub(crate) fn children_iter(children: &DashMap<Vec<u8>, usize>) -> (pairs: Vec<(Vec<u8>, usize)>)
    ensures
        lists(pairs@, children_map(*children)),
{
    children.iter().map(|entry| (entry.key().clone(), *entry.value())).collect()
}

} // verus!
