//! Hash maps and hash sets keyed by strings.
//!
//! The contents of a collection are its deep view: a map, or a set, over the
//! character sequences of its keys.
use rapidhash::RapidHashMap;
use rapidhash::RapidHashSet;
use vstd::prelude::*;

verus! {

/// `rapidhash::inner::RandomState`, the hasher state inside every rapidhash
/// collection. Nothing is claimed of it.
#[verifier::external_type_specification]
#[verifier::external_body]
pub struct ExRandomState<
    const AVALANCHE: bool,
    const SPONGE: bool,
    const COMPACT: bool,
    const PROTECTED: bool,
>(rapidhash::inner::RandomState<AVALANCHE, SPONGE, COMPACT, PROTECTED>);

/// An empty map.
pub fn map_new<V: DeepView>() -> (map: RapidHashMap<String, V>)
    ensures
        map.deep_view() == Map::<Seq<char>, V::V>::empty(),
{
    let map: RapidHashMap<String, V> = RapidHashMap::default();
    proof {
        reveal(vstd::std_specs::hash::hash_map_deep_view_impl);
        assert(map.deep_view() =~= Map::<Seq<char>, V::V>::empty());
    }
    map
}

/// A copy of a map.
pub fn map_clone<V: DeepView + Clone>(map: &RapidHashMap<String, V>) -> (copy: RapidHashMap<
    String,
    V,
>)
    ensures
        copy.deep_view() == map.deep_view(),
{
    let copy: RapidHashMap<String, V> = map.clone();
    proof {
        reveal(vstd::std_specs::hash::hash_map_deep_view_impl);
        assert(copy.deep_view() =~= map.deep_view());
    }
    copy
}

/// `RapidHashMap::get`: the value stored under `key`, and `None` exactly when
/// the map holds no such key.
#[verifier::external_body]
pub(crate) fn map_get<'a, V: DeepView>(map: &'a RapidHashMap<String, V>, key: &str) -> (value:
    Option<&'a V>)
    ensures
        match value {
            Some(v) => map.deep_view().contains_key(key@) && v.deep_view() == map.deep_view()[key@],
            None => !map.deep_view().contains_key(key@),
        },
{
    map.get(key)
}

/// `RapidHashMap::insert`: binds `key` to `value`, in place of what was bound
/// to it, which is returned.
#[verifier::external_body]
pub(crate) fn map_insert<V: DeepView>(
    map: &mut RapidHashMap<String, V>,
    key: String,
    value: V,
) -> (previous: Option<V>)
    ensures
        final(map).deep_view() == old(map).deep_view().insert(key@, value.deep_view()),
        match previous {
            Some(v) => old(map).deep_view().contains_key(key@) && v.deep_view() == old(
                map,
            ).deep_view()[key@],
            None => !old(map).deep_view().contains_key(key@),
        },
{
    map.insert(key, value)
}

/// `RapidHashMap::len`: the number of keys.
#[verifier::external_body]
pub(crate) fn map_len<V: DeepView>(map: &RapidHashMap<String, V>) -> (len: usize)
    ensures
        len == map.deep_view().dom().len(),
{
    map.len()
}

/// `RapidHashMap::iter`: every key once, with its value. The order is that of
/// the hash table and is not stated.
#[verifier::external_body]
pub(crate) fn map_entries<'a, V: DeepView>(map: &'a RapidHashMap<String, V>) -> (entries: Vec<
    (&'a String, &'a V),
>)
    ensures
        forall|i: int, j: int|
            0 <= i < j < entries@.len() ==> (#[trigger] entries@[i]).0@ != (
            #[trigger] entries@[j]).0@,
        forall|i: int|
            0 <= i < entries@.len() ==> map.deep_view().contains_key(
                (#[trigger] entries@[i]).0@,
            ) && entries@[i].1.deep_view() == map.deep_view()[entries@[i].0@],
        forall|key: Seq<char>| #[trigger]
            map.deep_view().contains_key(key) ==> exists|i: int|
                0 <= i < entries@.len() && (#[trigger] entries@[i]).0@ == key,
{
    map.iter().collect()
}

/// An empty set.
pub fn set_new() -> (set: RapidHashSet<String>)
    ensures
        set.deep_view() == Set::<Seq<char>>::empty(),
{
    let set: RapidHashSet<String> = RapidHashSet::default();
    proof {
        assert(set.deep_view() =~= Set::<Seq<char>>::empty());
    }
    set
}

/// `RapidHashSet::contains`: whether `value` is an element.
#[verifier::external_body]
pub(crate) fn set_contains(set: &RapidHashSet<String>, value: &str) -> (found: bool)
    ensures
        found == set.deep_view().contains(value@),
{
    set.contains(value)
}

/// `RapidHashSet::insert`: adds `value`, and tells whether it was new.
#[verifier::external_body]
pub(crate) fn set_insert(set: &mut RapidHashSet<String>, value: String) -> (added: bool)
    ensures
        final(set).deep_view() == old(set).deep_view().insert(value@),
        added == !old(set).deep_view().contains(value@),
{
    set.insert(value)
}

/// `RapidHashSet::remove`: takes `value` out, and tells whether it was there.
#[verifier::external_body]
pub(crate) fn set_remove(set: &mut RapidHashSet<String>, value: &str) -> (removed: bool)
    ensures
        final(set).deep_view() == old(set).deep_view().remove(value@),
        removed == old(set).deep_view().contains(value@),
{
    set.remove(value)
}

} // verus!
