use indexmap::IndexMap;
use std::collections::hash_map::RandomState;
use vstd::prelude::*;

verus! {

/// `indexmap::IndexMap`, carried as an opaque value: a hash map that keeps
/// its pairs in the order in which their keys were first inserted.
#[verifier::external_type_specification]
#[verifier::external_body]
#[verifier::reject_recursive_types(K)]
#[verifier::reject_recursive_types(V)]
#[verifier::reject_recursive_types(S)]
pub struct ExIndexMap<K, V, S>(IndexMap<K, V, S>);

/// The key-value pairs that an `IndexMap` from integer pairs to strings holds,
/// in the map's own order.
pub uninterp spec fn pairs(m: IndexMap<(u64, u8), String, RandomState>) -> Seq<((u64, u8), Seq<char>)>;

/// Whether some pair of `s` has the key `key`.
pub open spec fn holds_key(s: Seq<((u64, u8), Seq<char>)>, key: (u64, u8)) -> bool {
    exists|i: int| 0 <= i < s.len() && (#[trigger] s[i]).0 == key
}

/// `IndexMap::new`: the new map holds nothing.
#[verifier::external_body]
pub(crate) fn map_new() -> (m: IndexMap<(u64, u8), String, RandomState>)
    ensures
        pairs(m) == Seq::<((u64, u8), Seq<char>)>::empty(),
{
    IndexMap::new()
}

/// `IndexMap::insert`: where a pair with an equal key is held, that pair keeps
/// its key and its place and takes the new value; otherwise the new pair
/// becomes the last one. Every other pair is left as it was.
#[verifier::external_body]
pub(crate) fn map_insert(m: &mut IndexMap<(u64, u8), String, RandomState>, key: (u64, u8), value: String)
    ensures
        forall|i: int|
            0 <= i < pairs(*old(m)).len() && (#[trigger] pairs(*old(m))[i]).0 == key ==> pairs(
                *final(m),
            ) == pairs(*old(m)).update(i, (key, value@)),
        !holds_key(pairs(*old(m)), key) ==> pairs(*final(m)) == pairs(*old(m)).push((key, value@)),
{
    m.insert(key, value);
}

/// `IndexMap::is_empty`: true exactly when the map holds no pair.
#[verifier::external_body]
pub(crate) fn map_is_empty(m: &IndexMap<(u64, u8), String, RandomState>) -> (empty: bool)
    ensures
        empty == (pairs(*m).len() == 0),
{
    m.is_empty()
}

/// `IndexMap::len`: the number of pairs held.
#[verifier::external_body]
pub(crate) fn map_len(m: &IndexMap<(u64, u8), String, RandomState>) -> (n: usize)
    ensures
        n == pairs(*m).len(),
{
    m.len()
}

/// `IndexMap::keys`: the keys of the pairs held, in the map's order.
#[verifier::external_body]
pub(crate) fn map_keys(m: &IndexMap<(u64, u8), String, RandomState>) -> (keys: Vec<(u64, u8)>)
    ensures
        keys@.len() == pairs(*m).len(),
        forall|i: int| 0 <= i < keys@.len() ==> keys@[i] == (#[trigger] pairs(*m)[i]).0,
{
    m.keys().copied().collect()
}

/// `IndexMap::get`: the value of the pair whose key equals `key`, or nothing
/// where no pair has that key.
#[verifier::external_body]
pub(crate) fn map_get(m: &IndexMap<(u64, u8), String, RandomState>, key: (u64, u8)) -> (value: Option<String>)
    ensures
        holds_key(pairs(*m), key) == value.is_some(),
        forall|i: int|
            0 <= i < pairs(*m).len() && (#[trigger] pairs(*m)[i]).0 == key ==> value.is_some()
                && value.unwrap()@ == pairs(*m)[i].1,
{
    m.get(&key).cloned()
}

} // verus!
