//! The patricia tree of the `patricia_tree` crate, holding `u64` handles under byte keys.
use vstd::prelude::*;
use patricia_tree::GenericPatriciaMap;
use patricia_tree::PatriciaMap;
use crate::addr::is_prefix;

verus! {

#[verifier::external_type_specification]
#[verifier::external_body]
#[verifier::reject_recursive_types(K)]
#[verifier::reject_recursive_types(V)]
pub struct ExGenericPatriciaMap<K, V>(GenericPatriciaMap<K, V>);

/// What a patricia map of handles holds: key bytes to handle.
pub uninterp spec fn tree_contents(m: PatriciaMap<u64>) -> Map<Seq<u8>, u64>;

/// Relies on `PatriciaMap::new`: the new map is empty.
#[verifier::external_body]
pub(crate) fn tree_new() -> (r: PatriciaMap<u64>)
    ensures
        tree_contents(r).dom() =~= Set::empty(),
{
    PatriciaMap::new()
}

/// Relies on `PatriciaMap::get`: the value stored under exactly `key`, if any.
#[verifier::external_body]
pub(crate) fn tree_get(m: &PatriciaMap<u64>, key: &Vec<u8>) -> (r: Option<u64>)
    ensures
        r == (if tree_contents(*m).contains_key(key@) {
            Some(tree_contents(*m)[key@])
        } else {
            None::<u64>
        }),
{
    m.get(key).copied()
}

/// Relies on `PatriciaMap::insert`: `key` maps to `value` afterwards, other keys keep theirs.
#[verifier::external_body]
pub(crate) fn tree_insert(m: &mut PatriciaMap<u64>, key: &Vec<u8>, value: u64)
    ensures
        tree_contents(*final(m)) == tree_contents(*old(m)).insert(key@, value),
{
    m.insert(key, value);
}

/// Relies on `PatriciaMap::remove`: `key` is gone afterwards, other keys keep theirs.
#[verifier::external_body]
pub(crate) fn tree_remove(m: &mut PatriciaMap<u64>, key: &Vec<u8>)
    ensures
        tree_contents(*final(m)) == tree_contents(*old(m)).remove(key@),
{
    m.remove(key);
}

/// Relies on `PatriciaMap::get_longest_common_prefix`: among the stored keys that are a
/// prefix of `key`, the longest one and its value; `None` when no stored key is such a prefix.
#[verifier::external_body]
pub(crate) fn tree_longest_prefix(m: &PatriciaMap<u64>, key: &Vec<u8>) -> (r: Option<(Vec<u8>, u64)>)
    ensures
        match r {
            Some((k, v)) => {
                &&& tree_contents(*m).contains_key(k@)
                &&& tree_contents(*m)[k@] == v
                &&& is_prefix(k@, key@)
                &&& forall|k2: Seq<u8>|
                    #![trigger tree_contents(*m).contains_key(k2)]
                    tree_contents(*m).contains_key(k2) && is_prefix(k2, key@) ==> k2.len() <= k@.len()
            },
            None => forall|k2: Seq<u8>|
                #![trigger tree_contents(*m).contains_key(k2)]
                tree_contents(*m).contains_key(k2) ==> !is_prefix(k2, key@),
        },
{
    match m.get_longest_common_prefix(key) {
        Some((k, v)) => Some((k.to_vec(), *v)),
        None => None,
    }
}

} // verus!
