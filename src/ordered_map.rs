use vstd::prelude::*;

verus! {

#[verifier::external_type_specification]
#[verifier::external_body]
#[verifier::reject_recursive_types(K)]
#[verifier::reject_recursive_types(V)]
pub struct ExAvlTreeMap<K, V>(avl::AvlTreeMap<K, V>);

/// What an ordered map from distances to groups of elements holds.
pub uninterp spec fn groups_of(t: avl::AvlTreeMap<u32, Vec<u32>>) -> Map<u32, Seq<u32>>;

/// Relies on avl::AvlTreeMap::new: a new map holds no entry.
#[verifier::external_body]
pub(crate) fn map_new() -> (r: avl::AvlTreeMap<u32, Vec<u32>>)
    ensures
        groups_of(r) =~= Map::empty(),
{
    avl::AvlTreeMap::new()
}

/// Relies on avl::AvlTreeMap::get: the value stored under `key`, if any.
#[verifier::external_body]
pub(crate) fn map_get(t: &avl::AvlTreeMap<u32, Vec<u32>>, key: u32) -> (r: Option<Vec<u32>>)
    ensures
        r is Some <==> groups_of(*t).contains_key(key),
        r matches Some(v) ==> v@ == groups_of(*t)[key],
{
    t.get(&key).cloned()
}

/// Relies on avl::AvlTreeMap::insert: stores `value` under `key`, replacing
/// any value that was there.
#[verifier::external_body]
pub(crate) fn map_insert(t: &mut avl::AvlTreeMap<u32, Vec<u32>>, key: u32, value: Vec<u32>)
    ensures
        groups_of(*final(t)) == groups_of(*old(t)).insert(key, value@),
{
    t.insert(key, value);
}

/// Relies on avl::AvlTreeMap::iter: every entry once, in increasing key order.
#[verifier::external_body]
pub(crate) fn map_entries(t: &avl::AvlTreeMap<u32, Vec<u32>>) -> (r: Vec<(u32, Vec<u32>)>)
    ensures
        forall|i: int, j: int| 0 <= i < j < r@.len() ==> r@[i].0 < r@[j].0,
        forall|i: int|
            0 <= i < r@.len() ==> groups_of(*t).contains_key(#[trigger] r@[i].0) && r@[i].1@
                == groups_of(*t)[r@[i].0],
        forall|k: u32|
            groups_of(*t).contains_key(k) ==> exists|i: int| 0 <= i < r@.len() && #[trigger] r@[i].0 == k,
{
    t.iter().map(|(k, v)| (*k, v.clone())).collect()
}

} // verus!
