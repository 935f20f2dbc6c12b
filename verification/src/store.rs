//! The map from a node's key to its statistics. The map itself is the
//! sharded hash map of `ccl`; what it holds is known here only through the
//! contracts below, which are taken on trust. They are read for targets
//! with addresses of 64 bits: the map picks the shard of a key from the
//! upper bits of a 64-bit hash, by the width of an address.

use crate::node_metadata::NodeMetadata;
use crate::node_metadata::NodeStats;
use ccl::dashmap::DashMap;
use std::hash::Hash;
use vstd::prelude::*;

verus! {

/// `ccl::dashmap::DashMap`, of which nothing is known here but what the
/// contracts below say.
#[verifier::external_type_specification]
#[verifier::external_body]
#[verifier::reject_recursive_types(K)]
#[verifier::reject_recursive_types(V)]
#[allow(deprecated)]
pub struct ExDashMap<K: Hash + Eq, V>(DashMap<K, V>);

/// The entries that a map holds. The map is only ever changed through an
/// exclusive reference, so what it holds is a matter of the map alone.
pub uninterp spec fn entries(store: DashMap<u64, NodeMetadata>) -> Map<u64, NodeMetadata>;

/// `DashMap::default`: a map without entries. The call fails where the
/// system cannot seed the random number that the map draws for itself.
#[verifier::external_body]
#[allow(deprecated)]
pub(crate) fn empty_store() -> (store: DashMap<u64, NodeMetadata>)
    ensures
        forall|key: u64| !entries(store).contains_key(key),
{
    DashMap::default()
}

/// `DashMap::get`: a copy of the entry under `key`, if there is one.
#[verifier::external_body]
#[allow(deprecated)]
pub(crate) fn lookup(store: &DashMap<u64, NodeMetadata>, key: u64) -> (found: Option<NodeMetadata>)
    ensures
        found is Some <==> entries(*store).contains_key(key),
        found is Some ==> found->0 == entries(*store)[key],
{
    store.get(&key).map(|entry| *entry)
}

/// `DashMap::get_or_insert_with`: a copy of the entry under `key`, which is
/// a fresh one where the map had none. No other entry changes.
#[verifier::external_body]
#[allow(deprecated)]
pub(crate) fn lookup_or_create(store: &mut DashMap<u64, NodeMetadata>, key: u64) -> (found:
    NodeMetadata)
    ensures
        entries(*final(store)).contains_key(key),
        found == entries(*final(store))[key],
        entries(*old(store)).contains_key(key) ==> entries(*final(store)) == entries(*old(store)),
        !entries(*old(store)).contains_key(key) ==> found@ == NodeStats::zero() && entries(
            *final(store),
        ) == entries(*old(store)).insert(key, found),
{
    *store.get_or_insert_with(&key, || NodeMetadata::new())
}

/// `DashMap::insert`: `metadata` becomes the entry under `key`. No other
/// entry changes.
#[verifier::external_body]
#[allow(deprecated)]
pub(crate) fn replace(store: &mut DashMap<u64, NodeMetadata>, key: u64, metadata: NodeMetadata)
    ensures
        entries(*final(store)) == entries(*old(store)).insert(key, metadata),
{
    store.insert(key, metadata)
}

} // verus!
