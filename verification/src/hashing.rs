//! The key under which a node is known: the hash of its content.

use crate::game_tree_node::GameTreeNode;
use std::collections::hash_map::DefaultHasher;
use std::hash::Hasher;
use vstd::prelude::*;
use vstd::std_specs::hash::DefaultHasherAdditionalSpecFns;

verus! {

/// What the standard hasher makes of one write of `content`.
pub open spec fn content_hash(content: Seq<u8>) -> u64 {
    DefaultHasher::spec_finish(seq![content])
}

/// The key of a node. Nodes with the same content have the same key, and
/// so have any two whose contents collide.
pub open spec fn key_of<N: GameTreeNode>(node: N) -> u64 {
    content_hash(node.spec_content())
}

/// The key of `node`: the hash that the standard hasher makes of the
/// node's content, written to it in one piece.
pub fn hash<N: GameTreeNode>(node: &N) -> (key: u64)
    ensures
        key == key_of(*node),
{
    let content = node.content();
    let mut hasher = DefaultHasher::new();
    hasher.write(content.as_slice());
    assert(hasher@ =~= seq![content@]);
    hasher.finish()
}

} // verus!
