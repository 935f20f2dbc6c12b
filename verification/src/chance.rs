//! Random choices, made by the thread-local generator of `rand`. Nothing is
//! claimed of a choice but that it is one of the candidates.

use crate::game_tree_node::GameTreeNode;
use rand::rngs::ThreadRng;
use rand::seq::IndexedRandom;
use rand::seq::IteratorRandom;
use vstd::prelude::*;

verus! {

/// `rand::rngs::ThreadRng`, of which nothing is known here.
#[verifier::external_type_specification]
#[verifier::external_body]
pub struct ExThreadRng(ThreadRng);

/// `rand::rng`: a handle to the generator of the running thread. The call
/// fails where the system cannot seed the generator; nothing else is known
/// of it.
#[verifier::external_body]
pub(crate) fn thread_rng() -> ThreadRng {
    rand::rng()
}

/// `IndexedRandom::choose` on a slice: one of the candidates, `None` only
/// if there is none.
#[verifier::external_body]
pub(crate) fn choose_index(candidates: &Vec<usize>, rng: &mut ThreadRng) -> (chosen: Option<usize>)
    ensures
        chosen is None <==> candidates.len() == 0,
        chosen is Some ==> candidates@.contains(chosen->0),
{
    candidates.choose(rng).copied()
}

/// `IteratorRandom::choose` on the items of a vector: one of the children,
/// `None` only if there is none.
#[verifier::external_body]
pub(crate) fn choose_child<N: GameTreeNode>(children: Vec<N>, rng: &mut ThreadRng) -> (chosen:
    Option<N>)
    ensures
        chosen is None <==> children.len() == 0,
        chosen is Some ==> children@.contains(chosen->0),
{
    children.into_iter().choose(rng)
}

} // verus!
