//! The rules of one step of a descent, as functions of what is known of a
//! node and of its children.

use crate::node_metadata::NodeMetadata;
use crate::node_metadata::NodeStats;
use vstd::prelude::*;

verus! {

/// Where a descent stands when it reaches a node.
#[derive(Debug, PartialEq, Eq, Clone, Copy, Structural)]
pub enum State {
    /// Every node so far was fully expanded: the next child is chosen by
    /// its score.
    NodesFullyExpanded,
    /// The node has a child without a result: the next child is one of
    /// those.
    ChooseSimulationStart,
    /// The descent has left the known part of the tree: the next child is
    /// any child.
    InSimulation,
}

/// How the next child is chosen.
#[derive(Debug, PartialEq, Eq, Clone, Copy, Structural)]
pub enum Move {
    /// The first child with the highest score.
    Select,
    /// A child without a result, at random.
    Expand,
    /// Any child, at random.
    Simulate,
}

/// The statistics of a sequence of nodes.
pub open spec fn stats_of(metadata: Seq<NodeMetadata>) -> Seq<NodeStats> {
    Seq::new(metadata.len(), |j: int| metadata[j]@)
}

/// Every node of the sequence has a result.
pub open spec fn all_visited(stats: Seq<NodeStats>) -> bool {
    forall|j: int| 0 <= j < stats.len() ==> (#[trigger] stats[j]).visited
}

/// The nodes without a result among the first `upto`, by rising index.
pub open spec fn unvisited(stats: Seq<NodeStats>, upto: int) -> Seq<usize>
    decreases upto,
{
    if upto <= 0 {
        Seq::empty()
    } else if !stats[upto - 1].visited {
        unvisited(stats, upto - 1).push((upto - 1) as usize)
    } else {
        unvisited(stats, upto - 1)
    }
}

/// `index` is the place of the first of the highest values.
pub open spec fn is_first_max(values: Seq<u64>, index: int) -> bool {
    &&& 0 <= index < values.len()
    &&& forall|j: int| 0 <= j < values.len() ==> values[j] <= values[index]
    &&& forall|j: int| 0 <= j < index ==> values[j] < values[index]
}

/// The move that the rules ask for. A descent through fully expanded nodes
/// goes on by score while the node is known to be fully expanded or all its
/// children have a result, and turns to expansion otherwise. An expansion
/// that finds no child without a result falls back to the choice by score.
pub open spec fn move_for(state: State, fully_expanded: bool, children_visited: bool) -> Move {
    match state {
        State::NodesFullyExpanded => if fully_expanded || children_visited {
            Move::Select
        } else {
            Move::Expand
        },
        State::ChooseSimulationStart => if children_visited {
            Move::Select
        } else {
            Move::Expand
        },
        State::InSimulation => Move::Simulate,
    }
}

/// Where the descent stands at the child that a move leads to.
pub open spec fn state_after(chosen: Move) -> State {
    match chosen {
        Move::Select => State::NodesFullyExpanded,
        Move::Expand => State::InSimulation,
        Move::Simulate => State::InSimulation,
    }
}

/// The move that the rules ask for.
pub fn decide_move(state: State, fully_expanded: bool, children_visited: bool) -> (chosen: Move)
    ensures
        chosen == move_for(state, fully_expanded, children_visited),
{
    match state {
        State::NodesFullyExpanded => {
            if fully_expanded || children_visited {
                Move::Select
            } else {
                Move::Expand
            }
        },
        State::ChooseSimulationStart => {
            if children_visited {
                Move::Select
            } else {
                Move::Expand
            }
        },
        State::InSimulation => Move::Simulate,
    }
}

/// Where the descent stands at the child that a move leads to.
pub fn next_state(chosen: Move) -> (state: State)
    ensures
        state == state_after(chosen),
{
    match chosen {
        Move::Select => State::NodesFullyExpanded,
        Move::Expand => State::InSimulation,
        Move::Simulate => State::InSimulation,
    }
}

/// Whether every node of `metadata` has a result.
pub fn are_all_visited(metadata: &Vec<NodeMetadata>) -> (visited: bool)
    ensures
        visited == all_visited(stats_of(metadata@)),
{
    let mut i: usize = 0;
    while i < metadata.len()
        invariant
            i <= metadata.len(),
            forall|j: int| 0 <= j < i ==> (#[trigger] stats_of(metadata@)[j]).visited,
        decreases metadata.len() - i,
    {
        if !metadata[i].is_visited() {
            assert(!stats_of(metadata@)[i as int].visited);
            return false;
        }
        i = i + 1;
    }
    true
}

/// The places of the nodes without a result, in rising order.
pub fn unvisited_indices(metadata: &Vec<NodeMetadata>) -> (indices: Vec<usize>)
    ensures
        indices@ == unvisited(stats_of(metadata@), metadata.len() as int),
{
    let mut indices: Vec<usize> = Vec::new();
    let mut i: usize = 0;
    while i < metadata.len()
        invariant
            i <= metadata.len(),
            indices@ == unvisited(stats_of(metadata@), i as int),
        decreases metadata.len() - i,
    {
        if !metadata[i].is_visited() {
            indices.push(i);
        }
        i = i + 1;
    }
    indices
}

/// The place of the first of the highest values.
pub fn first_max_index(values: &Vec<u64>) -> (index: usize)
    requires
        values.len() > 0,
    ensures
        is_first_max(values@, index as int),
{
    let mut best: usize = 0;
    let mut i: usize = 1;
    while i < values.len()
        invariant
            1 <= i <= values.len(),
            is_first_max(values@.take(i as int), best as int),
        decreases values.len() - i,
    {
        if values[i] > values[best] {
            best = i;
        }
        i = i + 1;
        assert(is_first_max(values@.take(i as int), best as int));
    }
    assert(values@.take(values.len() as int) =~= values@);
    best
}

/// What `unvisited` lists: exactly the nodes without a result, each below
/// `upto`, by rising index.
pub proof fn lemma_unvisited(stats: Seq<NodeStats>, upto: int)
    requires
        0 <= upto <= stats.len(),
        upto <= usize::MAX,
    ensures
        unvisited(stats, upto).len() <= upto,
        forall|j: int|
            0 <= j < unvisited(stats, upto).len() ==> (#[trigger] unvisited(stats, upto)[j]) < upto
                && !stats[unvisited(stats, upto)[j] as int].visited,
        forall|i: int, j: int|
            0 <= i < j < unvisited(stats, upto).len() ==> unvisited(stats, upto)[i] < unvisited(
                stats,
                upto,
            )[j],
        forall|i: int|
            0 <= i < upto && !stats[i].visited ==> unvisited(stats, upto).contains(i as usize),
    decreases upto,
{
    if upto > 0 {
        lemma_unvisited(stats, upto - 1);
        let before = unvisited(stats, upto - 1);
        let now = unvisited(stats, upto);
        if !stats[upto - 1].visited {
            assert(now[now.len() - 1] == (upto - 1) as usize);
        }
        assert forall|i: int| 0 <= i < upto && !stats[i].visited implies now.contains(
            i as usize,
        ) by {
            if i < upto - 1 {
                let j = choose|j: int| 0 <= j < before.len() && before[j] == i as usize;
                assert(now[j] == i as usize);
            } else {
                assert(now[now.len() - 1] == i as usize);
            }
        }
    }
}

/// There is a child without a result exactly where not all have one.
pub proof fn lemma_unvisited_is_empty(stats: Seq<NodeStats>)
    requires
        stats.len() <= usize::MAX,
    ensures
        unvisited(stats, stats.len() as int).len() == 0 <==> all_visited(stats),
{
    lemma_unvisited(stats, stats.len() as int);
    let found = unvisited(stats, stats.len() as int);
    if found.len() > 0 {
        assert(!stats[found[0] as int].visited);
    }
    if !all_visited(stats) {
        let i = choose|i: int| 0 <= i < stats.len() && !(#[trigger] stats[i]).visited;
        assert(found.contains(i as usize));
    }
}

/// The scores alone decide which child is selected: no sequence has two
/// first maxima.
pub proof fn lemma_first_max_is_unique(values: Seq<u64>, first: int, second: int)
    requires
        is_first_max(values, first),
        is_first_max(values, second),
    ensures
        first == second,
{
    if first < second {
        assert(values[first] < values[second]);
        assert(values[second] <= values[first]);
    } else if second < first {
        assert(values[second] < values[first]);
        assert(values[first] <= values[second]);
    }
}

} // verus!
