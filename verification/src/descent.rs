//! One pass of the search: the walk from the root to the end of a game,
//! one step at a time, and the recording of its reward along the part of
//! the walk that counts.

use crate::backpropagation::backpropagated;
use crate::backpropagation::lemma_backpropagated_keeps;
use crate::backpropagation::lemma_backpropagated_marks;
use crate::backpropagation::lemma_first_is_recorded;
use crate::backpropagation::lemma_no_record;
use crate::backpropagation::lemma_recorded_once;
use crate::backpropagation::records_in;
use crate::backpropagation::signed_reward;
use crate::backpropagation::PathEntry;
use crate::chance::choose_child;
use crate::chance::choose_index;
use crate::clock::is_expired;
use crate::clock::may_say;
use crate::game_tree_node::GameTreeNode;
use crate::game_tree_node::NodeState;
use crate::hashing::hash;
use crate::hashing::key_of;
use crate::node_metadata::NodeMetadata;
use crate::node_metadata::NodeStats;
use crate::search_config::SearchConfig;
use crate::search_tree::created_at;
use crate::search_tree::grown;
use crate::search_tree::kept;
use crate::search_tree::lemma_grown_is_kept;
use crate::search_tree::lemma_grown_twice;
use crate::search_tree::lemma_kept_twice;
use crate::search_tree::recorded_at;
use crate::search_tree::same_marks;
use crate::search_tree::stats_at;
use crate::search_tree::SearchTree;
use crate::selection::all_visited;
use crate::selection::are_all_visited;
use crate::selection::decide_move;
use crate::selection::first_max_index;
use crate::selection::is_first_max;
use crate::selection::lemma_unvisited;
use crate::selection::lemma_unvisited_is_empty;
use crate::selection::move_for;
use crate::selection::next_state;
use crate::selection::state_after;
use crate::selection::stats_of;
use crate::selection::unvisited_indices;
use crate::selection::Move;
use crate::selection::State;
use rand::rngs::ThreadRng;
use std::time::Instant;
use vstd::pervasive::unreached;
use vstd::prelude::*;

verus! {

/// What a step from a node leads to: the end of the game with its reward,
/// or one of the node's children.
#[derive(Debug)]
pub enum Descent<N> {
    Finished(i64),
    Onward { child: N, state: State, simulated: bool },
}

/// The keys of a sequence of nodes.
pub open spec fn keys_of<N: GameTreeNode>(nodes: Seq<N>) -> Seq<u64> {
    Seq::new(nodes.len(), |j: int| key_of(nodes[j]))
}

/// The statistics under a sequence of keys.
pub open spec fn stats_among(store: Map<u64, NodeStats>, keys: Seq<u64>) -> Seq<NodeStats> {
    Seq::new(keys.len(), |j: int| stats_at(store, keys[j]))
}

/// What a step does to the store: the node and its children have an entry
/// afterwards, the node is marked fully expanded if its child was chosen
/// by score, and nothing else changes.
pub open spec fn explored(
    before: Map<u64, NodeStats>,
    after: Map<u64, NodeStats>,
    node_key: u64,
    child_keys: Seq<u64>,
    selected: bool,
) -> bool {
    forall|key: u64|
        {
            &&& #[trigger] after.contains_key(key) <==> before.contains_key(key) || key == node_key
                || child_keys.contains(key)
            &&& after.contains_key(key) ==> after[key] == if key == node_key && selected {
                stats_at(before, key).expanded()
            } else {
                stats_at(before, key)
            }
        }
}

/// `scores` are scores that `score` gave to the children, each from the
/// child's visits and total reward and the parent's visits.
pub open spec fn scored<S: Fn(u32, i64, u32) -> u64>(
    score: &S,
    children: Seq<NodeStats>,
    parent: NodeStats,
    scores: Seq<u64>,
) -> bool {
    &&& scores.len() == children.len()
    &&& forall|j: int|
        0 <= j < children.len() ==> call_ensures(
            score,
            (children[j].visits, children[j].total_reward, parent.visits),
            #[trigger] scores[j],
        )
}

/// The child at `index` may be chosen by `chosen`: by score, it is the
/// first of those with the highest score; in expansion, it has no result
/// yet; in simulation, it is any child.
pub open spec fn may_choose<S: Fn(u32, i64, u32) -> u64>(
    chosen: Move,
    score: &S,
    children: Seq<NodeStats>,
    parent: NodeStats,
    index: int,
) -> bool {
    &&& 0 <= index < children.len()
    &&& match chosen {
        Move::Select => exists|scores: Seq<u64>| #[trigger]
            scored(score, children, parent, scores) && is_first_max(scores, index),
        Move::Expand => !children[index].visited,
        Move::Simulate => true,
    }
}

/// What one step from `node` may lead to, and what it does to the store.
/// At the end of a game the step finds the reward and changes nothing.
/// Otherwise the move is the one that the rules ask for, given where the
/// descent stands and what the store knows of the node and its children;
/// the child is one that this move may choose; and the store changes as
/// `explored` says.
pub open spec fn is_step<N: GameTreeNode, S: Fn(u32, i64, u32) -> u64>(
    before: Map<u64, NodeStats>,
    after: Map<u64, NodeStats>,
    node: N,
    state: State,
    score: &S,
    next: Descent<N>,
) -> bool {
    match next {
        Descent::Finished(reward) => node.terminal_reward() == Some(reward) && after == before,
        Descent::Onward { child, state: then, simulated } => {
            let parent = stats_at(before, key_of(node));
            let children = stats_among(before, keys_of(node.children()));
            let chosen = move_for(state, parent.fully_expanded, all_visited(children));
            &&& node.terminal_reward() is None
            &&& child.plies_left() < node.plies_left()
            &&& then == state_after(chosen)
            &&& simulated == (chosen == Move::Simulate)
            &&& explored(
                before,
                after,
                key_of(node),
                keys_of(node.children()),
                chosen == Move::Select,
            )
            &&& exists|index: int| #[trigger]
                may_choose(chosen, score, children, parent, index) && child
                    == node.children()[index]
        },
    }
}

/// Each node but the last has moves left, and the next node is one of its
/// children.
pub open spec fn is_walk<N: GameTreeNode>(nodes: Seq<N>) -> bool {
    forall|i: int|
        0 <= i < nodes.len() - 1 ==> (#[trigger] nodes[i]).terminal_reward() is None
            && nodes[i].children().contains(nodes[i + 1])
}

/// `nodes` is a walk from `root` to the end of a game with reward `reward`,
/// and `path` describes it: one entry for each node, and from the first
/// node reached by simulation on, every node is marked as such. The root
/// never is.
pub open spec fn is_descent<N: GameTreeNode>(
    root: N,
    nodes: Seq<N>,
    path: Seq<PathEntry>,
    reward: i64,
) -> bool {
    &&& nodes.len() > 0
    &&& path.len() == nodes.len()
    &&& nodes[0] == root
    &&& nodes.last().terminal_reward() == Some(reward)
    &&& is_walk(nodes)
    &&& forall|i: int|
        0 <= i < path.len() ==> (#[trigger] path[i]).key == key_of(nodes[i]) && path[i].by_self
            == nodes[i].spec_is_self_turn()
    &&& !path[0].simulated
    &&& forall|i: int, j: int|
        0 <= i < j < path.len() && (#[trigger] path[i]).simulated ==> (#[trigger] path[j]).simulated
}

/// No node below `root` has the key of `root`.
pub open spec fn key_is_alone<N: GameTreeNode>(root: N) -> bool {
    forall|nodes: Seq<N>, i: int|
        #![trigger is_walk(nodes), nodes[i]]
        nodes.len() > 0 && nodes[0] == root && is_walk(nodes) && 1 <= i < nodes.len() ==> key_of(
            nodes[i],
        ) != key_of(root)
}

/// Every node with moves left that can be reached from `root` is marked
/// fully expanded.
pub open spec fn all_inner_marked<N: GameTreeNode>(store: Map<u64, NodeStats>, root: N) -> bool {
    forall|nodes: Seq<N>, i: int|
        #![trigger is_walk(nodes), nodes[i]]
        nodes.len() > 0 && nodes[0] == root && is_walk(nodes) && 0 <= i < nodes.len()
            && nodes[i].terminal_reward() is None ==> stats_at(
            store,
            key_of(nodes[i]),
        ).fully_expanded
}

/// The children of `root` have keys of their own: no two of them share a
/// key, and neither the root nor any node further below has the key of
/// one of them.
pub open spec fn child_keys_are_alone<N: GameTreeNode>(root: N) -> bool {
    &&& forall|a: int, b: int|
        0 <= a < b < root.children().len() ==> key_of(#[trigger] root.children()[a]) != key_of(
            #[trigger] root.children()[b],
        )
    &&& forall|a: int|
        0 <= a < root.children().len() ==> key_of(#[trigger] root.children()[a]) != key_of(root)
    &&& forall|nodes: Seq<N>, i: int, a: int|
        #![trigger is_walk(nodes), nodes[i], root.children()[a]]
        nodes.len() > 0 && nodes[0] == root && is_walk(nodes) && 2 <= i < nodes.len() && 0 <= a
            < root.children().len() ==> key_of(nodes[i]) != key_of(root.children()[a])
}

/// The results recorded for the first `upto` children of `parent`, added
/// up.
pub open spec fn results_below<N: GameTreeNode>(tree: SearchTree, parent: N, upto: int) -> nat
    decreases upto,
{
    if upto <= 0 {
        0
    } else {
        results_below(tree, parent, upto - 1) + tree.recorded_results(
            key_of(parent.children()[upto - 1]),
        )
    }
}

/// Whether each node of a path was reached by simulation.
pub open spec fn simulated_in(path: Seq<PathEntry>) -> Seq<bool> {
    Seq::new(path.len(), |k: int| path[k].simulated)
}

/// The move from `nodes[i]` to `nodes[i + 1]` is a step: it starts where
/// the descent stands at `nodes[i]`, with the store as the step before
/// left it, and leads to `nodes[i + 1]` with the store, the state and the
/// mark of simulation that come next.
pub open spec fn is_walk_step<N: GameTreeNode, S: Fn(u32, i64, u32) -> u64>(
    score: &S,
    nodes: Seq<N>,
    simulated: Seq<bool>,
    states: Seq<State>,
    stores: Seq<Map<u64, NodeStats>>,
    i: int,
) -> bool {
    is_step(
        stores[i],
        stores[i + 1],
        nodes[i],
        states[i],
        score,
        Descent::Onward { child: nodes[i + 1], state: states[i + 1], simulated: simulated[i + 1] },
    )
}

/// A walk from `root` by the rules, as far as it goes: it starts among the
/// fully expanded nodes, with the store that knows the root, every move
/// of it is a step, and it leaves the store as `after`. `states[i]` is
/// where the descent stands at `nodes[i]`, `stores[i]` what the store
/// holds when it gets there, and `simulated[i]` whether the node was
/// reached by simulation.
pub open spec fn is_ruled_walk<N: GameTreeNode, S: Fn(u32, i64, u32) -> u64>(
    score: &S,
    before: Map<u64, NodeStats>,
    after: Map<u64, NodeStats>,
    root: N,
    nodes: Seq<N>,
    simulated: Seq<bool>,
    states: Seq<State>,
    stores: Seq<Map<u64, NodeStats>>,
) -> bool {
    &&& nodes.len() > 0
    &&& simulated.len() == nodes.len()
    &&& states.len() == nodes.len()
    &&& stores.len() == nodes.len()
    &&& nodes[0] == root
    &&& states[0] == State::NodesFullyExpanded
    &&& stores[0] == created_at(before, key_of(root))
    &&& stores.last() == after
    &&& forall|i: int|
        0 <= i < nodes.len() - 1 ==> #[trigger] is_walk_step(
            score,
            nodes,
            simulated,
            states,
            stores,
            i,
        )
}

/// What a pass that is given up does: it walks from the root by the
/// rules, as far as it gets, and records nothing.
pub open spec fn is_given_up<N: GameTreeNode, S: Fn(u32, i64, u32) -> u64>(
    root: N,
    before: SearchTree,
    after: SearchTree,
    score: &S,
) -> bool {
    &&& forall|key: u64| after.recorded_results(key) == before.recorded_results(key)
    &&& exists|
        nodes: Seq<N>,
        simulated: Seq<bool>,
        states: Seq<State>,
        stores: Seq<Map<u64, NodeStats>>,
    |
        is_ruled_walk(score, before@, after@, root, nodes, simulated, states, stores)
}

/// What a completed pass does: it walks from the root to the end of a
/// game by the rules, step by step, which leaves the statistics grown to
/// the last of `stores`, and records the reward along the walk.
pub open spec fn is_pass<N: GameTreeNode, S: Fn(u32, i64, u32) -> u64>(
    root: N,
    before: SearchTree,
    after: SearchTree,
    score: &S,
    reward: i64,
    nodes: Seq<N>,
    path: Seq<PathEntry>,
    states: Seq<State>,
    stores: Seq<Map<u64, NodeStats>>,
) -> bool {
    &&& is_descent(root, nodes, path, reward)
    &&& is_ruled_walk(
        score,
        before@,
        stores.last(),
        root,
        nodes,
        simulated_in(path),
        states,
        stores,
    )
    &&& grown(before@, stores.last())
    &&& after@ == backpropagated(stores.last(), path, reward)
    &&& forall|key: u64|
        after.recorded_results(key) == before.recorded_results(key) + records_in(path, key)
}

/// A pass from `root` that found `reward` leads from `before` to `after`.
pub open spec fn is_completed<N: GameTreeNode, S: Fn(u32, i64, u32) -> u64>(
    root: N,
    before: SearchTree,
    after: SearchTree,
    score: &S,
    reward: i64,
) -> bool {
    exists|
        nodes: Seq<N>,
        path: Seq<PathEntry>,
        states: Seq<State>,
        stores: Seq<Map<u64, NodeStats>>,
    |
        is_pass(root, before, after, score, reward, nodes, path, states, stores)
}

impl SearchTree {
    /// One step of a walk, from `node` to one of its children. The child
    /// is chosen by the rules of `state`: by score, among the children
    /// without a result, or among all of them.
    pub fn step<N: GameTreeNode, S: Fn(u32, i64, u32) -> u64>(
        &mut self,
        node: &N,
        state: State,
        score: &S,
        rng: &mut ThreadRng,
    ) -> (next: Descent<N>)
        requires
            old(self).wf(),
            forall|visits: u32, total_reward: i64, parent_visits: u32|
                call_requires(score, (visits, total_reward, parent_visits)),
        ensures
            final(self).wf(),
            forall|key: u64| final(self).recorded_results(key) == old(self).recorded_results(key),
            is_step(old(self)@, final(self)@, *node, state, score, next),
    {
        let mut children = match node.calculate_state() {
            NodeState::Reward(reward) => {
                return Descent::Finished(reward);
            },
            NodeState::HasChildren(children) => children,
        };
        let node_key = hash(node);
        let parent = self.load_metadata(node_key);
        let mut metadata: Vec<NodeMetadata> = Vec::new();
        let ghost mut keys: Seq<u64> = Seq::empty();
        let mut i: usize = 0;
        while i < children.len()
            invariant
                i <= children.len(),
                children@ == node.children(),
                self.wf(),
                forall|key: u64| self.recorded_results(key) == old(self).recorded_results(key),
                keys == keys_of(node.children()).take(i as int),
                stats_of(metadata@) == stats_among(old(self)@, keys),
                metadata.len() == i,
                explored(old(self)@, self@, node_key, keys, false),
            decreases children.len() - i,
        {
            let key = hash(&children[i]);
            let ghost before = self@;
            let child_metadata = self.load_metadata(key);
            proof {
                let ghost longer = keys.push(key);
                assert(longer =~= keys_of(node.children()).take(i + 1));
                assert(stats_at(before, key) == stats_at(old(self)@, key));
                assert forall|j: int| 0 <= j < longer.len() implies stats_of(
                    metadata@.push(child_metadata),
                )[j] == stats_among(old(self)@, longer)[j] by {
                    if j < keys.len() {
                        assert(stats_of(metadata@)[j] == stats_among(old(self)@, keys)[j]);
                    }
                }
                assert(stats_of(metadata@.push(child_metadata)) =~= stats_among(
                    old(self)@,
                    longer,
                ));
                assert forall|other: u64|
                    {
                        &&& #[trigger] self@.contains_key(other) <==> old(self)@.contains_key(other)
                            || other == node_key || longer.contains(other)
                        &&& self@.contains_key(other) ==> self@[other] == stats_at(
                            old(self)@,
                            other,
                        )
                    } by {
                    assert(before.contains_key(other) <==> old(self)@.contains_key(other) || other
                        == node_key || keys.contains(other));
                    if keys.contains(other) {
                        let j = choose|j: int| 0 <= j < keys.len() && keys[j] == other;
                        assert(longer[j] == other);
                    }
                    if other == key {
                        assert(longer[longer.len() - 1] == other);
                    }
                    if longer.contains(other) && other != key {
                        let j = choose|j: int| 0 <= j < longer.len() && longer[j] == other;
                        assert(keys[j] == other);
                    }
                }
            }
            metadata.push(child_metadata);
            proof {
                keys = keys.push(key);
            }
            i = i + 1;
        }
        proof {
            assert(keys =~= keys_of(node.children()));
            lemma_unvisited_is_empty(stats_of(metadata@));
            lemma_unvisited(stats_of(metadata@), metadata.len() as int);
        }
        let ghost stats = stats_of(metadata@);
        let chosen = decide_move(state, parent.is_fully_expanded(), are_all_visited(&metadata));
        let after = next_state(chosen);
        match chosen {
            Move::Select => {
                if !parent.is_fully_expanded() {
                    self.set_fully_expanded(node_key);
                }
                let mut scores: Vec<u64> = Vec::new();
                let mut j: usize = 0;
                while j < metadata.len()
                    invariant
                        j <= metadata.len(),
                        scores.len() == j,
                        forall|visits: u32, total_reward: i64, parent_visits: u32|
                            call_requires(score, (visits, total_reward, parent_visits)),
                        forall|t: int|
                            0 <= t < j ==> call_ensures(
                                score,
                                (
                                    stats_of(metadata@)[t].visits,
                                    stats_of(metadata@)[t].total_reward,
                                    parent@.visits,
                                ),
                                #[trigger] scores[t],
                            ),
                    decreases metadata.len() - j,
                {
                    let value = score(
                        metadata[j].number_of_visits(),
                        metadata[j].total_reward(),
                        parent.number_of_visits(),
                    );
                    scores.push(value);
                    j = j + 1;
                }
                let index = first_max_index(&scores);
                let child = children.remove(index);
                proof {
                    assert(scored(score, stats, parent@, scores@));
                    assert(may_choose(chosen, score, stats, parent@, index as int));
                    assert(explored(
                        old(self)@,
                        self@,
                        node_key,
                        keys_of(node.children()),
                        true,
                    ));
                }
                Descent::Onward { child, state: after, simulated: false }
            },
            Move::Expand => {
                let candidates = unvisited_indices(&metadata);
                let index = match choose_index(&candidates, rng) {
                    Some(index) => index,
                    None => candidates[0],
                };
                proof {
                    let t = choose|t: int| 0 <= t < candidates.len() && candidates[t] == index;
                    assert(!stats[candidates[t] as int].visited);
                    assert(may_choose(chosen, score, stats, parent@, index as int));
                }
                let child = children.remove(index);
                Descent::Onward { child, state: after, simulated: false }
            },
            Move::Simulate => {
                let ghost all = children@;
                match choose_child(children, rng) {
                    Some(child) => {
                        proof {
                            let index = choose|index: int|
                                0 <= index < all.len() && all[index] == child;
                            assert(may_choose(chosen, score, stats, parent@, index));
                        }
                        Descent::Onward { child, state: after, simulated: true }
                    },
                    None => unreached(),
                }
            },
        }
    }

    /// One step of a walk, unless the time is up: with `expired` the step
    /// is not taken and nothing changes; without, it is taken as `step`
    /// takes it.
    pub fn step_within<N: GameTreeNode, S: Fn(u32, i64, u32) -> u64>(
        &mut self,
        expired: bool,
        node: &N,
        state: State,
        score: &S,
        rng: &mut ThreadRng,
    ) -> (next: Option<Descent<N>>)
        requires
            old(self).wf(),
            forall|visits: u32, total_reward: i64, parent_visits: u32|
                call_requires(score, (visits, total_reward, parent_visits)),
        ensures
            final(self).wf(),
            forall|key: u64| final(self).recorded_results(key) == old(self).recorded_results(key),
            expired ==> next is None && final(self)@ == old(self)@,
            !expired ==> next is Some && is_step(
                old(self)@,
                final(self)@,
                *node,
                state,
                score,
                next->0,
            ),
    {
        if expired {
            None
        } else {
            let next = Some(self.step(node, state, score, rng));
            assert(is_step(old(self)@, self@, *node, state, score, next->0));
            next
        }
    }

    /// A walk from `root` to the end of a game: the nodes passed, the
    /// reward found, and where the descent stood and what the store held
    /// at each node. `expired` is asked before every step, and the walk is
    /// given up at the first step before which it says that the time is
    /// up.
    fn descend<N: GameTreeNode, S: Fn(u32, i64, u32) -> u64, C: Fn() -> bool>(
        &mut self,
        root: &N,
        expired: &C,
        score: &S,
        rng: &mut ThreadRng,
    ) -> (found: (
        Option<(Vec<PathEntry>, i64)>,
        Ghost<(Seq<N>, Seq<bool>, Seq<State>, Seq<Map<u64, NodeStats>>)>,
    ))
        requires
            old(self).wf(),
            call_requires(expired, ()),
            forall|visits: u32, total_reward: i64, parent_visits: u32|
                call_requires(score, (visits, total_reward, parent_visits)),
        ensures
            final(self).wf(),
            found.0 is None ==> call_ensures(expired, (), true),
            found.0 is Some ==> call_ensures(expired, (), false),
            !call_ensures(expired, (), false) ==> final(self)@ == created_at(
                old(self)@,
                key_of(*root),
            ),
            forall|key: u64| final(self).recorded_results(key) == old(self).recorded_results(key),
            grown(old(self)@, final(self)@),
            found matches (None, walk) ==> is_ruled_walk(
                score,
                old(self)@,
                final(self)@,
                *root,
                walk@.0,
                walk@.1,
                walk@.2,
                walk@.3,
            ),
            root.terminal_reward() is Some ==> final(self)@ == created_at(
                old(self)@,
                key_of(*root),
            ),
            all_inner_marked(old(self)@, *root) ==> same_marks(old(self)@, final(self)@),
            found matches (Some((path, value)), walk) ==> {
                &&& is_descent(*root, walk@.0, path@, value)
                &&& is_ruled_walk(
                    score,
                    old(self)@,
                    final(self)@,
                    *root,
                    walk@.0,
                    simulated_in(path@),
                    walk@.2,
                    walk@.3,
                )
            },
    {
        let root_key = hash(root);
        let _ = self.load_metadata(root_key);
        let mut path: Vec<PathEntry> = Vec::new();
        let ghost mut nodes: Seq<N> = seq![*root];
        let ghost mut states: Seq<State> = seq![State::NodesFullyExpanded];
        let ghost mut stores: Seq<Map<u64, NodeStats>> = seq![self@];
        let mut current: Option<N> = None;
        let mut state = State::NodesFullyExpanded;
        let mut simulated = false;
        loop
            invariant
                self.wf(),
                call_requires(expired, ()),
                path.len() > 0 ==> call_ensures(expired, (), false),
                forall|visits: u32, total_reward: i64, parent_visits: u32|
                    call_requires(score, (visits, total_reward, parent_visits)),
                forall|key: u64| self.recorded_results(key) == old(self).recorded_results(key),
                grown(old(self)@, self@),
                root_key == key_of(*root),
                nodes.len() == path.len() + 1,
                states.len() == nodes.len(),
                stores.len() == nodes.len(),
                nodes[0] == *root,
                states[0] == State::NodesFullyExpanded,
                stores[0] == created_at(old(self)@, root_key),
                states.last() == state,
                stores.last() == self@,
                current is None <==> path.len() == 0,
                current is Some ==> current->0 == nodes.last(),
                is_walk(nodes),
                forall|i: int|
                    0 <= i < path.len() ==> (#[trigger] path[i]).key == key_of(nodes[i])
                        && path[i].by_self == nodes[i].spec_is_self_turn(),
                path.len() > 0 ==> !path[0].simulated,
                forall|i: int, j: int|
                    0 <= i < j < path.len() && (#[trigger] path[i]).simulated ==> (
                    #[trigger] path[j]).simulated,
                forall|i: int| 0 <= i < path.len() && (#[trigger] path[i]).simulated ==> simulated,
                current is None ==> !simulated,
                simulated ==> state == State::InSimulation,
                all_inner_marked(old(self)@, *root) ==> same_marks(old(self)@, self@),
                forall|i: int|
                    0 <= i < path.len() ==> #[trigger] is_walk_step(
                        score,
                        nodes,
                        simulated_in(path@).push(simulated),
                        states,
                        stores,
                        i,
                    ),
            decreases nodes.last().plies_left(),
        {
            let verdict = expired();
            let node: &N = match &current {
                Some(node) => node,
                None => root,
            };
            let key = hash(node);
            let by_self = node.is_self_turn();
            let ghost before = self@;
            let ghost earlier = path@;
            let next = match self.step_within(verdict, node, state, score, rng) {
                None => {
                    return (
                        None,
                        Ghost((nodes, simulated_in(earlier).push(simulated), states, stores)),
                    );
                },
                Some(next) => next,
            };
            path.push(PathEntry { key, by_self, simulated });
            proof {
                assert(simulated_in(path@) =~= simulated_in(earlier).push(simulated));
            }
            match next {
                Descent::Finished(value) => {
                    assert(is_descent(*root, nodes, path@, value));
                    assert(is_ruled_walk(
                        score,
                        old(self)@,
                        self@,
                        *root,
                        nodes,
                        simulated_in(path@),
                        states,
                        stores,
                    ));
                    let ghost flags = simulated_in(path@);
                    return (Some((path, value)), Ghost((nodes, flags, states, stores)));
                },
                Descent::Onward { child, state: after, simulated: by_simulation } => {
                    proof {
                        let parent = stats_at(before, key_of(*node));
                        let children = stats_among(before, keys_of(node.children()));
                        let chosen = move_for(state, parent.fully_expanded, all_visited(children));
                        lemma_explored_is_grown(
                            before,
                            self@,
                            key_of(*node),
                            keys_of(node.children()),
                            chosen == Move::Select,
                        );
                        lemma_grown_twice(old(self)@, before, self@);
                        let index = choose|index: int| #[trigger]
                            may_choose(chosen, score, children, parent, index) && child
                                == node.children()[index];
                        if all_inner_marked(old(self)@, *root) {
                            assert(is_walk(nodes));
                            assert(nodes[nodes.len() - 1].terminal_reward() is None);
                            assert(stats_at(old(self)@, key_of(*node)).fully_expanded);
                            assert(stats_at(before, key_of(*node)).fully_expanded);
                            assert forall|other: u64| stats_at(self@, other).fully_expanded
                                == stats_at(old(self)@, other).fully_expanded by {
                                assert(stats_at(before, other).fully_expanded == stats_at(
                                    old(self)@,
                                    other,
                                ).fully_expanded);
                                assert(self@.contains_key(other) <==> before.contains_key(other)
                                    || other == key_of(*node) || keys_of(
                                    node.children(),
                                ).contains(other));
                            }
                        }
                        let flags = simulated_in(earlier).push(simulated);
                        let further = nodes.push(child);
                        let later = states.push(after);
                        let grown_stores = stores.push(self@);
                        assert forall|i: int| 0 <= i < path.len() implies #[trigger] is_walk_step(
                            score,
                            further,
                            flags.push(by_simulation),
                            later,
                            grown_stores,
                            i,
                        ) by {
                            if i < earlier.len() {
                                assert(is_walk_step(score, nodes, flags, states, stores, i));
                            }
                        }
                        assert(is_walk(further)) by {
                            assert forall|i: int| 0 <= i < further.len() - 1 implies (
                            #[trigger] further[i]).terminal_reward() is None
                                && further[i].children().contains(further[i + 1]) by {
                                if i < nodes.len() - 1 {
                                    assert(nodes[i].terminal_reward() is None);
                                }
                            }
                        }
                        nodes = further;
                        states = later;
                        stores = grown_stores;
                    }
                    current = Some(child);
                    state = after;
                    simulated = by_simulation;
                },
            }
        }
    }

    /// One pass by the clock: `run_iteration_until`, with a clock that
    /// says that the time is up once the time since `start` exceeds the
    /// configured duration. So the pass is given up only where some span
    /// of time is longer than `config.max_duration`, and completed only
    /// where some span is not.
    pub fn run_iteration<N: GameTreeNode, S: Fn(u32, i64, u32) -> u64>(
        &mut self,
        root: &N,
        config: &SearchConfig,
        start: &Instant,
        score: &S,
        rng: &mut ThreadRng,
    ) -> (reward: Option<i64>)
        requires
            old(self).wf(),
            forall|visits: u32, total_reward: i64, parent_visits: u32|
                call_requires(score, (visits, total_reward, parent_visits)),
        ensures
            final(self).wf(),
            reward is None ==> may_say(config.max_duration, true),
            reward is Some ==> may_say(config.max_duration, false),
            !may_say(config.max_duration, false) ==> final(self)@ == created_at(
                old(self)@,
                key_of(*root),
            ),
            reward is None ==> grown(old(self)@, final(self)@),
            reward is None ==> forall|key: u64|
                final(self).recorded_results(key) == old(self).recorded_results(key),
            reward is None ==> is_given_up(*root, *old(self), *final(self), score),
            reward is Some ==> is_completed(*root, *old(self), *final(self), score, reward->0),
            all_inner_marked(old(self)@, *root) ==> same_marks(old(self)@, final(self)@),
            root.terminal_reward() is Some ==> reward is None || reward == root.terminal_reward(),
            root.terminal_reward() is Some ==> final(self)@ == match reward {
                None => created_at(old(self)@, key_of(*root)),
                Some(value) => recorded_at(
                    created_at(old(self)@, key_of(*root)),
                    key_of(*root),
                    signed_reward(value, root.spec_is_self_turn()),
                ),
            },
    {
        let expired = || -> (verdict: bool)
            ensures
                may_say(config.max_duration, verdict),
            { is_expired(start, &config.max_duration) };
        self.run_iteration_until(root, &expired, score, rng)
    }

    /// One pass: a walk from `root` to the end of a game, and the
    /// recording of its reward. `expired` is asked before every step, and
    /// the pass is given up, with nothing recorded, at the first step
    /// before which it says that the time is up. So a pass is given up
    /// only where `expired` can say so, it is completed only where
    /// `expired` can say that there is time left, and where it cannot, the
    /// pass does no more than make the root known. Given up or not, the
    /// pass walks from the root by the rules, step by step, and touches
    /// nothing that its walk does not pass.
    pub fn run_iteration_until<N: GameTreeNode, S: Fn(u32, i64, u32) -> u64, C: Fn() -> bool>(
        &mut self,
        root: &N,
        expired: &C,
        score: &S,
        rng: &mut ThreadRng,
    ) -> (reward: Option<i64>)
        requires
            old(self).wf(),
            call_requires(expired, ()),
            forall|visits: u32, total_reward: i64, parent_visits: u32|
                call_requires(score, (visits, total_reward, parent_visits)),
        ensures
            final(self).wf(),
            reward is None ==> call_ensures(expired, (), true),
            reward is Some ==> call_ensures(expired, (), false),
            !call_ensures(expired, (), false) ==> final(self)@ == created_at(
                old(self)@,
                key_of(*root),
            ),
            reward is None ==> grown(old(self)@, final(self)@),
            reward is None ==> forall|key: u64|
                final(self).recorded_results(key) == old(self).recorded_results(key),
            reward is None ==> is_given_up(*root, *old(self), *final(self), score),
            reward is Some ==> is_completed(*root, *old(self), *final(self), score, reward->0),
            all_inner_marked(old(self)@, *root) ==> same_marks(old(self)@, final(self)@),
            root.terminal_reward() is Some ==> reward is None || reward == root.terminal_reward(),
            root.terminal_reward() is Some ==> final(self)@ == match reward {
                None => created_at(old(self)@, key_of(*root)),
                Some(value) => recorded_at(
                    created_at(old(self)@, key_of(*root)),
                    key_of(*root),
                    signed_reward(value, root.spec_is_self_turn()),
                ),
            },
    {
        let (outcome, walk) = self.descend(root, expired, score, rng);
        match outcome {
            None => {
                assert(is_ruled_walk(
                    score,
                    old(self)@,
                    self@,
                    *root,
                    walk@.0,
                    walk@.1,
                    walk@.2,
                    walk@.3,
                ));
                None
            },
            Some((path, value)) => {
                let ghost reached = self@;
                let ghost counted = *self;
                self.backpropagate(&path, value);
                proof {
                    assert forall|key: u64|
                        self.recorded_results(key) == old(self).recorded_results(key) + records_in(
                            path@,
                            key,
                        ) by {
                        assert(counted.recorded_results(key) == old(self).recorded_results(key));
                    }
                    lemma_backpropagated_marks(reached, path@, value);
                    if all_inner_marked(old(self)@, *root) {
                        assert forall|key: u64| stats_at(self@, key).fully_expanded == stats_at(
                            old(self)@,
                            key,
                        ).fully_expanded by {
                            assert(stats_at(reached, key).fully_expanded == stats_at(
                                old(self)@,
                                key,
                            ).fully_expanded);
                        }
                    }
                    if root.terminal_reward() is Some {
                        assert(path@.len() == 1);
                        assert(path@.drop_last() =~= Seq::<PathEntry>::empty());
                        assert(backpropagated(reached, path@.drop_last(), value) == reached);
                    }
                }
                let reward = Some(value);
                assert(is_pass(
                    *root,
                    *old(self),
                    *self,
                    score,
                    reward->0,
                    walk@.0,
                    path@,
                    walk@.2,
                    walk@.3,
                ));
                reward
            },
        }
    }
}

/// A step leaves the store grown.
pub proof fn lemma_explored_is_grown(
    before: Map<u64, NodeStats>,
    after: Map<u64, NodeStats>,
    node_key: u64,
    child_keys: Seq<u64>,
    selected: bool,
)
    requires
        explored(before, after, node_key, child_keys, selected),
    ensures
        grown(before, after),
{
    assert forall|key: u64|
        {
            &&& before.contains_key(key) ==> after.contains_key(key)
            &&& after.contains_key(key) ==> {
                &&& after[key].visits == stats_at(before, key).visits
                &&& after[key].total_reward == stats_at(before, key).total_reward
                &&& after[key].visited == stats_at(before, key).visited
                &&& stats_at(before, key).fully_expanded ==> after[key].fully_expanded
            }
        } by {
        assert(after.contains_key(key) <==> before.contains_key(key) || key == node_key
            || child_keys.contains(key));
    }
}

/// A node gains the mark of full expansion in a step only if it is the
/// node that the step starts from and all its children have a result.
pub proof fn lemma_mark_needs_results<N: GameTreeNode, S: Fn(u32, i64, u32) -> u64>(
    before: Map<u64, NodeStats>,
    after: Map<u64, NodeStats>,
    node: N,
    state: State,
    score: &S,
    next: Descent<N>,
    key: u64,
)
    requires
        is_step(before, after, node, state, score, next),
        !stats_at(before, key).fully_expanded,
        stats_at(after, key).fully_expanded,
    ensures
        key == key_of(node),
        node.terminal_reward() is None,
        all_visited(stats_among(before, keys_of(node.children()))),
{
    assert(after.contains_key(key));
}

/// Monotonicity and conservation for one pass: the pass loses no node and
/// no flag, lowers no count of recorded results, and records at least one
/// result for the root.
pub proof fn lemma_pass_keeps<N: GameTreeNode, S: Fn(u32, i64, u32) -> u64>(
    root: N,
    before: SearchTree,
    after: SearchTree,
    score: &S,
    reward: i64,
    nodes: Seq<N>,
    path: Seq<PathEntry>,
    states: Seq<State>,
    stores: Seq<Map<u64, NodeStats>>,
)
    requires
        is_pass(root, before, after, score, reward, nodes, path, states, stores),
    ensures
        kept(before@, after@),
        forall|key: u64| before.recorded_results(key) <= after.recorded_results(key),
        after.recorded_results(key_of(root)) >= before.recorded_results(key_of(root)) + 1,
{
    lemma_grown_is_kept(before@, stores.last());
    lemma_backpropagated_keeps(stores.last(), path, reward);
    lemma_kept_twice(before@, stores.last(), after@);
    lemma_first_is_recorded(path);
    assert(path[0].key == key_of(nodes[0]));
}

/// Conservation for one pass: where no node below the root has the
/// root's key, the pass records exactly one result for the root.
pub proof fn lemma_root_is_recorded_once<N: GameTreeNode, S: Fn(u32, i64, u32) -> u64>(
    root: N,
    before: SearchTree,
    after: SearchTree,
    score: &S,
    reward: i64,
    nodes: Seq<N>,
    path: Seq<PathEntry>,
    states: Seq<State>,
    stores: Seq<Map<u64, NodeStats>>,
)
    requires
        is_pass(root, before, after, score, reward, nodes, path, states, stores),
        key_is_alone(root),
    ensures
        after.recorded_results(key_of(root)) == before.recorded_results(key_of(root)) + 1,
{
    assert(path[0].key == key_of(nodes[0]));
    assert forall|j: int| 0 <= j < path.len() && j != 0 implies (#[trigger] path[j]).simulated
        || path[j].key != path[0].key by {
        assert(is_walk(nodes));
        assert(key_of(nodes[j]) != key_of(root));
    }
    lemma_recorded_once(stores.last(), path, reward, 0);
}

/// Trees that have recorded as many results under every key have recorded
/// as many for the children of a node.
pub proof fn lemma_results_below_same<N: GameTreeNode>(
    before: SearchTree,
    after: SearchTree,
    parent: N,
    upto: int,
)
    requires
        forall|key: u64| after.recorded_results(key) == before.recorded_results(key),
    ensures
        results_below(after, parent, upto) == results_below(before, parent, upto),
    decreases upto,
{
    if upto > 0 {
        lemma_results_below_same(before, after, parent, upto - 1);
    }
}

/// One more result for the child at `chosen`, and none for any other
/// child, is one more result among the first `upto` children if `chosen`
/// is among them.
pub proof fn lemma_results_below_one_more<N: GameTreeNode>(
    before: SearchTree,
    after: SearchTree,
    parent: N,
    chosen: int,
    upto: int,
)
    requires
        0 <= upto <= parent.children().len(),
        forall|a: int|
            0 <= a < parent.children().len() ==> after.recorded_results(
                key_of(#[trigger] parent.children()[a]),
            ) == before.recorded_results(key_of(parent.children()[a])) + if a == chosen {
                1nat
            } else {
                0nat
            },
    ensures
        results_below(after, parent, upto) == results_below(before, parent, upto) + if 0 <= chosen
            < upto {
            1nat
        } else {
            0nat
        },
    decreases upto,
{
    if upto > 0 {
        lemma_results_below_one_more(before, after, parent, chosen, upto - 1);
        assert(after.recorded_results(key_of(parent.children()[upto - 1]))
            == before.recorded_results(key_of(parent.children()[upto - 1])) + if upto - 1
            == chosen {
            1nat
        } else {
            0nat
        });
    }
}

/// Conservation one level down: where the children of the root have keys
/// of their own, a pass from a root with moves left records exactly one
/// result among them.
pub proof fn lemma_one_child_is_recorded<N: GameTreeNode, S: Fn(u32, i64, u32) -> u64>(
    root: N,
    before: SearchTree,
    after: SearchTree,
    score: &S,
    reward: i64,
    nodes: Seq<N>,
    path: Seq<PathEntry>,
    states: Seq<State>,
    stores: Seq<Map<u64, NodeStats>>,
)
    requires
        is_pass(root, before, after, score, reward, nodes, path, states, stores),
        root.terminal_reward() is None,
        child_keys_are_alone(root),
    ensures
        results_below(after, root, root.children().len() as int) == results_below(
            before,
            root,
            root.children().len() as int,
        ) + 1,
{
    let children = root.children();
    assert(nodes.len() >= 2);
    assert(is_walk(nodes));
    assert(nodes[0].children().contains(nodes[1]));
    let chosen = choose|a: int| 0 <= a < children.len() && children[a] == nodes[1];
    assert(is_walk_step(score, nodes, simulated_in(path), states, stores, 0));
    assert(!path[1].simulated);
    assert(path[0].key == key_of(nodes[0]));
    assert(path[1].key == key_of(children[chosen]));
    assert forall|a: int| 0 <= a < children.len() implies after.recorded_results(
        key_of(#[trigger] children[a]),
    ) == before.recorded_results(key_of(children[a])) + if a == chosen {
        1nat
    } else {
        0nat
    } by {
        let key = key_of(children[a]);
        if a == chosen {
            assert forall|j: int| 0 <= j < path.len() && j != 1 implies (#[trigger] path[j]).simulated
                || path[j].key != path[1].key by {
                if j >= 2 {
                    assert(key_of(nodes[j]) != key_of(children[chosen]));
                }
            }
            lemma_recorded_once(stores.last(), path, reward, 1);
        } else {
            assert forall|j: int| 0 <= j < path.len() implies (#[trigger] path[j]).simulated
                || path[j].key != key by {
                if j >= 2 {
                    assert(key_of(nodes[j]) != key_of(children[a]));
                } else if j == 1 {
                    assert(key_of(children[chosen]) != key_of(children[a]));
                }
            }
            lemma_no_record(path, key);
        }
    }
    lemma_results_below_one_more(before, after, root, chosen, children.len() as int);
}

/// Where every node with moves left is marked, it is still marked in a
/// store that marks the same nodes.
pub proof fn lemma_marked_stays<N: GameTreeNode>(
    before: Map<u64, NodeStats>,
    after: Map<u64, NodeStats>,
    root: N,
)
    requires
        all_inner_marked(before, root),
        same_marks(before, after),
    ensures
        all_inner_marked(after, root),
{
    assert forall|nodes: Seq<N>, i: int|
        #![trigger is_walk(nodes), nodes[i]]
        nodes.len() > 0 && nodes[0] == root && is_walk(nodes) && 0 <= i < nodes.len()
            && nodes[i].terminal_reward() is None implies stats_at(
        after,
        key_of(nodes[i]),
    ).fully_expanded by {
        assert(stats_at(before, key_of(nodes[i])).fully_expanded);
    }
}

/// A walk marks a node as fully expanded only where it passes the node
/// and finds a result for every child of it: a key that `stores[upto]`
/// marks and the store before the walk did not is the key of such a node.
/// This holds of a walk that is given up as of one that reaches the end
/// of a game.
pub proof fn lemma_walk_marks_need_results<N: GameTreeNode, S: Fn(u32, i64, u32) -> u64>(
    score: &S,
    before: Map<u64, NodeStats>,
    after: Map<u64, NodeStats>,
    root: N,
    nodes: Seq<N>,
    simulated: Seq<bool>,
    states: Seq<State>,
    stores: Seq<Map<u64, NodeStats>>,
    upto: int,
    key: u64,
)
    requires
        is_ruled_walk(score, before, after, root, nodes, simulated, states, stores),
        0 <= upto < nodes.len(),
        !stats_at(before, key).fully_expanded,
        stats_at(stores[upto], key).fully_expanded,
    ensures
        exists|i: int|
            0 <= i < upto && key == key_of(#[trigger] nodes[i]) && all_visited(
                stats_among(stores[i], keys_of(nodes[i].children())),
            ),
    decreases upto,
{
    if upto > 0 {
        if stats_at(stores[upto - 1], key).fully_expanded {
            lemma_walk_marks_need_results(
                score,
                before,
                after,
                root,
                nodes,
                simulated,
                states,
                stores,
                upto - 1,
                key,
            );
            let i = choose|i: int|
                0 <= i < upto - 1 && key == key_of(#[trigger] nodes[i]) && all_visited(
                    stats_among(stores[i], keys_of(nodes[i].children())),
                );
            assert(0 <= i < upto && key == key_of(nodes[i]));
        } else {
            assert(is_walk_step(score, nodes, simulated, states, stores, upto - 1));
            lemma_mark_needs_results(
                stores[upto - 1],
                stores[upto],
                nodes[upto - 1],
                states[upto - 1],
                score,
                Descent::Onward {
                    child: nodes[upto],
                    state: states[upto],
                    simulated: simulated[upto],
                },
                key,
            );
            assert(key == key_of(nodes[upto - 1]));
        }
    }
}

/// A walk leaves alone what it does not pass: a key that is neither the
/// key of a node of the walk nor of a child of one has after the walk the
/// entry that it had before, or none as before.
pub proof fn lemma_walk_leaves_other_keys<N: GameTreeNode, S: Fn(u32, i64, u32) -> u64>(
    score: &S,
    before: Map<u64, NodeStats>,
    after: Map<u64, NodeStats>,
    root: N,
    nodes: Seq<N>,
    simulated: Seq<bool>,
    states: Seq<State>,
    stores: Seq<Map<u64, NodeStats>>,
    upto: int,
    key: u64,
)
    requires
        is_ruled_walk(score, before, after, root, nodes, simulated, states, stores),
        0 <= upto < nodes.len(),
        forall|i: int|
            0 <= i < nodes.len() ==> key != key_of(#[trigger] nodes[i]) && !keys_of(
                nodes[i].children(),
            ).contains(key),
    ensures
        stores[upto].contains_key(key) == before.contains_key(key),
        stats_at(stores[upto], key) == stats_at(before, key),
    decreases upto,
{
    if upto > 0 {
        lemma_walk_leaves_other_keys(
            score,
            before,
            after,
            root,
            nodes,
            simulated,
            states,
            stores,
            upto - 1,
            key,
        );
        assert(is_walk_step(score, nodes, simulated, states, stores, upto - 1));
        assert(key != key_of(nodes[upto - 1]) && !keys_of(nodes[upto - 1].children()).contains(
            key,
        ));
        assert(stores[upto].contains_key(key) <==> stores[upto - 1].contains_key(key) || key
            == key_of(nodes[upto - 1]) || keys_of(nodes[upto - 1].children()).contains(key));
    } else {
        assert(key != key_of(nodes[0]));
    }
}

/// The same for a pass: a node that the pass marks as fully expanded is a
/// node of its walk, and every child of it had a result when the walk got
/// there.
pub proof fn lemma_pass_marks_need_results<N: GameTreeNode, S: Fn(u32, i64, u32) -> u64>(
    root: N,
    before: SearchTree,
    after: SearchTree,
    score: &S,
    reward: i64,
    nodes: Seq<N>,
    path: Seq<PathEntry>,
    states: Seq<State>,
    stores: Seq<Map<u64, NodeStats>>,
    key: u64,
)
    requires
        is_pass(root, before, after, score, reward, nodes, path, states, stores),
        !stats_at(before@, key).fully_expanded,
        stats_at(after@, key).fully_expanded,
    ensures
        exists|i: int|
            0 <= i < nodes.len() - 1 && key == key_of(#[trigger] nodes[i]) && all_visited(
                stats_among(stores[i], keys_of(nodes[i].children())),
            ),
{
    lemma_backpropagated_marks(stores.last(), path, reward);
    assert(stats_at(stores.last(), key).fully_expanded == stats_at(after@, key).fully_expanded);
    lemma_walk_marks_need_results(
        score,
        before@,
        stores.last(),
        root,
        nodes,
        simulated_in(path),
        states,
        stores,
        nodes.len() - 1,
        key,
    );
}

/// A pass leaves alone what it does not pass: a key that is neither the
/// key of a node of its walk nor of a child of one has after the pass the
/// entry that it had before, or none as before.
pub proof fn lemma_pass_leaves_other_keys<N: GameTreeNode, S: Fn(u32, i64, u32) -> u64>(
    root: N,
    before: SearchTree,
    after: SearchTree,
    score: &S,
    reward: i64,
    nodes: Seq<N>,
    path: Seq<PathEntry>,
    states: Seq<State>,
    stores: Seq<Map<u64, NodeStats>>,
    key: u64,
)
    requires
        is_pass(root, before, after, score, reward, nodes, path, states, stores),
        forall|i: int|
            0 <= i < nodes.len() ==> key != key_of(#[trigger] nodes[i]) && !keys_of(
                nodes[i].children(),
            ).contains(key),
    ensures
        after@.contains_key(key) == before@.contains_key(key),
        stats_at(after@, key) == stats_at(before@, key),
        after.recorded_results(key) == before.recorded_results(key),
{
    lemma_walk_leaves_other_keys(
        score,
        before@,
        stores.last(),
        root,
        nodes,
        simulated_in(path),
        states,
        stores,
        nodes.len() - 1,
        key,
    );
    assert forall|j: int| 0 <= j < path.len() implies (#[trigger] path[j]).simulated || path[j].key
        != key by {
        assert(key != key_of(nodes[j]));
    }
    lemma_no_record(path, key);
    lemma_backpropagated_keeps(stores.last(), path, reward);
}

} // verus!
