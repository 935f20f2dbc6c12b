//! The search tree: the statistics of every node met so far, under the
//! node's key, and the questions that can be asked of them.

use crate::game_tree_node::GameTreeNode;
use crate::game_tree_node::NodeState;
use crate::hashing::hash;
use crate::hashing::key_of;
use crate::node_metadata::NodeMetadata;
use crate::node_metadata::NodeStats;
use crate::selection::first_max_index;
use crate::selection::is_first_max;
use crate::selection::lemma_first_max_is_unique;
use crate::store::empty_store;
use crate::store::entries;
use crate::store::lookup;
use crate::store::lookup_or_create;
use crate::store::replace;
use ccl::dashmap::DashMap;
use vstd::prelude::*;

verus! {

/// The statistics under `key`: those of a node of which nothing is known
/// where the store has none.
pub open spec fn stats_at(store: Map<u64, NodeStats>, key: u64) -> NodeStats {
    if store.contains_key(key) {
        store[key]
    } else {
        NodeStats::zero()
    }
}

/// The store once `key` has an entry.
pub open spec fn created_at(store: Map<u64, NodeStats>, key: u64) -> Map<u64, NodeStats> {
    if store.contains_key(key) {
        store
    } else {
        store.insert(key, NodeStats::zero())
    }
}

/// The store after a result for `key`.
pub open spec fn recorded_at(store: Map<u64, NodeStats>, key: u64, reward: i64) -> Map<
    u64,
    NodeStats,
> {
    store.insert(key, stats_at(store, key).recorded(reward))
}

/// The store after the node under `key` was found fully expanded.
pub open spec fn expanded_at(store: Map<u64, NodeStats>, key: u64) -> Map<u64, NodeStats> {
    store.insert(key, stats_at(store, key).expanded())
}

/// `after` knows every node that `before` knows, with the same counters,
/// and no flag is lost. Whatever is new in `after` has no result yet.
pub open spec fn grown(before: Map<u64, NodeStats>, after: Map<u64, NodeStats>) -> bool {
    forall|key: u64|
        #![trigger before.contains_key(key)]
        #![trigger after.contains_key(key)]
        {
            &&& before.contains_key(key) ==> after.contains_key(key)
            &&& after.contains_key(key) ==> {
                &&& after[key].visits == stats_at(before, key).visits
                &&& after[key].total_reward == stats_at(before, key).total_reward
                &&& after[key].visited == stats_at(before, key).visited
                &&& stats_at(before, key).fully_expanded ==> after[key].fully_expanded
            }
        }
}

/// `after` knows every node that `before` knows, and no flag is lost.
pub open spec fn kept(before: Map<u64, NodeStats>, after: Map<u64, NodeStats>) -> bool {
    forall|key: u64|
        #![trigger before.contains_key(key)]
        #![trigger after.contains_key(key)]
        before.contains_key(key) ==> after.contains_key(key) && before[key].flags_kept_in(
            after[key],
        )
}

/// Both stores mark the same nodes as fully expanded.
pub open spec fn same_marks(before: Map<u64, NodeStats>, after: Map<u64, NodeStats>) -> bool {
    forall|key: u64|
        #![trigger stats_at(before, key)]
        #![trigger stats_at(after, key)]
        stats_at(after, key).fully_expanded == stats_at(before, key).fully_expanded
}

/// The counts of visits of a sequence of nodes.
pub open spec fn visits_of<N: GameTreeNode>(store: Map<u64, NodeStats>, nodes: Seq<N>) -> Seq<u64> {
    Seq::new(nodes.len(), |j: int| stats_at(store, key_of(nodes[j])).visits as u64)
}

/// The number of nodes that a walk from `node` counts: the walk counts a
/// node that is marked fully expanded and goes on to each of its children,
/// and it neither counts nor passes any other node. A node that several
/// paths lead to is counted once for each.
pub open spec fn expanded_count<N: GameTreeNode>(store: Map<u64, NodeStats>, node: N) -> nat
    decreases node.plies_left(), 1nat, 0nat,
{
    if !stats_at(store, key_of(node)).fully_expanded {
        0
    } else if node.terminal_reward() is Some {
        1
    } else {
        1 + expanded_count_among(store, node, node.children().len())
    }
}

/// The number of nodes that the walk counts below the first `upto`
/// children of `parent`. A child that is no closer to the end of the game
/// than its parent, which no game has, counts for nothing.
pub open spec fn expanded_count_among<N: GameTreeNode>(
    store: Map<u64, NodeStats>,
    parent: N,
    upto: nat,
) -> nat
    decreases parent.plies_left(), 0nat, upto,
{
    if upto == 0 {
        0
    } else {
        let child = parent.children()[upto - 1];
        expanded_count_among(store, parent, (upto - 1) as nat) + if child.plies_left()
            < parent.plies_left() {
            expanded_count(store, child)
        } else {
            0
        }
    }
}

/// A count as far as 64 bits hold it.
pub open spec fn saturated(count: nat) -> u64 {
    if count > u64::MAX {
        u64::MAX
    } else {
        count as u64
    }
}

/// The number of values that a count of visits can take.
pub open spec fn visits_range() -> nat {
    0x1_0000_0000
}

/// The statistics of the nodes met so far, each under the key of its node.
/// Beside them the tree keeps count, for the proofs alone, of the results
/// recorded under each key: that count never wraps around.
#[allow(deprecated)]
pub struct SearchTree {
    node_metadata: DashMap<u64, NodeMetadata>,
    recorded: Ghost<Map<u64, nat>>,
}

impl View for SearchTree {
    type V = Map<u64, NodeStats>;

    /// The statistics under each key. The count of results that the tree
    /// keeps beside them is told by `recorded_results`.
    closed spec fn view(&self) -> Map<u64, NodeStats> {
        Map::new(
            |key: u64| entries(self.node_metadata).contains_key(key),
            |key: u64| entries(self.node_metadata)[key]@,
        )
    }
}

impl SearchTree {
    /// The number of results ever recorded under `key`.
    pub closed spec fn recorded_results(&self, key: u64) -> nat {
        if self.recorded@.contains_key(key) {
            self.recorded@[key]
        } else {
            0
        }
    }

    /// The count of visits under each key is the number of results
    /// recorded under it, up to wrapping around, and a key has the flag
    /// `visited` exactly if a result was recorded under it.
    pub closed spec fn wf(&self) -> bool {
        forall|key: u64|
            {
                &&& (#[trigger] stats_at(self@, key)).visits == self.recorded_results(key)
                    % visits_range()
                &&& stats_at(self@, key).visited <==> self.recorded_results(key) > 0
            }
    }

    /// A tree that knows no node.
    pub fn new() -> (tree: SearchTree)
        ensures
            tree.wf(),
            forall|key: u64| !tree@.contains_key(key),
            forall|key: u64| tree.recorded_results(key) == 0,
    {
        SearchTree { node_metadata: empty_store(), recorded: Ghost(Map::empty()) }
    }

    /// The statistics under `key`, which get an entry if they had none.
    pub fn load_metadata(&mut self, key: u64) -> (metadata: NodeMetadata)
        requires
            old(self).wf(),
        ensures
            final(self).wf(),
            final(self)@ == created_at(old(self)@, key),
            metadata@ == stats_at(old(self)@, key),
            forall|other: u64| final(self).recorded_results(other) == old(self).recorded_results(other),
    {
        let metadata = lookup_or_create(&mut self.node_metadata, key);
        assert(self@ =~= created_at(old(self)@, key));
        assert forall|other: u64| #[trigger] stats_at(self@, other) == stats_at(old(self)@, other) by {}
        metadata
    }

    /// Records one result under `key`.
    pub fn record_result(&mut self, key: u64, reward: i64)
        requires
            old(self).wf(),
        ensures
            final(self).wf(),
            final(self)@ == recorded_at(old(self)@, key, reward),
            final(self).recorded_results(key) == old(self).recorded_results(key) + 1,
            forall|other: u64|
                other != key ==> final(self).recorded_results(other) == old(self).recorded_results(
                    other,
                ),
    {
        let mut metadata = lookup_or_create(&mut self.node_metadata, key);
        metadata.record_result(reward);
        replace(&mut self.node_metadata, key, metadata);
        proof {
            let count = self.recorded_results(key);
            self.recorded@ = self.recorded@.insert(key, count + 1);
            assert(self@ =~= recorded_at(old(self)@, key, reward));
            assert forall|other: u64|
                {
                    &&& (#[trigger] stats_at(self@, other)).visits == self.recorded_results(other)
                        % visits_range()
                    &&& stats_at(self@, other).visited <==> self.recorded_results(other) > 0
                } by {
                assert(stats_at(old(self)@, other).visits == old(self).recorded_results(other)
                    % visits_range());
            }
        }
    }

    /// Marks the node under `key` as fully expanded.
    pub fn set_fully_expanded(&mut self, key: u64)
        requires
            old(self).wf(),
        ensures
            final(self).wf(),
            final(self)@ == expanded_at(old(self)@, key),
            forall|other: u64| final(self).recorded_results(other) == old(self).recorded_results(other),
    {
        let mut metadata = lookup_or_create(&mut self.node_metadata, key);
        metadata.set_fully_expanded();
        replace(&mut self.node_metadata, key, metadata);
        proof {
            assert(self@ =~= expanded_at(old(self)@, key));
            assert forall|other: u64|
                {
                    &&& (#[trigger] stats_at(self@, other)).visits == self.recorded_results(other)
                        % visits_range()
                    &&& stats_at(self@, other).visited <==> self.recorded_results(other) > 0
                } by {
                assert(stats_at(old(self)@, other).visits == old(self).recorded_results(other)
                    % visits_range());
            }
        }
    }

    /// The statistics under `key`, if there are any.
    pub fn metadata(&self, key: u64) -> (found: Option<NodeMetadata>)
        ensures
            found is Some <==> self@.contains_key(key),
            found is Some ==> found->0@ == self@[key],
    {
        lookup(&self.node_metadata, key)
    }

    /// The number of visits recorded for `node`, which is 0 for a node
    /// that the tree does not know.
    pub fn get_number_of_visits<N: GameTreeNode>(&self, node: &N) -> (visits: u32)
        ensures
            visits == stats_at(self@, key_of(*node)).visits,
    {
        match self.metadata(hash(node)) {
            Some(metadata) => metadata.number_of_visits(),
            None => 0,
        }
    }
}

impl SearchTree {
    /// The number of fully expanded nodes that can be reached from `node`
    /// through fully expanded nodes alone, as far as 64 bits hold it.
    pub fn number_of_fully_expanded_nodes<N: GameTreeNode>(&self, node: N) -> (count: u64)
        ensures
            count == saturated(expanded_count(self@, node)),
    {
        self.count_fully_expanded(&node)
    }

    /// The same count, for a node that is not given away.
    pub(crate) fn count_fully_expanded<N: GameTreeNode>(&self, node: &N) -> (count: u64)
        ensures
            count == saturated(expanded_count(self@, *node)),
        decreases node.plies_left(),
    {
        let is_fully_expanded = match self.metadata(hash(node)) {
            Some(metadata) => metadata.is_fully_expanded(),
            None => false,
        };
        if !is_fully_expanded {
            return 0;
        }
        let mut count: u64 = 1;
        match node.calculate_state() {
            NodeState::HasChildren(children) => {
                let mut i: usize = 0;
                while i < children.len()
                    invariant
                        i <= children.len(),
                        children@ == node.children(),
                        forall|j: int|
                            0 <= j < children.len() ==> (#[trigger] children[j]).plies_left()
                                < node.plies_left(),
                        count == saturated(1 + expanded_count_among(self@, *node, i as nat)),
                    decreases children.len() - i,
                {
                    let below = self.count_fully_expanded(&children[i]);
                    count = count.saturating_add(below);
                    i = i + 1;
                }
            },
            NodeState::Reward(_) => {},
        }
        count
    }

    /// The child with the most visits, and that number: the first of them
    /// where several have as many.
    pub fn select_most_visited_child<N: GameTreeNode>(&self, children: Vec<N>) -> (chosen: (u32, N))
        requires
            children.len() > 0,
        ensures
            exists|index: int|
                {
                    &&& #[trigger] is_first_max(visits_of(self@, children@), index)
                    &&& chosen.1 == children[index]
                    &&& chosen.0 == stats_at(self@, key_of(children[index])).visits
                },
    {
        let mut counts: Vec<u32> = Vec::new();
        let mut values: Vec<u64> = Vec::new();
        let mut i: usize = 0;
        while i < children.len()
            invariant
                i <= children.len(),
                counts.len() == i,
                values@ == visits_of(self@, children@.take(i as int)),
                forall|j: int|
                    0 <= j < i ==> counts[j] == stats_at(self@, key_of(children[j])).visits,
            decreases children.len() - i,
        {
            let visits = self.get_number_of_visits(&children[i]);
            counts.push(visits);
            values.push(visits as u64);
            i = i + 1;
            assert(values@ =~= visits_of(self@, children@.take(i as int)));
        }
        assert(children@.take(children.len() as int) =~= children@);
        let index = first_max_index(&values);
        let mut children = children;
        let child = children.remove(index);
        (counts[index], child)
    }
}

/// The count of visits that the tree reports is the number of results
/// recorded for the node, up to wrapping around, so it never falls while
/// that number stays in range.
pub proof fn lemma_visits_count_results(tree: SearchTree, key: u64)
    requires
        tree.wf(),
    ensures
        stats_at(tree@, key).visits == tree.recorded_results(key) % visits_range(),
        tree.recorded_results(key) < visits_range() ==> stats_at(tree@, key).visits
            == tree.recorded_results(key),
        stats_at(tree@, key).visited <==> tree.recorded_results(key) > 0,
{
    assert(stats_at(tree@, key).visits == tree.recorded_results(key) % visits_range());
}

/// Monotonicity of the store: creating an entry, recording a result and
/// marking a node fully expanded lose no node and no flag.
pub proof fn lemma_updates_keep(store: Map<u64, NodeStats>, key: u64, reward: i64)
    ensures
        grown(store, created_at(store, key)),
        grown(store, expanded_at(store, key)),
        kept(store, created_at(store, key)),
        kept(store, expanded_at(store, key)),
        kept(store, recorded_at(store, key, reward)),
{
}

/// Which child has the most visits is decided by the counts of visits of
/// the children alone: two stores that agree on them choose alike.
pub proof fn lemma_most_visited_depends_on_visits<N: GameTreeNode>(
    first: Map<u64, NodeStats>,
    second: Map<u64, NodeStats>,
    children: Seq<N>,
    in_first: int,
    in_second: int,
)
    requires
        forall|j: int|
            0 <= j < children.len() ==> stats_at(first, key_of(#[trigger] children[j])).visits
                == stats_at(second, key_of(children[j])).visits,
        is_first_max(visits_of(first, children), in_first),
        is_first_max(visits_of(second, children), in_second),
    ensures
        in_first == in_second,
{
    assert(visits_of(first, children) =~= visits_of(second, children));
    lemma_first_max_is_unique(visits_of(first, children), in_first, in_second);
}

/// The number of fully expanded nodes that a walk counts never falls
/// while no node loses the mark.
pub proof fn lemma_expanded_count_never_falls<N: GameTreeNode>(
    before: Map<u64, NodeStats>,
    after: Map<u64, NodeStats>,
    node: N,
)
    requires
        kept(before, after),
    ensures
        expanded_count(before, node) <= expanded_count(after, node),
    decreases node.plies_left(), 1nat, 0nat,
{
    let key = key_of(node);
    if stats_at(before, key).fully_expanded {
        assert(before.contains_key(key));
        assert(after.contains_key(key));
        assert(before[key].flags_kept_in(after[key]));
        if node.terminal_reward() is None {
            lemma_expanded_count_among_never_falls(before, after, node, node.children().len());
        }
    }
}

/// The same, for the nodes below the first `upto` children of `parent`.
pub proof fn lemma_expanded_count_among_never_falls<N: GameTreeNode>(
    before: Map<u64, NodeStats>,
    after: Map<u64, NodeStats>,
    parent: N,
    upto: nat,
)
    requires
        kept(before, after),
    ensures
        expanded_count_among(before, parent, upto) <= expanded_count_among(after, parent, upto),
    decreases parent.plies_left(), 0nat, upto,
{
    if upto > 0 {
        lemma_expanded_count_among_never_falls(before, after, parent, (upto - 1) as nat);
        let child = parent.children()[upto - 1];
        if child.plies_left() < parent.plies_left() {
            lemma_expanded_count_never_falls(before, after, child);
        }
    }
}

/// Growing is transitive.
pub proof fn lemma_grown_twice(
    first: Map<u64, NodeStats>,
    second: Map<u64, NodeStats>,
    third: Map<u64, NodeStats>,
)
    requires
        grown(first, second),
        grown(second, third),
    ensures
        grown(first, third),
{
    assert forall|key: u64|
        {
            &&& first.contains_key(key) ==> third.contains_key(key)
            &&& third.contains_key(key) ==> {
                &&& third[key].visits == stats_at(first, key).visits
                &&& third[key].total_reward == stats_at(first, key).total_reward
                &&& third[key].visited == stats_at(first, key).visited
                &&& stats_at(first, key).fully_expanded ==> third[key].fully_expanded
            }
        } by {
        assert(first.contains_key(key) ==> second.contains_key(key));
        assert(second.contains_key(key) ==> third.contains_key(key));
    }
}

/// Keeping is transitive.
pub proof fn lemma_kept_twice(
    first: Map<u64, NodeStats>,
    second: Map<u64, NodeStats>,
    third: Map<u64, NodeStats>,
)
    requires
        kept(first, second),
        kept(second, third),
    ensures
        kept(first, third),
{
    assert forall|key: u64| first.contains_key(key) implies third.contains_key(key)
        && first[key].flags_kept_in(third[key]) by {
        assert(second.contains_key(key));
        assert(first[key].flags_kept_in(second[key]));
        assert(third.contains_key(key));
        assert(second[key].flags_kept_in(third[key]));
    }
}

/// Whatever has grown has kept what it had.
pub proof fn lemma_grown_is_kept(before: Map<u64, NodeStats>, after: Map<u64, NodeStats>)
    requires
        grown(before, after),
    ensures
        kept(before, after),
{
    assert forall|key: u64| before.contains_key(key) implies after.contains_key(key)
        && before[key].flags_kept_in(after[key]) by {
        assert(after.contains_key(key));
        assert(after[key].visited == stats_at(before, key).visited);
    }
}

/// The number of fully expanded nodes that a walk counts stays while the
/// same nodes are marked.
pub proof fn lemma_expanded_count_stays<N: GameTreeNode>(
    before: Map<u64, NodeStats>,
    after: Map<u64, NodeStats>,
    node: N,
)
    requires
        same_marks(before, after),
    ensures
        expanded_count(before, node) == expanded_count(after, node),
    decreases node.plies_left(), 1nat, 0nat,
{
    let key = key_of(node);
    assert(stats_at(after, key).fully_expanded == stats_at(before, key).fully_expanded);
    if stats_at(before, key).fully_expanded && node.terminal_reward() is None {
        lemma_expanded_count_among_stays(before, after, node, node.children().len());
    }
}

/// The same, for the nodes below the first `upto` children of `parent`.
pub proof fn lemma_expanded_count_among_stays<N: GameTreeNode>(
    before: Map<u64, NodeStats>,
    after: Map<u64, NodeStats>,
    parent: N,
    upto: nat,
)
    requires
        same_marks(before, after),
    ensures
        expanded_count_among(before, parent, upto) == expanded_count_among(after, parent, upto),
    decreases parent.plies_left(), 0nat, upto,
{
    if upto > 0 {
        lemma_expanded_count_among_stays(before, after, parent, (upto - 1) as nat);
        let child = parent.children()[upto - 1];
        if child.plies_left() < parent.plies_left() {
            lemma_expanded_count_stays(before, after, child);
        }
    }
}

} // verus!
