//! Ways to choose the next move of a game: at random, or by searching the
//! game tree first.

use crate::chance::choose_child;
use crate::chance::thread_rng;
use crate::clock::is_expired;
use crate::clock::may_say;
use crate::clock::seconds;
use crate::game_tree_node::GameTreeNode;
use crate::hashing::key_of;
use crate::search::is_search;
use crate::search_config::SearchConfig;
use crate::search_tree::created_at;
use crate::search_tree::expanded_count;
use crate::search_tree::kept;
use crate::search_tree::saturated;
use crate::search_tree::visits_of;
use crate::search_tree::SearchTree;
use crate::selection::is_first_max;
use std::time::Duration;
use std::time::Instant;
use vstd::pervasive::unreached;
use vstd::prelude::*;

verus! {

/// A way to choose among the children of a node.
pub trait Strategy<N: GameTreeNode> {
    /// What has to hold of the strategy between two choices. Nothing,
    /// unless a strategy says otherwise.
    open spec fn inv(&self) -> bool {
        true
    }

    /// One of `children`, which are the children of `parent`.
    fn select_child(&mut self, parent: N, children: Vec<N>) -> (chosen: N)
        requires
            old(self).inv(),
            children.len() > 0,
        ensures
            final(self).inv(),
            exists|index: int| 0 <= index < children.len() && chosen == #[trigger] children[index],
    ;
}

/// Chooses any child, at random.
#[derive(Debug, Clone, Copy)]
pub struct RandomStrategy;

impl<N: GameTreeNode> Strategy<N> for RandomStrategy {
    /// Any of `children`, whatever `parent` is.
    fn select_child(&mut self, parent: N, children: Vec<N>) -> (chosen: N) {
        let mut rng = thread_rng();
        let ghost all = children@;
        match choose_child(children, &mut rng) {
            Some(child) => {
                proof {
                    let index = choose|index: int| 0 <= index < all.len() && all[index] == child;
                    assert(child == all[index]);
                }
                child
            },
            None => unreached(),
        }
    }
}

/// Searches the game tree from the node at hand, for a fixed number of
/// passes and five seconds at most, and chooses the child with the most
/// visits. What one search learns stays in the tree for the next.
pub struct LearningSearchTreeStrategy<N, S> {
    tree: SearchTree,
    root: N,
    iterations_per_select: u64,
    score: S,
}

impl<N: GameTreeNode, S: Fn(u32, i64, u32) -> u64> LearningSearchTreeStrategy<N, S> {
    /// The tree that the strategy has built so far.
    pub closed spec fn tree(&self) -> SearchTree {
        self.tree
    }

    /// The node from which the strategy was started.
    pub closed spec fn root(&self) -> N {
        self.root
    }

    /// The cap on the passes of one search.
    pub closed spec fn iterations_per_select(&self) -> u64 {
        self.iterations_per_select
    }

    /// The function that gives a child its score.
    pub closed spec fn score(&self) -> S {
        self.score
    }

    /// The tree is well formed, and the scores can be asked for any
    /// statistics.
    pub closed spec fn wf(&self) -> bool {
        &&& self.tree.wf()
        &&& forall|visits: u32, total_reward: i64, parent_visits: u32|
            call_requires(&self.score, (visits, total_reward, parent_visits))
    }

    /// A strategy that has seen nothing yet. `score` gives a child its
    /// score, from the child's visits and total reward and its parent's
    /// visits.
    pub fn new(root: N, iterations_per_select: u64, score: S) -> (strategy: Self)
        requires
            forall|visits: u32, total_reward: i64, parent_visits: u32|
                call_requires(&score, (visits, total_reward, parent_visits)),
        ensures
            strategy.wf(),
            strategy.root() == root,
            strategy.iterations_per_select() == iterations_per_select,
            strategy.score() == score,
            forall|key: u64| !strategy.tree()@.contains_key(key),
            forall|key: u64| strategy.tree().recorded_results(key) == 0,
    {
        LearningSearchTreeStrategy { tree: SearchTree::new(), root, iterations_per_select, score }
    }

    /// The number of fully expanded nodes that can be reached from the
    /// root through fully expanded nodes alone.
    pub fn number_of_fully_expanded_nodes(&self) -> (count: u64)
        ensures
            count == saturated(expanded_count(self.tree()@, self.root())),
    {
        self.tree.count_fully_expanded(&self.root)
    }

    /// Searches from `parent` until `expired` says that the time is up or
    /// the passes exceed the cap, and returns the child with the most
    /// visits, the first of them where several have as many.
    ///
    /// What the tree knew before, it knows afterwards: no node and no flag
    /// is lost, no count of recorded results falls, and the strategy
    /// searches next time as it did this time. Where `expired` cannot say
    /// that the time is up, the search runs to its cap; where it cannot
    /// say that there is time left, the search does no more than make
    /// `parent` known.
    pub fn select_child_until<C: Fn() -> bool>(
        &mut self,
        parent: N,
        children: Vec<N>,
        expired: &C,
    ) -> (chosen: N)
        requires
            old(self).wf(),
            children.len() > 0,
            call_requires(expired, ()),
        ensures
            final(self).wf(),
            final(self).root() == old(self).root(),
            final(self).iterations_per_select() == old(self).iterations_per_select(),
            final(self).score() == old(self).score(),
            kept(old(self).tree()@, final(self).tree()@),
            forall|key: u64|
                old(self).tree().recorded_results(key) <= final(self).tree().recorded_results(key),
            !call_ensures(expired, (), true) ==> final(self).tree().recorded_results(key_of(parent))
                >= old(self).tree().recorded_results(key_of(parent)) + passes_owed(
                old(self).iterations_per_select(),
            ),
            !call_ensures(expired, (), false) ==> final(self).tree()@ == created_at(
                old(self).tree()@,
                key_of(parent),
            ),
            exists|completed: nat, trees: Seq<SearchTree>|
                is_search(
                    parent,
                    old(self).tree(),
                    final(self).tree(),
                    &old(self).score(),
                    old(self).iterations_per_select(),
                    completed,
                    trees,
                ),
            exists|index: int|
                #[trigger] is_first_max(visits_of(final(self).tree()@, children@), index)
                    && chosen == children[index],
    {
        let config = SearchConfig {
            max_duration: Duration::from_secs(5),
            max_iterations: self.iterations_per_select,
        };
        let ghost before = self.tree;
        let completed = self.tree.search_until(parent, config, expired, &self.score);
        proof {
            let trees = choose|trees: Seq<SearchTree>|
                is_search(
                    parent,
                    before,
                    self.tree,
                    &self.score,
                    config.max_iterations,
                    completed as nat,
                    trees,
                );
            assert(is_search(
                parent,
                old(self).tree(),
                self.tree(),
                &old(self).score(),
                old(self).iterations_per_select(),
                completed as nat,
                trees,
            ));
        }
        let ghost offered = children@;
        let found = self.tree.select_most_visited_child(children);
        proof {
            let index = choose|index: int|
                {
                    &&& #[trigger] is_first_max(visits_of(self.tree@, offered), index)
                    &&& found.1 == offered[index]
                };
            assert(is_first_max(visits_of(self.tree()@, offered), index));
        }
        found.1
    }
}

/// The number of passes that a search with the cap `cap` completes if it
/// does not run out of time: one more than the cap, as far as 64 bits
/// count.
pub open spec fn passes_owed(cap: u64) -> nat {
    if cap < u64::MAX {
        (cap + 1) as nat
    } else {
        u64::MAX as nat
    }
}

impl<N: GameTreeNode, S: Fn(u32, i64, u32) -> u64> Strategy<N> for LearningSearchTreeStrategy<
    N,
    S,
> {
    /// The strategy is well formed.
    open spec fn inv(&self) -> bool {
        self.wf()
    }

    /// `select_child_until`, with a clock that says that the time is up
    /// five seconds after the call. So the search stops short of its cap
    /// only where some span of time is longer than five seconds.
    fn select_child(&mut self, parent: N, children: Vec<N>) -> (chosen: N)
        ensures
            final(self).tree().recorded_results(key_of(parent)) < old(
                self,
            ).tree().recorded_results(key_of(parent)) + passes_owed(
                old(self).iterations_per_select(),
            ) ==> may_say(seconds(5), true),
            !may_say(seconds(5), false) ==> final(self).tree()@ == created_at(
                old(self).tree()@,
                key_of(parent),
            ),
            final(self).root() == old(self).root(),
            final(self).iterations_per_select() == old(self).iterations_per_select(),
            final(self).score() == old(self).score(),
            kept(old(self).tree()@, final(self).tree()@),
            forall|key: u64|
                old(self).tree().recorded_results(key) <= final(self).tree().recorded_results(key),
            exists|completed: nat, trees: Seq<SearchTree>|
                is_search(
                    parent,
                    old(self).tree(),
                    final(self).tree(),
                    &old(self).score(),
                    old(self).iterations_per_select(),
                    completed,
                    trees,
                ),
            exists|index: int|
                #[trigger] is_first_max(visits_of(final(self).tree()@, children@), index)
                    && chosen == children[index],
    {
        let start = Instant::now();
        let limit = Duration::from_secs(5);
        let expired = || -> (verdict: bool)
            ensures
                may_say(limit, verdict),
            { is_expired(&start, &limit) };
        self.select_child_until(parent, children, &expired)
    }
}

} // verus!
