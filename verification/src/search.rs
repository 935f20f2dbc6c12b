//! A search: passes from one root, one after the other, until the budget
//! is spent.

use crate::chance::thread_rng;
use crate::backpropagation::lemma_recorded_once;
use crate::backpropagation::signed_reward;
use crate::backpropagation::PathEntry;
use crate::descent::all_inner_marked;
use crate::descent::child_keys_are_alone;
use crate::descent::lemma_marked_stays;
use crate::descent::is_completed;
use crate::descent::is_given_up;
use crate::descent::is_pass;
use crate::descent::lemma_one_child_is_recorded;
use crate::descent::lemma_results_below_same;
use crate::descent::results_below;
use crate::descent::key_is_alone;
use crate::descent::lemma_root_is_recorded_once;
use crate::descent::lemma_pass_keeps;
use crate::game_tree_node::GameTreeNode;
use crate::hashing::key_of;
use crate::node_metadata::NodeStats;
use crate::search_config::SearchConfig;
use crate::clock::is_expired;
use crate::clock::may_say;
use crate::search_tree::created_at;
use crate::search_tree::grown;
use crate::search_tree::kept;
use crate::search_tree::same_marks;
use crate::search_tree::lemma_grown_is_kept;
use crate::search_tree::lemma_kept_twice;
use crate::search_tree::stats_at;
use crate::selection::State;
use crate::search_tree::SearchTree;
use std::time::Instant;
use vstd::prelude::*;

verus! {

/// Some pass from `root` leads from `before` to `after`.
pub open spec fn completes<N: GameTreeNode, S: Fn(u32, i64, u32) -> u64>(
    root: N,
    before: SearchTree,
    after: SearchTree,
    score: &S,
) -> bool {
    exists|reward: i64| is_completed(root, before, after, score, reward)
}

/// A pass from `root` leads from `trees[i]` to `trees[i + 1]`.
pub open spec fn is_pass_at<N: GameTreeNode, S: Fn(u32, i64, u32) -> u64>(
    root: N,
    trees: Seq<SearchTree>,
    score: &S,
    i: int,
) -> bool {
    completes(root, trees[i], trees[i + 1], score)
}

/// What a search does: `completed` passes from `root`, one after the
/// other, each starting with the tree that the one before left, and
/// nothing else. A search that stops short of the cap `cap` ends with a
/// pass that is given up; one that reaches it ends with its last pass.
pub open spec fn is_search<N: GameTreeNode, S: Fn(u32, i64, u32) -> u64>(
    root: N,
    before: SearchTree,
    after: SearchTree,
    score: &S,
    cap: u64,
    completed: nat,
    trees: Seq<SearchTree>,
) -> bool {
    &&& trees.len() == completed + 1
    &&& trees[0] == before
    &&& forall|i: int| 0 <= i < completed ==> #[trigger] is_pass_at(root, trees, score, i)
    &&& if completed <= cap && completed < u64::MAX {
        is_given_up(root, trees.last(), after, score)
    } else {
        after == trees.last()
    }
}

impl SearchTree {
    /// Explores more of the tree below `node`, by the clock: `search_until`
    /// with a clock that says that the time is up once the time since the
    /// start of the search exceeds `config.max_duration`. So the search
    /// stops short of its cap only where some span of time is longer than
    /// `config.max_duration`, and completes a pass only where some span is
    /// not.
    pub fn search<N: GameTreeNode, S: Fn(u32, i64, u32) -> u64>(
        &mut self,
        node: N,
        config: SearchConfig,
        score: &S,
    ) -> (completed: u64)
        requires
            old(self).wf(),
            forall|visits: u32, total_reward: i64, parent_visits: u32|
                call_requires(score, (visits, total_reward, parent_visits)),
        ensures
            final(self).wf(),
            completed <= config.max_iterations + 1,
            exists|trees: Seq<SearchTree>|
                is_search(
                    node,
                    *old(self),
                    *final(self),
                    score,
                    config.max_iterations,
                    completed as nat,
                    trees,
                ),
            completed <= config.max_iterations && completed < u64::MAX ==> may_say(
                config.max_duration,
                true,
            ),
            completed > 0 ==> may_say(config.max_duration, false),
            !may_say(config.max_duration, false) ==> final(self)@ == created_at(
                old(self)@,
                key_of(node),
            ),
            completed == 0 ==> grown(old(self)@, final(self)@),
            completed == 0 ==> forall|key: u64|
                final(self).recorded_results(key) == old(self).recorded_results(key),
            kept(old(self)@, final(self)@),
            forall|key: u64| old(self).recorded_results(key) <= final(self).recorded_results(key),
            final(self).recorded_results(key_of(node)) >= old(self).recorded_results(key_of(node))
                + completed,
            node.terminal_reward() is Some || key_is_alone(node) ==> final(self).recorded_results(
                key_of(node),
            ) == old(self).recorded_results(key_of(node)) + completed,
            all_inner_marked(old(self)@, node) ==> same_marks(old(self)@, final(self)@),
            node.terminal_reward() is None && child_keys_are_alone(node) ==> results_below(
                *final(self),
                node,
                node.children().len() as int,
            ) == results_below(*old(self), node, node.children().len() as int) + completed,
            node.terminal_reward() is Some ==> final(self)@ == old(self)@.insert(
                key_of(node),
                stats_at(old(self)@, key_of(node)).recorded_times(
                    signed_reward(node.terminal_reward()->0, node.spec_is_self_turn()),
                    completed as nat,
                ),
            ),
    {
        let start = Instant::now();
        let limit = config.max_duration;
        let expired = || -> (verdict: bool)
            ensures
                may_say(limit, verdict),
            { is_expired(&start, &limit) };
        self.search_until(node, config, &expired, score)
    }

    /// Explores more of the tree below `node`: passes follow one another
    /// until one is given up because `expired` says that the time is up,
    /// or until the number of completed passes exceeds
    /// `config.max_iterations`; of `config` nothing else is read. Returns
    /// the number of completed passes, which is counted no further than 64
    /// bits hold.
    ///
    /// The search stops short of its cap only where `expired` can say that
    /// the time is up; it completes a pass only where `expired` can say
    /// that there is time left, and where it cannot, the search does no
    /// more than make `node` known.
    ///
    /// What the search does to the tree is a sequence of completed passes,
    /// each from the tree that the one before left, ended by the last of
    /// them or by a pass that is given up, and nothing else. From that,
    /// whatever the clock, the scores and the random choices were:
    /// - the search loses no node and no flag, and lowers no count of
    ///   recorded results;
    /// - it records at least one result for `node` in each completed pass,
    ///   and exactly one where no node below has the key of `node`;
    /// - where the children of `node` have keys of their own, it records
    ///   exactly one result among them in each completed pass;
    /// - where every node with moves left below `node` is marked fully
    ///   expanded already, it marks no further node;
    /// - for a `node` that is the end of a game it records exactly one
    ///   result in each completed pass, with the reward signed as for any
    ///   node, and touches nothing else.
    pub fn search_until<N: GameTreeNode, S: Fn(u32, i64, u32) -> u64, C: Fn() -> bool>(
        &mut self,
        node: N,
        config: SearchConfig,
        expired: &C,
        score: &S,
    ) -> (completed: u64)
        requires
            old(self).wf(),
            call_requires(expired, ()),
            forall|visits: u32, total_reward: i64, parent_visits: u32|
                call_requires(score, (visits, total_reward, parent_visits)),
        ensures
            final(self).wf(),
            completed <= config.max_iterations + 1,
            exists|trees: Seq<SearchTree>|
                is_search(
                    node,
                    *old(self),
                    *final(self),
                    score,
                    config.max_iterations,
                    completed as nat,
                    trees,
                ),
            completed <= config.max_iterations && completed < u64::MAX ==> call_ensures(
                expired,
                (),
                true,
            ),
            completed > 0 ==> call_ensures(expired, (), false),
            !call_ensures(expired, (), false) ==> final(self)@ == created_at(
                old(self)@,
                key_of(node),
            ),
            completed == 0 ==> grown(old(self)@, final(self)@),
            completed == 0 ==> forall|key: u64|
                final(self).recorded_results(key) == old(self).recorded_results(key),
            kept(old(self)@, final(self)@),
            forall|key: u64| old(self).recorded_results(key) <= final(self).recorded_results(key),
            final(self).recorded_results(key_of(node)) >= old(self).recorded_results(key_of(node))
                + completed,
            node.terminal_reward() is Some || key_is_alone(node) ==> final(self).recorded_results(
                key_of(node),
            ) == old(self).recorded_results(key_of(node)) + completed,
            all_inner_marked(old(self)@, node) ==> same_marks(old(self)@, final(self)@),
            node.terminal_reward() is None && child_keys_are_alone(node) ==> results_below(
                *final(self),
                node,
                node.children().len() as int,
            ) == results_below(*old(self), node, node.children().len() as int) + completed,
            node.terminal_reward() is Some ==> final(self)@ == old(self)@.insert(
                key_of(node),
                stats_at(old(self)@, key_of(node)).recorded_times(
                    signed_reward(node.terminal_reward()->0, node.spec_is_self_turn()),
                    completed as nat,
                ),
            ),
    {
        let mut rng = thread_rng();
        let mut completed: u64 = 0;
        let ghost root_key = key_of(node);
        let ghost first = stats_at(old(self)@, root_key);
        let ghost signed = signed_reward(node.terminal_reward()->0, node.spec_is_self_turn());
        let ghost mut trees: Seq<SearchTree> = seq![*self];
        loop
            invariant
                self.wf(),
                trees.len() == completed + 1,
                trees[0] == *old(self),
                trees.last() == *self,
                forall|i: int| 0 <= i < completed ==> #[trigger] is_pass_at(node, trees, score, i),
                call_requires(expired, ()),
                completed > 0 ==> call_ensures(expired, (), false),
                completed == 0 ==> self@ == old(self)@,
                completed == 0 ==> forall|key: u64|
                    self.recorded_results(key) == old(self).recorded_results(key),
                forall|visits: u32, total_reward: i64, parent_visits: u32|
                    call_requires(score, (visits, total_reward, parent_visits)),
                completed <= config.max_iterations,
                completed < u64::MAX,
                root_key == key_of(node),
                first == stats_at(old(self)@, root_key),
                signed == signed_reward(node.terminal_reward()->0, node.spec_is_self_turn()),
                kept(old(self)@, self@),
                forall|key: u64| old(self).recorded_results(key) <= self.recorded_results(key),
                self.recorded_results(root_key) >= old(self).recorded_results(root_key) + completed,
                node.terminal_reward() is Some || key_is_alone(node) ==> self.recorded_results(
                    root_key,
                ) == old(self).recorded_results(root_key) + completed,
                all_inner_marked(old(self)@, node) ==> same_marks(old(self)@, self@),
                node.terminal_reward() is None && child_keys_are_alone(node) ==> results_below(
                    *self,
                    node,
                    node.children().len() as int,
                ) == results_below(*old(self), node, node.children().len() as int) + completed,
                node.terminal_reward() is Some && completed == 0 ==> self@ == old(self)@,
                node.terminal_reward() is Some && completed > 0 ==> self@ == old(self)@.insert(
                    root_key,
                    first.recorded_times(signed, completed as nat),
                ),
            decreases u64::MAX - completed,
        {
            let ghost before = *self;
            proof {
                if all_inner_marked(old(self)@, node) {
                    lemma_marked_stays(old(self)@, before@, node);
                }
            }
            let outcome = self.run_iteration_until(&node, expired, score, &mut rng);
            proof {
                if all_inner_marked(old(self)@, node) {
                    assert forall|key: u64| stats_at(self@, key).fully_expanded == stats_at(
                        old(self)@,
                        key,
                    ).fully_expanded by {
                        assert(stats_at(before@, key).fully_expanded == stats_at(
                            old(self)@,
                            key,
                        ).fully_expanded);
                    }
                }
            }
            match outcome {
                None => {
                    proof {
                        lemma_results_below_same(
                            before,
                            *self,
                            node,
                            node.children().len() as int,
                        );
                        lemma_grown_is_kept(before@, self@);
                        lemma_kept_twice(old(self)@, before@, self@);
                        assert(first.recorded_times(signed, 0) == first);
                        if node.terminal_reward() is Some {
                            assert(self@ =~= old(self)@.insert(
                                root_key,
                                first.recorded_times(signed, completed as nat),
                            ));
                        }
                        assert(is_search(
                            node,
                            *old(self),
                            *self,
                            score,
                            config.max_iterations,
                            completed as nat,
                            trees,
                        ));
                    }
                    return completed;
                },
                Some(reward) => {
                    proof {
                        assert(is_completed(node, before, *self, score, reward));
                        let longer = trees.push(*self);
                        assert forall|i: int| 0 <= i < completed + 1 implies #[trigger] is_pass_at(
                            node,
                            longer,
                            score,
                            i,
                        ) by {
                            if i < completed {
                                assert(is_pass_at(node, trees, score, i));
                            }
                        }
                        trees = longer;
                        let (walk, trail, states, stores) = choose|
                            walk: Seq<N>,
                            trail: Seq<PathEntry>,
                            states: Seq<State>,
                            stores: Seq<Map<u64, NodeStats>>,
                        |
                            is_pass(
                                node,
                                before,
                                *self,
                                score,
                                outcome->0,
                                walk,
                                trail,
                                states,
                                stores,
                            );
                        let reached = stores.last();
                        lemma_pass_keeps(
                            node,
                            before,
                            *self,
                            score,
                            reward,
                            walk,
                            trail,
                            states,
                            stores,
                        );
                        lemma_kept_twice(old(self)@, before@, self@);
                        assert(first.recorded_times(signed, 0) == first);
                        if node.terminal_reward() is None && child_keys_are_alone(node) {
                            lemma_one_child_is_recorded(
                                node,
                                before,
                                *self,
                                score,
                                reward,
                                walk,
                                trail,
                                states,
                                stores,
                            );
                        }
                        if key_is_alone(node) {
                            lemma_root_is_recorded_once(
                                node,
                                before,
                                *self,
                                score,
                                reward,
                                walk,
                                trail,
                                states,
                                stores,
                            );
                        }
                        if node.terminal_reward() is Some {
                            assert(trail.len() == 1);
                            lemma_recorded_once(reached, trail, reward, 0);
                            assert(self@ =~= old(self)@.insert(
                                root_key,
                                first.recorded_times(signed, (completed + 1) as nat),
                            ));
                        }
                    }
                },
            }
            completed = completed + 1;
            if config.is_spent(completed) || completed == u64::MAX {
                assert(is_search(
                    node,
                    *old(self),
                    *self,
                    score,
                    config.max_iterations,
                    completed as nat,
                    trees,
                ));
                return completed;
            }
        }
    }
}

} // verus!
