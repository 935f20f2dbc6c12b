//! The recording of a reward along the path of a walk.

use crate::node_metadata::NodeStats;
use crate::search_tree::kept;
use crate::search_tree::recorded_at;
use crate::search_tree::same_marks;
use crate::search_tree::stats_at;
use crate::search_tree::SearchTree;
use vstd::prelude::*;

verus! {

/// One node of a walk: its key, whether the move that led to it was made
/// by the side the rewards are counted for, and whether it was reached by
/// simulation.
#[derive(Debug, Clone, Copy)]
pub struct PathEntry {
    pub key: u64,
    pub by_self: bool,
    pub simulated: bool,
}

/// The reward as it is recorded for a node: as it is where the move that
/// led to the node was made by the side the rewards are counted for, and
/// with the opposite sign otherwise. The lowest reward has no opposite and
/// stays as it is.
pub open spec fn signed_reward(reward: i64, by_self: bool) -> i64 {
    if by_self {
        reward
    } else {
        0i64.wrapping_sub(reward)
    }
}

/// The store after the reward of a walk was recorded for every node of
/// `path` that was not reached by simulation, from the root down.
pub open spec fn backpropagated(store: Map<u64, NodeStats>, path: Seq<PathEntry>, reward: i64) -> Map<
    u64,
    NodeStats,
>
    decreases path.len(),
{
    if path.len() == 0 {
        store
    } else {
        let before = backpropagated(store, path.drop_last(), reward);
        if path.last().simulated {
            before
        } else {
            recorded_at(before, path.last().key, signed_reward(reward, path.last().by_self))
        }
    }
}

/// The number of results that recording along `path` adds under `key`.
pub open spec fn records_in(path: Seq<PathEntry>, key: u64) -> nat
    decreases path.len(),
{
    if path.len() == 0 {
        0
    } else if !path.last().simulated && path.last().key == key {
        records_in(path.drop_last(), key) + 1
    } else {
        records_in(path.drop_last(), key)
    }
}

impl SearchTree {
    /// Records the reward of a walk for every node of `path` that was not
    /// reached by simulation.
    pub fn backpropagate(&mut self, path: &Vec<PathEntry>, reward: i64)
        requires
            old(self).wf(),
        ensures
            final(self).wf(),
            final(self)@ == backpropagated(old(self)@, path@, reward),
            forall|key: u64|
                final(self).recorded_results(key) == old(self).recorded_results(key) + records_in(
                    path@,
                    key,
                ),
    {
        let mut i: usize = 0;
        while i < path.len()
            invariant
                i <= path.len(),
                self.wf(),
                self@ == backpropagated(old(self)@, path@.take(i as int), reward),
                forall|key: u64|
                    self.recorded_results(key) == old(self).recorded_results(key) + records_in(
                        path@.take(i as int),
                        key,
                    ),
            decreases path.len() - i,
        {
            let entry = path[i];
            assert(path@.take(i + 1).drop_last() =~= path@.take(i as int));
            assert(path@.take(i + 1).last() == entry);
            if !entry.simulated {
                let signed = if entry.by_self {
                    reward
                } else {
                    0i64.wrapping_sub(reward)
                };
                self.record_result(entry.key, signed);
            }
            i = i + 1;
        }
        assert(path@.take(path.len() as int) =~= path@);
    }
}

/// Recording along a path loses no node and no flag, and leaves alone what
/// it records nothing for.
pub proof fn lemma_backpropagated_keeps(store: Map<u64, NodeStats>, path: Seq<PathEntry>, reward: i64)
    ensures
        kept(store, backpropagated(store, path, reward)),
        forall|key: u64|
            records_in(path, key) == 0 ==> stats_at(
                #[trigger] backpropagated(store, path, reward),
                key,
            ) == stats_at(store, key) && (backpropagated(store, path, reward).contains_key(key)
                <==> store.contains_key(key)),
    decreases path.len(),
{
    if path.len() > 0 {
        lemma_backpropagated_keeps(store, path.drop_last(), reward);
        let before = backpropagated(store, path.drop_last(), reward);
        let after = backpropagated(store, path, reward);
        assert forall|key: u64| store.contains_key(key) implies after.contains_key(key)
            && store[key].flags_kept_in(after[key]) by {
            assert(before.contains_key(key));
        }
        assert forall|key: u64| records_in(path, key) == 0 implies stats_at(after, key)
            == stats_at(store, key) && (after.contains_key(key) <==> store.contains_key(key)) by {
            assert(records_in(path.drop_last(), key) == 0);
            assert(stats_at(before, key) == stats_at(store, key));
        }
    }
}

/// A walk records a result for its first node, which no walk reaches by
/// simulation.
pub proof fn lemma_first_is_recorded(path: Seq<PathEntry>)
    requires
        path.len() > 0,
        !path[0].simulated,
    ensures
        records_in(path, path[0].key) >= 1,
    decreases path.len(),
{
    if path.len() > 1 {
        assert(path.drop_last()[0] == path[0]);
        lemma_first_is_recorded(path.drop_last());
    } else {
        assert(path.last() == path[0]);
    }
}

/// A path without an entry to record under `key` records nothing there.
pub proof fn lemma_no_record(path: Seq<PathEntry>, key: u64)
    requires
        forall|j: int| 0 <= j < path.len() ==> (#[trigger] path[j]).simulated || path[j].key != key,
    ensures
        records_in(path, key) == 0,
    decreases path.len(),
{
    if path.len() > 0 {
        assert forall|j: int| 0 <= j < path.drop_last().len() implies (#[trigger] path.drop_last()[j]).simulated
            || path.drop_last()[j].key != key by {
            assert(path.drop_last()[j] == path[j]);
        }
        lemma_no_record(path.drop_last(), key);
        assert(path.last() == path[path.len() - 1]);
    }
}

/// The sign convention, and that a node is recorded once: where
/// `path[index]` was not reached by simulation and no other such entry of
/// the path has its key, recording along the path adds one result under
/// that key, the reward itself if the move that led to the node was made
/// by the side the rewards are counted for, and its opposite if not.
pub proof fn lemma_recorded_once(
    store: Map<u64, NodeStats>,
    path: Seq<PathEntry>,
    reward: i64,
    index: int,
)
    requires
        0 <= index < path.len(),
        !path[index].simulated,
        forall|j: int|
            0 <= j < path.len() && j != index ==> (#[trigger] path[j]).simulated || path[j].key
                != path[index].key,
    ensures
        records_in(path, path[index].key) == 1,
        backpropagated(store, path, reward).contains_key(path[index].key),
        backpropagated(store, path, reward)[path[index].key] == stats_at(
            store,
            path[index].key,
        ).recorded(signed_reward(reward, path[index].by_self)),
    decreases path.len(),
{
    let key = path[index].key;
    let shorter = path.drop_last();
    if index == path.len() - 1 {
        lemma_no_record(shorter, key);
        lemma_backpropagated_keeps(store, shorter, reward);
    } else {
        assert(shorter[index] == path[index]);
        assert forall|j: int| 0 <= j < shorter.len() && j != index implies (
        #[trigger] shorter[j]).simulated || shorter[j].key != shorter[index].key by {
            assert(shorter[j] == path[j]);
        }
        lemma_recorded_once(store, shorter, reward, index);
        assert(path.last() == path[path.len() - 1]);
    }
}

/// Recording along a path marks no node as fully expanded and takes the
/// mark from none.
pub proof fn lemma_backpropagated_marks(store: Map<u64, NodeStats>, path: Seq<PathEntry>, reward: i64)
    ensures
        same_marks(store, backpropagated(store, path, reward)),
    decreases path.len(),
{
    if path.len() > 0 {
        lemma_backpropagated_marks(store, path.drop_last(), reward);
        let before = backpropagated(store, path.drop_last(), reward);
        let after = backpropagated(store, path, reward);
        assert forall|key: u64| stats_at(after, key).fully_expanded == stats_at(
            store,
            key,
        ).fully_expanded by {
            assert(stats_at(before, key).fully_expanded == stats_at(store, key).fully_expanded);
        }
    }
}

} // verus!
