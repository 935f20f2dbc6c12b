//! The statistics that the search keeps for one node of the game tree.

use vstd::prelude::*;

verus! {

/// What is known of a node: how often a result was recorded for it, the
/// sum of the rewards recorded, whether any was recorded, and whether all
/// of its children were seen to have one.
pub struct NodeStats {
    pub visits: u32,
    pub total_reward: i64,
    pub visited: bool,
    pub fully_expanded: bool,
}

impl NodeStats {
    /// The statistics of a node of which nothing is known yet.
    pub open spec fn zero() -> NodeStats {
        NodeStats { visits: 0, total_reward: 0, visited: false, fully_expanded: false }
    }

    /// The statistics after one more result. Both counters wrap around at
    /// the end of their range.
    pub open spec fn recorded(self, reward: i64) -> NodeStats {
        NodeStats {
            visits: self.visits.wrapping_add(1),
            total_reward: self.total_reward.wrapping_add(reward),
            visited: true,
            fully_expanded: self.fully_expanded,
        }
    }

    /// The statistics after the same result was recorded `times` times.
    pub open spec fn recorded_times(self, reward: i64, times: nat) -> NodeStats
        decreases times,
    {
        if times == 0 {
            self
        } else {
            self.recorded_times(reward, (times - 1) as nat).recorded(reward)
        }
    }

    /// The statistics after the node was found fully expanded.
    pub open spec fn expanded(self) -> NodeStats {
        NodeStats {
            visits: self.visits,
            total_reward: self.total_reward,
            visited: self.visited,
            fully_expanded: true,
        }
    }

    /// No flag of `self` is lost in `later`.
    pub open spec fn flags_kept_in(self, later: NodeStats) -> bool {
        &&& self.visited ==> later.visited
        &&& self.fully_expanded ==> later.fully_expanded
    }
}

/// The statistics of one node. They change only by recording a result and
/// by marking the node fully expanded.
#[derive(Debug, Clone, Copy)]
pub struct NodeMetadata {
    total_reward: i64,
    number_of_visits: u32,
    visited: bool,
    fully_expanded: bool,
}

impl View for NodeMetadata {
    type V = NodeStats;

    closed spec fn view(&self) -> NodeStats {
        NodeStats {
            visits: self.number_of_visits,
            total_reward: self.total_reward,
            visited: self.visited,
            fully_expanded: self.fully_expanded,
        }
    }
}

impl NodeMetadata {
    /// The statistics of a node of which nothing is known yet.
    pub fn new() -> (metadata: NodeMetadata)
        ensures
            metadata@ == NodeStats::zero(),
    {
        NodeMetadata { total_reward: 0, number_of_visits: 0, visited: false, fully_expanded: false }
    }

    /// Counts one more visit, adds `reward` to the total, and marks the
    /// node as visited.
    pub fn record_result(&mut self, reward: i64)
        ensures
            final(self)@ == old(self)@.recorded(reward),
    {
        self.number_of_visits = self.number_of_visits.wrapping_add(1);
        self.total_reward = self.total_reward.wrapping_add(reward);
        self.visited = true;
    }

    /// How often a result was recorded.
    pub fn number_of_visits(&self) -> (visits: u32)
        ensures
            visits == self@.visits,
    {
        self.number_of_visits
    }

    /// The sum of the rewards recorded.
    pub fn total_reward(&self) -> (total: i64)
        ensures
            total == self@.total_reward,
    {
        self.total_reward
    }

    /// Whether any result was recorded.
    pub fn is_visited(&self) -> (visited: bool)
        ensures
            visited == self@.visited,
    {
        self.visited
    }

    /// Marks the node as one whose children have all been visited.
    pub fn set_fully_expanded(&mut self)
        ensures
            final(self)@ == old(self)@.expanded(),
    {
        self.fully_expanded = true;
    }

    /// Whether the node was marked as fully expanded.
    pub fn is_fully_expanded(&self) -> (fully_expanded: bool)
        ensures
            fully_expanded == self@.fully_expanded,
    {
        self.fully_expanded
    }
}

/// Recording a result never lowers the count of visits short of its
/// wrapping around, and never clears a flag.
pub proof fn lemma_recording_keeps_what_is_known(stats: NodeStats, reward: i64)
    ensures
        stats.flags_kept_in(stats.recorded(reward)),
        stats.recorded(reward).visited,
        stats.visits < u32::MAX ==> stats.recorded(reward).visits == stats.visits + 1,
        stats.visits == u32::MAX ==> stats.recorded(reward).visits == 0,
        i64::MIN <= stats.total_reward + reward <= i64::MAX ==> stats.recorded(
            reward,
        ).total_reward == stats.total_reward + reward,
{
}

/// Marking a node fully expanded changes no counter and clears no flag.
pub proof fn lemma_expanding_keeps_what_is_known(stats: NodeStats)
    ensures
        stats.flags_kept_in(stats.expanded()),
        stats.expanded().fully_expanded,
        stats.expanded().visits == stats.visits,
        stats.expanded().total_reward == stats.total_reward,
{
}

} // verus!
