//! What the engine asks of a game: a node of its tree says what it holds,
//! whose move led to it, and what follows from it.

use std::fmt::Debug;
use vstd::prelude::*;

verus! {

/// What a node of a game tree turns out to be: an inner node with the
/// positions one move away, or a finished game with its reward.
#[derive(Debug)]
pub enum NodeState<N> {
    HasChildren(Vec<N>),
    Reward(i64),
}

/// One position of a game. The engine never changes a node: it reads what
/// the node says of itself and identifies it by its content.
///
/// The first five items describe the game: what the three methods return
/// is stated over them, and so is everything that is proved of a search. As
/// they stand they describe a game that is over and worth nothing, so a
/// game states its own.
pub trait GameTreeNode: Debug + Clone + Send + Sync + Sized {
    /// The bytes that identify the position: two nodes that stand for the
    /// same position have the same content.
    open spec fn spec_content(&self) -> Seq<u8> {
        Seq::empty()
    }

    /// Whether the move that led to this node was made by the side the
    /// rewards are counted for.
    open spec fn spec_is_self_turn(&self) -> bool {
        false
    }

    /// The reward of a finished game, `None` while there are moves left.
    open spec fn terminal_reward(&self) -> Option<i64> {
        Some(0i64)
    }

    /// The positions one move away, in the order in which
    /// `calculate_state` lists them.
    open spec fn children(&self) -> Seq<Self> {
        Seq::empty()
    }

    /// A bound on the number of moves that can still be played from here.
    /// Every child is below its parent, which is why a walk down the tree
    /// ends.
    open spec fn plies_left(&self) -> nat {
        0
    }

    /// The bytes that identify the position.
    fn content(&self) -> (bytes: Vec<u8>)
        ensures
            bytes@ == self.spec_content(),
    ;

    /// Whether the move that led to this node was made by the side the
    /// rewards are counted for.
    fn is_self_turn(&self) -> (by_self: bool)
        ensures
            by_self == self.spec_is_self_turn(),
    ;

    /// The reward, from the point of view of the side the rewards are
    /// counted for, if the game is over, and the children if it is not: at
    /// least one, each closer to the end of the game.
    fn calculate_state(&self) -> (state: NodeState<Self>)
        ensures
            match state {
                NodeState::Reward(reward) => self.terminal_reward() == Some(reward),
                NodeState::HasChildren(children) => {
                    &&& self.terminal_reward() is None
                    &&& children@ == self.children()
                    &&& children.len() > 0
                    &&& forall|i: int|
                        0 <= i < children.len() ==> (#[trigger] children[i]).plies_left()
                            < self.plies_left()
                },
            },
    ;
}

} // verus!
