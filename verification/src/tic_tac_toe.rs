//! Tic-tac-toe as a game tree. Rewards are counted for `X`: a line of `X`
//! is worth 1, a line of `O` is worth -1, a full board without a line 0.

use crate::game_tree_node::GameTreeNode;
use crate::game_tree_node::NodeState;
use vstd::prelude::*;

verus! {

/// The two sides of a game of tic-tac-toe.
#[derive(Debug, PartialEq, Eq, Clone, Copy, Hash, Structural)]
pub enum Player {
    X,
    O,
}

impl Player {
    /// The side that moves after `self`.
    pub open spec fn spec_next(self) -> Player {
        match self {
            Player::X => Player::O,
            Player::O => Player::X,
        }
    }

    /// The side that moves after `self`.
    pub fn next(self) -> (other: Player)
        ensures
            other == self.spec_next(),
    {
        match self {
            Player::X => Player::O,
            Player::O => Player::X,
        }
    }
}

/// A board of nine slots, row by row, and the side that moves next.
#[derive(Debug, PartialEq, Eq, Clone, Hash)]
pub struct TicTacToeState {
    pub board: [Option<Player>; 9],
    pub current_player: Player,
}

/// The three slots of winning line `n`: rows first, then columns, then the
/// two diagonals.
pub open spec fn win_line(n: int) -> (int, int, int) {
    if n == 0 {
        (0, 1, 2)
    } else if n == 1 {
        (3, 4, 5)
    } else if n == 2 {
        (6, 7, 8)
    } else if n == 3 {
        (0, 3, 6)
    } else if n == 4 {
        (1, 4, 7)
    } else if n == 5 {
        (2, 5, 8)
    } else if n == 6 {
        (0, 4, 8)
    } else {
        (6, 4, 2)
    }
}

/// The side that holds all three slots of line `n`, if one does.
pub open spec fn line_owner(cells: Seq<Option<Player>>, n: int) -> Option<Player> {
    let (a, b, c) = win_line(n);
    if cells[a] is Some && cells[b] == cells[a] && cells[c] == cells[a] {
        cells[a]
    } else {
        None
    }
}

/// The owner of the first owned line among lines `n..8`.
pub open spec fn winner_from(cells: Seq<Option<Player>>, n: int) -> Option<Player>
    decreases 8 - n,
{
    if n < 0 || n >= 8 {
        None
    } else if line_owner(cells, n) is Some {
        line_owner(cells, n)
    } else {
        winner_from(cells, n + 1)
    }
}

/// The empty slots among the first `upto`, in rising order.
pub open spec fn empty_slots(cells: Seq<Option<Player>>, upto: int) -> Seq<int>
    decreases upto,
{
    if upto <= 0 {
        Seq::empty()
    } else if cells[upto - 1] is None {
        empty_slots(cells, upto - 1).push(upto - 1)
    } else {
        empty_slots(cells, upto - 1)
    }
}

/// The byte that stands for a slot in a position's content.
pub open spec fn slot_code(slot: Option<Player>) -> u8 {
    match slot {
        None => 0,
        Some(Player::X) => 1,
        Some(Player::O) => 2,
    }
}

/// Every entry of `empty_slots` is an empty slot below `upto`, and the
/// entries rise.
pub proof fn lemma_empty_slots(cells: Seq<Option<Player>>, upto: int)
    requires
        0 <= upto <= cells.len(),
    ensures
        empty_slots(cells, upto).len() <= upto,
        forall|j: int|
            0 <= j < empty_slots(cells, upto).len() ==> 0 <= (#[trigger] empty_slots(
                cells,
                upto,
            )[j]) < upto && cells[empty_slots(cells, upto)[j]] is None,
    decreases upto,
{
    if upto > 0 {
        lemma_empty_slots(cells, upto - 1);
    }
}

/// Filling an empty slot leaves the other empty slots as they were: one
/// fewer among the first `upto` if the slot is among them.
pub proof fn lemma_move_fills_slot(
    cells: Seq<Option<Player>>,
    slot: int,
    player: Player,
    upto: int,
)
    requires
        0 <= upto <= cells.len(),
        0 <= slot < cells.len(),
        cells[slot] is None,
    ensures
        empty_slots(cells.update(slot, Some(player)), upto).len() + (if slot < upto {
            1int
        } else {
            0int
        }) == empty_slots(cells, upto).len(),
    decreases upto,
{
    if upto > 0 {
        lemma_move_fills_slot(cells, slot, player, upto - 1);
    }
}

impl TicTacToeState {
    /// The empty board, with `X` to move.
    pub fn new() -> (state: TicTacToeState)
        ensures
            state.current_player == Player::X,
            forall|i: int| 0 <= i < 9 ==> state.board[i] is None,
    {
        TicTacToeState { board: [None; 9], current_player: Player::X }
    }

    /// The side that holds the first owned line, rows before columns
    /// before diagonals.
    pub open spec fn spec_winner(&self) -> Option<Player> {
        winner_from(self.board@, 0)
    }

    /// The position after the side to move takes `slot`.
    pub open spec fn after_move(&self, slot: int) -> TicTacToeState {
        TicTacToeState {
            board: vstd::array::spec_array_update(
                self.board,
                slot,
                Some(self.current_player),
            ),
            current_player: self.current_player.spec_next(),
        }
    }

    /// The positions after each of the first `count` moves open to the side
    /// to move, by rising slot.
    pub open spec fn moves(&self, count: int) -> Seq<TicTacToeState> {
        Seq::new(
            empty_slots(self.board@, count).len(),
            |j: int| self.after_move(empty_slots(self.board@, count)[j]),
        )
    }

    /// The side that holds all three slots of line `n`, if one does.
    fn line_owner(&self, n: usize) -> (owner: Option<Player>)
        requires
            n < 8,
        ensures
            owner == line_owner(self.board@, n as int),
    {
        let (a, b, c): (usize, usize, usize) = match n {
            0 => (0, 1, 2),
            1 => (3, 4, 5),
            2 => (6, 7, 8),
            3 => (0, 3, 6),
            4 => (1, 4, 7),
            5 => (2, 5, 8),
            6 => (0, 4, 8),
            _ => (6, 4, 2),
        };
        match (self.board[a], self.board[b], self.board[c]) {
            (Some(first), Some(second), Some(third)) => {
                if second == first && third == first {
                    Some(first)
                } else {
                    None
                }
            },
            _ => None,
        }
    }

    /// The side that holds the first owned line, if any line is owned.
    pub fn winner(&self) -> (winner: Option<Player>)
        ensures
            winner == self.spec_winner(),
    {
        let mut n: usize = 0;
        while n < 8
            invariant
                n <= 8,
                winner_from(self.board@, 0) == winner_from(self.board@, n as int),
            decreases 8 - n,
        {
            let owner = self.line_owner(n);
            if owner.is_some() {
                return owner;
            }
            n = n + 1;
        }
        None
    }
}

impl GameTreeNode for TicTacToeState {
    /// One byte for each slot, row by row, and one for the side to move.
    open spec fn spec_content(&self) -> Seq<u8> {
        Seq::new(
            10,
            |i: int|
                if i < 9 {
                    slot_code(self.board[i])
                } else {
                    slot_code(Some(self.current_player))
                },
        )
    }

    /// `X` is the side the rewards are counted for, and `X` has just moved
    /// where `O` is to move.
    open spec fn spec_is_self_turn(&self) -> bool {
        self.current_player == Player::O
    }

    /// 1 where `X` holds the first owned line, -1 where `O` does, and 0 on
    /// a full board without one.
    open spec fn terminal_reward(&self) -> Option<i64> {
        match self.spec_winner() {
            Some(Player::X) => Some(1i64),
            Some(Player::O) => Some(-1i64),
            None => if empty_slots(self.board@, 9).len() == 0 {
                Some(0i64)
            } else {
                None
            },
        }
    }

    /// The positions after each move open to the side to move, by rising
    /// slot.
    open spec fn children(&self) -> Seq<TicTacToeState> {
        self.moves(9)
    }

    /// The number of empty slots.
    open spec fn plies_left(&self) -> nat {
        empty_slots(self.board@, 9).len()
    }

    fn content(&self) -> (bytes: Vec<u8>) {
        let mut bytes: Vec<u8> = Vec::new();
        let mut i: usize = 0;
        while i < 9
            invariant
                i <= 9,
                bytes.len() == i,
                forall|j: int| 0 <= j < i ==> bytes[j] == slot_code(self.board[j]),
            decreases 9 - i,
        {
            let code: u8 = match self.board[i] {
                None => 0,
                Some(Player::X) => 1,
                Some(Player::O) => 2,
            };
            bytes.push(code);
            i = i + 1;
        }
        let code: u8 = match self.current_player {
            Player::X => 1,
            Player::O => 2,
        };
        bytes.push(code);
        assert(bytes@ =~= self.spec_content());
        bytes
    }

    fn is_self_turn(&self) -> (by_self: bool) {
        match self.current_player {
            Player::X => false,
            Player::O => true,
        }
    }

    fn calculate_state(&self) -> (state: NodeState<TicTacToeState>) {
        match self.winner() {
            Some(Player::X) => {
                return NodeState::Reward(1);
            },
            Some(Player::O) => {
                return NodeState::Reward(-1);
            },
            None => {},
        }
        let mut child_nodes: Vec<TicTacToeState> = Vec::new();
        let mut i: usize = 0;
        while i < 9
            invariant
                i <= 9,
                child_nodes@ == self.moves(i as int),
            decreases 9 - i,
        {
            if self.board[i].is_none() {
                let mut new_board = self.board;
                new_board[i] = Some(self.current_player);
                let child = TicTacToeState {
                    board: new_board,
                    current_player: self.current_player.next(),
                };
                assert(child.board =~= self.after_move(i as int).board);
                child_nodes.push(child);
            }
            assert(child_nodes@ =~= self.moves(i + 1));
            i = i + 1;
        }
        if child_nodes.len() == 0 {
            NodeState::Reward(0)
        } else {
            proof {
                let cells = self.board@;
                lemma_empty_slots(cells, 9);
                assert forall|i: int| 0 <= i < child_nodes.len() implies (#[trigger] child_nodes[i]).plies_left()
                    < self.plies_left() by {
                    lemma_move_fills_slot(cells, empty_slots(cells, 9)[i], self.current_player, 9);
                }
            }
            NodeState::HasChildren(child_nodes)
        }
    }
}

} // verus!
