//! Counting the positions that a given number of legal moves lead to.
use vstd::prelude::*;
use crate::board::Board;
use crate::chess_move::ChessMove;
use crate::position::Position;
use crate::zobrist::HashTable;

verus! {

/// The number, or the largest number that fits where it is too great.
pub open spec fn capped(n: nat) -> u64 {
    if n <= u64::MAX {
        n as u64
    } else {
        u64::MAX
    }
}

impl Position {
    /// The number of ways to play `depth` legal moves from the position.
    pub open spec fn perft(self, depth: nat, keys: &HashTable) -> nat
        decreases depth, self.move_list().len() + 1,
    {
        if depth == 0 {
            1
        } else {
            self.perft_among(self.move_list(), self.move_list().len() as int, depth, keys)
        }
    }

    /// The number of ways to play `depth` legal moves of which the first is
    /// one of the first `n` moves of `list`.
    pub open spec fn perft_among(self, list: Seq<ChessMove>, n: int, depth: nat, keys: &HashTable) -> nat
        decreases depth, n,
    {
        if n <= 0 || depth == 0 {
            0
        } else {
            let child = self.apply(list[n - 1], keys);
            self.perft_among(list, n - 1, depth, keys) + if child.in_check(self.side()) {
                0nat
            } else {
                child.perft((depth - 1) as nat, keys)
            }
        }
    }
}

/// The number of ways to play `depth` legal moves from the position, or the
/// largest number that fits where there are more.
pub fn perft(board: &Board, depth: usize) -> (nodes: u64)
    requires
        board.wf(),
    ensures
        nodes == capped(board@.perft(depth as nat, &board.tables.keys)),
    decreases depth,
{
    if depth == 0 {
        return 1;
    }
    let ghost p = board@;
    let ghost keys = &board.tables.keys;
    let color = board.side_to_move();
    let moves = board.pseudo_legal_moves();
    let mut nodes: u64 = 0;
    let mut i: usize = 0;
    while i < moves.len()
        invariant
            board.wf(),
            p == board@,
            keys == &board.tables.keys,
            color == p.side(),
            depth > 0,
            i <= moves@.len(),
            moves@ == p.move_list(),
            forall|m: ChessMove| #[trigger] moves@.contains(m) <==> p.pseudo_legal(m),
            nodes == capped(p.perft_among(moves@, i as int, depth as nat, keys)),
        decreases moves@.len() - i,
    {
        let chess_move = moves[i];
        proof {
            assert(moves@.contains(chess_move));
            p.lemma_pseudo_legal_accepts(chess_move);
        }
        let mut new_board = board.clone();
        new_board.make_move(&chess_move);
        if !new_board.in_check(color) {
            nodes = nodes.saturating_add(perft(&new_board, depth - 1));
        }
        i += 1;
    }
    nodes
}

} // verus!
