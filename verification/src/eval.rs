//! Static evaluation: material, piece-square bonuses and castling rights.
use vstd::prelude::*;
use crate::board::Board;
use crate::position::{piece_in, Position};

verus! {

// The bonus of each square for each piece, listed from A8 by ranks down to
// H1. Knights, bishops, rooks and queens of both colours share a table.
pub const WHITE_PAWN_EVAL: [i32; 64] = [
    0, 0, 0, 0, 0, 0, 0, 0,
    3, 3, 3, 3, 3, 3, 3, 3,
    1, 1, 1, 1, 1, 1, 1, 1,
    1, 1, 1, 1, 1, 1, 1, 1,
    2, 2, 2, 2, 2, 2, 2, 2,
    2, 2, 2, 2, 2, 2, 2, 2,
    1, 1, 1, 1, 1, 1, 1, 1,
    0, 0, 0, 0, 0, 0, 0, 0,
];

pub const BLACK_PAWN_EVAL: [i32; 64] = [
    0, 0, 0, 0, 0, 0, 0, 0,
    1, 1, 1, 1, 1, 1, 1, 1,
    2, 2, 2, 2, 2, 2, 2, 2,
    2, 2, 2, 2, 2, 2, 2, 2,
    1, 1, 1, 1, 1, 1, 1, 1,
    1, 1, 1, 1, 1, 1, 1, 1,
    3, 3, 3, 3, 3, 3, 3, 3,
    0, 0, 0, 0, 0, 0, 0, 0,
];

pub const KNIGHT_EVAL: [i32; 64] = [
    0, 0, 0, 0, 0, 0, 0, 0,
    1, 2, 2, 2, 2, 2, 2, 1,
    1, 3, 3, 4, 4, 3, 3, 1,
    1, 3, 4, 5, 5, 4, 3, 1,
    1, 3, 4, 5, 5, 4, 3, 1,
    1, 3, 3, 4, 4, 3, 3, 1,
    1, 2, 2, 2, 2, 2, 2, 1,
    0, 0, 0, 0, 0, 0, 0, 0,
];

pub const BISHOP_EVAL: [i32; 64] = [
    0, 0, 1, 1, 1, 1, 0, 0,
    0, 2, 2, 2, 2, 2, 2, 0,
    1, 2, 2, 2, 2, 2, 2, 1,
    1, 2, 2, 2, 2, 2, 2, 1,
    1, 2, 2, 2, 2, 2, 2, 1,
    1, 2, 2, 2, 2, 2, 2, 1,
    0, 2, 2, 2, 2, 2, 2, 0,
    0, 0, 1, 1, 1, 1, 0, 0,
];

pub const ROOK_EVAL: [i32; 64] = [
    5, 3, 2, 2, 2, 2, 3, 5,
    5, 5, 5, 5, 5, 5, 5, 5,
    3, 2, 2, 2, 2, 2, 2, 3,
    2, 1, 1, 1, 1, 1, 1, 2,
    2, 1, 1, 1, 1, 1, 1, 2,
    3, 2, 2, 2, 2, 2, 2, 3,
    5, 5, 5, 5, 5, 5, 5, 5,
    5, 3, 2, 2, 2, 2, 3, 5,
];

pub const QUEEN_EVAL: [i32; 64] = [
    1, 1, 1, 1, 1, 1, 1, 1,
    1, 2, 2, 2, 2, 2, 2, 1,
    1, 2, 2, 2, 2, 2, 2, 1,
    1, 2, 2, 2, 2, 2, 2, 1,
    1, 2, 2, 2, 2, 2, 2, 1,
    1, 2, 2, 2, 2, 2, 2, 1,
    1, 2, 2, 2, 2, 2, 2, 1,
    1, 1, 1, 1, 1, 1, 1, 1,
];

pub const WHITE_KING_EVAL: [i32; 64] = [
    5, 5, 3, 3, 3, 3, 5, 5,
    3, 5, 5, 5, 5, 5, 5, 3,
    3, 3, 2, 0, 0, 2, 3, 3,
    3, 2, 0, 0, 0, 0, 2, 3,
    3, 2, 0, 0, 0, 0, 2, 3,
    5, 3, 2, 1, 1, 2, 3, 5,
    10, 5, 5, 3, 3, 5, 5, 10,
    5, 10, 15, 5, 3, 5, 15, 10,
];

pub const BLACK_KING_EVAL: [i32; 64] = [
    5, 10, 15, 5, 3, 5, 15, 10,
    10, 5, 5, 3, 3, 5, 5, 10,
    5, 3, 2, 1, 1, 2, 3, 5,
    3, 2, 0, 0, 0, 0, 2, 3,
    3, 2, 0, 0, 0, 0, 2, 3,
    3, 3, 2, 0, 0, 2, 3, 3,
    3, 5, 5, 5, 5, 5, 5, 3,
    5, 5, 3, 3, 3, 3, 5, 5,
];

/// The bonus for each castling right that is held.
pub const POSSIBLE_CASTLING_VALUE: i32 = 5;

// The material values, in hundredths of a pawn.
pub const PAWN_VALUE: i32 = 100;
pub const KNIGHT_VALUE: i32 = 350;
pub const BISHOP_VALUE: i32 = 350;
pub const ROOK_VALUE: i32 = 525;
pub const QUEEN_VALUE: i32 = 1000;

/// What a piece on a square is worth, from White's point of view: its
/// material value and the bonus of its square, negated for a black piece.
/// The tables list the squares from A8 by ranks down to H1.
pub open spec fn square_score(piece: int, sq: int) -> int {
    let i = 63 - sq;
    if piece == 2 {
        PAWN_VALUE + WHITE_PAWN_EVAL[i]
    } else if piece == 3 {
        -(PAWN_VALUE + BLACK_PAWN_EVAL[i])
    } else if piece == 4 {
        KNIGHT_VALUE + KNIGHT_EVAL[i]
    } else if piece == 5 {
        -(KNIGHT_VALUE + KNIGHT_EVAL[i])
    } else if piece == 6 {
        BISHOP_VALUE + BISHOP_EVAL[i]
    } else if piece == 7 {
        -(BISHOP_VALUE + BISHOP_EVAL[i])
    } else if piece == 8 {
        ROOK_VALUE + ROOK_EVAL[i]
    } else if piece == 9 {
        -(ROOK_VALUE + ROOK_EVAL[i])
    } else if piece == 10 {
        QUEEN_VALUE + QUEEN_EVAL[i]
    } else if piece == 11 {
        -(QUEEN_VALUE + QUEEN_EVAL[i])
    } else if piece == 12 {
        WHITE_KING_EVAL[i] as int
    } else if piece == 13 {
        -BLACK_KING_EVAL[i]
    } else {
        0
    }
}

/// The scores of the pieces on the squares below `n`, added up.
pub open spec fn board_score(bb: Seq<u64>, n: int) -> int
    decreases n,
{
    if n <= 0 {
        0
    } else {
        board_score(bb, n - 1) + square_score(piece_in(bb, n - 1), n - 1)
    }
}

/// Five for each castling right of White, minus five for each of Black.
pub open spec fn castling_score(p: Position) -> int {
    (if p.white_king_castle {
        5int
    } else {
        0int
    }) + (if p.white_queen_castle {
        5int
    } else {
        0int
    }) - (if p.black_king_castle {
        5int
    } else {
        0int
    }) - (if p.black_queen_castle {
        5int
    } else {
        0int
    })
}

impl Position {
    /// The static evaluation, positive where White is better: 0 in a drawn
    /// position, else material, square bonuses and castling rights.
    pub open spec fn evaluation(self) -> int {
        if self.drawn() {
            0
        } else {
            board_score(self.bb, 64) + castling_score(self)
        }
    }

    /// The static evaluation from the point of view of the side to move.
    pub open spec fn relative_evaluation(self) -> int {
        if self.white_to_move {
            self.evaluation()
        } else {
            -self.evaluation()
        }
    }
}

/// The scores of the squares below `n` add up to at most 1030 for each.
pub proof fn lemma_board_score_bounds(bb: Seq<u64>, n: int)
    requires
        0 <= n <= 64,
    ensures
        -1030 * n <= board_score(bb, n) <= 1030 * n,
    decreases n,
{
    if n > 0 {
        lemma_board_score_bounds(bb, n - 1);
        lemma_table_bounds(63 - (n - 1));
    }
}

/// No position is valued beyond 66000 either way.
pub proof fn lemma_evaluation_bounds(p: Position)
    ensures
        -66000 <= p.evaluation() <= 66000,
        -66000 <= p.relative_evaluation() <= 66000,
{
    lemma_board_score_bounds(p.bb, 64);
}

proof fn lemma_table_bounds(i: int)
    requires
        0 <= i < 64,
    ensures
        0 <= WHITE_PAWN_EVAL[i] <= 30,
        0 <= BLACK_PAWN_EVAL[i] <= 30,
        0 <= KNIGHT_EVAL[i] <= 30,
        0 <= BISHOP_EVAL[i] <= 30,
        0 <= ROOK_EVAL[i] <= 30,
        0 <= QUEEN_EVAL[i] <= 30,
        0 <= WHITE_KING_EVAL[i] <= 30,
        0 <= BLACK_KING_EVAL[i] <= 30,
{
}

fn score_of(piece: usize, index: usize) -> (score: i32)
    requires
        index < 64,
    ensures
        score == square_score(piece as int, index as int),
        -1030 <= score <= 1030,
{
    let i = 63 - index;
    proof {
        lemma_table_bounds(i as int);
    }
    if piece == 2 {
        PAWN_VALUE + WHITE_PAWN_EVAL[i]
    } else if piece == 3 {
        -(PAWN_VALUE + BLACK_PAWN_EVAL[i])
    } else if piece == 4 {
        KNIGHT_VALUE + KNIGHT_EVAL[i]
    } else if piece == 5 {
        -(KNIGHT_VALUE + KNIGHT_EVAL[i])
    } else if piece == 6 {
        BISHOP_VALUE + BISHOP_EVAL[i]
    } else if piece == 7 {
        -(BISHOP_VALUE + BISHOP_EVAL[i])
    } else if piece == 8 {
        ROOK_VALUE + ROOK_EVAL[i]
    } else if piece == 9 {
        -(ROOK_VALUE + ROOK_EVAL[i])
    } else if piece == 10 {
        QUEEN_VALUE + QUEEN_EVAL[i]
    } else if piece == 11 {
        -(QUEEN_VALUE + QUEEN_EVAL[i])
    } else if piece == 12 {
        WHITE_KING_EVAL[i]
    } else if piece == 13 {
        -BLACK_KING_EVAL[i]
    } else {
        0
    }
}

impl<'a> Board<'a> {
    /// The static evaluation of the position, positive where White is better.
    pub fn evaluate(&self) -> (eval: i32)
        requires
            self.wf(),
        ensures
            eval == self@.evaluation(),
            -66000 <= eval <= 66000,
    {
        if self.meta.halfmove_clock >= 100 || self.is_repetition() {
            return 0;
        }
        let mut eval: i32 = 0;
        let mut index: usize = 0;
        while index < 64
            invariant
                index <= 64,
                self.wf(),
                eval == board_score(self@.bb, index as int),
                -1030 * index <= eval <= 1030 * index,
            decreases 64 - index,
        {
            let piece = self.piece_on(index);
            eval = eval + score_of(piece, index);
            index += 1;
        }
        if self.meta.white_king_castle {
            eval += POSSIBLE_CASTLING_VALUE;
        }
        if self.meta.white_queen_castle {
            eval += POSSIBLE_CASTLING_VALUE;
        }
        if self.meta.black_king_castle {
            eval -= POSSIBLE_CASTLING_VALUE;
        }
        if self.meta.black_queen_castle {
            eval -= POSSIBLE_CASTLING_VALUE;
        }
        eval
    }

    /// The static evaluation from the point of view of the side to move.
    pub fn evaluate_relative(&self) -> (eval: i32)
        requires
            self.wf(),
        ensures
            eval == self@.relative_evaluation(),
            eval == if self@.white_to_move {
                self@.evaluation()
            } else {
                -self@.evaluation()
            },
            -66000 <= eval <= 66000,
    {
        if self.white_to_move {
            self.evaluate()
        } else {
            -self.evaluate()
        }
    }
}

} // verus!
