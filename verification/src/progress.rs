//! Why every game ends: a measure of the position that each move lowers.
use vstd::prelude::*;
use crate::bits::rank_of;
use crate::chess_move::{ChessMove, CASTLING_MOVE, EN_PASSANT_MOVE, NORMAL_MOVE, PROMOTION_MOVE};
use crate::make_move::{ep_victim, lemma_single_members, promoted_piece, rook_from, rook_to};
use crate::movegen::lemma_blockers;
use crate::position::{lemma_put, lemma_remove, piece_in, put, remove, Position};
use crate::zobrist::HashTable;

verus! {

/// The weight of a piece on a square: 8 for a piece, and for a pawn 8 and
/// the number of ranks it has still to go, counted from the far side's back
/// rank.
pub open spec fn weight(piece: int, sq: int) -> int {
    if piece == 2 {
        8 + (7 - rank_of(sq))
    } else if piece == 3 {
        8 + rank_of(sq)
    } else if 4 <= piece < 14 {
        8
    } else {
        0
    }
}

/// The weights of the pieces on the squares below `n`, added up.
pub open spec fn weights(bb: Seq<u64>, n: int) -> int
    decreases n,
{
    if n <= 0 {
        0
    } else {
        weights(bb, n - 1) + weight(piece_in(bb, n - 1), n - 1)
    }
}

impl Position {
    /// An upper bound on the number of moves that can still be played from
    /// here: captures and pawn moves lower the weight of the pieces, and
    /// between two of them the fifty-move clock runs out.
    pub open spec fn plies_left(self) -> int {
        101 * weights(self.bb, 64) + (100 - self.halfmove)
    }
}

/// No square weighs more than 15.
pub proof fn lemma_weights_bounds(bb: Seq<u64>, n: int)
    requires
        0 <= n <= 64,
    ensures
        0 <= weights(bb, n) <= 15 * n,
    decreases n,
{
    if n > 0 {
        lemma_weights_bounds(bb, n - 1);
    }
}

/// If two sets of bitboards show the same pieces everywhere but on `s`,
/// their weights differ by the two weights of `s`.
pub proof fn lemma_weights_frame(a: Seq<u64>, b: Seq<u64>, s: int, n: int)
    requires
        0 <= n <= 64,
        forall|i: int| 0 <= i < n && i != s ==> piece_in(a, i) == piece_in(b, i),
    ensures
        weights(b, n) == if 0 <= s < n {
            weights(a, n) - weight(piece_in(a, s), s) + weight(piece_in(b, s), s)
        } else {
            weights(a, n)
        },
    decreases n,
{
    if n > 0 {
        lemma_weights_frame(a, b, s, n - 1);
    }
}

impl Position {
    /// Every pseudo-legal move lowers the bound on the moves still to come,
    /// and the bound is never negative.
    pub proof fn lemma_move_lowers_plies_left(self, m: ChessMove, keys: &HashTable)
        requires
            self.wf(),
            self.pseudo_legal(m),
        ensures
            0 <= self.apply(m, keys).plies_left() < self.plies_left(),
    {
        m.lemma_fields();
        self.lemma_pseudo_legal_accepts(m);
        self.lemma_apply_wf(m, keys);
        lemma_blockers(self.bb);
        let c = self.side();
        let f = m.src();
        let t = m.dst();
        if m.kind() == EN_PASSANT_MOVE {
            lemma_single_members(self.ep);
        }
        let s2 = if m.kind() == NORMAL_MOVE || m.kind() == PROMOTION_MOVE {
            t
        } else if m.kind() == EN_PASSANT_MOVE {
            ep_victim(c, t)
        } else {
            rook_from(t)
        };
        let y = if m.kind() == NORMAL_MOVE {
            self.piece_at(f)
        } else if m.kind() == PROMOTION_MOVE {
            promoted_piece(m.promo()) + c
        } else if m.kind() == EN_PASSANT_MOVE {
            2 + c
        } else {
            12 + c
        };
        let b0 = self.bb;
        let b1 = remove(b0, f);
        lemma_remove(b0, f);
        lemma_weights_frame(b0, b1, f, 64);
        let b2 = remove(b1, s2);
        lemma_remove(b1, s2);
        lemma_weights_frame(b1, b2, s2, 64);
        let b3 = put(b2, y, t);
        lemma_put(b2, y, t);
        lemma_weights_frame(b2, b3, t, 64);
        if m.kind() == CASTLING_MOVE {
            let b4 = put(b3, 8 + c, rook_to(t));
            lemma_put(b3, 8 + c, rook_to(t));
            lemma_weights_frame(b3, b4, rook_to(t), 64);
        }
        lemma_weights_bounds(self.apply(m, keys).bb, 64);
    }
}

} // verus!
