//! Laws that relate several parts of the engine.
use vstd::prelude::*;
use crate::attacks::{
    bishop_attacks, king_attacks, knight_attacks, lemma_bishop_attacks_back, lemma_king_attacks,
    lemma_knight_attacks, lemma_rook_attacks_back, queen_attacks, rook_attacks,
};
use crate::bits::{lemma_mem_ops, lsb, mem};
use crate::movegen::pawn_attack;
use crate::position::is_side;
use crate::chess_move::{
    lemma_square_name_round_trip, promotion_letter, square_name, ChessMove, PROMOTION_MOVE,
};
use crate::make_move::lemma_single_members;
use crate::movegen::lemma_blockers;
use crate::eval::{board_score, castling_score, square_score};
use crate::position::{piece_in, Position};
use crate::zobrist::HashTable;

verus! {

/// After a legal move the position is well-formed again, its key is the key
/// computed from scratch, no castling right has come back, and the side
/// that moved is not in check.
pub proof fn lemma_legal_move_keeps_invariants(p: Position, m: ChessMove, keys: &HashTable)
    requires
        p.wf(),
        p.legal(m, keys),
    ensures
        p.apply(m, keys).wf(),
        p.apply(m, keys).hash == keys.key_of(p.apply(m, keys)),
        p.apply(m, keys).white_king_castle ==> p.white_king_castle,
        p.apply(m, keys).white_queen_castle ==> p.white_queen_castle,
        p.apply(m, keys).black_king_castle ==> p.black_king_castle,
        p.apply(m, keys).black_queen_castle ==> p.black_queen_castle,
        !p.apply(m, keys).in_check(1 - p.apply(m, keys).side()),
        p.apply(m, keys).halfmove <= 100,
{
    p.lemma_pseudo_legal_accepts(m);
    p.lemma_apply_wf(m, keys);
}

/// Two squares with the same name are the same square.
pub proof fn lemma_square_names_differ(a: int, b: int)
    requires
        0 <= a < 64,
        0 <= b < 64,
        square_name(a) == square_name(b),
    ensures
        a == b,
{
    lemma_square_name_round_trip(a);
    lemma_square_name_round_trip(b);
}

/// Two moves with the same notation go from the same square to the same
/// square, and are both promotions to the same piece or both none.
pub proof fn lemma_same_notation(a: ChessMove, b: ChessMove)
    requires
        a.notation() == b.notation(),
    ensures
        a.src() == b.src(),
        a.dst() == b.dst(),
        (a.kind() == PROMOTION_MOVE) == (b.kind() == PROMOTION_MOVE),
        a.kind() == PROMOTION_MOVE ==> a.promo() == b.promo(),
{
    a.lemma_fields();
    b.lemma_fields();
    let na = a.notation();
    let nb = b.notation();
    assert(na.len() == if a.kind() == PROMOTION_MOVE {
        5int
    } else {
        4int
    });
    assert(nb.len() == if b.kind() == PROMOTION_MOVE {
        5int
    } else {
        4int
    });
    assert(square_name(a.src()) =~= na.subrange(0, 2));
    assert(square_name(b.src()) =~= nb.subrange(0, 2));
    assert(square_name(a.dst()) =~= na.subrange(2, 4));
    assert(square_name(b.dst()) =~= nb.subrange(2, 4));
    lemma_square_names_differ(a.src(), b.src());
    lemma_square_names_differ(a.dst(), b.dst());
    if a.kind() == PROMOTION_MOVE {
        assert(na[4] == promotion_letter(a.promo()));
        assert(nb[4] == promotion_letter(b.promo()));
    }
}

/// In a well-formed position no two pseudo-legal moves share a notation: the
/// text of a move names it.
pub proof fn lemma_notation_names_the_move(p: Position, a: ChessMove, b: ChessMove)
    requires
        p.wf(),
        p.pseudo_legal(a),
        p.pseudo_legal(b),
        a.notation() == b.notation(),
    ensures
        a == b,
{
    a.lemma_fields();
    b.lemma_fields();
    lemma_same_notation(a, b);
    lemma_blockers(p.bb);
    let f = a.src();
    let t = a.dst();
    if p.ep != 0 {
        lemma_single_members(p.ep);
    }
    lemma_king_attacks(3, 1);
    lemma_king_attacks(3, 5);
    lemma_king_attacks(59, 57);
    lemma_king_attacks(59, 61);
    a.lemma_same_fields(b);
}

/// Where the side that has just moved is not in check, no piece of the side
/// to move attacks its king: the moves of the pieces, which never take a
/// king, leave none of their attacked squares out on that account.
pub proof fn lemma_king_out_of_reach(p: Position, f: int)
    requires
        p.wf(),
        !p.in_check(1 - p.side()),
        0 <= f < 64,
        is_side(p.piece_at(f), p.side()),
    ensures
        ({
            let c = p.side();
            let k = lsb(p.bb[13 - c]);
            let x = p.piece_at(f);
            let occ = p.occupied();
            &&& 0 <= k < 64
            &&& p.piece_at(k) == 13 - c
            &&& x == 4 + c ==> !mem(knight_attacks(f), k)
            &&& x == 12 + c ==> !mem(king_attacks(f), k)
            &&& x == 6 + c || x == 10 + c ==> !mem(bishop_attacks(f, occ), k)
            &&& x == 8 + c || x == 10 + c ==> !mem(rook_attacks(f, occ), k)
            &&& x == 10 + c ==> !mem(queen_attacks(f, occ), k)
            &&& x == 2 + c ==> !pawn_attack(c, f, k)
        }),
{
    let c = p.side();
    let k = lsb(p.bb[13 - c]);
    let occ = p.occupied();
    lemma_single_members(p.bb[13 - c]);
    assert(mem(p.bb[13 - c], k));
    assert(!p.attacks_square(f, k, c));
    lemma_knight_attacks(f, k);
    lemma_knight_attacks(k, f);
    lemma_king_attacks(f, k);
    lemma_king_attacks(k, f);
    if mem(bishop_attacks(f, occ), k) {
        lemma_bishop_attacks_back(f, k, occ);
    }
    if mem(rook_attacks(f, occ), k) {
        lemma_rook_attacks_back(f, k, occ);
    }
    lemma_mem_ops(rook_attacks(f, occ), bishop_attacks(f, occ), k);
}

/// A position drawn by the fifty-move rule or by repetition offers no move
/// and is valued at nothing.
pub proof fn lemma_drawn_position(p: Position)
    requires
        p.halfmove >= 100 || crate::position::count_key(p.history, p.hash) >= 2,
    ensures
        forall|m: ChessMove| !p.pseudo_legal(m),
        p.evaluation() == 0,
        p.relative_evaluation() == 0,
{
}

/// The evaluation seen by the side to move is the evaluation for White, or
/// its negation where Black is to move.
pub proof fn lemma_relative_evaluation(p: Position)
    ensures
        p.relative_evaluation() == if p.white_to_move {
            p.evaluation()
        } else {
            -p.evaluation()
        },
{
}

/// The square on the same file that is as far from rank 8 as `sq` is from
/// rank 1.
pub open spec fn mirror_square(sq: int) -> int {
    8 * (7 - sq / 8) + sq % 8
}

/// The same piece of the other colour.
pub open spec fn other_side(piece: int) -> int {
    if 2 <= piece < 14 {
        if piece % 2 == 0 {
            piece + 1
        } else {
            piece - 1
        }
    } else {
        piece
    }
}

/// `q` is `p` seen from the other side: the board turned upside down, the
/// colours of the pieces, the castling rights and the side to move
/// exchanged, and drawn if and only if `p` is.
pub open spec fn mirrored(p: Position, q: Position) -> bool {
    &&& forall|sq: int| 0 <= sq < 64 ==> q.piece_at(#[trigger] mirror_square(sq)) == other_side(p.piece_at(sq))
    &&& q.white_to_move != p.white_to_move
    &&& q.white_king_castle == p.black_king_castle
    &&& q.white_queen_castle == p.black_queen_castle
    &&& q.black_king_castle == p.white_king_castle
    &&& q.black_queen_castle == p.white_queen_castle
    &&& q.drawn() == p.drawn()
}

/// The square tables of the two colours mirror each other.
pub proof fn lemma_mirrored_square(piece: int, sq: int)
    requires
        0 <= sq < 64,
    ensures
        square_score(other_side(piece), mirror_square(sq)) == -square_score(piece, sq),
{
}

/// The score of what stands on the square `sq`.
#[verifier::opaque]
pub open spec fn score_at(bb: Seq<u64>, sq: int) -> int {
    square_score(piece_in(bb, sq), sq)
}

/// The scores of the eight squares of the rank `r`.
pub open spec fn rank_score(bb: Seq<u64>, r: int) -> int {
    board_score(bb, 8 * r + 8) - board_score(bb, 8 * r)
}

proof fn lemma_rank_score(bb: Seq<u64>, r: int)
    requires
        0 <= r < 8,
    ensures
        rank_score(bb, r) == score_at(bb, 8 * r) + score_at(bb, 8 * r + 1) + score_at(bb, 8 * r + 2)
            + score_at(bb, 8 * r + 3) + score_at(bb, 8 * r + 4) + score_at(bb, 8 * r + 5) + score_at(
            bb,
            8 * r + 6,
        ) + score_at(bb, 8 * r + 7),
{
    reveal(score_at);
    let n = 8 * r;
    assert(board_score(bb, n + 1) == board_score(bb, n) + square_score(piece_in(bb, n), n));
    assert(board_score(bb, n + 2) == board_score(bb, n + 1) + square_score(piece_in(bb, n + 1), n + 1));
    assert(board_score(bb, n + 3) == board_score(bb, n + 2) + square_score(piece_in(bb, n + 2), n + 2));
    assert(board_score(bb, n + 4) == board_score(bb, n + 3) + square_score(piece_in(bb, n + 3), n + 3));
    assert(board_score(bb, n + 5) == board_score(bb, n + 4) + square_score(piece_in(bb, n + 4), n + 4));
    assert(board_score(bb, n + 6) == board_score(bb, n + 5) + square_score(piece_in(bb, n + 5), n + 5));
    assert(board_score(bb, n + 7) == board_score(bb, n + 6) + square_score(piece_in(bb, n + 6), n + 6));
    assert(board_score(bb, n + 8) == board_score(bb, n + 7) + square_score(piece_in(bb, n + 7), n + 7));
}

proof fn lemma_mirrored_at(p: Position, q: Position, r: int, x: int)
    requires
        mirrored(p, q),
        0 <= r < 8,
        0 <= x < 8,
    ensures
        score_at(q.bb, 8 * (7 - r) + x) == -score_at(p.bb, 8 * r + x),
{
    reveal(score_at);
    let sq = 8 * r + x;
    assert(mirror_square(sq) == 8 * (7 - r) + x);
    assert(q.piece_at(mirror_square(sq)) == other_side(p.piece_at(sq)));
    lemma_mirrored_square(p.piece_at(sq), sq);
}

proof fn lemma_mirrored_rank(p: Position, q: Position, r: int)
    requires
        mirrored(p, q),
        0 <= r < 8,
    ensures
        rank_score(q.bb, 7 - r) == -rank_score(p.bb, r),
{
    lemma_rank_score(p.bb, r);
    lemma_rank_score(q.bb, 7 - r);
    lemma_mirrored_at(p, q, r, 0);
    lemma_mirrored_at(p, q, r, 1);
    lemma_mirrored_at(p, q, r, 2);
    lemma_mirrored_at(p, q, r, 3);
    lemma_mirrored_at(p, q, r, 4);
    lemma_mirrored_at(p, q, r, 5);
    lemma_mirrored_at(p, q, r, 6);
    lemma_mirrored_at(p, q, r, 7);
}

/// Seen from the other side, a position is worth the opposite for White
/// and the same for the side to move.
pub proof fn lemma_mirrored_evaluation(p: Position, q: Position)
    requires
        mirrored(p, q),
    ensures
        q.evaluation() == -p.evaluation(),
        q.relative_evaluation() == p.relative_evaluation(),
{
    lemma_mirrored_rank(p, q, 0);
    lemma_mirrored_rank(p, q, 1);
    lemma_mirrored_rank(p, q, 2);
    lemma_mirrored_rank(p, q, 3);
    lemma_mirrored_rank(p, q, 4);
    lemma_mirrored_rank(p, q, 5);
    lemma_mirrored_rank(p, q, 6);
    lemma_mirrored_rank(p, q, 7);
    assert(board_score(p.bb, 0) == 0);
    assert(board_score(q.bb, 0) == 0);
    assert(castling_score(q) == -castling_score(p));
}

} // verus!
