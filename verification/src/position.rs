//! The mathematical model of a chess position: fourteen sets of squares and
//! the state that travels with them.
use vstd::prelude::*;
use crate::bits::{lemma_ext, lemma_mem_ops, lemma_mem_single, lsb, mem, rank_of};
use crate::chess_move::is_single;

verus! {

// The colours. A colour added to a piece gives the index of a bitboard.
pub const WHITE: usize = 0;
pub const BLACK: usize = 1;

// The pieces, as the indices of the bitboards of the white pieces.
pub const PAWN: usize = 2;
pub const KNIGHT: usize = 4;
pub const BISHOP: usize = 6;
pub const ROOK: usize = 8;
pub const QUEEN: usize = 10;
pub const KING: usize = 12;

/// What stands for no piece.
pub const EMPTY_SQUARE: usize = 14;

/// The one-square set of `sq`.
pub open spec fn sq_bit(sq: int) -> u64 {
    1u64 << (sq as u64)
}

/// A piece code of the white side.
pub open spec fn is_white(piece: int) -> bool {
    2 <= piece < 14 && piece % 2 == 0
}

/// A piece code of the black side.
pub open spec fn is_black(piece: int) -> bool {
    2 <= piece < 14 && piece % 2 == 1
}

/// A piece code of the side `color`.
pub open spec fn is_side(piece: int, color: int) -> bool {
    2 <= piece < 14 && piece % 2 == color
}

/// The piece that the bitboards `bb` show on `sq`, or `EMPTY_SQUARE`.
pub open spec fn piece_in(bb: Seq<u64>, sq: int) -> int {
    if mem(bb[2], sq) {
        2
    } else if mem(bb[3], sq) {
        3
    } else if mem(bb[4], sq) {
        4
    } else if mem(bb[5], sq) {
        5
    } else if mem(bb[6], sq) {
        6
    } else if mem(bb[7], sq) {
        7
    } else if mem(bb[8], sq) {
        8
    } else if mem(bb[9], sq) {
        9
    } else if mem(bb[10], sq) {
        10
    } else if mem(bb[11], sq) {
        11
    } else if mem(bb[12], sq) {
        12
    } else if mem(bb[13], sq) {
        13
    } else {
        14
    }
}

/// The bitboards are consistent: a square holds at most one piece, and the
/// two colour boards are the unions of the piece boards of their colour.
pub open spec fn boards_wf(bb: Seq<u64>) -> bool {
    &&& bb.len() == 14
    &&& forall|k: int, sq: int|
        2 <= k < 14 && 0 <= sq < 64 ==> (#[trigger] mem(bb[k], sq) <==> piece_in(bb, sq) == k)
    &&& forall|sq: int| 0 <= sq < 64 ==> (#[trigger] mem(bb[0], sq) <==> is_white(piece_in(bb, sq)))
    &&& forall|sq: int| 0 <= sq < 64 ==> (#[trigger] mem(bb[1], sq) <==> is_black(piece_in(bb, sq)))
}

/// The bitboards with whatever stood on `sq` taken off.
pub open spec fn remove(bb: Seq<u64>, sq: int) -> Seq<u64> {
    Seq::new(14, |k: int| bb[k] & !sq_bit(sq))
}

/// The bitboards with `piece` set on `sq`.
pub open spec fn put(bb: Seq<u64>, piece: int, sq: int) -> Seq<u64> {
    Seq::new(
        14,
        |k: int|
            if k == piece || k == piece % 2 {
                bb[k] | sq_bit(sq)
            } else {
                bb[k]
            },
    )
}

/// The members of a bitboard after a removal.
pub proof fn lemma_mem_remove(bb: Seq<u64>, s: int, k: int, i: int)
    requires
        0 <= s < 64,
        0 <= k < 14,
    ensures
        mem(remove(bb, s)[k], i) == (mem(bb[k], i) && i != s),
{
    lemma_mem_single(s, i);
    if 0 <= i < 64 {
        lemma_mem_ops(bb[k], !sq_bit(s), i);
        lemma_mem_ops(sq_bit(s), 0, i);
    }
}

/// The members of a bitboard after a piece is set.
pub proof fn lemma_mem_put(bb: Seq<u64>, piece: int, s: int, k: int, i: int)
    requires
        0 <= s < 64,
        0 <= k < 14,
        bb.len() == 14,
    ensures
        mem(put(bb, piece, s)[k], i) == (mem(bb[k], i) || (i == s && (k == piece || k == piece % 2))),
{
    lemma_mem_single(s, i);
    if 0 <= i < 64 {
        lemma_mem_ops(bb[k], sq_bit(s), i);
    }
}

/// Taking a piece off a square empties that square and leaves the others.
pub proof fn lemma_remove(bb: Seq<u64>, s: int)
    requires
        boards_wf(bb),
        0 <= s < 64,
    ensures
        boards_wf(remove(bb, s)),
        forall|i: int|
            0 <= i < 64 ==> #[trigger] piece_in(remove(bb, s), i) == if i == s {
                14
            } else {
                piece_in(bb, i)
            },
{
    let r = remove(bb, s);
    assert forall|k: int, i: int| 0 <= k < 14 && 0 <= i < 64 implies #[trigger] mem(r[k], i) == (mem(
        bb[k],
        i,
    ) && i != s) by {
        lemma_mem_remove(bb, s, k, i);
    }
    assert forall|i: int| 0 <= i < 64 implies #[trigger] piece_in(r, i) == if i == s {
        14
    } else {
        piece_in(bb, i)
    } by {
        assert(forall|k: int| 2 <= k < 14 ==> mem(r[k], i) == (mem(bb[k], i) && i != s));
    }
}

/// Setting a piece on an empty square fills that square and leaves the others.
pub proof fn lemma_put(bb: Seq<u64>, piece: int, s: int)
    requires
        boards_wf(bb),
        0 <= s < 64,
        2 <= piece < 14,
        piece_in(bb, s) == 14,
    ensures
        boards_wf(put(bb, piece, s)),
        forall|i: int|
            0 <= i < 64 ==> #[trigger] piece_in(put(bb, piece, s), i) == if i == s {
                piece
            } else {
                piece_in(bb, i)
            },
{
    let r = put(bb, piece, s);
    assert forall|k: int, i: int| 0 <= k < 14 && 0 <= i < 64 implies #[trigger] mem(r[k], i) == (mem(
        bb[k],
        i,
    ) || (i == s && (k == piece || k == piece % 2))) by {
        lemma_mem_put(bb, piece, s, k, i);
    }
    assert forall|i: int| 0 <= i < 64 implies #[trigger] piece_in(r, i) == if i == s {
        piece
    } else {
        piece_in(bb, i)
    } by {
        assert(forall|k: int|
            2 <= k < 14 ==> mem(r[k], i) == (mem(bb[k], i) || (i == s && (k == piece || k == piece % 2))));
        assert(forall|k: int| 2 <= k < 14 ==> (mem(bb[k], i) <==> piece_in(bb, i) == k));
    }
}

/// On consistent bitboards each colour board is the union of the six piece
/// boards of its colour, and the two colour boards have no square in common.
pub proof fn lemma_colour_boards(bb: Seq<u64>)
    requires
        boards_wf(bb),
    ensures
        bb[0] == bb[2] | bb[4] | bb[6] | bb[8] | bb[10] | bb[12],
        bb[1] == bb[3] | bb[5] | bb[7] | bb[9] | bb[11] | bb[13],
        bb[0] & bb[1] == 0,
{
    let w = bb[2] | bb[4] | bb[6] | bb[8] | bb[10] | bb[12];
    let b = bb[3] | bb[5] | bb[7] | bb[9] | bb[11] | bb[13];
    assert forall|i: int| 0 <= i < 64 implies mem(bb[0], i) == mem(w, i) by {
        lemma_mem_ops(bb[2], bb[4], i);
        lemma_mem_ops(bb[2] | bb[4], bb[6], i);
        lemma_mem_ops(bb[2] | bb[4] | bb[6], bb[8], i);
        lemma_mem_ops(bb[2] | bb[4] | bb[6] | bb[8], bb[10], i);
        lemma_mem_ops(bb[2] | bb[4] | bb[6] | bb[8] | bb[10], bb[12], i);
    }
    lemma_ext(bb[0], w);
    assert forall|i: int| 0 <= i < 64 implies mem(bb[1], i) == mem(b, i) by {
        lemma_mem_ops(bb[3], bb[5], i);
        lemma_mem_ops(bb[3] | bb[5], bb[7], i);
        lemma_mem_ops(bb[3] | bb[5] | bb[7], bb[9], i);
        lemma_mem_ops(bb[3] | bb[5] | bb[7] | bb[9], bb[11], i);
        lemma_mem_ops(bb[3] | bb[5] | bb[7] | bb[9] | bb[11], bb[13], i);
    }
    lemma_ext(bb[1], b);
    assert forall|i: int| 0 <= i < 64 implies mem(bb[0] & bb[1], i) == mem(0, i) by {
        lemma_mem_ops(bb[0], bb[1], i);
        lemma_mem_ops(0, 0, i);
    }
    lemma_ext(bb[0] & bb[1], 0);
}

/// Consistent bitboards that show the same piece on every square are equal.
pub proof fn lemma_boards_ext(a: Seq<u64>, b: Seq<u64>)
    requires
        boards_wf(a),
        boards_wf(b),
        forall|i: int| 0 <= i < 64 ==> piece_in(a, i) == piece_in(b, i),
    ensures
        a == b,
{
    assert forall|k: int| 0 <= k < 14 implies a[k] == b[k] by {
        assert forall|i: int| 0 <= i < 64 implies mem(a[k], i) == mem(b[k], i) by {
            assert(piece_in(a, i) == piece_in(b, i));
        }
        lemma_ext(a[k], b[k]);
    }
    assert(a =~= b);
}

/// A chess position.
pub struct Position {
    /// White pieces, black pieces, white pawns, black pawns, white knights, ...
    pub bb: Seq<u64>,
    pub white_to_move: bool,
    pub white_king_castle: bool,
    pub white_queen_castle: bool,
    pub black_king_castle: bool,
    pub black_queen_castle: bool,
    /// The square a pawn has just passed over, as a one-square set, or 0.
    pub ep: u64,
    pub halfmove: int,
    pub fullmove: int,
    pub hash: u64,
    /// The keys of the positions that led here, oldest first.
    pub history: Seq<u64>,
}

impl Position {
    /// The piece on `sq`, or `EMPTY_SQUARE`.
    pub open spec fn piece_at(self, sq: int) -> int {
        piece_in(self.bb, sq)
    }

    /// The side to move: `WHITE` or `BLACK`.
    pub open spec fn side(self) -> int {
        if self.white_to_move {
            0
        } else {
            1
        }
    }

    /// All occupied squares.
    pub open spec fn occupied(self) -> u64 {
        self.bb[0] | self.bb[1]
    }

    /// Each side has exactly one king.
    pub open spec fn kings_wf(self) -> bool {
        is_single(self.bb[12]) && is_single(self.bb[13])
    }

    /// An en-passant target is one empty square on the sixth rank of the side
    /// to move, with a pawn of the other side right behind it.
    pub open spec fn ep_wf(self) -> bool {
        self.ep == 0 || {
            let e = lsb(self.ep);
            &&& is_single(self.ep)
            &&& self.piece_at(e) == 14
            &&& if self.white_to_move {
                rank_of(e) == 5 && self.piece_at(e - 8) == 3
            } else {
                rank_of(e) == 2 && self.piece_at(e + 8) == 2
            }
        }
    }

    /// A castling right is held only while king and rook stand on their
    /// home squares.
    pub open spec fn castling_wf(self) -> bool {
        &&& self.white_king_castle ==> self.piece_at(3) == 12 && self.piece_at(0) == 8
        &&& self.white_queen_castle ==> self.piece_at(3) == 12 && self.piece_at(7) == 8
        &&& self.black_king_castle ==> self.piece_at(59) == 13 && self.piece_at(56) == 9
        &&& self.black_queen_castle ==> self.piece_at(59) == 13 && self.piece_at(63) == 9
    }

    /// The invariants of a position, but for its key.
    pub open spec fn wf(self) -> bool {
        &&& boards_wf(self.bb)
        &&& self.kings_wf()
        &&& self.ep_wf()
        &&& self.castling_wf()
        &&& 0 <= self.halfmove <= 100
        &&& 1 <= self.fullmove <= u32::MAX
    }

    /// The current key has occurred at least twice before.
    pub open spec fn repeated(self) -> bool {
        count_key(self.history, self.hash) >= 2
    }

    /// Drawn by the fifty-move rule or by repetition.
    pub open spec fn drawn(self) -> bool {
        self.halfmove >= 100 || self.repeated()
    }
}

/// How often `key` occurs in `history`.
pub open spec fn count_key(history: Seq<u64>, key: u64) -> nat
    decreases history.len(),
{
    if history.len() == 0 {
        0
    } else {
        count_key(history.drop_last(), key) + if history.last() == key {
            1nat
        } else {
            0nat
        }
    }
}

} // verus!
