//! Playing a move: what the position becomes, why it stays well-formed, and
//! the code that updates the board and its key in place.
use vstd::prelude::*;
use crate::bits::{lemma_ext, lemma_lsb, lemma_mem_ops, lemma_mem_single, lsb, mem, rank_of};
use crate::board::{Board, BoardMeta};
use crate::chess_move::{
    is_single, ChessMove, BISHOP_PROMOTION, CASTLING_MOVE, EN_PASSANT_MOVE, KNIGHT_PROMOTION,
    NORMAL_MOVE, PROMOTION_MOVE, ROOK_PROMOTION,
};
use crate::position::{
    boards_wf, is_side, lemma_mem_put, lemma_mem_remove, lemma_put, lemma_remove, piece_in, put,
    remove, sq_bit, Position,
};
use crate::zobrist::{lemma_xor_basics, HashTable};

verus! {

/// The piece code, without colour, that a promotion code stands for.
pub open spec fn promoted_piece(promo: u16) -> int {
    if promo == KNIGHT_PROMOTION {
        4
    } else if promo == BISHOP_PROMOTION {
        6
    } else if promo == ROOK_PROMOTION {
        8
    } else {
        10
    }
}

/// Where the rook stands before a castling move whose king goes to `t`.
pub open spec fn rook_from(t: int) -> int {
    if t == 1 {
        0
    } else if t == 5 {
        7
    } else if t == 57 {
        56
    } else {
        63
    }
}

/// Where the rook stands after a castling move whose king goes to `t`.
pub open spec fn rook_to(t: int) -> int {
    if t == 1 {
        2
    } else if t == 5 {
        4
    } else if t == 57 {
        58
    } else {
        60
    }
}

/// The square of the pawn that an en-passant capture to `t` by `color` removes.
pub open spec fn ep_victim(color: int, t: int) -> int {
    if color == 0 {
        t - 8
    } else {
        t + 8
    }
}

/// A bitboard whose only member is `s` is the one-square set of `s`.
pub proof fn lemma_single_from_members(b: u64, s: int)
    requires
        0 <= s < 64,
        forall|i: int| 0 <= i < 64 ==> (mem(b, i) <==> i == s),
    ensures
        is_single(b),
        lsb(b) == s,
        b == sq_bit(s),
{
    lemma_lsb(b);
    assert(mem(b, s));
    crate::bits::lemma_empty(b);
    assert forall|i: int| 0 <= i < 64 implies mem(b, i) == mem(sq_bit(s), i) by {
        lemma_mem_single(s, i);
    }
    lemma_ext(b, sq_bit(s));
}

/// The only member of a one-square set is its lowest member.
pub proof fn lemma_single_members(b: u64)
    requires
        is_single(b),
    ensures
        0 <= lsb(b) < 64,
        forall|i: int| 0 <= i < 64 ==> (mem(b, i) <==> i == lsb(b)),
{
    lemma_lsb(b);
}

impl Position {
    /// What `make_move` asks of a move: the moved piece is there and may go
    /// where the move says, no king is taken, and the fifty-move clock has
    /// not run out.
    pub open spec fn accepts(self, m: ChessMove) -> bool {
        let c = self.side();
        let f = m.src();
        let t = m.dst();
        let x = self.piece_at(f);
        let e = self.piece_at(t);
        &&& self.halfmove < 100
        &&& if m.kind() == NORMAL_MOVE {
            &&& is_side(x, c)
            &&& !is_side(e, c)
            &&& e != 12 && e != 13
            &&& x == 2 && t == f + 16 ==> rank_of(f) == 1 && self.piece_at(f + 8) == 14
            &&& x == 3 && f == t + 16 ==> rank_of(f) == 6 && self.piece_at(f - 8) == 14
        } else if m.kind() == PROMOTION_MOVE {
            &&& x == 2 + c
            &&& !is_side(e, c)
            &&& e != 12 && e != 13
        } else if m.kind() == EN_PASSANT_MOVE {
            &&& x == 2 + c
            &&& self.ep != 0
            &&& t == lsb(self.ep)
        } else if c == 0 {
            &&& f == 3
            &&& t == 1 || t == 5
            &&& t == 1 ==> self.white_king_castle && self.piece_at(1) == 14 && self.piece_at(2) == 14
            &&& t == 5 ==> self.white_queen_castle && self.piece_at(4) == 14 && self.piece_at(5) == 14
        } else {
            &&& f == 59
            &&& t == 57 || t == 61
            &&& t == 57 ==> self.black_king_castle && self.piece_at(57) == 14 && self.piece_at(58) == 14
            &&& t == 61 ==> self.black_queen_castle && self.piece_at(60) == 14 && self.piece_at(61) == 14
        }
    }

    /// The move takes a piece.
    pub open spec fn captures(self, m: ChessMove) -> bool {
        m.kind() == EN_PASSANT_MOVE || ((m.kind() == NORMAL_MOVE || m.kind() == PROMOTION_MOVE)
            && self.piece_at(m.dst()) != 14)
    }

    /// The move is made by a pawn.
    pub open spec fn moves_pawn(self, m: ChessMove) -> bool {
        m.kind() == EN_PASSANT_MOVE || m.kind() == PROMOTION_MOVE || (m.kind() == NORMAL_MOVE && (
        self.piece_at(m.src()) == 2 || self.piece_at(m.src()) == 3))
    }

    /// The piece on square `i` after the move.
    pub open spec fn moved_piece_at(self, m: ChessMove, i: int) -> int {
        let c = self.side();
        let f = m.src();
        let t = m.dst();
        if m.kind() == NORMAL_MOVE {
            if i == f {
                14
            } else if i == t {
                self.piece_at(f)
            } else {
                self.piece_at(i)
            }
        } else if m.kind() == PROMOTION_MOVE {
            if i == f {
                14
            } else if i == t {
                promoted_piece(m.promo()) + c
            } else {
                self.piece_at(i)
            }
        } else if m.kind() == EN_PASSANT_MOVE {
            if i == f || i == ep_victim(c, t) {
                14
            } else if i == t {
                2 + c
            } else {
                self.piece_at(i)
            }
        } else {
            if i == f || i == rook_from(t) {
                14
            } else if i == t {
                12 + c
            } else if i == rook_to(t) {
                8 + c
            } else {
                self.piece_at(i)
            }
        }
    }

    /// The bitboards after the move: the moved piece leaves its square, what
    /// it takes leaves the board, and the piece lands (with the rook, when
    /// castling).
    pub open spec fn moved_boards(self, m: ChessMove) -> Seq<u64> {
        let c = self.side();
        let f = m.src();
        let t = m.dst();
        if m.kind() == NORMAL_MOVE {
            put(remove(remove(self.bb, f), t), self.piece_at(f), t)
        } else if m.kind() == PROMOTION_MOVE {
            put(remove(remove(self.bb, f), t), promoted_piece(m.promo()) + c, t)
        } else if m.kind() == EN_PASSANT_MOVE {
            put(remove(remove(self.bb, f), ep_victim(c, t)), 2 + c, t)
        } else {
            put(put(remove(remove(self.bb, f), rook_from(t)), 12 + c, t), 8 + c, rook_to(t))
        }
    }

    /// The en-passant target after the move: the square that a pawn's double
    /// step passes over, else none.
    pub open spec fn moved_ep(self, m: ChessMove) -> u64 {
        let f = m.src();
        let t = m.dst();
        if m.kind() == NORMAL_MOVE && self.piece_at(f) == 2 && t == f + 16 {
            sq_bit(f + 8)
        } else if m.kind() == NORMAL_MOVE && self.piece_at(f) == 3 && f == t + 16 {
            sq_bit(f - 8)
        } else {
            0
        }
    }

    /// The position after the move `m`, with its key computed from scratch
    /// over the key table `keys`.
    pub open spec fn apply(self, m: ChessMove, keys: &HashTable) -> Position {
        let f = m.src();
        let t = m.dst();
        let next = Position {
            bb: self.moved_boards(m),
            white_to_move: !self.white_to_move,
            white_king_castle: self.white_king_castle && f != 3 && f != 0 && t != 0,
            white_queen_castle: self.white_queen_castle && f != 3 && f != 7 && t != 7,
            black_king_castle: self.black_king_castle && f != 59 && f != 56 && t != 56,
            black_queen_castle: self.black_queen_castle && f != 59 && f != 63 && t != 63,
            ep: self.moved_ep(m),
            halfmove: if self.captures(m) || self.moves_pawn(m) {
                0
            } else {
                self.halfmove + 1
            },
            fullmove: if self.white_to_move || self.fullmove >= u32::MAX {
                self.fullmove
            } else {
                self.fullmove + 1
            },
            hash: 0,
            history: self.history.push(self.hash),
        };
        Position { hash: keys.key_of(next), ..next }
    }

    /// The bitboards after a move are consistent and show, square by square,
    /// the pieces that the move leaves.
    pub proof fn lemma_moved_boards(self, m: ChessMove)
        requires
            self.wf(),
            self.accepts(m),
        ensures
            boards_wf(self.moved_boards(m)),
            forall|i: int|
                0 <= i < 64 ==> #[trigger] piece_in(self.moved_boards(m), i) == self.moved_piece_at(m, i),
    {
        m.lemma_fields();
        let c = self.side();
        let f = m.src();
        let t = m.dst();
        if m.kind() == EN_PASSANT_MOVE {
            lemma_single_members(self.ep);
        }
        let s2 = if m.kind() == NORMAL_MOVE || m.kind() == PROMOTION_MOVE {
            t
        } else if m.kind() == EN_PASSANT_MOVE {
            ep_victim(c, t)
        } else {
            rook_from(t)
        };
        let b1 = remove(self.bb, f);
        lemma_remove(self.bb, f);
        let b2 = remove(b1, s2);
        lemma_remove(b1, s2);
        if m.kind() == NORMAL_MOVE {
            lemma_put(b2, self.piece_at(f), t);
        } else if m.kind() == PROMOTION_MOVE {
            lemma_put(b2, promoted_piece(m.promo()) + c, t);
        } else if m.kind() == EN_PASSANT_MOVE {
            lemma_put(b2, 2 + c, t);
        } else {
            let b3 = put(b2, 12 + c, t);
            lemma_put(b2, 12 + c, t);
            lemma_put(b3, 8 + c, rook_to(t));
        }
    }

    /// Every invariant of a position holds again after a move that the
    /// position accepts, and no castling right comes back.
    pub proof fn lemma_apply_wf(self, m: ChessMove, keys: &HashTable)
        requires
            self.wf(),
            self.accepts(m),
        ensures
            self.apply(m, keys).wf(),
            self.apply(m, keys).hash == keys.key_of(self.apply(m, keys)),
            self.apply(m, keys).white_king_castle ==> self.white_king_castle,
            self.apply(m, keys).white_queen_castle ==> self.white_queen_castle,
            self.apply(m, keys).black_king_castle ==> self.black_king_castle,
            self.apply(m, keys).black_queen_castle ==> self.black_queen_castle,
    {
        m.lemma_fields();
        self.lemma_moved_boards(m);
        let n = self.apply(m, keys);
        let c = self.side();
        let f = m.src();
        let t = m.dst();
        lemma_single_members(self.bb[12]);
        lemma_single_members(self.bb[13]);
        if m.kind() == EN_PASSANT_MOVE {
            lemma_single_members(self.ep);
        }
        let wk = lsb(self.bb[12]);
        let bk = lsb(self.bb[13]);
        let wk2 = if self.piece_at(f) == 12 {
            t
        } else {
            wk
        };
        let bk2 = if self.piece_at(f) == 13 {
            t
        } else {
            bk
        };
        assert forall|i: int| 0 <= i < 64 implies (mem(n.bb[12], i) <==> i == wk2) by {
            assert(piece_in(n.bb, i) == self.moved_piece_at(m, i));
            assert(mem(self.bb[12], i) <==> self.piece_at(i) == 12);
        }
        lemma_single_from_members(n.bb[12], wk2);
        assert forall|i: int| 0 <= i < 64 implies (mem(n.bb[13], i) <==> i == bk2) by {
            assert(piece_in(n.bb, i) == self.moved_piece_at(m, i));
            assert(mem(self.bb[13], i) <==> self.piece_at(i) == 13);
        }
        lemma_single_from_members(n.bb[13], bk2);
        if n.ep != 0 {
            let e = if self.piece_at(f) == 2 {
                f + 8
            } else {
                f - 8
            };
            assert forall|i: int| 0 <= i < 64 implies (mem(n.ep, i) <==> i == e) by {
                lemma_mem_single(e, i);
            }
            lemma_single_from_members(n.ep, e);
            assert(piece_in(n.bb, e) == self.moved_piece_at(m, e));
            assert(piece_in(n.bb, t) == self.moved_piece_at(m, t));
        }
        assert(n.ep_wf());
        assert(piece_in(n.bb, 0) == self.moved_piece_at(m, 0));
        assert(piece_in(n.bb, 3) == self.moved_piece_at(m, 3));
        assert(piece_in(n.bb, 7) == self.moved_piece_at(m, 7));
        assert(piece_in(n.bb, 56) == self.moved_piece_at(m, 56));
        assert(piece_in(n.bb, 59) == self.moved_piece_at(m, 59));
        assert(piece_in(n.bb, 63) == self.moved_piece_at(m, 63));
        assert(n.castling_wf());
    }
}

proof fn bv_chain(p: u64, d1: u64, d2: u64, d3: u64, d4: u64)
    by (bit_vector)
    ensures
        ((((((p ^ d1) ^ 0) ^ d2) ^ 0) ^ 0) ^ d3) == ((p ^ d1) ^ d2) ^ d3,
        (((((((p ^ d1) ^ 0) ^ d2) ^ 0) ^ 0) ^ d3) ^ 0) ^ d4 == (((p ^ d1) ^ d2) ^ d3) ^ d4,
        ((p ^ d1) ^ d2) ^ d3 == (((p ^ d1) ^ d2) ^ d3) ^ 0,
{
}

proof fn bv_rekey(
    h: u64,
    p: u64,
    d1: u64,
    d2: u64,
    d3: u64,
    d4: u64,
    sd: u64,
    c1: u64,
    c2: u64,
    c3: u64,
    c4: u64,
    eo: u64,
    sdn: u64,
    c1n: u64,
    c2n: u64,
    c3n: u64,
    c4n: u64,
    en: u64,
)
    by (bit_vector)
    requires
        h == p ^ (((((sd ^ c1) ^ c2) ^ c3) ^ c4) ^ eo),
    ensures
        (((((((((((h ^ d1) ^ d2) ^ d3) ^ d4) ^ eo) ^ en) ^ (c1 ^ c1n)) ^ (c2 ^ c2n)) ^ (c3 ^ c3n)) ^ (c4
            ^ c4n)) ^ (sd ^ sdn)) == ((((p ^ d1) ^ d2) ^ d3) ^ d4) ^ (((((sdn ^ c1n) ^ c2n) ^ c3n) ^ c4n)
            ^ en),
{
}

/// The key of a right that is held, else 0.
pub open spec fn right_key(held: bool, key: u64) -> u64 {
    if held {
        key
    } else {
        0
    }
}

proof fn lemma_right_delta(old_held: bool, new_held: bool, key: u64)
    requires
        new_held ==> old_held,
    ensures
        right_key(old_held, key) ^ right_key(new_held, key) == right_key(old_held != new_held, key),
{
    lemma_xor_basics(key);
    lemma_xor_basics(0);
}

impl Position {
    /// The keys that the move takes out of and puts into the piece key: the
    /// moved piece on its origin, what stood on the second square it clears,
    /// the piece that lands, and the rook that lands when castling.
    pub open spec fn key_deltas(self, m: ChessMove, keys: &HashTable) -> (u64, u64, u64, u64) {
        let c = self.side();
        let f = m.src();
        let t = m.dst();
        if m.kind() == NORMAL_MOVE {
            (
                keys.square_key(f, self.piece_at(f)),
                keys.square_key(t, self.piece_at(t)),
                keys.square_key(t, self.piece_at(f)),
                0,
            )
        } else if m.kind() == PROMOTION_MOVE {
            (
                keys.square_key(f, 2 + c),
                keys.square_key(t, self.piece_at(t)),
                keys.square_key(t, promoted_piece(m.promo()) + c),
                0,
            )
        } else if m.kind() == EN_PASSANT_MOVE {
            (
                keys.square_key(f, 2 + c),
                keys.square_key(ep_victim(c, t), 3 - c),
                keys.square_key(t, 2 + c),
                0,
            )
        } else {
            (
                keys.square_key(f, 12 + c),
                keys.square_key(rook_from(t), 8 + c),
                keys.square_key(t, 12 + c),
                keys.square_key(rook_to(t), 8 + c),
            )
        }
    }

    /// The piece key of the position after a move is the old piece key with
    /// the keys of the changed squares exchanged.
    pub proof fn lemma_moved_pieces_key(self, m: ChessMove, keys: &HashTable)
        requires
            self.wf(),
            self.accepts(m),
        ensures
            ({
                let d = self.key_deltas(m, keys);
                keys.pieces_key(self.moved_boards(m), 64) == (((keys.pieces_key(self.bb, 64) ^ d.0)
                    ^ d.1) ^ d.2) ^ d.3
            }),
    {
        m.lemma_fields();
        let c = self.side();
        let f = m.src();
        let t = m.dst();
        if m.kind() == EN_PASSANT_MOVE {
            lemma_single_members(self.ep);
        }
        let s2 = if m.kind() == NORMAL_MOVE || m.kind() == PROMOTION_MOVE {
            t
        } else if m.kind() == EN_PASSANT_MOVE {
            ep_victim(c, t)
        } else {
            rook_from(t)
        };
        let y = if m.kind() == NORMAL_MOVE {
            self.piece_at(f)
        } else if m.kind() == PROMOTION_MOVE {
            promoted_piece(m.promo()) + c
        } else if m.kind() == EN_PASSANT_MOVE {
            2 + c
        } else {
            12 + c
        };
        let d = self.key_deltas(m, keys);
        let b0 = self.bb;
        let b1 = remove(b0, f);
        lemma_remove(b0, f);
        keys.lemma_pieces_key_frame(b0, b1, f, 64);
        let b2 = remove(b1, s2);
        lemma_remove(b1, s2);
        keys.lemma_pieces_key_frame(b1, b2, s2, 64);
        let b3 = put(b2, y, t);
        lemma_put(b2, y, t);
        keys.lemma_pieces_key_frame(b2, b3, t, 64);
        let p = keys.pieces_key(b0, 64);
        bv_chain(p, d.0, d.1, d.2, d.3);
        if m.kind() == CASTLING_MOVE {
            let b4 = put(b3, 8 + c, rook_to(t));
            lemma_put(b3, 8 + c, rook_to(t));
            keys.lemma_pieces_key_frame(b3, b4, rook_to(t), 64);
        }
    }
}

impl Position {
    /// The key after a move as `make_move` computes it: the old key with the
    /// keys of what the move changes exchanged, one after the other: the
    /// pieces, the en-passant file, the castling rights that are lost, and
    /// the side to move.
    pub open spec fn incremental_key(self, m: ChessMove, keys: &HashTable) -> u64 {
        let d = self.key_deltas(m, keys);
        let next = self.apply(m, keys);
        (((((((((((self.hash ^ d.0) ^ d.1) ^ d.2) ^ d.3) ^ keys.ep_key(self.ep)) ^ keys.ep_key(next.ep))
            ^ right_key(self.white_king_castle != next.white_king_castle, keys.white_king_castle))
            ^ right_key(self.white_queen_castle != next.white_queen_castle, keys.white_queen_castle))
            ^ right_key(self.black_king_castle != next.black_king_castle, keys.black_king_castle))
            ^ right_key(self.black_queen_castle != next.black_queen_castle, keys.black_queen_castle))
            ^ keys.black_to_move)
    }

    /// The key that is updated step by step is the key computed from scratch
    /// on the position after the move.
    pub proof fn lemma_incremental_key(self, m: ChessMove, keys: &HashTable)
        requires
            self.wf(),
            self.hash == keys.key_of(self),
            self.accepts(m),
        ensures
            self.incremental_key(m, keys) == keys.key_of(self.apply(m, keys)),
            self.incremental_key(m, keys) == self.apply(m, keys).hash,
    {
        m.lemma_fields();
        self.lemma_moved_pieces_key(m, keys);
        let d = self.key_deltas(m, keys);
        let next = self.apply(m, keys);
        let sd = right_key(!self.white_to_move, keys.black_to_move);
        let sdn = right_key(self.white_to_move, keys.black_to_move);
        lemma_xor_basics(keys.black_to_move);
        lemma_xor_basics(0);
        assert(sd ^ sdn == keys.black_to_move);
        lemma_right_delta(self.white_king_castle, next.white_king_castle, keys.white_king_castle);
        lemma_right_delta(self.white_queen_castle, next.white_queen_castle, keys.white_queen_castle);
        lemma_right_delta(self.black_king_castle, next.black_king_castle, keys.black_king_castle);
        lemma_right_delta(self.black_queen_castle, next.black_queen_castle, keys.black_queen_castle);
        bv_rekey(
            self.hash,
            keys.pieces_key(self.bb, 64),
            d.0,
            d.1,
            d.2,
            d.3,
            sd,
            right_key(self.white_king_castle, keys.white_king_castle),
            right_key(self.white_queen_castle, keys.white_queen_castle),
            right_key(self.black_king_castle, keys.black_king_castle),
            right_key(self.black_queen_castle, keys.black_queen_castle),
            keys.ep_key(self.ep),
            sdn,
            right_key(next.white_king_castle, keys.white_king_castle),
            right_key(next.white_queen_castle, keys.white_queen_castle),
            right_key(next.black_king_castle, keys.black_king_castle),
            right_key(next.black_queen_castle, keys.black_queen_castle),
            keys.ep_key(next.ep),
        );
    }
}

impl<'a> Board<'a> {
    /// What a helper of `make_move` leaves: the bitboards of the position
    /// after the move, the piece keys exchanged in the running key, and
    /// everything else as it was.
    pub open spec fn pieces_moved(&self, before: &Self, m: ChessMove) -> bool {
        let d = before@.key_deltas(m, &before.tables.keys);
        &&& self.bitboards@ == before@.moved_boards(m)
        &&& self.meta.hash == (((before.meta.hash ^ d.0) ^ d.1) ^ d.2) ^ d.3
        &&& self.meta == BoardMeta { hash: self.meta.hash, ..before.meta }
        &&& self.tables == before.tables
        &&& self.white_to_move == before.white_to_move
        &&& self.fullmove_counter == before.fullmove_counter
        &&& self.previous_hashes == before.previous_hashes
    }

    fn play_normal(&mut self, chess_move: &ChessMove) -> (r: (bool, u64))
        requires
            old(self).wf(),
            old(self)@.accepts(*chess_move),
            chess_move.kind() == NORMAL_MOVE,
        ensures
            final(self).pieces_moved(old(self), *chess_move),
            r.0 == (old(self)@.captures(*chess_move) || old(self)@.moves_pawn(*chess_move)),
            r.1 == old(self)@.moved_ep(*chess_move),
    {
        let ghost before = self@;
        let ghost m = *chess_move;
        let tables = self.tables;
        let keys = &tables.keys;
        let color: usize = self.side_to_move();
        let other: usize = 1 - color;
        let from = chess_move.from();
        let to = chess_move.to();
        let hash0 = self.meta.hash;
        let mut hash = hash0;
        let mut new_ep: u64 = 0;
        let from_bb: u64 = 1u64 << (from as u64);
        let to_bb: u64 = 1u64 << (to as u64);
        let move_bb: u64 = from_bb | to_bb;
        let ghost d = before.key_deltas(m, keys);
        let our = self.piece_on_with_color(from, color);
        let enemy = self.piece_on_with_color(to, other);
        self.bitboards[our] = self.bitboards[our] ^ move_bb;
        self.bitboards[color] = self.bitboards[color] ^ move_bb;
        hash = hash ^ keys.piece_key(from, our);
        if enemy != 14 {
            hash = hash ^ keys.piece_key(to, enemy);
            self.bitboards[enemy] = self.bitboards[enemy] ^ to_bb;
            self.bitboards[other] = self.bitboards[other] ^ to_bb;
        }
        hash = hash ^ keys.piece_key(to, our);
        if our == 2 && to == from + 16 {
            new_ep = 1u64 << ((from + 8) as u64);
        } else if our == 3 && from == to + 16 {
            new_ep = 1u64 << ((from - 8) as u64);
        }
        self.meta.hash = hash;
        proof {
            lemma_xor_basics(hash0 ^ d.0);
            lemma_xor_basics(((hash0 ^ d.0) ^ d.1) ^ d.2);
            let b1 = remove(before.bb, from as int);
            let b2 = remove(b1, to as int);
            let b3 = put(b2, our as int, to as int);
            assert forall|k: int| 0 <= k < 14 implies self.bitboards@[k] == b3[k] by {
                assert forall|i: int| 0 <= i < 64 implies mem(self.bitboards@[k], i) == mem(b3[k], i) by {
                    lemma_mem_remove(before.bb, from as int, k, i);
                    lemma_mem_remove(b1, to as int, k, i);
                    lemma_mem_put(b2, our as int, to as int, k, i);
                    lemma_mem_single(from as int, i);
                    lemma_mem_single(to as int, i);
                    lemma_mem_ops(from_bb, to_bb, i);
                    lemma_mem_ops(before.bb[k], move_bb, i);
                    lemma_mem_ops(before.bb[k], to_bb, i);
                }
                lemma_ext(self.bitboards@[k], b3[k]);
            }
            assert(self.bitboards@ =~= before.moved_boards(m));
        }
        (enemy != 14 || our == 2 || our == 3, new_ep)
    }

    fn play_promotion(&mut self, chess_move: &ChessMove)
        requires
            old(self).wf(),
            old(self)@.accepts(*chess_move),
            chess_move.kind() == PROMOTION_MOVE,
        ensures
            final(self).pieces_moved(old(self), *chess_move),
    {
        let ghost before = self@;
        let ghost m = *chess_move;
        let tables = self.tables;
        let keys = &tables.keys;
        let color: usize = self.side_to_move();
        let other: usize = 1 - color;
        let from = chess_move.from();
        let to = chess_move.to();
        let hash0 = self.meta.hash;
        let mut hash = hash0;
        let from_bb: u64 = 1u64 << (from as u64);
        let to_bb: u64 = 1u64 << (to as u64);
        let move_bb: u64 = from_bb | to_bb;
        let ghost d = before.key_deltas(m, keys);
        let enemy = self.piece_on_with_color(to, other);
        let promotion = chess_move.promotion();
        let promoted: usize = if promotion == KNIGHT_PROMOTION {
            4
        } else if promotion == BISHOP_PROMOTION {
            6
        } else if promotion == ROOK_PROMOTION {
            8
        } else {
            10
        };
        self.bitboards[2 + color] = self.bitboards[2 + color] ^ from_bb;
        self.bitboards[color] = self.bitboards[color] ^ move_bb;
        hash = hash ^ keys.piece_key(from, 2 + color);
        if enemy != 14 {
            hash = hash ^ keys.piece_key(to, enemy);
            self.bitboards[enemy] = self.bitboards[enemy] ^ to_bb;
            self.bitboards[other] = self.bitboards[other] ^ to_bb;
        }
        self.bitboards[promoted + color] = self.bitboards[promoted + color] ^ to_bb;
        hash = hash ^ keys.piece_key(to, promoted + color);
        self.meta.hash = hash;
        proof {
            lemma_xor_basics(hash0 ^ d.0);
            lemma_xor_basics(((hash0 ^ d.0) ^ d.1) ^ d.2);
            let b1 = remove(before.bb, from as int);
            let b2 = remove(b1, to as int);
            let b3 = put(b2, promoted + color, to as int);
            assert forall|k: int| 0 <= k < 14 implies self.bitboards@[k] == b3[k] by {
                assert forall|i: int| 0 <= i < 64 implies mem(self.bitboards@[k], i) == mem(b3[k], i) by {
                    lemma_mem_remove(before.bb, from as int, k, i);
                    lemma_mem_remove(b1, to as int, k, i);
                    lemma_mem_put(b2, promoted + color, to as int, k, i);
                    lemma_mem_single(from as int, i);
                    lemma_mem_single(to as int, i);
                    lemma_mem_ops(from_bb, to_bb, i);
                    lemma_mem_ops(before.bb[k], move_bb, i);
                    lemma_mem_ops(before.bb[k], to_bb, i);
                    lemma_mem_ops(before.bb[k], from_bb, i);
                }
                lemma_ext(self.bitboards@[k], b3[k]);
            }
            assert(self.bitboards@ =~= before.moved_boards(m));
        }
    }

    fn play_en_passant(&mut self, chess_move: &ChessMove)
        requires
            old(self).wf(),
            old(self)@.accepts(*chess_move),
            chess_move.kind() == EN_PASSANT_MOVE,
        ensures
            final(self).pieces_moved(old(self), *chess_move),
    {
        let ghost before = self@;
        let ghost m = *chess_move;
        let tables = self.tables;
        let keys = &tables.keys;
        let color: usize = self.side_to_move();
        let other: usize = 1 - color;
        let from = chess_move.from();
        let to = chess_move.to();
        let hash0 = self.meta.hash;
        let mut hash = hash0;
        let from_bb: u64 = 1u64 << (from as u64);
        let to_bb: u64 = 1u64 << (to as u64);
        let move_bb: u64 = from_bb | to_bb;
        let ghost d = before.key_deltas(m, keys);
        proof {
            lemma_single_members(before.ep);
        }
        let victim: usize = if color == 0 {
            to - 8
        } else {
            to + 8
        };
        let victim_bb: u64 = 1u64 << (victim as u64);
        self.bitboards[2 + color] = self.bitboards[2 + color] ^ move_bb;
        self.bitboards[color] = self.bitboards[color] ^ move_bb;
        self.bitboards[2 + other] = self.bitboards[2 + other] ^ victim_bb;
        self.bitboards[other] = self.bitboards[other] ^ victim_bb;
        hash = hash ^ keys.piece_key(from, 2 + color);
        hash = hash ^ keys.piece_key(victim, 2 + other);
        hash = hash ^ keys.piece_key(to, 2 + color);
        self.meta.hash = hash;
        proof {
            lemma_xor_basics(((hash0 ^ d.0) ^ d.1) ^ d.2);
            let b1 = remove(before.bb, from as int);
            let b2 = remove(b1, victim as int);
            let b3 = put(b2, 2 + color, to as int);
            assert forall|k: int| 0 <= k < 14 implies self.bitboards@[k] == b3[k] by {
                assert forall|i: int| 0 <= i < 64 implies mem(self.bitboards@[k], i) == mem(b3[k], i) by {
                    lemma_mem_remove(before.bb, from as int, k, i);
                    lemma_mem_remove(b1, victim as int, k, i);
                    lemma_mem_put(b2, 2 + color, to as int, k, i);
                    lemma_mem_single(from as int, i);
                    lemma_mem_single(to as int, i);
                    lemma_mem_single(victim as int, i);
                    lemma_mem_ops(from_bb, to_bb, i);
                    lemma_mem_ops(before.bb[k], move_bb, i);
                    lemma_mem_ops(before.bb[k], victim_bb, i);
                }
                lemma_ext(self.bitboards@[k], b3[k]);
            }
            assert(self.bitboards@ =~= before.moved_boards(m));
        }
    }

    fn play_castling(&mut self, chess_move: &ChessMove)
        requires
            old(self).wf(),
            old(self)@.accepts(*chess_move),
            chess_move.kind() == CASTLING_MOVE,
        ensures
            final(self).pieces_moved(old(self), *chess_move),
    {
        let ghost before = self@;
        let ghost m = *chess_move;
        let tables = self.tables;
        let keys = &tables.keys;
        let color: usize = self.side_to_move();
        let from = chess_move.from();
        let to = chess_move.to();
        let hash0 = self.meta.hash;
        let mut hash = hash0;
        let from_bb: u64 = 1u64 << (from as u64);
        let to_bb: u64 = 1u64 << (to as u64);
        let move_bb: u64 = from_bb | to_bb;
        let ghost d = before.key_deltas(m, keys);
        let rook_from: usize = if to == 1 {
            0
        } else if to == 5 {
            7
        } else if to == 57 {
            56
        } else {
            63
        };
        let rook_to: usize = if to == 1 {
            2
        } else if to == 5 {
            4
        } else if to == 57 {
            58
        } else {
            60
        };
        let rook_bb: u64 = (1u64 << (rook_from as u64)) | (1u64 << (rook_to as u64));
        self.bitboards[12 + color] = to_bb;
        self.bitboards[8 + color] = self.bitboards[8 + color] ^ rook_bb;
        self.bitboards[color] = self.bitboards[color] ^ (move_bb | rook_bb);
        hash = hash ^ keys.piece_key(from, 12 + color);
        hash = hash ^ keys.piece_key(rook_from, 8 + color);
        hash = hash ^ keys.piece_key(to, 12 + color);
        hash = hash ^ keys.piece_key(rook_to, 8 + color);
        self.meta.hash = hash;
        proof {
            lemma_single_members(before.bb[12]);
            lemma_single_members(before.bb[13]);
            let b1 = remove(before.bb, from as int);
            let b2 = remove(b1, rook_from as int);
            let b3 = put(b2, 12 + color, to as int);
            let b4 = put(b3, 8 + color, rook_to as int);
            assert forall|k: int| 0 <= k < 14 implies self.bitboards@[k] == b4[k] by {
                assert forall|i: int| 0 <= i < 64 implies mem(self.bitboards@[k], i) == mem(b4[k], i) by {
                    lemma_mem_remove(before.bb, from as int, k, i);
                    lemma_mem_remove(b1, rook_from as int, k, i);
                    lemma_mem_put(b2, 12 + color, to as int, k, i);
                    lemma_mem_put(b3, 8 + color, rook_to as int, k, i);
                    lemma_mem_single(from as int, i);
                    lemma_mem_single(to as int, i);
                    lemma_mem_single(rook_from as int, i);
                    lemma_mem_single(rook_to as int, i);
                    lemma_mem_ops(from_bb, to_bb, i);
                    lemma_mem_ops(sq_bit(rook_from as int), sq_bit(rook_to as int), i);
                    lemma_mem_ops(move_bb, rook_bb, i);
                    lemma_mem_ops(before.bb[k], move_bb | rook_bb, i);
                    lemma_mem_ops(before.bb[k], rook_bb, i);
                }
                lemma_ext(self.bitboards@[k], b4[k]);
            }
            assert(self.bitboards@ =~= before.moved_boards(m));
        }
    }

    /// Plays a move that the position accepts. The board then shows the
    /// position after the move, with its key brought up to date, and is
    /// well-formed again.
    pub fn make_move(&mut self, chess_move: &ChessMove)
        requires
            old(self).wf(),
            old(self)@.accepts(*chess_move),
        ensures
            final(self)@ == old(self)@.apply(*chess_move, &old(self).tables.keys),
            final(self).tables == old(self).tables,
            final(self).wf(),
    {
        let ghost before = self@;
        let ghost m = *chess_move;
        let tables = self.tables;
        let keys = &tables.keys;
        let color: usize = self.side_to_move();
        let from = chess_move.from();
        let to = chess_move.to();
        let kind = chess_move.move_type();
        let old_meta = self.meta;
        let mut new_ep: u64 = 0;
        let mut resets_clock: bool = true;
        if kind == NORMAL_MOVE {
            let r = self.play_normal(chess_move);
            resets_clock = r.0;
            new_ep = r.1;
        } else if kind == PROMOTION_MOVE {
            self.play_promotion(chess_move);
        } else if kind == EN_PASSANT_MOVE {
            self.play_en_passant(chess_move);
        } else {
            self.play_castling(chess_move);
            resets_clock = false;
        }
        let ghost d = before.key_deltas(m, keys);
        let mut hash = self.meta.hash;
        self.previous_hashes.push(old_meta.hash);

        let white_king_castle = old_meta.white_king_castle && from != 3 && from != 0 && to != 0;
        let white_queen_castle = old_meta.white_queen_castle && from != 3 && from != 7 && to != 7;
        let black_king_castle = old_meta.black_king_castle && from != 59 && from != 56 && to != 56;
        let black_queen_castle = old_meta.black_queen_castle && from != 59 && from != 63 && to != 63;

        hash = hash ^ keys.en_passant_key(old_meta.en_passant_bitboard);
        hash = hash ^ keys.en_passant_key(new_ep);
        // If any of the castling rights changed, update the hash
        hash = hash ^ (if white_king_castle != old_meta.white_king_castle {
            keys.white_king_castle
        } else {
            0
        });
        hash = hash ^ (if white_queen_castle != old_meta.white_queen_castle {
            keys.white_queen_castle
        } else {
            0
        });
        hash = hash ^ (if black_king_castle != old_meta.black_king_castle {
            keys.black_king_castle
        } else {
            0
        });
        hash = hash ^ (if black_queen_castle != old_meta.black_queen_castle {
            keys.black_queen_castle
        } else {
            0
        });
        hash = hash ^ keys.black_to_move;

        if color == 1 && self.fullmove_counter < u32::MAX {
            self.fullmove_counter = self.fullmove_counter + 1;
        }
        self.white_to_move = !self.white_to_move;
        self.meta = BoardMeta {
            white_king_castle,
            white_queen_castle,
            black_king_castle,
            black_queen_castle,
            en_passant_bitboard: new_ep,
            halfmove_clock: if resets_clock {
                0
            } else {
                old_meta.halfmove_clock + 1
            },
            hash,
        };
        proof {
            m.lemma_fields();
            before.lemma_apply_wf(m, keys);
            before.lemma_incremental_key(m, keys);
            let next = before.apply(m, keys);
            assert(hash == before.incremental_key(m, keys));
            assert(self@.hash == next.hash);
            assert(self@ == next);
        }
    }
}

} // verus!
