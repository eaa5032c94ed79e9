//! The list of moves of a well-formed position holds exactly its
//! pseudo-legal moves.
use vstd::prelude::*;
use crate::bits::{
    lemma_mem_lines, lemma_mem_ops, lemma_mem_shl, lemma_mem_shr, lemma_not_files, lsb, mem, rank_of,
    FILE_A, FILE_H, NOT_FILE_A, NOT_FILE_H,
};
use crate::chess_move::{
    lemma_packed, packed, ChessMove, BISHOP_PROMOTION, CASTLING_MOVE, EN_PASSANT_MOVE,
    KNIGHT_PROMOTION, NORMAL_MOVE, PROMOTION_MOVE, QUEEN_PROMOTION, ROOK_PROMOTION,
};
use crate::make_move::lemma_single_members;
use crate::movegen::{
    kind_to, lemma_blockers, pawn_attack, pawn_from, pawn_list, pawn_moves_to, pawn_origin,
    plain_from, plain_list, shift_ahead, shift_capture, to_list,
};
use crate::position::Position;

verus! {

/// A joined list holds what its two parts hold.
pub proof fn lemma_concat_holds(a: Seq<ChessMove>, b: Seq<ChessMove>, m: ChessMove)
    ensures
        (a + b).contains(m) == (a.contains(m) || b.contains(m)),
{
    let c = a + b;
    if a.contains(m) {
        let i = choose|i: int| 0 <= i < a.len() && a[i] == m;
        assert(c[i] == m);
    }
    if b.contains(m) {
        let i = choose|i: int| 0 <= i < b.len() && b[i] == m;
        assert(c[a.len() + i] == m);
    }
    if c.contains(m) {
        let i = choose|i: int| 0 <= i < c.len() && c[i] == m;
        if i < a.len() {
            assert(a[i] == m);
        } else {
            assert(b[i - a.len()] == m);
        }
    }
}

/// A list of one move holds that move only.
pub proof fn lemma_one_holds(x: ChessMove, m: ChessMove)
    ensures
        seq![x].contains(m) == (m == x),
{
    let s = seq![x];
    if m == x {
        assert(s[0] == m);
    }
    if s.contains(m) {
        let i = choose|i: int| 0 <= i < s.len() && s[i] == m;
        assert(s[i] == x);
    }
}

/// What the list of plain moves from a square holds.
pub proof fn lemma_plain_list_holds(from: int, targets: u64, i: int, m: ChessMove)
    requires
        0 <= from < 64,
        0 <= i <= 64,
    ensures
        plain_list(from, targets, i).contains(m) == (plain_from(m, from, targets) && m.dst() >= i),
    decreases 64 - i,
{
    m.lemma_fields();
    if i < 64 {
        lemma_plain_list_holds(from, targets, i + 1, m);
        if mem(targets, i) {
            let x = packed(from, i, 0, NORMAL_MOVE);
            lemma_packed(from, i, 0, NORMAL_MOVE);
            lemma_one_holds(x, m);
            lemma_concat_holds(seq![x], plain_list(from, targets, i + 1), m);
            if plain_from(m, from, targets) && m.dst() == i {
                m.lemma_same_fields(x);
            }
        }
    }
}

/// What the list of moves to a square holds.
pub proof fn lemma_to_list_holds(origins: u64, to: int, move_type: u16, i: int, m: ChessMove)
    requires
        0 <= to < 64,
        crate::chess_move::is_move_type(move_type),
        0 <= i <= 64,
    ensures
        to_list(origins, to, move_type, i).contains(m) == (kind_to(m, origins, to, move_type) && m.src()
            >= i),
    decreases 64 - i,
{
    m.lemma_fields();
    if i < 64 {
        lemma_to_list_holds(origins, to, move_type, i + 1, m);
        if mem(origins, i) {
            let x = packed(i, to, 0, move_type);
            lemma_packed(i, to, 0, move_type);
            lemma_one_holds(x, m);
            lemma_concat_holds(seq![x], to_list(origins, to, move_type, i + 1), m);
            if kind_to(m, origins, to, move_type) && m.src() == i {
                m.lemma_same_fields(x);
            }
        }
    }
}

/// What the pawn's moves to one square hold.
pub proof fn lemma_pawn_moves_to_holds(to: int, delta: int, white: bool, promote: bool, m: ChessMove)
    requires
        0 <= to < 64,
        0 <= pawn_origin(to, delta, white) < 64,
    ensures
        pawn_moves_to(to, delta, white, promote).contains(m) == (crate::movegen::pawn_shape(m, promote)
            && m.dst() == to && m.src() == pawn_origin(to, delta, white)),
{
    m.lemma_fields();
    let from = pawn_origin(to, delta, white);
    let list = pawn_moves_to(to, delta, white, promote);
    if promote {
        let a = packed(from, to, KNIGHT_PROMOTION, PROMOTION_MOVE);
        let b = packed(from, to, BISHOP_PROMOTION, PROMOTION_MOVE);
        let c = packed(from, to, ROOK_PROMOTION, PROMOTION_MOVE);
        let d = packed(from, to, QUEEN_PROMOTION, PROMOTION_MOVE);
        lemma_packed(from, to, KNIGHT_PROMOTION, PROMOTION_MOVE);
        lemma_packed(from, to, BISHOP_PROMOTION, PROMOTION_MOVE);
        lemma_packed(from, to, ROOK_PROMOTION, PROMOTION_MOVE);
        lemma_packed(from, to, QUEEN_PROMOTION, PROMOTION_MOVE);
        assert(list[0] == a && list[1] == b && list[2] == c && list[3] == d);
        if list.contains(m) {
            let i = choose|i: int| 0 <= i < list.len() && list[i] == m;
        }
        if m.kind() == PROMOTION_MOVE && m.dst() == to && m.src() == from {
            if m.promo() == KNIGHT_PROMOTION {
                m.lemma_same_fields(a);
            } else if m.promo() == BISHOP_PROMOTION {
                m.lemma_same_fields(b);
            } else if m.promo() == ROOK_PROMOTION {
                m.lemma_same_fields(c);
            } else {
                m.lemma_same_fields(d);
            }
        }
    } else {
        let a = packed(from, to, 0, NORMAL_MOVE);
        lemma_packed(from, to, 0, NORMAL_MOVE);
        lemma_one_holds(a, m);
        if m.kind() == NORMAL_MOVE && m.promo() == 0 && m.dst() == to && m.src() == from {
            m.lemma_same_fields(a);
        }
    }
}

/// What the list of the pawns' moves to a set of squares holds.
pub proof fn lemma_pawn_list_holds(targets: u64, delta: int, white: bool, promote: bool, i: int, m: ChessMove)
    requires
        0 <= i <= 64,
        forall|t: int| 0 <= t < 64 && mem(targets, t) ==> 0 <= pawn_origin(t, delta, white) < 64,
    ensures
        pawn_list(targets, delta, white, promote, i).contains(m) == (pawn_from(
            m,
            targets,
            delta,
            white,
            promote,
        ) && m.dst() >= i),
    decreases 64 - i,
{
    m.lemma_fields();
    if i < 64 {
        lemma_pawn_list_holds(targets, delta, white, promote, i + 1, m);
        if mem(targets, i) {
            lemma_pawn_moves_to_holds(i, delta, white, promote, m);
            lemma_concat_holds(
                pawn_moves_to(i, delta, white, promote),
                pawn_list(targets, delta, white, promote, i + 1),
                m,
            );
        }
    }
}

/// The members of a set of pawns after a step ahead.
pub proof fn lemma_shift_ahead(b: u64, white: bool, i: int)
    requires
        0 <= i < 64,
    ensures
        mem(shift_ahead(b, white), i) == (0 <= pawn_origin(i, 8, white) < 64 && mem(
            b,
            pawn_origin(i, 8, white),
        )),
{
    if white {
        lemma_mem_shl(b, 8, i);
    } else {
        lemma_mem_shr(b, 8, i);
    }
}

/// The members of a set of pawns after a capturing step.
pub proof fn lemma_shift_capture(b: u64, delta: int, white: bool, i: int)
    requires
        delta == 7 || delta == 9,
        0 <= i < 64,
    ensures
        mem(shift_capture(b, delta, white), i) == (0 <= pawn_origin(i, delta, white) < 64 && mem(
            b,
            pawn_origin(i, delta, white),
        ) && pawn_attack(
            if white {
                0
            } else {
                1
            },
            pawn_origin(i, delta, white),
            i,
        )),
{
    lemma_not_files();
    let o = pawn_origin(i, delta, white);
    if 0 <= o < 64 {
        lemma_mem_lines(o);
        lemma_mem_ops(b, !FILE_A, o);
        lemma_mem_ops(b, !FILE_H, o);
        lemma_mem_ops(FILE_A, 0, o);
        lemma_mem_ops(FILE_H, 0, o);
    }
    if white {
        if delta == 9 {
            lemma_mem_shl(b & NOT_FILE_A, 9, i);
        } else {
            lemma_mem_shl(b & NOT_FILE_H, 7, i);
        }
    } else {
        if delta == 9 {
            lemma_mem_shr(b & NOT_FILE_H, 9, i);
        } else {
            lemma_mem_shr(b & NOT_FILE_A, 7, i);
        }
    }
}

impl Position {
    /// The landing squares are the squares on which a piece may land.
    pub proof fn lemma_landing(self, t: int)
        requires
            self.wf(),
            0 <= t < 64,
        ensures
            mem(self.landing(), t) == self.may_land(t),
    {
        let c = self.side();
        lemma_mem_ops(!self.bb[c], !self.bb[13 - c], t);
        lemma_mem_ops(self.bb[c], 0, t);
        lemma_mem_ops(self.bb[13 - c], 0, t);
    }

    /// What the list of the moves of the pieces of a kind holds.
    pub proof fn lemma_piece_list_holds(self, kind: int, i: int, m: ChessMove)
        requires
            self.wf(),
            kind == 4 || kind == 6 || kind == 8 || kind == 10 || kind == 12,
            0 <= i <= 64,
        ensures
            self.piece_list(kind, i).contains(m) == (self.piece_move(m, kind, self.reach(kind, m.src()))
                && m.src() >= i),
        decreases 64 - i,
    {
        m.lemma_fields();
        if i < 64 {
            self.lemma_piece_list_holds(kind, i + 1, m);
            if mem(self.bb[kind + self.side()], i) {
                let targets = self.reach(kind, i) & self.landing();
                lemma_plain_list_holds(i, targets, 0, m);
                lemma_concat_holds(plain_list(i, targets, 0), self.piece_list(kind, i + 1), m);
                lemma_mem_ops(self.reach(kind, i), self.landing(), m.dst());
                self.lemma_landing(m.dst());
            }
        }
    }

    /// What the list of castling moves holds.
    pub proof fn lemma_castling_list_holds(self, m: ChessMove)
        ensures
            self.castling_list().contains(m) == self.castling_move(m),
    {
        m.lemma_fields();
        let king_square = if self.white_to_move {
            3int
        } else {
            59int
        };
        let short = packed(king_square, king_square - 2, 0, CASTLING_MOVE);
        let long = packed(king_square, king_square + 2, 0, CASTLING_MOVE);
        lemma_packed(king_square, king_square - 2, 0, CASTLING_MOVE);
        lemma_packed(king_square, king_square + 2, 0, CASTLING_MOVE);
        let a = if self.castling_move(short) {
            seq![short]
        } else {
            Seq::empty()
        };
        let b = if self.castling_move(long) {
            seq![long]
        } else {
            Seq::empty()
        };
        lemma_concat_holds(a, b, m);
        lemma_one_holds(short, m);
        lemma_one_holds(long, m);
        if self.castling_move(m) {
            if m.dst() == king_square - 2 {
                m.lemma_same_fields(short);
            } else {
                m.lemma_same_fields(long);
            }
        }
    }
}

impl Position {
    /// What the list of the pawns' moves holds.
    #[verifier::rlimit(100)]
    pub proof fn lemma_pawn_moves_list_holds(self, m: ChessMove)
        requires
            self.wf(),
        ensures
            self.pawn_moves_list().contains(m) == self.pawn_move(m),
    {
        let p = self;
        let white = p.white_to_move;
        let c = p.side();
        let free = !(p.bb[0] ^ p.bb[1]);
        let enemies = p.bb[1 - c] & !p.bb[13 - c];
        let pawns = p.bb[2 + c];
        let seventh = if white {
            crate::bits::RANK_7
        } else {
            crate::bits::RANK_2
        };
        let third = if white {
            crate::bits::RANK_3
        } else {
            crate::bits::RANK_6
        };
        let seventh_rank = if white {
            6int
        } else {
            1int
        };
        let first_rank = if white {
            1int
        } else {
            6int
        };
        let movers = pawns & !seventh;
        let promoters = pawns & seventh;
        let single_steps = shift_ahead(movers, white);
        let single = single_steps & free;
        let double_steps = shift_ahead(single & third, white);
        let double = double_steps & free;
        let reach_9 = shift_capture(movers, 9, white);
        let reach_7 = shift_capture(movers, 7, white);
        let captures_9 = reach_9 & enemies;
        let captures_7 = reach_7 & enemies;
        let promotion_steps = shift_ahead(promoters, white);
        let promotion_reach_9 = shift_capture(promoters, 9, white);
        let promotion_reach_7 = shift_capture(promoters, 7, white);
        let promotions = promotion_steps & free;
        let promotions_9 = promotion_reach_9 & enemies;
        let promotions_7 = promotion_reach_7 & enemies;
        let back_9 = shift_capture(p.ep, 9, !white);
        let back_7 = shift_capture(p.ep, 7, !white);
        let ep_pawns = (back_9 | back_7) & pawns;
        let ep_square = lsb(p.ep);
        let l0 = if p.ep != 0 {
            to_list(ep_pawns, ep_square, EN_PASSANT_MOVE, 0)
        } else {
            Seq::empty()
        };
        let a1 = pawn_list(single, 8, white, false, 0);
        let a2 = pawn_list(double, 16, white, false, 0);
        let a3 = pawn_list(captures_9, 9, white, false, 0);
        let a4 = pawn_list(captures_7, 7, white, false, 0);
        let a5 = pawn_list(promotions, 8, white, true, 0);
        let a6 = pawn_list(promotions_9, 9, white, true, 0);
        let a7 = pawn_list(promotions_7, 7, white, true, 0);
        lemma_blockers(p.bb);
        assert forall|i: int| 0 <= i < 64 implies #[trigger] mem(free, i) == (p.piece_at(i) == 14) by {
            lemma_mem_ops(p.bb[0] ^ p.bb[1], 0, i);
        }
        assert forall|i: int| 0 <= i < 64 implies #[trigger] mem(enemies, i) == p.may_take(i) by {
            lemma_mem_ops(p.bb[1 - c], !p.bb[13 - c], i);
            lemma_mem_ops(p.bb[13 - c], 0, i);
        }
        assert forall|i: int| 0 <= i < 64 implies #[trigger] mem(movers, i) == (p.piece_at(i) == 2 + c
            && rank_of(i) != seventh_rank) by {
            lemma_mem_ops(pawns, !seventh, i);
            lemma_mem_ops(seventh, 0, i);
            lemma_mem_lines(i);
        }
        assert forall|i: int| 0 <= i < 64 implies #[trigger] mem(promoters, i) == (p.piece_at(i) == 2 + c
            && rank_of(i) == seventh_rank) by {
            lemma_mem_ops(pawns, seventh, i);
            lemma_mem_lines(i);
        }
        assert forall|i: int| 0 <= i < 64 implies #[trigger] mem(single_steps, i) == (0 <= pawn_origin(
            i,
            8,
            white,
        ) < 64 && mem(movers, pawn_origin(i, 8, white))) by {
            lemma_shift_ahead(movers, white, i);
        }
        assert forall|i: int| 0 <= i < 64 implies #[trigger] mem(single, i) == (mem(single_steps, i)
            && p.piece_at(i) == 14) by {
            lemma_mem_ops(single_steps, free, i);
        }
        assert forall|i: int| 0 <= i < 64 implies #[trigger] mem(single & third, i) == (mem(single, i)
            && rank_of(i) == first_rank + (if white {
            1int
        } else {
            -1int
        })) by {
            lemma_mem_ops(single, third, i);
            lemma_mem_lines(i);
        }
        assert forall|i: int| 0 <= i < 64 implies #[trigger] mem(double_steps, i) == (0 <= pawn_origin(
            i,
            8,
            white,
        ) < 64 && mem(single & third, pawn_origin(i, 8, white))) by {
            lemma_shift_ahead(single & third, white, i);
        }
        assert forall|i: int| 0 <= i < 64 implies #[trigger] mem(double, i) == (mem(double_steps, i)
            && p.piece_at(i) == 14) by {
            lemma_mem_ops(double_steps, free, i);
        }
        assert forall|i: int| 0 <= i < 64 implies #[trigger] mem(captures_9, i) == (0 <= pawn_origin(
            i,
            9,
            white,
        ) < 64 && mem(movers, pawn_origin(i, 9, white)) && pawn_attack(c, pawn_origin(i, 9, white), i)
            && p.may_take(i)) by {
            lemma_shift_capture(movers, 9, white, i);
            lemma_mem_ops(reach_9, enemies, i);
        }
        assert forall|i: int| 0 <= i < 64 implies #[trigger] mem(captures_7, i) == (0 <= pawn_origin(
            i,
            7,
            white,
        ) < 64 && mem(movers, pawn_origin(i, 7, white)) && pawn_attack(c, pawn_origin(i, 7, white), i)
            && p.may_take(i)) by {
            lemma_shift_capture(movers, 7, white, i);
            lemma_mem_ops(reach_7, enemies, i);
        }
        assert forall|i: int| 0 <= i < 64 implies #[trigger] mem(promotions, i) == (0 <= pawn_origin(
            i,
            8,
            white,
        ) < 64 && mem(promoters, pawn_origin(i, 8, white)) && p.piece_at(i) == 14) by {
            lemma_shift_ahead(promoters, white, i);
            lemma_mem_ops(promotion_steps, free, i);
        }
        assert forall|i: int| 0 <= i < 64 implies #[trigger] mem(promotions_9, i) == (0 <= pawn_origin(
            i,
            9,
            white,
        ) < 64 && mem(promoters, pawn_origin(i, 9, white)) && pawn_attack(
            c,
            pawn_origin(i, 9, white),
            i,
        ) && p.may_take(i)) by {
            lemma_shift_capture(promoters, 9, white, i);
            lemma_mem_ops(promotion_reach_9, enemies, i);
        }
        assert forall|i: int| 0 <= i < 64 implies #[trigger] mem(promotions_7, i) == (0 <= pawn_origin(
            i,
            7,
            white,
        ) < 64 && mem(promoters, pawn_origin(i, 7, white)) && pawn_attack(
            c,
            pawn_origin(i, 7, white),
            i,
        ) && p.may_take(i)) by {
            lemma_shift_capture(promoters, 7, white, i);
            lemma_mem_ops(promotion_reach_7, enemies, i);
        }
        if p.ep != 0 {
            lemma_single_members(p.ep);
            assert forall|i: int| 0 <= i < 64 implies #[trigger] mem(ep_pawns, i) == (p.piece_at(i) == 2
                + c && pawn_attack(c, i, ep_square)) by {
                lemma_mem_ops(back_9 | back_7, pawns, i);
                lemma_mem_ops(back_9, back_7, i);
                lemma_shift_capture(p.ep, 9, !white, i);
                lemma_shift_capture(p.ep, 7, !white, i);
            }
            lemma_to_list_holds(ep_pawns, ep_square, EN_PASSANT_MOVE, 0, m);
        }
        m.lemma_fields();
        lemma_pawn_list_holds(single, 8, white, false, 0, m);
        lemma_pawn_list_holds(double, 16, white, false, 0, m);
        lemma_pawn_list_holds(captures_9, 9, white, false, 0, m);
        lemma_pawn_list_holds(captures_7, 7, white, false, 0, m);
        lemma_pawn_list_holds(promotions, 8, white, true, 0, m);
        lemma_pawn_list_holds(promotions_9, 9, white, true, 0, m);
        lemma_pawn_list_holds(promotions_7, 7, white, true, 0, m);
        lemma_concat_holds(l0, a1, m);
        lemma_concat_holds(l0 + a1, a2, m);
        lemma_concat_holds(l0 + a1 + a2, a3, m);
        lemma_concat_holds(l0 + a1 + a2 + a3, a4, m);
        lemma_concat_holds(l0 + a1 + a2 + a3 + a4, a5, m);
        lemma_concat_holds(l0 + a1 + a2 + a3 + a4 + a5, a6, m);
        lemma_concat_holds(l0 + a1 + a2 + a3 + a4 + a5 + a6, a7, m);
        assert(p.pawn_moves_list() == l0 + a1 + a2 + a3 + a4 + a5 + a6 + a7);
        let f = m.src();
        let t = m.dst();
        assert(l0.contains(m) == (p.ep != 0 && kind_to(m, ep_pawns, ep_square, EN_PASSANT_MOVE)));
        if pawn_attack(c, f, t) {
            assert(f == pawn_origin(t, 9, white) || f == pawn_origin(t, 7, white));
        }
        if f == pawn_origin(t, 16, white) {
            let between = pawn_origin(t, 8, white);
            assert(mem(double_steps, t) == (0 <= between < 64 && mem(single & third, between)));
        }
    }

    /// Sorting a move into a list adds that move and nothing else.
    pub proof fn lemma_inserted_holds(self, sorted: Seq<ChessMove>, x: ChessMove, m: ChessMove)
        ensures
            self.inserted(sorted, x).contains(m) == (sorted.contains(m) || m == x),
        decreases sorted.len(),
    {
        if sorted.len() == 0 {
            lemma_one_holds(x, m);
        } else {
            let front = sorted.drop_last();
            let last = sorted.last();
            assert(sorted =~= front + seq![last]);
            lemma_concat_holds(front, seq![last], m);
            lemma_one_holds(last, m);
            if self.gain(last) >= self.gain(x) {
                assert(sorted.push(x) =~= sorted + seq![x]);
                lemma_concat_holds(sorted, seq![x], m);
                lemma_one_holds(x, m);
            } else {
                self.lemma_inserted_holds(front, x, m);
                let inner = self.inserted(front, x);
                assert(inner.push(last) =~= inner + seq![last]);
                lemma_concat_holds(inner, seq![last], m);
            }
        }
    }

    /// A list in order holds what the list held.
    pub proof fn lemma_in_order_holds(self, list: Seq<ChessMove>, m: ChessMove)
        ensures
            self.in_order(list).contains(m) == list.contains(m),
        decreases list.len(),
    {
        if list.len() > 0 {
            let front = list.drop_last();
            let last = list.last();
            assert(list =~= front + seq![last]);
            lemma_concat_holds(front, seq![last], m);
            lemma_one_holds(last, m);
            self.lemma_in_order_holds(front, m);
            self.lemma_inserted_holds(self.in_order(front), last, m);
        }
    }

    /// What the generated list holds.
    pub proof fn lemma_generated_holds(self, m: ChessMove)
        requires
            self.wf(),
        ensures
            self.generated().contains(m) == self.pseudo_legal(m),
    {
        if !self.drawn() {
            let q = self.piece_list(10, 0);
            let c = self.castling_list();
            let n = self.piece_list(4, 0);
            let r = self.piece_list(8, 0);
            let b = self.piece_list(6, 0);
            let p = self.pawn_moves_list();
            let k = self.piece_list(12, 0);
            m.lemma_fields();
            self.lemma_piece_list_holds(10, 0, m);
            self.lemma_castling_list_holds(m);
            self.lemma_piece_list_holds(4, 0, m);
            self.lemma_piece_list_holds(8, 0, m);
            self.lemma_piece_list_holds(6, 0, m);
            self.lemma_pawn_moves_list_holds(m);
            self.lemma_piece_list_holds(12, 0, m);
            lemma_concat_holds(q, c, m);
            lemma_concat_holds(q + c, n, m);
            lemma_concat_holds(q + c + n, r, m);
            lemma_concat_holds(q + c + n + r, b, m);
            lemma_concat_holds(q + c + n + r + b, p, m);
            lemma_concat_holds(q + c + n + r + b + p, k, m);
        }
    }

    /// The list of moves of a well-formed position holds exactly its
    /// pseudo-legal moves.
    pub proof fn lemma_lists_its_moves(self)
        requires
            self.wf(),
        ensures
            self.lists_its_moves(),
    {
        assert forall|m: ChessMove| #[trigger] self.move_list().contains(m) <==> self.pseudo_legal(m) by {
            self.lemma_in_order_holds(self.generated(), m);
            self.lemma_generated_holds(m);
        }
    }
}

} // verus!
