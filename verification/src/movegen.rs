//! Which squares are attacked, which moves a position offers, and the
//! generator that lists them.
use vstd::prelude::*;
use crate::attacks::{bishop_attacks, king_attacks, knight_attacks, queen_attacks, rook_attacks};
use crate::bits::{
    file_of, get_lsb, lemma_empty, lemma_lsb, lemma_mem_ops, lsb, mem, north_east, north_west, rank_of,
    south_east, south_west,
};
use crate::board::Board;
use crate::chess_move::{
    packed, ChessMove, CASTLING_MOVE, EN_PASSANT_MOVE, NORMAL_MOVE, PROMOTION_MOVE,
};
use crate::make_move::lemma_single_members;
use crate::position::{boards_wf, is_side, piece_in, Position};
use crate::zobrist::HashTable;

verus! {

/// A pawn of `color` on `f` attacks the square `t`: one rank ahead, one file
/// to either side.
pub open spec fn pawn_attack(color: int, f: int, t: int) -> bool {
    &&& 0 <= f < 64
    &&& 0 <= t < 64
    &&& rank_of(t) == rank_of(f) + if color == 0 {
        1int
    } else {
        -1int
    }
    &&& file_of(t) == file_of(f) + 1 || file_of(t) == file_of(f) - 1
}

/// The two sets have a common member.
pub open spec fn meets(a: u64, b: u64) -> bool {
    exists|i: int| 0 <= i < 64 && mem(a, i) && mem(b, i)
}

/// Two sets meet if and only if their intersection is not empty.
pub proof fn lemma_meets(a: u64, b: u64)
    ensures
        (a & b != 0) == meets(a, b),
{
    lemma_empty(a & b);
    if a & b != 0 {
        let i = choose|i: int| 0 <= i < 64 && mem(a & b, i);
        lemma_mem_ops(a, b, i);
    } else {
        assert forall|i: int| 0 <= i < 64 implies !(mem(a, i) && mem(b, i)) by {
            lemma_mem_ops(a, b, i);
        }
    }
}

/// On consistent bitboards the two colour boards do not overlap, and their
/// union holds the occupied squares.
pub proof fn lemma_blockers(bb: Seq<u64>)
    requires
        boards_wf(bb),
    ensures
        bb[0] ^ bb[1] == bb[0] | bb[1],
        forall|i: int| 0 <= i < 64 ==> #[trigger] mem(bb[0] | bb[1], i) == (piece_in(bb, i) != 14),
{
    assert forall|i: int| 0 <= i < 64 implies mem(bb[0] ^ bb[1], i) == mem(bb[0] | bb[1], i) by {
        lemma_mem_ops(bb[0], bb[1], i);
    }
    crate::bits::lemma_ext(bb[0] ^ bb[1], bb[0] | bb[1]);
    assert forall|i: int| 0 <= i < 64 implies #[trigger] mem(bb[0] | bb[1], i) == (piece_in(bb, i)
        != 14) by {
        lemma_mem_ops(bb[0], bb[1], i);
    }
}

/// The value of a piece in the ordering of moves.
pub open spec fn piece_value(piece: int) -> int {
    if piece == 2 || piece == 3 {
        100
    } else if piece == 4 || piece == 5 || piece == 6 || piece == 7 {
        350
    } else if piece == 8 || piece == 9 {
        525
    } else if piece == 10 || piece == 11 {
        1000
    } else {
        0
    }
}

impl Position {
    /// The piece of the side `by` on `t` attacks the square `sq`. Steps and
    /// rays are taken from `sq` backwards; pawns attack forwards.
    pub open spec fn attacks_square(self, t: int, sq: int, by: int) -> bool {
        let x = self.piece_at(t);
        let occ = self.occupied();
        ||| x == 4 + by && mem(knight_attacks(sq), t)
        ||| x == 12 + by && mem(king_attacks(sq), t)
        ||| (x == 6 + by || x == 10 + by) && mem(bishop_attacks(sq, occ), t)
        ||| (x == 8 + by || x == 10 + by) && mem(rook_attacks(sq, occ), t)
        ||| x == 2 + by && pawn_attack(by, t, sq)
    }

    /// Some piece of the side `by` attacks the square `sq`. An en-passant
    /// capture is no attack.
    pub open spec fn attacked_by(self, sq: int, by: int) -> bool {
        exists|t: int| 0 <= t < 64 && #[trigger] self.attacks_square(t, sq, by)
    }

    /// The king of `color` is attacked.
    pub open spec fn in_check(self, color: int) -> bool {
        self.attacked_by(lsb(self.bb[12 + color]), 1 - color)
    }

    /// A piece of the side to move may land on `t`: no piece of its own side
    /// stands there, and no king.
    pub open spec fn may_land(self, t: int) -> bool {
        let e = self.piece_at(t);
        !is_side(e, self.side()) && e != 12 && e != 13
    }

    /// A piece of the other side, not its king, stands on `t`.
    pub open spec fn may_take(self, t: int) -> bool {
        let e = self.piece_at(t);
        is_side(e, 1 - self.side()) && e != 12 && e != 13
    }

    /// `m` moves a piece of kind `piece` of the side to move to a square of
    /// `reach` on which it may land.
    pub open spec fn piece_move(self, m: ChessMove, piece: int, reach: u64) -> bool {
        &&& m.kind() == NORMAL_MOVE
        &&& m.promo() == 0
        &&& self.piece_at(m.src()) == piece + self.side()
        &&& mem(reach, m.dst())
        &&& self.may_land(m.dst())
    }

    /// A knight's move.
    pub open spec fn knight_move(self, m: ChessMove) -> bool {
        self.piece_move(m, 4, knight_attacks(m.src()))
    }

    /// A bishop's move.
    pub open spec fn bishop_move(self, m: ChessMove) -> bool {
        self.piece_move(m, 6, bishop_attacks(m.src(), self.occupied()))
    }

    /// A rook's move.
    pub open spec fn rook_move(self, m: ChessMove) -> bool {
        self.piece_move(m, 8, rook_attacks(m.src(), self.occupied()))
    }

    /// A queen's move.
    pub open spec fn queen_move(self, m: ChessMove) -> bool {
        self.piece_move(m, 10, queen_attacks(m.src(), self.occupied()))
    }

    /// A king's step; castling is apart.
    pub open spec fn king_move(self, m: ChessMove) -> bool {
        self.piece_move(m, 12, king_attacks(m.src()))
    }

    /// Castling: the right is held, the squares between king and rook are
    /// empty, and the king neither stands on, passes over nor lands on an
    /// attacked square.
    pub open spec fn castling_move(self, m: ChessMove) -> bool {
        let f = m.src();
        let t = m.dst();
        &&& m.kind() == CASTLING_MOVE
        &&& m.promo() == 0
        &&& if self.white_to_move {
            &&& f == 3
            &&& !self.attacked_by(3, 1)
            &&& {
                ||| t == 1 && self.white_king_castle && self.piece_at(1) == 14 && self.piece_at(2) == 14
                    && !self.attacked_by(2, 1) && !self.attacked_by(1, 1)
                ||| t == 5 && self.white_queen_castle && self.piece_at(4) == 14 && self.piece_at(5)
                    == 14 && self.piece_at(6) == 14 && !self.attacked_by(4, 1) && !self.attacked_by(
                    5,
                    1,
                )
            }
        } else {
            &&& f == 59
            &&& !self.attacked_by(59, 0)
            &&& {
                ||| t == 57 && self.black_king_castle && self.piece_at(57) == 14 && self.piece_at(58)
                    == 14 && !self.attacked_by(58, 0) && !self.attacked_by(57, 0)
                ||| t == 61 && self.black_queen_castle && self.piece_at(60) == 14 && self.piece_at(61)
                    == 14 && self.piece_at(62) == 14 && !self.attacked_by(60, 0) && !self.attacked_by(
                    61,
                    0,
                )
            }
        }
    }

    /// A pawn's step forward or capture from `f` to `t`, en passant aside.
    pub open spec fn pawn_reaches(self, f: int, t: int) -> bool {
        let c = self.side();
        let ahead = if c == 0 {
            8int
        } else {
            -8int
        };
        ||| t == f + ahead && self.piece_at(t) == 14
        ||| pawn_attack(c, f, t) && self.may_take(t)
    }

    /// A pawn's move: a step, a double step from its first rank, a capture,
    /// a capture en passant, or a promotion from its seventh rank.
    pub open spec fn pawn_move(self, m: ChessMove) -> bool {
        let c = self.side();
        let f = m.src();
        let t = m.dst();
        let ahead = if c == 0 {
            8int
        } else {
            -8int
        };
        let first = if c == 0 {
            1int
        } else {
            6int
        };
        let seventh = if c == 0 {
            6int
        } else {
            1int
        };
        &&& self.piece_at(f) == 2 + c
        &&& {
            ||| m.kind() == EN_PASSANT_MOVE && m.promo() == 0 && self.ep != 0 && t == lsb(self.ep)
                && pawn_attack(c, f, t)
            ||| m.kind() == NORMAL_MOVE && m.promo() == 0 && rank_of(f) != seventh && {
                ||| self.pawn_reaches(f, t)
                ||| rank_of(f) == first && t == f + 2 * ahead && self.piece_at(f + ahead) == 14
                    && self.piece_at(t) == 14
            }
            ||| m.kind() == PROMOTION_MOVE && rank_of(f) == seventh && self.pawn_reaches(f, t)
        }
    }

    /// `m` is a move of the side to move by the rules of the pieces; whether
    /// it leaves the own king attacked is not asked. A drawn position offers
    /// no move.
    pub open spec fn pseudo_legal(self, m: ChessMove) -> bool {
        &&& !self.drawn()
        &&& {
            ||| self.queen_move(m)
            ||| self.castling_move(m)
            ||| self.knight_move(m)
            ||| self.rook_move(m)
            ||| self.bishop_move(m)
            ||| self.pawn_move(m)
            ||| self.king_move(m)
        }
    }

    /// `m` is pseudo-legal and does not leave the own king attacked.
    pub open spec fn legal(self, m: ChessMove, keys: &HashTable) -> bool {
        self.pseudo_legal(m) && !self.apply(m, keys).in_check(self.side())
    }

    /// What a move gains at first sight, for the ordering of moves.
    pub open spec fn gain(self, m: ChessMove) -> int {
        let c = self.side();
        let victim = if is_side(self.piece_at(m.dst()), 1 - c) {
            self.piece_at(m.dst())
        } else {
            14
        };
        let mover = if is_side(self.piece_at(m.src()), c) {
            self.piece_at(m.src())
        } else {
            14
        };
        if m.kind() == NORMAL_MOVE {
            if victim == 14 {
                0
            } else {
                piece_value(victim) - piece_value(mover)
            }
        } else if m.kind() == PROMOTION_MOVE {
            piece_value(victim) + piece_value(crate::make_move::promoted_piece(m.promo()))
        } else if m.kind() == EN_PASSANT_MOVE {
            10
        } else {
            20
        }
    }

    /// The squares that a piece of kind `kind` on `f` attacks.
    pub open spec fn reach(self, kind: int, f: int) -> u64 {
        if kind == 4 {
            knight_attacks(f)
        } else if kind == 6 {
            bishop_attacks(f, self.occupied())
        } else if kind == 8 {
            rook_attacks(f, self.occupied())
        } else if kind == 10 {
            queen_attacks(f, self.occupied())
        } else {
            king_attacks(f)
        }
    }

    /// The squares on which a piece of the side to move may land.
    pub open spec fn landing(self) -> u64 {
        !self.bb[self.side()] & !self.bb[13 - self.side()]
    }

    /// The moves of the pieces of kind `kind` that stand on the squares from
    /// `i` on: piece by piece in ascending order of its square, and for each
    /// piece in ascending order of the target.
    pub open spec fn piece_list(self, kind: int, i: int) -> Seq<ChessMove>
        decreases 64 - i,
    {
        if i >= 64 {
            Seq::empty()
        } else if mem(self.bb[kind + self.side()], i) {
            plain_list(i, self.reach(kind, i) & self.landing(), 0) + self.piece_list(kind, i + 1)
        } else {
            self.piece_list(kind, i + 1)
        }
    }

    /// The castling moves: to the king's side, then to the queen's side.
    pub open spec fn castling_list(self) -> Seq<ChessMove> {
        let king_square = if self.white_to_move {
            3int
        } else {
            59int
        };
        let short = packed(king_square, king_square - 2, 0, CASTLING_MOVE);
        let long = packed(king_square, king_square + 2, 0, CASTLING_MOVE);
        (if self.castling_move(short) {
            seq![short]
        } else {
            Seq::empty()
        }) + (if self.castling_move(long) {
            seq![long]
        } else {
            Seq::empty()
        })
    }

    /// The pawns' moves: captures en passant, single steps, double steps,
    /// captures over nine squares and over seven, and then the promotions
    /// by a step and by the two captures; each group in ascending order of
    /// the target square.
    pub open spec fn pawn_moves_list(self) -> Seq<ChessMove> {
        let white = self.white_to_move;
        let c = self.side();
        let free = !(self.bb[0] ^ self.bb[1]);
        let enemies = self.bb[1 - c] & !self.bb[13 - c];
        let pawns = self.bb[2 + c];
        let seventh = if white {
            crate::bits::RANK_7
        } else {
            crate::bits::RANK_2
        };
        let third = if white {
            crate::bits::RANK_3
        } else {
            crate::bits::RANK_6
        };
        let movers = pawns & !seventh;
        let promoters = pawns & seventh;
        let single = shift_ahead(movers, white) & free;
        let double = shift_ahead(single & third, white) & free;
        let en_passant = if self.ep != 0 {
            to_list(
                (shift_capture(self.ep, 9, !white) | shift_capture(self.ep, 7, !white)) & pawns,
                lsb(self.ep),
                EN_PASSANT_MOVE,
                0,
            )
        } else {
            Seq::empty()
        };
        en_passant + pawn_list(single, 8, white, false, 0) + pawn_list(double, 16, white, false, 0)
            + pawn_list(shift_capture(movers, 9, white) & enemies, 9, white, false, 0) + pawn_list(
            shift_capture(movers, 7, white) & enemies,
            7,
            white,
            false,
            0,
        ) + pawn_list(shift_ahead(promoters, white) & free, 8, white, true, 0) + pawn_list(
            shift_capture(promoters, 9, white) & enemies,
            9,
            white,
            true,
            0,
        ) + pawn_list(shift_capture(promoters, 7, white) & enemies, 7, white, true, 0)
    }

    /// The moves in the order in which they are generated: queens, castling,
    /// knights, rooks, bishops, pawns, king; none in a drawn position.
    pub open spec fn generated(self) -> Seq<ChessMove> {
        if self.drawn() {
            Seq::empty()
        } else {
            self.piece_list(10, 0) + self.castling_list() + self.piece_list(4, 0) + self.piece_list(8, 0)
                + self.piece_list(6, 0) + self.pawn_moves_list() + self.piece_list(12, 0)
        }
    }

    /// The list with `m` set behind every move that gains at least as much.
    pub open spec fn inserted(self, sorted: Seq<ChessMove>, m: ChessMove) -> Seq<ChessMove>
        decreases sorted.len(),
    {
        if sorted.len() == 0 {
            seq![m]
        } else if self.gain(sorted.last()) >= self.gain(m) {
            sorted.push(m)
        } else {
            self.inserted(sorted.drop_last(), m).push(sorted.last())
        }
    }

    /// The list in descending order of gain; moves of equal gain keep their
    /// order.
    pub open spec fn in_order(self, list: Seq<ChessMove>) -> Seq<ChessMove>
        decreases list.len(),
    {
        if list.len() == 0 {
            Seq::empty()
        } else {
            self.inserted(self.in_order(list.drop_last()), list.last())
        }
    }

    /// The pseudo-legal moves in the order in which `pseudo_legal_moves`
    /// lists them: in descending order of gain, and among moves of equal
    /// gain in the order in which they are generated.
    pub open spec fn move_list(self) -> Seq<ChessMove> {
        self.in_order(self.generated())
    }

    /// Where no piece of a kind stands from `i` up to `j`, the moves of the
    /// pieces from `i` and from `j` on are the same.
    pub proof fn lemma_piece_skip(self, kind: int, i: int, j: int)
        requires
            0 <= i <= j <= 64,
            forall|k: int| i <= k < j ==> !#[trigger] mem(self.bb[kind + self.side()], k),
        ensures
            self.piece_list(kind, i) == self.piece_list(kind, j),
        decreases j - i,
    {
        if i < j {
            self.lemma_piece_skip(kind, i + 1, j);
        }
    }

    /// The list of moves holds exactly the pseudo-legal moves.
    pub open spec fn lists_its_moves(self) -> bool {
        forall|m: ChessMove| #[trigger] self.move_list().contains(m) <==> self.pseudo_legal(m)
    }

    /// The legal moves among the first `n` moves of `list`, in the order of
    /// the list.
    pub open spec fn legal_among(self, list: Seq<ChessMove>, n: int, keys: &HashTable) -> Seq<ChessMove>
        decreases n,
    {
        if n <= 0 {
            Seq::empty()
        } else if self.apply(list[n - 1], keys).in_check(self.side()) {
            self.legal_among(list, n - 1, keys)
        } else {
            self.legal_among(list, n - 1, keys).push(list[n - 1])
        }
    }

    /// The legal moves in the order in which `legal_moves` lists them: the
    /// order of the pseudo-legal moves.
    pub open spec fn legal_list(self, keys: &HashTable) -> Seq<ChessMove> {
        self.legal_among(self.move_list(), self.move_list().len() as int, keys)
    }

    /// Where a move stands after it is inserted: behind the moves that gain
    /// at least as much, before those that gain less.
    pub proof fn lemma_inserted(self, sorted: Seq<ChessMove>, m: ChessMove, j: int)
        requires
            0 <= j <= sorted.len(),
            forall|k: int| j <= k < sorted.len() ==> self.gain(#[trigger] sorted[k]) < self.gain(m),
            j == 0 || self.gain(sorted[j - 1]) >= self.gain(m),
        ensures
            self.inserted(sorted, m) == sorted.take(j) + seq![m] + sorted.skip(j),
        decreases sorted.len(),
    {
        if sorted.len() == 0 {
            assert(seq![m] =~= sorted.take(j) + seq![m] + sorted.skip(j));
        } else if j == sorted.len() {
            assert(sorted.push(m) =~= sorted.take(j) + seq![m] + sorted.skip(j));
        } else {
            let shorter = sorted.drop_last();
            assert(self.gain(sorted[sorted.len() - 1]) < self.gain(m));
            assert forall|k: int| j <= k < shorter.len() implies self.gain(#[trigger] shorter[k]) < self.gain(
                m,
            ) by {
                assert(shorter[k] == sorted[k]);
            }
            self.lemma_inserted(shorter, m, j);
            assert((shorter.take(j) + seq![m] + shorter.skip(j)).push(sorted.last()) =~= sorted.take(j)
                + seq![m] + sorted.skip(j));
        }
    }

    /// Every pseudo-legal move is one that `make_move` accepts.
    pub proof fn lemma_pseudo_legal_accepts(self, m: ChessMove)
        requires
            self.wf(),
            self.pseudo_legal(m),
        ensures
            self.accepts(m),
    {
        m.lemma_fields();
        lemma_blockers(self.bb);
    }
}

impl<'a> Board<'a> {
    /// No piece of the other side attacks the square `index`.
    /// Ignores en passant.
    pub fn square_is_safe(&self, index: usize, defending_color: usize) -> (r: bool)
        requires
            self.wf(),
            index < 64,
            defending_color < 2,
        ensures
            r == !self@.attacked_by(index as int, 1 - defending_color),
    {
        let attacking_color = 1 - defending_color;
        let blockers = self.bitboards[0] ^ self.bitboards[1];
        let tables = &self.tables.attacks;
        let ghost p = self@;
        let ghost sq = index as int;
        let ghost by = attacking_color as int;
        proof {
            lemma_blockers(p.bb);
        }
        let diagonal = self.bitboards[6 + attacking_color] | self.bitboards[10 + attacking_color];
        let straight = self.bitboards[8 + attacking_color] | self.bitboards[10 + attacking_color];
        let knights = self.bitboards[4 + attacking_color];
        let kings = self.bitboards[12 + attacking_color];
        let pawns = self.bitboards[2 + attacking_color];
        let bishop_reach = tables.bishop(index, blockers);
        proof {
            lemma_meets(bishop_reach, diagonal);
            if meets(bishop_reach, diagonal) {
                let t = choose|t: int| 0 <= t < 64 && mem(bishop_reach, t) && mem(diagonal, t);
                lemma_mem_ops(p.bb[6 + by], p.bb[10 + by], t);
                assert(p.attacks_square(t, sq, by));
            }
        }
        if bishop_reach & diagonal != 0 {
            return false;
        }
        let rook_reach = tables.rook(index, blockers);
        proof {
            lemma_meets(rook_reach, straight);
            if meets(rook_reach, straight) {
                let t = choose|t: int| 0 <= t < 64 && mem(rook_reach, t) && mem(straight, t);
                lemma_mem_ops(p.bb[8 + by], p.bb[10 + by], t);
                assert(p.attacks_square(t, sq, by));
            }
        }
        if rook_reach & straight != 0 {
            return false;
        }
        let knight_reach = tables.knight(index);
        proof {
            lemma_meets(knight_reach, knights);
            if meets(knight_reach, knights) {
                let t = choose|t: int| 0 <= t < 64 && mem(knight_reach, t) && mem(knights, t);
                assert(p.attacks_square(t, sq, by));
            }
        }
        if knight_reach & knights != 0 {
            return false;
        }
        let king_reach = tables.king(index);
        proof {
            lemma_meets(king_reach, kings);
            if meets(king_reach, kings) {
                let t = choose|t: int| 0 <= t < 64 && mem(king_reach, t) && mem(kings, t);
                assert(p.attacks_square(t, sq, by));
            }
        }
        if king_reach & kings != 0 {
            return false;
        }
        let square_bb: u64 = 1u64 << (index as u64);
        let left = if attacking_color == 1 {
            south_west(pawns)
        } else {
            north_west(pawns)
        };
        let right = if attacking_color == 1 {
            south_east(pawns)
        } else {
            north_east(pawns)
        };
        let pawn_reach = left | right;
        proof {
            crate::board::lemma_single_hit(pawn_reach, sq);
            lemma_mem_ops(left, right, sq);
            if mem(pawn_reach, sq) {
                let t = if attacking_color == 1 {
                    if mem(left, sq) {
                        sq + 7
                    } else {
                        sq + 9
                    }
                } else {
                    if mem(left, sq) {
                        sq - 9
                    } else {
                        sq - 7
                    }
                };
                assert(mem(pawns, t));
                assert(pawn_attack(by, t, sq));
                assert(p.attacks_square(t, sq, by));
            }
        }
        if pawn_reach & square_bb != 0 {
            return false;
        }
        proof {
            assert forall|t: int| 0 <= t < 64 implies !#[trigger] p.attacks_square(t, sq, by) by {
                lemma_mem_ops(p.bb[6 + by], p.bb[10 + by], t);
                lemma_mem_ops(p.bb[8 + by], p.bb[10 + by], t);
                if p.piece_at(t) == 2 + by && pawn_attack(by, t, sq) {
                    assert(mem(pawns, t));
                    if attacking_color == 1 {
                        assert(t == sq + 7 || t == sq + 9);
                        assert(mem(left, sq) || mem(right, sq));
                    } else {
                        assert(t == sq - 7 || t == sq - 9);
                        assert(mem(left, sq) || mem(right, sq));
                    }
                    assert(false);
                }
            }
        }
        true
    }

    /// The king of `color` is attacked.
    pub fn in_check(&self, color: usize) -> (r: bool)
        requires
            self.wf(),
            color < 2,
        ensures
            r == self@.in_check(color as int),
    {
        proof {
            lemma_single_members(self@.bb[12 + color]);
        }
        let king_index = get_lsb(self.bitboards[color + 12]);
        !self.square_is_safe(king_index, color)
    }
}

/// The plain moves from `from` to the members of `targets` from the square
/// `i` on, in ascending order of the target.
pub open spec fn plain_list(from: int, targets: u64, i: int) -> Seq<ChessMove>
    decreases 64 - i,
{
    if i >= 64 {
        Seq::empty()
    } else if mem(targets, i) {
        seq![packed(from, i, 0, NORMAL_MOVE)] + plain_list(from, targets, i + 1)
    } else {
        plain_list(from, targets, i + 1)
    }
}

/// The moves of the kind `move_type` to `to` from the members of `origins`
/// from the square `i` on, in ascending order of the origin.
pub open spec fn to_list(origins: u64, to: int, move_type: u16, i: int) -> Seq<ChessMove>
    decreases 64 - i,
{
    if i >= 64 {
        Seq::empty()
    } else if mem(origins, i) {
        seq![packed(i, to, 0, move_type)] + to_list(origins, to, move_type, i + 1)
    } else {
        to_list(origins, to, move_type, i + 1)
    }
}

/// The pawn's moves that end on `to` and began `delta` squares behind: a
/// plain move, or the promotions to knight, bishop, rook and queen.
pub open spec fn pawn_moves_to(to: int, delta: int, white: bool, promote: bool) -> Seq<ChessMove> {
    let from = pawn_origin(to, delta, white);
    if promote {
        seq![
            packed(from, to, crate::chess_move::KNIGHT_PROMOTION, PROMOTION_MOVE),
            packed(from, to, crate::chess_move::BISHOP_PROMOTION, PROMOTION_MOVE),
            packed(from, to, crate::chess_move::ROOK_PROMOTION, PROMOTION_MOVE),
            packed(from, to, crate::chess_move::QUEEN_PROMOTION, PROMOTION_MOVE),
        ]
    } else {
        seq![packed(from, to, 0, NORMAL_MOVE)]
    }
}

/// The pawns' moves to the members of `targets` from the square `i` on, in
/// ascending order of the target.
pub open spec fn pawn_list(targets: u64, delta: int, white: bool, promote: bool, i: int) -> Seq<ChessMove>
    decreases 64 - i,
{
    if i >= 64 {
        Seq::empty()
    } else if mem(targets, i) {
        pawn_moves_to(i, delta, white, promote) + pawn_list(targets, delta, white, promote, i + 1)
    } else {
        pawn_list(targets, delta, white, promote, i + 1)
    }
}

/// Where a set has no member from `i` up to `j`, the plain moves from `i`
/// and from `j` on are the same.
pub proof fn lemma_plain_skip(from: int, b: u64, i: int, j: int)
    requires
        0 <= i <= j <= 64,
        forall|k: int| i <= k < j ==> !mem(b, k),
    ensures
        plain_list(from, b, i) == plain_list(from, b, j),
    decreases j - i,
{
    if i < j {
        lemma_plain_skip(from, b, i + 1, j);
    }
}

/// Where a set has no member from `i` up to `j`, the moves from its members
/// from `i` and from `j` on are the same.
pub proof fn lemma_to_skip(b: u64, to: int, move_type: u16, i: int, j: int)
    requires
        0 <= i <= j <= 64,
        forall|k: int| i <= k < j ==> !mem(b, k),
    ensures
        to_list(b, to, move_type, i) == to_list(b, to, move_type, j),
    decreases j - i,
{
    if i < j {
        lemma_to_skip(b, to, move_type, i + 1, j);
    }
}

/// Where a set has no member from `i` up to `j`, the pawns' moves from `i`
/// and from `j` on are the same.
pub proof fn lemma_pawn_skip(b: u64, delta: int, white: bool, promote: bool, i: int, j: int)
    requires
        0 <= i <= j <= 64,
        forall|k: int| i <= k < j ==> !mem(b, k),
    ensures
        pawn_list(b, delta, white, promote, i) == pawn_list(b, delta, white, promote, j),
    decreases j - i,
{
    if i < j {
        lemma_pawn_skip(b, delta, white, promote, i + 1, j);
    }
}

/// What a loop over the members of a set knows of the members that are
/// left: they are the members of the set from the lowest of them on.
pub open spec fn rest_of(rest: u64, all: u64) -> bool {
    &&& 0 <= lsb(rest) <= 64
    &&& forall|j: int| 0 <= j < 64 ==> #[trigger] mem(rest, j) == (mem(all, j) && j >= lsb(rest))
}

/// Before the loop, all members are left.
pub proof fn lemma_rest_first(all: u64)
    ensures
        rest_of(all, all),
        forall|k: int| 0 <= k < lsb(all) ==> !mem(all, k),
{
    lemma_lsb(all);
}

/// After the lowest member is taken, the members above it are left, and
/// none lies between it and the lowest of them.
pub proof fn lemma_rest_next(before: u64, after: u64, all: u64)
    requires
        rest_of(before, all),
        before != 0,
        forall|j: int| mem(after, j) == (mem(before, j) && j != lsb(before)),
    ensures
        rest_of(after, all),
        lsb(before) < lsb(after),
        mem(all, lsb(before)),
        forall|k: int| lsb(before) + 1 <= k < lsb(after) ==> !mem(all, k),
{
    lemma_lsb(before);
    lemma_lsb(after);
    if after != 0 {
        assert(mem(after, lsb(after)));
    }
    assert forall|k: int| lsb(before) + 1 <= k < lsb(after) implies !mem(all, k) by {
        assert(!mem(after, k));
    }
}

/// A list without repetitions stays so when a move that it lacks is added.
pub proof fn lemma_push_fresh(s: Seq<ChessMove>, a: ChessMove)
    requires
        s.no_duplicates(),
        !s.contains(a),
    ensures
        s.push(a).no_duplicates(),
{
    let t = s.push(a);
    assert forall|i: int, j: int| 0 <= i < t.len() && 0 <= j < t.len() && i != j implies t[i] != t[j] by {
        if i < s.len() && j < s.len() {
            assert(s[i] != s[j]);
        } else if i < s.len() {
            assert(s.contains(s[i]));
        } else if j < s.len() {
            assert(s.contains(s[j]));
        }
    }
}

/// `m` is a plain move from `from` to a square of `targets`.
pub open spec fn plain_from(m: ChessMove, from: int, targets: u64) -> bool {
    m.kind() == NORMAL_MOVE && m.promo() == 0 && m.src() == from && mem(targets, m.dst())
}

/// `m` is a move of the kind `move_type` to `to` from a square of `origins`.
pub open spec fn kind_to(m: ChessMove, origins: u64, to: int, move_type: u16) -> bool {
    m.kind() == move_type && m.promo() == 0 && m.dst() == to && mem(origins, m.src())
}

/// The list has no repetitions.
pub open spec fn distinct(list: Seq<ChessMove>) -> bool {
    list.no_duplicates()
}

/// Adds a plain move from `from` to each square of `targets`.
fn add_moves_from(from: usize, targets: u64, chess_moves: &mut Vec<ChessMove>)
    requires
        from < 64,
    ensures
        forall|m: ChessMove|
            #[trigger] final(chess_moves)@.contains(m) <==> (old(chess_moves)@.contains(m) || plain_from(
                m,
                from as int,
                targets,
            )),
        distinct(old(chess_moves)@) && (forall|m: ChessMove|
            #[trigger] old(chess_moves)@.contains(m) ==> !plain_from(m, from as int, targets)) ==> distinct(
            final(chess_moves)@,
        ),
        final(chess_moves)@ == old(chess_moves)@ + plain_list(from as int, targets, 0),
{
    let ghost before = chess_moves@;
    let ghost fresh = distinct(before) && (forall|m: ChessMove| #[trigger]
        before.contains(m) ==> !plain_from(m, from as int, targets));
    let mut moves = targets;
    proof {
        lemma_lsb(moves);
        lemma_rest_first(targets);
        lemma_plain_skip(from as int, targets, 0, lsb(targets));
    }
    while moves != 0
        invariant
            from < 64,
            0 <= lsb(moves) <= 64,
            rest_of(moves, targets),
            chess_moves@ + plain_list(from as int, targets, lsb(moves)) == before + plain_list(
                from as int,
                targets,
                0,
            ),
            fresh == (distinct(before) && (forall|m: ChessMove| #[trigger]
                before.contains(m) ==> !plain_from(m, from as int, targets))),
            fresh ==> distinct(chess_moves@),
            forall|i: int| mem(moves, i) ==> mem(targets, i),
            forall|m: ChessMove|
                #[trigger] chess_moves@.contains(m) <==> (before.contains(m) || (m.kind() == NORMAL_MOVE
                    && m.promo() == 0 && m.src() == from && mem(targets, m.dst()) && !mem(
                    moves,
                    m.dst(),
                ))),
        decreases 64 - lsb(moves),
    {
        let ghost prev = chess_moves@;
        let ghost prev_moves = moves;
        let to_index = crate::bits::pop_lsb(&mut moves);
        let chess_move = ChessMove::new(from, to_index, 0, NORMAL_MOVE);
        chess_moves.push(chess_move);
        proof {
            lemma_rest_next(prev_moves, moves, targets);
            lemma_plain_skip(from as int, targets, to_index + 1, lsb(moves));
            assert(prev.push(chess_move) + plain_list(from as int, targets, to_index + 1) =~= prev
                + plain_list(from as int, targets, to_index as int));
            if fresh {
                assert(plain_from(chess_move, from as int, targets));
                assert(!prev.contains(chess_move));
                lemma_push_fresh(prev, chess_move);
            }
            lemma_lsb(moves);
            if moves != 0 {
                assert(mem(moves, lsb(moves)));
            }
            assert forall|m: ChessMove| #[trigger]
                chess_moves@.contains(m) <==> (before.contains(m) || (m.kind() == NORMAL_MOVE && m.promo()
                    == 0 && m.src() == from && mem(targets, m.dst()) && !mem(moves, m.dst()))) by {
                vstd::seq_lib::lemma_seq_contains_after_push(prev, chess_move, m);
                m.lemma_fields();
                if m.kind() == NORMAL_MOVE && m.promo() == 0 && m.src() == from && m.dst() == to_index {
                    m.lemma_same_fields(chess_move);
                }
                assert(prev.contains(m) <==> (before.contains(m) || (m.kind() == NORMAL_MOVE
                    && m.promo() == 0 && m.src() == from && mem(targets, m.dst()) && !mem(
                    prev_moves,
                    m.dst(),
                ))));
            }
        }
    }
    proof {
        lemma_empty(moves);
        lemma_lsb(moves);
        assert(chess_moves@ + plain_list(from as int, targets, 64) =~= chess_moves@);
        assert forall|m: ChessMove| #[trigger]
            chess_moves@.contains(m) <==> (before.contains(m) || plain_from(m, from as int, targets)) by {
            m.lemma_fields();
        }
    }
}

/// Adds a move of the kind `move_type` to `to` from each square of `origins`.
fn add_moves_to(origins: u64, to: usize, move_type: u16, chess_moves: &mut Vec<ChessMove>)
    requires
        to < 64,
        crate::chess_move::is_move_type(move_type),
    ensures
        forall|m: ChessMove|
            #[trigger] final(chess_moves)@.contains(m) <==> (old(chess_moves)@.contains(m) || kind_to(
                m,
                origins,
                to as int,
                move_type,
            )),
        distinct(old(chess_moves)@) && (forall|m: ChessMove|
            #[trigger] old(chess_moves)@.contains(m) ==> !kind_to(m, origins, to as int, move_type))
            ==> distinct(final(chess_moves)@),
        final(chess_moves)@ == old(chess_moves)@ + to_list(origins, to as int, move_type, 0),
{
    let ghost before = chess_moves@;
    let ghost fresh = distinct(before) && (forall|m: ChessMove| #[trigger]
        before.contains(m) ==> !kind_to(m, origins, to as int, move_type));
    let mut rest = origins;
    proof {
        lemma_lsb(rest);
        lemma_rest_first(origins);
        lemma_to_skip(origins, to as int, move_type, 0, lsb(origins));
    }
    while rest != 0
        invariant
            to < 64,
            rest_of(rest, origins),
            chess_moves@ + to_list(origins, to as int, move_type, lsb(rest)) == before + to_list(
                origins,
                to as int,
                move_type,
                0,
            ),
            fresh == (distinct(before) && (forall|m: ChessMove| #[trigger]
                before.contains(m) ==> !kind_to(m, origins, to as int, move_type))),
            fresh ==> distinct(chess_moves@),
            crate::chess_move::is_move_type(move_type),
            0 <= lsb(rest) <= 64,
            forall|i: int| mem(rest, i) ==> mem(origins, i),
            forall|m: ChessMove|
                #[trigger] chess_moves@.contains(m) <==> (before.contains(m) || (m.kind() == move_type
                    && m.promo() == 0 && m.dst() == to && mem(origins, m.src()) && !mem(rest, m.src()))),
        decreases 64 - lsb(rest),
    {
        let ghost prev = chess_moves@;
        let ghost prev_rest = rest;
        let from_index = crate::bits::pop_lsb(&mut rest);
        let chess_move = ChessMove::new(from_index, to, 0, move_type);
        chess_moves.push(chess_move);
        proof {
            lemma_rest_next(prev_rest, rest, origins);
            lemma_to_skip(origins, to as int, move_type, from_index + 1, lsb(rest));
            assert(prev.push(chess_move) + to_list(origins, to as int, move_type, from_index + 1) =~= prev
                + to_list(origins, to as int, move_type, from_index as int));
            if fresh {
                assert(kind_to(chess_move, origins, to as int, move_type));
                assert(!prev.contains(chess_move));
                lemma_push_fresh(prev, chess_move);
            }
            lemma_lsb(rest);
            if rest != 0 {
                assert(mem(rest, lsb(rest)));
            }
            assert forall|m: ChessMove| #[trigger]
                chess_moves@.contains(m) <==> (before.contains(m) || (m.kind() == move_type && m.promo()
                    == 0 && m.dst() == to && mem(origins, m.src()) && !mem(rest, m.src()))) by {
                vstd::seq_lib::lemma_seq_contains_after_push(prev, chess_move, m);
                m.lemma_fields();
                if m.kind() == move_type && m.promo() == 0 && m.dst() == to && m.src() == from_index {
                    m.lemma_same_fields(chess_move);
                }
                assert(prev.contains(m) <==> (before.contains(m) || (m.kind() == move_type && m.promo()
                    == 0 && m.dst() == to && mem(origins, m.src()) && !mem(prev_rest, m.src()))));
            }
        }
    }
    proof {
        lemma_empty(rest);
        lemma_lsb(rest);
        assert(chess_moves@ + to_list(origins, to as int, move_type, 64) =~= chess_moves@);
        assert forall|m: ChessMove| #[trigger]
            chess_moves@.contains(m) <==> (before.contains(m) || kind_to(m, origins, to as int, move_type)) by {
            m.lemma_fields();
        }
    }
}

/// The origin of a pawn's move that ends on `to`, `delta` squares further.
pub open spec fn pawn_origin(to: int, delta: int, white: bool) -> int {
    if white {
        to - delta
    } else {
        to + delta
    }
}

/// `m` has the shape of a pawn's move in the list: a promotion of any kind,
/// or a plain move.
pub open spec fn pawn_shape(m: ChessMove, promote: bool) -> bool {
    if promote {
        m.kind() == PROMOTION_MOVE
    } else {
        m.kind() == NORMAL_MOVE && m.promo() == 0
    }
}

/// `m` is a pawn's move of the given shape that ends on a square of
/// `targets` and began `delta` squares behind.
pub open spec fn pawn_from(m: ChessMove, targets: u64, delta: int, white: bool, promote: bool) -> bool {
    pawn_shape(m, promote) && mem(targets, m.dst()) && m.src() == pawn_origin(m.dst(), delta, white)
}

/// Adds, for each square of `targets`, the pawn's move that ends there and
/// began `delta` squares behind: a plain move, or the four promotions.
fn add_pawn_moves(targets: u64, delta: usize, white: bool, promote: bool, chess_moves: &mut Vec<ChessMove>)
    requires
        delta < 64,
        forall|i: int| 0 <= i < 64 && mem(targets, i) ==> 0 <= pawn_origin(i, delta as int, white) < 64,
    ensures
        forall|m: ChessMove|
            #[trigger] final(chess_moves)@.contains(m) <==> (old(chess_moves)@.contains(m) || pawn_from(
                m,
                targets,
                delta as int,
                white,
                promote,
            )),
        distinct(old(chess_moves)@) && (forall|m: ChessMove|
            #[trigger] old(chess_moves)@.contains(m) ==> !pawn_from(m, targets, delta as int, white, promote))
            ==> distinct(final(chess_moves)@),
        final(chess_moves)@ == old(chess_moves)@ + pawn_list(targets, delta as int, white, promote, 0),
{
    let ghost before = chess_moves@;
    let ghost fresh = distinct(before) && (forall|m: ChessMove| #[trigger]
        before.contains(m) ==> !pawn_from(m, targets, delta as int, white, promote));
    let mut rest = targets;
    proof {
        lemma_lsb(rest);
        lemma_rest_first(targets);
        lemma_pawn_skip(targets, delta as int, white, promote, 0, lsb(targets));
    }
    while rest != 0
        invariant
            delta < 64,
            rest_of(rest, targets),
            chess_moves@ + pawn_list(targets, delta as int, white, promote, lsb(rest)) == before
                + pawn_list(targets, delta as int, white, promote, 0),
            fresh == (distinct(before) && (forall|m: ChessMove| #[trigger]
                before.contains(m) ==> !pawn_from(m, targets, delta as int, white, promote))),
            fresh ==> distinct(chess_moves@),
            0 <= lsb(rest) <= 64,
            forall|i: int| mem(rest, i) ==> mem(targets, i),
            forall|i: int| 0 <= i < 64 && mem(targets, i) ==> 0 <= pawn_origin(i, delta as int, white) < 64,
            forall|m: ChessMove|
                #[trigger] chess_moves@.contains(m) <==> (before.contains(m) || (pawn_shape(m, promote)
                    && mem(targets, m.dst()) && m.src() == pawn_origin(m.dst(), delta as int, white)
                    && !mem(rest, m.dst()))),
        decreases 64 - lsb(rest),
    {
        let ghost prev = chess_moves@;
        let ghost prev_rest = rest;
        let to_index = crate::bits::pop_lsb(&mut rest);
        assert(mem(targets, to_index as int));
        let from_index = if white {
            to_index - delta
        } else {
            to_index + delta
        };
        if promote {
            let m0 = ChessMove::new(from_index, to_index, crate::chess_move::KNIGHT_PROMOTION, PROMOTION_MOVE);
            let m1 = ChessMove::new(from_index, to_index, crate::chess_move::BISHOP_PROMOTION, PROMOTION_MOVE);
            let m2 = ChessMove::new(from_index, to_index, crate::chess_move::ROOK_PROMOTION, PROMOTION_MOVE);
            let m3 = ChessMove::new(from_index, to_index, crate::chess_move::QUEEN_PROMOTION, PROMOTION_MOVE);
            chess_moves.push(m0);
            chess_moves.push(m1);
            chess_moves.push(m2);
            chess_moves.push(m3);
            proof {
                if fresh {
                    assert(pawn_from(m0, targets, delta as int, white, promote));
                    assert(pawn_from(m1, targets, delta as int, white, promote));
                    assert(pawn_from(m2, targets, delta as int, white, promote));
                    assert(pawn_from(m3, targets, delta as int, white, promote));
                    assert(!prev.contains(m0) && !prev.contains(m1) && !prev.contains(m2)
                        && !prev.contains(m3));
                    lemma_push_fresh(prev, m0);
                    vstd::seq_lib::lemma_seq_contains_after_push(prev, m0, m1);
                    lemma_push_fresh(prev.push(m0), m1);
                    vstd::seq_lib::lemma_seq_contains_after_push(prev, m0, m2);
                    vstd::seq_lib::lemma_seq_contains_after_push(prev.push(m0), m1, m2);
                    lemma_push_fresh(prev.push(m0).push(m1), m2);
                    vstd::seq_lib::lemma_seq_contains_after_push(prev, m0, m3);
                    vstd::seq_lib::lemma_seq_contains_after_push(prev.push(m0), m1, m3);
                    vstd::seq_lib::lemma_seq_contains_after_push(prev.push(m0).push(m1), m2, m3);
                    lemma_push_fresh(prev.push(m0).push(m1).push(m2), m3);
                }
                assert forall|m: ChessMove| #[trigger]
                    chess_moves@.contains(m) <==> (prev.contains(m) || (m.kind() == PROMOTION_MOVE
                        && m.src() == from_index && m.dst() == to_index)) by {
                    vstd::seq_lib::lemma_seq_contains_after_push(prev, m0, m);
                    vstd::seq_lib::lemma_seq_contains_after_push(prev.push(m0), m1, m);
                    vstd::seq_lib::lemma_seq_contains_after_push(prev.push(m0).push(m1), m2, m);
                    vstd::seq_lib::lemma_seq_contains_after_push(prev.push(m0).push(m1).push(m2), m3, m);
                    m.lemma_fields();
                    if m.kind() == PROMOTION_MOVE && m.src() == from_index && m.dst() == to_index {
                        if m.promo() == crate::chess_move::KNIGHT_PROMOTION {
                            m.lemma_same_fields(m0);
                        } else if m.promo() == crate::chess_move::BISHOP_PROMOTION {
                            m.lemma_same_fields(m1);
                        } else if m.promo() == crate::chess_move::ROOK_PROMOTION {
                            m.lemma_same_fields(m2);
                        } else {
                            m.lemma_same_fields(m3);
                        }
                    }
                }
            }
        } else {
            let m0 = ChessMove::new(from_index, to_index, 0, NORMAL_MOVE);
            chess_moves.push(m0);
            proof {
                if fresh {
                    assert(pawn_from(m0, targets, delta as int, white, promote));
                    assert(!prev.contains(m0));
                    lemma_push_fresh(prev, m0);
                }
                assert forall|m: ChessMove| #[trigger]
                    chess_moves@.contains(m) <==> (prev.contains(m) || (m.kind() == NORMAL_MOVE
                        && m.promo() == 0 && m.src() == from_index && m.dst() == to_index)) by {
                    vstd::seq_lib::lemma_seq_contains_after_push(prev, m0, m);
                    m.lemma_fields();
                    if m.kind() == NORMAL_MOVE && m.promo() == 0 && m.src() == from_index && m.dst()
                        == to_index {
                        m.lemma_same_fields(m0);
                    }
                }
            }
        }
        proof {
            lemma_rest_next(prev_rest, rest, targets);
            lemma_pawn_skip(targets, delta as int, white, promote, to_index + 1, lsb(rest));
            assert(chess_moves@ =~= prev + pawn_moves_to(to_index as int, delta as int, white, promote));
            assert(chess_moves@ + pawn_list(targets, delta as int, white, promote, to_index + 1) =~= prev
                + pawn_list(targets, delta as int, white, promote, to_index as int));
            lemma_lsb(rest);
            if rest != 0 {
                assert(mem(rest, lsb(rest)));
            }
            assert forall|m: ChessMove| #[trigger]
                chess_moves@.contains(m) <==> (before.contains(m) || (pawn_shape(m, promote) && mem(
                    targets,
                    m.dst(),
                ) && m.src() == pawn_origin(m.dst(), delta as int, white) && !mem(rest, m.dst()))) by {
                m.lemma_fields();
                assert(prev.contains(m) <==> (before.contains(m) || (pawn_shape(m, promote) && mem(
                    targets,
                    m.dst(),
                ) && m.src() == pawn_origin(m.dst(), delta as int, white) && !mem(prev_rest, m.dst()))));
                assert(chess_moves@.contains(m) <==> (prev.contains(m) || (pawn_shape(m, promote)
                    && m.src() == from_index && m.dst() == to_index)));
            }
        }
    }
    proof {
        lemma_empty(rest);
        lemma_lsb(rest);
        assert(chess_moves@ + pawn_list(targets, delta as int, white, promote, 64) =~= chess_moves@);
        assert forall|m: ChessMove| #[trigger]
            chess_moves@.contains(m) <==> (before.contains(m) || pawn_from(
                m,
                targets,
                delta as int,
                white,
                promote,
            )) by {
            m.lemma_fields();
        }
    }
}

/// Every member one rank ahead, as a pawn of the given colour steps.
pub open spec fn shift_ahead(b: u64, white: bool) -> u64 {
    if white {
        b << 8
    } else {
        b >> 8
    }
}

/// Every member one rank ahead and one file aside, as a pawn of the given
/// colour captures; `delta` is 7 or 9.
pub open spec fn shift_capture(b: u64, delta: int, white: bool) -> u64 {
    if white {
        if delta == 9 {
            (b & crate::bits::NOT_FILE_A) << 9
        } else {
            (b & crate::bits::NOT_FILE_H) << 7
        }
    } else {
        if delta == 9 {
            (b & crate::bits::NOT_FILE_H) >> 9
        } else {
            (b & crate::bits::NOT_FILE_A) >> 7
        }
    }
}

/// Every member one rank ahead, as a pawn of the given colour steps.
fn pawn_push(b: u64, white: bool) -> (r: u64)
    ensures
        r == shift_ahead(b, white),
        forall|i: int|
            0 <= i < 64 ==> #[trigger] mem(r, i) == (0 <= pawn_origin(i, 8, white) < 64 && mem(
                b,
                pawn_origin(i, 8, white),
            )),
{
    if white {
        crate::bits::north(b)
    } else {
        crate::bits::south(b)
    }
}

/// Every member one rank ahead and one file aside, as a pawn of the given
/// colour captures; `delta` is 7 or 9.
fn pawn_captures(b: u64, delta: usize, white: bool) -> (r: u64)
    requires
        delta == 7 || delta == 9,
    ensures
        r == shift_capture(b, delta as int, white),
        forall|i: int|
            0 <= i < 64 ==> #[trigger] mem(r, i) == (0 <= pawn_origin(i, delta as int, white) < 64 && mem(
                b,
                pawn_origin(i, delta as int, white),
            ) && pawn_attack(
                if white {
                    0
                } else {
                    1
                },
                pawn_origin(i, delta as int, white),
                i,
            )),
{
    if white {
        if delta == 9 {
            north_west(b)
        } else {
            north_east(b)
        }
    } else {
        if delta == 9 {
            south_east(b)
        } else {
            south_west(b)
        }
    }
}

impl<'a> Board<'a> {
    fn piece_moves(&self, kind: usize, color: usize, chess_moves: &mut Vec<ChessMove>)
        requires
            self.wf(),
            color == self@.side(),
            kind == 4 || kind == 6 || kind == 8 || kind == 10 || kind == 12,
        ensures
            forall|m: ChessMove|
                #[trigger] final(chess_moves)@.contains(m) <==> (old(chess_moves)@.contains(m)
                    || self@.piece_move(m, kind as int, self@.reach(kind as int, m.src()))),
            distinct(old(chess_moves)@) && (forall|m: ChessMove|
                #[trigger] old(chess_moves)@.contains(m) ==> !self@.piece_move(
                    m,
                    kind as int,
                    self@.reach(kind as int, m.src()),
                )) ==> distinct(final(chess_moves)@),
            final(chess_moves)@ == old(chess_moves)@ + self@.piece_list(kind as int, 0),
    {
        let ghost before = chess_moves@;
        let ghost p = self@;
        let ghost fresh = distinct(before) && (forall|m: ChessMove| #[trigger]
            before.contains(m) ==> !p.piece_move(m, kind as int, p.reach(kind as int, m.src())));
        let other = 1 - color;
        let tables = &self.tables.attacks;
        let target_squares = !self.bitboards[color] & !self.bitboards[12 + other];
        let blockers = self.bitboards[0] ^ self.bitboards[1];
        let mut pieces = self.bitboards[color + kind];
        proof {
            lemma_blockers(p.bb);
            lemma_lsb(pieces);
            lemma_rest_first(pieces);
            p.lemma_piece_skip(kind as int, 0, lsb(pieces));
            assert forall|t: int| 0 <= t < 64 implies #[trigger] mem(target_squares, t) == p.may_land(t) by {
                lemma_mem_ops(!p.bb[color as int], !p.bb[12 + other], t);
                lemma_mem_ops(p.bb[color as int], 0, t);
                lemma_mem_ops(p.bb[12 + other], 0, t);
            }
        }
        while pieces != 0
            invariant
                self.wf(),
                p == self@,
                color == p.side(),
                other == 1 - color,
                kind == 4 || kind == 6 || kind == 8 || kind == 10 || kind == 12,
                tables == &self.tables.attacks,
                blockers == p.occupied(),
                target_squares == p.landing(),
                0 <= lsb(pieces) <= 64,
                rest_of(pieces, p.bb[color + kind]),
                chess_moves@ + p.piece_list(kind as int, lsb(pieces)) == before + p.piece_list(
                    kind as int,
                    0,
                ),
                fresh == (distinct(before) && (forall|m: ChessMove| #[trigger]
                    before.contains(m) ==> !p.piece_move(m, kind as int, p.reach(kind as int, m.src())))),
                fresh ==> distinct(chess_moves@),
                forall|t: int| 0 <= t < 64 ==> #[trigger] mem(target_squares, t) == p.may_land(t),
                forall|i: int| mem(pieces, i) ==> mem(p.bb[color + kind], i),
                forall|m: ChessMove|
                    #[trigger] chess_moves@.contains(m) <==> (before.contains(m) || (p.piece_move(
                        m,
                        kind as int,
                        p.reach(kind as int, m.src()),
                    ) && !mem(pieces, m.src()))),
            decreases 64 - lsb(pieces),
        {
            let ghost prev = chess_moves@;
            let ghost prev_pieces = pieces;
            let from_index = crate::bits::pop_lsb(&mut pieces);
            let reach = if kind == 4 {
                tables.knight(from_index)
            } else if kind == 6 {
                tables.bishop(from_index, blockers)
            } else if kind == 8 {
                tables.rook(from_index, blockers)
            } else if kind == 10 {
                tables.queen(from_index, blockers)
            } else {
                tables.king(from_index)
            };
            let moves = reach & target_squares;
            proof {
                assert(mem(p.bb[color + kind], from_index as int));
                assert(p.piece_at(from_index as int) == kind + color);
                if fresh {
                    assert forall|m: ChessMove| #[trigger] prev.contains(m) implies !plain_from(
                        m,
                        from_index as int,
                        moves,
                    ) by {
                        m.lemma_fields();
                        lemma_mem_ops(reach, target_squares, m.dst());
                        if plain_from(m, from_index as int, moves) {
                            assert(p.piece_move(m, kind as int, p.reach(kind as int, m.src())));
                        }
                    }
                }
            }
            add_moves_from(from_index, moves, chess_moves);
            proof {
                lemma_rest_next(prev_pieces, pieces, p.bb[color + kind]);
                p.lemma_piece_skip(kind as int, from_index + 1, lsb(pieces));
                assert(reach == p.reach(kind as int, from_index as int));
                assert(chess_moves@ + p.piece_list(kind as int, from_index + 1) =~= prev + p.piece_list(
                    kind as int,
                    from_index as int,
                ));
                lemma_lsb(pieces);
                if pieces != 0 {
                    assert(mem(pieces, lsb(pieces)));
                }
                assert forall|m: ChessMove| #[trigger]
                    chess_moves@.contains(m) <==> (before.contains(m) || (p.piece_move(
                        m,
                        kind as int,
                        p.reach(kind as int, m.src()),
                    ) && !mem(pieces, m.src()))) by {
                    m.lemma_fields();
                    lemma_mem_ops(reach, target_squares, m.dst());
                    assert(prev.contains(m) <==> (before.contains(m) || (p.piece_move(
                        m,
                        kind as int,
                        p.reach(kind as int, m.src()),
                    ) && !mem(prev_pieces, m.src()))));
                    if m.src() != from_index {
                        assert(mem(pieces, m.src()) == mem(prev_pieces, m.src()));
                    }
                }
            }
        }
        proof {
            lemma_empty(pieces);
            lemma_lsb(pieces);
            assert(chess_moves@ + p.piece_list(kind as int, 64) =~= chess_moves@);
            assert forall|m: ChessMove| #[trigger]
                chess_moves@.contains(m) <==> (before.contains(m) || p.piece_move(
                    m,
                    kind as int,
                    p.reach(kind as int, m.src()),
                )) by {
                m.lemma_fields();
            }
        }
    }

    /// Adds the knights' moves. `color` is the side to move.
    pub fn knight_moves(&self, color: usize, chess_moves: &mut Vec<ChessMove>)
        requires
            self.wf(),
            color == self@.side(),
        ensures
            forall|m: ChessMove|
                #[trigger] final(chess_moves)@.contains(m) <==> (old(chess_moves)@.contains(m)
                    || self@.knight_move(m)),
            distinct(old(chess_moves)@) && (forall|m: ChessMove|
                #[trigger] old(chess_moves)@.contains(m) ==> !self@.knight_move(m)) ==> distinct(
                final(chess_moves)@,
            ),
            final(chess_moves)@ == old(chess_moves)@ + self@.piece_list(4, 0),
    {
        self.piece_moves(4, color, chess_moves);
    }

    /// Adds the bishops' moves. `color` is the side to move.
    pub fn bishop_moves(&self, color: usize, chess_moves: &mut Vec<ChessMove>)
        requires
            self.wf(),
            color == self@.side(),
        ensures
            forall|m: ChessMove|
                #[trigger] final(chess_moves)@.contains(m) <==> (old(chess_moves)@.contains(m)
                    || self@.bishop_move(m)),
            distinct(old(chess_moves)@) && (forall|m: ChessMove|
                #[trigger] old(chess_moves)@.contains(m) ==> !self@.bishop_move(m)) ==> distinct(
                final(chess_moves)@,
            ),
            final(chess_moves)@ == old(chess_moves)@ + self@.piece_list(6, 0),
    {
        self.piece_moves(6, color, chess_moves);
    }

    /// Adds the rooks' moves. `color` is the side to move.
    pub fn rook_moves(&self, color: usize, chess_moves: &mut Vec<ChessMove>)
        requires
            self.wf(),
            color == self@.side(),
        ensures
            forall|m: ChessMove|
                #[trigger] final(chess_moves)@.contains(m) <==> (old(chess_moves)@.contains(m)
                    || self@.rook_move(m)),
            distinct(old(chess_moves)@) && (forall|m: ChessMove|
                #[trigger] old(chess_moves)@.contains(m) ==> !self@.rook_move(m)) ==> distinct(
                final(chess_moves)@,
            ),
            final(chess_moves)@ == old(chess_moves)@ + self@.piece_list(8, 0),
    {
        self.piece_moves(8, color, chess_moves);
    }

    /// Adds the queens' moves. `color` is the side to move.
    pub fn queen_moves(&self, color: usize, chess_moves: &mut Vec<ChessMove>)
        requires
            self.wf(),
            color == self@.side(),
        ensures
            forall|m: ChessMove|
                #[trigger] final(chess_moves)@.contains(m) <==> (old(chess_moves)@.contains(m)
                    || self@.queen_move(m)),
            distinct(old(chess_moves)@) && (forall|m: ChessMove|
                #[trigger] old(chess_moves)@.contains(m) ==> !self@.queen_move(m)) ==> distinct(
                final(chess_moves)@,
            ),
            final(chess_moves)@ == old(chess_moves)@ + self@.piece_list(10, 0),
    {
        self.piece_moves(10, color, chess_moves);
    }

    /// Adds the king's moves, castling aside. `color` is the side to move.
    pub fn king_moves(&self, color: usize, chess_moves: &mut Vec<ChessMove>)
        requires
            self.wf(),
            color == self@.side(),
        ensures
            forall|m: ChessMove|
                #[trigger] final(chess_moves)@.contains(m) <==> (old(chess_moves)@.contains(m)
                    || self@.king_move(m)),
            distinct(old(chess_moves)@) && (forall|m: ChessMove|
                #[trigger] old(chess_moves)@.contains(m) ==> !self@.king_move(m)) ==> distinct(
                final(chess_moves)@,
            ),
            final(chess_moves)@ == old(chess_moves)@ + self@.piece_list(12, 0),
    {
        self.piece_moves(12, color, chess_moves);
    }

    /// Adds the castling moves. `color` is the side to move.
    pub fn castling_moves(&self, color: usize, chess_moves: &mut Vec<ChessMove>)
        requires
            self.wf(),
            color == self@.side(),
        ensures
            forall|m: ChessMove|
                #[trigger] final(chess_moves)@.contains(m) <==> (old(chess_moves)@.contains(m)
                    || self@.castling_move(m)),
            distinct(old(chess_moves)@) && (forall|m: ChessMove|
                #[trigger] old(chess_moves)@.contains(m) ==> !self@.castling_move(m)) ==> distinct(
                final(chess_moves)@,
            ),
            final(chess_moves)@ == old(chess_moves)@ + self@.castling_list(),
    {
        let ghost before = chess_moves@;
        let ghost p = self@;
        let king_square: usize = if color == 0 {
            3
        } else {
            59
        };
        let king_side = if color == 0 {
            self.meta.white_king_castle
        } else {
            self.meta.black_king_castle
        };
        let queen_side = if color == 0 {
            self.meta.white_queen_castle
        } else {
            self.meta.black_queen_castle
        };
        // the squares between king and rook, from the rook on file H inwards
        let king_path: u64 = if color == 0 {
            0x0000000000000006
        } else {
            0x0600000000000000
        };
        let queen_path: u64 = if color == 0 {
            0x0000000000000070
        } else {
            0x7000000000000000
        };
        proof {
            lemma_paths();
            assert(mem(king_path, king_square - 1) && mem(king_path, king_square - 2));
            assert(mem(queen_path, king_square + 1) && mem(queen_path, king_square + 2) && mem(
                queen_path,
                king_square + 3,
            ));
        }
        let mut short: bool = false;
        let mut long: bool = false;
        if king_side || queen_side {
            if self.square_is_safe(king_square, color) {
                short = king_side && self.squares_are_empty(king_path) && self.square_is_safe(
                    king_square - 1,
                    color,
                ) && self.square_is_safe(king_square - 2, color);
                long = queen_side && self.squares_are_empty(queen_path) && self.square_is_safe(
                    king_square + 1,
                    color,
                ) && self.square_is_safe(king_square + 2, color);
            }
        }
        let short_move = ChessMove::new(king_square, king_square - 2, 0, CASTLING_MOVE);
        let long_move = ChessMove::new(king_square, king_square + 2, 0, CASTLING_MOVE);
        if short {
            chess_moves.push(short_move);
        }
        let ghost mid = chess_moves@;
        if long {
            chess_moves.push(long_move);
        }
        proof {
            assert(short == p.castling_move(short_move));
            assert(long == p.castling_move(long_move));
            assert(chess_moves@ =~= before + p.castling_list());
            if distinct(before) && (forall|m: ChessMove| #[trigger]
                before.contains(m) ==> !p.castling_move(m)) {
                if short {
                    assert(p.castling_move(short_move));
                    lemma_push_fresh(before, short_move);
                }
                if long {
                    assert(p.castling_move(long_move));
                    vstd::seq_lib::lemma_seq_contains_after_push(before, short_move, long_move);
                    lemma_push_fresh(mid, long_move);
                }
            }
            assert forall|m: ChessMove| #[trigger]
                chess_moves@.contains(m) <==> (before.contains(m) || p.castling_move(m)) by {
                m.lemma_fields();
                vstd::seq_lib::lemma_seq_contains_after_push(before, short_move, m);
                vstd::seq_lib::lemma_seq_contains_after_push(mid, long_move, m);
                if m.kind() == CASTLING_MOVE && m.promo() == 0 && m.src() == king_square {
                    if m.dst() == king_square - 2 {
                        m.lemma_same_fields(short_move);
                    }
                    if m.dst() == king_square + 2 {
                        m.lemma_same_fields(long_move);
                    }
                }
            }
        }
    }

    /// Adds the pawns' moves. `color` is the side to move.
    #[verifier::rlimit(60)]
    pub fn pawn_moves(&self, color: usize, chess_moves: &mut Vec<ChessMove>)
        requires
            self.wf(),
            color == self@.side(),
        ensures
            forall|m: ChessMove|
                #[trigger] final(chess_moves)@.contains(m) <==> (old(chess_moves)@.contains(m)
                    || self@.pawn_move(m)),
            distinct(old(chess_moves)@) && (forall|m: ChessMove|
                #[trigger] old(chess_moves)@.contains(m) ==> !self@.pawn_move(m)) ==> distinct(
                final(chess_moves)@,
            ),
            final(chess_moves)@ == old(chess_moves)@ + self@.pawn_moves_list(),
    {
        let ghost before = chess_moves@;
        let ghost p = self@;
        let white = color == 0;
        let other = 1 - color;
        let empty = !(self.bitboards[0] ^ self.bitboards[1]);
        let enemies = self.bitboards[other] & !self.bitboards[12 + other];
        let pawns = self.bitboards[2 + color];
        let seventh = if white {
            crate::bits::RANK_7
        } else {
            crate::bits::RANK_2
        };
        let third = if white {
            crate::bits::RANK_3
        } else {
            crate::bits::RANK_6
        };
        let ghost seventh_rank = if white {
            6int
        } else {
            1int
        };
        let ghost first_rank = if white {
            1int
        } else {
            6int
        };
        let ghost ahead = if white {
            8int
        } else {
            -8int
        };
        let movers = pawns & !seventh;
        let promoters = pawns & seventh;
        let single_steps = pawn_push(movers, white);
        let single = single_steps & empty;
        let double_steps = pawn_push(single & third, white);
        let double = double_steps & empty;
        let reach_9 = pawn_captures(movers, 9, white);
        let reach_7 = pawn_captures(movers, 7, white);
        let captures_9 = reach_9 & enemies;
        let captures_7 = reach_7 & enemies;
        let promotion_steps = pawn_push(promoters, white);
        let promotion_reach_9 = pawn_captures(promoters, 9, white);
        let promotion_reach_7 = pawn_captures(promoters, 7, white);
        let promotions = promotion_steps & empty;
        let promotions_9 = promotion_reach_9 & enemies;
        let promotions_7 = promotion_reach_7 & enemies;
        proof {
            lemma_blockers(p.bb);
            assert forall|i: int| 0 <= i < 64 implies #[trigger] mem(empty, i) == (p.piece_at(i) == 14) by {
                lemma_mem_ops(p.bb[0] ^ p.bb[1], 0, i);
            }
            assert forall|i: int| 0 <= i < 64 implies #[trigger] mem(enemies, i) == p.may_take(i) by {
                lemma_mem_ops(p.bb[other as int], !p.bb[12 + other], i);
                lemma_mem_ops(p.bb[12 + other], 0, i);
            }
            assert forall|i: int| 0 <= i < 64 implies #[trigger] mem(movers, i) == (p.piece_at(i) == 2
                + color && rank_of(i) != seventh_rank) by {
                lemma_mem_ops(pawns, !seventh, i);
                lemma_mem_ops(seventh, 0, i);
                crate::bits::lemma_mem_lines(i);
            }
            assert forall|i: int| 0 <= i < 64 implies #[trigger] mem(promoters, i) == (p.piece_at(i) == 2
                + color && rank_of(i) == seventh_rank) by {
                lemma_mem_ops(pawns, seventh, i);
                crate::bits::lemma_mem_lines(i);
            }
            assert forall|i: int| 0 <= i < 64 implies #[trigger] mem(single, i) == (mem(single_steps, i)
                && p.piece_at(i) == 14) by {
                lemma_mem_ops(single_steps, empty, i);
            }
            assert forall|i: int| 0 <= i < 64 implies #[trigger] mem(single & third, i) == (mem(single, i)
                && rank_of(i) == first_rank + (if white {
                1int
            } else {
                -1int
            })) by {
                lemma_mem_ops(single, third, i);
                crate::bits::lemma_mem_lines(i);
            }
            assert forall|i: int| 0 <= i < 64 implies #[trigger] mem(double, i) == (mem(double_steps, i)
                && p.piece_at(i) == 14) by {
                lemma_mem_ops(double_steps, empty, i);
            }
            assert forall|i: int| 0 <= i < 64 implies #[trigger] mem(captures_9, i) == (mem(reach_9, i)
                && p.may_take(i)) by {
                lemma_mem_ops(reach_9, enemies, i);
            }
            assert forall|i: int| 0 <= i < 64 implies #[trigger] mem(captures_7, i) == (mem(reach_7, i)
                && p.may_take(i)) by {
                lemma_mem_ops(reach_7, enemies, i);
            }
            assert forall|i: int| 0 <= i < 64 implies #[trigger] mem(promotions, i) == (mem(
                promotion_steps,
                i,
            ) && p.piece_at(i) == 14) by {
                lemma_mem_ops(promotion_steps, empty, i);
            }
            assert forall|i: int| 0 <= i < 64 implies #[trigger] mem(promotions_9, i) == (mem(
                promotion_reach_9,
                i,
            ) && p.may_take(i)) by {
                lemma_mem_ops(promotion_reach_9, enemies, i);
            }
            assert forall|i: int| 0 <= i < 64 implies #[trigger] mem(promotions_7, i) == (mem(
                promotion_reach_7,
                i,
            ) && p.may_take(i)) by {
                lemma_mem_ops(promotion_reach_7, enemies, i);
            }
        }
        let ep = self.meta.en_passant_bitboard;
        let mut ep_pawns: u64 = 0;
        let mut ep_square: usize = 0;
        if ep != 0 {
            let back_9 = pawn_captures(ep, 9, !white);
            let back_7 = pawn_captures(ep, 7, !white);
            ep_pawns = (back_9 | back_7) & pawns;
            ep_square = get_lsb(ep);
            proof {
                lemma_single_members(ep);
                assert forall|i: int| 0 <= i < 64 implies #[trigger] mem(ep_pawns, i) == (p.piece_at(i)
                    == 2 + color && pawn_attack(color as int, i, ep_square as int)) by {
                    lemma_mem_ops(back_9 | back_7, pawns, i);
                    lemma_mem_ops(back_9, back_7, i);
                }
            }
            add_moves_to(ep_pawns, ep_square, EN_PASSANT_MOVE, chess_moves);
        }
        let ghost fresh = distinct(before) && (forall|m: ChessMove| #[trigger]
            before.contains(m) ==> !p.pawn_move(m));
        let ghost l0 = chess_moves@;
        proof {
            // what each list holds, and that each step adds moves of the pawns only
            assert forall|m: ChessMove| (ep != 0 && kind_to(m, ep_pawns, ep_square as int, EN_PASSANT_MOVE))
                || pawn_from(m, single, 8, white, false) || pawn_from(m, double, 16, white, false)
                || pawn_from(m, captures_9, 9, white, false) || pawn_from(m, captures_7, 7, white, false)
                || pawn_from(m, promotions, 8, white, true) || pawn_from(m, promotions_9, 9, white, true)
                || pawn_from(m, promotions_7, 7, white, true) implies p.pawn_move(m) by {
                m.lemma_fields();
                let f = m.src();
                let t = m.dst();
                if f == pawn_origin(t, 16, white) {
                    let between = pawn_origin(t, 8, white);
                    assert(mem(double_steps, t) == (0 <= between < 64 && mem(single & third, between)));
                }
            }
            assert(fresh ==> distinct(l0));
        }
        add_pawn_moves(single, 8, white, false, chess_moves);
        let ghost l1 = chess_moves@;
        add_pawn_moves(double, 16, white, false, chess_moves);
        let ghost l2 = chess_moves@;
        add_pawn_moves(captures_9, 9, white, false, chess_moves);
        let ghost l3 = chess_moves@;
        add_pawn_moves(captures_7, 7, white, false, chess_moves);
        let ghost l4 = chess_moves@;
        add_pawn_moves(promotions, 8, white, true, chess_moves);
        let ghost l5 = chess_moves@;
        add_pawn_moves(promotions_9, 9, white, true, chess_moves);
        let ghost l6 = chess_moves@;
        add_pawn_moves(promotions_7, 7, white, true, chess_moves);
        proof {
            assert forall|m: ChessMove| #[trigger]
                chess_moves@.contains(m) <==> (before.contains(m) || p.pawn_move(m)) by {
                m.lemma_fields();
                let f = m.src();
                let t = m.dst();
                assert(l0.contains(m) <==> (before.contains(m) || (ep != 0 && m.kind() == EN_PASSANT_MOVE
                    && m.promo() == 0 && t == ep_square && mem(ep_pawns, f))));
                assert(l1.contains(m) <==> (l0.contains(m) || (pawn_shape(m, false) && mem(single, t) && f
                    == pawn_origin(t, 8, white))));
                assert(l2.contains(m) <==> (l1.contains(m) || (pawn_shape(m, false) && mem(double, t) && f
                    == pawn_origin(t, 16, white))));
                assert(l3.contains(m) <==> (l2.contains(m) || (pawn_shape(m, false) && mem(captures_9, t)
                    && f == pawn_origin(t, 9, white))));
                assert(l4.contains(m) <==> (l3.contains(m) || (pawn_shape(m, false) && mem(captures_7, t)
                    && f == pawn_origin(t, 7, white))));
                assert(l5.contains(m) <==> (l4.contains(m) || (pawn_shape(m, true) && mem(promotions, t)
                    && f == pawn_origin(t, 8, white))));
                assert(l6.contains(m) <==> (l5.contains(m) || (pawn_shape(m, true) && mem(promotions_9, t)
                    && f == pawn_origin(t, 9, white))));
                assert(chess_moves@.contains(m) <==> (l6.contains(m) || (pawn_shape(m, true) && mem(
                    promotions_7,
                    t,
                ) && f == pawn_origin(t, 7, white))));
                if pawn_attack(color as int, f, t) {
                    assert(f == pawn_origin(t, 9, white) || f == pawn_origin(t, 7, white));
                }
                if f == pawn_origin(t, 16, white) {
                    let between = pawn_origin(t, 8, white);
                    assert(mem(double_steps, t) == (0 <= between < 64 && mem(single & third, between)));
                }
            }
            if fresh {
                assert(distinct(l1));
                assert(distinct(l2));
                assert(distinct(l3));
                assert(distinct(l4));
                assert(distinct(l5));
                assert(distinct(l6));
            }
            assert(chess_moves@ == before + p.pawn_moves_list()) by {
                lemma_join_eight(
                    before,
                    l0.skip(before.len() as int),
                    pawn_list(single, 8, white, false, 0),
                    pawn_list(double, 16, white, false, 0),
                    pawn_list(captures_9, 9, white, false, 0),
                    pawn_list(captures_7, 7, white, false, 0),
                    pawn_list(promotions, 8, white, true, 0),
                    pawn_list(promotions_9, 9, white, true, 0),
                    pawn_list(promotions_7, 7, white, true, 0),
                );
                assert(l0 =~= before + l0.skip(before.len() as int));
            }
        }
    }
}

/// Joining lists one after the other, or all at once.
proof fn lemma_join_eight(
    a: Seq<ChessMove>,
    b: Seq<ChessMove>,
    c: Seq<ChessMove>,
    d: Seq<ChessMove>,
    e: Seq<ChessMove>,
    f: Seq<ChessMove>,
    g: Seq<ChessMove>,
    h: Seq<ChessMove>,
    i: Seq<ChessMove>,
)
    ensures
        a + b + c + d + e + f + g + h + i == a + (b + c + d + e + f + g + h + i),
{
    assert(a + b + c + d + e + f + g + h + i =~= a + (b + c + d + e + f + g + h + i));
}

proof fn lemma_paths()
    ensures
        forall|i: int| 0 <= i < 64 ==> #[trigger] mem(0x0000000000000006u64, i) == (i == 1 || i == 2),
        forall|i: int|
            0 <= i < 64 ==> #[trigger] mem(0x0000000000000070u64, i) == (i == 4 || i == 5 || i == 6),
        forall|i: int| 0 <= i < 64 ==> #[trigger] mem(0x0600000000000000u64, i) == (i == 57 || i == 58),
        forall|i: int|
            0 <= i < 64 ==> #[trigger] mem(0x7000000000000000u64, i) == (i == 60 || i == 61 || i == 62),
{
    assert forall|i: int| 0 <= i < 64 implies #[trigger] mem(0x0000000000000006u64, i) == (i == 1 || i
        == 2) by {
        bv_paths(i as u64);
    }
    assert forall|i: int| 0 <= i < 64 implies #[trigger] mem(0x0000000000000070u64, i) == (i == 4 || i
        == 5 || i == 6) by {
        bv_paths(i as u64);
    }
    assert forall|i: int| 0 <= i < 64 implies #[trigger] mem(0x0600000000000000u64, i) == (i == 57 || i
        == 58) by {
        bv_paths(i as u64);
    }
    assert forall|i: int| 0 <= i < 64 implies #[trigger] mem(0x7000000000000000u64, i) == (i == 60 || i
        == 61 || i == 62) by {
        bv_paths(i as u64);
    }
}

proof fn bv_paths(i: u64)
    by (bit_vector)
    requires
        i < 64,
    ensures
        crate::bits::bit(0x0000000000000006u64, i) == (i == 1 || i == 2),
        crate::bits::bit(0x0000000000000070u64, i) == (i == 4 || i == 5 || i == 6),
        crate::bits::bit(0x0600000000000000u64, i) == (i == 57 || i == 58),
        crate::bits::bit(0x7000000000000000u64, i) == (i == 60 || i == 61 || i == 62),
{
}

/// The list is in descending order of gain.
pub open spec fn sorted_by_gain(p: Position, s: Seq<ChessMove>) -> bool {
    forall|i: int, j: int| 0 <= i < j < s.len() ==> p.gain(#[trigger] s[i]) >= p.gain(#[trigger] s[j])
}

fn value_of(piece: usize) -> (v: i32)
    ensures
        v == piece_value(piece as int),
{
    if piece == 2 || piece == 3 {
        100
    } else if piece == 4 || piece == 5 || piece == 6 || piece == 7 {
        350
    } else if piece == 8 || piece == 9 {
        525
    } else if piece == 10 || piece == 11 {
        1000
    } else {
        0
    }
}

impl ChessMove {
    /// Needs a board before the move was made
    pub fn is_capture(&self, board: &Board) -> (r: bool)
        requires
            board.wf(),
        ensures
            r == (self.kind() == EN_PASSANT_MOVE || is_side(
                board@.piece_at(self.dst()),
                1 - board@.side(),
            )),
    {
        if self.move_type() == EN_PASSANT_MOVE {
            return true;
        }
        let other_color = 1 - board.side_to_move();
        let other_piece = board.piece_on_with_color(self.to(), other_color);
        other_piece != 14
    }

    /// What the move gains at first sight: the value of what it takes less
    /// the value of what takes, the value of a promoted piece, or a small
    /// bonus for castling and for a capture en passant.
    pub fn evaluate_relative(&self, board: &Board) -> (g: i32)
        requires
            board.wf(),
        ensures
            g == board@.gain(*self),
            -1000 <= g <= 2000,
    {
        let color = board.side_to_move();
        let kind = self.move_type();
        if kind == NORMAL_MOVE {
            let from_piece = board.piece_on_with_color(self.from(), color);
            let to_piece = board.piece_on_with_color(self.to(), 1 - color);
            if to_piece == 14 {
                0
            } else {
                value_of(to_piece) - value_of(from_piece)
            }
        } else if kind == PROMOTION_MOVE {
            let to_piece = board.piece_on_with_color(self.to(), 1 - color);
            let promotion = self.promotion();
            let selected_piece: usize = if promotion == crate::chess_move::KNIGHT_PROMOTION {
                4
            } else if promotion == crate::chess_move::BISHOP_PROMOTION {
                6
            } else if promotion == crate::chess_move::ROOK_PROMOTION {
                8
            } else {
                10
            };
            value_of(to_piece) + value_of(selected_piece + color)
        } else if kind == EN_PASSANT_MOVE {
            10
        } else {
            20
        }
    }
}

impl<'a> Board<'a> {
    /// The current key has occurred at least twice among the earlier ones.
    pub fn is_repetition(&self) -> (r: bool)
        ensures
            r == self@.repeated(),
    {
        let mut count: usize = 0;
        let mut i: usize = 0;
        let n = self.previous_hashes.len();
        while i < n
            invariant
                i <= n,
                n == self.previous_hashes@.len(),
                count <= i,
                count == crate::position::count_key(self.previous_hashes@.take(i as int), self.meta.hash),
            decreases n - i,
        {
            proof {
                assert(self.previous_hashes@.take(i + 1).drop_last() =~= self.previous_hashes@.take(
                    i as int,
                ));
            }
            if self.previous_hashes[i] == self.meta.hash {
                count += 1;
            }
            i += 1;
        }
        proof {
            assert(self.previous_hashes@.take(n as int) =~= self.previous_hashes@);
        }
        count >= 2
    }

    /// Sorts the list in descending order of gain.
    fn sort_by_gain(&self, chess_moves: &mut Vec<ChessMove>)
        requires
            self.wf(),
        ensures
            final(chess_moves)@.to_multiset() == old(chess_moves)@.to_multiset(),
            sorted_by_gain(self@, final(chess_moves)@),
            distinct(old(chess_moves)@) ==> distinct(final(chess_moves)@),
            final(chess_moves)@ == self@.in_order(old(chess_moves)@),
    {
        let ghost p = self@;
        let ghost before = chess_moves@;
        proof {
            if distinct(before) {
                before.lemma_multiset_has_no_duplicates();
            }
        }
        let n = chess_moves.len();
        let mut gains: Vec<i32> = Vec::with_capacity(n);
        let mut k: usize = 0;
        while k < n
            invariant
                self.wf(),
                p == self@,
                k <= n,
                n == chess_moves@.len(),
                chess_moves@ == before,
                gains@.len() == k,
                forall|a: int| 0 <= a < k ==> #[trigger] gains@[a] == p.gain(chess_moves@[a]),
            decreases n - k,
        {
            let g = chess_moves[k].evaluate_relative(self);
            gains.push(g);
            k += 1;
        }
        if n == 0 {
            assert(before =~= Seq::<ChessMove>::empty());
            return;
        }
        proof {
            let first = before.take(1);
            assert(first.drop_last() =~= Seq::<ChessMove>::empty());
            assert(first.last() == before[0]);
            assert(p.in_order(first.drop_last()) =~= Seq::<ChessMove>::empty());
            assert(p.inserted(Seq::<ChessMove>::empty(), before[0]) =~= seq![before[0]]);
            assert(p.in_order(first) == p.inserted(p.in_order(first.drop_last()), first.last()));
            assert(p.in_order(before.take(1)) =~= seq![before[0]]);
            assert(chess_moves@.take(1) =~= seq![before[0]]);
        }
        let mut i: usize = 1;
        while i < n
            invariant
                1 <= i <= n,
                n == chess_moves@.len(),
                n == before.len(),
                gains@.len() == n,
                chess_moves@.take(i as int) == p.in_order(before.take(i as int)),
                chess_moves@.skip(i as int) == before.skip(i as int),
                chess_moves@.to_multiset() == before.to_multiset(),
                forall|a: int| 0 <= a < n ==> #[trigger] gains@[a] == p.gain(chess_moves@[a]),
                forall|a: int, b: int| 0 <= a < b < i ==> #[trigger] gains@[a] >= #[trigger] gains@[b],
            decreases n - i,
        {
            let mut j: usize = i;
            let ghost sorted = p.in_order(before.take(i as int));
            let ghost moved = before[i as int];
            proof {
                assert(chess_moves@[i as int] == chess_moves@.skip(i as int)[0]);
                assert(chess_moves@ =~= sorted.take(i as int) + seq![moved] + sorted.skip(i as int)
                    + before.skip(i + 1)) by {
                    assert(chess_moves@ =~= chess_moves@.take(i as int) + chess_moves@.skip(i as int));
                    assert(before.skip(i as int) =~= seq![moved] + before.skip(i + 1));
                }
            }
            while j > 0 && gains[j - 1] < gains[j]
                invariant
                    j <= i < n,
                    n == chess_moves@.len(),
                    n == before.len(),
                    gains@.len() == n,
                    sorted.len() == i,
                    moved == before[i as int],
                    chess_moves@ == sorted.take(j as int) + seq![moved] + sorted.skip(j as int)
                        + before.skip(i + 1),
                    forall|k: int| j <= k < i ==> p.gain(#[trigger] sorted[k]) < p.gain(moved),
                    chess_moves@.to_multiset() == before.to_multiset(),
                    forall|a: int| 0 <= a < n ==> #[trigger] gains@[a] == p.gain(chess_moves@[a]),
                    forall|a: int, b: int|
                        0 <= a < b <= i && a != j && b != j ==> #[trigger] gains@[a] >= #[trigger] gains@[b],
                    forall|b: int| j < b <= i ==> gains@[j as int] > #[trigger] gains@[b],
                decreases j,
            {
                let ghost prev = chess_moves@;
                let upper = chess_moves[j];
                let lower = chess_moves[j - 1];
                let upper_gain = gains[j];
                let lower_gain = gains[j - 1];
                chess_moves[j] = lower;
                chess_moves[j - 1] = upper;
                gains[j] = lower_gain;
                gains[j - 1] = upper_gain;
                proof {
                    broadcast use vstd::multiset::group_multiset_axioms;

                    let mid = prev.update(j as int, lower);
                    vstd::seq_lib::to_multiset_update(prev, j as int, lower);
                    vstd::seq_lib::to_multiset_update(mid, j - 1, upper);
                    assert(prev.contains(upper)) by {
                        assert(prev[j as int] == upper);
                    }
                    assert(prev.contains(lower)) by {
                        assert(prev[j - 1] == lower);
                    }
                    vstd::seq_lib::to_multiset_contains(prev, upper);
                    vstd::seq_lib::to_multiset_contains(prev, lower);
                    assert(mid[j - 1] == lower);
                    assert(chess_moves@ == mid.update(j - 1, upper));
                    assert(chess_moves@.to_multiset() =~= prev.to_multiset());
                    assert(upper == moved);
                    assert(lower == sorted[j - 1]);
                    assert(chess_moves@ =~= sorted.take(j - 1) + seq![moved] + sorted.skip(j - 1)
                        + before.skip(i + 1));
                }
                j -= 1;
            }
            proof {
                assert(chess_moves@[j as int] == moved);
                if j > 0 {
                    assert(chess_moves@[j - 1] == sorted[j - 1]);
                }
                p.lemma_inserted(sorted, moved, j as int);
                assert(before.take(i + 1).drop_last() =~= before.take(i as int));
                assert(before.take(i + 1).last() == moved);
                assert(chess_moves@.take(i + 1) =~= sorted.take(j as int) + seq![moved] + sorted.skip(
                    j as int,
                ));
                assert(chess_moves@.skip(i + 1) =~= before.skip(i + 1));
            }
            i += 1;
        }
        proof {
            assert forall|a: int, b: int| 0 <= a < b < chess_moves@.len() implies p.gain(
                #[trigger] chess_moves@[a],
            ) >= p.gain(#[trigger] chess_moves@[b]) by {
                assert(gains@[a] >= gains@[b]);
            }
            if distinct(before) {
                chess_moves@.lemma_multiset_has_no_duplicates_conv();
            }
            assert(chess_moves@.take(n as int) =~= chess_moves@);
            assert(before.take(n as int) =~= before);
        }
    }

    /// The pseudo-legal moves of the side to move, in descending order of
    /// gain; none in a drawn position.
    pub fn pseudo_legal_moves(&self) -> (chess_moves: Vec<ChessMove>)
        requires
            self.wf(),
        ensures
            forall|m: ChessMove| #[trigger] chess_moves@.contains(m) <==> self@.pseudo_legal(m),
            distinct(chess_moves@),
            sorted_by_gain(self@, chess_moves@),
            self@.drawn() ==> chess_moves@.len() == 0,
            chess_moves@ == self@.move_list(),
            self@.lists_its_moves(),
    {
        let mut chess_moves: Vec<ChessMove> = Vec::with_capacity(50);
        if self.meta.halfmove_clock >= 100 || self.is_repetition() {
            assert(self@.move_list() =~= Seq::<ChessMove>::empty());
            return chess_moves;
        }
        let color: usize = self.side_to_move();

        self.queen_moves(color, &mut chess_moves);
        assert(distinct(chess_moves@));
        self.castling_moves(color, &mut chess_moves);
        assert(distinct(chess_moves@));
        self.knight_moves(color, &mut chess_moves);
        assert(distinct(chess_moves@));
        self.rook_moves(color, &mut chess_moves);
        assert(distinct(chess_moves@));
        self.bishop_moves(color, &mut chess_moves);
        assert(distinct(chess_moves@));
        self.pawn_moves(color, &mut chess_moves);
        assert(distinct(chess_moves@));
        self.king_moves(color, &mut chess_moves);
        assert(distinct(chess_moves@));

        let ghost unsorted = chess_moves@;
        assert(unsorted =~= self@.generated());
        self.sort_by_gain(&mut chess_moves);
        proof {
            assert forall|m: ChessMove| #[trigger] chess_moves@.contains(m) <==> self@.pseudo_legal(m) by {
                vstd::seq_lib::to_multiset_contains(chess_moves@, m);
                vstd::seq_lib::to_multiset_contains(unsorted, m);
            }
        }
        chess_moves
    }

    /// The legal moves of the side to move: the pseudo-legal ones that do
    /// not leave its king attacked, in descending order of gain.
    pub fn legal_moves(&self) -> (chess_moves: Vec<ChessMove>)
        requires
            self.wf(),
        ensures
            forall|m: ChessMove|
                #[trigger] chess_moves@.contains(m) <==> self@.legal(m, &self.tables.keys),
            distinct(chess_moves@),
            sorted_by_gain(self@, chess_moves@),
            chess_moves@ == self@.legal_list(&self.tables.keys),
            self@.lists_its_moves(),
    {
        let ghost p = self@;
        let color: usize = self.side_to_move();
        let pseudo = self.pseudo_legal_moves();
        let mut chess_moves: Vec<ChessMove> = Vec::new();
        let ghost mut picked: Seq<int> = Seq::empty();
        let mut i: usize = 0;
        while i < pseudo.len()
            invariant
                self.wf(),
                p == self@,
                color == p.side(),
                i <= pseudo@.len(),
                forall|m: ChessMove| #[trigger] pseudo@.contains(m) <==> p.pseudo_legal(m),
                sorted_by_gain(p, pseudo@),
                distinct(pseudo@),
                pseudo@ == p.move_list(),
                chess_moves@ == p.legal_among(pseudo@, i as int, &self.tables.keys),
                picked.len() == chess_moves@.len(),
                forall|a: int| 0 <= a < picked.len() ==> 0 <= #[trigger] picked[a] < i,
                forall|a: int| 0 <= a < picked.len() ==> chess_moves@[a] == pseudo@[#[trigger] picked[a]],
                forall|a: int, b: int| 0 <= a < b < picked.len() ==> #[trigger] picked[a] < #[trigger] picked[b],
                forall|a: int|
                    0 <= a < i ==> (p.legal(#[trigger] pseudo@[a], &self.tables.keys)
                        <==> chess_moves@.contains(pseudo@[a])),
                forall|m: ChessMove| #[trigger] chess_moves@.contains(m) ==> p.legal(m, &self.tables.keys),
            decreases pseudo@.len() - i,
        {
            let chess_move = pseudo[i];
            let ghost prev = chess_moves@;
            proof {
                assert(pseudo@.contains(chess_move));
                p.lemma_pseudo_legal_accepts(chess_move);
            }
            let mut new_board = self.clone();
            new_board.make_move(&chess_move);
            if !new_board.in_check(color) {
                chess_moves.push(chess_move);
                proof {
                    picked = picked.push(i as int);
                }
            }
            proof {
                assert forall|m: ChessMove| #[trigger] chess_moves@.contains(m) implies p.legal(
                    m,
                    &self.tables.keys,
                ) by {
                    vstd::seq_lib::lemma_seq_contains_after_push(prev, chess_move, m);
                }
                assert forall|a: int| 0 <= a < i + 1 implies (p.legal(
                    #[trigger] pseudo@[a],
                    &self.tables.keys,
                ) <==> chess_moves@.contains(pseudo@[a])) by {
                    vstd::seq_lib::lemma_seq_contains_after_push(prev, chess_move, pseudo@[a]);
                }
            }
            i += 1;
        }
        proof {
            assert forall|m: ChessMove| #[trigger]
                chess_moves@.contains(m) <==> p.legal(m, &self.tables.keys) by {
                if p.legal(m, &self.tables.keys) {
                    assert(p.pseudo_legal(m));
                    assert(pseudo@.contains(m));
                    let a = choose|a: int| 0 <= a < pseudo@.len() && pseudo@[a] == m;
                    assert(p.legal(pseudo@[a], &self.tables.keys));
                    assert(chess_moves@.contains(pseudo@[a]));
                }
            }
            assert forall|a: int, b: int| 0 <= a < b < chess_moves@.len() implies p.gain(
                #[trigger] chess_moves@[a],
            ) >= p.gain(#[trigger] chess_moves@[b]) by {
                assert(picked[a] < picked[b]);
            }
            assert forall|a: int, b: int|
                0 <= a < chess_moves@.len() && 0 <= b < chess_moves@.len() && a != b implies chess_moves@[a]
                != chess_moves@[b] by {
                if a < b {
                    assert(picked[a] < picked[b]);
                } else {
                    assert(picked[b] < picked[a]);
                }
            }
        }
        chess_moves
    }
}

} // verus!



