//! The board: bitboards, side to move, castling rights, en-passant target,
//! clocks, the running Zobrist key and the keys of earlier positions.
use vstd::prelude::*;
use crate::bits::{lemma_empty, lemma_mem_ops, lemma_mem_single, mem};
use crate::position::{boards_wf, is_side, sq_bit, Position, EMPTY_SQUARE};
use crate::tables::Tables;

verus! {

/// The part of the state that a move can change besides the pieces, the
/// side to move and the move number.
#[derive(Clone, Copy)]
pub struct BoardMeta {
    pub white_king_castle: bool,
    pub white_queen_castle: bool,
    pub black_king_castle: bool,
    pub black_queen_castle: bool,
    pub en_passant_bitboard: u64,
    pub halfmove_clock: u8,
    pub hash: u64,
}

/// Chess board
pub struct Board<'a> {
    pub tables: &'a Tables,
    /// To get a specific bitboard: `Color + Piece` or just `Color`
    /// White pieces, black pieces, white pawns, black pawns, white knights...
    pub bitboards: [u64; 14],
    pub white_to_move: bool,
    pub fullmove_counter: u32,
    pub meta: BoardMeta,
    pub previous_hashes: Vec<u64>,
}

impl<'a> View for Board<'a> {
    type V = Position;

    open spec fn view(&self) -> Position {
        Position {
            bb: self.bitboards@,
            white_to_move: self.white_to_move,
            white_king_castle: self.meta.white_king_castle,
            white_queen_castle: self.meta.white_queen_castle,
            black_king_castle: self.meta.black_king_castle,
            black_queen_castle: self.meta.black_queen_castle,
            ep: self.meta.en_passant_bitboard,
            halfmove: self.meta.halfmove_clock as int,
            fullmove: self.fullmove_counter as int,
            hash: self.meta.hash,
            history: self.previous_hashes@,
        }
    }
}

impl<'a> Clone for Board<'a> {
    fn clone(&self) -> (r: Self)
        ensures
            r@ == self@,
            r.tables == self.tables,
    {
        Board {
            tables: self.tables,
            bitboards: self.bitboards,
            white_to_move: self.white_to_move,
            fullmove_counter: self.fullmove_counter,
            meta: self.meta,
            previous_hashes: self.previous_hashes.clone(),
        }
    }
}

impl<'a> Board<'a> {
    /// The board's invariant: the position's invariants hold, the tables are
    /// whole, and the running key is the key computed from scratch.
    pub open spec fn wf(&self) -> bool {
        &&& self@.wf()
        &&& self.tables.wf()
        &&& self.meta.hash == self.tables.keys.key_of(self@)
    }

    /// The side to move, as a colour index.
    pub fn side_to_move(&self) -> (c: usize)
        ensures
            c == self@.side(),
    {
        if self.white_to_move {
            0
        } else {
            1
        }
    }

    /// The piece of `color` on `index`, or `EMPTY_SQUARE`.
    pub fn piece_on_with_color(&self, index: usize, color: usize) -> (p: usize)
        requires
            boards_wf(self@.bb),
            index < 64,
            color < 2,
        ensures
            p == if is_side(self@.piece_at(index as int), color as int) {
                self@.piece_at(index as int)
            } else {
                14
            },
    {
        let bitboard: u64 = 1u64 << (index as u64);
        let mut i: usize = 0;
        while i < 6
            invariant
                i <= 6,
                index < 64,
                color < 2,
                bitboard == sq_bit(index as int),
                boards_wf(self@.bb),
                forall|j: int| 0 <= j < i ==> !mem(#[trigger] self.bitboards@[2 + 2 * j + color], index as int),
            decreases 6 - i,
        {
            let p = 2 + i * 2 + color;
            let hit = self.bitboards[p] & bitboard;
            proof {
                lemma_single_hit(self.bitboards@[p as int], index as int);
            }
            if hit != 0 {
                return p;
            }
            i += 1;
        }
        proof {
            let x = self@.piece_at(index as int);
            if is_side(x, color as int) {
                let j = (x - 2 - color) / 2;
                assert(x == 2 + 2 * j + color);
                assert(!mem(self.bitboards@[2 + 2 * j + color], index as int));
            }
        }
        EMPTY_SQUARE
    }

    /// The piece on `index`, or `EMPTY_SQUARE`.
    pub fn piece_on(&self, index: usize) -> (p: usize)
        requires
            index < 64,
        ensures
            p == self@.piece_at(index as int),
    {
        let bitboard: u64 = 1u64 << (index as u64);
        let mut i: usize = 2;
        while i < 14
            invariant
                2 <= i <= 14,
                index < 64,
                bitboard == sq_bit(index as int),
                forall|j: int| 2 <= j < i ==> !mem(#[trigger] self.bitboards@[j], index as int),
            decreases 14 - i,
        {
            let hit = self.bitboards[i] & bitboard;
            proof {
                lemma_single_hit(self.bitboards@[i as int], index as int);
            }
            if hit != 0 {
                return i;
            }
            i += 1;
        }
        EMPTY_SQUARE
    }

    /// No square of `bitboard` is occupied.
    pub fn squares_are_empty(&self, bitboard: u64) -> (r: bool)
        requires
            boards_wf(self@.bb),
        ensures
            r == (forall|i: int| 0 <= i < 64 && mem(bitboard, i) ==> self@.piece_at(i) == 14),
    {
        let all = self.bitboards[0] ^ self.bitboards[1];
        let r = (all & bitboard) == 0;
        proof {
            lemma_empty(all & bitboard);
            assert forall|i: int| 0 <= i < 64 implies mem(all & bitboard, i) == (mem(bitboard, i)
                && self@.piece_at(i) != 14) by {
                lemma_mem_ops(all, bitboard, i);
                lemma_mem_ops(self.bitboards@[0], self.bitboards@[1], i);
            }
            if r {
                assert forall|i: int| 0 <= i < 64 && mem(bitboard, i) implies self@.piece_at(i) == 14 by {
                    assert(!mem(all & bitboard, i));
                }
            } else {
                let i = choose|i: int| 0 <= i < 64 && mem(all & bitboard, i);
                assert(mem(bitboard, i) && self@.piece_at(i) != 14);
            }
        }
        r
    }
}

/// Intersecting a set with a one-square set tests membership.
pub proof fn lemma_single_hit(b: u64, s: int)
    requires
        0 <= s < 64,
    ensures
        (b & sq_bit(s) != 0) == mem(b, s),
{
    let r = b & sq_bit(s);
    lemma_empty(r);
    assert forall|j: int| 0 <= j < 64 implies mem(r, j) == (mem(b, j) && j == s) by {
        lemma_mem_single(s, j);
        lemma_mem_ops(b, sq_bit(s), j);
    }
    if mem(b, s) {
        assert(mem(r, s));
    }
}

} // verus!
