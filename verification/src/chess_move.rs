//! Moves packed into sixteen bits, and the names of squares.
use vstd::prelude::*;
use vstd::string::StringExecFns;
use crate::bits::{file_of, lemma_empty, lemma_lsb, lsb, mem, pop_lsb, rank_of};

verus! {

// The promotion codes, in bits 12 and 13. A move that is no promotion has
// the code of the knight.
pub const NO_PROMOTION: u16 = 0x0000;
pub const KNIGHT_PROMOTION: u16 = 0x0000;
pub const BISHOP_PROMOTION: u16 = 0x1000;
pub const ROOK_PROMOTION: u16 = 0x2000;
pub const QUEEN_PROMOTION: u16 = 0x3000;

// The kinds of move, in bits 14 and 15.
pub const NORMAL_MOVE: u16 = 0x0000;
pub const PROMOTION_MOVE: u16 = 0x4000;
pub const EN_PASSANT_MOVE: u16 = 0x8000;
pub const CASTLING_MOVE: u16 = 0xC000;

/// A move: origin and destination squares, the piece a pawn promotes to and
/// the kind of move, packed as bits 0-5, 6-11, 12-13 and 14-15.
#[derive(Clone, Copy, Debug, PartialEq, Eq, Structural)]
pub struct ChessMove(pub u16);

/// One of the four promotion codes.
pub open spec fn is_promotion_code(p: u16) -> bool {
    p == KNIGHT_PROMOTION || p == BISHOP_PROMOTION || p == ROOK_PROMOTION || p == QUEEN_PROMOTION
}

/// One of the four kinds of move.
pub open spec fn is_move_type(t: u16) -> bool {
    t == NORMAL_MOVE || t == PROMOTION_MOVE || t == EN_PASSANT_MOVE || t == CASTLING_MOVE
}

proof fn bv_fields(w: u16)
    by (bit_vector)
    ensures
        (w & 0x3f) < 64,
        ((w >> 6) & 0x3f) < 64,
        is_promotion_code(w & 0x3000),
        is_move_type(w & 0xC000),
{
}

proof fn bv_pack(from: u16, to: u16, promotion: u16, move_type: u16)
    by (bit_vector)
    requires
        from < 64,
        to < 64,
        is_promotion_code(promotion),
        is_move_type(move_type),
    ensures
        ((from ^ (to << 6) ^ promotion ^ move_type) & 0x3f) == from,
        (((from ^ (to << 6) ^ promotion ^ move_type) >> 6) & 0x3f) == to,
        ((from ^ (to << 6) ^ promotion ^ move_type) & 0x3000) == promotion,
        ((from ^ (to << 6) ^ promotion ^ move_type) & 0xC000) == move_type,
{
}

proof fn bv_unpack(a: u16, b: u16)
    by (bit_vector)
    requires
        a & 0x3f == b & 0x3f,
        (a >> 6) & 0x3f == (b >> 6) & 0x3f,
        a & 0x3000 == b & 0x3000,
        a & 0xC000 == b & 0xC000,
    ensures
        a == b,
{
}

/// The move with the given fields.
pub open spec fn packed(from: int, to: int, promotion: u16, move_type: u16) -> ChessMove {
    ChessMove((from as u16) ^ ((to as u16) << 6) ^ promotion ^ move_type)
}

/// The fields of a packed move are the fields that went in.
pub proof fn lemma_packed(from: int, to: int, promotion: u16, move_type: u16)
    requires
        0 <= from < 64,
        0 <= to < 64,
        is_promotion_code(promotion),
        is_move_type(move_type),
    ensures
        packed(from, to, promotion, move_type).src() == from,
        packed(from, to, promotion, move_type).dst() == to,
        packed(from, to, promotion, move_type).promo() == promotion,
        packed(from, to, promotion, move_type).kind() == move_type,
{
    bv_pack(from as u16, to as u16, promotion, move_type);
}

impl ChessMove {
    /// The origin square.
    pub open spec fn src(self) -> int {
        (self.0 & 0x3f) as int
    }

    /// The destination square.
    pub open spec fn dst(self) -> int {
        ((self.0 >> 6) & 0x3f) as int
    }

    /// The promotion code; `KNIGHT_PROMOTION` also stands for no promotion.
    pub open spec fn promo(self) -> u16 {
        self.0 & 0x3000
    }

    /// The kind of move.
    pub open spec fn kind(self) -> u16 {
        self.0 & 0xC000
    }

    /// The fields of every move are in range.
    pub proof fn lemma_fields(self)
        ensures
            0 <= self.src() < 64,
            0 <= self.dst() < 64,
            is_promotion_code(self.promo()),
            is_move_type(self.kind()),
    {
        bv_fields(self.0);
    }

    /// Two moves with the same four fields are the same move.
    pub proof fn lemma_same_fields(self, other: ChessMove)
        requires
            self.src() == other.src(),
            self.dst() == other.dst(),
            self.promo() == other.promo(),
            self.kind() == other.kind(),
        ensures
            self == other,
    {
        bv_unpack(self.0, other.0);
    }

    /// Packs a move.
    pub fn new(from: usize, to: usize, promotion: u16, move_type: u16) -> (m: Self)
        requires
            from < 64,
            to < 64,
            is_promotion_code(promotion),
            is_move_type(move_type),
        ensures
            m == packed(from as int, to as int, promotion, move_type),
            m.src() == from,
            m.dst() == to,
            m.promo() == promotion,
            m.kind() == move_type,
    {
        proof {
            bv_pack(from as u16, to as u16, promotion, move_type);
        }
        Self((from as u16) ^ ((to as u16) << 6) ^ promotion ^ move_type)
    }

    /// The origin square.
    pub fn from(&self) -> (sq: usize)
        ensures
            sq == self.src(),
            sq < 64,
    {
        proof {
            bv_fields(self.0);
        }
        (self.0 & 0x3f) as usize
    }

    /// The destination square.
    pub fn to(&self) -> (sq: usize)
        ensures
            sq == self.dst(),
            sq < 64,
    {
        proof {
            bv_fields(self.0);
        }
        ((self.0 >> 6) & 0x3f) as usize
    }

    /// The promotion code.
    pub fn promotion(&self) -> (p: u16)
        ensures
            p == self.promo(),
            is_promotion_code(p),
    {
        proof {
            bv_fields(self.0);
        }
        self.0 & 0x3000
    }

    /// The kind of move.
    pub fn move_type(&self) -> (t: u16)
        ensures
            t == self.kind(),
            is_move_type(t),
    {
        proof {
            bv_fields(self.0);
        }
        self.0 & 0xC000
    }

    /// The move in coordinate notation: both squares, then the letter of the
    /// promoted piece if the move is a promotion.
    pub open spec fn notation(self) -> Seq<char> {
        square_name(self.src()) + square_name(self.dst()) + if self.kind() == PROMOTION_MOVE {
            seq![promotion_letter(self.promo())]
        } else {
            Seq::<char>::empty()
        }
    }

    /// The move in coordinate notation, such as `e2e4` or `e7e8q`.
    pub fn to_fen(&self) -> (s: String)
        ensures
            s@ == self.notation(),
    {
        let mut s = String::from_str("");
        proof {
            reveal_strlit("");
        }
        s.append(file_letter(self.from() % 8));
        s.append(rank_digit(self.from() / 8));
        s.append(file_letter(self.to() % 8));
        s.append(rank_digit(self.to() / 8));
        if self.move_type() == PROMOTION_MOVE {
            let p = self.promotion();
            let letter = if p == KNIGHT_PROMOTION {
                "n"
            } else if p == BISHOP_PROMOTION {
                "b"
            } else if p == ROOK_PROMOTION {
                "r"
            } else {
                "q"
            };
            proof {
                reveal_strlit("n");
                reveal_strlit("b");
                reveal_strlit("r");
                reveal_strlit("q");
                assert(letter@ =~= seq![promotion_letter(p)]);
            }
            s.append(letter);
        }
        assert(s@ =~= self.notation());
        s
    }
}

/// The letter of the piece that a promotion code stands for.
pub open spec fn promotion_letter(p: u16) -> char {
    if p == KNIGHT_PROMOTION {
        'n'
    } else if p == BISHOP_PROMOTION {
        'b'
    } else if p == ROOK_PROMOTION {
        'r'
    } else {
        'q'
    }
}

/// The letter of a file coordinate: 0 is `h`, 7 is `a`.
pub open spec fn file_char(x: int) -> char {
    if x == 0 {
        'h'
    } else if x == 1 {
        'g'
    } else if x == 2 {
        'f'
    } else if x == 3 {
        'e'
    } else if x == 4 {
        'd'
    } else if x == 5 {
        'c'
    } else if x == 6 {
        'b'
    } else {
        'a'
    }
}

/// The digit of a rank coordinate: 0 is `1`, 7 is `8`.
pub open spec fn rank_char(y: int) -> char {
    if y == 0 {
        '1'
    } else if y == 1 {
        '2'
    } else if y == 2 {
        '3'
    } else if y == 3 {
        '4'
    } else if y == 4 {
        '5'
    } else if y == 5 {
        '6'
    } else if y == 6 {
        '7'
    } else {
        '8'
    }
}

/// The algebraic name of a square, such as `e4`.
pub open spec fn square_name(sq: int) -> Seq<char> {
    seq![file_char(file_of(sq)), rank_char(rank_of(sq))]
}

fn file_letter(x: usize) -> (s: &'static str)
    requires
        x < 8,
    ensures
        s@ == seq![file_char(x as int)],
{
    let s = if x == 0 {
        "h"
    } else if x == 1 {
        "g"
    } else if x == 2 {
        "f"
    } else if x == 3 {
        "e"
    } else if x == 4 {
        "d"
    } else if x == 5 {
        "c"
    } else if x == 6 {
        "b"
    } else {
        "a"
    };
    proof {
        reveal_strlit("h");
        reveal_strlit("g");
        reveal_strlit("f");
        reveal_strlit("e");
        reveal_strlit("d");
        reveal_strlit("c");
        reveal_strlit("b");
        reveal_strlit("a");
        assert(s@ =~= seq![file_char(x as int)]);
    }
    s
}

fn rank_digit(y: usize) -> (s: &'static str)
    requires
        y < 8,
    ensures
        s@ == seq![rank_char(y as int)],
{
    let s = if y == 0 {
        "1"
    } else if y == 1 {
        "2"
    } else if y == 2 {
        "3"
    } else if y == 3 {
        "4"
    } else if y == 4 {
        "5"
    } else if y == 5 {
        "6"
    } else if y == 6 {
        "7"
    } else {
        "8"
    };
    proof {
        reveal_strlit("1");
        reveal_strlit("2");
        reveal_strlit("3");
        reveal_strlit("4");
        reveal_strlit("5");
        reveal_strlit("6");
        reveal_strlit("7");
        reveal_strlit("8");
        assert(s@ =~= seq![rank_char(y as int)]);
    }
    s
}

/// A bitboard with exactly one member.
pub open spec fn is_single(b: u64) -> bool {
    b != 0 && forall|i: int| 0 <= i < 64 && mem(b, i) ==> i == lsb(b)
}

/// The square that a name stands for, if it is the name of a square. The
/// file letter may be written in either case.
pub open spec fn parse_square(name: Seq<char>) -> Option<int> {
    if name.len() != 2 {
        None
    } else {
        match (parse_file(name[0]), parse_rank(name[1])) {
            (Some(x), Some(y)) => Some(8 * y + x),
            _ => None,
        }
    }
}

/// The file coordinate that a letter names, in either case.
pub open spec fn parse_file(c: char) -> Option<int> {
    if c == 'h' || c == 'H' {
        Some(0)
    } else if c == 'g' || c == 'G' {
        Some(1)
    } else if c == 'f' || c == 'F' {
        Some(2)
    } else if c == 'e' || c == 'E' {
        Some(3)
    } else if c == 'd' || c == 'D' {
        Some(4)
    } else if c == 'c' || c == 'C' {
        Some(5)
    } else if c == 'b' || c == 'B' {
        Some(6)
    } else if c == 'a' || c == 'A' {
        Some(7)
    } else {
        None
    }
}

/// The rank coordinate that a digit names.
pub open spec fn parse_rank(c: char) -> Option<int> {
    if c == '1' {
        Some(0)
    } else if c == '2' {
        Some(1)
    } else if c == '3' {
        Some(2)
    } else if c == '4' {
        Some(3)
    } else if c == '5' {
        Some(4)
    } else if c == '6' {
        Some(5)
    } else if c == '7' {
        Some(6)
    } else if c == '8' {
        Some(7)
    } else {
        None
    }
}

/// The file coordinate that a letter names, in either case.
pub fn file_from_char(c: char) -> (r: Option<usize>)
    ensures
        match parse_file(c) {
            Some(x) => r == Some(x as usize) && x < 8,
            None => r is None,
        },
{
    if c == 'h' || c == 'H' {
        Some(0)
    } else if c == 'g' || c == 'G' {
        Some(1)
    } else if c == 'f' || c == 'F' {
        Some(2)
    } else if c == 'e' || c == 'E' {
        Some(3)
    } else if c == 'd' || c == 'D' {
        Some(4)
    } else if c == 'c' || c == 'C' {
        Some(5)
    } else if c == 'b' || c == 'B' {
        Some(6)
    } else if c == 'a' || c == 'A' {
        Some(7)
    } else {
        None
    }
}

/// The rank coordinate that a digit names.
pub fn rank_from_char(c: char) -> (r: Option<usize>)
    ensures
        match parse_rank(c) {
            Some(y) => r == Some(y as usize) && y < 8,
            None => r is None,
        },
{
    if c == '1' {
        Some(0)
    } else if c == '2' {
        Some(1)
    } else if c == '3' {
        Some(2)
    } else if c == '4' {
        Some(3)
    } else if c == '5' {
        Some(4)
    } else if c == '6' {
        Some(5)
    } else if c == '7' {
        Some(6)
    } else if c == '8' {
        Some(7)
    } else {
        None
    }
}

/// The one-square bitboard that a square's name stands for.
pub fn square_to_bitboard(square: &str) -> (r: Option<u64>)
    ensures
        match parse_square(square@) {
            Some(sq) => 0 <= sq < 64 && r == Some(1u64 << (sq as u64)),
            None => r is None,
        },
{
    if square.unicode_len() != 2 {
        return None;
    }
    let file = file_from_char(square.get_char(0));
    let rank = rank_from_char(square.get_char(1));
    match (file, rank) {
        (Some(x), Some(y)) => Some(1u64 << ((8 * y + x) as u64)),
        _ => None,
    }
}

/// The name of the only square of a one-square bitboard.
pub fn bitboard_to_square(bitboard: u64) -> (r: Option<String>)
    ensures
        match r {
            Some(s) => is_single(bitboard) && s@ == square_name(lsb(bitboard)),
            None => !is_single(bitboard),
        },
{
    if bitboard == 0 {
        return None;
    }
    let mut rest = bitboard;
    let sq = pop_lsb(&mut rest);
    if rest != 0 {
        proof {
            lemma_lsb(rest);
            assert(mem(bitboard, lsb(rest)));
        }
        return None;
    }
    proof {
        lemma_empty(rest);
    }
    let mut s = String::from_str("");
    proof {
        reveal_strlit("");
    }
    s.append(file_letter(sq % 8));
    s.append(rank_digit(sq / 8));
    assert(s@ =~= square_name(sq as int));
    Some(s)
}

/// Naming a square and reading the name back gives the square.
pub proof fn lemma_square_name_round_trip(sq: int)
    requires
        0 <= sq < 64,
    ensures
        parse_square(square_name(sq)) == Some(sq),
{
}

} // verus!
