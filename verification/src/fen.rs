//! Forsyth-Edwards notation: what a record says, and how a board is read
//! from one.
use vstd::prelude::*;
use crate::bits::{lemma_empty, lemma_lsb, lemma_mem_ops, lsb, mem, pop_lsb, get_lsb};
use crate::board::{Board, BoardMeta};
use vstd::string::StringExecFns;
use crate::chess_move::{file_from_char, is_single, parse_square, rank_from_char, square_name};
use crate::position::{boards_wf, lemma_put, piece_in, put, sq_bit, Position};
use crate::tables::Tables;
use crate::zobrist::HashTable;

verus! {

/// Why a record is refused: the first of its parts that is wrong, or the
/// position, where every part is well-written but they do not fit together.
#[derive(Clone, Copy, Debug, PartialEq, Eq, Structural)]
pub enum FenError {
    /// Not six fields with one space between them.
    Fields,
    /// The piece placement is not eight ranks of eight squares.
    Placement,
    /// The side to move is neither `w` nor `b`.
    SideToMove,
    /// The castling field is neither `-` nor made of the letters `KQkq`.
    Castling,
    /// The en-passant field is neither `-` nor the name of a square.
    EnPassant,
    /// The halfmove clock is not a number, or is above 100.
    HalfmoveClock,
    /// The fullmove number is not a number from 1 to 4294967295.
    FullmoveNumber,
    /// The record breaks an invariant of positions: the number of kings, the
    /// place of the en-passant target, or a castling right without its king
    /// or rook.
    Position,
}

/// The index of the first `c` in `s`, or the length of `s` without one.
pub open spec fn index_of(s: Seq<char>, c: char) -> int
    decreases s.len(),
{
    if s.len() == 0 {
        0
    } else if s[0] == c {
        0
    } else {
        1 + index_of(s.drop_first(), c)
    }
}

/// The text before the first `c`.
#[verifier::opaque]
pub open spec fn head(s: Seq<char>, c: char) -> Seq<char> {
    s.take(index_of(s, c))
}

/// The text after the first `c`, if there is a `c`.
#[verifier::opaque]
pub open spec fn tail(s: Seq<char>, c: char) -> Option<Seq<char>> {
    if index_of(s, c) < s.len() {
        Some(s.skip(index_of(s, c) + 1))
    } else {
        None
    }
}

/// The piece code of a piece letter.
pub open spec fn piece_of_letter(c: char) -> Option<int> {
    if c == 'P' {
        Some(2)
    } else if c == 'p' {
        Some(3)
    } else if c == 'N' {
        Some(4)
    } else if c == 'n' {
        Some(5)
    } else if c == 'B' {
        Some(6)
    } else if c == 'b' {
        Some(7)
    } else if c == 'R' {
        Some(8)
    } else if c == 'r' {
        Some(9)
    } else if c == 'Q' {
        Some(10)
    } else if c == 'q' {
        Some(11)
    } else if c == 'K' {
        Some(12)
    } else if c == 'k' {
        Some(13)
    } else {
        None
    }
}

/// The value of a decimal digit.
pub open spec fn digit_value(c: char) -> Option<int> {
    if c == '0' {
        Some(0)
    } else if c == '1' {
        Some(1)
    } else if c == '2' {
        Some(2)
    } else if c == '3' {
        Some(3)
    } else if c == '4' {
        Some(4)
    } else if c == '5' {
        Some(5)
    } else if c == '6' {
        Some(6)
    } else if c == '7' {
        Some(7)
    } else if c == '8' {
        Some(8)
    } else if c == '9' {
        Some(9)
    } else {
        None
    }
}

/// `n` empty squares.
pub open spec fn empties(n: int) -> Seq<int> {
    Seq::new(n as nat, |i: int| 14int)
}

/// The squares of one rank, from file A to file H, that the text `s` adds to
/// the squares `acc` read so far: a letter is a piece, a digit from 1 to 8
/// a run of empty squares, and the rank has eight squares.
pub open spec fn row_squares(s: Seq<char>, acc: Seq<int>) -> Option<Seq<int>>
    decreases s.len(),
{
    if s.len() == 0 {
        if acc.len() == 8 {
            Some(acc)
        } else {
            None
        }
    } else {
        match piece_of_letter(s[0]) {
            Some(p) => if acc.len() < 8 {
                row_squares(s.drop_first(), acc.push(p))
            } else {
                None
            },
            None => match digit_value(s[0]) {
                Some(d) => if 1 <= d <= 8 && acc.len() + d <= 8 {
                    row_squares(s.drop_first(), acc + empties(d))
                } else {
                    None
                },
                None => None,
            },
        }
    }
}

/// The squares of the `ranks` ranks that the text `s` describes, rank 8
/// first, with `/` between the ranks.
pub open spec fn placement_squares(s: Seq<char>, ranks: nat) -> Option<Seq<int>>
    decreases ranks,
{
    if ranks == 0 {
        None
    } else {
        match row_squares(head(s, '/'), Seq::empty()) {
            None => None,
            Some(row) => if ranks == 1 {
                if tail(s, '/') is None {
                    Some(row)
                } else {
                    None
                }
            } else {
                match tail(s, '/') {
                    None => None,
                    Some(rest) => match placement_squares(rest, (ranks - 1) as nat) {
                        None => None,
                        Some(more) => Some(row + more),
                    },
                }
            },
        }
    }
}

/// The bitboards that show the first `n` of the squares; the squares are
/// listed from A8 by ranks down to H1.
pub open spec fn boards_from(squares: Seq<int>, n: int) -> Seq<u64>
    decreases n,
{
    if n <= 0 {
        Seq::new(14, |k: int| 0u64)
    } else {
        let b = boards_from(squares, n - 1);
        if squares[n - 1] == 14 {
            b
        } else {
            put(b, squares[n - 1], 63 - (n - 1))
        }
    }
}

/// The number that the digits `s` add to the number `acc` read so far.
pub open spec fn number(s: Seq<char>, acc: int) -> Option<int>
    decreases s.len(),
{
    if s.len() == 0 {
        Some(acc)
    } else {
        match digit_value(s[0]) {
            Some(d) => number(s.drop_first(), 10 * acc + d),
            None => None,
        }
    }
}

/// The number that a non-empty text of decimal digits stands for.
pub open spec fn parse_number(s: Seq<char>) -> Option<int> {
    if s.len() == 0 {
        None
    } else {
        number(s, 0)
    }
}

/// One of the letters `KQkq`.
pub open spec fn is_castling_letter(c: char) -> bool {
    c == 'K' || c == 'Q' || c == 'k' || c == 'q'
}

/// The castling field is `-` or a non-empty text of the letters `KQkq`.
pub open spec fn castling_ok(s: Seq<char>) -> bool {
    s =~= seq!['-'] || (s.len() > 0 && forall|i: int| 0 <= i < s.len() ==> is_castling_letter(#[trigger] s[i]))
}

/// The en-passant target that the field names: none for `-`.
pub open spec fn parse_en_passant(s: Seq<char>) -> Option<u64> {
    if s =~= seq!['-'] {
        Some(0)
    } else {
        match parse_square(s) {
            Some(sq) => Some(sq_bit(sq)),
            None => None,
        }
    }
}

/// The six fields of a record.
pub struct FenFields {
    pub placement: Seq<char>,
    pub side: Seq<char>,
    pub castling: Seq<char>,
    pub en_passant: Seq<char>,
    pub halfmove: Seq<char>,
    pub fullmove: Seq<char>,
}

/// The fields of a record: six, with one space between them.
pub open spec fn fen_fields(s: Seq<char>) -> Option<FenFields> {
    match tail(s, ' ') {
        None => None,
        Some(s1) => match tail(s1, ' ') {
            None => None,
            Some(s2) => match tail(s2, ' ') {
                None => None,
                Some(s3) => match tail(s3, ' ') {
                    None => None,
                    Some(s4) => match tail(s4, ' ') {
                        None => None,
                        Some(s5) => if tail(s5, ' ') is None {
                            Some(
                                FenFields {
                                    placement: head(s, ' '),
                                    side: head(s1, ' '),
                                    castling: head(s2, ' '),
                                    en_passant: head(s3, ' '),
                                    halfmove: head(s4, ' '),
                                    fullmove: s5,
                                },
                            )
                        } else {
                            None
                        },
                    },
                },
            },
        }
    }
}

/// The position that the record `s` describes, with the key table `keys`
/// for its key and `history` for the keys of earlier positions, or the
/// reason why `s` describes none.
pub open spec fn parse_fen(s: Seq<char>, keys: &HashTable, history: Seq<u64>) -> Result<Position, FenError> {
    match fen_fields(s) {
        None => Err(FenError::Fields),
        Some(f) => match placement_squares(f.placement, 8) {
            None => Err(FenError::Placement),
            Some(squares) => if !(f.side =~= seq!['w'] || f.side =~= seq!['b']) {
                Err(FenError::SideToMove)
            } else if !castling_ok(f.castling) {
                Err(FenError::Castling)
            } else {
                match parse_en_passant(f.en_passant) {
                    None => Err(FenError::EnPassant),
                    Some(ep) => match parse_number(f.halfmove) {
                        None => Err(FenError::HalfmoveClock),
                        Some(halfmove) => if halfmove > 100 {
                            Err(FenError::HalfmoveClock)
                        } else {
                            match parse_number(f.fullmove) {
                                None => Err(FenError::FullmoveNumber),
                                Some(fullmove) => if fullmove < 1 || fullmove > u32::MAX {
                                    Err(FenError::FullmoveNumber)
                                } else {
                                    let p = Position {
                                        bb: boards_from(squares, 64),
                                        white_to_move: f.side =~= seq!['w'],
                                        white_king_castle: f.castling.contains('K'),
                                        white_queen_castle: f.castling.contains('Q'),
                                        black_king_castle: f.castling.contains('k'),
                                        black_queen_castle: f.castling.contains('q'),
                                        ep,
                                        halfmove,
                                        fullmove,
                                        hash: 0,
                                        history,
                                    };
                                    if p.wf() {
                                        Ok(Position { hash: keys.key_of(p), ..p })
                                    } else {
                                        Err(FenError::Position)
                                    }
                                },
                            }
                        },
                    },
                }
            },
        },
    }
}

/// The characters of a string.
pub fn chars_of(s: &str) -> (v: Vec<char>)
    ensures
        v@ == s@,
{
    let n = s.unicode_len();
    let mut v: Vec<char> = Vec::with_capacity(n);
    let mut i: usize = 0;
    while i < n
        invariant
            i <= n,
            n == s@.len(),
            v@ == s@.take(i as int),
        decreases n - i,
    {
        v.push(s.get_char(i));
        assert(v@ =~= s@.take(i + 1));
        i += 1;
    }
    assert(s@.take(n as int) =~= s@);
    v
}

/// The first `c` is where a `c` stands with none before it.
pub proof fn lemma_index_of(s: Seq<char>, c: char, k: int)
    requires
        0 <= k <= s.len(),
        forall|j: int| 0 <= j < k ==> s[j] != c,
        k == s.len() || s[k] == c,
    ensures
        index_of(s, c) == k,
    decreases s.len(),
{
    if s.len() > 0 && k > 0 {
        lemma_index_of(s.drop_first(), c, k - 1);
    }
}

/// The place of the first `c` between `start` and `end`, or `end`.
fn find(chars: &Vec<char>, start: usize, end: usize, c: char) -> (i: usize)
    requires
        start <= end <= chars@.len(),
    ensures
        start <= i <= end,
        i - start == index_of(chars@.subrange(start as int, end as int), c),
{
    let mut i = start;
    while i < end && chars[i] != c
        invariant
            start <= i <= end <= chars@.len(),
            forall|j: int| start <= j < i ==> chars@[j] != c,
        decreases end - i,
    {
        i += 1;
    }
    proof {
        lemma_index_of(chars@.subrange(start as int, end as int), c, i - start);
    }
    i
}

/// The end of the part that begins at `start` and runs up to the next `c`
/// or to `end`.
pub fn next_part(chars: &Vec<char>, start: usize, end: usize, c: char) -> (i: usize)
    requires
        start <= end <= chars@.len(),
    ensures
        start <= i <= end,
        head(chars@.subrange(start as int, end as int), c) == chars@.subrange(start as int, i as int),
        tail(chars@.subrange(start as int, end as int), c) == if i < end {
            Some(chars@.subrange(i + 1, end as int))
        } else {
            None
        },
{
    let i = find(chars, start, end, c);
    proof {
        reveal(head);
        reveal(tail);
        let rest = chars@.subrange(start as int, end as int);
        assert(rest.take(i - start) =~= chars@.subrange(start as int, i as int));
        if i < end {
            assert(rest.skip(i - start + 1) =~= chars@.subrange(i + 1, end as int));
        }
    }
    i
}

fn letter_piece(c: char) -> (r: Option<usize>)
    ensures
        match piece_of_letter(c) {
            Some(p) => r == Some(p as usize) && 2 <= p < 14,
            None => r is None,
        },
{
    if c == 'P' {
        Some(2)
    } else if c == 'p' {
        Some(3)
    } else if c == 'N' {
        Some(4)
    } else if c == 'n' {
        Some(5)
    } else if c == 'B' {
        Some(6)
    } else if c == 'b' {
        Some(7)
    } else if c == 'R' {
        Some(8)
    } else if c == 'r' {
        Some(9)
    } else if c == 'Q' {
        Some(10)
    } else if c == 'q' {
        Some(11)
    } else if c == 'K' {
        Some(12)
    } else if c == 'k' {
        Some(13)
    } else {
        None
    }
}

fn digit_of(c: char) -> (r: Option<usize>)
    ensures
        match digit_value(c) {
            Some(d) => r == Some(d as usize) && 0 <= d <= 9,
            None => r is None,
        },
{
    if c == '0' {
        Some(0)
    } else if c == '1' {
        Some(1)
    } else if c == '2' {
        Some(2)
    } else if c == '3' {
        Some(3)
    } else if c == '4' {
        Some(4)
    } else if c == '5' {
        Some(5)
    } else if c == '6' {
        Some(6)
    } else if c == '7' {
        Some(7)
    } else if c == '8' {
        Some(8)
    } else if c == '9' {
        Some(9)
    } else {
        None
    }
}

/// The squares have piece codes or the code of the empty square.
pub open spec fn squares_ok(squares: Seq<int>) -> bool {
    forall|i: int| 0 <= i < squares.len() ==> 2 <= #[trigger] squares[i] <= 14
}

/// The view of a list of squares.
pub open spec fn as_ints(v: Seq<usize>) -> Seq<int> {
    v.map_values(|x: usize| x as int)
}

/// The view of a list with one more square.
pub proof fn lemma_as_ints_push(v: Seq<usize>, x: usize)
    ensures
        as_ints(v.push(x)) == as_ints(v).push(x as int),
{
    assert(as_ints(v.push(x)) =~= as_ints(v).push(x as int));
}

/// Every row that is read has eight squares with piece codes.
pub proof fn lemma_row_squares(s: Seq<char>, acc: Seq<int>)
    requires
        squares_ok(acc),
    ensures
        match row_squares(s, acc) {
            Some(row) => row.len() == 8 && squares_ok(row),
            None => true,
        },
    decreases s.len(),
{
    if s.len() > 0 {
        match piece_of_letter(s[0]) {
            Some(p) => {
                if acc.len() < 8 {
                    lemma_row_squares(s.drop_first(), acc.push(p));
                }
            },
            None => match digit_value(s[0]) {
                Some(d) => {
                    if 1 <= d <= 8 && acc.len() + d <= 8 {
                        lemma_row_squares(s.drop_first(), acc + empties(d));
                    }
                },
                None => {},
            },
        }
    }
}

/// Reads one rank and appends its squares to `out`.
fn parse_row(chars: &Vec<char>, start: usize, end: usize, out: &mut Vec<usize>) -> (ok: bool)
    requires
        start <= end <= chars@.len(),
    ensures
        match row_squares(chars@.subrange(start as int, end as int), Seq::empty()) {
            Some(row) => ok && as_ints(final(out)@) == as_ints(old(out)@) + row,
            None => !ok,
        },
{
    let ghost before = as_ints(out@);
    let ghost text = chars@.subrange(start as int, end as int);
    let ghost mut acc: Seq<int> = Seq::empty();
    let mut filled: usize = 0;
    let mut i = start;
    proof {
        assert(as_ints(out@) =~= before + acc);
        assert(chars@.subrange(i as int, end as int) =~= text);
    }
    while i < end
        invariant
            start <= i <= end <= chars@.len(),
            filled == acc.len(),
            filled <= 8,
            text == chars@.subrange(start as int, end as int),
            before == as_ints(old(out)@),
            as_ints(out@) == before + acc,
            row_squares(chars@.subrange(i as int, end as int), acc) == row_squares(text, Seq::empty()),
        decreases end - i,
    {
        let c = chars[i];
        let ghost rest = chars@.subrange(i as int, end as int);
        proof {
            assert(rest[0] == c);
            assert(rest.drop_first() =~= chars@.subrange(i + 1, end as int));
        }
        match letter_piece(c) {
            Some(p) => {
                if filled >= 8 {
                    assert(row_squares(rest, acc) is None);
                    return false;
                }
                let ghost prev = out@;
                out.push(p);
                proof {
                    lemma_as_ints_push(prev, p);
                    assert(before + acc.push(p as int) =~= (before + acc).push(p as int));
                    acc = acc.push(p as int);
                }
                filled += 1;
            },
            None => match digit_of(c) {
                Some(d) => {
                    if d < 1 || d > 8 || filled + d > 8 {
                        assert(row_squares(rest, acc) is None);
                        return false;
                    }
                    let mut k: usize = 0;
                    let ghost acc0 = acc;
                    proof {
                        assert(before + acc0 + empties(0) =~= before + acc0);
                    }
                    while k < d
                        invariant
                            k <= d <= 8,
                            as_ints(out@) == before + acc0 + empties(k as int),
                        decreases d - k,
                    {
                        let ghost prev = out@;
                        out.push(14);
                        proof {
                            lemma_as_ints_push(prev, 14);
                            assert((before + acc0 + empties(k as int)).push(14int) =~= before + acc0
                                + empties(k + 1));
                        }
                        k += 1;
                    }
                    proof {
                        acc = acc0 + empties(d as int);
                        assert(before + acc0 + empties(d as int) =~= before + acc);
                    }
                    filled += d;
                },
                None => {
                    assert(row_squares(rest, acc) is None);
                    return false;
                },
            },
        }
        i += 1;
    }
    proof {
        assert(chars@.subrange(i as int, end as int).len() == 0);
    }
    filled == 8
}

/// Reads the piece placement: eight ranks, rank 8 first.
fn parse_placement(chars: &Vec<char>, start: usize, end: usize) -> (r: Option<Vec<usize>>)
    requires
        start <= end <= chars@.len(),
    ensures
        match placement_squares(chars@.subrange(start as int, end as int), 8) {
            Some(squares) => r is Some && as_ints(r->0@) == squares && squares.len() == 64 && squares_ok(
                squares,
            ),
            None => r is None,
        },
{
    let ghost text = chars@.subrange(start as int, end as int);
    let mut out: Vec<usize> = Vec::with_capacity(64);
    let mut from = start;
    let mut rank: usize = 0;
    let ghost mut done: Seq<int> = Seq::empty();
    proof {
        assert(as_ints(out@) =~= done);
    }
    loop
        invariant
            start <= from <= end <= chars@.len(),
            rank < 8,
            text == chars@.subrange(start as int, end as int),
            as_ints(out@) == done,
            done.len() == 8 * rank,
            squares_ok(done),
            placement_squares(text, 8) == match placement_squares(
                chars@.subrange(from as int, end as int),
                (8 - rank) as nat,
            ) {
                Some(more) => Some(done + more),
                None => None,
            },
        decreases 8 - rank,
    {
        let ghost rest = chars@.subrange(from as int, end as int);
        let slash = next_part(chars, from, end, '/');
        proof {
            lemma_row_squares(head(rest, '/'), Seq::empty());
        }
        let ghost ranks = (8 - rank) as nat;
        if !parse_row(chars, from, slash, &mut out) {
            assert(placement_squares(rest, ranks) is None);
            return None;
        }
        let ghost row = row_squares(head(rest, '/'), Seq::empty())->0;
        if rank == 7 {
            if slash < end {
                assert(placement_squares(rest, ranks) is None);
                return None;
            }
            proof {
                assert(tail(rest, '/') is None);
                assert(placement_squares(rest, ranks) == Some(row));
                assert((done + row).len() == 64);
            }
            return Some(out);
        }
        if slash >= end {
            assert(tail(rest, '/') is None);
            assert(placement_squares(rest, ranks) is None);
            return None;
        }
        proof {
            let next = chars@.subrange(slash + 1, end as int);
            let earlier = done;
            done = done + row;
            match placement_squares(next, (8 - rank - 1) as nat) {
                Some(more) => {
                    assert(earlier + (row + more) =~= done + more);
                },
                None => {},
            }
        }
        from = slash + 1;
        rank += 1;
    }
}

/// Reads a number of decimal digits that is not above `limit`.
pub fn parse_count(chars: &Vec<char>, start: usize, end: usize, limit: u64) -> (r: Option<u64>)
    requires
        start <= end <= chars@.len(),
        limit <= 1_000_000_000_000_000_000,
    ensures
        match parse_number(chars@.subrange(start as int, end as int)) {
            Some(v) => 0 <= v && if v <= limit {
                r == Some(v as u64)
            } else {
                r is None
            },
            None => r is None,
        },
{
    let ghost text = chars@.subrange(start as int, end as int);
    if start == end {
        return None;
    }
    let mut value: u64 = 0;
    let mut over = false;
    let ghost mut acc: int = 0;
    let mut i = start;
    proof {
        assert(chars@.subrange(i as int, end as int) =~= text);
    }
    while i < end
        invariant
            start <= i <= end <= chars@.len(),
            limit <= 1_000_000_000_000_000_000,
            text == chars@.subrange(start as int, end as int),
            text.len() > 0,
            number(chars@.subrange(i as int, end as int), acc) == number(text, 0),
            0 <= acc,
            over ==> acc > limit,
            !over ==> value == acc && acc <= limit,
        decreases end - i,
    {
        let ghost rest = chars@.subrange(i as int, end as int);
        proof {
            assert(rest[0] == chars@[i as int]);
            assert(rest.drop_first() =~= chars@.subrange(i + 1, end as int));
        }
        match digit_of(chars[i]) {
            None => {
                assert(number(rest, acc) is None);
                return None;
            },
            Some(d) => {
                proof {
                    acc = 10 * acc + d;
                }
                if !over {
                    value = 10 * value + d as u64;
                    if value > limit {
                        over = true;
                    }
                }
            },
        }
        i += 1;
    }
    proof {
        assert(chars@.subrange(i as int, end as int).len() == 0);
    }
    if over {
        None
    } else {
        Some(value)
    }
}

/// Reads the castling field.
fn parse_castling(chars: &Vec<char>, start: usize, end: usize) -> (r: Option<(bool, bool, bool, bool)>)
    requires
        start <= end <= chars@.len(),
    ensures
        ({
            let text = chars@.subrange(start as int, end as int);
            if castling_ok(text) {
                r == Some((text.contains('K'), text.contains('Q'), text.contains('k'), text.contains('q')))
            } else {
                r is None
            }
        }),
{
    let ghost text = chars@.subrange(start as int, end as int);
    if start == end {
        return None;
    }
    if end - start == 1 && chars[start] == '-' {
        proof {
            assert(text =~= seq!['-']);
            assert forall|c: char| c != '-' implies !text.contains(c) by {
                if text.contains(c) {
                    let i = choose|i: int| 0 <= i < text.len() && text[i] == c;
                }
            }
        }
        return Some((false, false, false, false));
    }
    let mut rights = (false, false, false, false);
    let mut i = start;
    proof {
        if text =~= seq!['-'] {
            assert(text.len() == 1 && text[0] == '-');
        }
    }
    while i < end
        invariant
            start <= i <= end <= chars@.len(),
            text == chars@.subrange(start as int, end as int),
            !(text =~= seq!['-']),
            forall|j: int| 0 <= j < i - start ==> is_castling_letter(#[trigger] text[j]),
            rights.0 == text.take(i - start).contains('K'),
            rights.1 == text.take(i - start).contains('Q'),
            rights.2 == text.take(i - start).contains('k'),
            rights.3 == text.take(i - start).contains('q'),
        decreases end - i,
    {
        let c = chars[i];
        proof {
            assert(text[i - start] == c);
            let shorter = text.take(i - start);
            assert(text.take(i - start + 1) =~= shorter.push(c));
            vstd::seq_lib::lemma_seq_contains_after_push(shorter, c, 'K');
            vstd::seq_lib::lemma_seq_contains_after_push(shorter, c, 'Q');
            vstd::seq_lib::lemma_seq_contains_after_push(shorter, c, 'k');
            vstd::seq_lib::lemma_seq_contains_after_push(shorter, c, 'q');
        }
        if c == 'K' {
            rights.0 = true;
        } else if c == 'Q' {
            rights.1 = true;
        } else if c == 'k' {
            rights.2 = true;
        } else if c == 'q' {
            rights.3 = true;
        } else {
            proof {
                assert(!is_castling_letter(text[i - start]));
            }
            return None;
        }
        i += 1;
    }
    proof {
        assert(text.take(end - start) =~= text);
    }
    Some(rights)
}

/// Reads the en-passant field.
fn read_en_passant(chars: &Vec<char>, start: usize, end: usize) -> (r: Option<u64>)
    requires
        start <= end <= chars@.len(),
    ensures
        r == parse_en_passant(chars@.subrange(start as int, end as int)),
{
    let ghost text = chars@.subrange(start as int, end as int);
    if end - start == 1 && chars[start] == '-' {
        proof {
            assert(text =~= seq!['-']);
        }
        return Some(0);
    }
    proof {
        if text =~= seq!['-'] {
            assert(text.len() == 1 && text[0] == '-');
        }
    }
    if end - start != 2 {
        return None;
    }
    proof {
        assert(text[0] == chars@[start as int]);
        assert(text[1] == chars@[start + 1]);
    }
    match (file_from_char(chars[start]), rank_from_char(chars[start + 1])) {
        (Some(x), Some(y)) => Some(1u64 << ((8 * y + x) as u64)),
        _ => None,
    }
}

/// The bitboards of a list of squares are consistent and show those squares.
pub proof fn lemma_boards_from(squares: Seq<int>, n: int)
    requires
        squares.len() == 64,
        squares_ok(squares),
        0 <= n <= 64,
    ensures
        boards_wf(boards_from(squares, n)),
        forall|i: int|
            0 <= i < 64 ==> #[trigger] piece_in(boards_from(squares, n), i) == if 63 - i < n {
                squares[63 - i]
            } else {
                14
            },
    decreases n,
{
    if n <= 0 {
        let z = boards_from(squares, n);
        assert forall|k: int, i: int| 0 <= k < 14 && 0 <= i < 64 implies !#[trigger] mem(z[k], i) by {
            lemma_mem_ops(0, 0, i);
        }
    } else {
        lemma_boards_from(squares, n - 1);
        let b = boards_from(squares, n - 1);
        if squares[n - 1] != 14 {
            assert(piece_in(b, 63 - (n - 1)) == 14);
            lemma_put(b, squares[n - 1], 63 - (n - 1));
        }
    }
}

/// Builds the bitboards of a list of squares.
fn boards_of(squares: &Vec<usize>) -> (bitboards: [u64; 14])
    requires
        squares@.len() == 64,
        squares_ok(as_ints(squares@)),
    ensures
        bitboards@ == boards_from(as_ints(squares@), 64),
{
    let mut bitboards = [0u64;14];
    let ghost list = as_ints(squares@);
    let mut k: usize = 0;
    proof {
        assert(bitboards@ =~= boards_from(list, 0));
    }
    while k < 64
        invariant
            k <= 64,
            squares@.len() == 64,
            list == as_ints(squares@),
            squares_ok(list),
            bitboards@ == boards_from(list, k as int),
        decreases 64 - k,
    {
        let piece = squares[k];
        proof {
            assert(list[k as int] == piece);
        }
        if piece != 14 {
            let i = 63 - k;
            let ghost prev = bitboards@;
            let bit = 1u64 << (i as u64);
            bitboards[piece] = bitboards[piece] | bit;
            bitboards[piece % 2] = bitboards[piece % 2] | bit;
            proof {
                assert(bitboards@ =~= put(prev, piece as int, i as int));
            }
        }
        k += 1;
    }
    bitboards
}

/// The bitboards at the start of a game.
pub open spec fn start_boards() -> Seq<u64> {
    seq![
        0x000000000000ffffu64,
        0xffff000000000000u64,
        0x000000000000ff00u64,
        0x00ff000000000000u64,
        0x0000000000000042u64,
        0x4200000000000000u64,
        0x0000000000000024u64,
        0x2400000000000000u64,
        0x0000000000000081u64,
        0x8100000000000000u64,
        0x0000000000000010u64,
        0x1000000000000000u64,
        0x0000000000000008u64,
        0x0800000000000000u64,
    ]
}

/// The piece on each square at the start of a game.
pub open spec fn start_piece(i: int) -> int {
    let x = i % 8;
    let back = if x == 0 || x == 7 {
        8int
    } else if x == 1 || x == 6 {
        4int
    } else if x == 2 || x == 5 {
        6int
    } else if x == 3 {
        12int
    } else {
        10int
    };
    if i < 8 {
        back
    } else if i < 16 {
        2
    } else if i < 48 {
        14
    } else if i < 56 {
        3
    } else {
        back + 1
    }
}

proof fn bv_start(i: u64)
    by (bit_vector)
    requires
        i < 64,
    ensures
        crate::bits::bit(0x000000000000ffffu64, i) == (i < 16),
        crate::bits::bit(0xffff000000000000u64, i) == (i >= 48),
        crate::bits::bit(0x000000000000ff00u64, i) == (8 <= i && i < 16),
        crate::bits::bit(0x00ff000000000000u64, i) == (48 <= i && i < 56),
        crate::bits::bit(0x0000000000000042u64, i) == (i == 1 || i == 6),
        crate::bits::bit(0x4200000000000000u64, i) == (i == 57 || i == 62),
        crate::bits::bit(0x0000000000000024u64, i) == (i == 2 || i == 5),
        crate::bits::bit(0x2400000000000000u64, i) == (i == 58 || i == 61),
        crate::bits::bit(0x0000000000000081u64, i) == (i == 0 || i == 7),
        crate::bits::bit(0x8100000000000000u64, i) == (i == 56 || i == 63),
        crate::bits::bit(0x0000000000000010u64, i) == (i == 4),
        crate::bits::bit(0x1000000000000000u64, i) == (i == 60),
        crate::bits::bit(0x0000000000000008u64, i) == (i == 3),
        crate::bits::bit(0x0800000000000000u64, i) == (i == 59),
{
}

/// The bitboards at the start of a game are consistent, show the pieces of
/// the starting array, and hold one king for each side.
pub proof fn lemma_start_boards()
    ensures
        boards_wf(start_boards()),
        forall|i: int| 0 <= i < 64 ==> #[trigger] piece_in(start_boards(), i) == start_piece(i),
        is_single(start_boards()[12]),
        is_single(start_boards()[13]),
{
    let b = start_boards();
    assert forall|i: int| 0 <= i < 64 implies #[trigger] piece_in(b, i) == start_piece(i) && (mem(b[0], i)
        <==> crate::position::is_white(piece_in(b, i))) && (mem(b[1], i) <==> crate::position::is_black(
        piece_in(b, i),
    )) && (forall|k: int| 2 <= k < 14 ==> (mem(#[trigger] b[k], i) <==> piece_in(b, i) == k)) by {
        bv_start(i as u64);
    }
    assert forall|i: int| 0 <= i < 64 implies (mem(b[12], i) <==> i == 3) by {
        bv_start(i as u64);
    }
    assert forall|i: int| 0 <= i < 64 implies (mem(b[13], i) <==> i == 59) by {
        bv_start(i as u64);
    }
    crate::make_move::lemma_single_from_members(b[12], 3);
    crate::make_move::lemma_single_from_members(b[13], 59);
}

/// The bitboard has exactly one member.
fn is_one_square(b: u64) -> (r: bool)
    ensures
        r == is_single(b),
{
    if b == 0 {
        return false;
    }
    let mut rest = b;
    let sq = pop_lsb(&mut rest);
    proof {
        lemma_empty(rest);
        lemma_lsb(rest);
        if rest != 0 {
            assert(mem(b, lsb(rest)));
        }
    }
    rest == 0
}

/// The text between `start` and `end` is the single character `c`.
fn is_text(chars: &Vec<char>, start: usize, end: usize, c: char) -> (r: bool)
    requires
        start <= end <= chars@.len(),
    ensures
        r == (chars@.subrange(start as int, end as int) =~= seq![c]),
{
    let ghost text = chars@.subrange(start as int, end as int);
    proof {
        if text =~= seq![c] {
            assert(text.len() == 1 && text[0] == c);
        }
        if end - start == 1 {
            assert(text[0] == chars@[start as int]);
        }
    }
    end - start == 1 && chars[start] == c
}

/// Where the first five fields of a record end, if it has six fields.
fn field_ends(chars: &Vec<char>) -> (r: Option<(usize, usize, usize, usize, usize)>)
    ensures
        match fen_fields(chars@) {
            None => r is None,
            Some(f) => r is Some && ({
                let e = r->0;
                let s = chars@;
                &&& e.0 < e.1 < e.2 < e.3 < e.4 < s.len()
                &&& f.placement == s.subrange(0, e.0 as int)
                &&& f.side == s.subrange(e.0 + 1, e.1 as int)
                &&& f.castling == s.subrange(e.1 + 1, e.2 as int)
                &&& f.en_passant == s.subrange(e.2 + 1, e.3 as int)
                &&& f.halfmove == s.subrange(e.3 + 1, e.4 as int)
                &&& f.fullmove == s.subrange(e.4 + 1, s.len() as int)
            }),
        },
{
    let n = chars.len();
    proof {
        assert(chars@.subrange(0, n as int) =~= chars@);
    }
    let e0 = next_part(chars, 0, n, ' ');
    if e0 >= n {
        return None;
    }
    let e1 = next_part(chars, e0 + 1, n, ' ');
    if e1 >= n {
        return None;
    }
    let e2 = next_part(chars, e1 + 1, n, ' ');
    if e2 >= n {
        return None;
    }
    let e3 = next_part(chars, e2 + 1, n, ' ');
    if e3 >= n {
        return None;
    }
    let e4 = next_part(chars, e3 + 1, n, ' ');
    if e4 >= n {
        return None;
    }
    let e5 = next_part(chars, e4 + 1, n, ' ');
    if e5 < n {
        return None;
    }
    Some((e0, e1, e2, e3, e4))
}

impl<'a> Board<'a> {
    /// The key of the board's position, computed from scratch.
    pub fn compute_key(&self) -> (h: u64)
        requires
            boards_wf(self@.bb),
            self.tables.wf(),
        ensures
            h == self.tables.keys.key_of(self@),
    {
        let keys = &self.tables.keys;
        let mut pieces: u64 = 0;
        let mut sq: usize = 0;
        while sq < 64
            invariant
                sq <= 64,
                boards_wf(self@.bb),
                self.tables.wf(),
                keys == &self.tables.keys,
                pieces == keys.pieces_key(self@.bb, sq as int),
            decreases 64 - sq,
        {
            let piece = self.piece_on(sq);
            if piece != 14 {
                pieces = pieces ^ keys.piece_key(sq, piece);
            } else {
                proof {
                    crate::zobrist::lemma_xor_basics(pieces);
                }
            }
            sq += 1;
        }
        let state = (if self.white_to_move {
            0
        } else {
            keys.black_to_move
        }) ^ (if self.meta.white_king_castle {
            keys.white_king_castle
        } else {
            0
        }) ^ (if self.meta.white_queen_castle {
            keys.white_queen_castle
        } else {
            0
        }) ^ (if self.meta.black_king_castle {
            keys.black_king_castle
        } else {
            0
        }) ^ (if self.meta.black_queen_castle {
            keys.black_queen_castle
        } else {
            0
        }) ^ keys.en_passant_key(self.meta.en_passant_bitboard);
        pieces ^ state
    }

    /// The board at the start of a game.
    pub fn default(tables: &'a Tables) -> (board: Self)
        requires
            tables.wf(),
        ensures
            board.wf(),
            board.tables == tables,
            board@.bb == start_boards(),
            board@.white_to_move,
            board@.white_king_castle && board@.white_queen_castle,
            board@.black_king_castle && board@.black_queen_castle,
            board@.ep == 0,
            board@.halfmove == 0,
            board@.fullmove == 1,
            board@.history == Seq::<u64>::empty(),
    {
        let mut board = Board {
            tables,
            bitboards: [
                0x000000000000ffff,
                0xffff000000000000,
                0x000000000000ff00,
                0x00ff000000000000,
                0x0000000000000042,
                0x4200000000000000,
                0x0000000000000024,
                0x2400000000000000,
                0x0000000000000081,
                0x8100000000000000,
                0x0000000000000010,
                0x1000000000000000,
                0x0000000000000008,
                0x0800000000000000,
            ],
            white_to_move: true,
            fullmove_counter: 1,
            meta: BoardMeta {
                white_king_castle: true,
                white_queen_castle: true,
                black_king_castle: true,
                black_queen_castle: true,
                en_passant_bitboard: 0,
                halfmove_clock: 0,
                hash: 0,
            },
            previous_hashes: Vec::new(),
        };
        proof {
            lemma_start_boards();
            assert(board.bitboards@ =~= start_boards());
        }
        let ghost unkeyed = board@;
        let hash = board.compute_key();
        board.meta.hash = hash;
        proof {
            assert(board@ == Position { hash, ..unkeyed });
            assert(tables.keys.key_of(board@) == tables.keys.key_of(unkeyed));
        }
        board
    }

    /// The position keeps the invariants that do not follow from the way the
    /// bitboards were built.
    fn position_is_valid(&self) -> (r: bool)
        requires
            boards_wf(self@.bb),
            self@.halfmove <= 100,
            self@.fullmove >= 1,
        ensures
            r == self@.wf(),
    {
        let ghost p = self@;
        if !is_one_square(self.bitboards[12]) || !is_one_square(self.bitboards[13]) {
            return false;
        }
        let ep = self.meta.en_passant_bitboard;
        if ep != 0 {
            if !is_one_square(ep) {
                return false;
            }
            let e = get_lsb(ep);
            if self.piece_on(e) != 14 {
                return false;
            }
            if self.white_to_move {
                if e / 8 != 5 || self.piece_on(e - 8) != 3 {
                    return false;
                }
            } else {
                if e / 8 != 2 || self.piece_on(e + 8) != 2 {
                    return false;
                }
            }
        }
        let white_king_home = self.piece_on(3) == 12;
        let black_king_home = self.piece_on(59) == 13;
        if self.meta.white_king_castle && !(white_king_home && self.piece_on(0) == 8) {
            return false;
        }
        if self.meta.white_queen_castle && !(white_king_home && self.piece_on(7) == 8) {
            return false;
        }
        if self.meta.black_king_castle && !(black_king_home && self.piece_on(56) == 9) {
            return false;
        }
        if self.meta.black_queen_castle && !(black_king_home && self.piece_on(63) == 9) {
            return false;
        }
        true
    }

    /// Reads a board from a record in Forsyth-Edwards notation, with no
    /// earlier positions.
    pub fn from_fen(fen: &str, tables: &'a Tables) -> (r: Result<Self, FenError>)
        requires
            tables.wf(),
        ensures
            match parse_fen(fen@, &tables.keys, Seq::empty()) {
                Ok(p) => r is Ok && r->Ok_0@ == p && r->Ok_0.wf() && r->Ok_0.tables == tables,
                Err(e) => r == Err::<Self, FenError>(e),
            },
    {
        Self::from_fen_saved(fen, Vec::new(), tables)
    }

    /// Reads a board from a record in Forsyth-Edwards notation; the keys of
    /// the earlier positions come with it.
    pub fn from_fen_saved(fen: &str, previous_hashes: Vec<u64>, tables: &'a Tables) -> (r: Result<
        Self,
        FenError,
    >)
        requires
            tables.wf(),
        ensures
            match parse_fen(fen@, &tables.keys, previous_hashes@) {
                Ok(p) => r is Ok && r->Ok_0@ == p && r->Ok_0.wf() && r->Ok_0.tables == tables,
                Err(e) => r == Err::<Self, FenError>(e),
            },
    {
        let chars = chars_of(fen);
        let n = chars.len();
        let ghost s = chars@;
        let (e0, e1, e2, e3, e4) = match field_ends(&chars) {
            Some(ends) => ends,
            None => {
                return Err(FenError::Fields);
            },
        };
        let ghost fields = fen_fields(s)->0;
        let squares = match parse_placement(&chars, 0, e0) {
            Some(squares) => squares,
            None => {
                return Err(FenError::Placement);
            },
        };
        let white_to_move = is_text(&chars, e0 + 1, e1, 'w');
        let black_to_move = is_text(&chars, e0 + 1, e1, 'b');
        if !white_to_move && !black_to_move {
            return Err(FenError::SideToMove);
        }
        let rights = match parse_castling(&chars, e1 + 1, e2) {
            Some(rights) => rights,
            None => {
                return Err(FenError::Castling);
            },
        };
        let ep = match read_en_passant(&chars, e2 + 1, e3) {
            Some(ep) => ep,
            None => {
                return Err(FenError::EnPassant);
            },
        };
        let halfmove = match parse_count(&chars, e3 + 1, e4, 100) {
            Some(v) => v,
            None => {
                return Err(FenError::HalfmoveClock);
            },
        };
        let fullmove = match parse_count(&chars, e4 + 1, n, 0xffff_ffff) {
            Some(v) => v,
            None => {
                return Err(FenError::FullmoveNumber);
            },
        };
        if fullmove < 1 {
            return Err(FenError::FullmoveNumber);
        }
        assert(halfmove <= 100);
        assert(fullmove <= u32::MAX);
        proof {
            lemma_boards_from(as_ints(squares@), 64);
        }
        let mut board = Board {
            tables,
            bitboards: boards_of(&squares),
            white_to_move,
            fullmove_counter: fullmove as u32,
            meta: BoardMeta {
                white_king_castle: rights.0,
                white_queen_castle: rights.1,
                black_king_castle: rights.2,
                black_queen_castle: rights.3,
                en_passant_bitboard: ep,
                halfmove_clock: halfmove as u8,
                hash: 0,
            },
            previous_hashes,
        };
        if !board.position_is_valid() {
            return Err(FenError::Position);
        }
        let ghost unkeyed = board@;
        let hash = board.compute_key();
        board.meta.hash = hash;
        proof {
            assert(board@ == Position { hash, ..unkeyed });
            assert(tables.keys.key_of(board@) == tables.keys.key_of(unkeyed));
        }
        Ok(board)
    }
}

/// The letter of a piece: upper case for White, lower case for Black.
pub open spec fn letter_of_piece(piece: int) -> char {
    if piece == 2 {
        'P'
    } else if piece == 3 {
        'p'
    } else if piece == 4 {
        'N'
    } else if piece == 5 {
        'n'
    } else if piece == 6 {
        'B'
    } else if piece == 7 {
        'b'
    } else if piece == 8 {
        'R'
    } else if piece == 9 {
        'r'
    } else if piece == 10 {
        'Q'
    } else if piece == 11 {
        'q'
    } else if piece == 12 {
        'K'
    } else {
        'k'
    }
}

/// The decimal digit of a number below ten.
pub open spec fn digit_char(d: int) -> char {
    if d == 0 {
        '0'
    } else if d == 1 {
        '1'
    } else if d == 2 {
        '2'
    } else if d == 3 {
        '3'
    } else if d == 4 {
        '4'
    } else if d == 5 {
        '5'
    } else if d == 6 {
        '6'
    } else if d == 7 {
        '7'
    } else if d == 8 {
        '8'
    } else {
        '9'
    }
}

/// The digit of a run of empty squares, or nothing for no run.
pub open spec fn run_text(run: int) -> Seq<char> {
    if run > 0 {
        seq![digit_char(run)]
    } else {
        Seq::empty()
    }
}

/// The text of the rank `y` (0 is rank 8) from the file `x` (0 is file A)
/// on, after `run` empty squares that are not yet written.
pub open spec fn rank_text(bb: Seq<u64>, y: int, x: int, run: int) -> Seq<char>
    decreases 8 - x,
{
    if x >= 8 {
        run_text(run)
    } else {
        let piece = piece_in(bb, 63 - (8 * y + x));
        if piece == 14 {
            rank_text(bb, y, x + 1, run + 1)
        } else {
            run_text(run) + seq![letter_of_piece(piece)] + rank_text(bb, y, x + 1, 0)
        }
    }
}

/// The text of the ranks from `y` on, with `/` between them.
pub open spec fn placement_text(bb: Seq<u64>, y: int) -> Seq<char>
    decreases 8 - y,
{
    if y >= 7 {
        rank_text(bb, 7, 0, 0)
    } else {
        rank_text(bb, y, 0, 0) + seq!['/'] + placement_text(bb, y + 1)
    }
}

/// The decimal digits of a number.
pub open spec fn decimal(n: int) -> Seq<char>
    decreases n,
{
    if n < 10 {
        seq![digit_char(n)]
    } else {
        decimal(n / 10).push(digit_char(n % 10))
    }
}

/// The letter of a right that is held, or nothing.
pub open spec fn right_text(held: bool, letter: char) -> Seq<char> {
    if held {
        seq![letter]
    } else {
        Seq::empty()
    }
}

/// The castling field: the letters of the rights held, or `-`.
pub open spec fn castling_text(p: Position) -> Seq<char> {
    let t = right_text(p.white_king_castle, 'K') + right_text(p.white_queen_castle, 'Q') + right_text(
        p.black_king_castle,
        'k',
    ) + right_text(p.black_queen_castle, 'q');
    if t.len() == 0 {
        seq!['-']
    } else {
        t
    }
}

/// The en-passant field: the name of the target, or `-`.
pub open spec fn en_passant_text(ep: u64) -> Seq<char> {
    if ep == 0 {
        seq!['-']
    } else {
        square_name(lsb(ep))
    }
}

/// The record of a position in Forsyth-Edwards notation.
pub open spec fn fen_text(p: Position) -> Seq<char> {
    placement_text(p.bb, 0) + seq![' '] + seq![
        if p.white_to_move {
            'w'
        } else {
            'b'
        },
    ] + seq![' '] + castling_text(p) + seq![' '] + en_passant_text(p.ep) + seq![' '] + decimal(
        p.halfmove,
    ) + seq![' '] + decimal(p.fullmove)
}

fn piece_letter(piece: usize) -> (s: &'static str)
    requires
        2 <= piece < 14,
    ensures
        s@ == seq![letter_of_piece(piece as int)],
{
    let s = if piece == 2 {
        "P"
    } else if piece == 3 {
        "p"
    } else if piece == 4 {
        "N"
    } else if piece == 5 {
        "n"
    } else if piece == 6 {
        "B"
    } else if piece == 7 {
        "b"
    } else if piece == 8 {
        "R"
    } else if piece == 9 {
        "r"
    } else if piece == 10 {
        "Q"
    } else if piece == 11 {
        "q"
    } else if piece == 12 {
        "K"
    } else {
        "k"
    };
    proof {
        reveal_strlit("P");
        reveal_strlit("p");
        reveal_strlit("N");
        reveal_strlit("n");
        reveal_strlit("B");
        reveal_strlit("b");
        reveal_strlit("R");
        reveal_strlit("r");
        reveal_strlit("Q");
        reveal_strlit("q");
        reveal_strlit("K");
        reveal_strlit("k");
        assert(s@ =~= seq![letter_of_piece(piece as int)]);
    }
    s
}

fn digit_text(d: usize) -> (s: &'static str)
    requires
        d < 10,
    ensures
        s@ == seq![digit_char(d as int)],
{
    let s = if d == 0 {
        "0"
    } else if d == 1 {
        "1"
    } else if d == 2 {
        "2"
    } else if d == 3 {
        "3"
    } else if d == 4 {
        "4"
    } else if d == 5 {
        "5"
    } else if d == 6 {
        "6"
    } else if d == 7 {
        "7"
    } else if d == 8 {
        "8"
    } else {
        "9"
    };
    proof {
        reveal_strlit("0");
        reveal_strlit("1");
        reveal_strlit("2");
        reveal_strlit("3");
        reveal_strlit("4");
        reveal_strlit("5");
        reveal_strlit("6");
        reveal_strlit("7");
        reveal_strlit("8");
        reveal_strlit("9");
        assert(s@ =~= seq![digit_char(d as int)]);
    }
    s
}

/// Appends the decimal digits of `n`.
pub fn append_decimal(s: &mut String, n: u64)
    ensures
        final(s)@ == old(s)@ + decimal(n as int),
    decreases n,
{
    let ghost before = s@;
    if n >= 10 {
        append_decimal(s, n / 10);
    }
    s.append(digit_text((n % 10) as usize));
    proof {
        if n >= 10 {
            assert(s@ =~= before + decimal(n as int));
        } else {
            assert(s@ =~= before + decimal(n as int));
        }
    }
}

impl<'a> Board<'a> {
    /// Appends the text of the rank `y`, where 0 is rank 8.
    fn append_rank(&self, s: &mut String, y: usize)
        requires
            boards_wf(self@.bb),
            y < 8,
        ensures
            final(s)@ == old(s)@ + rank_text(self@.bb, y as int, 0, 0),
    {
        let ghost before = s@;
        let ghost bb = self@.bb;
        let mut empty_in_a_row: usize = 0;
        let mut x: usize = 0;
        proof {
            assert(s@ + rank_text(bb, y as int, 0, 0) =~= before + rank_text(bb, y as int, 0, 0));
        }
        while x < 8
            invariant
                x <= 8,
                y < 8,
                empty_in_a_row <= x,
                bb == self@.bb,
                boards_wf(bb),
                s@ + rank_text(bb, y as int, x as int, empty_in_a_row as int) == before + rank_text(
                    bb,
                    y as int,
                    0,
                    0,
                ),
            decreases 8 - x,
        {
            let i = 63 - (y * 8 + x);
            let piece = self.piece_on(i);
            let ghost prev = s@;
            let ghost run = empty_in_a_row as int;
            if piece == 14 {
                empty_in_a_row += 1;
            } else {
                if empty_in_a_row != 0 {
                    s.append(digit_text(empty_in_a_row));
                    empty_in_a_row = 0;
                }
                s.append(piece_letter(piece));
                proof {
                    let next = rank_text(bb, y as int, x + 1, 0);
                    assert(s@ + next =~= prev + (run_text(run) + seq![letter_of_piece(piece as int)]
                        + next));
                }
            }
            x += 1;
        }
        if empty_in_a_row != 0 {
            s.append(digit_text(empty_in_a_row));
        }
        proof {
            assert(s@ =~= before + rank_text(bb, y as int, 0, 0));
        }
    }

    /// Appends the piece placement.
    fn append_placement(&self, s: &mut String)
        requires
            boards_wf(self@.bb),
        ensures
            final(s)@ == old(s)@ + placement_text(self@.bb, 0),
    {
        let ghost p = self@;
        let ghost before = s@;
        proof {
            reveal_strlit("/");
        }
        let mut y: usize = 0;
        while y < 7
            invariant
                y <= 7,
                p == self@,
                boards_wf(p.bb),
                "/"@ == seq!['/'],
                s@ + placement_text(p.bb, y as int) == before + placement_text(p.bb, 0),
            decreases 7 - y,
        {
            let ghost prev = s@;
            self.append_rank(s, y);
            s.append("/");
            proof {
                assert(s@ + placement_text(p.bb, y + 1) =~= prev + (rank_text(p.bb, y as int, 0, 0)
                    + seq!['/'] + placement_text(p.bb, y + 1)));
            }
            y += 1;
        }
        self.append_rank(s, 7);
    }

    /// Appends the castling field.
    fn append_castling(&self, s: &mut String)
        ensures
            final(s)@ == old(s)@ + castling_text(self@),
    {
        let ghost p = self@;
        let ghost before = s@;
        proof {
            reveal_strlit("K");
            reveal_strlit("Q");
            reveal_strlit("k");
            reveal_strlit("q");
            reveal_strlit("-");
        }
        let any = self.meta.white_king_castle || self.meta.white_queen_castle
            || self.meta.black_king_castle || self.meta.black_queen_castle;
        if self.meta.white_king_castle {
            s.append("K");
        }
        if self.meta.white_queen_castle {
            s.append("Q");
        }
        if self.meta.black_king_castle {
            s.append("k");
        }
        if self.meta.black_queen_castle {
            s.append("q");
        }
        if !any {
            s.append("-");
        }
        assert(s@ =~= before + castling_text(p));
    }

    /// Appends the en-passant field.
    fn append_en_passant(&self, s: &mut String)
        requires
            self@.ep == 0 || is_single(self@.ep),
        ensures
            final(s)@ == old(s)@ + en_passant_text(self@.ep),
    {
        let ghost before = s@;
        proof {
            reveal_strlit("-");
        }
        let ep = self.meta.en_passant_bitboard;
        if ep == 0 {
            s.append("-");
        } else {
            let name = crate::chess_move::bitboard_to_square(ep);
            match name {
                Some(name) => {
                    s.append(name.as_str());
                },
                None => {},
            }
        }
        assert(s@ =~= before + en_passant_text(ep));
    }

    /// Returns a fen string of the current position. Example fen:
    /// rnbqkbnr/pppppppp/8/8/8/8/PPPPPPPP/RNBQKBNR w KQkq - 0 1
    pub fn to_fen(&self) -> (s: String)
        requires
            self.wf(),
        ensures
            s@ == fen_text(self@),
    {
        let ghost p = self@;
        let mut s = String::from_str("");
        proof {
            reveal_strlit("");
            reveal_strlit(" ");
            reveal_strlit("w");
            reveal_strlit("b");
        }
        self.append_placement(&mut s);
        s.append(" ");
        s.append(if self.white_to_move {
            "w"
        } else {
            "b"
        });
        s.append(" ");
        self.append_castling(&mut s);
        s.append(" ");
        self.append_en_passant(&mut s);
        s.append(" ");
        append_decimal(&mut s, self.meta.halfmove_clock as u64);
        s.append(" ");
        append_decimal(&mut s, self.fullmove_counter as u64);
        assert(s@ =~= fen_text(p));
        s
    }
}

} // verus!



