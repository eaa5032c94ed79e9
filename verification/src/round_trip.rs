//! Writing a position as a record and reading the record gives the
//! position back.
use vstd::prelude::*;
use crate::bits::lsb;
use crate::chess_move::{is_single, lemma_square_name_round_trip, square_name};
use crate::fen::{
    boards_from, castling_ok, castling_text, decimal, digit_char, digit_value, empties,
    en_passant_text, fen_fields, fen_text, head, is_castling_letter, lemma_boards_from,
    lemma_index_of, letter_of_piece, number, parse_en_passant, parse_fen, parse_number,
    piece_of_letter, placement_squares, placement_text, rank_text, right_text, row_squares,
    run_text, squares_ok, tail, FenFields,
};
use crate::make_move::{lemma_single_from_members, lemma_single_members};
use crate::position::{boards_wf, lemma_boards_ext, piece_in, Position};
use crate::zobrist::HashTable;

verus! {

/// The character `c` does not occur in `s`.
pub open spec fn lacks(s: Seq<char>, c: char) -> bool {
    forall|i: int| 0 <= i < s.len() ==> #[trigger] s[i] != c
}

/// A text without `c`, then `c`, then more text: the head is the first
/// text and the tail the rest.
pub proof fn lemma_split(a: Seq<char>, c: char, rest: Seq<char>)
    requires
        lacks(a, c),
    ensures
        head(a + seq![c] + rest, c) == a,
        tail(a + seq![c] + rest, c) == Some(rest),
{
    reveal(head);
    reveal(tail);
    let s = a + seq![c] + rest;
    lemma_index_of(s, c, a.len() as int);
    assert(s.take(a.len() as int) =~= a);
    assert(s.skip(a.len() as int + 1) =~= rest);
}

/// A text without `c` is its own head and has no tail.
pub proof fn lemma_no_split(a: Seq<char>, c: char)
    requires
        lacks(a, c),
    ensures
        head(a, c) == a,
        tail(a, c) is None,
{
    reveal(head);
    reveal(tail);
    lemma_index_of(a, c, a.len() as int);
    assert(a.take(a.len() as int) =~= a);
}

/// A character of a piece placement: a piece letter or a digit.
pub open spec fn is_placement_char(c: char) -> bool {
    piece_of_letter(c) is Some || digit_value(c) is Some
}

/// The text of a rank is made of piece letters and digits.
pub proof fn lemma_rank_text_chars(bb: Seq<u64>, y: int, x: int, run: int)
    requires
        0 <= run <= x <= 8,
    ensures
        forall|i: int|
            0 <= i < rank_text(bb, y, x, run).len() ==> is_placement_char(
                #[trigger] rank_text(bb, y, x, run)[i],
            ),
    decreases 8 - x,
{
    let text = rank_text(bb, y, x, run);
    lemma_digit_chars(run);
    if x < 8 {
        let piece = piece_in(bb, 63 - (8 * y + x));
        if piece == 14 {
            lemma_rank_text_chars(bb, y, x + 1, run + 1);
            let same = rank_text(bb, y, x + 1, run + 1);
            assert forall|i: int| 0 <= i < text.len() implies is_placement_char(#[trigger] text[i]) by {
                assert(is_placement_char(same[i]));
            }
        } else {
            lemma_rank_text_chars(bb, y, x + 1, 0);
            assert(piece_of_letter(letter_of_piece(piece)) == Some(piece));
            let a = run_text(run);
            let rest = rank_text(bb, y, x + 1, 0);
            assert forall|i: int| 0 <= i < text.len() implies is_placement_char(#[trigger] text[i]) by {
                if i < a.len() {
                    assert(text[i] == a[i]);
                } else if i == a.len() {
                    assert(text[i] == letter_of_piece(piece));
                } else {
                    assert(text[i] == rest[i - a.len() - 1]);
                    assert(is_placement_char(rest[i - a.len() - 1]));
                }
            }
        }
    } else {
        assert forall|i: int| 0 <= i < text.len() implies is_placement_char(#[trigger] text[i]) by {
            assert(text[i] == digit_char(run));
        }
    }
}

/// The digit of a number below ten stands for that number.
pub proof fn lemma_digit_chars(d: int)
    ensures
        0 <= d <= 9 ==> digit_value(digit_char(d)) == Some(d) && piece_of_letter(digit_char(d)) is None
            && digit_char(d) != ' ' && digit_char(d) != '/',
{
}

/// The pieces of the rank `y` from the file `x` on.
pub open spec fn rank_pieces(bb: Seq<u64>, y: int, x: int) -> Seq<int> {
    Seq::new((8 - x) as nat, |j: int| piece_in(bb, 63 - (8 * y + x + j)))
}

/// Reading the text of a rank gives the pieces of the rank.
pub proof fn lemma_row_round_trip(bb: Seq<u64>, y: int, x: int, run: int, acc: Seq<int>)
    requires
        0 <= y < 8,
        0 <= run <= x <= 8,
        acc.len() + run == x,
    ensures
        row_squares(rank_text(bb, y, x, run), acc) == Some(acc + empties(run) + rank_pieces(bb, y, x)),
    decreases 8 - x,
{
    let text = rank_text(bb, y, x, run);
    let target = acc + empties(run) + rank_pieces(bb, y, x);
    if x >= 8 {
        if run > 0 {
            assert(text.drop_first() =~= Seq::<char>::empty());
            assert(row_squares(text.drop_first(), acc + empties(run)) == Some(acc + empties(run)));
        }
        assert(target =~= acc + empties(run));
    } else {
        let piece = piece_in(bb, 63 - (8 * y + x));
        if piece == 14 {
            lemma_row_round_trip(bb, y, x + 1, run + 1, acc);
            assert(acc + empties(run + 1) + rank_pieces(bb, y, x + 1) =~= target);
        } else {
            let rest = rank_text(bb, y, x + 1, 0);
            let filled = acc + empties(run);
            lemma_row_round_trip(bb, y, x + 1, 0, filled.push(piece));
            assert(filled.push(piece) + empties(0) + rank_pieces(bb, y, x + 1) =~= target);
            let after_run = seq![letter_of_piece(piece)] + rest;
            assert(after_run.drop_first() =~= rest);
            assert(row_squares(after_run, filled) == row_squares(rest, filled.push(piece)));
            if run > 0 {
                assert(text.drop_first() =~= after_run);
            } else {
                assert(text =~= after_run);
                assert(filled =~= acc);
            }
        }
    }
}

/// The pieces of the ranks from `y` on, from A8 by ranks down to H1.
pub open spec fn pieces_from(bb: Seq<u64>, y: int) -> Seq<int> {
    Seq::new((64 - 8 * y) as nat, |k: int| piece_in(bb, 63 - (8 * y + k)))
}

/// Reading the text of the placement gives the pieces of the board.
pub proof fn lemma_placement_round_trip(bb: Seq<u64>, y: int)
    requires
        0 <= y <= 7,
    ensures
        placement_squares(placement_text(bb, y), (8 - y) as nat) == Some(pieces_from(bb, y)),
    decreases 7 - y,
{
    let row_text = rank_text(bb, y, 0, 0);
    lemma_rank_text_chars(bb, y, 0, 0);
    assert(lacks(row_text, '/'));
    lemma_row_round_trip(bb, y, 0, 0, Seq::empty());
    let row = rank_pieces(bb, y, 0);
    assert(Seq::<int>::empty() + empties(0) + row =~= row);
    if y >= 7 {
        lemma_no_split(row_text, '/');
        assert(row =~= pieces_from(bb, y));
    } else {
        let rest = placement_text(bb, y + 1);
        lemma_split(row_text, '/', rest);
        lemma_placement_round_trip(bb, y + 1);
        assert(row + pieces_from(bb, y + 1) =~= pieces_from(bb, y));
    }
}

/// The text of the placement has no space.
pub proof fn lemma_placement_text_chars(bb: Seq<u64>, y: int)
    requires
        0 <= y <= 7,
    ensures
        lacks(placement_text(bb, y), ' '),
    decreases 7 - y,
{
    lemma_rank_text_chars(bb, y, 0, 0);
    if y < 7 {
        lemma_placement_text_chars(bb, y + 1);
    }
}

/// The bitboards of the pieces of consistent bitboards are those bitboards.
pub proof fn lemma_boards_round_trip(bb: Seq<u64>)
    requires
        boards_wf(bb),
    ensures
        boards_from(pieces_from(bb, 0), 64) == bb,
{
    let squares = pieces_from(bb, 0);
    assert(squares_ok(squares));
    lemma_boards_from(squares, 64);
    lemma_boards_ext(boards_from(squares, 64), bb);
}

/// Reading one more digit multiplies by ten and adds the digit.
pub proof fn lemma_number_push(s: Seq<char>, acc: int, d: int)
    requires
        0 <= d <= 9,
    ensures
        number(s.push(digit_char(d)), acc) == match number(s, acc) {
            Some(v) => Some(10 * v + d),
            None => None,
        },
    decreases s.len(),
{
    let t = s.push(digit_char(d));
    lemma_digit_chars(d);
    if s.len() == 0 {
        assert(t[0] == digit_char(d));
        assert(t.drop_first() =~= Seq::<char>::empty());
        assert(number(t.drop_first(), 10 * acc + d) == Some(10 * acc + d));
    } else {
        assert(t[0] == s[0]);
        assert(t.drop_first() =~= s.drop_first().push(digit_char(d)));
        match digit_value(s[0]) {
            Some(first) => {
                lemma_number_push(s.drop_first(), 10 * acc + first, d);
            },
            None => {},
        }
    }
}

/// Reading the decimal digits of a number gives the number.
pub proof fn lemma_decimal_round_trip(n: int)
    requires
        0 <= n,
    ensures
        parse_number(decimal(n)) == Some(n),
        lacks(decimal(n), ' '),
    decreases n,
{
    lemma_digit_chars(n % 10);
    if n < 10 {
        let t = decimal(n);
        assert(t[0] == digit_char(n));
        assert(t.drop_first() =~= Seq::<char>::empty());
        assert(number(t.drop_first(), n) == Some(n));
        assert(number(t, 0) == Some(n));
    } else {
        lemma_decimal_round_trip(n / 10);
        lemma_number_push(decimal(n / 10), 0, n % 10);
        let a = decimal(n / 10);
        let t = decimal(n);
        assert forall|i: int| 0 <= i < t.len() implies #[trigger] t[i] != ' ' by {
            if i < a.len() {
                assert(t[i] == a[i]);
            }
        }
    }
}

/// Reading the castling field gives the rights back.
pub proof fn lemma_castling_round_trip(p: Position)
    ensures
        castling_ok(castling_text(p)),
        lacks(castling_text(p), ' '),
        castling_text(p).contains('K') == p.white_king_castle,
        castling_text(p).contains('Q') == p.white_queen_castle,
        castling_text(p).contains('k') == p.black_king_castle,
        castling_text(p).contains('q') == p.black_queen_castle,
{
    let a = right_text(p.white_king_castle, 'K');
    let b = right_text(p.white_queen_castle, 'Q');
    let c = right_text(p.black_king_castle, 'k');
    let d = right_text(p.black_queen_castle, 'q');
    let t = a + b + c + d;
    let text = castling_text(p);
    assert forall|i: int| 0 <= i < t.len() implies is_castling_letter(#[trigger] t[i]) by {}
    assert forall|x: char| #[trigger] text.contains(x) <==> ((x == 'K' && p.white_king_castle) || (x
        == 'Q' && p.white_queen_castle) || (x == 'k' && p.black_king_castle) || (x == 'q'
        && p.black_queen_castle) || (x == '-' && t.len() == 0)) by {
        if text.contains(x) {
            let i = choose|i: int| 0 <= i < text.len() && text[i] == x;
        }
        if p.white_king_castle {
            assert(text[0] == 'K');
        }
        if p.white_queen_castle {
            assert(text[a.len() as int] == 'Q');
        }
        if p.black_king_castle {
            assert(text[(a.len() + b.len()) as int] == 'k');
        }
        if p.black_queen_castle {
            assert(text[(a.len() + b.len() + c.len()) as int] == 'q');
        }
        if t.len() == 0 {
            assert(text[0] == '-');
        }
    }
    if t.len() == 0 {
        assert(text =~= seq!['-']);
    } else {
        assert(text == t);
    }
}

/// Reading the en-passant field gives the target back.
pub proof fn lemma_en_passant_round_trip(ep: u64)
    requires
        ep == 0 || is_single(ep),
    ensures
        parse_en_passant(en_passant_text(ep)) == Some(ep),
        lacks(en_passant_text(ep), ' '),
{
    if ep != 0 {
        lemma_single_members(ep);
        let e = lsb(ep);
        lemma_square_name_round_trip(e);
        lemma_single_from_members(ep, e);
        assert(square_name(e).len() == 2);
    }
}

/// The six fields of the record of a position.
pub open spec fn fields_of(p: Position) -> FenFields {
    FenFields {
        placement: placement_text(p.bb, 0),
        side: seq![
            if p.white_to_move {
                'w'
            } else {
                'b'
            },
        ],
        castling: castling_text(p),
        en_passant: en_passant_text(p.ep),
        halfmove: decimal(p.halfmove),
        fullmove: decimal(p.fullmove),
    }
}

/// A text of five fields without spaces, with a space after each, and a
/// sixth: the fields are those six.
pub proof fn lemma_six_fields(f: FenFields)
    requires
        lacks(f.placement, ' '),
        lacks(f.side, ' '),
        lacks(f.castling, ' '),
        lacks(f.en_passant, ' '),
        lacks(f.halfmove, ' '),
        lacks(f.fullmove, ' '),
    ensures
        fen_fields(
            f.placement + seq![' '] + (f.side + seq![' '] + (f.castling + seq![' '] + (f.en_passant
                + seq![' '] + (f.halfmove + seq![' '] + f.fullmove)))),
        ) == Some(f),
{
    let sp = seq![' '];
    let s5 = f.fullmove;
    let s4 = f.halfmove + sp + s5;
    let s3 = f.en_passant + sp + s4;
    let s2 = f.castling + sp + s3;
    let s1 = f.side + sp + s2;
    lemma_split(f.placement, ' ', s1);
    lemma_split(f.side, ' ', s2);
    lemma_split(f.castling, ' ', s3);
    lemma_split(f.en_passant, ' ', s4);
    lemma_split(f.halfmove, ' ', s5);
    lemma_no_split(s5, ' ');
}

/// Joining texts does not depend on the grouping.
pub proof fn lemma_shift(x: Seq<char>, a: Seq<char>, b: Seq<char>, r: Seq<char>)
    ensures
        ((x + a) + b) + r == x + ((a + b) + r),
{
    assert(((x + a) + b) + r =~= x + ((a + b) + r));
}

/// The record of a position is its six fields with a space after each of
/// the first five.
pub proof fn lemma_fen_text_shape(p: Position)
    ensures
        ({
            let f = fields_of(p);
            fen_text(p) == f.placement + seq![' '] + (f.side + seq![' '] + (f.castling + seq![' '] + (
            f.en_passant + seq![' '] + (f.halfmove + seq![' '] + f.fullmove))))
        }),
{
    let f = fields_of(p);
    let sp = seq![' '];
    let x1 = f.placement + sp;
    let t2 = x1 + f.side + sp;
    let t4 = t2 + f.castling + sp;
    let t6 = t4 + f.en_passant + sp;
    let r4 = f.halfmove + sp + f.fullmove;
    let r3 = f.en_passant + sp + r4;
    let r2 = f.castling + sp + r3;
    let r1 = f.side + sp + r2;
    assert(fen_text(p) == t6 + f.halfmove + sp + f.fullmove);
    lemma_shift(t6, f.halfmove, sp, f.fullmove);
    lemma_shift(t4, f.en_passant, sp, r4);
    lemma_shift(t2, f.castling, sp, r3);
    lemma_shift(x1, f.side, sp, r2);
}

/// The record of a position has the six fields that were written.
pub proof fn lemma_fields_round_trip(p: Position)
    requires
        p.ep == 0 || is_single(p.ep),
        0 <= p.halfmove,
        0 <= p.fullmove,
    ensures
        fen_fields(fen_text(p)) == Some(fields_of(p)),
{
    let f = fields_of(p);
    lemma_placement_text_chars(p.bb, 0);
    lemma_castling_round_trip(p);
    lemma_en_passant_round_trip(p.ep);
    lemma_decimal_round_trip(p.halfmove);
    lemma_decimal_round_trip(p.fullmove);
    assert(lacks(f.side, ' '));
    lemma_six_fields(f);
    lemma_fen_text_shape(p);
}

/// Reading the record of a well-formed position gives the position, with
/// the key computed from scratch and the history that is handed in.
pub proof fn lemma_fen_round_trip(p: Position, keys: &HashTable, history: Seq<u64>)
    requires
        p.wf(),
    ensures
        parse_fen(fen_text(p), keys, history) == Ok::<Position, crate::fen::FenError>(
            Position { hash: keys.key_of(p), history, ..p },
        ),
{
    let f = fields_of(p);
    lemma_fields_round_trip(p);
    lemma_placement_round_trip(p.bb, 0);
    lemma_boards_round_trip(p.bb);
    lemma_castling_round_trip(p);
    lemma_en_passant_round_trip(p.ep);
    lemma_decimal_round_trip(p.halfmove);
    lemma_decimal_round_trip(p.fullmove);
    let q = Position {
        bb: boards_from(pieces_from(p.bb, 0), 64),
        white_to_move: f.side =~= seq!['w'],
        white_king_castle: f.castling.contains('K'),
        white_queen_castle: f.castling.contains('Q'),
        black_king_castle: f.castling.contains('k'),
        black_queen_castle: f.castling.contains('q'),
        ep: p.ep,
        halfmove: p.halfmove,
        fullmove: p.fullmove,
        hash: 0,
        history,
    };
    if p.white_to_move {
        assert(f.side =~= seq!['w']);
    } else {
        assert(f.side[0] == 'b');
        assert(!(f.side =~= seq!['w']));
        assert(f.side =~= seq!['b']);
    }
    assert(q == Position { hash: 0, history, ..p });
    assert(q.wf());
    assert(keys.key_of(q) == keys.key_of(p));
}

} // verus!
