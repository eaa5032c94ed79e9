//! Pictures of bitboards and boards as text, rank 8 at the top and file A on
//! the left.
use vstd::prelude::*;
use vstd::string::StringExecFns;
use crate::bits::mem;
use crate::board::Board;
use crate::fen::letter_of_piece;
use crate::position::piece_in;

verus! {

/// The two characters of a square of a bitboard: `@` for a member, `.` for
/// the others, and a space.
pub open spec fn bit_cell(b: u64, sq: int) -> Seq<char> {
    if mem(b, sq) {
        seq!['@', ' ']
    } else {
        seq!['.', ' ']
    }
}

/// The cells of the row `y` from the column `x` on.
pub open spec fn bit_cells(b: u64, y: int, x: int) -> Seq<char>
    decreases 8 - x,
{
    if x >= 8 {
        Seq::empty()
    } else {
        bit_cell(b, 63 - (8 * y + x)) + bit_cells(b, y, x + 1)
    }
}

/// The rows from `y` on, one to a line.
pub open spec fn bit_rows(b: u64, y: int) -> Seq<char>
    decreases 8 - y,
{
    if y >= 7 {
        bit_cells(b, 7, 0)
    } else {
        bit_cells(b, y, 0) + seq!['\n'] + bit_rows(b, y + 1)
    }
}

fn append_bit_cells(s: &mut String, b: u64, y: usize)
    requires
        y < 8,
    ensures
        final(s)@ == old(s)@ + bit_cells(b, y as int, 0),
{
    let ghost before = s@;
    proof {
        reveal_strlit("@ ");
        reveal_strlit(". ");
        assert(s@ + bit_cells(b, y as int, 0) =~= before + bit_cells(b, y as int, 0));
    }
    let mut x: usize = 0;
    while x < 8
        invariant
            x <= 8,
            y < 8,
            "@ "@ == seq!['@', ' '],
            ". "@ == seq!['.', ' '],
            s@ + bit_cells(b, y as int, x as int) == before + bit_cells(b, y as int, 0),
        decreases 8 - x,
    {
        let i = 63 - (y * 8 + x);
        let ghost prev = s@;
        proof {
            crate::board::lemma_single_hit(b, i as int);
        }
        if b & (1u64 << (i as u64)) != 0 {
            s.append("@ ");
        } else {
            s.append(". ");
        }
        proof {
            assert(s@ + bit_cells(b, y as int, x + 1) =~= prev + (bit_cell(b, i as int) + bit_cells(
                b,
                y as int,
                x + 1,
            )));
        }
        x += 1;
    }
    assert(s@ =~= before + bit_cells(b, y as int, 0));
}

/// A picture of a bitboard: eight lines of eight cells.
pub fn bitboard_picture(b: u64) -> (s: String)
    ensures
        s@ == bit_rows(b, 0),
{
    let mut s = String::from_str("");
    proof {
        reveal_strlit("");
        reveal_strlit("\n");
        assert(s@ + bit_rows(b, 0) =~= bit_rows(b, 0));
    }
    let mut y: usize = 0;
    while y < 7
        invariant
            y <= 7,
            "\n"@ == seq!['\n'],
            s@ + bit_rows(b, y as int) == bit_rows(b, 0),
        decreases 7 - y,
    {
        let ghost prev = s@;
        append_bit_cells(&mut s, b, y);
        s.append("\n");
        proof {
            assert(s@ + bit_rows(b, y + 1) =~= prev + (bit_cells(b, y as int, 0) + seq!['\n'] + bit_rows(
                b,
                y + 1,
            )));
        }
        y += 1;
    }
    append_bit_cells(&mut s, b, 7);
    s
}

/// The character of a square of a board: the letter of its piece, or a
/// space.
pub open spec fn piece_cell(bb: Seq<u64>, sq: int) -> char {
    if piece_in(bb, sq) == 14 {
        ' '
    } else {
        letter_of_piece(piece_in(bb, sq))
    }
}

/// What stands between two cells of a row.
pub open spec fn cell_bar() -> Seq<char> {
    seq![' ', '|', ' ']
}

/// What stands between two rows.
pub open spec fn row_bar() -> Seq<char> {
    seq!['\n'] + Seq::new(29, |i: int| '-') + seq!['\n']
}

/// The cells of the row `y` from the column `x` on, with bars between them.
pub open spec fn piece_cells(bb: Seq<u64>, y: int, x: int) -> Seq<char>
    decreases 8 - x,
{
    if x >= 7 {
        seq![piece_cell(bb, 63 - (8 * y + 7))]
    } else {
        seq![piece_cell(bb, 63 - (8 * y + x))] + cell_bar() + piece_cells(bb, y, x + 1)
    }
}

/// The rows from `y` on, with bars between them.
pub open spec fn piece_rows(bb: Seq<u64>, y: int) -> Seq<char>
    decreases 8 - y,
{
    if y >= 7 {
        piece_cells(bb, 7, 0)
    } else {
        piece_cells(bb, y, 0) + row_bar() + piece_rows(bb, y + 1)
    }
}

fn cell_text(piece: usize) -> (s: &'static str)
    requires
        2 <= piece <= 14,
    ensures
        s@ == seq![
            if piece == 14 {
                ' '
            } else {
                letter_of_piece(piece as int)
            },
        ],
{
    let s = if piece == 2 {
        "P"
    } else if piece == 3 {
        "p"
    } else if piece == 4 {
        "N"
    } else if piece == 5 {
        "n"
    } else if piece == 6 {
        "B"
    } else if piece == 7 {
        "b"
    } else if piece == 8 {
        "R"
    } else if piece == 9 {
        "r"
    } else if piece == 10 {
        "Q"
    } else if piece == 11 {
        "q"
    } else if piece == 12 {
        "K"
    } else if piece == 13 {
        "k"
    } else {
        " "
    };
    proof {
        reveal_strlit("P");
        reveal_strlit("p");
        reveal_strlit("N");
        reveal_strlit("n");
        reveal_strlit("B");
        reveal_strlit("b");
        reveal_strlit("R");
        reveal_strlit("r");
        reveal_strlit("Q");
        reveal_strlit("q");
        reveal_strlit("K");
        reveal_strlit("k");
        reveal_strlit(" ");
        assert(s@ =~= seq![
            if piece == 14 {
                ' '
            } else {
                letter_of_piece(piece as int)
            },
        ]);
    }
    s
}

impl<'a> Board<'a> {
    fn append_piece_cells(&self, s: &mut String, y: usize)
        requires
            y < 8,
        ensures
            final(s)@ == old(s)@ + piece_cells(self@.bb, y as int, 0),
    {
        let ghost before = s@;
        let ghost bb = self@.bb;
        proof {
            reveal_strlit(" | ");
            assert(" | "@ =~= cell_bar());
            assert(s@ + piece_cells(bb, y as int, 0) =~= before + piece_cells(bb, y as int, 0));
        }
        let mut x: usize = 0;
        while x < 7
            invariant
                x <= 7,
                y < 8,
                bb == self@.bb,
                " | "@ == cell_bar(),
                s@ + piece_cells(bb, y as int, x as int) == before + piece_cells(bb, y as int, 0),
            decreases 7 - x,
        {
            let i = 63 - (y * 8 + x);
            let ghost prev = s@;
            s.append(cell_text(self.piece_on(i)));
            s.append(" | ");
            proof {
                assert(s@ + piece_cells(bb, y as int, x + 1) =~= prev + (seq![piece_cell(bb, i as int)]
                    + cell_bar() + piece_cells(bb, y as int, x + 1)));
            }
            x += 1;
        }
        let ghost prev = s@;
        s.append(cell_text(self.piece_on(63 - (y * 8 + 7))));
        assert(s@ =~= prev + piece_cells(bb, y as int, 7));
    }

    /// A picture of the board: eight rows of eight cells with bars between
    /// the cells and between the rows.
    pub fn picture(&self) -> (s: String)
        ensures
            s@ == piece_rows(self@.bb, 0),
    {
        let ghost bb = self@.bb;
        let mut s = String::from_str("");
        proof {
            reveal_strlit("");
            reveal_strlit("\n-----------------------------\n");
            assert("\n-----------------------------\n"@ =~= row_bar());
            assert(s@ + piece_rows(bb, 0) =~= piece_rows(bb, 0));
        }
        let mut y: usize = 0;
        while y < 7
            invariant
                y <= 7,
                bb == self@.bb,
                "\n-----------------------------\n"@ == row_bar(),
                s@ + piece_rows(bb, y as int) == piece_rows(bb, 0),
            decreases 7 - y,
        {
            let ghost prev = s@;
            self.append_piece_cells(&mut s, y);
            s.append("\n-----------------------------\n");
            proof {
                assert(s@ + piece_rows(bb, y + 1) =~= prev + (piece_cells(bb, y as int, 0) + row_bar()
                    + piece_rows(bb, y + 1)));
            }
            y += 1;
        }
        self.append_piece_cells(&mut s, 7);
        s
    }
}

} // verus!
