//! What the driver decides between a packet and its answer: the packet's
//! parts, the time to think, the book's answer and the move that a text
//! names.
use vstd::prelude::*;
use vstd::string::StringExecFns;
use crate::board::Board;
use crate::chess_move::ChessMove;
use crate::fen::{append_decimal, chars_of, decimal, head, next_part, parse_count, parse_number, tail};

verus! {

/// A position and the clocks of both sides, in milliseconds.
pub struct Packet {
    pub fen: String,
    pub white_time_left: i64,
    pub black_time_left: i64,
}

/// The largest time, in milliseconds, that a packet can carry.
pub const TIME_LIMIT: u64 = 1_000_000_000_000_000_000;

/// The number that a text of decimal digits with an optional minus sign in
/// front stands for.
pub open spec fn parse_signed(s: Seq<char>) -> Option<int> {
    if s.len() > 0 && s[0] == '-' {
        match parse_number(s.skip(1)) {
            Some(v) => Some(-v),
            None => None,
        }
    } else {
        parse_number(s)
    }
}

/// The text after the `n`-th space of `s`, if `s` has `n` spaces.
pub open spec fn after_spaces(s: Seq<char>, n: nat) -> Option<Seq<char>>
    decreases n,
{
    if n == 0 {
        Some(s)
    } else {
        match tail(s, ' ') {
            Some(rest) => after_spaces(rest, (n - 1) as nat),
            None => None,
        }
    }
}

/// The parts of a packet: eight fields with one space between them, of
/// which the first six are the position and the last two the milliseconds
/// left to White and to Black, neither beyond `TIME_LIMIT` in size.
pub open spec fn packet_parts(s: Seq<char>) -> Option<(Seq<char>, int, int)> {
    match after_spaces(s, 6) {
        None => None,
        Some(times) => match tail(times, ' ') {
            None => None,
            Some(black) => if tail(black, ' ') is Some {
                None
            } else {
                match (parse_signed(head(times, ' ')), parse_signed(black)) {
                    (Some(w), Some(b)) => if -TIME_LIMIT <= w <= TIME_LIMIT && -TIME_LIMIT <= b
                        <= TIME_LIMIT {
                        Some((s.take(s.len() - times.len() - 1), w, b))
                    } else {
                        None
                    },
                    _ => None,
                }
            },
        },
    }
}

/// Reads a number with an optional minus sign in front.
fn read_signed(chars: &Vec<char>, start: usize, end: usize) -> (r: Option<i64>)
    requires
        start <= end <= chars@.len(),
    ensures
        match parse_signed(chars@.subrange(start as int, end as int)) {
            Some(v) => if -TIME_LIMIT <= v <= TIME_LIMIT {
                r == Some(v as i64)
            } else {
                r is None
            },
            None => r is None,
        },
{
    let ghost text = chars@.subrange(start as int, end as int);
    if start < end && chars[start] == '-' {
        proof {
            assert(text[0] == '-');
            assert(text.skip(1) =~= chars@.subrange(start + 1, end as int));
        }
        match parse_count(chars, start + 1, end, TIME_LIMIT) {
            Some(v) => Some(-(v as i64)),
            None => None,
        }
    } else {
        proof {
            if start < end {
                assert(text[0] == chars@[start as int]);
            }
        }
        match parse_count(chars, start, end, TIME_LIMIT) {
            Some(v) => Some(v as i64),
            None => None,
        }
    }
}

/// Takes a packet apart.
pub fn decode_packet(packet: &str) -> (r: Option<Packet>)
    ensures
        match packet_parts(packet@) {
            Some(parts) => r is Some && r->0.fen@ == parts.0 && r->0.white_time_left == parts.1
                && r->0.black_time_left == parts.2,
            None => r is None,
        },
{
    let chars = chars_of(packet);
    let n = chars.len();
    let ghost s = chars@;
    let mut from: usize = 0;
    let mut spaces: usize = 0;
    proof {
        assert(s.subrange(0, n as int) =~= s);
    }
    while spaces < 6
        invariant
            spaces <= 6,
            from <= n,
            n == chars@.len(),
            s == chars@,
            s == packet@,
            spaces > 0 ==> from > 0,
            after_spaces(s, 6) == after_spaces(s.subrange(from as int, n as int), (6 - spaces) as nat),
        decreases 6 - spaces,
    {
        let space = next_part(&chars, from, n, ' ');
        let ghost rest = s.subrange(from as int, n as int);
        if space >= n {
            assert(after_spaces(rest, (6 - spaces) as nat) is None);
            return None;
        }
        assert(after_spaces(rest, (6 - spaces) as nat) == after_spaces(
            s.subrange(space + 1, n as int),
            (6 - spaces - 1) as nat,
        ));
        from = space + 1;
        spaces += 1;
    }
    let ghost times = s.subrange(from as int, n as int);
    let white_end = next_part(&chars, from, n, ' ');
    if white_end >= n {
        return None;
    }
    let black_end = next_part(&chars, white_end + 1, n, ' ');
    if black_end < n {
        return None;
    }
    let white = read_signed(&chars, from, white_end);
    let black = read_signed(&chars, white_end + 1, n);
    match (white, black) {
        (Some(white_time_left), Some(black_time_left)) => {
            let fen = String::from_str(packet.substring_char(0, from - 1));
            proof {
                assert(s.take(s.len() - times.len() - 1) =~= s.subrange(0, from - 1));
            }
            Some(Packet { fen, white_time_left, black_time_left })
        },
        _ => None,
    }
}

/// The milliseconds to think about a move with `our_time` milliseconds left
/// on the clock.
pub open spec fn time_budget(our_time: int) -> int {
    if our_time < 10000 {
        1000
    } else if our_time < 30000 {
        2000
    } else if our_time < 60000 {
        4000
    } else if our_time < 120000 {
        6000
    } else if our_time < 180000 {
        8000
    } else if our_time < 240000 {
        10000
    } else {
        12000
    }
}

/// The milliseconds to think about a move.
pub fn time_for_move(our_time: i64) -> (time_given: u128)
    ensures
        time_given == time_budget(our_time as int),
{
    if our_time < 10 * 1000 {
        1000
    } else if our_time < 30 * 1000 {
        2 * 1000
    } else if our_time < 60 * 1000 {
        4 * 1000
    } else if our_time < 2 * 60 * 1000 {
        6 * 1000
    } else if our_time < 3 * 60 * 1000 {
        8 * 1000
    } else if our_time < 4 * 60 * 1000 {
        10 * 1000
    } else {
        12 * 1000
    }
}

/// The move that a line of the opening book gives for the key `hash`: the
/// text after `|`, where the text before it is the key in decimal digits.
pub open spec fn line_move(line: Seq<char>, hash: u64) -> Option<Seq<char>> {
    match tail(line, '|') {
        Some(answer) => if head(line, '|') == decimal(hash as int) {
            Some(answer)
        } else {
            None
        },
        None => None,
    }
}

/// The move that the first of the lines from `from` on with the key `hash`
/// gives.
pub open spec fn book_move(lines: Seq<String>, hash: u64, from: int) -> Option<Seq<char>>
    decreases lines.len() - from,
{
    if from >= lines.len() {
        None
    } else {
        match line_move(lines[from]@, hash) {
            Some(answer) => Some(answer),
            None => book_move(lines, hash, from + 1),
        }
    }
}

/// The text between `start` and `end` is `other`.
fn same_text(chars: &Vec<char>, start: usize, end: usize, other: &Vec<char>) -> (r: bool)
    requires
        start <= end <= chars@.len(),
    ensures
        r == (chars@.subrange(start as int, end as int) == other@),
{
    let ghost text = chars@.subrange(start as int, end as int);
    if end - start != other.len() {
        return false;
    }
    let mut i: usize = 0;
    while i < other.len()
        invariant
            start <= end <= chars@.len(),
            end - start == other@.len(),
            i <= other@.len(),
            text == chars@.subrange(start as int, end as int),
            forall|j: int| 0 <= j < i ==> text[j] == other@[j],
        decreases other@.len() - i,
    {
        if chars[start + i] != other[i] {
            assert(text[i as int] != other@[i as int]);
            return false;
        }
        i += 1;
    }
    assert(text =~= other@);
    true
}

/// Looks the position up in the lines of the opening book.
pub fn try_find_opening(board: &Board, lines: &Vec<String>) -> (r: Option<String>)
    ensures
        match book_move(lines@, board@.hash, 0) {
            Some(answer) => r is Some && r->0@ == answer,
            None => r is None,
        },
{
    let hash = board.meta.hash;
    let mut key = String::from_str("");
    proof {
        reveal_strlit("");
    }
    append_decimal(&mut key, hash);
    assert(key@ =~= decimal(hash as int));
    let key_chars = chars_of(key.as_str());
    let mut i: usize = 0;
    while i < lines.len()
        invariant
            i <= lines@.len(),
            key_chars@ == decimal(hash as int),
            hash == board@.hash,
            book_move(lines@, hash, 0) == book_move(lines@, hash, i as int),
        decreases lines@.len() - i,
    {
        let line = lines[i].as_str();
        let chars = chars_of(line);
        let n = chars.len();
        proof {
            assert(chars@.subrange(0, n as int) =~= chars@);
        }
        let bar = next_part(&chars, 0, n, '|');
        if bar < n && same_text(&chars, 0, bar, &key_chars) {
            let answer = String::from_str(line.substring_char(bar + 1, n));
            return Some(answer);
        }
        i += 1;
    }
    None
}

impl<'a> Board<'a> {
    /// The legal move that the text names in coordinate notation, if there
    /// is one.
    pub fn move_from_uci(&self, text: &str) -> (r: Option<ChessMove>)
        requires
            self.wf(),
        ensures
            match r {
                Some(m) => self@.legal(m, &self.tables.keys) && m.notation() == text@ && forall|
                    other: ChessMove,
                |
                    self@.legal(other, &self.tables.keys) && #[trigger] other.notation() == text@ ==> other
                        == m,
                None => forall|m: ChessMove|
                    self@.legal(m, &self.tables.keys) ==> #[trigger] m.notation() != text@,
            },
    {
        let wanted = String::from_str(text);
        let legal = self.legal_moves();
        let mut i: usize = 0;
        while i < legal.len()
            invariant
                self.wf(),
                i <= legal@.len(),
                wanted@ == text@,
                forall|m: ChessMove| #[trigger] legal@.contains(m) <==> self@.legal(m, &self.tables.keys),
                forall|j: int| 0 <= j < i ==> (#[trigger] legal@[j]).notation() != text@,
            decreases legal@.len() - i,
        {
            let chess_move = legal[i];
            let name = chess_move.to_fen();
            if name == wanted {
                proof {
                    assert(legal@.contains(chess_move));
                    assert forall|other: ChessMove|
                        self@.legal(other, &self.tables.keys) && #[trigger] other.notation()
                            == text@ implies other == chess_move by {
                        crate::laws::lemma_notation_names_the_move(self@, other, chess_move);
                    }
                }
                return Some(chess_move);
            }
            i += 1;
        }
        proof {
            assert forall|m: ChessMove| self@.legal(m, &self.tables.keys) implies #[trigger] m.notation()
                != text@ by {
                assert(legal@.contains(m));
                let j = choose|j: int| 0 <= j < legal@.len() && legal@[j] == m;
                assert(legal@[j].notation() != text@);
            }
        }
        None
    }

    /// The move that the opening book gives for the position, if the book
    /// has a line for its key and the first such line names a legal move.
    pub fn opening_move(&self, lines: &Vec<String>) -> (r: Option<ChessMove>)
        requires
            self.wf(),
        ensures
            match book_move(lines@, self@.hash, 0) {
                Some(answer) => match r {
                    Some(m) => self@.legal(m, &self.tables.keys) && m.notation() == answer,
                    None => forall|m: ChessMove|
                        self@.legal(m, &self.tables.keys) ==> #[trigger] m.notation() != answer,
                },
                None => r is None,
            },
    {
        match try_find_opening(self, lines) {
            Some(text) => self.move_from_uci(text.as_str()),
            None => None,
        }
    }
}

} // verus!
