//! What the search computes when it is not stopped: a function of the
//! position, the window, the depth and what the transposition table holds.
use vstd::prelude::*;
use crate::chess_move::{ChessMove, EN_PASSANT_MOVE};
use crate::position::{is_side, Position};
use crate::search::{
    bound_kind, with_first, TTEntry, CHECKMATE, EXACT_VALUE, INF, LOWERBOUND, UPPERBOUND,
};
use crate::zobrist::HashTable;

verus! {

/// What the table holds for `key`, if anything.
pub open spec fn stored(tt: Map<u64, TTEntry>, key: u64) -> Option<TTEntry> {
    if tt.contains_key(key) {
        Some(tt[key])
    } else {
        None
    }
}

/// What a stored entry does to a search: a value to return at once, or the
/// window to search in.
pub struct Window {
    pub cutoff: Option<int>,
    pub alpha: int,
    pub beta: int,
}

/// An entry of lesser depth, or none, leaves the window as it is. An exact
/// entry gives its value. A lower bound above `alpha` raises `alpha`; else
/// an upper bound below `beta` lowers `beta`; and where the window is then
/// empty the stored value is given.
pub open spec fn window_of(entry: Option<TTEntry>, alpha: int, beta: int, depth: int) -> Window {
    match entry {
        Some(e) => if e.depth >= depth {
            if e.typ == EXACT_VALUE {
                Window { cutoff: Some(e.value as int), alpha, beta }
            } else {
                let raised = e.typ == LOWERBOUND && e.value > alpha;
                let lowered = !raised && e.typ == UPPERBOUND && e.value < beta;
                let a = if raised {
                    e.value as int
                } else {
                    alpha
                };
                let b = if lowered {
                    e.value as int
                } else {
                    beta
                };
                Window {
                    cutoff: if a >= b {
                        Some(e.value as int)
                    } else {
                        None
                    },
                    alpha: a,
                    beta: b,
                }
            }
        } else {
            Window { cutoff: None, alpha, beta }
        },
        None => Window { cutoff: None, alpha, beta },
    }
}

/// The entry that is stored for a value found at `depth` in the window from
/// `alpha` to `beta`.
pub open spec fn entry_for(value: int, depth: int, alpha: int, beta: int, best_move: Option<ChessMove>) -> TTEntry {
    TTEntry { typ: bound_kind(value, alpha, beta), value: value as i32, depth: depth as i32, best_move }
}

/// The score nearest to `value`.
pub open spec fn clamped(value: int) -> int {
    if value < -INF {
        -INF as int
    } else if value > INF {
        INF as int
    } else {
        value
    }
}

/// What iterative deepening has after some searches.
pub struct Deepening {
    pub best: int,
    pub best_move: Option<ChessMove>,
    pub table: Map<u64, TTEntry>,
}

/// The greater of two scores.
pub open spec fn higher(a: int, b: int) -> int {
    if b > a {
        b
    } else {
        a
    }
}

impl Position {
    /// The move takes a piece of the other side.
    pub open spec fn takes(self, m: ChessMove) -> bool {
        m.kind() == EN_PASSANT_MOVE || is_side(self.piece_at(m.dst()), 1 - self.side())
    }

    /// The score of a position without a legal move: lost for the side to
    /// move if its king is attacked, else drawn.
    pub open spec fn end_score(self, mate: int) -> int {
        if self.in_check(self.side()) {
            -mate
        } else {
            0
        }
    }

    /// The score of the position after its captures and checks are played
    /// out, inside the window from `alpha` to `beta`: `beta` where the
    /// static evaluation reaches it, else the best of the static evaluation
    /// and of what the moves lead to.
    pub open spec fn quiesce_value(self, alpha: int, beta: int, keys: &HashTable) -> int
        decreases self.plies_left(), 1int, 0int,
    {
        let standing = self.relative_evaluation();
        if standing >= beta {
            beta
        } else {
            self.quiesce_moves(self.move_list(), 0, higher(alpha, standing), beta, true, keys)
        }
    }

    /// The score after the moves of `list` from the place `i` on: illegal
    /// moves are passed over, captures and moves that give check are
    /// searched on, and the first score that reaches `beta` ends the search.
    /// `cant_move` says that no legal move has been met yet.
    #[verifier::opaque]
    pub open spec fn quiesce_moves(
        self,
        list: Seq<ChessMove>,
        i: int,
        alpha: int,
        beta: int,
        cant_move: bool,
        keys: &HashTable,
    ) -> int
        decreases self.plies_left(), 0int, list.len() - i,
    {
        if i < 0 || i >= list.len() {
            if cant_move {
                self.end_score(CHECKMATE as int)
            } else {
                alpha
            }
        } else {
            let m = list[i];
            let child = self.apply(m, keys);
            if child.in_check(self.side()) {
                self.quiesce_moves(list, i + 1, alpha, beta, cant_move, keys)
            } else if self.takes(m) || child.in_check(1 - self.side()) {
                let score = if 0 <= child.plies_left() < self.plies_left() {
                    -child.quiesce_value(-beta, -alpha, keys)
                } else {
                    0
                };
                if score >= beta {
                    beta
                } else {
                    self.quiesce_moves(list, i + 1, higher(alpha, score), beta, false, keys)
                }
            } else {
                self.quiesce_moves(list, i + 1, alpha, beta, false, keys)
            }
        }
    }

    /// The score of the position searched to `depth` in the window from
    /// `alpha` to `beta`, and the table afterwards. A stored entry may give
    /// the score or narrow the window; at depth 0 the score is that of the
    /// quiescence search; else the stored move is tried first and then the
    /// others in their order.
    #[verifier::opaque]
    pub open spec fn search_value(
        self,
        tt: Map<u64, TTEntry>,
        alpha: int,
        beta: int,
        depth: int,
        keys: &HashTable,
    ) -> (int, Map<u64, TTEntry>)
        decreases depth, 1int, 0int,
    {
        let entry = stored(tt, self.hash);
        let w = window_of(entry, alpha, beta, depth);
        match w.cutoff {
            Some(value) => (value, tt),
            None => if depth <= 0 {
                let value = self.quiesce_value(w.alpha, w.beta, keys);
                (value, tt.insert(self.hash, entry_for(value, depth, w.alpha, w.beta, None)))
            } else {
                let first = match entry {
                    Some(e) => e.best_move,
                    None => None,
                };
                self.search_moves(
                    with_first(self.move_list(), first),
                    0,
                    tt,
                    alpha,
                    w.alpha,
                    w.alpha,
                    w.beta,
                    depth,
                    -INF,
                    None,
                    true,
                    keys,
                )
            },
        }
    }

    /// The score and the table after the moves of `list` from the place `i`
    /// on. `alpha_in` is the lower end of the window that was asked for,
    /// `alpha_first` that of the window after the table was looked up, and
    /// `alpha` the lower end now; `best` and `best_move` are the best score
    /// so far and the move that gave it.
    #[verifier::opaque]
    pub open spec fn search_moves(
        self,
        list: Seq<ChessMove>,
        i: int,
        tt: Map<u64, TTEntry>,
        alpha_in: int,
        alpha_first: int,
        alpha: int,
        beta: int,
        depth: int,
        best: int,
        best_move: Option<ChessMove>,
        cant_move: bool,
        keys: &HashTable,
    ) -> (int, Map<u64, TTEntry>)
        decreases depth, 0int, list.len() - i,
    {
        if i < 0 || i >= list.len() {
            if cant_move {
                let value = self.end_score(CHECKMATE + depth);
                (value, tt.insert(self.hash, entry_for(value, depth, alpha_first, beta, None)))
            } else {
                (best, tt.insert(self.hash, entry_for(best, depth, alpha_in, beta, best_move)))
            }
        } else {
            let m = list[i];
            let child = self.apply(m, keys);
            if child.in_check(self.side()) {
                self.search_moves(
                    list,
                    i + 1,
                    tt,
                    alpha_in,
                    alpha_first,
                    alpha,
                    beta,
                    depth,
                    best,
                    best_move,
                    cant_move,
                    keys,
                )
            } else {
                let below = if depth >= 1 {
                    child.search_value(tt, -beta, -alpha, depth - 1, keys)
                } else {
                    (0int, tt)
                };
                let value = -below.0;
                let best_now = higher(best, value);
                let move_now = if value > best {
                    Some(m)
                } else {
                    best_move
                };
                if best_now >= beta {
                    (
                        best_now,
                        below.1.insert(self.hash, entry_for(best_now, depth, alpha_in, beta, move_now)),
                    )
                } else {
                    self.search_moves(
                        list,
                        i + 1,
                        below.1,
                        alpha_in,
                        alpha_first,
                        higher(alpha, best_now),
                        beta,
                        depth,
                        best_now,
                        move_now,
                        false,
                        keys,
                    )
                }
            }
        }
    }

    /// After the last move the quiescence search ends.
    pub proof fn lemma_quiesce_end(
        self,
        list: Seq<ChessMove>,
        i: int,
        alpha: int,
        beta: int,
        cant_move: bool,
        keys: &HashTable,
    )
        requires
            i >= list.len(),
        ensures
            self.quiesce_moves(list, i, alpha, beta, cant_move, keys) == if cant_move {
                self.end_score(CHECKMATE as int)
            } else {
                alpha
            },
    {
        reveal(Position::quiesce_moves);
    }

    /// What one move does to the quiescence search.
    pub proof fn lemma_quiesce_step(
        self,
        list: Seq<ChessMove>,
        i: int,
        alpha: int,
        beta: int,
        cant_move: bool,
        keys: &HashTable,
    )
        requires
            0 <= i < list.len(),
            0 <= self.apply(list[i], keys).plies_left() < self.plies_left(),
        ensures
            self.quiesce_moves(list, i, alpha, beta, cant_move, keys) == ({
                let m = list[i];
                let child = self.apply(m, keys);
                if child.in_check(self.side()) {
                    self.quiesce_moves(list, i + 1, alpha, beta, cant_move, keys)
                } else if self.takes(m) || child.in_check(1 - self.side()) {
                    let score = -child.quiesce_value(-beta, -alpha, keys);
                    if score >= beta {
                        beta
                    } else {
                        self.quiesce_moves(list, i + 1, higher(alpha, score), beta, false, keys)
                    }
                } else {
                    self.quiesce_moves(list, i + 1, alpha, beta, false, keys)
                }
            }),
    {
        reveal(Position::quiesce_moves);
    }

    /// A search that the table answers.
    pub proof fn lemma_search_cutoff(
        self,
        tt: Map<u64, TTEntry>,
        alpha: int,
        beta: int,
        depth: int,
        keys: &HashTable,
    )
        requires
            window_of(stored(tt, self.hash), alpha, beta, depth).cutoff is Some,
        ensures
            self.search_value(tt, alpha, beta, depth, keys) == (
                window_of(stored(tt, self.hash), alpha, beta, depth).cutoff->0,
                tt,
            ),
    {
        reveal(Position::search_value);
        reveal(Position::search_moves);
    }

    /// A search at depth 0.
    pub proof fn lemma_search_leaf(
        self,
        tt: Map<u64, TTEntry>,
        alpha: int,
        beta: int,
        depth: int,
        keys: &HashTable,
    )
        requires
            window_of(stored(tt, self.hash), alpha, beta, depth).cutoff is None,
            depth <= 0,
        ensures
            self.search_value(tt, alpha, beta, depth, keys) == ({
                let w = window_of(stored(tt, self.hash), alpha, beta, depth);
                let value = self.quiesce_value(w.alpha, w.beta, keys);
                (value, tt.insert(self.hash, entry_for(value, depth, w.alpha, w.beta, None)))
            }),
    {
        reveal(Position::search_value);
        reveal(Position::search_moves);
    }

    /// A search through the moves.
    pub proof fn lemma_search_inner(
        self,
        tt: Map<u64, TTEntry>,
        alpha: int,
        beta: int,
        depth: int,
        keys: &HashTable,
    )
        requires
            window_of(stored(tt, self.hash), alpha, beta, depth).cutoff is None,
            depth > 0,
        ensures
            self.search_value(tt, alpha, beta, depth, keys) == ({
                let entry = stored(tt, self.hash);
                let w = window_of(entry, alpha, beta, depth);
                let first = match entry {
                    Some(e) => e.best_move,
                    None => None,
                };
                self.search_moves(
                    with_first(self.move_list(), first),
                    0,
                    tt,
                    alpha,
                    w.alpha,
                    w.alpha,
                    w.beta,
                    depth,
                    -INF,
                    None,
                    true,
                    keys,
                )
            }),
    {
        reveal(Position::search_value);
        reveal(Position::search_moves);
    }

    /// After the last move the search stores what it has found.
    pub proof fn lemma_search_end(
        self,
        list: Seq<ChessMove>,
        i: int,
        tt: Map<u64, TTEntry>,
        alpha_in: int,
        alpha_first: int,
        alpha: int,
        beta: int,
        depth: int,
        best: int,
        best_move: Option<ChessMove>,
        cant_move: bool,
        keys: &HashTable,
    )
        requires
            i >= list.len(),
        ensures
            self.search_moves(
                list,
                i,
                tt,
                alpha_in,
                alpha_first,
                alpha,
                beta,
                depth,
                best,
                best_move,
                cant_move,
                keys,
            ) == if cant_move {
                let value = self.end_score(CHECKMATE + depth);
                (value, tt.insert(self.hash, entry_for(value, depth, alpha_first, beta, None)))
            } else {
                (best, tt.insert(self.hash, entry_for(best, depth, alpha_in, beta, best_move)))
            },
    {
        reveal(Position::search_moves);
        reveal(Position::search_value);
    }

    /// An illegal move is passed over.
    pub proof fn lemma_search_skip(
        self,
        list: Seq<ChessMove>,
        i: int,
        tt: Map<u64, TTEntry>,
        alpha_in: int,
        alpha_first: int,
        alpha: int,
        beta: int,
        depth: int,
        best: int,
        best_move: Option<ChessMove>,
        cant_move: bool,
        keys: &HashTable,
    )
        requires
            0 <= i < list.len(),
            self.apply(list[i], keys).in_check(self.side()),
        ensures
            self.search_moves(
                list,
                i,
                tt,
                alpha_in,
                alpha_first,
                alpha,
                beta,
                depth,
                best,
                best_move,
                cant_move,
                keys,
            ) == self.search_moves(
                list,
                i + 1,
                tt,
                alpha_in,
                alpha_first,
                alpha,
                beta,
                depth,
                best,
                best_move,
                cant_move,
                keys,
            ),
    {
        reveal(Position::search_moves);
        reveal(Position::search_value);
    }

    /// What a legal move does to the search.
    pub proof fn lemma_search_step(
        self,
        list: Seq<ChessMove>,
        i: int,
        tt: Map<u64, TTEntry>,
        alpha_in: int,
        alpha_first: int,
        alpha: int,
        beta: int,
        depth: int,
        best: int,
        best_move: Option<ChessMove>,
        cant_move: bool,
        keys: &HashTable,
    )
        requires
            0 <= i < list.len(),
            depth >= 1,
            !self.apply(list[i], keys).in_check(self.side()),
        ensures
            self.search_moves(
                list,
                i,
                tt,
                alpha_in,
                alpha_first,
                alpha,
                beta,
                depth,
                best,
                best_move,
                cant_move,
                keys,
            ) == ({
                let m = list[i];
                let below = self.apply(m, keys).search_value(tt, -beta, -alpha, depth - 1, keys);
                let value = -below.0;
                let best_now = higher(best, value);
                let move_now = if value > best {
                    Some(m)
                } else {
                    best_move
                };
                if best_now >= beta {
                    (
                        best_now,
                        below.1.insert(self.hash, entry_for(best_now, depth, alpha_in, beta, move_now)),
                    )
                } else {
                    self.search_moves(
                        list,
                        i + 1,
                        below.1,
                        alpha_in,
                        alpha_first,
                        higher(alpha, best_now),
                        beta,
                        depth,
                        best_now,
                        move_now,
                        false,
                        keys,
                    )
                }
            }),
    {
        reveal(Position::search_moves);
        reveal(Position::search_value);
    }

    /// The score and the table after a search in a window of `window` to
    /// either side of `prev`, and a second search in the open half where the
    /// first score falls outside the window.
    pub open spec fn aspired(
        self,
        tt: Map<u64, TTEntry>,
        depth: int,
        prev: int,
        window: int,
        keys: &HashTable,
    ) -> (int, Map<u64, TTEntry>) {
        let alpha = clamped(prev - window);
        let beta = clamped(prev + window);
        let first = self.search_value(tt, alpha, beta, depth, keys);
        if first.0 >= beta {
            self.search_value(first.1, first.0, INF as int, depth, keys)
        } else if first.0 <= alpha {
            self.search_value(first.1, -INF, first.0, depth, keys)
        } else {
            first
        }
    }

    /// The best move that the table remembers for the position, if it is a
    /// legal move.
    pub open spec fn remembered(self, tt: Map<u64, TTEntry>, keys: &HashTable) -> Option<ChessMove> {
        match stored(tt, self.hash) {
            Some(e) => match e.best_move {
                Some(m) => if self.legal(m, keys) {
                    Some(m)
                } else {
                    None
                },
                None => None,
            },
            None => None,
        }
    }

    /// What iterative deepening has after `depths` searches, to the depths
    /// 1, 2 and so on, each in the full window: the score of the last
    /// search, the last legal move that a search left in the table, and the
    /// table.
    pub open spec fn deepened(self, tt: Map<u64, TTEntry>, depths: int, keys: &HashTable) -> Deepening
        decreases depths,
    {
        if depths <= 0 {
            Deepening { best: 0, best_move: None, table: tt }
        } else {
            let before = self.deepened(tt, depths - 1, keys);
            let found = self.search_value(before.table, -INF, INF as int, depths, keys);
            Deepening {
                best: found.0,
                best_move: match self.remembered(found.1, keys) {
                    Some(m) => Some(m),
                    None => before.best_move,
                },
                table: found.1,
            }
        }
    }

    /// As `deepened`, with each search in a window around the score of the
    /// search before.
    pub open spec fn deepened_asp(self, tt: Map<u64, TTEntry>, depths: int, window: int, keys: &HashTable) -> Deepening
        decreases depths,
    {
        if depths <= 0 {
            Deepening { best: 0, best_move: None, table: tt }
        } else {
            let before = self.deepened_asp(tt, depths - 1, window, keys);
            let found = self.aspired(before.table, depths, before.best, window, keys);
            Deepening {
                best: found.0,
                best_move: match self.remembered(found.1, keys) {
                    Some(m) => Some(m),
                    None => before.best_move,
                },
                table: found.1,
            }
        }
    }
}

} // verus!
