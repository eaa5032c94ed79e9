//! Laws of the search: its scores stay strictly between the bounds, and a
//! search of a position with a legal move leaves a legal move in the table.
use vstd::prelude::*;
use crate::chess_move::ChessMove;
use crate::eval::lemma_evaluation_bounds;
use crate::position::Position;
use crate::search::{lemma_place_bounds, place_of, with_first, TTEntry, CHECKMATE, INF, MAX_DEPTH};
use crate::search_model::{clamped, entry_for, higher, stored, window_of};
use crate::zobrist::HashTable;

verus! {

/// A score strictly between the bounds.
pub open spec fn inside(value: int) -> bool {
    -INF < value < INF
}

/// Every value that the table holds lies strictly between the bounds.
pub open spec fn table_inside(tt: Map<u64, TTEntry>) -> bool {
    forall|key: u64| tt.contains_key(key) ==> inside(#[trigger] tt[key].value as int)
}

/// `m` is a move of `list` that does not leave the own king attacked.
pub open spec fn kept(p: Position, list: Seq<ChessMove>, m: ChessMove, keys: &HashTable) -> bool {
    list.contains(m) && !p.apply(m, keys).in_check(p.side())
}

/// The table remembers for the position a move of `list` that does not
/// leave the own king attacked.
pub open spec fn keeps_a_move(p: Position, tt: Map<u64, TTEntry>, list: Seq<ChessMove>, keys: &HashTable) -> bool {
    match stored(tt, p.hash) {
        Some(e) => e.best_move is Some && kept(p, list, e.best_move->0, keys),
        None => false,
    }
}

/// The quiescence search of a window whose lower end is below the upper
/// bound and whose upper end is above the lower bound gives a score
/// strictly between the bounds.
pub proof fn lemma_quiesce_value_inside(p: Position, alpha: int, beta: int, keys: &HashTable)
    requires
        -INF <= alpha < INF,
        -INF < beta <= INF,
    ensures
        inside(p.quiesce_value(alpha, beta, keys)),
    decreases p.plies_left(), 1int, 0int,
{
    reveal(Position::quiesce_moves);
    lemma_evaluation_bounds(p);
    let standing = p.relative_evaluation();
    if standing < beta {
        lemma_quiesce_moves_inside(p, p.move_list(), 0, higher(alpha, standing), beta, true, keys);
        assert(p.quiesce_value(alpha, beta, keys) == p.quiesce_moves(
            p.move_list(),
            0,
            higher(alpha, standing),
            beta,
            true,
            keys,
        ));
    } else {
        assert(p.quiesce_value(alpha, beta, keys) == beta);
    }
}

/// The quiescence search through the moves gives a score strictly between
/// the bounds.
pub proof fn lemma_quiesce_moves_inside(
    p: Position,
    list: Seq<ChessMove>,
    i: int,
    alpha: int,
    beta: int,
    cant_move: bool,
    keys: &HashTable,
)
    requires
        inside(alpha),
        -INF < beta <= INF,
    ensures
        inside(p.quiesce_moves(list, i, alpha, beta, cant_move, keys)),
    decreases p.plies_left(), 0int, list.len() - i,
{
    reveal(Position::quiesce_moves);
    if 0 <= i < list.len() {
        let m = list[i];
        let child = p.apply(m, keys);
        if child.in_check(p.side()) {
            lemma_quiesce_moves_inside(p, list, i + 1, alpha, beta, cant_move, keys);
        } else if p.takes(m) || child.in_check(1 - p.side()) {
            if 0 <= child.plies_left() < p.plies_left() {
                lemma_quiesce_value_inside(child, -beta, -alpha, keys);
            }
            let score = if 0 <= child.plies_left() < p.plies_left() {
                -child.quiesce_value(-beta, -alpha, keys)
            } else {
                0
            };
            if score < beta {
                lemma_quiesce_moves_inside(p, list, i + 1, higher(alpha, score), beta, false, keys);
            }
        } else {
            lemma_quiesce_moves_inside(p, list, i + 1, alpha, beta, false, keys);
        }
    }
}

/// A search to depth 0 gives a score strictly between the bounds and keeps
/// the values of the table so.
pub proof fn lemma_leaf_inside(p: Position, tt: Map<u64, TTEntry>, alpha: int, beta: int, keys: &HashTable)
    requires
        table_inside(tt),
        -INF <= alpha < INF,
        -INF < beta <= INF,
    ensures
        inside(p.search_value(tt, alpha, beta, 0, keys).0),
        table_inside(p.search_value(tt, alpha, beta, 0, keys).1),
{
    let w = window_of(stored(tt, p.hash), alpha, beta, 0);
    if w.cutoff is Some {
        p.lemma_search_cutoff(tt, alpha, beta, 0, keys);
    } else {
        p.lemma_search_leaf(tt, alpha, beta, 0, keys);
        lemma_quiesce_value_inside(p, w.alpha, w.beta, keys);
        let value = p.quiesce_value(w.alpha, w.beta, keys);
        let after = tt.insert(p.hash, entry_for(value, 0, w.alpha, w.beta, None));
        assert forall|key: u64| after.contains_key(key) implies inside(#[trigger] after[key].value as int) by {
            if key != p.hash {
                assert(tt.contains_key(key));
            }
        }
    }
}

/// A search to any depth gives a score strictly between the bounds and
/// keeps the values of the table so.
pub proof fn lemma_search_inside(
    p: Position,
    tt: Map<u64, TTEntry>,
    alpha: int,
    beta: int,
    depth: int,
    keys: &HashTable,
)
    requires
        table_inside(tt),
        -INF <= alpha < INF,
        -INF < beta <= INF,
        0 <= depth <= MAX_DEPTH,
    ensures
        inside(p.search_value(tt, alpha, beta, depth, keys).0),
        table_inside(p.search_value(tt, alpha, beta, depth, keys).1),
    decreases depth, 1int, 0int,
{
    let entry = stored(tt, p.hash);
    let w = window_of(entry, alpha, beta, depth);
    if w.cutoff is Some {
        p.lemma_search_cutoff(tt, alpha, beta, depth, keys);
    } else if depth == 0 {
        lemma_leaf_inside(p, tt, alpha, beta, keys);
    } else {
        p.lemma_search_inner(tt, alpha, beta, depth, keys);
        let first = match entry {
            Some(e) => e.best_move,
            None => None,
        };
        let list = with_first(p.move_list(), first);
        lemma_moves_inside(p, list, 0, tt, alpha, w.alpha, w.alpha, w.beta, depth, -INF, None, true, keys);
    }
}

/// A search through the moves gives a score strictly between the bounds,
/// keeps the values of the table so, and leaves in the table a move of the
/// list that does not leave the own king attacked, if the list has one.
pub proof fn lemma_moves_inside(
    p: Position,
    list: Seq<ChessMove>,
    i: int,
    tt: Map<u64, TTEntry>,
    alpha_in: int,
    alpha_first: int,
    alpha: int,
    beta: int,
    depth: int,
    best: int,
    best_move: Option<ChessMove>,
    cant_move: bool,
    keys: &HashTable,
)
    requires
        0 <= i <= list.len(),
        table_inside(tt),
        -INF <= alpha < INF,
        -INF < beta <= INF,
        1 <= depth <= MAX_DEPTH,
        cant_move ==> best == -INF && best_move is None,
        !cant_move ==> inside(best) && best_move is Some && kept(p, list, best_move->0, keys),
    ensures
        !cant_move || (exists|j: int| i <= j < list.len() && !p.apply(#[trigger] list[j], keys).in_check(p.side()))
            ==> keeps_a_move(
            p,
            p.search_moves(list, i, tt, alpha_in, alpha_first, alpha, beta, depth, best, best_move, cant_move, keys).1,
            list,
            keys,
        ),
        table_inside(
            p.search_moves(list, i, tt, alpha_in, alpha_first, alpha, beta, depth, best, best_move, cant_move, keys).1,
        ),
        inside(
            p.search_moves(list, i, tt, alpha_in, alpha_first, alpha, beta, depth, best, best_move, cant_move, keys).0,
        ),
    decreases depth, 0int, list.len() - i,
{
    if i >= list.len() {
        p.lemma_search_end(list, i, tt, alpha_in, alpha_first, alpha, beta, depth, best, best_move, cant_move, keys);
        let value = if cant_move {
            p.end_score(CHECKMATE + depth)
        } else {
            best
        };
        let entry = if cant_move {
            entry_for(value, depth, alpha_first, beta, None)
        } else {
            entry_for(best, depth, alpha_in, beta, best_move)
        };
        let after = tt.insert(p.hash, entry);
        assert forall|key: u64| after.contains_key(key) implies inside(#[trigger] after[key].value as int) by {
            if key != p.hash {
                assert(tt.contains_key(key));
            }
        }
    } else {
        let m = list[i];
        let child = p.apply(m, keys);
        if child.in_check(p.side()) {
            p.lemma_search_skip(
                list,
                i,
                tt,
                alpha_in,
                alpha_first,
                alpha,
                beta,
                depth,
                best,
                best_move,
                cant_move,
                keys,
            );
            if cant_move && exists|j: int|
                i <= j < list.len() && !p.apply(#[trigger] list[j], keys).in_check(p.side()) {
                let j = choose|j: int| i <= j < list.len() && !p.apply(#[trigger] list[j], keys).in_check(p.side());
                assert(i + 1 <= j);
            }
            lemma_moves_inside(
                p,
                list,
                i + 1,
                tt,
                alpha_in,
                alpha_first,
                alpha,
                beta,
                depth,
                best,
                best_move,
                cant_move,
                keys,
            );
        } else {
            p.lemma_search_step(
                list,
                i,
                tt,
                alpha_in,
                alpha_first,
                alpha,
                beta,
                depth,
                best,
                best_move,
                cant_move,
                keys,
            );
            lemma_search_inside(child, tt, -beta, -alpha, depth - 1, keys);
            let below = child.search_value(tt, -beta, -alpha, depth - 1, keys);
            let value = -below.0;
            let best_now = higher(best, value);
            let move_now = if value > best {
                Some(m)
            } else {
                best_move
            };
            assert(list.contains(m));
            if best_now >= beta {
                let after = below.1.insert(p.hash, entry_for(best_now, depth, alpha_in, beta, move_now));
                assert forall|key: u64| after.contains_key(key) implies inside(
                    #[trigger] after[key].value as int,
                ) by {
                    if key != p.hash {
                        assert(below.1.contains_key(key));
                    }
                }
            } else {
                lemma_moves_inside(
                    p,
                    list,
                    i + 1,
                    below.1,
                    alpha_in,
                    alpha_first,
                    higher(alpha, best_now),
                    beta,
                    depth,
                    best_now,
                    move_now,
                    false,
                    keys,
                );
            }
        }
    }
}

/// The list with a move taken to the front holds the moves of the list.
pub proof fn lemma_with_first_holds(list: Seq<ChessMove>, first: Option<ChessMove>, m: ChessMove)
    ensures
        with_first(list, first).contains(m) == list.contains(m),
{
    let r = with_first(list, first);
    crate::search::lemma_with_first(list, first);
    if r.contains(m) {
        let i = choose|i: int| 0 <= i < r.len() && r[i] == m;
        assert(list.contains(r[i]));
    }
    if list.contains(m) {
        let j = choose|j: int| 0 <= j < list.len() && list[j] == m;
        match first {
            Some(f) => {
                let k = place_of(list, f);
                lemma_place_bounds(list, f);
                if k < list.len() {
                    if j == k {
                        assert(r[0] == m);
                    } else if j < k {
                        assert(r[j + 1] == m);
                    } else {
                        assert(r[j] == m);
                    }
                } else {
                    assert(r[j] == m);
                }
            },
            None => {
                assert(r[j] == m);
            },
        }
    }
}

/// A search of a position with a legal move leaves a legal move in the
/// table, whether the table answers it or the moves are searched.
pub proof fn lemma_search_keeps_a_move(
    p: Position,
    tt: Map<u64, TTEntry>,
    alpha: int,
    beta: int,
    depth: int,
    keys: &HashTable,
)
    requires
        p.lists_its_moves(),
        exists|m: ChessMove| p.legal(m, keys),
        table_inside(tt),
        -INF <= alpha < INF,
        -INF < beta <= INF,
        1 <= depth <= MAX_DEPTH,
        stored(tt, p.hash) is None || keeps_a_move(p, tt, p.move_list(), keys),
    ensures
        keeps_a_move(p, p.search_value(tt, alpha, beta, depth, keys).1, p.move_list(), keys),
        table_inside(p.search_value(tt, alpha, beta, depth, keys).1),
        inside(p.search_value(tt, alpha, beta, depth, keys).0),
        p.remembered(p.search_value(tt, alpha, beta, depth, keys).1, keys) is Some,
{
    let entry = stored(tt, p.hash);
    let w = window_of(entry, alpha, beta, depth);
    let moves = p.move_list();
    lemma_search_inside(p, tt, alpha, beta, depth, keys);
    if w.cutoff is Some {
        p.lemma_search_cutoff(tt, alpha, beta, depth, keys);
    } else {
        p.lemma_search_inner(tt, alpha, beta, depth, keys);
        let first = match entry {
            Some(e) => e.best_move,
            None => None,
        };
        let list = with_first(moves, first);
        let legal = choose|m: ChessMove| p.legal(m, keys);
        assert(moves.contains(legal));
        lemma_with_first_holds(moves, first, legal);
        let j = choose|j: int| 0 <= j < list.len() && list[j] == legal;
        assert(!p.apply(list[j], keys).in_check(p.side()));
        lemma_moves_inside(p, list, 0, tt, alpha, w.alpha, w.alpha, w.beta, depth, -INF, None, true, keys);
        let after = p.search_moves(list, 0, tt, alpha, w.alpha, w.alpha, w.beta, depth, -INF, None, true, keys).1;
        let kept_move = stored(after, p.hash)->0.best_move->0;
        lemma_with_first_holds(moves, first, kept_move);
    }
    let after = p.search_value(tt, alpha, beta, depth, keys).1;
    let kept_move = stored(after, p.hash)->0.best_move->0;
    assert(moves.contains(kept_move));
    assert(p.pseudo_legal(kept_move));
}

/// From an empty table, iterative deepening of a position with a legal move
/// has after every number of searches from one on the move that its last
/// search has left in the table for the position, a legal move.
pub proof fn lemma_deepened_keeps_a_move(p: Position, depths: int, keys: &HashTable)
    requires
        p.wf(),
        exists|m: ChessMove| p.legal(m, keys),
        1 <= depths <= MAX_DEPTH,
    ensures
        p.deepened(Map::empty(), depths, keys).best_move is Some,
        p.deepened(Map::empty(), depths, keys).best_move == p.remembered(
            p.deepened(Map::empty(), depths, keys).table,
            keys,
        ),
        keeps_a_move(p, p.deepened(Map::empty(), depths, keys).table, p.move_list(), keys),
        table_inside(p.deepened(Map::empty(), depths, keys).table),
        inside(p.deepened(Map::empty(), depths, keys).best),
    decreases depths,
{
    p.lemma_lists_its_moves();
    let empty = Map::<u64, TTEntry>::empty();
    if depths == 1 {
        assert(p.deepened(empty, 0, keys).table == empty);
        lemma_search_keeps_a_move(p, empty, -INF, INF as int, 1, keys);
    } else {
        lemma_deepened_keeps_a_move(p, depths - 1, keys);
        lemma_search_keeps_a_move(p, p.deepened(empty, depths - 1, keys).table, -INF, INF as int, depths, keys);
    }
}

/// The same of iterative deepening with aspiration windows of a width that
/// is not negative.
pub proof fn lemma_deepened_asp_keeps_a_move(p: Position, depths: int, window: int, keys: &HashTable)
    requires
        p.wf(),
        exists|m: ChessMove| p.legal(m, keys),
        1 <= depths <= MAX_DEPTH,
        window >= 0,
    ensures
        p.deepened_asp(Map::empty(), depths, window, keys).best_move is Some,
        p.deepened_asp(Map::empty(), depths, window, keys).best_move == p.remembered(
            p.deepened_asp(Map::empty(), depths, window, keys).table,
            keys,
        ),
        keeps_a_move(p, p.deepened_asp(Map::empty(), depths, window, keys).table, p.move_list(), keys),
        table_inside(p.deepened_asp(Map::empty(), depths, window, keys).table),
        inside(p.deepened_asp(Map::empty(), depths, window, keys).best),
    decreases depths,
{
    p.lemma_lists_its_moves();
    let empty = Map::<u64, TTEntry>::empty();
    if depths == 1 {
        assert(p.deepened_asp(empty, 0, window, keys).table == empty);
        assert(p.deepened_asp(empty, 0, window, keys).best == 0);
    } else {
        lemma_deepened_asp_keeps_a_move(p, depths - 1, window, keys);
    }
    let before = p.deepened_asp(empty, depths - 1, window, keys);
    let alpha = clamped(before.best - window);
    let beta = clamped(before.best + window);
    lemma_search_keeps_a_move(p, before.table, alpha, beta, depths, keys);
    let first = p.search_value(before.table, alpha, beta, depths, keys);
    if first.0 >= beta {
        lemma_search_keeps_a_move(p, first.1, first.0, INF as int, depths, keys);
    } else if first.0 <= alpha {
        lemma_search_keeps_a_move(p, first.1, -INF, first.0, depths, keys);
    }
}

} // verus!
