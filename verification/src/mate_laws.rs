//! A law of the search: a move that mates is found by every search of two
//! plies or more.
use vstd::prelude::*;
use crate::chess_move::ChessMove;
use crate::laws::lemma_legal_move_keeps_invariants;
use crate::position::Position;
use crate::search::{with_first, TTEntry, CHECKMATE, INF, MAX_DEPTH};
use crate::search_laws::lemma_with_first_holds;
use crate::search_model::{higher, stored, window_of};
use crate::zobrist::HashTable;

verus! {

/// The table holds for `key` nothing that was searched to `depth` or deeper.
pub open spec fn shallower(tt: Map<u64, TTEntry>, key: u64, depth: int) -> bool {
    match stored(tt, key) {
        Some(e) => e.depth < depth,
        None => true,
    }
}

/// The side to move is mated: its king is attacked and every move of the
/// list leaves it attacked.
pub open spec fn mated(c: Position, keys: &HashTable) -> bool {
    &&& c.in_check(c.side())
    &&& forall|n: ChessMove| #[trigger] c.move_list().contains(n) ==> c.apply(n, keys).in_check(c.side())
}

/// A search to `depth` stores nothing deeper than `depth`, and under the
/// keys of other positions nothing as deep.
pub proof fn lemma_search_keeps_shallower(
    q: Position,
    tt: Map<u64, TTEntry>,
    alpha: int,
    beta: int,
    depth: int,
    key: u64,
    bound: int,
    keys: &HashTable,
)
    requires
        shallower(tt, key, bound),
        0 <= depth <= bound <= MAX_DEPTH,
        depth < bound || q.hash != key,
    ensures
        shallower(q.search_value(tt, alpha, beta, depth, keys).1, key, bound),
    decreases depth, 1int, 0int,
{
    let w = window_of(stored(tt, q.hash), alpha, beta, depth);
    if w.cutoff is Some {
        q.lemma_search_cutoff(tt, alpha, beta, depth, keys);
    } else if depth <= 0 {
        q.lemma_search_leaf(tt, alpha, beta, depth, keys);
    } else {
        q.lemma_search_inner(tt, alpha, beta, depth, keys);
        let first = match stored(tt, q.hash) {
            Some(e) => e.best_move,
            None => None,
        };
        lemma_moves_keep_shallower(
            q,
            with_first(q.move_list(), first),
            0,
            tt,
            alpha,
            w.alpha,
            w.alpha,
            w.beta,
            depth,
            -INF,
            None,
            true,
            key,
            bound,
            keys,
        );
    }
}

/// The same of a search through the moves.
pub proof fn lemma_moves_keep_shallower(
    q: Position,
    list: Seq<ChessMove>,
    i: int,
    tt: Map<u64, TTEntry>,
    alpha_in: int,
    alpha_first: int,
    alpha: int,
    beta: int,
    depth: int,
    best: int,
    best_move: Option<ChessMove>,
    cant_move: bool,
    key: u64,
    bound: int,
    keys: &HashTable,
)
    requires
        shallower(tt, key, bound),
        0 <= i,
        1 <= depth <= bound <= MAX_DEPTH,
        depth < bound || q.hash != key,
    ensures
        shallower(
            q.search_moves(list, i, tt, alpha_in, alpha_first, alpha, beta, depth, best, best_move, cant_move, keys).1,
            key,
            bound,
        ),
    decreases depth, 0int, list.len() - i,
{
    if i >= list.len() {
        q.lemma_search_end(list, i, tt, alpha_in, alpha_first, alpha, beta, depth, best, best_move, cant_move, keys);
    } else {
        let child = q.apply(list[i], keys);
        if child.in_check(q.side()) {
            q.lemma_search_skip(
                list,
                i,
                tt,
                alpha_in,
                alpha_first,
                alpha,
                beta,
                depth,
                best,
                best_move,
                cant_move,
                keys,
            );
            lemma_moves_keep_shallower(
                q,
                list,
                i + 1,
                tt,
                alpha_in,
                alpha_first,
                alpha,
                beta,
                depth,
                best,
                best_move,
                cant_move,
                key,
                bound,
                keys,
            );
        } else {
            q.lemma_search_step(
                list,
                i,
                tt,
                alpha_in,
                alpha_first,
                alpha,
                beta,
                depth,
                best,
                best_move,
                cant_move,
                keys,
            );
            lemma_search_keeps_shallower(child, tt, -beta, -alpha, depth - 1, key, bound, keys);
            let below = child.search_value(tt, -beta, -alpha, depth - 1, keys);
            let best_now = higher(best, -below.0);
            let move_now = if -below.0 > best {
                Some(list[i])
            } else {
                best_move
            };
            if best_now < beta {
                lemma_moves_keep_shallower(
                    q,
                    list,
                    i + 1,
                    below.1,
                    alpha_in,
                    alpha_first,
                    higher(alpha, best_now),
                    beta,
                    depth,
                    best_now,
                    move_now,
                    false,
                    key,
                    bound,
                    keys,
                );
            }
        }
    }
}

/// A search through moves that all leave the own king attacked ends as a
/// search of a position without a move.
pub proof fn lemma_no_move_left(
    c: Position,
    list: Seq<ChessMove>,
    i: int,
    tt: Map<u64, TTEntry>,
    alpha_in: int,
    alpha_first: int,
    alpha: int,
    beta: int,
    depth: int,
    best: int,
    best_move: Option<ChessMove>,
    keys: &HashTable,
)
    requires
        0 <= i,
        forall|j: int| i <= j < list.len() ==> c.apply(#[trigger] list[j], keys).in_check(c.side()),
    ensures
        c.search_moves(list, i, tt, alpha_in, alpha_first, alpha, beta, depth, best, best_move, true, keys).0
            == c.end_score(CHECKMATE + depth),
    decreases list.len() - i,
{
    if i >= list.len() {
        c.lemma_search_end(list, i, tt, alpha_in, alpha_first, alpha, beta, depth, best, best_move, true, keys);
    } else {
        assert(c.apply(list[i], keys).in_check(c.side()));
        c.lemma_search_skip(list, i, tt, alpha_in, alpha_first, alpha, beta, depth, best, best_move, true, keys);
        lemma_no_move_left(c, list, i + 1, tt, alpha_in, alpha_first, alpha, beta, depth, best, best_move, keys);
    }
}

/// A search of a mated position to a depth beyond what the table holds for
/// it gives the score of the mate at that depth.
pub proof fn lemma_mated_value(
    c: Position,
    tt: Map<u64, TTEntry>,
    alpha: int,
    beta: int,
    depth: int,
    keys: &HashTable,
)
    requires
        mated(c, keys),
        shallower(tt, c.hash, depth),
        depth >= 1,
    ensures
        c.search_value(tt, alpha, beta, depth, keys).0 == -(CHECKMATE + depth),
{
    let entry = stored(tt, c.hash);
    let w = window_of(entry, alpha, beta, depth);
    assert(w.cutoff is None);
    c.lemma_search_inner(tt, alpha, beta, depth, keys);
    let first = match entry {
        Some(e) => e.best_move,
        None => None,
    };
    let list = with_first(c.move_list(), first);
    assert forall|j: int| 0 <= j < list.len() implies c.apply(#[trigger] list[j], keys).in_check(c.side()) by {
        assert(list.contains(list[j]));
        lemma_with_first_holds(c.move_list(), first, list[j]);
    }
    lemma_no_move_left(c, list, 0, tt, alpha, w.alpha, w.alpha, w.beta, depth, -INF, None, keys);
}

/// A search through a list that holds a mating move, up to the upper bound
/// of all scores, gives at least the score of that mate: either the best
/// score so far is as high, or the mating move is still to come, the table
/// holds nothing for the position after it that was searched as deep, and
/// no other move before it leads to a position of the same key.
pub proof fn lemma_mate_in_the_list(
    p: Position,
    list: Seq<ChessMove>,
    i: int,
    j: int,
    tt: Map<u64, TTEntry>,
    alpha_in: int,
    alpha_first: int,
    alpha: int,
    depth: int,
    best: int,
    best_move: Option<ChessMove>,
    cant_move: bool,
    keys: &HashTable,
)
    requires
        0 <= i <= list.len(),
        2 <= depth <= MAX_DEPTH,
        (!cant_move && best >= CHECKMATE + depth - 1) || ({
            &&& i <= j < list.len()
            &&& !p.apply(list[j], keys).in_check(p.side())
            &&& mated(p.apply(list[j], keys), keys)
            &&& shallower(tt, p.apply(list[j], keys).hash, depth - 1)
            &&& forall|k: int|
                i <= k < j ==> p.apply(#[trigger] list[k], keys).in_check(p.side()) || list[k] == list[j]
                    || p.apply(list[k], keys).hash != p.apply(list[j], keys).hash
        }),
    ensures
        p.search_moves(
            list,
            i,
            tt,
            alpha_in,
            alpha_first,
            alpha,
            INF as int,
            depth,
            best,
            best_move,
            cant_move,
            keys,
        ).0 >= CHECKMATE + depth - 1,
    decreases list.len() - i,
{
    let beta = INF as int;
    let found = !cant_move && best >= CHECKMATE + depth - 1;
    if i >= list.len() {
        p.lemma_search_end(list, i, tt, alpha_in, alpha_first, alpha, beta, depth, best, best_move, cant_move, keys);
    } else {
        let m = list[i];
        let child = p.apply(m, keys);
        if child.in_check(p.side()) {
            p.lemma_search_skip(
                list,
                i,
                tt,
                alpha_in,
                alpha_first,
                alpha,
                beta,
                depth,
                best,
                best_move,
                cant_move,
                keys,
            );
            lemma_mate_in_the_list(
                p,
                list,
                i + 1,
                j,
                tt,
                alpha_in,
                alpha_first,
                alpha,
                depth,
                best,
                best_move,
                cant_move,
                keys,
            );
        } else {
            p.lemma_search_step(
                list,
                i,
                tt,
                alpha_in,
                alpha_first,
                alpha,
                beta,
                depth,
                best,
                best_move,
                cant_move,
                keys,
            );
            let below = child.search_value(tt, -beta, -alpha, depth - 1, keys);
            let value = -below.0;
            let best_now = higher(best, value);
            let move_now = if value > best {
                Some(m)
            } else {
                best_move
            };
            if !found {
                if i == j || list[i] == list[j] {
                    lemma_mated_value(child, tt, -beta, -alpha, depth - 1, keys);
                } else {
                    lemma_search_keeps_shallower(
                        child,
                        tt,
                        -beta,
                        -alpha,
                        depth - 1,
                        p.apply(list[j], keys).hash,
                        depth - 1,
                        keys,
                    );
                }
            }
            if best_now < beta {
                lemma_mate_in_the_list(
                    p,
                    list,
                    i + 1,
                    j,
                    below.1,
                    alpha_in,
                    alpha_first,
                    higher(alpha, best_now),
                    depth,
                    best_now,
                    move_now,
                    false,
                    keys,
                );
            }
        }
    }
}

/// Mate in one: where a legal move leaves the other side mated, a search to
/// a depth of two or more in the full window scores at least the mate at
/// that depth, whatever the other moves lead to. The table must hold
/// nothing for the position that was searched as deep, nothing for the
/// mated position that was searched to the depth below, and no other legal
/// move may lead to a position with the key of the mated one.
pub proof fn lemma_mate_in_one(p: Position, m: ChessMove, tt: Map<u64, TTEntry>, depth: int, keys: &HashTable)
    requires
        p.wf(),
        p.legal(m, keys),
        p.apply(m, keys).in_check(1 - p.side()),
        forall|n: ChessMove| !p.apply(m, keys).legal(n, keys),
        2 <= depth <= MAX_DEPTH,
        shallower(tt, p.hash, depth),
        shallower(tt, p.apply(m, keys).hash, depth - 1),
        forall|n: ChessMove|
            p.legal(n, keys) && n != m ==> (#[trigger] p.apply(n, keys)).hash != p.apply(m, keys).hash,
    ensures
        p.search_value(tt, -INF, INF as int, depth, keys).0 >= CHECKMATE + depth - 1,
        p.search_value(tt, -INF, INF as int, depth, keys).0 >= CHECKMATE,
{
    let c = p.apply(m, keys);
    lemma_legal_move_keeps_invariants(p, m, keys);
    p.lemma_lists_its_moves();
    c.lemma_lists_its_moves();
    assert(mated(c, keys)) by {
        assert forall|n: ChessMove| #[trigger] c.move_list().contains(n) implies c.apply(n, keys).in_check(
            c.side(),
        ) by {
            assert(c.pseudo_legal(n));
            assert(!c.legal(n, keys));
        }
    }
    let entry = stored(tt, p.hash);
    let w = window_of(entry, -INF, INF as int, depth);
    assert(w.cutoff is None && w.alpha == -INF && w.beta == INF);
    p.lemma_search_inner(tt, -INF, INF as int, depth, keys);
    let first = match entry {
        Some(e) => e.best_move,
        None => None,
    };
    let list = with_first(p.move_list(), first);
    assert(p.move_list().contains(m));
    lemma_with_first_holds(p.move_list(), first, m);
    let j = choose|j: int| 0 <= j < list.len() && list[j] == m;
    crate::search::lemma_with_first(p.move_list(), first);
    assert forall|k: int| 0 <= k < j implies p.apply(#[trigger] list[k], keys).in_check(p.side()) || list[k]
        == list[j] || p.apply(list[k], keys).hash != c.hash by {
        let n = list[k];
        assert(list.contains(n));
        lemma_with_first_holds(p.move_list(), first, n);
        assert(p.pseudo_legal(n));
        if !p.apply(n, keys).in_check(p.side()) {
            assert(p.legal(n, keys));
        }
    }
    lemma_mate_in_the_list(p, list, 0, j, tt, -INF, -INF, -INF, depth, -INF, None, true, keys);
}

/// Mate in one under iterative deepening: from an empty table, the second
/// search of a position with a mating move scores at least the mate at
/// depth 2, and so ends the deepening. No other legal move may lead to a
/// position with the key of the mated one, and the two positions must
/// differ in their keys.
pub proof fn lemma_mate_in_one_deepened(p: Position, m: ChessMove, keys: &HashTable)
    requires
        p.wf(),
        p.legal(m, keys),
        p.apply(m, keys).in_check(1 - p.side()),
        forall|n: ChessMove| !p.apply(m, keys).legal(n, keys),
        p.apply(m, keys).hash != p.hash,
        forall|n: ChessMove|
            p.legal(n, keys) && n != m ==> (#[trigger] p.apply(n, keys)).hash != p.apply(m, keys).hash,
    ensures
        p.deepened(Map::empty(), 2, keys).best >= CHECKMATE + 1,
{
    let empty = Map::<u64, TTEntry>::empty();
    let c = p.apply(m, keys);
    assert(p.deepened(empty, 0, keys).table == empty);
    let once = p.search_value(empty, -INF, INF as int, 1, keys).1;
    assert(p.deepened(empty, 1, keys).table == once);
    lemma_search_keeps_shallower(p, empty, -INF, INF as int, 1, p.hash, 2, keys);
    lemma_search_keeps_shallower(p, empty, -INF, INF as int, 1, c.hash, 1, keys);
    lemma_mate_in_one(p, m, once, 2, keys);
}

} // verus!
