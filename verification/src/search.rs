//! Iterative-deepening alpha-beta search with a transposition table.
use vstd::prelude::*;
use std::time::Instant;
use core::time::Duration;
use crate::board::Board;
use crate::chess_move::ChessMove;
use crate::position::Position;
use crate::search_model::{entry_for, stored, window_of, Deepening, Window};
use crate::zobrist::HashTable;

verus! {

// What a stored value is: the exact score, or a bound on it.
pub const EXACT_VALUE: u8 = 0;
pub const LOWERBOUND: u8 = 1;
pub const UPPERBOUND: u8 = 2;

/// What the search remembers of a position.
#[derive(Clone, Copy, Debug)]
pub struct TTEntry {
    pub typ: u8,
    pub value: i32,
    pub depth: i32,
    pub best_move: Option<ChessMove>,
}

/// The transposition table: a hash map of `hashbrown` from the keys of
/// positions to what the search remembers of them.
#[verifier::external_body]
pub struct TranspositionTable {
    map: hashbrown::HashMap<u64, TTEntry>,
}

/// What a transposition table holds: the entry of each key.
pub uninterp spec fn entries(table: TranspositionTable) -> Map<u64, TTEntry>;

/// The table without entries.
pub open spec fn no_entries() -> Map<u64, TTEntry> {
    Map::empty()
}

/// `HashMap::new` of `hashbrown`: a map without entries.
#[verifier::external_body]
fn table_new() -> (table: TranspositionTable)
    ensures
        entries(table) == no_entries(),
{
    TranspositionTable { map: hashbrown::HashMap::new() }
}

/// `HashMap::get` of `hashbrown`: the entry stored under `key`, if any.
#[verifier::external_body]
fn table_get(table: &TranspositionTable, key: u64) -> (r: Option<TTEntry>)
    ensures
        r == if entries(*table).contains_key(key) {
            Some(entries(*table)[key])
        } else {
            None
        },
{
    table.map.get(&key).copied()
}

/// `HashMap::insert` of `hashbrown`: afterwards `key` has the entry `entry`,
/// and every other key what it had.
#[verifier::external_body]
fn table_insert(table: &mut TranspositionTable, key: u64, entry: TTEntry)
    ensures
        entries(*final(table)) == entries(*old(table)).insert(key, entry),
{
    table.map.insert(key, entry);
}

/// `HashMap::len` of `hashbrown`: the number of entries.
#[verifier::external_body]
fn table_len(table: &TranspositionTable) -> (n: usize)
    ensures
        n == entries(*table).len(),
{
    table.map.len()
}

/// `HashMap::clear` of `hashbrown`: afterwards the map has no entries.
#[verifier::external_body]
fn table_clear(table: &mut TranspositionTable)
    ensures
        entries(*final(table)) == no_entries(),
{
    table.map.clear();
}

/// `Instant` of std: a moment in time. It is carried through; nothing is
/// known of what is inside.
#[verifier::external_type_specification]
#[verifier::external_body]
pub struct ExInstant(Instant);

/// `Instant::now` of std: the present moment. Nothing is claimed of it.
#[verifier::external_body]
fn now() -> Instant {
    Instant::now()
}

/// `Instant::elapsed` of std: the time that has passed since `start`.
/// Nothing is claimed of it.
#[verifier::external_body]
fn elapsed(start: &Instant) -> Duration {
    start.elapsed()
}

/// `Duration::as_millis` of std: the whole milliseconds of a duration.
/// Nothing is claimed of the number.
#[verifier::external_body]
fn as_millis(duration: &Duration) -> u128 {
    duration.as_millis()
}

/// The milliseconds that have passed since `start`.
fn millis_since(start: &Instant) -> u128 {
    let duration = elapsed(start);
    as_millis(&duration)
}

/// The score of a mate, before the depth is added.
pub const CHECKMATE: i32 = 100000;
/// The bound of all scores.
pub const INF: i32 = 10000000;
/// The greatest depth of a search.
pub const MAX_DEPTH: i32 = 100;

/// A score that the search can return.
pub open spec fn is_score(value: int) -> bool {
    -INF <= value <= INF
}

impl TranspositionTable {
    /// Every stored value is a score.
    pub open spec fn wf(&self) -> bool {
        forall|key: u64| entries(*self).contains_key(key) ==> is_score(#[trigger] entries(*self)[key].value as int)
    }

    /// A table without entries.
    pub fn new() -> (table: Self)
        ensures
            entries(table) == no_entries(),
            table.wf(),
    {
        table_new()
    }

    /// The number of entries.
    pub fn len(&self) -> (n: usize)
        ensures
            n == entries(*self).len(),
    {
        table_len(self)
    }

    /// Forgets every entry.
    pub fn clear(&mut self)
        ensures
            entries(*final(self)) == no_entries(),
            final(self).wf(),
    {
        table_clear(self);
    }

    /// The entry of `key`, if there is one.
    pub fn get(&self, key: u64) -> (r: Option<TTEntry>)
        ensures
            r == stored(entries(*self), key),
    {
        table_get(self, key)
    }

    /// Stores `entry` under `key`, in place of what was there.
    pub fn insert(&mut self, key: u64, entry: TTEntry)
        requires
            old(self).wf(),
            is_score(entry.value as int),
        ensures
            entries(*final(self)) == entries(*old(self)).insert(key, entry),
            final(self).wf(),
    {
        table_insert(self, key, entry);
    }
}

/// The kind of bound that a value found in the window from `alpha` to `beta`
/// is: an upper bound at or below the window, a lower bound at or above it,
/// exact inside.
pub open spec fn bound_kind(value: int, alpha: int, beta: int) -> u8 {
    if value <= alpha {
        UPPERBOUND
    } else if value >= beta {
        LOWERBOUND
    } else {
        EXACT_VALUE
    }
}

/// Stores what a search of `board` to `depth` has found.
pub fn save_tte(
    board: &Board,
    tt: &mut TranspositionTable,
    value: i32,
    depth: i32,
    alpha: i32,
    beta: i32,
    best_move: Option<ChessMove>,
)
    requires
        old(tt).wf(),
        is_score(value as int),
    ensures
        entries(*final(tt)) == entries(*old(tt)).insert(
            board@.hash,
            entry_for(value as int, depth as int, alpha as int, beta as int, best_move),
        ),
        final(tt).wf(),
{
    let typ = if value <= alpha {
        UPPERBOUND
    } else if value >= beta {
        LOWERBOUND
    } else {
        EXACT_VALUE
    };
    let tte = TTEntry { typ, value, depth, best_move };
    tt.insert(board.meta.hash, tte);
}

/// What a stored entry does to a search to `depth` in the window from
/// `alpha` to `beta`: a value to return at once, or the window to search in.
pub struct Probe {
    pub cutoff: Option<i32>,
    pub alpha: i32,
    pub beta: i32,
}

impl View for Probe {
    type V = Window;

    open spec fn view(&self) -> Window {
        Window {
            cutoff: match self.cutoff {
                Some(value) => Some(value as int),
                None => None,
            },
            alpha: self.alpha as int,
            beta: self.beta as int,
        }
    }
}

/// Applies a stored entry to the window of a search.
pub fn probe_entry(entry: Option<TTEntry>, alpha: i32, beta: i32, depth: i32) -> (r: Probe)
    ensures
        r@ == window_of(entry, alpha as int, beta as int, depth as int),
{
    match entry {
        Some(tte) => {
            if tte.depth >= depth {
                if tte.typ == EXACT_VALUE {
                    return Probe { cutoff: Some(tte.value), alpha, beta };
                }
                let mut a = alpha;
                let mut b = beta;
                if tte.typ == LOWERBOUND && tte.value > alpha {
                    a = tte.value;
                } else if tte.typ == UPPERBOUND && tte.value < beta {
                    b = tte.value;
                }
                if a >= b {
                    return Probe { cutoff: Some(tte.value), alpha: a, beta: b };
                }
                Probe { cutoff: None, alpha: a, beta: b }
            } else {
                Probe { cutoff: None, alpha, beta }
            }
        },
        None => Probe { cutoff: None, alpha, beta },
    }
}

/// The place of `m` in `list`, or the length of `list` if it is not there.
pub open spec fn place_of(list: Seq<ChessMove>, m: ChessMove) -> int
    decreases list.len(),
{
    if list.len() == 0 {
        0
    } else if list[0] == m {
        0
    } else {
        1 + place_of(list.drop_first(), m)
    }
}

/// The list with the move `first` taken to the front, if it is in the list.
pub open spec fn with_first(list: Seq<ChessMove>, first: Option<ChessMove>) -> Seq<ChessMove> {
    match first {
        Some(m) => {
            let k = place_of(list, m);
            if k < list.len() {
                seq![m] + list.take(k) + list.skip(k + 1)
            } else {
                list
            }
        },
        None => list,
    }
}

/// The place of a move is where it stands with no equal move before it.
pub proof fn lemma_place_of(list: Seq<ChessMove>, m: ChessMove, k: int)
    requires
        0 <= k <= list.len(),
        forall|j: int| 0 <= j < k ==> list[j] != m,
        k == list.len() || list[k] == m,
    ensures
        place_of(list, m) == k,
    decreases list.len(),
{
    if list.len() > 0 && k > 0 {
        lemma_place_of(list.drop_first(), m, k - 1);
    }
}

/// Every move of the reordered list is a move of the list.
pub proof fn lemma_with_first(list: Seq<ChessMove>, first: Option<ChessMove>)
    ensures
        with_first(list, first).len() == list.len(),
        forall|i: int|
            0 <= i < list.len() ==> list.contains(#[trigger] with_first(list, first)[i]),
{
    let r = with_first(list, first);
    match first {
        Some(m) => {
            let k = place_of(list, m);
            lemma_place_bounds(list, m);
            if k < list.len() {
                assert forall|i: int| 0 <= i < list.len() implies list.contains(#[trigger] r[i]) by {
                    if i == 0 {
                        assert(r[i] == list[k]);
                    } else if i <= k {
                        assert(r[i] == list[i - 1]);
                    } else {
                        assert(r[i] == list[i]);
                    }
                }
            } else {
                assert forall|i: int| 0 <= i < list.len() implies list.contains(#[trigger] r[i]) by {
                    assert(r[i] == list[i]);
                }
            }
        },
        None => {
            assert forall|i: int| 0 <= i < list.len() implies list.contains(#[trigger] r[i]) by {
                assert(r[i] == list[i]);
            }
        },
    }
}

/// The place of a move lies in the list or right behind it.
pub proof fn lemma_place_bounds(list: Seq<ChessMove>, m: ChessMove)
    ensures
        0 <= place_of(list, m) <= list.len(),
        place_of(list, m) < list.len() ==> list[place_of(list, m)] == m,
    decreases list.len(),
{
    if list.len() > 0 && list[0] != m {
        lemma_place_bounds(list.drop_first(), m);
    }
}

/// The list with `first` taken to the front, if it is in the list.
pub fn order_moves(list: Vec<ChessMove>, first: Option<ChessMove>) -> (r: Vec<ChessMove>)
    ensures
        r@ == with_first(list@, first),
{
    let m = match first {
        Some(m) => m,
        None => {
            return list;
        },
    };
    let n = list.len();
    let mut k: usize = 0;
    while k < n && list[k] != m
        invariant
            k <= n,
            n == list@.len(),
            forall|j: int| 0 <= j < k ==> list@[j] != m,
        decreases n - k,
    {
        k += 1;
    }
    proof {
        lemma_place_of(list@, m, k as int);
    }
    if k >= n {
        return list;
    }
    let mut r: Vec<ChessMove> = Vec::with_capacity(n);
    r.push(m);
    let mut i: usize = 0;
    while i < n
        invariant
            i <= n,
            k < n,
            n == list@.len(),
            r@ == if i <= k {
                seq![m] + list@.take(i as int)
            } else {
                seq![m] + list@.take(k as int) + list@.subrange(k + 1, i as int)
            },
        decreases n - i,
    {
        if i != k {
            r.push(list[i]);
        }
        proof {
            if i < k {
                assert(seq![m] + list@.take(i + 1) =~= (seq![m] + list@.take(i as int)).push(list@[i as int]));
            } else if i == k {
                assert(seq![m] + list@.take(k as int) + list@.subrange(k + 1, i + 1) =~= seq![m]
                    + list@.take(i as int));
            } else {
                assert(seq![m] + list@.take(k as int) + list@.subrange(k + 1, i + 1) =~= (seq![m]
                    + list@.take(k as int) + list@.subrange(k + 1, i as int)).push(list@[i as int]));
            }
        }
        i += 1;
    }
    proof {
        assert(list@.subrange(k + 1, n as int) =~= list@.skip(k + 1));
    }
    r
}

/// The move is in the list.
pub fn list_contains(list: &Vec<ChessMove>, m: ChessMove) -> (r: bool)
    ensures
        r == list@.contains(m),
{
    let mut i: usize = 0;
    while i < list.len()
        invariant
            i <= list@.len(),
            forall|j: int| 0 <= j < i ==> list@[j] != m,
        decreases list@.len() - i,
    {
        if list[i] == m {
            return true;
        }
        i += 1;
    }
    false
}

/// Searches the captures and checks that follow a position until it is
/// quiet, and returns its score inside the window from `alpha` to `beta`.
/// Sets `stopped` and returns 0 when more than `limit` milliseconds have
/// passed since `start`; unless stopped, the score is that of
/// `quiesce_value`. A limit of `u128::MAX` cannot be passed, so such a
/// search is never stopped.
pub fn quiesce_i(board: &Board, alpha: i32, beta: i32, stopped: &mut bool, start: &Instant, limit: u128) -> (score:
    i32)
    requires
        board.wf(),
        is_score(alpha as int),
        is_score(beta as int),
    ensures
        is_score(score as int),
        *old(stopped) ==> *final(stopped),
        !*old(stopped) && *final(stopped) ==> score == 0,
        limit == u128::MAX ==> *final(stopped) == *old(stopped),
        !*final(stopped) ==> score == board@.quiesce_value(alpha as int, beta as int, &board.tables.keys),
    decreases board@.plies_left(), 1int,
{
    let elapsed = millis_since(start);
    quiesce_at(board, alpha, beta, stopped, start, limit, elapsed)
}

/// The quiescence search for the clock reading `elapsed` that was taken at
/// its entry. A reading above `limit` sets `stopped` and gives 0 at once.
/// With any other reading the position is searched; `stopped` is then set
/// only by a search further down, and left as it was the score is that of
/// `quiesce_value`.
pub fn quiesce_at(
    board: &Board,
    alpha: i32,
    beta: i32,
    stopped: &mut bool,
    start: &Instant,
    limit: u128,
    elapsed: u128,
) -> (score: i32)
    requires
        board.wf(),
        is_score(alpha as int),
        is_score(beta as int),
    ensures
        is_score(score as int),
        elapsed > limit ==> *final(stopped) && score == 0,
        *old(stopped) ==> *final(stopped),
        !*old(stopped) && *final(stopped) ==> score == 0,
        limit == u128::MAX ==> *final(stopped) == *old(stopped),
        !*final(stopped) ==> score == board@.quiesce_value(alpha as int, beta as int, &board.tables.keys),
    decreases board@.plies_left(), 0int,
{
    if elapsed > limit {
        *stopped = true;
        return 0;
    }
    let ghost p = board@;
    let ghost keys = &board.tables.keys;
    let ghost total = p.quiesce_value(alpha as int, beta as int, keys);
    let mut lower = alpha;
    let standing_eval = board.evaluate_relative();
    if standing_eval >= beta {
        return beta;
    }
    if lower < standing_eval {
        lower = standing_eval;
    }
    let color = board.side_to_move();
    let pseudo_legal_moves = board.pseudo_legal_moves();
    if pseudo_legal_moves.len() == 0 {
        proof {
            p.lemma_quiesce_end(pseudo_legal_moves@, 0, lower as int, beta as int, true, keys);
        }
        if board.in_check(color) {
            // In check and can't move => Checkmate
            return -CHECKMATE;
        } else {
            // Not in check and can't move => Stalemate
            return 0;
        }
    }
    let mut cant_move = true;
    let mut i: usize = 0;
    while i < pseudo_legal_moves.len()
        invariant
            board.wf(),
            p == board@,
            keys == &board.tables.keys,
            color == p.side(),
            i <= pseudo_legal_moves@.len(),
            pseudo_legal_moves@ == p.move_list(),
            forall|m: ChessMove| #[trigger] pseudo_legal_moves@.contains(m) <==> p.pseudo_legal(m),
            is_score(lower as int),
            is_score(beta as int),
            *old(stopped) == *stopped,
            elapsed <= limit,
            total == p.quiesce_value(alpha as int, beta as int, keys),
            p.quiesce_moves(pseudo_legal_moves@, i as int, lower as int, beta as int, cant_move, keys)
                == total,
        decreases pseudo_legal_moves@.len() - i,
    {
        let pseudo_legal_move = pseudo_legal_moves[i];
        proof {
            assert(pseudo_legal_moves@.contains(pseudo_legal_move));
            p.lemma_pseudo_legal_accepts(pseudo_legal_move);
            p.lemma_move_lowers_plies_left(pseudo_legal_move, keys);
            p.lemma_quiesce_step(pseudo_legal_moves@, i as int, lower as int, beta as int, cant_move, keys);
        }
        let captures = pseudo_legal_move.is_capture(board);
        let mut new_board = board.clone();
        new_board.make_move(&pseudo_legal_move);
        if !new_board.in_check(color) {
            // It is a legal move
            cant_move = false;
            let should_branch = captures || new_board.in_check(1 - color);
            if should_branch {
                let score = -quiesce_i(&new_board, -beta, -lower, stopped, start, limit);
                if *stopped {
                    return 0;
                }
                if score >= beta {
                    return beta;
                }
                if score > lower {
                    lower = score;
                }
            }
        }
        i += 1;
    }
    proof {
        p.lemma_quiesce_end(pseudo_legal_moves@, i as int, lower as int, beta as int, cant_move, keys);
    }
    if cant_move {
        if board.in_check(color) {
            // In check and can't move => Checkmate
            return -CHECKMATE;
        } else {
            // Not in check and can't move => Stalemate
            return 0;
        }
    }
    lower
}

/// Fail-soft negamax to `depth` in the window from `alpha` to `beta`, with
/// the transposition table `tt`. Sets `stopped` and returns 0 when more than
/// `limit` milliseconds have passed since `start`; a caller then ignores the
/// value. Unless stopped, the score and the table afterwards are those of
/// `search_value`, and the table has an entry for the position. A limit of
/// `u128::MAX` cannot be passed, so such a search is never stopped.
pub fn alpha_beta_tt_i(
    board: &Board,
    tt: &mut TranspositionTable,
    alpha: i32,
    beta: i32,
    depth: i32,
    stopped: &mut bool,
    start: &Instant,
    limit: u128,
) -> (value: i32)
    requires
        board.wf(),
        old(tt).wf(),
        is_score(alpha as int),
        is_score(beta as int),
        0 <= depth <= MAX_DEPTH,
    ensures
        final(tt).wf(),
        is_score(value as int),
        *old(stopped) ==> *final(stopped),
        !*old(stopped) && *final(stopped) ==> value == 0,
        limit == u128::MAX ==> *final(stopped) == *old(stopped),
        !*final(stopped) ==> entries(*final(tt)).contains_key(board@.hash),
        !*final(stopped) ==> (value as int, entries(*final(tt))) == board@.search_value(
            entries(*old(tt)),
            alpha as int,
            beta as int,
            depth as int,
            &board.tables.keys,
        ),
    decreases depth, 1int,
{
    let elapsed = millis_since(start);
    alpha_beta_at(board, tt, alpha, beta, depth, stopped, start, limit, elapsed)
}

/// The search for the clock reading `elapsed` that was taken at its entry.
/// A reading above `limit` sets `stopped`, gives 0 at once and leaves the
/// table as it was. With any other reading the position is searched;
/// `stopped` is then set only by a search further down, and left as it was
/// the score and the table afterwards are those of `search_value`.
pub fn alpha_beta_at(
    board: &Board,
    tt: &mut TranspositionTable,
    alpha: i32,
    beta: i32,
    depth: i32,
    stopped: &mut bool,
    start: &Instant,
    limit: u128,
    elapsed: u128,
) -> (value: i32)
    requires
        board.wf(),
        old(tt).wf(),
        is_score(alpha as int),
        is_score(beta as int),
        0 <= depth <= MAX_DEPTH,
    ensures
        final(tt).wf(),
        is_score(value as int),
        elapsed > limit ==> *final(stopped) && value == 0 && entries(*final(tt)) == entries(*old(tt)),
        *old(stopped) ==> *final(stopped),
        !*old(stopped) && *final(stopped) ==> value == 0,
        limit == u128::MAX ==> *final(stopped) == *old(stopped),
        !*final(stopped) ==> entries(*final(tt)).contains_key(board@.hash),
        !*final(stopped) ==> (value as int, entries(*final(tt))) == board@.search_value(
            entries(*old(tt)),
            alpha as int,
            beta as int,
            depth as int,
            &board.tables.keys,
        ),
    decreases depth, 0int,
{
    if elapsed > limit {
        *stopped = true;
        return 0;
    }
    let ghost p = board@;
    let ghost keys = &board.tables.keys;
    let ghost total = p.search_value(entries(*tt), alpha as int, beta as int, depth as int, keys);
    let ghost table = entries(*tt);
    let alpha_in = alpha;
    let option_tte = tt.get(board.meta.hash);
    let probe = probe_entry(option_tte, alpha, beta, depth);
    match probe.cutoff {
        Some(value) => {
            proof {
                p.lemma_search_cutoff(table, alpha as int, beta as int, depth as int, keys);
            }
            return value;
        },
        None => {},
    }
    let alpha_first = probe.alpha;
    let mut lower = probe.alpha;
    let upper = probe.beta;
    if depth == 0 {
        proof {
            p.lemma_search_leaf(table, alpha as int, beta as int, depth as int, keys);
        }
        let value = quiesce_i(board, lower, upper, stopped, start, limit);
        save_tte(board, tt, value, depth, lower, upper, None);
        return value;
    }
    proof {
        p.lemma_search_inner(table, alpha as int, beta as int, depth as int, keys);
    }
    let color = board.side_to_move();
    let tt_move = match option_tte {
        Some(tte) => tte.best_move,
        None => None,
    };
    let generated = board.pseudo_legal_moves();
    let ghost generated_moves = generated@;
    let moves = order_moves(generated, tt_move);
    proof {
        lemma_with_first(generated_moves, tt_move);
        assert forall|j: int| 0 <= j < moves@.len() implies p.pseudo_legal(#[trigger] moves@[j]) by {
            assert(generated_moves.contains(moves@[j]));
        }
    }
    let mut best: i32 = -INF;
    let mut best_move: Option<ChessMove> = None;
    let mut cant_move = true;
    let mut i: usize = 0;
    while i < moves.len()
        invariant
            board.wf(),
            tt.wf(),
            p == board@,
            keys == &board.tables.keys,
            color == p.side(),
            0 < depth <= MAX_DEPTH,
            i <= moves@.len(),
            forall|j: int| 0 <= j < moves@.len() ==> p.pseudo_legal(#[trigger] moves@[j]),
            is_score(lower as int),
            is_score(upper as int),
            is_score(best as int),
            is_score(alpha_in as int),
            is_score(alpha_first as int),
            *old(stopped) == *stopped,
            elapsed <= limit,
            total == p.search_value(entries(*old(tt)), alpha as int, beta as int, depth as int, keys),
            p.search_moves(
                moves@,
                i as int,
                entries(*tt),
                alpha_in as int,
                alpha_first as int,
                lower as int,
                upper as int,
                depth as int,
                best as int,
                best_move,
                cant_move,
                keys,
            ) == total,
        decreases moves@.len() - i,
    {
        let chess_move = moves[i];
        let ghost table_now = entries(*tt);
        proof {
            p.lemma_pseudo_legal_accepts(chess_move);
        }
        let mut new_board = board.clone();
        new_board.make_move(&chess_move);
        if !new_board.in_check(color) {
            // It is a legal move
            proof {
                p.lemma_search_step(
                    moves@,
                    i as int,
                    table_now,
                    alpha_in as int,
                    alpha_first as int,
                    lower as int,
                    upper as int,
                    depth as int,
                    best as int,
                    best_move,
                    cant_move,
                    keys,
                );
            }
            cant_move = false;
            let value = -alpha_beta_tt_i(&new_board, tt, -upper, -lower, depth - 1, stopped, start, limit);
            if *stopped {
                return 0;
            }
            if value > best {
                best = value;
                best_move = Some(chess_move);
            }
            if best > lower {
                lower = best;
            }
            if best >= upper {
                save_tte(board, tt, best, depth, alpha_in, upper, best_move);
                return best;
            }
        } else {
            proof {
                p.lemma_search_skip(
                    moves@,
                    i as int,
                    table_now,
                    alpha_in as int,
                    alpha_first as int,
                    lower as int,
                    upper as int,
                    depth as int,
                    best as int,
                    best_move,
                    cant_move,
                    keys,
                );
            }
        }
        i += 1;
    }
    proof {
        p.lemma_search_end(
            moves@,
            i as int,
            entries(*tt),
            alpha_in as int,
            alpha_first as int,
            lower as int,
            upper as int,
            depth as int,
            best as int,
            best_move,
            cant_move,
            keys,
        );
    }
    if cant_move {
        let value = if board.in_check(color) {
            // In check and can't move => Checkmate
            -CHECKMATE - depth
        } else {
            // Not in check and can't move => Stalemate
            0
        };
        save_tte(board, tt, value, depth, alpha_first, upper, None);
        return value;
    }
    save_tte(board, tt, best, depth, alpha_in, upper, best_move);
    best
}

/// The width of the window that `iterative_deepening_asp` searches in.
pub const ASPIRATION_WINDOW: i32 = 100;

/// Searches to `depth` in a window of `window` to either side of
/// `prev_value`, and once more in the open half where the value falls
/// outside the window. Unless stopped, the score and the table afterwards
/// are those of `aspired`; with `time_given` at `u128::MAX` the search is
/// never stopped.
pub fn aspiration(
    board: &Board,
    time_given: u128,
    tt: &mut TranspositionTable,
    stopped: &mut bool,
    start: &Instant,
    depth: i32,
    prev_value: i32,
    window: i32,
) -> (value: i32)
    requires
        board.wf(),
        old(tt).wf(),
        is_score(prev_value as int),
        0 <= window <= INF,
        0 <= depth <= MAX_DEPTH,
    ensures
        final(tt).wf(),
        is_score(value as int),
        *old(stopped) ==> *final(stopped),
        time_given == u128::MAX ==> *final(stopped) == *old(stopped),
        !*final(stopped) ==> entries(*final(tt)).contains_key(board@.hash),
        !*final(stopped) ==> (value as int, entries(*final(tt))) == board@.aspired(
            entries(*old(tt)),
            depth as int,
            prev_value as int,
            window as int,
            &board.tables.keys,
        ),
{
    let alpha = if prev_value - window < -INF {
        -INF
    } else {
        prev_value - window
    };
    let beta = if prev_value + window > INF {
        INF
    } else {
        prev_value + window
    };
    let mut value = alpha_beta_tt_i(board, tt, alpha, beta, depth, stopped, start, time_given);
    if value >= beta {
        value = alpha_beta_tt_i(board, tt, value, INF, depth, stopped, start, time_given);
    } else if value <= alpha {
        value = alpha_beta_tt_i(board, tt, -INF, value, depth, stopped, start, time_given);
    }
    value
}

/// The best move that the table remembers for the position, if it is one
/// of the legal moves `legal`.
fn remembered_move(board: &Board, tt: &TranspositionTable, legal: &Vec<ChessMove>) -> (r: Option<ChessMove>)
    requires
        forall|m: ChessMove| #[trigger] legal@.contains(m) <==> board@.legal(m, &board.tables.keys),
    ensures
        r == board@.remembered(entries(*tt), &board.tables.keys),
{
    match tt.get(board.meta.hash) {
        Some(tte) => match tte.best_move {
            Some(m) => {
                if list_contains(legal, m) {
                    Some(m)
                } else {
                    None
                }
            },
            None => None,
        },
        None => None,
    }
}

/// Every move that deepening keeps is a legal move.
pub proof fn lemma_deepened_move(p: Position, tt: Map<u64, TTEntry>, depths: int, keys: &HashTable)
    ensures
        match p.deepened(tt, depths, keys).best_move {
            Some(m) => p.legal(m, keys),
            None => true,
        },
    decreases depths,
{
    if depths > 0 {
        lemma_deepened_move(p, tt, depths - 1, keys);
    }
}

/// Every move that deepening in windows keeps is a legal move.
pub proof fn lemma_deepened_asp_move(p: Position, tt: Map<u64, TTEntry>, depths: int, window: int, keys: &HashTable)
    ensures
        match p.deepened_asp(tt, depths, window, keys).best_move {
            Some(m) => p.legal(m, keys),
            None => true,
        },
    decreases depths,
{
    if depths > 0 {
        lemma_deepened_asp_move(p, tt, depths - 1, window, keys);
    }
}

/// Iterative deepening with aspiration windows. Returns the score, the best
/// move and the number of depths that were searched to the end; score and
/// move are those of `deepened_asp` after that many searches. The search
/// ends when the time is used up, when a mate is found or at `MAX_DEPTH`.
/// With `time_given` at `u128::MAX` no search is stopped half-way: at least
/// the first depth is searched to the end, and the table afterwards is that
/// of `deepened_asp` too; from an empty table a position with a legal move
/// then has the move that the last search has left in the table for it.
pub fn search_depths_asp(board: &Board, time_given: u128, tt: &mut TranspositionTable) -> (r: (
    i32,
    Option<ChessMove>,
    i32,
))
    requires
        board.wf(),
        old(tt).wf(),
    ensures
        final(tt).wf(),
        is_score(r.0 as int),
        0 <= r.2 <= MAX_DEPTH,
        ({
            let d = board@.deepened_asp(
                entries(*old(tt)),
                r.2 as int,
                ASPIRATION_WINDOW as int,
                &board.tables.keys,
            );
            r.0 == d.best && r.1 == d.best_move
        }),
        forall|k: int|
            1 <= k < r.2 ==> (#[trigger] board@.deepened_asp(
                entries(*old(tt)),
                k,
                ASPIRATION_WINDOW as int,
                &board.tables.keys,
            )).best < CHECKMATE,
        time_given == u128::MAX ==> r.2 >= 1 && entries(*final(tt)) == board@.deepened_asp(
            entries(*old(tt)),
            r.2 as int,
            ASPIRATION_WINDOW as int,
            &board.tables.keys,
        ).table,
        time_given == u128::MAX && entries(*old(tt)) == no_entries() && (exists|m: ChessMove|
            board@.legal(m, &board.tables.keys)) ==> r.1 is Some && r.1 == board@.remembered(
            entries(*final(tt)),
            &board.tables.keys,
        ),
{
    let ghost p = board@;
    let ghost keys = &board.tables.keys;
    let ghost first = entries(*tt);
    let legal = board.legal_moves();
    let mut best: i32 = 0;
    let mut best_move: Option<ChessMove> = None;
    let started_time = now();
    let mut depth: i32 = 1;
    let mut done: i32 = 0;
    while depth <= MAX_DEPTH
        invariant_except_break
            done == depth - 1,
            p.deepened_asp(first, done as int, ASPIRATION_WINDOW as int, keys) == (Deepening {
                best: best as int,
                best_move,
                table: entries(*tt),
            }),
            forall|k: int|
                1 <= k <= done ==> (#[trigger] p.deepened_asp(first, k, ASPIRATION_WINDOW as int, keys)).best
                    < CHECKMATE,
        invariant
            board.wf(),
            tt.wf(),
            p == board@,
            keys == &board.tables.keys,
            1 <= depth <= MAX_DEPTH + 1,
            is_score(best as int),
            forall|m: ChessMove| #[trigger] legal@.contains(m) <==> p.legal(m, keys),
        ensures
            0 <= done <= MAX_DEPTH,
            is_score(best as int),
            tt.wf(),
            best == p.deepened_asp(first, done as int, ASPIRATION_WINDOW as int, keys).best,
            best_move == p.deepened_asp(first, done as int, ASPIRATION_WINDOW as int, keys).best_move,
            forall|k: int|
                1 <= k < done ==> (#[trigger] p.deepened_asp(first, k, ASPIRATION_WINDOW as int, keys)).best
                    < CHECKMATE,
            time_given == u128::MAX ==> done >= 1 && entries(*tt) == p.deepened_asp(
                first,
                done as int,
                ASPIRATION_WINDOW as int,
                keys,
            ).table,
        decreases MAX_DEPTH + 1 - depth,
    {
        let mut stopped = false;
        let eval = aspiration(
            board,
            time_given,
            tt,
            &mut stopped,
            &started_time,
            depth,
            best,
            ASPIRATION_WINDOW,
        );
        if stopped {
            break;
        }
        best = eval;
        match remembered_move(board, tt, &legal) {
            Some(m) => {
                best_move = Some(m);
            },
            None => {},
        }
        done = depth;
        if best >= CHECKMATE {
            break;
        }
        if millis_since(&started_time) >= time_given {
            break;
        }
        depth += 1;
    }
    proof {
        if time_given == u128::MAX && first == no_entries() && (exists|m: ChessMove| p.legal(m, keys)) {
            crate::search_laws::lemma_deepened_asp_keeps_a_move(
                p,
                done as int,
                ASPIRATION_WINDOW as int,
                keys,
            );
        }
    }
    (best, best_move, done)
}

/// Iterative deepening. Returns the score, the best move and the number of
/// depths that were searched to the end; score and move are those of
/// `deepened` after that many searches. The search ends when the time is
/// used up, when a mate is found or at `MAX_DEPTH`. With `time_given` at
/// `u128::MAX` no search is stopped half-way: at least the first depth is
/// searched to the end, and the table afterwards is that of `deepened` too;
/// from an empty table a position with a legal move then has the move that
/// the last search has left in the table for it.
pub fn search_depths(board: &Board, time_given: u128, tt: &mut TranspositionTable) -> (r: (
    i32,
    Option<ChessMove>,
    i32,
))
    requires
        board.wf(),
        old(tt).wf(),
    ensures
        final(tt).wf(),
        is_score(r.0 as int),
        0 <= r.2 <= MAX_DEPTH,
        ({
            let d = board@.deepened(entries(*old(tt)), r.2 as int, &board.tables.keys);
            r.0 == d.best && r.1 == d.best_move
        }),
        forall|k: int|
            1 <= k < r.2 ==> (#[trigger] board@.deepened(entries(*old(tt)), k, &board.tables.keys)).best
                < CHECKMATE,
        time_given == u128::MAX ==> r.2 >= 1 && entries(*final(tt)) == board@.deepened(
            entries(*old(tt)),
            r.2 as int,
            &board.tables.keys,
        ).table,
        time_given == u128::MAX && entries(*old(tt)) == no_entries() && (exists|m: ChessMove|
            board@.legal(m, &board.tables.keys)) ==> r.1 is Some && r.1 == board@.remembered(
            entries(*final(tt)),
            &board.tables.keys,
        ),
{
    let ghost p = board@;
    let ghost keys = &board.tables.keys;
    let ghost first = entries(*tt);
    let legal = board.legal_moves();
    let mut best: i32 = 0;
    let mut best_move: Option<ChessMove> = None;
    let started_time = now();
    let mut depth: i32 = 1;
    let mut done: i32 = 0;
    while depth <= MAX_DEPTH
        invariant_except_break
            done == depth - 1,
            p.deepened(first, done as int, keys) == (Deepening {
                best: best as int,
                best_move,
                table: entries(*tt),
            }),
            forall|k: int| 1 <= k <= done ==> (#[trigger] p.deepened(first, k, keys)).best < CHECKMATE,
        invariant
            board.wf(),
            tt.wf(),
            p == board@,
            keys == &board.tables.keys,
            1 <= depth <= MAX_DEPTH + 1,
            is_score(best as int),
            forall|m: ChessMove| #[trigger] legal@.contains(m) <==> p.legal(m, keys),
        ensures
            0 <= done <= MAX_DEPTH,
            is_score(best as int),
            tt.wf(),
            best == p.deepened(first, done as int, keys).best,
            best_move == p.deepened(first, done as int, keys).best_move,
            forall|k: int| 1 <= k < done ==> (#[trigger] p.deepened(first, k, keys)).best < CHECKMATE,
            time_given == u128::MAX ==> done >= 1 && entries(*tt) == p.deepened(first, done as int, keys).table,
        decreases MAX_DEPTH + 1 - depth,
    {
        let mut stopped = false;
        let eval = alpha_beta_tt_i(board, tt, -INF, INF, depth, &mut stopped, &started_time, time_given);
        if stopped {
            break;
        }
        best = eval;
        match remembered_move(board, tt, &legal) {
            Some(m) => {
                best_move = Some(m);
            },
            None => {},
        }
        done = depth;
        if best >= CHECKMATE {
            break;
        }
        if millis_since(&started_time) >= time_given {
            break;
        }
        depth += 1;
    }
    proof {
        if time_given == u128::MAX && first == no_entries() && (exists|m: ChessMove| p.legal(m, keys)) {
            crate::search_laws::lemma_deepened_keeps_a_move(p, done as int, keys);
        }
    }
    (best, best_move, done)
}

/// As `iterative_deepening`, but each depth is searched in a window around
/// the score of the depth before: score, move and, with `time_given` at
/// `u128::MAX`, the table are those of `deepened_asp`, and from an empty
/// table a position with a legal move has the move that the last search
/// has left in the table for it.
pub fn iterative_deepening_asp(board: &Board, time_given: u128, tt: &mut TranspositionTable) -> (r: (
    i32,
    Option<ChessMove>,
))
    requires
        board.wf(),
        old(tt).wf(),
    ensures
        final(tt).wf(),
        is_score(r.0 as int),
        exists|depths: int|
            0 <= depths <= MAX_DEPTH && r.0 == (#[trigger] board@.deepened_asp(
                entries(*old(tt)),
                depths,
                ASPIRATION_WINDOW as int,
                &board.tables.keys,
            )).best && r.1 == board@.deepened_asp(
                entries(*old(tt)),
                depths,
                ASPIRATION_WINDOW as int,
                &board.tables.keys,
            ).best_move,
        time_given == u128::MAX ==> exists|depths: int|
            1 <= depths <= MAX_DEPTH && r.0 == (#[trigger] board@.deepened_asp(
                entries(*old(tt)),
                depths,
                ASPIRATION_WINDOW as int,
                &board.tables.keys,
            )).best && r.1 == board@.deepened_asp(
                entries(*old(tt)),
                depths,
                ASPIRATION_WINDOW as int,
                &board.tables.keys,
            ).best_move && entries(*final(tt)) == board@.deepened_asp(
                entries(*old(tt)),
                depths,
                ASPIRATION_WINDOW as int,
                &board.tables.keys,
            ).table,
        time_given == u128::MAX && entries(*old(tt)) == no_entries() && (exists|m: ChessMove|
            board@.legal(m, &board.tables.keys)) ==> r.1 is Some && r.1 == board@.remembered(
            entries(*final(tt)),
            &board.tables.keys,
        ),
        match r.1 {
            Some(m) => board@.legal(m, &board.tables.keys),
            None => true,
        },
{
    let ghost first = entries(*tt);
    let (best, best_move, done) = search_depths_asp(board, time_given, tt);
    proof {
        lemma_deepened_asp_move(board@, first, done as int, ASPIRATION_WINDOW as int, &board.tables.keys);
    }
    (best, best_move)
}

/// Searches deeper and deeper until the time is used up, a mate is found or
/// the depth reaches `MAX_DEPTH`, and returns the score and the best move of
/// the deepest search that was completed: those of `deepened` after some
/// number of searches. The move is a legal move of the position; there is
/// none where no search was completed or the position has no legal move.
/// With `time_given` at `u128::MAX` at least one search is completed and
/// the table afterwards is that of `deepened` too; from an empty table a
/// position with a legal move then has a move, the one that the last
/// search has left in the table for the position.
pub fn iterative_deepening(board: &Board, time_given: u128, tt: &mut TranspositionTable) -> (r: (
    i32,
    Option<ChessMove>,
))
    requires
        board.wf(),
        old(tt).wf(),
    ensures
        final(tt).wf(),
        is_score(r.0 as int),
        exists|depths: int|
            0 <= depths <= MAX_DEPTH && r.0 == (#[trigger] board@.deepened(
                entries(*old(tt)),
                depths,
                &board.tables.keys,
            )).best && r.1 == board@.deepened(entries(*old(tt)), depths, &board.tables.keys).best_move,
        time_given == u128::MAX ==> exists|depths: int|
            1 <= depths <= MAX_DEPTH && r.0 == (#[trigger] board@.deepened(
                entries(*old(tt)),
                depths,
                &board.tables.keys,
            )).best && r.1 == board@.deepened(entries(*old(tt)), depths, &board.tables.keys).best_move
                && entries(*final(tt)) == board@.deepened(entries(*old(tt)), depths, &board.tables.keys).table,
        time_given == u128::MAX && entries(*old(tt)) == no_entries() && (exists|m: ChessMove|
            board@.legal(m, &board.tables.keys)) ==> r.1 is Some && r.1 == board@.remembered(
            entries(*final(tt)),
            &board.tables.keys,
        ),
        match r.1 {
            Some(m) => board@.legal(m, &board.tables.keys),
            None => true,
        },
{
    let ghost first = entries(*tt);
    let (best, best_move, done) = search_depths(board, time_given, tt);
    proof {
        lemma_deepened_move(board@, first, done as int, &board.tables.keys);
    }
    (best, best_move)
}

/// The move to play: the best move of the deepest search that `time_given`
/// milliseconds allow, a legal move of the position. With `time_given` at
/// `u128::MAX` at least one search is completed, and from an empty table a
/// position with a legal move then has a move, the one that the last
/// search has left in the table for the position.
pub fn find_best_move(board: &Board, time_given: u128, tt: &mut TranspositionTable) -> (r: Option<ChessMove>)
    requires
        board.wf(),
        old(tt).wf(),
    ensures
        final(tt).wf(),
        exists|depths: int|
            0 <= depths <= MAX_DEPTH && r == (#[trigger] board@.deepened(
                entries(*old(tt)),
                depths,
                &board.tables.keys,
            )).best_move,
        time_given == u128::MAX ==> exists|depths: int|
            1 <= depths <= MAX_DEPTH && r == (#[trigger] board@.deepened(
                entries(*old(tt)),
                depths,
                &board.tables.keys,
            )).best_move && entries(*final(tt)) == board@.deepened(
                entries(*old(tt)),
                depths,
                &board.tables.keys,
            ).table,
        time_given == u128::MAX && entries(*old(tt)) == no_entries() && (exists|m: ChessMove|
            board@.legal(m, &board.tables.keys)) ==> r is Some && r == board@.remembered(
            entries(*final(tt)),
            &board.tables.keys,
        ),
        match r {
            Some(m) => board@.legal(m, &board.tables.keys),
            None => true,
        },
{
    let (_best_eval, best_move) = iterative_deepening(board, time_given, tt);
    best_move
}

} // verus!
