use chess_engine::board::Board;
use chess_engine::chess_move::{
    bitboard_to_square, square_to_bitboard, ChessMove, NORMAL_MOVE, NO_PROMOTION,
};
use chess_engine::perft::perft;
use chess_engine::tables::Tables;
use std::collections::HashMap;

#[test]
fn bitboard_fen_test() {
    // https://www.chessprogramming.org/Forsyth-Edwards_Notation
    let tables = Tables::new();

    assert_eq!(
        "rnbqkbnr/pppppppp/8/8/8/8/PPPPPPPP/RNBQKBNR w KQkq - 0 1",
        Board::default(&tables).to_fen()
    );

    assert_eq!(
        "rnbqkbnr/pppppppp/8/8/4P3/8/PPPP1PPP/RNBQKBNR b KQkq e3 0 1",
        Board::from_fen("rnbqkbnr/pppppppp/8/8/4P3/8/PPPP1PPP/RNBQKBNR b KQkq e3 0 1", &tables)
            .unwrap()
            .to_fen()
    );

    assert_eq!(
        "rnbqkbnr/pp1ppppp/8/2p5/4P3/8/PPPP1PPP/RNBQKBNR w KQkq c6 0 2",
        Board::from_fen("rnbqkbnr/pp1ppppp/8/2p5/4P3/8/PPPP1PPP/RNBQKBNR w KQkq c6 0 2", &tables)
            .unwrap()
            .to_fen()
    );

    assert_eq!(
        "rnbqkbnr/pp1ppppp/8/2p5/4P3/5N2/PPPP1PPP/RNBQKB1R b KQkq - 1 2",
        Board::from_fen("rnbqkbnr/pp1ppppp/8/2p5/4P3/5N2/PPPP1PPP/RNBQKB1R b KQkq - 1 2", &tables)
            .unwrap()
            .to_fen()
    );

    assert_eq!(
        "r1bqk2r/2ppbppp/p1n2n2/1p2p3/4P3/1B3N2/PPPP1PPP/RNBQR1K1 b kq - 0 1",
        Board::from_fen("r1bqk2r/2ppbppp/p1n2n2/1p2p3/4P3/1B3N2/PPPP1PPP/RNBQR1K1 b kq - 0 1", &tables)
            .unwrap()
            .to_fen()
    );

    assert_eq!(
        "rnbqkbnr/ppppp1pp/8/8/4PpP1/7N/PPPP1P1P/RNBQKB1R b KQkq e3 0 1",
        Board::from_fen("rnbqkbnr/ppppp1pp/8/8/4PpP1/7N/PPPP1P1P/RNBQKB1R b KQkq e3 0 1", &tables)
            .unwrap()
            .to_fen()
    );
    assert_eq!("a1", bitboard_to_square(square_to_bitboard("a1").unwrap()).unwrap());
    assert_eq!("a3", bitboard_to_square(square_to_bitboard("a3").unwrap()).unwrap());
    assert_eq!("a8", bitboard_to_square(square_to_bitboard("a8").unwrap()).unwrap());
    assert_eq!("c1", bitboard_to_square(square_to_bitboard("c1").unwrap()).unwrap());
    assert_eq!("c3", bitboard_to_square(square_to_bitboard("c3").unwrap()).unwrap());
    assert_eq!("c8", bitboard_to_square(square_to_bitboard("c8").unwrap()).unwrap());
    assert_eq!("h1", bitboard_to_square(square_to_bitboard("h1").unwrap()).unwrap());
    assert_eq!("h3", bitboard_to_square(square_to_bitboard("h3").unwrap()).unwrap());
    assert_eq!("h8", bitboard_to_square(square_to_bitboard("h8").unwrap()).unwrap());
}

fn assert_legal_moves(board: &Board, expected: Vec<&str>) {
    let mut expected_moves = expected;
    let mut generated_moves: Vec<String> = board.legal_moves().iter().map(|m| m.to_fen()).collect();

    expected_moves.sort();
    generated_moves.sort();

    assert_eq!(expected_moves, generated_moves);
}

#[test]
fn bitboard_move_generation_test() {
    let tables = Tables::new();
    let board = Board::from_fen("r3k2r/1b4bq/8/8/8/8/7B/R3K2R w KQkq - 0 1", &tables).unwrap();
    assert_legal_moves(
        &board,
        vec![
            "h2g1", "h2g3", "h2f4", "h2e5", "h2d6", "h2c7", "h2b8", "a1b1", "a1c1", "a1d1", "a1a2",
            "a1a3", "a1a4", "a1a5", "a1a6", "a1a7", "a1a8", "h1f1", "h1g1", "e1d1", "e1f1", "e1d2",
            "e1e2", "e1f2", "e1g1", "e1c1",
        ],
    );

    // --------------

    let board = Board::from_fen("k4n2/6P1/8/2pP4/8/8/8/4K2R w K c6 0 1", &tables).unwrap();
    assert_legal_moves(
        &board,
        vec![
            "d5d6", "g7f8q", "g7f8r", "g7f8b", "g7f8n", "g7g8q", "g7g8r", "g7g8b", "g7g8n", "d5c6",
            "h1f1", "h1g1", "h1h2", "h1h3", "h1h4", "h1h5", "h1h6", "h1h7", "h1h8", "e1d1", "e1f1",
            "e1d2", "e1e2", "e1f2", "e1g1",
        ],
    );

    // --------------

    let board = Board::default(&tables);
    assert_legal_moves(
        &board,
        vec![
            "a2a3", "b2b3", "c2c3", "d2d3", "e2e3", "f2f3", "g2g3", "h2h3", "a2a4", "b2b4", "c2c4",
            "d2d4", "e2e4", "f2f4", "g2g4", "h2h4", "b1a3", "b1c3", "g1f3", "g1h3",
        ],
    );

    // --------------

    let board = Board::from_fen(
        "r3k2r/p1ppqpb1/bn2pnp1/3PN3/1p2P3/2N2Q1p/PPPBBPPP/R3K2R w KQkq - 0 1",
        &tables,
    )
    .unwrap();
    assert_legal_moves(
        &board,
        vec![
            "a2a3", "b2b3", "g2g3", "d5d6", "a2a4", "g2g4", "g2h3", "d5e6", "c3b1", "c3d1", "c3a4",
            "c3b5", "e5d3", "e5c4", "e5g4", "e5c6", "e5g6", "e5d7", "e5f7", "d2c1", "d2e3", "d2f4",
            "d2g5", "d2h6", "e2d1", "e2f1", "e2d3", "e2c4", "e2b5", "e2a6", "a1b1", "a1c1", "a1d1",
            "h1f1", "h1g1", "f3d3", "f3e3", "f3g3", "f3h3", "f3f4", "f3g4", "f3f5", "f3h5", "f3f6",
            "e1d1", "e1f1", "e1g1", "e1c1",
        ],
    );
}

/// A copy of the board with room for the key of one more position.
fn copy_of<'a>(board: &Board<'a>) -> Board<'a> {
    let mut previous_hashes = Vec::with_capacity(board.previous_hashes.len() + 1);
    previous_hashes.extend_from_slice(&board.previous_hashes);
    Board {
        tables: board.tables,
        bitboards: board.bitboards,
        white_to_move: board.white_to_move,
        fullmove_counter: board.fullmove_counter,
        meta: board.meta,
        previous_hashes,
    }
}

/// Counts as `perft` does, but counts a position that is reached again at
/// the same depth only once and takes its count from the first time.
fn count_once(depth: usize, board: &Board, seen: &mut HashMap<(u64, usize), u64>) -> u64 {
    // https://www.chessprogramming.org/Perft

    if depth == 0 {
        return 1;
    }
    if let Some(nodes) = seen.get(&(board.meta.hash, depth)) {
        return *nodes;
    }

    let mut nodes = 0;
    let color = if board.white_to_move { 0 } else { 1 };

    // one copy serves every move: it is set back to the board before each
    let played = board.previous_hashes.len();
    let mut new_board = copy_of(board);
    for chess_move in board.pseudo_legal_moves() {
        new_board.bitboards = board.bitboards;
        new_board.white_to_move = board.white_to_move;
        new_board.fullmove_counter = board.fullmove_counter;
        new_board.meta = board.meta;
        new_board.previous_hashes.truncate(played);
        new_board.make_move(&chess_move);
        if !new_board.in_check(color) {
            nodes += count_once(depth - 1, &new_board, seen);
        }
    }

    seen.insert((board.meta.hash, depth), nodes);
    nodes
}

fn check_count_once(tables: &Tables, fen: &str, depth_nodes: &[u64]) {
    let board = Board::from_fen(fen, tables).unwrap();
    let mut seen = HashMap::new();
    for (i, nodes) in depth_nodes.iter().enumerate() {
        if *nodes < 1_000_000 {
            assert_eq!(perft(&board, i), *nodes);
        }
        assert_eq!(count_once(i, &board, &mut seen), *nodes);
    }
}

// The deepest counts take the longest to reach: the four positions that have
// them are counted whole in tests of their own below, so that no test runs
// for long.
#[test]
fn bitboard_perft_test() {
    // https://www.chessprogramming.org/Perft_Results
    let tables = Tables::new();

    // Position 1
    check_count_once(
        &tables,
        "rnbqkbnr/pppppppp/8/8/8/8/PPPPPPPP/RNBQKBNR w KQkq - 0 1",
        &[1, 20, 400, 8_902, 197_281, 4_865_609],
    );

    // Position 2
    check_count_once(
        &tables,
        "r3k2r/p1ppqpb1/bn2pnp1/3PN3/1p2P3/2N2Q1p/PPPBBPPP/R3K2R w KQkq - 0 1",
        &[1, 48, 2_039, 97_862, 4_085_603],
    );

    // Position 3
    check_count_once(
        &tables,
        "8/2p5/3p4/KP5r/1R3p1k/8/4P1P1/8 w - - 0 1",
        &[1, 14, 191, 2_812, 43_238, 674_624, 11_030_083],
    );

    // Position 4
    check_count_once(
        &tables,
        "r3k2r/Pppp1ppp/1b3nbN/nP6/BBP1P3/q4N2/Pp1P2PP/R2Q1RK1 w kq - 0 1",
        &[1, 6, 264, 9_467, 422_333, 15_833_292],
    );

    // Position 4 mirrored
    check_count_once(
        &tables,
        "r2q1rk1/pP1p2pp/Q4n2/bbp1p3/Np6/1B3NBn/pPPP1PPP/R3K2R b KQ - 0 1",
        &[1, 6, 264, 9_467, 422_333, 15_833_292],
    );

    // Position 5
    check_count_once(
        &tables,
        "rnbq1k1r/pp1Pbppp/2p5/8/2B5/8/PPP1NnPP/RNBQK2R w KQ - 1 8",
        &[1, 44, 1_486, 62_379, 2_103_487],
    );

    // Position 6
    check_count_once(
        &tables,
        "r4rk1/1pp1qppp/p1np1n2/2b1p1B1/2B1P1b1/P1NP1N2/1PP1QPPP/R4RK1 w - - 0 10",
        &[1, 46, 2_079, 89_890, 3_894_594],
    );
}

#[test]
fn bitboard_perft_test_position_1() {
    let tables = Tables::new();
    check_count_once(
        &tables,
        "rnbqkbnr/pppppppp/8/8/8/8/PPPPPPPP/RNBQKBNR w KQkq - 0 1",
        &[1, 20, 400, 8_902, 197_281, 4_865_609, 119_060_324],
    );
}

#[test]
fn bitboard_perft_test_position_2() {
    let tables = Tables::new();
    check_count_once(
        &tables,
        "r3k2r/p1ppqpb1/bn2pnp1/3PN3/1p2P3/2N2Q1p/PPPBBPPP/R3K2R w KQkq - 0 1",
        &[1, 48, 2_039, 97_862, 4_085_603, 193_690_690],
    );
}

#[test]
fn bitboard_perft_test_position_5() {
    let tables = Tables::new();
    check_count_once(
        &tables,
        "rnbq1k1r/pp1Pbppp/2p5/8/2B5/8/PPP1NnPP/RNBQK2R w KQ - 1 8",
        &[1, 44, 1_486, 62_379, 2_103_487, 89_941_194],
    );
}

#[test]
fn bitboard_perft_test_position_6() {
    let tables = Tables::new();
    check_count_once(
        &tables,
        "r4rk1/1pp1qppp/p1np1n2/2b1p1B1/2B1P1b1/P1NP1N2/1PP1QPPP/R4RK1 w - - 0 10",
        &[1, 46, 2_079, 89_890, 3_894_594, 164_075_551],
    );
}

fn test_hashing(tables: &Tables, fen: &str) {
    let board = Board::from_fen(fen, tables).unwrap();
    let expected_hash = board.meta.hash;

    for chess_move in board.pseudo_legal_moves() {
        let mut new_board = board.clone();
        new_board.make_move(&chess_move);
        assert_ne!(new_board.meta.hash, expected_hash);
    }
}

#[test]
fn bitboard_hash_test() {
    let tables = Tables::new();
    test_hashing(&tables, "rnbqkbnr/pppppppp/8/8/8/8/PPPPPPPP/RNBQKBNR w KQkq - 0 1");
    test_hashing(&tables, "r3k2r/p1ppqpb1/bn2pnp1/3PN3/1p2P3/2N2Q1p/PPPBBPPP/R3K2R w KQkq - 0 1");
    test_hashing(&tables, "8/2p5/3p4/KP5r/1R3p1k/8/4P1P1/8 w - - 0 1");
    test_hashing(&tables, "r3k2r/Pppp1ppp/1b3nbN/nP6/BBP1P3/q4N2/Pp1P2PP/R2Q1RK1 w kq - 0 1");
    test_hashing(&tables, "r2q1rk1/pP1p2pp/Q4n2/bbp1p3/Np6/1B3NBn/pPPP1PPP/R3K2R b KQ - 0 1");
    test_hashing(&tables, "rnbq1k1r/pp1Pbppp/2p5/8/2B5/8/PPP1NnPP/RNBQK2R w KQ - 1 8");
    test_hashing(&tables, "r4rk1/1pp1qppp/p1np1n2/2b1p1B1/2B1P1b1/P1NP1N2/1PP1QPPP/R4RK1 w - - 0 10");
    test_hashing(&tables, "r3k2r/1b4bq/8/8/8/8/7B/R3K2R w KQkq - 0 1");

    let mut board =
        Board::from_fen("rnbqkbnr/pppppppp/8/8/8/8/PPPPPPPP/RNBQKBNR w KQkq - 0 1", &tables).unwrap();

    board.make_move(&ChessMove::new(1, 18, NO_PROMOTION, NORMAL_MOVE));
    assert_eq!(
        board.meta.hash,
        Board::from_fen("rnbqkbnr/pppppppp/8/8/8/5N2/PPPPPPPP/RNBQKB1R b KQkq - 0 1", &tables)
            .unwrap()
            .meta
            .hash
    );

    board.make_move(&ChessMove::new(52, 44, NO_PROMOTION, NORMAL_MOVE));
    assert_eq!(
        board.meta.hash,
        Board::from_fen("rnbqkbnr/ppp1pppp/3p4/8/8/5N2/PPPPPPPP/RNBQKB1R w KQkq - 0 1", &tables)
            .unwrap()
            .meta
            .hash
    );

    board.make_move(&ChessMove::new(0, 1, NO_PROMOTION, NORMAL_MOVE));
    assert_eq!(
        board.meta.hash,
        Board::from_fen("rnbqkbnr/ppp1pppp/3p4/8/8/5N2/PPPPPPPP/RNBQKBR1 b Qkq - 0 1", &tables)
            .unwrap()
            .meta
            .hash
    );

    board.make_move(&ChessMove::new(54, 38, NO_PROMOTION, NORMAL_MOVE));
    assert_eq!(
        board.meta.hash,
        Board::from_fen("rnbqkbnr/p1p1pppp/3p4/1p6/8/5N2/PPPPPPPP/RNBQKBR1 w Qkq b6 0 1", &tables)
            .unwrap()
            .meta
            .hash
    );

    board.make_move(&ChessMove::new(13, 29, NO_PROMOTION, NORMAL_MOVE));
    assert_eq!(
        board.meta.hash,
        Board::from_fen("rnbqkbnr/p1p1pppp/3p4/1p6/2P5/5N2/PP1PPPPP/RNBQKBR1 b Qkq c3 0 1", &tables)
            .unwrap()
            .meta
            .hash
    );

    board.make_move(&ChessMove::new(59, 52, NO_PROMOTION, NORMAL_MOVE));
    assert_eq!(
        board.meta.hash,
        Board::from_fen("rnbq1bnr/p1pkpppp/3p4/1p6/2P5/5N2/PP1PPPPP/RNBQKBR1 w Q - 0 1", &tables)
            .unwrap()
            .meta
            .hash
    );
}
