use chess_engine::attacks::{deposit_bits, slow_const_pext, AttackTables};
use chess_engine::bits::{
    clear_bit, east, get_bit, get_lsb, north, north_east, north_west, pop_lsb, set_bit, south, south_east,
    south_west, west,
};
use chess_engine::board::Board;
use chess_engine::chess_move::{
    ChessMove, CASTLING_MOVE, EN_PASSANT_MOVE, NORMAL_MOVE, NO_PROMOTION, PROMOTION_MOVE,
    QUEEN_PROMOTION,
};
use chess_engine::driver::{decode_packet, time_for_move, try_find_opening};
use chess_engine::fen::FenError;
use chess_engine::picture::bitboard_picture;
use chess_engine::search::{
    alpha_beta_at, find_best_move, iterative_deepening, iterative_deepening_asp, order_moves,
    probe_entry, quiesce_at, save_tte, search_depths, search_depths_asp, TTEntry, TranspositionTable,
    CHECKMATE, EXACT_VALUE, INF, LOWERBOUND, MAX_DEPTH, UPPERBOUND,
};
use chess_engine::tables::Tables;
use chess_engine::zobrist::HashTable;

const START: &str = "rnbqkbnr/pppppppp/8/8/8/8/PPPPPPPP/RNBQKBNR w KQkq - 0 1";

fn play(board: &mut Board, text: &str) {
    let chess_move = board.move_from_uci(text).unwrap();
    board.make_move(&chess_move);
}

#[test]
fn starting_position_search_plays_a_usual_first_move() {
    let tables = Tables::new();
    let board = Board::from_fen(START, &tables).unwrap();
    let mut tt = TranspositionTable::new();
    let chess_move = find_best_move(&board, 1000, &mut tt).unwrap();
    let text = chess_move.to_fen();
    assert!(
        ["e2e4", "d2d4", "g1f3", "c2c4", "b1c3"].contains(&text.as_str()),
        "played {}",
        text
    );
}

#[test]
fn mate_in_one_is_found() {
    let tables = Tables::new();
    let board = Board::from_fen("6k1/5ppp/8/8/8/8/5PPP/R5K1 w - - 0 1", &tables).unwrap();
    let mut tt = TranspositionTable::new();
    let (score, chess_move) = iterative_deepening(&board, 5000, &mut tt);
    assert_eq!(chess_move.unwrap().to_fen(), "a1a8");
    assert!(score >= CHECKMATE);
}

#[test]
fn stalemate_has_no_legal_move_and_is_searched_as_a_draw() {
    let tables = Tables::new();
    let board = Board::from_fen("7k/5Q2/6K1/8/8/8/8/8 b - - 0 1", &tables).unwrap();
    assert!(!board.in_check(1));
    assert!(board.legal_moves().is_empty());
    let mut tt = TranspositionTable::new();
    let (score, chess_move) = iterative_deepening(&board, 1000, &mut tt);
    assert_eq!(score, 0);
    assert!(chess_move.is_none());
}

#[test]
fn third_occurrence_of_a_position_offers_no_move() {
    let tables = Tables::new();
    let mut board = Board::from_fen(START, &tables).unwrap();
    for _ in 0..2 {
        assert!(!board.pseudo_legal_moves().is_empty());
        play(&mut board, "g1f3");
        play(&mut board, "g8f6");
        play(&mut board, "f3g1");
        play(&mut board, "f6g8");
    }
    assert!(board.is_repetition());
    assert!(board.pseudo_legal_moves().is_empty());
    assert!(board.legal_moves().is_empty());
    assert_eq!(board.evaluate(), 0);
    assert_eq!(board.evaluate_relative(), 0);
}

#[test]
fn fifty_move_rule_offers_no_move() {
    let tables = Tables::new();
    let board = Board::from_fen("4k3/8/8/8/8/8/8/4K2R w K - 100 80", &tables).unwrap();
    assert!(board.pseudo_legal_moves().is_empty());
    assert_eq!(board.evaluate(), 0);
    let board = Board::from_fen("4k3/8/8/8/8/8/8/4K2R w K - 99 80", &tables).unwrap();
    assert!(!board.pseudo_legal_moves().is_empty());
    assert_eq!(board.evaluate(), 535);
}

#[test]
fn en_passant_is_generated_and_takes_the_pawn() {
    let tables = Tables::new();
    let mut board =
        Board::from_fen("rnbqkbnr/pp1p1ppp/8/2pPp3/8/8/PPP1PPPP/RNBQKBNR w KQkq c6 0 1", &tables)
            .unwrap();
    let chess_move = board.move_from_uci("d5c6").unwrap();
    assert_eq!(chess_move.move_type(), EN_PASSANT_MOVE);
    assert!(chess_move.is_capture(&board));
    assert!(board.pseudo_legal_moves().contains(&chess_move));
    board.make_move(&chess_move);
    assert_eq!(board.to_fen(), "rnbqkbnr/pp1p1ppp/2P5/4p3/8/8/PPP1PPPP/RNBQKBNR b KQkq - 0 1");
    assert_eq!(board.meta.hash, board.compute_key());
}

#[test]
fn castling_through_an_attacked_square_is_not_generated() {
    let tables = Tables::new();
    let mut board = Board::from_fen("r3k2r/8/8/8/8/8/8/4K2R w Kkq - 0 1", &tables).unwrap();
    play(&mut board, "h1f1");
    let moves: Vec<String> = board.pseudo_legal_moves().iter().map(|m| m.to_fen()).collect();
    assert!(!moves.contains(&"e8g8".to_string()));
    assert!(moves.contains(&"e8c8".to_string()));
    // a rook that has left its corner has lost the right
    assert_eq!(board.to_fen(), "r3k2r/8/8/8/8/8/8/4KR2 b kq - 1 1");

    let board = Board::from_fen("r3k2r/8/8/8/8/8/8/4K2R b Kkq - 0 1", &tables).unwrap();
    let moves: Vec<String> = board.legal_moves().iter().map(|m| m.to_fen()).collect();
    assert!(moves.contains(&"e8g8".to_string()));
    assert!(moves.contains(&"e8c8".to_string()));
}

#[test]
fn castling_moves_king_and_rook() {
    let tables = Tables::new();
    let mut board = Board::from_fen("r3k2r/8/8/8/8/8/8/R3K2R w KQkq - 0 1", &tables).unwrap();
    let chess_move = board.move_from_uci("e1g1").unwrap();
    assert_eq!(chess_move.move_type(), CASTLING_MOVE);
    board.make_move(&chess_move);
    assert_eq!(board.to_fen(), "r3k2r/8/8/8/8/8/8/R4RK1 b kq - 1 1");
    assert_eq!(board.meta.hash, board.compute_key());
    play(&mut board, "e8c8");
    assert_eq!(board.to_fen(), "2kr3r/8/8/8/8/8/8/R4RK1 w - - 2 2");
    assert_eq!(board.meta.hash, board.compute_key());
}

#[test]
fn promotion_replaces_the_pawn_and_takes_the_rook() {
    let tables = Tables::new();
    let mut board = Board::from_fen("r3k3/1P6/8/8/8/8/8/4K3 w q - 5 9", &tables).unwrap();
    let chess_move = board.move_from_uci("b7a8q").unwrap();
    assert_eq!(chess_move.move_type(), PROMOTION_MOVE);
    assert_eq!(chess_move.promotion(), QUEEN_PROMOTION);
    assert_eq!(chess_move.evaluate_relative(&board), 1525);
    board.make_move(&chess_move);
    assert_eq!(board.to_fen(), "Q3k3/8/8/8/8/8/8/4K3 b - - 0 9");
    assert_eq!(board.meta.hash, board.compute_key());
}

#[test]
fn clocks_follow_pawn_moves_and_captures() {
    let tables = Tables::new();
    let mut board = Board::from_fen(START, &tables).unwrap();
    play(&mut board, "g1f3");
    assert_eq!(board.to_fen(), "rnbqkbnr/pppppppp/8/8/8/5N2/PPPPPPPP/RNBQKB1R b KQkq - 1 1");
    play(&mut board, "d7d5");
    assert_eq!(board.to_fen(), "rnbqkbnr/ppp1pppp/8/3p4/8/5N2/PPPPPPPP/RNBQKB1R w KQkq d6 0 2");
    play(&mut board, "f3e5");
    play(&mut board, "b8c6");
    assert_eq!(board.to_fen(), "r1bqkbnr/ppp1pppp/2n5/3pN3/8/8/PPPPPPPP/RNBQKB1R w KQkq - 2 3");
    play(&mut board, "e5c6");
    assert_eq!(board.to_fen(), "r1bqkbnr/ppp1pppp/2N5/3p4/8/8/PPPPPPPP/RNBQKB1R b KQkq - 0 3");
}

#[test]
fn key_after_every_move_is_the_key_from_scratch() {
    let tables = Tables::new();
    for fen in [
        START,
        "r3k2r/p1ppqpb1/bn2pnp1/3PN3/1p2P3/2N2Q1p/PPPBBPPP/R3K2R w KQkq - 0 1",
        "r3k2r/Pppp1ppp/1b3nbN/nP6/BBP1P3/q4N2/Pp1P2PP/R2Q1RK1 w kq - 0 1",
        "rnbqkbnr/pp1p1ppp/8/2pPp3/8/8/PPP1PPPP/RNBQKBNR w KQkq c6 0 1",
    ] {
        let board = Board::from_fen(fen, &tables).unwrap();
        assert_eq!(board.meta.hash, board.compute_key());
        for chess_move in board.legal_moves() {
            let mut next = board.clone();
            next.make_move(&chess_move);
            assert_eq!(next.meta.hash, next.compute_key());
            let again = Board::from_fen(&next.to_fen(), &tables).unwrap();
            assert_eq!(again.meta.hash, next.meta.hash);
            assert_eq!(again.bitboards, next.bitboards);
        }
    }
}

#[test]
fn moves_come_in_descending_order_of_gain() {
    let tables = Tables::new();
    let board = Board::from_fen(
        "r3k2r/p1ppqpb1/bn2pnp1/3PN3/1p2P3/2N2Q1p/PPPBBPPP/R3K2R w KQkq - 0 1",
        &tables,
    )
    .unwrap();
    let moves = board.pseudo_legal_moves();
    assert_eq!(moves.len(), 48);
    let gains: Vec<i32> = moves.iter().map(|m| m.evaluate_relative(&board)).collect();
    for pair in gains.windows(2) {
        assert!(pair[0] >= pair[1]);
    }
    // queen takes pawn, castling, pawn takes pawn, quiet move
    let queen_takes = ChessMove::new(18, 16, NO_PROMOTION, NORMAL_MOVE);
    assert_eq!(queen_takes.to_fen(), "f3h3");
    assert_eq!(queen_takes.evaluate_relative(&board), 100 - 1000);
    assert_eq!(ChessMove::new(3, 1, NO_PROMOTION, CASTLING_MOVE).evaluate_relative(&board), 20);
    let pawn_takes = board.move_from_uci("d5e6").unwrap();
    assert_eq!(pawn_takes.evaluate_relative(&board), 0);
    assert_eq!(board.move_from_uci("a2a3").unwrap().evaluate_relative(&board), 0);
    let knight_takes = board.move_from_uci("e5g6").unwrap();
    assert_eq!(knight_takes.evaluate_relative(&board), 100 - 350);
    let bishop_takes = board.move_from_uci("e2a6").unwrap();
    assert_eq!(bishop_takes.evaluate_relative(&board), 0);
    assert!(bishop_takes.is_capture(&board));
}

#[test]
fn en_passant_gain_is_ten() {
    let tables = Tables::new();
    let board =
        Board::from_fen("rnbqkbnr/pp1p1ppp/8/2pPp3/8/8/PPP1PPPP/RNBQKBNR w KQkq c6 0 1", &tables)
            .unwrap();
    assert_eq!(board.move_from_uci("d5c6").unwrap().evaluate_relative(&board), 10);
}

#[test]
fn evaluation_counts_material_squares_and_rights() {
    let tables = Tables::new();
    assert_eq!(Board::default(&tables).evaluate(), 0);
    let board = Board::from_fen("4k3/8/8/8/8/8/8/4K2R w K - 0 1", &tables).unwrap();
    assert_eq!(board.evaluate(), 3 + 530 - 3 + 5);
    assert_eq!(board.evaluate_relative(), 535);
    let board = Board::from_fen("4k3/8/8/8/8/8/8/4K2R b K - 0 1", &tables).unwrap();
    assert_eq!(board.evaluate(), 535);
    assert_eq!(board.evaluate_relative(), -535);
    // the same position seen from the other side
    let board = Board::from_fen("4k2r/8/8/8/8/8/8/4K3 b k - 0 1", &tables).unwrap();
    assert_eq!(board.evaluate(), -535);
    assert_eq!(board.evaluate_relative(), 535);
    let board = Board::from_fen("4k3/8/8/3p4/8/8/P7/4K3 w - - 0 1", &tables).unwrap();
    // pawn a2: 100 + 1, pawn d5: -(100 + 2)
    assert_eq!(board.evaluate(), 101 - 102);
}

#[test]
fn every_kind_of_wrong_record_is_refused() {
    let tables = Tables::new();
    let error = |fen: &str| Board::from_fen(fen, &tables).err();
    assert_eq!(error(START), None);
    assert_eq!(error(""), Some(FenError::Fields));
    assert_eq!(error("rnbqkbnr/pppppppp/8/8/8/8/PPPPPPPP/RNBQKBNR w KQkq - 0"), Some(FenError::Fields));
    assert_eq!(
        error("rnbqkbnr/pppppppp/8/8/8/8/PPPPPPPP/RNBQKBNR w KQkq - 0 1 7"),
        Some(FenError::Fields)
    );
    assert_eq!(
        error("rnbqkbnr/pppppppp/8/8/8/8/PPPPPPPP/RNBQKBNR  w KQkq - 0 1"),
        Some(FenError::Fields)
    );
    assert_eq!(
        error("rnbqkbnr/pppppppp/8/8/8/8/PPPPPPPP w KQkq - 0 1"),
        Some(FenError::Placement)
    );
    assert_eq!(
        error("rnbqkbnr/pppppppp/9/8/8/8/PPPPPPPP/RNBQKBNR w KQkq - 0 1"),
        Some(FenError::Placement)
    );
    assert_eq!(
        error("rnbqkbnr/ppppppppp/8/8/8/8/PPPPPPPP/RNBQKBNR w KQkq - 0 1"),
        Some(FenError::Placement)
    );
    assert_eq!(
        error("rnbqkbnr/pppppppp/8/8/8/8/PPPPPPPP/RNBQKBNX w KQkq - 0 1"),
        Some(FenError::Placement)
    );
    assert_eq!(
        error("rnbqkbnr/pppppppp/8/8/8/8/PPPPPPPP/RNBQKBNR x KQkq - 0 1"),
        Some(FenError::SideToMove)
    );
    assert_eq!(
        error("rnbqkbnr/pppppppp/8/8/8/8/PPPPPPPP/RNBQKBNR w KQxq - 0 1"),
        Some(FenError::Castling)
    );
    assert_eq!(
        error("rnbqkbnr/pppppppp/8/8/8/8/PPPPPPPP/RNBQKBNR w KQkq e9 0 1"),
        Some(FenError::EnPassant)
    );
    assert_eq!(
        error("rnbqkbnr/pppppppp/8/8/8/8/PPPPPPPP/RNBQKBNR w KQkq - x 1"),
        Some(FenError::HalfmoveClock)
    );
    assert_eq!(
        error("rnbqkbnr/pppppppp/8/8/8/8/PPPPPPPP/RNBQKBNR w KQkq - 101 1"),
        Some(FenError::HalfmoveClock)
    );
    assert_eq!(
        error("rnbqkbnr/pppppppp/8/8/8/8/PPPPPPPP/RNBQKBNR w KQkq - 0 0"),
        Some(FenError::FullmoveNumber)
    );
    assert_eq!(
        error("rnbqkbnr/pppppppp/8/8/8/8/PPPPPPPP/RNBQKBNR w KQkq - 0 4294967296"),
        Some(FenError::FullmoveNumber)
    );
    // no black king
    assert_eq!(
        error("rnbq1bnr/pppppppp/8/8/8/8/PPPPPPPP/RNBQKBNR w KQ - 0 1"),
        Some(FenError::Position)
    );
    // a castling right without its rook
    assert_eq!(
        error("rnbqkbnr/pppppppp/8/8/8/8/PPPPPPPP/RNBQKBN1 w KQkq - 0 1"),
        Some(FenError::Position)
    );
    // an en-passant target without the pawn that passed it
    assert_eq!(
        error("rnbqkbnr/pppppppp/8/8/8/8/PPPPPPPP/RNBQKBNR w KQkq e6 0 1"),
        Some(FenError::Position)
    );
    assert_eq!(
        Board::from_fen("rnbqkbnr/pppppppp/8/8/8/8/PPPPPPPP/RNBQKBNR w KQkq - 0 4294967295", &tables)
            .unwrap()
            .to_fen(),
        "rnbqkbnr/pppppppp/8/8/8/8/PPPPPPPP/RNBQKBNR w KQkq - 0 4294967295"
    );
}

#[test]
fn move_text_names_the_legal_move() {
    let tables = Tables::new();
    let board = Board::from_fen("k4n2/6P1/8/2pP4/8/8/8/4K2R w K c6 0 1", &tables).unwrap();
    for chess_move in board.legal_moves() {
        let text = chess_move.to_fen();
        let found = board.move_from_uci(&text).unwrap();
        assert_eq!(found, chess_move);
        assert_eq!(found.to_fen(), text);
    }
    assert_eq!(board.move_from_uci("e1e3"), None);
    assert_eq!(board.move_from_uci("E1G1"), None);
    assert_eq!(board.move_from_uci("g7g8"), None);
    assert_eq!(board.move_from_uci("g7g8q").unwrap().to_fen(), "g7g8q");
}

#[test]
fn moves_pack_into_sixteen_bits() {
    let chess_move = ChessMove::new(52, 60, QUEEN_PROMOTION, PROMOTION_MOVE);
    assert_eq!(chess_move.from(), 52);
    assert_eq!(chess_move.to(), 60);
    assert_eq!(chess_move.promotion(), QUEEN_PROMOTION);
    assert_eq!(chess_move.move_type(), PROMOTION_MOVE);
    assert_eq!(chess_move.to_fen(), "d7d8q");
    assert_eq!(chess_move.0, 52 | (60 << 6) | 0x3000 | 0x4000);
    let chess_move = ChessMove::new(11, 27, NO_PROMOTION, NORMAL_MOVE);
    assert_eq!(chess_move.to_fen(), "e2e4");
}

#[test]
fn rook_and_bishop_lookups_stop_at_blockers() {
    let tables = AttackTables::new();
    // rook on a1, blockers on a4 and d1
    let blockers = (1u64 << 31) | (1u64 << 4) | (1u64 << 7) | (1u64 << 62);
    let expected = (1u64 << 15) | (1u64 << 23) | (1u64 << 31) | (1u64 << 6) | (1u64 << 5) | (1u64 << 4);
    assert_eq!(tables.rook(7, blockers), expected);
    // bishop on c1 (square 5), blocker on e3 (square 19)
    let blockers = (1u64 << 19) | (1u64 << 5);
    let expected = (1u64 << 12) | (1u64 << 19) | (1u64 << 14) | (1u64 << 23);
    assert_eq!(tables.bishop(5, blockers), expected);
    assert_eq!(tables.queen(5, blockers), expected | tables.rook(5, blockers));
    // knight on g1, king on e1
    assert_eq!(tables.knight(1), (1u64 << 16) | (1u64 << 18) | (1u64 << 11));
    assert_eq!(
        tables.king(3),
        (1u64 << 2) | (1u64 << 4) | (1u64 << 10) | (1u64 << 11) | (1u64 << 12)
    );
    assert_eq!(deposit_bits(0b101, 0b0110_1000), 0b0100_1000);
    // every subset of the mask of a rook in the corner has its own entry
    assert_eq!(tables.rook_magics[0].len(), 4096);
    assert_eq!(tables.bishop_magics[0].len(), 64);
}

#[test]
fn key_table_is_the_same_in_every_run() {
    let first = HashTable::new();
    let second = HashTable::new();
    assert_eq!(first.pieces, second.pieces);
    assert_eq!(first.black_to_move, second.black_to_move);
    assert_eq!(first.en_passant, second.en_passant);
    assert_eq!(first.pieces.len(), 768);
    assert_ne!(first.pieces[0], first.pieces[1]);
}

#[test]
fn transposition_table_stores_and_forgets() {
    let tables = Tables::new();
    let board = Board::from_fen(START, &tables).unwrap();
    let mut tt = TranspositionTable::new();
    assert_eq!(tt.len(), 0);
    assert!(tt.get(board.meta.hash).is_none());
    save_tte(&board, &mut tt, 5, 3, 0, 10, None);
    let entry = tt.get(board.meta.hash).unwrap();
    assert_eq!((entry.typ, entry.value, entry.depth), (EXACT_VALUE, 5, 3));
    assert!(entry.best_move.is_none());
    assert!(tt.get(board.meta.hash ^ 1).is_none());
    save_tte(&board, &mut tt, 0, 4, 0, 10, Some(ChessMove::new(11, 27, NO_PROMOTION, NORMAL_MOVE)));
    let entry = tt.get(board.meta.hash).unwrap();
    assert_eq!((entry.typ, entry.value, entry.depth), (UPPERBOUND, 0, 4));
    assert_eq!(entry.best_move.unwrap().to_fen(), "e2e4");
    save_tte(&board, &mut tt, 10, 4, 0, 10, None);
    assert_eq!(tt.get(board.meta.hash).unwrap().typ, LOWERBOUND);
    assert_eq!(tt.len(), 1);
    tt.clear();
    assert_eq!(tt.len(), 0);
    assert!(tt.get(board.meta.hash).is_none());
}

#[test]
fn packets_have_eight_fields() {
    let packet = decode_packet("rnbqkbnr/pppppppp/8/8/8/8/PPPPPPPP/RNBQKBNR w KQkq - 0 1 60000 -5").unwrap();
    assert_eq!(packet.fen, START);
    assert_eq!(packet.white_time_left, 60000);
    assert_eq!(packet.black_time_left, -5);
    assert!(decode_packet("rnbqkbnr/pppppppp/8/8/8/8/PPPPPPPP/RNBQKBNR w KQkq - 0 1 60000").is_none());
    assert!(decode_packet("rnbqkbnr/pppppppp/8/8/8/8/PPPPPPPP/RNBQKBNR w KQkq - 0 1 1 2 3").is_none());
    assert!(decode_packet("rnbqkbnr/pppppppp/8/8/8/8/PPPPPPPP/RNBQKBNR w KQkq - 0 1 a 2").is_none());
    assert!(decode_packet("a b c d e f 1 2000000000000000000").is_none());
    assert_eq!(decode_packet("a b c d e f 1 2").unwrap().fen, "a b c d e f");
}

#[test]
fn time_to_think_grows_with_the_clock() {
    assert_eq!(time_for_move(-1), 1000);
    assert_eq!(time_for_move(9_999), 1000);
    assert_eq!(time_for_move(10_000), 2000);
    assert_eq!(time_for_move(29_999), 2000);
    assert_eq!(time_for_move(30_000), 4000);
    assert_eq!(time_for_move(60_000), 6000);
    assert_eq!(time_for_move(120_000), 8000);
    assert_eq!(time_for_move(180_000), 10000);
    assert_eq!(time_for_move(240_000), 12000);
}

#[test]
fn opening_book_answers_by_key() {
    let tables = Tables::new();
    let board = Board::from_fen(START, &tables).unwrap();
    let key = board.meta.hash.to_string();
    let lines = vec![
        "no bar here".to_string(),
        format!("{}|d2d4", board.meta.hash ^ 1),
        format!("{}|e2e4", key),
        format!("{}|c2c4", key),
    ];
    assert_eq!(try_find_opening(&board, &lines), Some("e2e4".to_string()));
    assert_eq!(try_find_opening(&board, &lines[..2].to_vec()), None);
    assert_eq!(board.opening_move(&lines).unwrap().to_fen(), "e2e4");
    assert_eq!(board.opening_move(&lines[..2].to_vec()), None);
    // a line that names no legal move is passed over for the search
    let wrong = vec![format!("{}|e2e5", key), format!("{}|e2e4", key)];
    assert_eq!(try_find_opening(&board, &wrong), Some("e2e5".to_string()));
    assert_eq!(board.opening_move(&wrong), None);
}

#[test]
fn search_returns_a_legal_move_within_its_time() {
    let tables = Tables::new();
    let board = Board::from_fen(
        "r3k2r/p1ppqpb1/bn2pnp1/3PN3/1p2P3/2N2Q1p/PPPBBPPP/R3K2R w KQkq - 0 1",
        &tables,
    )
    .unwrap();
    let mut tt = TranspositionTable::new();
    let chess_move = find_best_move(&board, 300, &mut tt).unwrap();
    assert!(board.legal_moves().contains(&chess_move));
    assert!(tt.len() > 0);
}

#[test]
fn blockers_are_extracted_under_the_mask() {
    let tables = AttackTables::new();
    // rook on a1: the mask holds a2..a7 and b1..g1
    let mask = tables.rook_blocker_masks[7];
    assert_eq!(mask, 0x0080_8080_8080_807e);
    let blockers = (1u64 << 31) | (1u64 << 4) | (1u64 << 7) | (1u64 << 62) | (1u64 << 63);
    // b1..g1 are the squares 6..1, a2..a7 the squares 15, 23, .., 55
    assert_eq!(tables.rook_index(7, blockers), 0b000_0100_001000);
    assert_eq!(slow_const_pext(blockers, mask), 0b000_0100_001000);
    assert_eq!(slow_const_pext(0b1011_1110_1001_0011, 0b0110_0011_1000_0101), 0b0000_0000_0011_0101);
    assert_eq!(slow_const_pext(u64::MAX, u64::MAX), u64::MAX);
    assert_eq!(slow_const_pext(0x8000_0000_0000_0000, u64::MAX), 0x8000_0000_0000_0000);
    let mut occupied = 0x0123_4567_89ab_cdefu64;
    for square in 0..64 {
        occupied = occupied.rotate_left(7) ^ (occupied >> 3);
        assert_eq!(
            tables.rook_index(square, occupied),
            slow_const_pext(occupied, tables.rook_blocker_masks[square])
        );
        assert_eq!(
            tables.bishop_index(square, occupied),
            slow_const_pext(occupied, tables.bishop_blocker_masks[square])
        );
        let index = tables.rook_index(square, occupied);
        assert!((index as usize) < tables.rook_magics[square].len());
        assert_eq!(
            deposit_bits(index, tables.rook_blocker_masks[square]),
            occupied & tables.rook_blocker_masks[square]
        );
        assert_eq!(
            tables.rook(square, occupied),
            chess_engine::attacks::scan_rook(square, occupied)
        );
        assert_eq!(
            tables.bishop(square, occupied),
            chess_engine::attacks::scan_bishop(square, occupied)
        );
    }
}

#[test]
fn pictures_show_rank_eight_first() {
    let picture = bitboard_picture(1u64 << 63 | 1);
    let lines: Vec<&str> = picture.split('\n').collect();
    assert_eq!(lines.len(), 8);
    assert_eq!(lines[0], "@ . . . . . . . ");
    assert_eq!(lines[3], ". . . . . . . . ");
    assert_eq!(lines[7], ". . . . . . . @ ");
    let tables = Tables::new();
    let picture = Board::default(&tables).picture();
    let lines: Vec<&str> = picture.split('\n').collect();
    assert_eq!(lines.len(), 15);
    assert_eq!(lines[0], "r | n | b | q | k | b | n | r");
    assert_eq!(lines[1], "-----------------------------");
    assert_eq!(lines[2], "p | p | p | p | p | p | p | p");
    assert_eq!(lines[4], "  |   |   |   |   |   |   |  ");
    assert_eq!(lines[14], "R | N | B | Q | K | B | N | R");
}

#[test]
fn stored_entries_narrow_the_window() {
    let entry = |typ, value, depth| Some(TTEntry { typ, value, depth, best_move: None });
    let probe = probe_entry(None, -5, 5, 3);
    assert_eq!((probe.cutoff, probe.alpha, probe.beta), (None, -5, 5));
    let probe = probe_entry(entry(EXACT_VALUE, 7, 2), -5, 5, 3);
    assert_eq!((probe.cutoff, probe.alpha, probe.beta), (None, -5, 5));
    let probe = probe_entry(entry(EXACT_VALUE, 7, 3), -5, 5, 3);
    assert_eq!(probe.cutoff, Some(7));
    let probe = probe_entry(entry(LOWERBOUND, 2, 4), -5, 5, 3);
    assert_eq!((probe.cutoff, probe.alpha, probe.beta), (None, 2, 5));
    let probe = probe_entry(entry(LOWERBOUND, 9, 4), -5, 5, 3);
    assert_eq!(probe.cutoff, Some(9));
    let probe = probe_entry(entry(UPPERBOUND, 2, 4), -5, 5, 3);
    assert_eq!((probe.cutoff, probe.alpha, probe.beta), (None, -5, 2));
    let probe = probe_entry(entry(UPPERBOUND, -7, 4), -5, 5, 3);
    assert_eq!(probe.cutoff, Some(-7));
    let probe = probe_entry(entry(UPPERBOUND, 8, 4), -5, 5, 3);
    assert_eq!((probe.cutoff, probe.alpha, probe.beta), (None, -5, 5));
}

#[test]
fn search_in_a_window_finds_the_mate_too() {
    let tables = Tables::new();
    let board = Board::from_fen("6k1/5ppp/8/8/8/8/5PPP/R5K1 w - - 0 1", &tables).unwrap();
    let mut tt = TranspositionTable::new();
    let (score, chess_move) = iterative_deepening_asp(&board, 5000, &mut tt);
    assert_eq!(chess_move.unwrap().to_fen(), "a1a8");
    assert!(score >= CHECKMATE);
}

#[test]
fn search_without_time_returns_no_move() {
    let tables = Tables::new();
    let board = Board::default(&tables);
    let mut tt = TranspositionTable::new();
    // the clock has run out before the first depth is searched
    let (score, chess_move) = iterative_deepening(&board, 0, &mut tt);
    if let Some(chess_move) = chess_move {
        assert!(board.legal_moves().contains(&chess_move));
    } else {
        assert_eq!(score, 0);
    }
}

#[test]
fn seen_from_the_other_side_the_evaluation_is_the_same() {
    let tables = Tables::new();
    let board = Board::from_fen("r3k2r/pp3ppp/2n5/3q4/8/2N2N2/PPP2PPP/R2QK2R w KQkq - 3 12", &tables)
        .unwrap();
    let other = Board::from_fen("r2qk2r/ppp2ppp/2n2n2/8/3Q4/2N5/PP3PPP/R3K2R b KQkq - 3 12", &tables)
        .unwrap();
    assert_eq!(board.evaluate(), -other.evaluate());
    assert_eq!(board.evaluate_relative(), other.evaluate_relative());
    assert_ne!(board.evaluate(), 0);
}

#[test]
fn a_rook_that_takes_a_rook_in_its_corner_ends_two_rights() {
    let tables = Tables::new();
    let mut board = Board::from_fen("r3k2r/8/8/8/8/8/8/R3K2R w KQkq - 0 1", &tables).unwrap();
    play(&mut board, "a1a8");
    assert_eq!(board.to_fen(), "R3k2r/8/8/8/8/8/8/4K2R b Kk - 0 1");
    assert_eq!(board.meta.hash, board.compute_key());
    let mut board = Board::from_fen("4k2r/8/8/8/8/8/8/4K2R b Kk - 0 1", &tables).unwrap();
    play(&mut board, "h8h1");
    assert_eq!(board.to_fen(), "4k3/8/8/8/8/8/8/4K2r w - - 0 2");
    assert_eq!(board.meta.hash, board.compute_key());
}

#[test]
fn a_king_that_moves_ends_both_rights() {
    let tables = Tables::new();
    let mut board = Board::from_fen("r3k2r/8/8/8/8/8/8/R3K2R w KQkq - 0 1", &tables).unwrap();
    play(&mut board, "e1e2");
    assert_eq!(board.to_fen(), "r3k2r/8/8/8/8/8/4K3/R6R b kq - 1 1");
    play(&mut board, "e8d8");
    assert_eq!(board.to_fen(), "r2k3r/8/8/8/8/8/4K3/R6R w - - 2 2");
}

#[test]
fn the_move_number_stops_at_its_largest_value() {
    let tables = Tables::new();
    let mut board = Board::from_fen("4k3/8/8/8/8/8/8/4K3 b - - 0 4294967294", &tables).unwrap();
    play(&mut board, "e8e7");
    assert_eq!(board.to_fen(), "8/4k3/8/8/8/8/8/4K3 w - - 1 4294967295");
    play(&mut board, "e1e2");
    play(&mut board, "e7e6");
    assert_eq!(board.to_fen(), "8/8/4k3/8/8/8/4K3/8 w - - 3 4294967295");
}

#[test]
fn history_is_kept_move_by_move() {
    let tables = Tables::new();
    let mut board = Board::from_fen_saved(START, vec![7, 9], &tables).unwrap();
    let first = board.meta.hash;
    play(&mut board, "e2e4");
    let second = board.meta.hash;
    play(&mut board, "e7e5");
    assert_eq!(board.previous_hashes, vec![7, 9, first, second]);
    let copy = board.clone();
    assert_eq!(copy.previous_hashes, board.previous_hashes);
    assert_eq!(copy.to_fen(), board.to_fen());
    assert_eq!(copy.meta.hash, board.meta.hash);
}

#[test]
fn no_move_comes_twice() {
    let tables = Tables::new();
    for fen in [
        START,
        "r3k2r/p1ppqpb1/bn2pnp1/3PN3/1p2P3/2N2Q1p/PPPBBPPP/R3K2R w KQkq - 0 1",
        "r3k2r/Pppp1ppp/1b3nbN/nP6/BBP1P3/q4N2/Pp1P2PP/R2Q1RK1 w kq - 0 1",
        "k4n2/6P1/8/2pP4/8/8/8/4K2R w K c6 0 1",
    ] {
        let board = Board::from_fen(fen, &tables).unwrap();
        let mut moves: Vec<u16> = board.pseudo_legal_moves().iter().map(|m| m.0).collect();
        let count = moves.len();
        moves.sort();
        moves.dedup();
        assert_eq!(moves.len(), count);
    }
}

#[test]
fn search_ends_at_the_depth_that_finds_the_mate() {
    let tables = Tables::new();
    let board = Board::from_fen("6k1/5ppp/8/8/8/8/5PPP/R5K1 w - - 0 1", &tables).unwrap();
    let mut tt = TranspositionTable::new();
    let (score, chess_move, depths) = search_depths(&board, 10_000, &mut tt);
    assert_eq!(chess_move.unwrap().to_fen(), "a1a8");
    // at depth 1 the reply is only valued as it stands; depth 2 sees the mate
    assert_eq!(depths, 2);
    assert_eq!(score, CHECKMATE + 1);
    // the same search again gives the same again
    let mut tt = TranspositionTable::new();
    assert_eq!(search_depths(&board, 10_000, &mut tt), (score, chess_move, depths));
    let mut tt = TranspositionTable::new();
    let (score, chess_move, depths) = search_depths_asp(&board, 10_000, &mut tt);
    assert_eq!(chess_move.unwrap().to_fen(), "a1a8");
    assert!(1 <= depths && depths <= MAX_DEPTH);
    assert!(score >= CHECKMATE);
}

#[test]
fn a_mated_side_has_no_move_and_the_worst_score() {
    let tables = Tables::new();
    let board = Board::from_fen("R5k1/5ppp/8/8/8/8/5PPP/6K1 b - - 1 1", &tables).unwrap();
    assert!(board.in_check(1));
    assert!(board.legal_moves().is_empty());
    let mut tt = TranspositionTable::new();
    let (score, chess_move, depths) = search_depths(&board, 200, &mut tt);
    assert!(chess_move.is_none());
    assert!(depths >= 1);
    // mated at the depth of the last search
    assert_eq!(score, -(CHECKMATE + depths));
}

#[test]
fn the_stored_move_is_tried_first() {
    let first = ChessMove::new(1, 18, NO_PROMOTION, NORMAL_MOVE);
    let second = ChessMove::new(11, 27, NO_PROMOTION, NORMAL_MOVE);
    let third = ChessMove::new(6, 21, NO_PROMOTION, NORMAL_MOVE);
    let list = vec![first, second, third];
    assert_eq!(order_moves(list.clone(), None), list);
    assert_eq!(order_moves(list.clone(), Some(third)), vec![third, first, second]);
    assert_eq!(order_moves(list.clone(), Some(first)), list);
    let absent = ChessMove::new(12, 28, NO_PROMOTION, NORMAL_MOVE);
    assert_eq!(order_moves(list.clone(), Some(absent)), list);
}

#[test]
fn moves_of_equal_gain_keep_the_order_of_their_generation() {
    let tables = Tables::new();
    let board = Board::default(&tables);
    let moves: Vec<String> = board.pseudo_legal_moves().iter().map(|m| m.to_fen()).collect();
    // knights first, then the pawns' single steps from file H to file A, then
    // their double steps; the squares are counted from H1
    assert_eq!(
        moves,
        vec![
            "g1h3", "g1f3", "b1c3", "b1a3", "h2h3", "g2g3", "f2f3", "e2e3", "d2d3", "c2c3", "b2b3",
            "a2a3", "h2h4", "g2g4", "f2f4", "e2e4", "d2d4", "c2c4", "b2b4", "a2a4",
        ]
    );
}

#[test]
fn sets_of_squares_shift_without_wrapping() {
    let a1 = 1u64 << 7;
    let h1 = 1u64;
    let e4 = 1u64 << 27;
    assert_eq!(north(e4), 1u64 << 35);
    assert_eq!(south(e4), 1u64 << 19);
    assert_eq!(east(e4), 1u64 << 26);
    assert_eq!(west(e4), 1u64 << 28);
    assert_eq!(north_east(e4), 1u64 << 34);
    assert_eq!(north_west(e4), 1u64 << 36);
    assert_eq!(south_east(e4), 1u64 << 18);
    assert_eq!(south_west(e4), 1u64 << 20);
    assert_eq!(west(a1), 0);
    assert_eq!(north_west(a1), 0);
    assert_eq!(south_west(a1 << 8), 0);
    assert_eq!(east(h1), 0);
    assert_eq!(north_east(h1), 0);
    assert_eq!(south_east(h1 << 8), 0);
    assert_eq!(south(h1), 0);
    assert_eq!(north(1u64 << 63), 0);
    let mut b = 0u64;
    set_bit(&mut b, 5);
    set_bit(&mut b, 40);
    assert_eq!(b, (1u64 << 5) | (1u64 << 40));
    assert_eq!(get_bit(b, 40), 1u64 << 40);
    assert_eq!(get_bit(b, 41), 0);
    assert_eq!(get_lsb(b), 5);
    assert_eq!(get_lsb(0), 64);
    assert_eq!(pop_lsb(&mut b), 5);
    assert_eq!(b, 1u64 << 40);
    clear_bit(&mut b, 40);
    assert_eq!(b, 0);
}

#[test]
fn a_search_without_a_limit_is_searched_to_the_end() {
    let tables = Tables::new();
    let board = Board::from_fen("6k1/5ppp/8/8/8/8/5PPP/R5K1 w - - 0 1", &tables).unwrap();
    let mut tt = TranspositionTable::new();
    let (score, chess_move, depths) = search_depths(&board, u128::MAX, &mut tt);
    assert!(depths >= 1);
    assert_eq!(depths, 2);
    assert_eq!(score, CHECKMATE + 1);
    assert_eq!(chess_move.unwrap().to_fen(), "a1a8");
    // the table holds the entry of the last search to the end
    let entry = tt.get(board.meta.hash).unwrap();
    assert_eq!((entry.value, entry.depth), (score, depths));
    assert_eq!(entry.best_move, chess_move);
    let mut tt = TranspositionTable::new();
    let (score, chess_move, depths) = search_depths_asp(&board, u128::MAX, &mut tt);
    assert!(depths >= 1);
    assert!(score >= CHECKMATE);
    assert_eq!(chess_move.unwrap().to_fen(), "a1a8");
    // a mated side: every depth up to the greatest is searched to the end
    let board = Board::from_fen("R5k1/5ppp/8/8/8/8/5PPP/6K1 b - - 1 1", &tables).unwrap();
    let mut tt = TranspositionTable::new();
    let (score, chess_move, depths) = search_depths(&board, u128::MAX, &mut tt);
    assert_eq!(depths, MAX_DEPTH);
    assert_eq!(score, -(CHECKMATE + MAX_DEPTH));
    assert!(chess_move.is_none());
}

#[test]
fn a_search_without_a_limit_from_an_empty_table_has_a_move() {
    let tables = Tables::new();
    let board = Board::from_fen("6k1/5ppp/8/8/8/8/5PPP/R5K1 w - - 0 1", &tables).unwrap();
    let mut tt = TranspositionTable::new();
    assert_eq!(find_best_move(&board, u128::MAX, &mut tt).unwrap().to_fen(), "a1a8");
    assert!(tt.get(board.meta.hash).is_some());
    let mut tt = TranspositionTable::new();
    let (score, chess_move) = iterative_deepening(&board, u128::MAX, &mut tt);
    assert_eq!(score, CHECKMATE + 1);
    assert_eq!(chess_move.unwrap().to_fen(), "a1a8");
    assert_eq!(tt.get(board.meta.hash).unwrap().best_move, chess_move);
    let mut tt = TranspositionTable::new();
    let (score, chess_move) = iterative_deepening_asp(&board, u128::MAX, &mut tt);
    assert!(score >= CHECKMATE);
    assert_eq!(chess_move.unwrap().to_fen(), "a1a8");
    assert_eq!(tt.get(board.meta.hash).unwrap().best_move, chess_move);
}

#[test]
fn a_reading_above_the_limit_stops_the_search_at_once() {
    let tables = Tables::new();
    let board = Board::from_fen(START, &tables).unwrap();
    let start = std::time::Instant::now();
    let other = TTEntry { typ: EXACT_VALUE, value: 5, depth: 2, best_move: None };
    let mut tt = TranspositionTable::new();
    tt.insert(7, other);
    let mut stopped = false;
    let value = alpha_beta_at(&board, &mut tt, -INF, INF, 3, &mut stopped, &start, 10, 11);
    assert!(stopped);
    assert_eq!(value, 0);
    assert_eq!(tt.len(), 1);
    let kept = tt.get(7).unwrap();
    assert_eq!((kept.typ, kept.value, kept.depth, kept.best_move), (EXACT_VALUE, 5, 2, None));
    assert!(tt.get(board.meta.hash).is_none());
    let mut stopped = false;
    assert_eq!(quiesce_at(&board, -INF, INF, &mut stopped, &start, 0, 1), 0);
    assert!(stopped);
    // a flag that was set stays set
    assert_eq!(alpha_beta_at(&board, &mut tt, -INF, INF, 0, &mut stopped, &start, 0, u128::MAX), 0);
    assert!(stopped);
    assert_eq!(tt.len(), 1);
}

#[test]
fn a_reading_at_the_limit_lets_the_search_go_on() {
    let tables = Tables::new();
    let board = Board::from_fen("6k1/5ppp/8/8/8/8/5PPP/R5K1 w - - 0 1", &tables).unwrap();
    let start = std::time::Instant::now();
    let mut tt = TranspositionTable::new();
    let mut stopped = false;
    let value = alpha_beta_at(&board, &mut tt, -INF, INF, 1, &mut stopped, &start, u128::MAX, u128::MAX);
    assert!(!stopped);
    let entry = tt.get(board.meta.hash).unwrap();
    assert_eq!((entry.typ, entry.value, entry.depth), (EXACT_VALUE, value, 1));
    assert!(board.legal_moves().contains(&entry.best_move.unwrap()));
    let board = Board::from_fen(START, &tables).unwrap();
    let mut stopped = false;
    let value = quiesce_at(&board, -INF, INF, &mut stopped, &start, u128::MAX, 0);
    assert!(!stopped);
    assert_eq!(value, board.evaluate_relative());
}
