use fes::bit_board::BitBoardGame;
use fes::board::GameState;
use fes::game::ChessGame;
use fes::perft;

// game boards from https://www.chessprogramming.org/Perft_Results
#[test]
fn perft_base() {
    let mut gs =
        GameState::from_fen("rnbqkbnr/pppppppp/8/8/8/8/PPPPPPPP/RNBQKBNR w KQkq - 0 1").unwrap();
    assert_eq!(perft(&mut gs, 1), 20);
    assert_eq!(perft(&mut gs, 2), 400);
    assert_eq!(perft(&mut gs, 3), 8902);
    assert_eq!(perft(&mut gs, 4), 197281);
}

#[test]
fn perft_kiwipete() {
    let mut gs = GameState::from_fen(
        "r3k2r/p1ppqpb1/bn2pnp1/3PN3/1p2P3/2N2Q1p/PPPBBPPP/R3K2R w KQkq -",
    )
    .unwrap();
    assert_eq!(perft(&mut gs, 1), 48);
    assert_eq!(perft(&mut gs, 2), 2039);
    assert_eq!(perft(&mut gs, 3), 97862);
    assert_eq!(perft(&mut gs, 4), 4085603);
}

#[test]
fn perft_pos3() {
    let mut gs = GameState::from_fen("8/2p5/3p4/KP5r/1R3p1k/8/4P1P1/8 w - -").unwrap();
    assert_eq!(perft(&mut gs, 1), 14);
    assert_eq!(perft(&mut gs, 2), 191);
    assert_eq!(perft(&mut gs, 3), 2812);
    assert_eq!(perft(&mut gs, 4), 43238);
    assert_eq!(perft(&mut gs, 5), 674624);
}

#[test]
fn perft_pos4() {
    let mut gs = GameState::from_fen(
        "r3k2r/Pppp1ppp/1b3nbN/nP6/BBP1P3/q4N2/Pp1P2PP/R2Q1RK1 w kq - 0 1",
    )
    .unwrap();
    assert_eq!(perft(&mut gs, 1), 6);
    assert_eq!(perft(&mut gs, 2), 264);
    assert_eq!(perft(&mut gs, 3), 9467);
    assert_eq!(perft(&mut gs, 4), 422333);
}

#[test]
fn perft_pos4b() {
    let mut gs = GameState::from_fen(
        "r2q1rk1/pP1p2pp/Q4n2/bbp1p3/Np6/1B3NBn/pPPP1PPP/R3K2R b KQ - 0 1",
    )
    .unwrap();
    assert_eq!(perft(&mut gs, 1), 6);
    assert_eq!(perft(&mut gs, 2), 264);
    assert_eq!(perft(&mut gs, 3), 9467);
    assert_eq!(perft(&mut gs, 4), 422333);
}

#[test]
fn perft_pos5() {
    let mut gs =
        GameState::from_fen("rnbq1k1r/pp1Pbppp/2p5/8/2B5/8/PPP1NnPP/RNBQK2R w KQ - 1 8").unwrap();
    assert_eq!(perft(&mut gs, 1), 44);
    assert_eq!(perft(&mut gs, 2), 1486);
    assert_eq!(perft(&mut gs, 3), 62379);
}

#[test]
fn perft_pos6() {
    let mut gs = GameState::from_fen(
        "r4rk1/1pp1qppp/p1np1n2/2b1p1B1/2B1P1b1/P1NP1N2/1PP1QPPP/R4RK1 w - - 0 10",
    )
    .unwrap();
    assert_eq!(perft(&mut gs, 1), 46);
    assert_eq!(perft(&mut gs, 2), 2079);
    assert_eq!(perft(&mut gs, 3), 89890);
}


#[test]
fn square_array_start_position() {
    assert_eq!(
        GameState::new(),
        GameState::from_fen("rnbqkbnr/pppppppp/8/8/8/8/PPPPPPPP/RNBQKBNR w KQkq - 0 1").unwrap()
    );
}

#[test]
fn both_boards_count_alike() {
    let fens = [
        "r3k2r/8/8/8/8/8/8/R3K2R w KQkq - 0 1",
        "8/8/8/KPp4r/8/8/8/7k w - c6 0 1",
        "r1r4k/1P6/8/8/8/8/8/7K w - - 0 1",
        "4r2k/8/8/8/8/5n2/1P6/3QK3 w - - 0 1",
        "7k/8/8/8/3Pp3/8/8/K7 b - d3 0 1",
    ];
    for fen in fens {
        let mut a = GameState::from_fen(fen).unwrap();
        let mut b = BitBoardGame::from_fen(fen).unwrap();
        for depth in 1..4 {
            assert_eq!(perft(&mut a, depth), perft(&mut b, depth), "{} at {}", fen, depth);
            assert_eq!(perft(&mut b, depth), fes::perft_bb_mover::perft_fast(&b, depth));
        }
    }
}

#[test]
fn square_array_moves_are_played_and_taken_back() {
    let mut gs = GameState::from_fen(
        "r3k2r/p1ppqpb1/bn2pnp1/3PN3/1p2P3/2N2Q1p/PPPBBPPP/R3K2R w KQkq -",
    )
    .unwrap();
    let before = gs;
    let moves = gs.moves();
    assert_eq!(moves.len(), 48);
    let mut texts: Vec<String> = Vec::new();
    for m in moves.iter() {
        let un = gs.do_move(m);
        assert_ne!(gs, before);
        gs.unmove(&un);
        assert_eq!(gs, before);
        texts.push(fes::game::Move::to_uci(m));
    }
    assert!(texts.contains(&"e1g1".to_string()));
    assert!(texts.contains(&"e1c1".to_string()));
    assert!(texts.contains(&"d5e6".to_string()));
}

#[test]
fn square_array_refuses_unsound_records() {
    // a right without its rook, an en-passant file without its pawn, a king that can be taken
    assert!(GameState::from_fen("4k3/8/8/8/8/8/8/4K3 w K - 0 1").is_none());
    assert!(GameState::from_fen("4k3/8/8/8/8/8/8/4K3 w - e6 0 1").is_none());
    assert!(GameState::from_fen("4k3/4R3/8/8/8/8/8/4K3 w - - 0 1").is_none());
    assert!(GameState::from_fen("4k3/8/8/8/8/8/8/4K3 w - - 0 1").is_some());
}

// game boards from https://www.chessprogramming.org/Perft_Results
#[test]
fn bitboard_perft_base() {
    let mut gs =
        BitBoardGame::from_fen("rnbqkbnr/pppppppp/8/8/8/8/PPPPPPPP/RNBQKBNR w KQkq - 0 1").unwrap();
    assert_eq!(perft(&mut gs, 1), 20);
    assert_eq!(perft(&mut gs, 2), 400);
    assert_eq!(perft(&mut gs, 3), 8902);
    assert_eq!(perft(&mut gs, 4), 197281);
}

#[test]
fn bitboard_perft_kiwipete() {
    let mut gs = BitBoardGame::from_fen(
        "r3k2r/p1ppqpb1/bn2pnp1/3PN3/1p2P3/2N2Q1p/PPPBBPPP/R3K2R w KQkq -",
    )
    .unwrap();
    assert_eq!(perft(&mut gs, 1), 48);
    assert_eq!(perft(&mut gs, 2), 2039);
    assert_eq!(perft(&mut gs, 3), 97862);
    assert_eq!(perft(&mut gs, 4), 4085603);
}

#[test]
fn bitboard_perft_pos3() {
    let mut gs = BitBoardGame::from_fen("8/2p5/3p4/KP5r/1R3p1k/8/4P1P1/8 w - -").unwrap();
    assert_eq!(perft(&mut gs, 1), 14);
    assert_eq!(perft(&mut gs, 2), 191);
    assert_eq!(perft(&mut gs, 3), 2812);
    assert_eq!(perft(&mut gs, 4), 43238);
    assert_eq!(perft(&mut gs, 5), 674624);
}

#[test]
fn bitboard_perft_pos4() {
    let mut gs = BitBoardGame::from_fen(
        "r3k2r/Pppp1ppp/1b3nbN/nP6/BBP1P3/q4N2/Pp1P2PP/R2Q1RK1 w kq - 0 1",
    )
    .unwrap();
    assert_eq!(perft(&mut gs, 1), 6);
    assert_eq!(perft(&mut gs, 2), 264);
    assert_eq!(perft(&mut gs, 3), 9467);
    assert_eq!(perft(&mut gs, 4), 422333);
}

#[test]
fn bitboard_perft_pos4b() {
    let mut gs = BitBoardGame::from_fen(
        "r2q1rk1/pP1p2pp/Q4n2/bbp1p3/Np6/1B3NBn/pPPP1PPP/R3K2R b KQ - 0 1",
    )
    .unwrap();
    assert_eq!(perft(&mut gs, 1), 6);
    assert_eq!(perft(&mut gs, 2), 264);
    assert_eq!(perft(&mut gs, 3), 9467);
    assert_eq!(perft(&mut gs, 4), 422333);
}

#[test]
fn bitboard_perft_pos5() {
    let mut gs =
        BitBoardGame::from_fen("rnbq1k1r/pp1Pbppp/2p5/8/2B5/8/PPP1NnPP/RNBQK2R w KQ - 1 8").unwrap();
    assert_eq!(perft(&mut gs, 1), 44);
    assert_eq!(perft(&mut gs, 2), 1486);
    assert_eq!(perft(&mut gs, 3), 62379);
}

#[test]
fn bitboard_perft_pos6() {
    let mut gs = BitBoardGame::from_fen(
        "r4rk1/1pp1qppp/p1np1n2/2b1p1B1/2B1P1b1/P1NP1N2/1PP1QPPP/R4RK1 w - - 0 10",
    )
    .unwrap();
    assert_eq!(perft(&mut gs, 1), 46);
    assert_eq!(perft(&mut gs, 2), 2079);
    assert_eq!(perft(&mut gs, 3), 89890);
}

#[test]
fn bitboard_start_position_is_the_standard_record() {
    let gs =
        BitBoardGame::from_fen("rnbqkbnr/pppppppp/8/8/8/8/PPPPPPPP/RNBQKBNR w KQkq - 0 1").unwrap();
    assert_eq!(gs, BitBoardGame::new());
}
