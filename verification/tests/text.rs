use fes::bit_board::{bitmask_text, BitBoardGame};
use fes::board::{Board, FesMoveDet, GameState};
use fes::game::{ChessGame, Move};
use fes::perft_bb_mover::{perft_fast, MoveCounter};
use fes::pgn::StrIter;
use fes::{perft, perft_checked};

const START: &str = "rnbqkbnr/pppppppp/8/8/8/8/PPPPPPPP/RNBQKBNR w KQkq - 0 1";

#[test]
fn bitboard_as_text() {
    let gs = BitBoardGame::new();
    assert_eq!(
        gs.board.to_string(),
        "rnbqkbnr\npppppppp\n--------\n--------\n--------\n--------\nPPPPPPPP\nRNBQKBNR\n"
    );
    assert_eq!(gs.to_string(), gs.board.to_string());
    let first = gs.moves()[0];
    assert_eq!(first.to_string(), first.bbg.board.to_string());
    // a lone side bit and the unused kind
    let mut b = gs.board;
    b.set(63, 0b1000);
    b.set(62, 0b0110);
    assert!(b.to_string().starts_with("*#bqkbnr\n"));
    assert_eq!(b.tag_at(63), 8);
    assert_eq!(b.tag_at(62), 6);
    assert_eq!(b.tag_at(3), 15);
    assert_eq!(b.tag_at(59), 7);
    assert_eq!(b.tag_at(30), 0);
}

#[test]
fn bit_sets_as_text() {
    assert_eq!(
        bitmask_text(1),
        "\n--------\n--------\n--------\n--------\n--------\n--------\n--------\n-------X"
    );
    assert_eq!(
        bitmask_text(0x8000000000000081),
        "\nX-------\n--------\n--------\n--------\n--------\n--------\n--------\nX------X"
    );
}

#[test]
fn square_array_as_text() {
    let gs = GameState::from_fen(START).unwrap();
    assert_eq!(
        gs.board.to_string(),
        "rnbqkbnr\npppppppp\n........\n........\n........\n........\nPPPPPPPP\nRNBQKBNR\n"
    );
    assert_eq!(
        gs.to_string(),
        "rnbqkbnr\npppppppp\n........\n........\n........\n........\nPPPPPPPP\nRNBQKBNR\n\
         Castle rights: KQkq\nep: None\nPlayer: white to play."
    );
    let gs = GameState::from_fen("4k3/8/8/8/3Pp3/8/8/4K3 b - d3 0 1").unwrap();
    assert_eq!(
        gs.to_string(),
        "....k...\n........\n........\n........\n...Pp...\n........\n........\n....K...\n\
         Castle rights: \nep: Some(3)\nPlayer: black to play."
    );
    assert_eq!(Board::new().to_string(), "........\n".repeat(8));
    assert_eq!(
        Board::from_fen("8/8/8/8/8/8/8/R3K2R").unwrap().to_string(),
        "........\n".repeat(7) + "R...K..R\n"
    );
    assert!(Board::from_fen("8/8/8/8/8/8/8/R3K2R w - -").is_none());
    assert!(Board::from_fen("8/8/8/8/8/8/8").is_none());
    assert!(Board::from_fen("9/8/8/8/8/8/8/8").is_none());
}

#[test]
fn square_array_moves_as_text() {
    let gs = GameState::from_fen(START).unwrap();
    let mut texts: Vec<String> = gs.moves().iter().map(|m| m.to_uci()).collect();
    texts.sort();
    let mut expected: Vec<String> = BitBoardGame::new().moves().iter().map(|m| m.to_uci()).collect();
    expected.sort();
    assert_eq!(texts, expected);
    let mut moves: Vec<FesMoveDet> = Vec::new();
    let meta = gs.meta;
    FesMoveDet::push_basic(&mut moves, 12, 28, &meta);
    FesMoveDet::push_take(&mut moves, 0, 56, Some(fes::piece::Piece::Rook), &meta);
    FesMoveDet::push_promo(&mut moves, 52, 61, fes::piece::Piece::Queen, None, &meta);
    FesMoveDet::push_enpas(&mut moves, 36, 43, &meta);
    let texts: Vec<String> = moves.iter().map(|m| m.to_uci()).collect();
    assert_eq!(texts, vec!["e2e4", "a1a8", "e7f8", "e5d6"]);
    assert_eq!(moves[0].take, None);
    assert_eq!(moves[1].take, Some(fes::piece::Piece::Rook));
    assert_eq!(moves[2].promo, Some(fes::piece::Piece::Queen));
    assert!(moves[3].enpas);
    assert!(!moves[2].enpas);
}

#[test]
fn counting_without_successors() {
    for fen in [
        START,
        "r3k2r/p1ppqpb1/bn2pnp1/3PN3/1p2P3/2N2Q1p/PPPBBPPP/R3K2R w KQkq -",
        "8/2p5/3p4/KP5r/1R3p1k/8/4P1P1/8 w - -",
    ] {
        let mut gs = BitBoardGame::from_fen(fen).unwrap();
        assert_eq!(gs.count_moves() as usize, gs.moves().len());
        let mut counter = MoveCounter::new();
        gs.proc_movs(&mut counter);
        gs.proc_movs(&mut counter);
        assert_eq!(counter.counter as usize, 2 * gs.moves().len());
        for depth in 0..4 {
            let n = perft(&mut gs, depth);
            assert_eq!(perft_fast(&gs, depth), n);
            assert_eq!(perft_checked(&mut gs, depth), Some(n));
        }
    }
    let mut gs = BitBoardGame::new();
    assert_eq!(perft(&mut gs, 0), 1);
    assert_eq!(perft_checked(&mut gs, 3), Some(8902));
    assert_eq!(gs, BitBoardGame::new());
}

#[test]
fn reader_of_lines() {
    let mut lines = vec!["one".to_string(), "two".to_string()].into_iter();
    let mut reader = StrIter::new(&mut lines);
    assert_eq!(reader.get(), None);
    reader.advance();
    assert_eq!(reader.get(), Some("one"));
    assert_eq!(reader.get(), Some("one"));
    reader.advance();
    assert_eq!(reader.get(), Some("two"));
    reader.advance();
    assert_eq!(reader.get(), None);
}
