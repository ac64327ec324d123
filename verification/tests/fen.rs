use fes::bit_board::{BitBoard, BitBoardGame};
use fes::game::ChessGame;

#[test]
fn reads_board_side_rights_and_target() {
    let gs = BitBoardGame::from_fen("  4k3/8/8/8/3Pp3/8/8/R3K3 b Q d3 12 34\n").unwrap();
    assert!(!gs.turn);
    assert!(gs.white_qs);
    assert!(!gs.white_ks);
    assert!(!gs.black_qs);
    assert!(!gs.black_ks);
    // d3: rank 3, file d
    assert_eq!(gs.ep, Some(16 + 4));
    let mut b = BitBoard { b0: 0, b1: 0, b2: 0, b3: 0 };
    b.set(59, 0b0111);
    b.set(28, 0b1100);
    b.set(27, 0b0100);
    b.set(7, 0b1010);
    b.set(3, 0b1111);
    assert_eq!(gs.board, b);
    let gs = BitBoardGame::from_fen("4k3/8/8/3pP3/8/8/8/4K3 w - d6").unwrap();
    assert_eq!(gs.ep, Some(40 + 4));
    assert!(gs.turn);
}

#[test]
fn refuses_what_is_no_record() {
    let bad = [
        "",
        "   ",
        "rnbqkbnr/pppppppp/8/8/8/8/PPPPPPPP/RNBQKBNR",
        "rnbqkbnr/pppppppp/8/8/8/8/PPPPPPPP/RNBQKBNR w",
        "rnbqkbnr/pppppppp/8/8/8/8/PPPPPPPP/RNBQKBNR w KQkq",
        // two blanks
        "rnbqkbnr/pppppppp/8/8/8/8/PPPPPPPP/RNBQKBNR  w KQkq -",
        // seven ranks, nine ranks
        "rnbqkbnr/pppppppp/8/8/8/8/PPPPPPPP w KQkq -",
        "rnbqkbnr/pppppppp/8/8/8/8/8/PPPPPPPP/RNBQKBNR w KQkq -",
        // a rank of seven, a rank of nine
        "rnbqkbnr/pppppppp/7/8/8/8/PPPPPPPP/RNBQKBNR w KQkq -",
        "rnbqkbnr/pppppppp/8/8/8/8/PPPPPPPPP/RNBQKBNR w KQkq -",
        "rnbqkbnr/pppppppp/8/8/8/8/PPPPPPPP/RNBQKBNR1 w KQkq -",
        // digits outside 1 to 8, an unknown glyph
        "rnbqkbnr/pppppppp/9/8/8/8/PPPPPPPP/RNBQKBNR w KQkq -",
        "rnbqkbnr/pppppppp/08/8/8/8/PPPPPPPP/RNBQKBNR w KQkq -",
        "rnbqkbnr/pppppppp/8/8/8/8/PPPPPPPP/RNBQKBNX w KQkq -",
        // no separators
        "rnbqkbnrpppppppp8888PPPPPPPPRNBQKBNR w KQkq -",
        // side, castling, target
        "rnbqkbnr/pppppppp/8/8/8/8/PPPPPPPP/RNBQKBNR x KQkq -",
        "rnbqkbnr/pppppppp/8/8/8/8/PPPPPPPP/RNBQKBNR white KQkq -",
        "rnbqkbnr/pppppppp/8/8/8/8/PPPPPPPP/RNBQKBNR w KQxq -",
        "rnbqkbnr/pppppppp/8/8/8/8/PPPPPPPP/RNBQKBNR w -K -",
        "rnbqkbnr/pppppppp/8/8/8/8/PPPPPPPP/RNBQKBNR w KQkq e",
        "rnbqkbnr/pppppppp/8/8/8/8/PPPPPPPP/RNBQKBNR w KQkq i6",
        "rnbqkbnr/pppppppp/8/8/8/8/PPPPPPPP/RNBQKBNR w KQkq e3",
        "rnbqkbnr/pppppppp/8/8/8/8/PPPPPPPP/RNBQKBNR b KQkq e6",
        "rnbqkbnr/pppppppp/8/8/8/8/PPPPPPPP/RNBQKBNR w KQkq e66",
    ];
    for fen in bad {
        assert!(BitBoardGame::from_fen(fen).is_none(), "{}", fen);
    }
}

#[test]
fn reads_every_glyph() {
    let gs = BitBoardGame::from_fen("pnbrqk2/PNBRQK2/8/8/8/8/8/8 w - -").unwrap();
    let mut b = BitBoard { b0: 0, b1: 0, b2: 0, b3: 0 };
    let black = [0b0100, 0b0101, 0b0001, 0b0010, 0b0011, 0b0111];
    for (i, tag) in black.iter().enumerate() {
        b.set(63 - i as u8, *tag);
        b.set(55 - i as u8, *tag | 0b1000);
    }
    assert_eq!(gs.board, b);
}
