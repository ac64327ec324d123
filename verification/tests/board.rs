use fes::bit_board::{BitBoard, BitBoardGame};
use fes::game::{ChessGame, Move};

fn start() -> BitBoard {
    BitBoardGame::new().board
}

#[test]
fn masks_of_the_start_position() {
    let b = start();
    assert_eq!(b.piece_mask(), 0xFFFF00000000FFFF);
    assert_eq!(b.piece_special_mask(), 0xFFFF00000000FFFF);
    assert_eq!(b.colour_mask(true), 0x000000000000FFFF);
    assert_eq!(b.colour_mask(false), 0xFFFFFFFFFFFF0000);
    assert_eq!(b.col_piece_mask(true), 0x000000000000FFFF);
    assert_eq!(b.col_piece_mask(false), 0xFFFF000000000000);
    assert_eq!(b.enemy_or_empty(true), 0xFFFFFFFFFFFF0000);
    assert_eq!(b.pawn_mask(), 0x00FF00000000FF00);
    assert_eq!(b.col_pawn_mask(true), 0x000000000000FF00);
    assert_eq!(b.knight_mask(), 0x4200000000000042);
    assert_eq!(b.col_knight_mask(false), 0x4200000000000000);
    assert_eq!(b.diagonal_mask(), 0x3400000000000034);
    assert_eq!(b.col_diagonal_mask(true), 0x34);
    assert_eq!(b.ortho_mask(), 0x9100000000000091);
    assert_eq!(b.col_ortho_mask(false), 0x9100000000000000);
    assert_eq!(b.king_mask(), 0x0800000000000008);
    assert_eq!(b.col_king_mask(true), 0x08);
}

#[test]
fn attack_masks_of_the_start_position() {
    let b = start();
    assert_eq!(b.pawn_attack_mask(true), 0x0000000000FF0000);
    assert_eq!(b.pawn_attack_mask(false), 0x0000FF0000000000);
    assert_eq!(b.knight_attack_mask(true), 0x0000000000A51800);
    assert_eq!(b.king_attack_mask(true), 0x0000000000001C14);
    assert_eq!(b.diagonal_attack_mask(true), 0x0000000000007A00);
    assert_eq!(b.ortho_attack_mask(true), 0x000000000000916A);
    assert_eq!(b.attack_mask(true), 0x0000000000FFFF7E);
    assert_eq!(b.check_mask(true), u64::MAX);
    assert_eq!(b.ortho_pin_mask(true), 0);
    assert_eq!(b.diagonal_pin_mask(true), 0);
}

#[test]
fn pawn_and_knight_fans_stop_at_the_edges() {
    let b = start();
    // a white pawn on h2 (square 8) attacks g3 only; on a2 (square 15) b3 only
    assert_eq!(b.pawn_like_attack_mask(true, 1 << 8), 1 << 17);
    assert_eq!(b.pawn_like_attack_mask(true, 1 << 15), 1 << 22);
    assert_eq!(b.pawn_like_attack_mask(false, 1 << 48), 1 << 41);
    assert_eq!(b.pawn_like_attack_mask(false, 1 << 27), (1 << 18) | (1 << 20));
    // a knight on h1 (square 0) reaches f2 and g3
    assert_eq!(b.knight_like_attack_mask(1), (1 << 10) | (1 << 17));
    // a knight on d4 (square 28) reaches eight squares
    assert_eq!(
        b.knight_like_attack_mask(1 << 28),
        (1 << 11) | (1 << 13) | (1 << 18) | (1 << 22) | (1 << 34) | (1 << 38) | (1 << 43) | (1 << 45)
    );
}

#[test]
fn sliding_fill_includes_the_first_blocker() {
    // up the a-file from a1 (square 7), nothing in the way
    assert_eq!(BitBoard::sliding_mask::<true>(1 << 7, 8, 0, 0), 0x8080808080808000);
    // a blocker on a4 (square 31) is reached and stops the fill
    assert_eq!(BitBoard::sliding_mask::<true>(1 << 7, 8, 1 << 31, 0), 0x0000000080808000);
    // towards file a along the first rank from h1 (square 0)
    assert_eq!(BitBoard::sliding_mask::<true>(1, 1, 0, 0x0101010101010101), 0xFE);
    // towards file h from a1
    assert_eq!(BitBoard::sliding_mask::<false>(1 << 7, 1, 0, 0x8080808080808080), 0x7F);
    // a diagonal from h1 to a8
    assert_eq!(BitBoard::sliding_mask::<true>(1, 9, 0, 0x0101010101010101), 0x8040201008040200);
    // a diagonal from a1 towards h8, with a blocker on d4 (square 28)
    assert_eq!(
        BitBoard::sliding_mask::<true>(1 << 7, 7, 1 << 28, 0x8080808080808080),
        (1 << 14) | (1 << 21) | (1 << 28)
    );
}

#[test]
fn setting_clearing_and_moving_a_square() {
    let mut b = BitBoard { b0: 0, b1: 0, b2: 0, b3: 0 };
    b.set(10, 0b1011);
    assert_eq!(b, BitBoard { b0: 1 << 10, b1: 1 << 10, b2: 0, b3: 1 << 10 });
    b.set(10, 0b0100);
    assert_eq!(b, BitBoard { b0: 0, b1: 0, b2: 1 << 10, b3: 0 });
    b.dupe(10, 20);
    assert_eq!(b, BitBoard { b0: 0, b1: 0, b2: (1 << 10) | (1 << 20), b3: 0 });
    b.mov(20, 63);
    assert_eq!(b, BitBoard { b0: 0, b1: 0, b2: (1 << 10) | (1 << 63), b3: 0 });
    b.clear(10);
    assert_eq!(b, BitBoard { b0: 0, b1: 0, b2: 1 << 63, b3: 0 });
    b.mov(63, 63);
    assert_eq!(b, BitBoard { b0: 0, b1: 0, b2: 0, b3: 0 });
}

#[test]
fn check_mask_of_a_single_check_is_the_ray() {
    // rook on e8 checks the king on e1: the file between them and the rook
    let gs = BitBoardGame::from_fen("4r2k/8/8/8/8/8/8/4K3 w - - 0 1").unwrap();
    assert_eq!(gs.board.check_mask(true), 0x0808080808080800);
    assert_eq!(gs.board.vert_check_mask(true), 0x0808080808080800);
    assert_eq!(gs.board.hor_check_mask(true), u64::MAX);
    // a knight check leaves only the knight's square
    let gs = BitBoardGame::from_fen("7k/8/8/8/8/5n2/8/4K3 w - - 0 1").unwrap();
    assert_eq!(gs.board.check_mask(true), 1 << 18);
    // a pawn check leaves only the pawn's square
    let gs = BitBoardGame::from_fen("7k/8/8/8/8/8/3p4/4K3 w - - 0 1").unwrap();
    assert_eq!(gs.board.check_mask(true), 1 << 12);
    // two checks leave nothing
    let gs = BitBoardGame::from_fen("4r2k/8/8/8/8/5n2/8/4K3 w - - 0 1").unwrap();
    assert_eq!(gs.board.check_mask(true), 0);
}

#[test]
fn pin_masks_hold_the_ray_from_king_to_pinner() {
    // bishop g3, pawn f2, king e1
    let gs = BitBoardGame::from_fen("7k/8/8/8/8/6b1/5P2/4K3 w - - 0 1").unwrap();
    assert_eq!(gs.board.rl_pin_mask(true), 0);
    assert_eq!(gs.board.lr_pin_mask(true), (1 << 10) | (1 << 17));
    assert_eq!(gs.board.diagonal_pin_mask(true), (1 << 10) | (1 << 17));
    assert_eq!(gs.board.ortho_pin_mask(true), 0);
    // rook e8, knight e4, king e1
    let gs = BitBoardGame::from_fen("4r2k/8/8/8/4N3/8/8/4K3 w - - 0 1").unwrap();
    assert_eq!(gs.board.vert_pin_mask(true), 0x0808080808080800);
    assert_eq!(gs.board.hor_pin_mask(true), 0);
    // rook h5, pawns c5 and b5, king a5: two pieces in between
    let gs = BitBoardGame::from_fen("8/8/8/KPp4r/8/8/8/7k w - c6 0 1").unwrap();
    assert_eq!(gs.board.hor_pin_mask(true), 0);
    assert_eq!(gs.board.hor_pin_mask2(true), 0x0000007F00000000);
}

#[test]
fn packed_moves_as_text() {
    // e2 is square 11, e4 is square 27
    assert_eq!((27u16 * 64 + 11).to_uci(), "e2e4");
    // h1 is square 0, a8 is square 63
    assert_eq!((63u16 * 64).to_uci(), "h1a8");
    assert_eq!(63u16.to_uci(), "a8h1");
    // b7 is square 54; the promotion flag and the two piece bits
    assert_eq!((16384 + 63u16 * 64 + 54).to_uci(), "b7a8n");
    assert_eq!((16384 + 4096 + 63u16 * 64 + 54).to_uci(), "b7a8b");
    assert_eq!((16384 + 2 * 4096 + 63u16 * 64 + 54).to_uci(), "b7a8r");
    assert_eq!((16384 + 3 * 4096 + 63u16 * 64 + 54).to_uci(), "b7a8q");
}

#[test]
fn start_position_has_twenty_moves() {
    let gs = BitBoardGame::new();
    let mut moves: Vec<String> = gs.moves().iter().map(|m| m.to_uci()).collect();
    moves.sort();
    let mut expected: Vec<String> = Vec::new();
    for file in ["a", "b", "c", "d", "e", "f", "g", "h"] {
        expected.push(format!("{}2{}3", file, file));
        expected.push(format!("{}2{}4", file, file));
    }
    for m in ["b1a3", "b1c3", "g1f3", "g1h3"] {
        expected.push(m.to_string());
    }
    expected.sort();
    assert_eq!(moves, expected);
}

#[test]
fn new_game_is_the_start_position() {
    let fresh = fes::board::GameState::new();
    let read = fes::board::GameState::from_fen(fes::board::START).unwrap();
    assert_eq!(fresh, read);
    assert_eq!(fresh.moves().len(), 20);
}
