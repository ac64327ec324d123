use fes::notation::{
    parse_file, parse_piece_letter, parse_rank, parse_square, str_to_algebraic, AlgebraicMove,
    AlgebraicPosition,
};
use fes::pgn::{classify, moves_of_line, PgnLine};
use fes::piece::{ColouredPiece, Piece, PlayerColour};

#[test]
fn squares_ranks_and_files() {
    assert_eq!(parse_square("a4"), Some((3, 0)));
    assert_eq!(parse_square("h7"), Some((6, 7)));
    assert_eq!(parse_square("a1"), Some((0, 0)));
    assert_eq!(parse_square("h8"), Some((7, 7)));
    assert_eq!(parse_square("i1"), None);
    assert_eq!(parse_square("a9"), None);
    assert_eq!(parse_square("a0"), None);
    assert_eq!(parse_square("a"), None);
    assert_eq!(parse_square("a11"), None);
    assert_eq!(parse_square(""), None);
    assert_eq!(parse_rank("1"), Some(0));
    assert_eq!(parse_rank("8"), Some(7));
    assert_eq!(parse_rank("9"), None);
    assert_eq!(parse_rank("0"), None);
    assert_eq!(parse_rank("12"), None);
    assert_eq!(parse_file("a"), Some(0));
    assert_eq!(parse_file("h"), Some(7));
    assert_eq!(parse_file("i"), None);
    assert_eq!(parse_file("ab"), None);
}

#[test]
fn piece_letters() {
    assert_eq!(parse_piece_letter('P'), Some(Piece::Pawn));
    assert_eq!(parse_piece_letter('N'), Some(Piece::Knight));
    assert_eq!(parse_piece_letter('B'), Some(Piece::Bishop));
    assert_eq!(parse_piece_letter('R'), Some(Piece::Rook));
    assert_eq!(parse_piece_letter('Q'), Some(Piece::Queen));
    assert_eq!(parse_piece_letter('K'), Some(Piece::King));
    assert_eq!(parse_piece_letter('k'), None);
    assert_eq!(parse_piece_letter('x'), None);
}

#[test]
fn moves_in_algebraic_notation() {
    assert_eq!(str_to_algebraic(" O-O-O "), Some(AlgebraicMove::QSCastle));
    assert_eq!(str_to_algebraic("O-O"), Some(AlgebraicMove::KSCastle));
    assert_eq!(str_to_algebraic("O-O+"), Some(AlgebraicMove::KSCastle));
    assert_eq!(
        str_to_algebraic("Nf3"),
        Some(AlgebraicMove::Move(
            AlgebraicPosition::Piece(Piece::Knight),
            AlgebraicPosition::Square(2, 5)
        ))
    );
    assert_eq!(
        str_to_algebraic("e4"),
        Some(AlgebraicMove::Move(
            AlgebraicPosition::Piece(Piece::Pawn),
            AlgebraicPosition::Square(3, 4)
        ))
    );
    assert_eq!(
        str_to_algebraic("Qxd8+"),
        Some(AlgebraicMove::Move(
            AlgebraicPosition::Piece(Piece::Queen),
            AlgebraicPosition::Square(7, 3)
        ))
    );
    // the promotion group has two characters: no third one names a piece
    assert_eq!(str_to_algebraic("e8=Q"), None);
    assert_eq!(str_to_algebraic("hello"), None);
    assert_eq!(str_to_algebraic(""), None);
}

#[test]
fn coloured_pieces() {
    let all = [
        (ColouredPiece::WhitePawn, PlayerColour::White, Piece::Pawn, "P"),
        (ColouredPiece::WhiteKnight, PlayerColour::White, Piece::Knight, "N"),
        (ColouredPiece::WhiteBishop, PlayerColour::White, Piece::Bishop, "B"),
        (ColouredPiece::WhiteRook, PlayerColour::White, Piece::Rook, "R"),
        (ColouredPiece::WhiteQueen, PlayerColour::White, Piece::Queen, "Q"),
        (ColouredPiece::WhiteKing, PlayerColour::White, Piece::King, "K"),
        (ColouredPiece::BlackPawn, PlayerColour::Black, Piece::Pawn, "p"),
        (ColouredPiece::BlackKnight, PlayerColour::Black, Piece::Knight, "n"),
        (ColouredPiece::BlackBishop, PlayerColour::Black, Piece::Bishop, "b"),
        (ColouredPiece::BlackRook, PlayerColour::Black, Piece::Rook, "r"),
        (ColouredPiece::BlackQueen, PlayerColour::Black, Piece::Queen, "q"),
        (ColouredPiece::BlackKing, PlayerColour::Black, Piece::King, "k"),
    ];
    for (cp, col, p, text) in all {
        assert_eq!(ColouredPiece::from_parts(col, p), cp);
        assert_eq!(cp.piece(), p);
        assert_eq!(cp.is_white(), col == PlayerColour::White);
        assert_eq!(cp.is_black(), col == PlayerColour::Black);
        assert!(cp.is_col(col));
        assert!(!cp.is_col(col.invert()));
        assert_eq!(cp.to_string(), text);
        assert_eq!(ColouredPiece::opt_piece(Some(cp)), Some(p));
        assert!(ColouredPiece::opt_is_col(Some(cp), col, false));
        assert!(!ColouredPiece::opt_is_col(Some(cp), col.invert(), true));
    }
    assert_eq!(ColouredPiece::opt_piece(None), None);
    assert!(ColouredPiece::opt_is_white(None, true));
    assert!(!ColouredPiece::opt_is_white(None, false));
    assert!(ColouredPiece::opt_is_black(None, true));
    assert!(!ColouredPiece::opt_is_black(None, false));
    assert_eq!(PlayerColour::White.invert(), PlayerColour::Black);
    assert_eq!(PlayerColour::Black.invert(), PlayerColour::White);
}

#[test]
fn lines_of_a_game_file() {
    match classify("[Event \"F/S Return Match\"]") {
        PgnLine::Tag(name, value) => {
            assert_eq!(name, "Event");
            assert_eq!(value, "\"F/S Return Match\"");
        }
        _ => panic!("a tag pair"),
    }
    match classify("[[Site  x]]]") {
        PgnLine::Tag(name, value) => {
            assert_eq!(name, "Site");
            assert_eq!(value, " x");
        }
        _ => panic!("a tag pair"),
    }
    assert!(matches!(classify(""), PgnLine::Blank));
    assert!(matches!(classify("[Event]"), PgnLine::Broken));
    assert!(matches!(classify("["), PgnLine::Broken));
    assert!(matches!(classify("1. e4 e5"), PgnLine::Moves));
    assert!(matches!(classify(" "), PgnLine::Moves));

    let knight = |r, f| {
        AlgebraicMove::Move(AlgebraicPosition::Piece(Piece::Knight), AlgebraicPosition::Square(r, f))
    };
    let pawn = |r, f| {
        AlgebraicMove::Move(AlgebraicPosition::Piece(Piece::Pawn), AlgebraicPosition::Square(r, f))
    };
    assert_eq!(
        moves_of_line("1. e4 e5 2. Nf3 Nc6 3. O-O {a comment} 3... O-O-O "),
        Some(vec![
            pawn(3, 4),
            pawn(4, 4),
            knight(2, 5),
            knight(5, 2),
            AlgebraicMove::KSCastle,
            AlgebraicMove::QSCastle
        ])
    );
    // black's move is read only where a blank follows it
    assert_eq!(moves_of_line("1. e4 e5"), Some(vec![pawn(3, 4)]));
    assert_eq!(moves_of_line("no moves here"), Some(vec![]));
    assert_eq!(moves_of_line(""), Some(vec![]));
    // a text that is no move ends the reading
    assert_eq!(moves_of_line("1. e4 e5 2. xx Nc6 "), None);
}
