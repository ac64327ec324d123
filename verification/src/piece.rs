//! Pieces and colours of the square-array board.

use vstd::prelude::*;

verus! {

/// The two sides.
#[derive(Clone, Copy, PartialEq, Eq, Structural, Debug)]
pub enum PlayerColour {
    White,
    Black,
}

impl PlayerColour {
    /// The other colour.
    pub fn invert(self) -> (r: Self)
        ensures
            r != self,
            r == match self {
                PlayerColour::White => PlayerColour::Black,
                PlayerColour::Black => PlayerColour::White,
            },
    {
        match self {
            PlayerColour::White => PlayerColour::Black,
            PlayerColour::Black => PlayerColour::White,
        }
    }
}

/// The six kinds of piece.
#[derive(Clone, Copy, PartialEq, Eq, Structural, Debug)]
pub enum Piece {
    Pawn,
    Knight,
    Bishop,
    Rook,
    Queen,
    King,
}

/// A piece of one side.
#[derive(Clone, Copy, PartialEq, Eq, Structural, Debug)]
pub enum ColouredPiece {
    WhitePawn,
    WhiteKnight,
    WhiteBishop,
    WhiteRook,
    WhiteQueen,
    WhiteKing,
    BlackPawn,
    BlackKnight,
    BlackBishop,
    BlackRook,
    BlackQueen,
    BlackKing,
}

impl ColouredPiece {
    /// The colour of the piece.
    pub open spec fn colour(self) -> PlayerColour {
        match self {
            ColouredPiece::WhitePawn
            | ColouredPiece::WhiteKnight
            | ColouredPiece::WhiteBishop
            | ColouredPiece::WhiteRook
            | ColouredPiece::WhiteQueen
            | ColouredPiece::WhiteKing => PlayerColour::White,
            _ => PlayerColour::Black,
        }
    }

    /// The kind of the piece.
    pub open spec fn kind(self) -> Piece {
        match self {
            ColouredPiece::BlackPawn | ColouredPiece::WhitePawn => Piece::Pawn,
            ColouredPiece::BlackKnight | ColouredPiece::WhiteKnight => Piece::Knight,
            ColouredPiece::BlackBishop | ColouredPiece::WhiteBishop => Piece::Bishop,
            ColouredPiece::BlackRook | ColouredPiece::WhiteRook => Piece::Rook,
            ColouredPiece::BlackQueen | ColouredPiece::WhiteQueen => Piece::Queen,
            ColouredPiece::BlackKing | ColouredPiece::WhiteKing => Piece::King,
        }
    }

    /// The colour of the piece on a square, or `none_val` for an empty square, is `col`.
    pub open spec fn spec_opt_is_col(v: Option<Self>, col: PlayerColour, none_val: bool) -> bool {
        match v {
            Some(p) => p.colour() == col,
            None => none_val,
        }
    }

    /// The letter that stands for the piece: upper case for white.
    pub open spec fn letter(self) -> char {
        match self {
            ColouredPiece::WhitePawn => 'P',
            ColouredPiece::WhiteKnight => 'N',
            ColouredPiece::WhiteBishop => 'B',
            ColouredPiece::WhiteRook => 'R',
            ColouredPiece::WhiteQueen => 'Q',
            ColouredPiece::WhiteKing => 'K',
            ColouredPiece::BlackPawn => 'p',
            ColouredPiece::BlackKnight => 'n',
            ColouredPiece::BlackBishop => 'b',
            ColouredPiece::BlackRook => 'r',
            ColouredPiece::BlackQueen => 'q',
            ColouredPiece::BlackKing => 'k',
        }
    }

    /// The piece is black.
    pub fn is_black(self) -> (r: bool)
        ensures
            r == (self.colour() == PlayerColour::Black),
    {
        match self {
            ColouredPiece::BlackPawn
            | ColouredPiece::BlackKnight
            | ColouredPiece::BlackBishop
            | ColouredPiece::BlackRook
            | ColouredPiece::BlackQueen
            | ColouredPiece::BlackKing => true,
            _ => false,
        }
    }

    /// The piece is white.
    pub fn is_white(self) -> (r: bool)
        ensures
            r == (self.colour() == PlayerColour::White),
    {
        !self.is_black()
    }

    /// The piece is of colour `col`.
    pub fn is_col(self, col: PlayerColour) -> (r: bool)
        ensures
            r == (self.colour() == col),
    {
        match col {
            PlayerColour::White => self.is_white(),
            PlayerColour::Black => self.is_black(),
        }
    }

    /// The piece on a square is black; `none_val` for an empty square.
    pub fn opt_is_black(v: Option<Self>, none_val: bool) -> (r: bool)
        ensures
            r == Self::spec_opt_is_col(v, PlayerColour::Black, none_val),
    {
        match v {
            Some(v) => v.is_black(),
            None => none_val,
        }
    }

    /// The piece on a square is white; `none_val` for an empty square.
    pub fn opt_is_white(v: Option<Self>, none_val: bool) -> (r: bool)
        ensures
            r == Self::spec_opt_is_col(v, PlayerColour::White, none_val),
    {
        match v {
            Some(v) => v.is_white(),
            None => none_val,
        }
    }

    /// The piece on a square is of colour `col`; `none_val` for an empty square.
    pub fn opt_is_col(v: Option<Self>, col: PlayerColour, none_val: bool) -> (r: bool)
        ensures
            r == Self::spec_opt_is_col(v, col, none_val),
    {
        match col {
            PlayerColour::White => Self::opt_is_white(v, none_val),
            PlayerColour::Black => Self::opt_is_black(v, none_val),
        }
    }

    /// The kind of the piece.
    pub fn piece(self) -> (r: Piece)
        ensures
            r == self.kind(),
    {
        match self {
            ColouredPiece::BlackPawn | ColouredPiece::WhitePawn => Piece::Pawn,
            ColouredPiece::BlackKnight | ColouredPiece::WhiteKnight => Piece::Knight,
            ColouredPiece::BlackBishop | ColouredPiece::WhiteBishop => Piece::Bishop,
            ColouredPiece::BlackRook | ColouredPiece::WhiteRook => Piece::Rook,
            ColouredPiece::BlackQueen | ColouredPiece::WhiteQueen => Piece::Queen,
            ColouredPiece::BlackKing | ColouredPiece::WhiteKing => Piece::King,
        }
    }

    /// The kind of the piece on a square, if there is one.
    pub fn opt_piece(v: Option<Self>) -> (r: Option<Piece>)
        ensures
            r == match v {
                Some(p) => Some(p.kind()),
                None => None,
            },
    {
        match v {
            Some(p) => Some(p.piece()),
            None => None,
        }
    }

    /// The piece of colour `col` and kind `p`.
    pub fn from_parts(col: PlayerColour, p: Piece) -> (r: Self)
        ensures
            r.colour() == col,
            r.kind() == p,
    {
        match (col, p) {
            (PlayerColour::White, Piece::Pawn) => ColouredPiece::WhitePawn,
            (PlayerColour::White, Piece::Knight) => ColouredPiece::WhiteKnight,
            (PlayerColour::White, Piece::Bishop) => ColouredPiece::WhiteBishop,
            (PlayerColour::White, Piece::Rook) => ColouredPiece::WhiteRook,
            (PlayerColour::White, Piece::Queen) => ColouredPiece::WhiteQueen,
            (PlayerColour::White, Piece::King) => ColouredPiece::WhiteKing,
            (PlayerColour::Black, Piece::Pawn) => ColouredPiece::BlackPawn,
            (PlayerColour::Black, Piece::Knight) => ColouredPiece::BlackKnight,
            (PlayerColour::Black, Piece::Bishop) => ColouredPiece::BlackBishop,
            (PlayerColour::Black, Piece::Rook) => ColouredPiece::BlackRook,
            (PlayerColour::Black, Piece::Queen) => ColouredPiece::BlackQueen,
            (PlayerColour::Black, Piece::King) => ColouredPiece::BlackKing,
        }
    }

    /// The piece as text: its letter.
    pub fn to_string(&self) -> (r: String)
        ensures
            r@ == seq![self.letter()],
    {
        let c = match self {
            ColouredPiece::WhitePawn => 'P',
            ColouredPiece::WhiteKnight => 'N',
            ColouredPiece::WhiteBishop => 'B',
            ColouredPiece::WhiteRook => 'R',
            ColouredPiece::WhiteQueen => 'Q',
            ColouredPiece::WhiteKing => 'K',
            ColouredPiece::BlackPawn => 'p',
            ColouredPiece::BlackKnight => 'n',
            ColouredPiece::BlackBishop => 'b',
            ColouredPiece::BlackRook => 'r',
            ColouredPiece::BlackQueen => 'q',
            ColouredPiece::BlackKing => 'k',
        };
        let mut text = String::new();
        text.push(c);
        assert(text@ =~= seq![self.letter()]);
        text
    }

    /// A piece is made of its colour and its kind, and of nothing else.
    pub proof fn lemma_parts(self, other: Self)
        requires
            self.colour() == other.colour(),
            self.kind() == other.kind(),
        ensures
            self == other,
    {
    }
}

} // verus!
