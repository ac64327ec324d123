//! What a chess position offers to a driver: its legal moves, and playing and taking back one.

use vstd::prelude::*;

verus! {

/// `String::push` appends one character to the string.
pub assume_specification[ String::push ](s: &mut String, c: char)
    ensures
        final(s)@ == old(s)@.push(c),
;

/// The file letter of a square, where file `h` is the one of square 0.
pub open spec fn file_char(sq: int) -> char {
    ('h' as int - sq % 8) as char
}

/// The rank digit of a square, where rank `1` is the one of square 0.
pub open spec fn rank_char(sq: int) -> char {
    ('1' as int + sq / 8) as char
}

/// The promotion letter of a packed move: `n`, `b`, `r` or `q` by the two bits above the
/// squares.
pub open spec fn promo_char(mov: u16) -> char {
    let cc = (mov / 4096) % 4;
    if cc == 0 {
        'n'
    } else if cc == 1 {
        'b'
    } else if cc == 2 {
        'r'
    } else {
        'q'
    }
}

/// The text of a packed move: the square it leaves, the square it reaches and, where the
/// promotion flag (bit 14) is set, the letter of the piece it promotes to.
pub open spec fn uci_text(mov: u16) -> Seq<char> {
    let from = mov as int % 64;
    let to = (mov as int / 64) % 64;
    let squares = seq![file_char(from), rank_char(from), file_char(to), rank_char(to)];
    if (mov / 16384) % 2 == 1 {
        squares.push(promo_char(mov))
    } else {
        squares
    }
}

/// A move that can be written as text for a chess engine's wire format.
pub trait Move: Sized {
    /// The text of the move.
    spec fn uci(&self) -> Seq<char>;

    /// The move as `<from><to>[promo]`.
    fn to_uci(&self) -> (r: String)
        ensures
            r@ == self.uci(),
    ;
}

impl Move for u16 {
    open spec fn uci(&self) -> Seq<char> {
        uci_text(*self)
    }

    fn to_uci(&self) -> (r: String) {
        let mov = *self;
        let fx = (mov & 7) as u8;
        let fy = ((mov >> 3) & 7) as u8;
        let tx = ((mov >> 6) & 7) as u8;
        let ty = ((mov >> 9) & 7) as u8;
        let cc = ((mov >> 12) & 3) as u8;
        let flag = (mov >> 14) & 1;
        assert(mov & 7 == (mov % 64) % 8 && (mov >> 3) & 7 == (mov % 64) / 8 && (mov >> 6) & 7 == ((
        mov / 64) % 64) % 8 && (mov >> 9) & 7 == ((mov / 64) % 64) / 8 && (mov >> 12) & 3 == (mov
            / 4096) % 4 && (mov >> 14) & 1 == (mov / 16384) % 2) by (bit_vector);
        let ox = (104u8 - fx) as char;
        let oy = (49u8 + fy) as char;
        let nx = (104u8 - tx) as char;
        let ny = (49u8 + ty) as char;
        let mut text = String::new();
        text.push(ox);
        text.push(oy);
        text.push(nx);
        text.push(ny);
        if flag == 1 {
            let letter = if cc == 0 {
                'n'
            } else if cc == 1 {
                'b'
            } else if cc == 2 {
                'r'
            } else {
                'q'
            };
            text.push(letter);
        }
        assert(text@ =~= uci_text(mov));
        text
    }
}

/// A chess position that a driver can explore: list the legal moves, play one, take it back.
pub trait ChessGame: Sized {
    type Move: Move;

    type UnMove;

    /// The position is one that the game can work on.
    spec fn wf(&self) -> bool;

    /// The legal moves of the position, in the order in which `moves` lists them.
    spec fn legal(&self) -> Seq<Self::Move>;

    /// The position that `mov` leads to.
    spec fn after(&self, mov: &Self::Move) -> Self;

    /// `un` takes a game that is in position `after` back to position `before`.
    spec fn undoes(un: &Self::UnMove, before: &Self, after: &Self) -> bool;

    /// The starting position of a game of chess.
    fn new() -> (r: Self)
        ensures
            r.wf(),
    ;

    /// The position that a FEN record describes, if it is one.
    fn from_fen(fen: &str) -> (r: Option<Self>)
        ensures
            r matches Some(g) ==> g.wf(),
    ;

    /// The legal moves of the position.
    fn moves(&self) -> (r: Vec<Self::Move>)
        requires
            self.wf(),
        ensures
            r@ == self.legal(),
    ;

    /// Plays the legal move `mov` and returns what takes it back.
    fn do_move(&mut self, mov: &Self::Move) -> (un: Self::UnMove)
        requires
            old(self).wf(),
            old(self).legal().contains(*mov),
        ensures
            final(self).wf(),
            *final(self) == old(self).after(mov),
            Self::undoes(&un, old(self), final(self)),
    ;

    /// Takes back the move that `mov` was returned for.
    fn unmove(&mut self, mov: &Self::UnMove)
        requires
            exists|before: Self| Self::undoes(mov, &before, old(self)),
        ensures
            forall|before: Self| Self::undoes(mov, &before, old(self)) ==> *final(self) == before,
    ;
}

} // verus!
