//! What the move generator hands to its visitor: one emission for each legal move.

use crate::bit_board::planes::BitBoard;
use vstd::prelude::*;

verus! {

/// The four castling rights: white queenside and kingside, black queenside and kingside.
pub struct Rights {
    pub wq: bool,
    pub wk: bool,
    pub bq: bool,
    pub bk: bool,
}

/// One legal move, as the generator classifies it.
pub enum Step {
    /// A move or capture by a piece other than the king, or by a pawn that neither takes two
    /// steps, nor captures en passant, nor promotes.
    Move { from: u8, to: u8 },
    /// A move or capture by the king, castling apart.
    KingMove { from: u8, to: u8 },
    /// An en-passant capture: the pawn lands on `to`, the captured pawn stood behind it.
    EnPassant { from: u8, to: u8 },
    /// A pawn's double step from its starting rank.
    PawnPush2 { from: u8 },
    /// A pawn that reaches the last rank and becomes the piece with tag `piece`.
    Promotion { from: u8, to: u8, piece: u8 },
    /// Castling on the queen's side.
    QsCastle,
    /// Castling on the king's side.
    KsCastle,
}

/// The position that a move is made from, as far as the generator's callbacks are told:
/// the board, the side to move and the castling rights.
pub struct Origin {
    pub rights: Rights,
    pub turn: bool,
    pub board: BitBoard,
}

/// One call of a visitor: a step and the position it is made from.
pub struct Emission {
    pub origin: Origin,
    pub step: Step,
}

impl Step {
    /// The squares of the step are on the board, and so are the squares that the step
    /// implies for side `turn` (`true` is white): the captured pawn's of an en-passant
    /// capture, the landing square of a double step.
    pub open spec fn in_range(self, turn: bool) -> bool {
        match self {
            Step::Move { from, to } => from < 64 && to < 64,
            Step::KingMove { from, to } => from < 64 && to < 64,
            Step::EnPassant { from, to } => from < 64 && (if turn {
                8 <= to < 64
            } else {
                to < 56
            }),
            Step::PawnPush2 { from } => if turn {
                from < 48
            } else {
                16 <= from < 64
            },
            Step::Promotion { from, to, piece } => from < 64 && to < 64 && piece < 16,
            Step::QsCastle => true,
            Step::KsCastle => true,
        }
    }
}

/// The origin that a callback is told of.
pub open spec fn origin_of(wq: bool, wk: bool, bq: bool, bk: bool, turn: bool, board: BitBoard)
    -> Origin {
    Origin { rights: Rights { wq, wk, bq, bk }, turn, board }
}

impl Origin {
    /// The emission of `step` from this origin.
    pub open spec fn emit(self, step: Step) -> Emission {
        Emission { origin: self, step }
    }
}

/// A visitor of legal moves. The generator calls one method for each legal move it finds;
/// the four constants are the castling rights of the position the move is made from.
///
/// `emitted` is the record of the calls received so far, and `inv` is whatever the visitor
/// needs to hold between calls.
pub trait OnMove {
    /// The calls received so far, oldest first. A visitor that keeps a record says here
    /// where; one that keeps none meets no contract of this trait.
    open spec fn emitted(&self) -> Seq<Emission> {
        Seq::empty()
    }

    /// The visitor's own invariant.
    open spec fn inv(&self) -> bool {
        true
    }

    /// A move or capture that neither creates nor uses an en-passant square.
    fn on_move<const WQ: bool, const WK: bool, const BQ: bool, const BK: bool>(
        &mut self,
        turn: bool,
        me: &BitBoard,
        from: u8,
        to: u8,
    )
        requires
            old(self).inv(),
            from < 64,
            to < 64,
        ensures
            final(self).inv(),
            final(self).emitted() == old(self).emitted().push(
                origin_of(WQ, WK, BQ, BK, turn, *me).emit(Step::Move { from, to }),
            ),
    ;

    /// A move or capture by the king.
    fn on_king_move<const WQ: bool, const WK: bool, const BQ: bool, const BK: bool>(
        &mut self,
        turn: bool,
        me: &BitBoard,
        from: u8,
        to: u8,
    )
        requires
            old(self).inv(),
            from < 64,
            to < 64,
        ensures
            final(self).inv(),
            final(self).emitted() == old(self).emitted().push(
                origin_of(WQ, WK, BQ, BK, turn, *me).emit(Step::KingMove { from, to }),
            ),
    ;

    /// An en-passant capture.
    fn on_ep_move<const WQ: bool, const WK: bool, const BQ: bool, const BK: bool>(
        &mut self,
        turn: bool,
        me: &BitBoard,
        from: u8,
        to: u8,
    )
        requires
            old(self).inv(),
            (Step::EnPassant { from, to }).in_range(turn),
        ensures
            final(self).inv(),
            final(self).emitted() == old(self).emitted().push(
                origin_of(WQ, WK, BQ, BK, turn, *me).emit(Step::EnPassant { from, to }),
            ),
    ;

    /// A pawn's double step.
    fn on_pawn_push2<const WQ: bool, const WK: bool, const BQ: bool, const BK: bool>(
        &mut self,
        turn: bool,
        me: &BitBoard,
        from: u8,
    )
        requires
            old(self).inv(),
            (Step::PawnPush2 { from }).in_range(turn),
        ensures
            final(self).inv(),
            final(self).emitted() == old(self).emitted().push(
                origin_of(WQ, WK, BQ, BK, turn, *me).emit(Step::PawnPush2 { from }),
            ),
    ;

    /// A promotion to the piece with tag `piece`.
    fn on_promotion<const WQ: bool, const WK: bool, const BQ: bool, const BK: bool>(
        &mut self,
        turn: bool,
        me: &BitBoard,
        from: u8,
        to: u8,
        piece: u8,
    )
        requires
            old(self).inv(),
            from < 64,
            to < 64,
            piece < 16,
        ensures
            final(self).inv(),
            final(self).emitted() == old(self).emitted().push(
                origin_of(WQ, WK, BQ, BK, turn, *me).emit(Step::Promotion { from, to, piece }),
            ),
    ;

    /// Castling on the queen's side.
    fn on_qs_castle<const WQ: bool, const WK: bool, const BQ: bool, const BK: bool>(
        &mut self,
        turn: bool,
        me: &BitBoard,
    )
        requires
            old(self).inv(),
        ensures
            final(self).inv(),
            final(self).emitted() == old(self).emitted().push(
                origin_of(WQ, WK, BQ, BK, turn, *me).emit(Step::QsCastle),
            ),
    ;

    /// Castling on the king's side.
    fn on_ks_castle<const WQ: bool, const WK: bool, const BQ: bool, const BK: bool>(
        &mut self,
        turn: bool,
        me: &BitBoard,
    )
        requires
            old(self).inv(),
        ensures
            final(self).inv(),
            final(self).emitted() == old(self).emitted().push(
                origin_of(WQ, WK, BQ, BK, turn, *me).emit(Step::KsCastle),
            ),
    ;
}

} // verus!
