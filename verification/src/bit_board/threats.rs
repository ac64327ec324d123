//! Threat analysis for the side to move: the check mask and the pin masks of its king.

use crate::bit_board::planes::BitBoard;
use crate::bits::{slide, LEFT2_SIDE, LEFT_SIDE, RIGHT2_SIDE, RIGHT_SIDE};
use vstd::prelude::*;

verus! {

/// `keep` where `test` has a member, the full board where it has none.
pub open spec fn restrict(test: u64, keep: u64) -> u64 {
    if test != 0 {
        keep
    } else {
        u64::MAX
    }
}

/// The ray from `king` in one direction, first blocker included, where it ends on one of
/// `attackers`; the full board where it does not.
pub open spec fn check_ray(
    king: u64,
    step: u8,
    blockers: u64,
    edge: u64,
    up: bool,
    attackers: u64,
) -> u64 {
    let ray = slide(king, step, blockers, edge, up);
    restrict(ray & attackers, ray)
}

/// The ray from `king` in one direction through exactly one blocker to the next, where that
/// next one is one of `attackers`; the empty set where it is not.
pub open spec fn pin_ray(
    king: u64,
    step: u8,
    blockers: u64,
    edge: u64,
    up: bool,
    attackers: u64,
) -> u64 {
    let r1 = slide(king, step, blockers, edge, up);
    let r2 = slide(r1 & blockers, step, blockers, edge, up);
    if r2 & attackers != 0 {
        r1 | r2
    } else {
        0
    }
}

/// As `pin_ray`, but through exactly two blockers.
pub open spec fn pin_ray2(
    king: u64,
    step: u8,
    blockers: u64,
    edge: u64,
    up: bool,
    attackers: u64,
) -> u64 {
    let r1 = slide(king, step, blockers, edge, up);
    let r2 = slide(r1 & blockers, step, blockers, edge, up);
    let r3 = slide(r2 & blockers, step, blockers, edge, up);
    if r3 & attackers != 0 {
        r1 | r2 | r3
    } else {
        0
    }
}

fn restrict_to(test: u64, keep: u64) -> (r: u64)
    ensures
        r == restrict(test, keep),
{
    if test != 0 {
        keep
    } else {
        u64::MAX
    }
}

fn trace_check<const UP: bool>(king: u64, step: u8, blockers: u64, edge: u64, attackers: u64) -> (r:
    u64)
    requires
        step < 64,
    ensures
        r == check_ray(king, step, blockers, edge, UP, attackers),
{
    let ray = BitBoard::sliding_mask::<UP>(king, step, blockers, edge);
    restrict_to(ray & attackers, ray)
}

fn trace_pin<const UP: bool>(king: u64, step: u8, blockers: u64, edge: u64, attackers: u64) -> (r:
    u64)
    requires
        step < 64,
    ensures
        r == pin_ray(king, step, blockers, edge, UP, attackers),
{
    let r1 = BitBoard::sliding_mask::<UP>(king, step, blockers, edge);
    let r2 = BitBoard::sliding_mask::<UP>(r1 & blockers, step, blockers, edge);
    if r2 & attackers != 0 {
        r1 | r2
    } else {
        0
    }
}

fn trace_pin2<const UP: bool>(king: u64, step: u8, blockers: u64, edge: u64, attackers: u64) -> (r:
    u64)
    requires
        step < 64,
    ensures
        r == pin_ray2(king, step, blockers, edge, UP, attackers),
{
    let r1 = BitBoard::sliding_mask::<UP>(king, step, blockers, edge);
    let r2 = BitBoard::sliding_mask::<UP>(r1 & blockers, step, blockers, edge);
    let r3 = BitBoard::sliding_mask::<UP>(r2 & blockers, step, blockers, edge);
    if r3 & attackers != 0 {
        r1 | r2 | r3
    } else {
        0
    }
}

impl BitBoard {
    /// Where a mover must land to answer a check along the king's rank.
    pub open spec fn spec_hor_check_mask(&self, turn: bool) -> u64 {
        let kings = self.spec_col_king_mask(turn);
        let pieces = self.spec_piece_mask();
        let other = self.spec_col_ortho_mask(!turn);
        check_ray(kings, 1, pieces, LEFT_SIDE, false, other) & check_ray(
            kings,
            1,
            pieces,
            RIGHT_SIDE,
            true,
            other,
        )
    }

    /// Where a mover must land to answer a check along the king's file.
    pub open spec fn spec_vert_check_mask(&self, turn: bool) -> u64 {
        let kings = self.spec_col_king_mask(turn);
        let pieces = self.spec_piece_mask();
        let other = self.spec_col_ortho_mask(!turn);
        check_ray(kings, 8, pieces, 0, true, other) & check_ray(kings, 8, pieces, 0, false, other)
    }

    /// Where a mover must land to answer a check along the king's a1-h8 diagonal.
    pub open spec fn spec_lr_check_mask(&self, turn: bool) -> u64 {
        let kings = self.spec_col_king_mask(turn);
        let pieces = self.spec_piece_mask();
        let other = self.spec_col_diagonal_mask(!turn);
        check_ray(kings, 7, pieces, LEFT_SIDE, true, other) & check_ray(
            kings,
            7,
            pieces,
            RIGHT_SIDE,
            false,
            other,
        )
    }

    /// Where a mover must land to answer a check along the king's a8-h1 diagonal.
    pub open spec fn spec_rl_check_mask(&self, turn: bool) -> u64 {
        let kings = self.spec_col_king_mask(turn);
        let pieces = self.spec_piece_mask();
        let other = self.spec_col_diagonal_mask(!turn);
        check_ray(kings, 9, pieces, LEFT_SIDE, false, other) & check_ray(
            kings,
            9,
            pieces,
            RIGHT_SIDE,
            true,
            other,
        )
    }

    /// Where a mover must land to answer the knight checks: on the checking knight.
    pub open spec fn spec_knight_check_mask(&self, turn: bool) -> u64 {
        let kings = self.spec_col_king_mask(turn);
        let other = self.spec_col_knight_mask(!turn);
        let r2 = kings & !RIGHT2_SIDE;
        let r1 = kings & !RIGHT_SIDE;
        let l1 = kings & !LEFT_SIDE;
        let l2 = kings & !LEFT2_SIDE;
        restrict((r2 >> 10u8) & other, r2 >> 10u8) & restrict((r2 << 6u8) & other, r2 << 6u8)
            & restrict((r1 >> 17u8) & other, r1 >> 17u8) & restrict(
            (r1 << 15u8) & other,
            r1 << 15u8,
        ) & restrict((l1 >> 15u8) & other, l1 >> 15u8) & restrict(
            (l1 << 17u8) & other,
            l1 << 17u8,
        ) & restrict((l2 >> 6u8) & other, l2 >> 6u8) & restrict((l2 << 10u8) & other, l2 << 10u8)
    }

    /// Where a mover must land to answer the pawn checks: on the checking pawn.
    pub open spec fn spec_pawn_check_mask(&self, turn: bool) -> u64 {
        let kings = self.spec_col_king_mask(turn);
        let other = self.spec_col_pawn_mask(!turn);
        if turn {
            restrict((kings << 9u8) & !RIGHT_SIDE & other, kings << 9u8) & restrict(
                (kings << 7u8) & !LEFT_SIDE & other,
                kings << 7u8,
            )
        } else {
            restrict((kings >> 7u8) & !RIGHT_SIDE & other, kings >> 7u8) & restrict(
                (kings >> 9u8) & !LEFT_SIDE & other,
                kings >> 9u8,
            )
        }
    }

    /// The check mask: the squares on which a piece other than the king may land so that
    /// every check on the king of side `turn` is answered. The full board when there is no
    /// check; the checking piece and the squares between when there is one; what two checks
    /// leave in common when there are two.
    pub open spec fn spec_check_mask(&self, turn: bool) -> u64 {
        self.spec_hor_check_mask(turn) & self.spec_vert_check_mask(turn) & self.spec_lr_check_mask(
            turn,
        ) & self.spec_rl_check_mask(turn) & self.spec_knight_check_mask(turn)
            & self.spec_pawn_check_mask(turn)
    }

    /// The pinned rays along the king's file.
    pub open spec fn spec_vert_pin_mask(&self, turn: bool) -> u64 {
        let kings = self.spec_col_king_mask(turn);
        let pieces = self.spec_piece_mask();
        let other = self.spec_col_ortho_mask(!turn);
        pin_ray(kings, 8, pieces, 0, true, other) | pin_ray(kings, 8, pieces, 0, false, other)
    }

    /// The pinned rays along the king's rank.
    pub open spec fn spec_hor_pin_mask(&self, turn: bool) -> u64 {
        let kings = self.spec_col_king_mask(turn);
        let pieces = self.spec_piece_mask();
        let other = self.spec_col_ortho_mask(!turn);
        pin_ray(kings, 1, pieces, LEFT_SIDE, false, other) | pin_ray(
            kings,
            1,
            pieces,
            RIGHT_SIDE,
            true,
            other,
        )
    }

    /// The rays along the king's rank that reach an enemy rook or queen through two pieces.
    pub open spec fn spec_hor_pin_mask2(&self, turn: bool) -> u64 {
        let kings = self.spec_col_king_mask(turn);
        let pieces = self.spec_piece_mask();
        let other = self.spec_col_ortho_mask(!turn);
        pin_ray2(kings, 1, pieces, LEFT_SIDE, false, other) | pin_ray2(
            kings,
            1,
            pieces,
            RIGHT_SIDE,
            true,
            other,
        )
    }

    /// The pinned rays along the king's rank and file.
    pub open spec fn spec_ortho_pin_mask(&self, turn: bool) -> u64 {
        self.spec_hor_pin_mask(turn) | self.spec_vert_pin_mask(turn)
    }

    /// The pinned rays along the king's a1-h8 diagonal.
    pub open spec fn spec_lr_pin_mask(&self, turn: bool) -> u64 {
        let kings = self.spec_col_king_mask(turn);
        let pieces = self.spec_piece_mask();
        let other = self.spec_col_diagonal_mask(!turn);
        pin_ray(kings, 7, pieces, LEFT_SIDE, true, other) | pin_ray(
            kings,
            7,
            pieces,
            RIGHT_SIDE,
            false,
            other,
        )
    }

    /// The pinned rays along the king's a8-h1 diagonal.
    pub open spec fn spec_rl_pin_mask(&self, turn: bool) -> u64 {
        let kings = self.spec_col_king_mask(turn);
        let pieces = self.spec_piece_mask();
        let other = self.spec_col_diagonal_mask(!turn);
        pin_ray(kings, 9, pieces, LEFT_SIDE, false, other) | pin_ray(
            kings,
            9,
            pieces,
            RIGHT_SIDE,
            true,
            other,
        )
    }

    /// The pinned rays along both of the king's diagonals.
    pub open spec fn spec_diagonal_pin_mask(&self, turn: bool) -> u64 {
        self.spec_lr_pin_mask(turn) | self.spec_rl_pin_mask(turn)
    }

    /// The check mask of the rank of the king of side `turn`.
    pub fn hor_check_mask(&self, turn: bool) -> (r: u64)
        ensures
            r == self.spec_hor_check_mask(turn),
    {
        let kings = self.col_king_mask(turn);
        let pieces = self.piece_mask();
        let other_ortho = self.col_ortho_mask(!turn);
        trace_check::<false>(kings, 1, pieces, LEFT_SIDE, other_ortho) & trace_check::<true>(
            kings,
            1,
            pieces,
            RIGHT_SIDE,
            other_ortho,
        )
    }

    /// The check mask of the file of the king of side `turn`.
    pub fn vert_check_mask(&self, turn: bool) -> (r: u64)
        ensures
            r == self.spec_vert_check_mask(turn),
    {
        let kings = self.col_king_mask(turn);
        let pieces = self.piece_mask();
        let other_ortho = self.col_ortho_mask(!turn);
        trace_check::<true>(kings, 8, pieces, 0, other_ortho) & trace_check::<false>(
            kings,
            8,
            pieces,
            0,
            other_ortho,
        )
    }

    /// The check mask of the a1-h8 diagonal of the king of side `turn`.
    pub fn lr_check_mask(&self, turn: bool) -> (r: u64)
        ensures
            r == self.spec_lr_check_mask(turn),
    {
        let kings = self.col_king_mask(turn);
        let pieces = self.piece_mask();
        let other_diag = self.col_diagonal_mask(!turn);
        trace_check::<true>(kings, 7, pieces, LEFT_SIDE, other_diag) & trace_check::<false>(
            kings,
            7,
            pieces,
            RIGHT_SIDE,
            other_diag,
        )
    }

    /// The check mask of the a8-h1 diagonal of the king of side `turn`.
    pub fn rl_check_mask(&self, turn: bool) -> (r: u64)
        ensures
            r == self.spec_rl_check_mask(turn),
    {
        let kings = self.col_king_mask(turn);
        let pieces = self.piece_mask();
        let other_diag = self.col_diagonal_mask(!turn);
        trace_check::<false>(kings, 9, pieces, LEFT_SIDE, other_diag) & trace_check::<true>(
            kings,
            9,
            pieces,
            RIGHT_SIDE,
            other_diag,
        )
    }

    fn knight_check_mask(&self, turn: bool) -> (r: u64)
        ensures
            r == self.spec_knight_check_mask(turn),
    {
        let kings = self.col_king_mask(turn);
        let other_knights = self.col_knight_mask(!turn);
        let knights_r2 = kings & !RIGHT2_SIDE;
        let knights_r1 = kings & !RIGHT_SIDE;
        let knights_l1 = kings & !LEFT_SIDE;
        let knights_l2 = kings & !LEFT2_SIDE;
        restrict_to((knights_r2 >> 10u8) & other_knights, knights_r2 >> 10u8) & restrict_to(
            (knights_r2 << 6u8) & other_knights,
            knights_r2 << 6u8,
        ) & restrict_to((knights_r1 >> 17u8) & other_knights, knights_r1 >> 17u8) & restrict_to(
            (knights_r1 << 15u8) & other_knights,
            knights_r1 << 15u8,
        ) & restrict_to((knights_l1 >> 15u8) & other_knights, knights_l1 >> 15u8) & restrict_to(
            (knights_l1 << 17u8) & other_knights,
            knights_l1 << 17u8,
        ) & restrict_to((knights_l2 >> 6u8) & other_knights, knights_l2 >> 6u8) & restrict_to(
            (knights_l2 << 10u8) & other_knights,
            knights_l2 << 10u8,
        )
    }

    fn pawn_check_mask(&self, turn: bool) -> (r: u64)
        ensures
            r == self.spec_pawn_check_mask(turn),
    {
        let kings = self.col_king_mask(turn);
        let other_pawns = self.col_pawn_mask(!turn);
        if turn {
            restrict_to((kings << 9u8) & !RIGHT_SIDE & other_pawns, kings << 9u8) & restrict_to(
                (kings << 7u8) & !LEFT_SIDE & other_pawns,
                kings << 7u8,
            )
        } else {
            restrict_to((kings >> 7u8) & !RIGHT_SIDE & other_pawns, kings >> 7u8) & restrict_to(
                (kings >> 9u8) & !LEFT_SIDE & other_pawns,
                kings >> 9u8,
            )
        }
    }

    /// The check mask of side `turn`.
    pub fn check_mask(&self, turn: bool) -> (r: u64)
        ensures
            r == self.spec_check_mask(turn),
    {
        self.hor_check_mask(turn) & self.vert_check_mask(turn) & self.lr_check_mask(turn)
            & self.rl_check_mask(turn) & self.knight_check_mask(turn) & self.pawn_check_mask(turn)
    }

    /// The pin mask of the file of the king of side `turn`.
    pub fn vert_pin_mask(&self, turn: bool) -> (r: u64)
        ensures
            r == self.spec_vert_pin_mask(turn),
    {
        let kings = self.col_king_mask(turn);
        let pieces = self.piece_mask();
        let other_ortho = self.col_ortho_mask(!turn);
        trace_pin::<true>(kings, 8, pieces, 0, other_ortho) | trace_pin::<false>(
            kings,
            8,
            pieces,
            0,
            other_ortho,
        )
    }

    /// The pin mask of the rank of the king of side `turn`.
    pub fn hor_pin_mask(&self, turn: bool) -> (r: u64)
        ensures
            r == self.spec_hor_pin_mask(turn),
    {
        let kings = self.col_king_mask(turn);
        let pieces = self.piece_mask();
        let other_ortho = self.col_ortho_mask(!turn);
        trace_pin::<false>(kings, 1, pieces, LEFT_SIDE, other_ortho) | trace_pin::<true>(
            kings,
            1,
            pieces,
            RIGHT_SIDE,
            other_ortho,
        )
    }

    /// The horizontal pin that goes through two pieces.
    pub fn hor_pin_mask2(&self, turn: bool) -> (r: u64)
        ensures
            r == self.spec_hor_pin_mask2(turn),
    {
        let kings = self.col_king_mask(turn);
        let blockers = self.piece_mask();
        let other_ortho = self.col_ortho_mask(!turn);
        trace_pin2::<false>(kings, 1, blockers, LEFT_SIDE, other_ortho) | trace_pin2::<true>(
            kings,
            1,
            blockers,
            RIGHT_SIDE,
            other_ortho,
        )
    }

    /// The pin mask of the rank and file of the king of side `turn`.
    pub fn ortho_pin_mask(&self, turn: bool) -> (r: u64)
        ensures
            r == self.spec_ortho_pin_mask(turn),
    {
        self.hor_pin_mask(turn) | self.vert_pin_mask(turn)
    }

    /// The pin mask of the a1-h8 diagonal of the king of side `turn`.
    pub fn lr_pin_mask(&self, turn: bool) -> (r: u64)
        ensures
            r == self.spec_lr_pin_mask(turn),
    {
        let kings = self.col_king_mask(turn);
        let pieces = self.piece_mask();
        let other_diag = self.col_diagonal_mask(!turn);
        trace_pin::<true>(kings, 7, pieces, LEFT_SIDE, other_diag) | trace_pin::<false>(
            kings,
            7,
            pieces,
            RIGHT_SIDE,
            other_diag,
        )
    }

    /// The pin mask of the a8-h1 diagonal of the king of side `turn`.
    pub fn rl_pin_mask(&self, turn: bool) -> (r: u64)
        ensures
            r == self.spec_rl_pin_mask(turn),
    {
        let kings = self.col_king_mask(turn);
        let pieces = self.piece_mask();
        let other_diag = self.col_diagonal_mask(!turn);
        trace_pin::<false>(kings, 9, pieces, LEFT_SIDE, other_diag) | trace_pin::<true>(
            kings,
            9,
            pieces,
            RIGHT_SIDE,
            other_diag,
        )
    }

    /// The pin mask of both diagonals of the king of side `turn`.
    pub fn diagonal_pin_mask(&self, turn: bool) -> (r: u64)
        ensures
            r == self.spec_diagonal_pin_mask(turn),
    {
        self.lr_pin_mask(turn) | self.rl_pin_mask(turn)
    }
}

} // verus!
