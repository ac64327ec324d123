//! Derived bit-sets of a board: who stands where, and which squares each piece class attacks.

use crate::bit_board::planes::{kind, piece_of, white, BitBoard, BISHOP, KING, KNIGHT, PAWN, QUEEN, ROOK};
use crate::bits::{
    bit, fill, group_bit, king_step, knight_jump, lemma_king_step_offsets, lemma_slide_reach,
    reached_within,
    lemma_knight_jump_offsets, lemma_pawn_hit_offsets, pawn_hit, slide, LEFT2_SIDE, LEFT_SIDE,
    RIGHT2_SIDE, RIGHT_SIDE,
};
use crate::rays::{aligned, lemma_slide_sees_from, sees, sees_diagonally, sees_straight};
use vstd::prelude::*;

verus! {

broadcast use group_bit;

/// The squares that pawns of side `turn` standing on `pieces` attack.
pub open spec fn pawn_fan(turn: bool, pieces: u64) -> u64 {
    if turn {
        ((pieces << 9u8) & !RIGHT_SIDE) | ((pieces << 7u8) & !LEFT_SIDE)
    } else {
        ((pieces >> 7u8) & !RIGHT_SIDE) | ((pieces >> 9u8) & !LEFT_SIDE)
    }
}

/// The squares that knights standing on `pieces` attack.
pub open spec fn knight_fan(pieces: u64) -> u64 {
    let inner = ((pieces & !RIGHT_SIDE) >> 1u8) | ((pieces & !LEFT_SIDE) << 1u8);
    let outer = ((pieces & !RIGHT2_SIDE) >> 2u8) | ((pieces & !LEFT2_SIDE) << 2u8);
    (outer << 8u8) | (outer >> 8u8) | (inner << 16u8) | (inner >> 16u8)
}

/// The squares next to those of `kings`.
pub open spec fn king_fan(kings: u64) -> u64 {
    let u = kings << 8u8;
    let d = kings >> 8u8;
    let mast = kings | u | d;
    ((mast >> 1u8) & !LEFT_SIDE) | ((mast << 1u8) & !RIGHT_SIDE) | u | d
}

/// The squares that diagonal sliders on `pieces` attack, with `blockers` in the way.
pub open spec fn diagonal_rays(pieces: u64, blockers: u64) -> u64 {
    slide(pieces, 7, blockers, LEFT_SIDE, true) | slide(pieces, 9, blockers, RIGHT_SIDE, true)
        | slide(pieces, 9, blockers, LEFT_SIDE, false) | slide(
        pieces,
        7,
        blockers,
        RIGHT_SIDE,
        false,
    )
}

/// The squares that orthogonal sliders on `pieces` attack, with `blockers` in the way.
pub open spec fn ortho_rays(pieces: u64, blockers: u64) -> u64 {
    slide(pieces, 1, blockers, RIGHT_SIDE, true) | slide(pieces, 1, blockers, LEFT_SIDE, false)
        | slide(pieces, 8, blockers, 0, true) | slide(pieces, 8, blockers, 0, false)
}

/// The pawn fan, square by square: a square is attacked exactly when a pawn stands on one of
/// the two squares from which it would be hit.
pub proof fn lemma_pawn_fan(turn: bool, pieces: u64)
    ensures
        forall|to: int|
            #[trigger] bit(pawn_fan(turn, pieces), to) == (exists|from: int|
                bit(pieces, from) && pawn_hit(turn, from, to)),
{
    let r = pawn_fan(turn, pieces);
    assert forall|to: int| #[trigger] bit(r, to) == (exists|from: int|
        bit(pieces, from) && pawn_hit(turn, from, to)) by {
        let a = if turn { to - 9 } else { to + 7 };
        let b = if turn { to - 7 } else { to + 9 };
        lemma_pawn_hit_offsets(turn, a, to);
        lemma_pawn_hit_offsets(turn, b, to);
        if exists|from: int| bit(pieces, from) && pawn_hit(turn, from, to) {
            let from = choose|from: int| bit(pieces, from) && pawn_hit(turn, from, to);
            lemma_pawn_hit_offsets(turn, from, to);
            assert(from == a || from == b);
        }
        if bit(r, to) {
            assert((bit(pieces, a) && pawn_hit(turn, a, to)) || (bit(pieces, b) && pawn_hit(
                turn,
                b,
                to,
            )));
        }
    }
}

/// The knight fan, square by square: a square is attacked exactly when a knight stands a
/// knight's jump away.
pub proof fn lemma_knight_fan(pieces: u64)
    ensures
        forall|to: int|
            #[trigger] bit(knight_fan(pieces), to) == (exists|from: int|
                bit(pieces, from) && knight_jump(from, to)),
{
    let r = knight_fan(pieces);
    assert forall|to: int| #[trigger] bit(r, to) == (exists|from: int|
        bit(pieces, from) && knight_jump(from, to)) by {
        lemma_knight_jump_offsets(to - 6, to);
        lemma_knight_jump_offsets(to - 10, to);
        lemma_knight_jump_offsets(to + 6, to);
        lemma_knight_jump_offsets(to + 10, to);
        lemma_knight_jump_offsets(to - 15, to);
        lemma_knight_jump_offsets(to - 17, to);
        lemma_knight_jump_offsets(to + 15, to);
        lemma_knight_jump_offsets(to + 17, to);
        let hit = |from: int| bit(pieces, from) && knight_jump(from, to);
        if exists|from: int| bit(pieces, from) && knight_jump(from, to) {
            let from = choose|from: int| bit(pieces, from) && knight_jump(from, to);
            lemma_knight_jump_offsets(from, to);
        }
        if bit(r, to) {
            assert(hit(to - 6) || hit(to - 10) || hit(to + 6) || hit(to + 10) || hit(to - 15)
                || hit(to - 17) || hit(to + 15) || hit(to + 17));
        }
    }
}

/// The king fan, square by square: a square is attacked exactly when a king stands next to it.
pub proof fn lemma_king_fan(kings: u64)
    ensures
        forall|to: int|
            #[trigger] bit(king_fan(kings), to) == (exists|from: int|
                bit(kings, from) && king_step(from, to)),
{
    let r = king_fan(kings);
    assert forall|to: int| #[trigger] bit(r, to) == (exists|from: int|
        bit(kings, from) && king_step(from, to)) by {
        lemma_king_step_offsets(to - 8, to);
        lemma_king_step_offsets(to + 8, to);
        lemma_king_step_offsets(to - 1, to);
        lemma_king_step_offsets(to + 1, to);
        lemma_king_step_offsets(to - 7, to);
        lemma_king_step_offsets(to + 7, to);
        lemma_king_step_offsets(to - 9, to);
        lemma_king_step_offsets(to + 9, to);
        let hit = |from: int| bit(kings, from) && king_step(from, to);
        if exists|from: int| bit(kings, from) && king_step(from, to) {
            let from = choose|from: int| bit(kings, from) && king_step(from, to);
            lemma_king_step_offsets(from, to);
        }
        if bit(r, to) {
            assert(hit(to - 8) || hit(to + 8) || hit(to - 1) || hit(to + 1) || hit(to - 7) || hit(
                to + 7,
            ) || hit(to - 9) || hit(to + 9));
        }
    }
}

/// What diagonal sliders on `pieces` attack: the squares that one of them sees diagonally.
pub proof fn lemma_diagonal_rays(pieces: u64, blockers: u64)
    ensures
        forall|t: int|
            #[trigger] bit(diagonal_rays(pieces, blockers), t) == (exists|s: int|
                bit(pieces, s) && sees_diagonally(s, t, blockers)),
{
    lemma_slide_sees_from(pieces, 7, blockers, LEFT_SIDE, true, -1, 1);
    lemma_slide_sees_from(pieces, 9, blockers, RIGHT_SIDE, true, 1, 1);
    lemma_slide_sees_from(pieces, 9, blockers, LEFT_SIDE, false, -1, -1);
    lemma_slide_sees_from(pieces, 7, blockers, RIGHT_SIDE, false, 1, -1);
    assert forall|t: int| #[trigger] bit(diagonal_rays(pieces, blockers), t) == (exists|s: int|
        bit(pieces, s) && sees_diagonally(s, t, blockers)) by {
        let a = slide(pieces, 7, blockers, LEFT_SIDE, true);
        let b = slide(pieces, 9, blockers, RIGHT_SIDE, true);
        let c = slide(pieces, 9, blockers, LEFT_SIDE, false);
        let d = slide(pieces, 7, blockers, RIGHT_SIDE, false);
        assert(bit(diagonal_rays(pieces, blockers), t) == (bit(a, t) || bit(b, t) || bit(c, t)
            || bit(d, t)));
        if bit(a, t) {
            let s = choose|s: int| bit(pieces, s) && sees(s, t, -1, 1, blockers);
            assert(bit(pieces, s) && sees_diagonally(s, t, blockers));
        }
        if bit(b, t) {
            let s = choose|s: int| bit(pieces, s) && sees(s, t, 1, 1, blockers);
            assert(bit(pieces, s) && sees_diagonally(s, t, blockers));
        }
        if bit(c, t) {
            let s = choose|s: int| bit(pieces, s) && sees(s, t, -1, -1, blockers);
            assert(bit(pieces, s) && sees_diagonally(s, t, blockers));
        }
        if bit(d, t) {
            let s = choose|s: int| bit(pieces, s) && sees(s, t, 1, -1, blockers);
            assert(bit(pieces, s) && sees_diagonally(s, t, blockers));
        }
        if exists|s: int| bit(pieces, s) && sees_diagonally(s, t, blockers) {
            let s = choose|s: int| bit(pieces, s) && sees_diagonally(s, t, blockers);
            assert(bit(a, t) || bit(b, t) || bit(c, t) || bit(d, t));
        }
    }
}

/// What orthogonal sliders on `pieces` attack: the squares that one of them sees along its
/// rank or file.
pub proof fn lemma_ortho_rays(pieces: u64, blockers: u64)
    ensures
        forall|t: int|
            #[trigger] bit(ortho_rays(pieces, blockers), t) == (exists|s: int|
                bit(pieces, s) && sees_straight(s, t, blockers)),
{
    lemma_slide_sees_from(pieces, 1, blockers, RIGHT_SIDE, true, 1, 0);
    lemma_slide_sees_from(pieces, 1, blockers, LEFT_SIDE, false, -1, 0);
    lemma_slide_sees_from(pieces, 8, blockers, 0, true, 0, 1);
    lemma_slide_sees_from(pieces, 8, blockers, 0, false, 0, -1);
    assert forall|t: int| #[trigger] bit(ortho_rays(pieces, blockers), t) == (exists|s: int|
        bit(pieces, s) && sees_straight(s, t, blockers)) by {
        let a = slide(pieces, 1, blockers, RIGHT_SIDE, true);
        let b = slide(pieces, 1, blockers, LEFT_SIDE, false);
        let c = slide(pieces, 8, blockers, 0, true);
        let d = slide(pieces, 8, blockers, 0, false);
        assert(bit(ortho_rays(pieces, blockers), t) == (bit(a, t) || bit(b, t) || bit(c, t) || bit(
            d,
            t,
        )));
        if bit(a, t) {
            let s = choose|s: int| bit(pieces, s) && sees(s, t, 1, 0, blockers);
            assert(bit(pieces, s) && sees_straight(s, t, blockers));
        }
        if bit(b, t) {
            let s = choose|s: int| bit(pieces, s) && sees(s, t, -1, 0, blockers);
            assert(bit(pieces, s) && sees_straight(s, t, blockers));
        }
        if bit(c, t) {
            let s = choose|s: int| bit(pieces, s) && sees(s, t, 0, 1, blockers);
            assert(bit(pieces, s) && sees_straight(s, t, blockers));
        }
        if bit(d, t) {
            let s = choose|s: int| bit(pieces, s) && sees(s, t, 0, -1, blockers);
            assert(bit(pieces, s) && sees_straight(s, t, blockers));
        }
        if exists|s: int| bit(pieces, s) && sees_straight(s, t, blockers) {
            let s = choose|s: int| bit(pieces, s) && sees_straight(s, t, blockers);
            assert(bit(a, t) || bit(b, t) || bit(c, t) || bit(d, t));
        }
    }
}

/// What an orthogonal slider on `f` attacks lies on the rank or on the file of `f`, and is
/// not `f` itself.
pub proof fn lemma_ortho_rays_line(f: u8, blockers: u64)
    requires
        f < 64,
    ensures
        forall|t: int|
            #[trigger] bit(ortho_rays(1u64 << f, blockers), t) ==> 0 <= t < 64 && t != f && (t / 8
                == f / 8 || t % 8 == f % 8),
{
    lemma_ortho_rays(1u64 << f, blockers);
    assert forall|t: int| #[trigger] bit(ortho_rays(1u64 << f, blockers), t) implies 0 <= t < 64
        && t != f && (t / 8 == f / 8 || t % 8 == f % 8) by {
        let s = choose|s: int| bit(1u64 << f, s) && sees_straight(s, t, blockers);
        reveal(aligned);
    }
}

/// What a diagonal slider on `f` attacks lies neither on the rank nor on the file of `f`.
pub proof fn lemma_diagonal_rays_line(f: u8, blockers: u64)
    requires
        f < 64,
    ensures
        forall|t: int|
            #[trigger] bit(diagonal_rays(1u64 << f, blockers), t) ==> 0 <= t < 64 && t / 8 != f / 8
                && t % 8 != f % 8,
{
    lemma_diagonal_rays(1u64 << f, blockers);
    assert forall|t: int| #[trigger] bit(diagonal_rays(1u64 << f, blockers), t) implies 0 <= t < 64
        && t / 8 != f / 8 && t % 8 != f % 8 by {
        let s = choose|s: int| bit(1u64 << f, s) && sees_diagonally(s, t, blockers);
        reveal(aligned);
    }
}

/// A piece of side `side` on square `a` attacks square `t`: by a pawn's capture, a knight's
/// jump, a king's step, or along a line of sight of a bishop, rook or queen.
pub open spec fn attacks(b: BitBoard, side: bool, a: int, t: int) -> bool {
    let k = kind(b.tag(a));
    let occupied = b.spec_piece_mask();
    &&& 0 <= a < 64
    &&& piece_of(b.tag(a), side)
    &&& (k == PAWN && pawn_hit(side, a, t)) || (k == KNIGHT && knight_jump(a, t)) || (k == KING
        && king_step(a, t)) || ((k == BISHOP || k == QUEEN) && sees_diagonally(a, t, occupied))
        || ((k == ROOK || k == QUEEN) && sees_straight(a, t, occupied))
}

/// A piece of the side that is not `side` attacks square `t` from square `a`.
pub open spec fn threatens(b: BitBoard, side: bool, a: int, t: int) -> bool {
    attacks(b, !side, a, t)
}

impl BitBoard {
    /// The attack mask, square by square: a square is in it exactly when a piece of that side
    /// attacks it.
    pub proof fn lemma_attack_mask(&self, side: bool)
        ensures
            forall|t: int|
                #[trigger] bit(self.spec_attack_mask(side), t) == (exists|a: int|
                    attacks(*self, side, a, t)),
    {
        let occupied = self.spec_piece_mask();
        self.lemma_masks(side);
        lemma_pawn_fan(side, self.spec_col_pawn_mask(side));
        lemma_knight_fan(self.spec_col_knight_mask(side));
        lemma_king_fan(self.spec_col_king_mask(side));
        lemma_diagonal_rays(self.spec_col_diagonal_mask(side), occupied);
        lemma_ortho_rays(self.spec_col_ortho_mask(side), occupied);
        assert forall|t: int| #[trigger] bit(self.spec_attack_mask(side), t) == (exists|a: int|
            attacks(*self, side, a, t)) by {
            let p = bit(self.spec_pawn_attack_mask(side), t);
            let n = bit(self.spec_knight_attack_mask(side), t);
            let d = bit(self.spec_diagonal_attack_mask(side), t);
            let o = bit(self.spec_ortho_attack_mask(side), t);
            let k = bit(self.spec_king_attack_mask(side), t);
            assert(bit(self.spec_attack_mask(side), t) == (p || n || d || o || k));
            if p {
                let a = choose|a: int|
                    bit(self.spec_col_pawn_mask(side), a) && pawn_hit(side, a, t);
                assert(attacks(*self, side, a, t));
            }
            if n {
                let a = choose|a: int| bit(self.spec_col_knight_mask(side), a) && knight_jump(a, t);
                assert(attacks(*self, side, a, t));
            }
            if k {
                let a = choose|a: int| bit(self.spec_col_king_mask(side), a) && king_step(a, t);
                assert(attacks(*self, side, a, t));
            }
            if d {
                let a = choose|a: int|
                    bit(self.spec_col_diagonal_mask(side), a) && sees_diagonally(a, t, occupied);
                assert(attacks(*self, side, a, t));
            }
            if o {
                let a = choose|a: int|
                    bit(self.spec_col_ortho_mask(side), a) && sees_straight(a, t, occupied);
                assert(attacks(*self, side, a, t));
            }
            if exists|a: int| attacks(*self, side, a, t) {
                let a = choose|a: int| attacks(*self, side, a, t);
                let kd = kind(self.tag(a));
                if kd == PAWN && pawn_hit(side, a, t) {
                    assert(bit(self.spec_col_pawn_mask(side), a));
                } else if kd == KNIGHT && knight_jump(a, t) {
                    assert(bit(self.spec_col_knight_mask(side), a));
                } else if kd == KING && king_step(a, t) {
                    assert(bit(self.spec_col_king_mask(side), a));
                } else if (kd == BISHOP || kd == QUEEN) && sees_diagonally(a, t, occupied) {
                    assert(bit(self.spec_col_diagonal_mask(side), a));
                } else {
                    assert(bit(self.spec_col_ortho_mask(side), a));
                }
            }
        }
    }
}

impl BitBoard {
    /// The derived sets, square by square: what the tag of a square says of its membership.
    pub proof fn lemma_masks(&self, turn: bool)
        ensures
            forall|sq: int|
                0 <= sq < 64 ==> #[trigger] bit(self.spec_piece_mask(), sq) == (kind(self.tag(sq))
                    != 0),
            forall|sq: int|
                0 <= sq < 64 ==> #[trigger] bit(self.spec_col_piece_mask(turn), sq) == piece_of(
                    self.tag(sq),
                    turn,
                ),
            forall|sq: int|
                0 <= sq < 64 ==> #[trigger] bit(self.spec_enemy_or_empty(turn), sq) == !piece_of(
                    self.tag(sq),
                    turn,
                ),
            forall|sq: int|
                0 <= sq < 64 ==> #[trigger] bit(self.spec_col_pawn_mask(turn), sq) == (kind(
                    self.tag(sq),
                ) == PAWN && white(self.tag(sq)) == turn),
            forall|sq: int|
                0 <= sq < 64 ==> #[trigger] bit(self.spec_col_knight_mask(turn), sq) == (kind(
                    self.tag(sq),
                ) == KNIGHT && white(self.tag(sq)) == turn),
            forall|sq: int|
                0 <= sq < 64 ==> #[trigger] bit(self.spec_col_diagonal_mask(turn), sq) == ((kind(
                    self.tag(sq),
                ) == BISHOP || kind(self.tag(sq)) == QUEEN) && white(self.tag(sq)) == turn),
            forall|sq: int|
                0 <= sq < 64 ==> #[trigger] bit(self.spec_col_ortho_mask(turn), sq) == ((kind(
                    self.tag(sq),
                ) == ROOK || kind(self.tag(sq)) == QUEEN) && white(self.tag(sq)) == turn),
            forall|sq: int|
                0 <= sq < 64 ==> #[trigger] bit(self.spec_col_king_mask(turn), sq) == (kind(
                    self.tag(sq),
                ) == KING && white(self.tag(sq)) == turn),
    {
    }
}

impl BitBoard {
    /// The squares whose side bit says `turn`.
    pub open spec fn spec_colour_mask(&self, turn: bool) -> u64 {
        if turn {
            self.b3
        } else {
            !self.b3
        }
    }

    /// The occupied squares.
    pub open spec fn spec_piece_mask(&self) -> u64 {
        self.b0 | self.b1 | self.b2
    }

    /// The squares that hold a piece of side `turn`.
    pub open spec fn spec_col_piece_mask(&self, turn: bool) -> u64 {
        self.spec_piece_mask() & self.spec_colour_mask(turn)
    }

    /// The squares that hold no piece of side `turn`.
    pub open spec fn spec_enemy_or_empty(&self, turn: bool) -> u64 {
        !self.spec_col_piece_mask(turn)
    }

    /// The squares with a tag other than 0.
    pub open spec fn spec_piece_special_mask(&self) -> u64 {
        self.b0 | self.b1 | self.b2 | self.b3
    }

    /// The squares that hold a pawn.
    pub open spec fn spec_pawn_mask(&self) -> u64 {
        !self.b0 & !self.b1 & self.b2
    }

    /// The squares that hold a knight.
    pub open spec fn spec_knight_mask(&self) -> u64 {
        self.b0 & !self.b1 & self.b2
    }

    /// The squares that hold a bishop or a queen.
    pub open spec fn spec_diagonal_mask(&self) -> u64 {
        self.b0 & !self.b2
    }

    /// The squares that hold a rook or a queen.
    pub open spec fn spec_ortho_mask(&self) -> u64 {
        self.b1 & !self.b2
    }

    /// The squares that hold a king.
    pub open spec fn spec_king_mask(&self) -> u64 {
        self.b0 & self.b1 & self.b2
    }

    /// The squares that hold a pawn of side `turn`.
    pub open spec fn spec_col_pawn_mask(&self, turn: bool) -> u64 {
        self.spec_pawn_mask() & self.spec_colour_mask(turn)
    }

    /// The squares that hold a knight of side `turn`.
    pub open spec fn spec_col_knight_mask(&self, turn: bool) -> u64 {
        self.spec_knight_mask() & self.spec_colour_mask(turn)
    }

    /// The squares that hold a bishop or a queen of side `turn`.
    pub open spec fn spec_col_diagonal_mask(&self, turn: bool) -> u64 {
        self.spec_diagonal_mask() & self.spec_colour_mask(turn)
    }

    /// The squares that hold a rook or a queen of side `turn`.
    pub open spec fn spec_col_ortho_mask(&self, turn: bool) -> u64 {
        self.spec_ortho_mask() & self.spec_colour_mask(turn)
    }

    /// The squares that hold a king of side `turn`.
    pub open spec fn spec_col_king_mask(&self, turn: bool) -> u64 {
        self.spec_king_mask() & self.spec_colour_mask(turn)
    }

    /// The squares that the pawns of side `turn` attack.
    pub open spec fn spec_pawn_attack_mask(&self, turn: bool) -> u64 {
        pawn_fan(turn, self.spec_col_pawn_mask(turn))
    }

    /// The squares that the knights of side `turn` attack.
    pub open spec fn spec_knight_attack_mask(&self, turn: bool) -> u64 {
        knight_fan(self.spec_col_knight_mask(turn))
    }

    /// The squares that the bishops and queens of side `turn` attack.
    pub open spec fn spec_diagonal_attack_mask(&self, turn: bool) -> u64 {
        diagonal_rays(self.spec_col_diagonal_mask(turn), self.spec_piece_mask())
    }

    /// The squares that the rooks and queens of side `turn` attack.
    pub open spec fn spec_ortho_attack_mask(&self, turn: bool) -> u64 {
        ortho_rays(self.spec_col_ortho_mask(turn), self.spec_piece_mask())
    }

    /// The squares that the king of side `turn` attacks.
    pub open spec fn spec_king_attack_mask(&self, turn: bool) -> u64 {
        king_fan(self.spec_col_king_mask(turn))
    }

    /// The squares that the pieces of side `turn` attack together.
    pub open spec fn spec_attack_mask(&self, turn: bool) -> u64 {
        self.spec_pawn_attack_mask(turn) | self.spec_knight_attack_mask(turn)
            | self.spec_diagonal_attack_mask(turn) | self.spec_ortho_attack_mask(turn)
            | self.spec_king_attack_mask(turn)
    }

    /// The side bit of every square, or its complement: the squares marked as `turn`'s.
    pub fn colour_mask(&self, turn: bool) -> (r: u64)
        ensures
            r == self.spec_colour_mask(turn),
            forall|sq: int| 0 <= sq < 64 ==> #[trigger] bit(r, sq) == (white(self.tag(sq)) == turn),
    {
            if turn {
            self.b3
        } else {
            !self.b3
        }
    }

    /// The occupied squares.
    pub fn piece_mask(&self) -> (r: u64)
        ensures
            r == self.spec_piece_mask(),
            forall|sq: int| 0 <= sq < 64 ==> #[trigger] bit(r, sq) == (kind(self.tag(sq)) != 0),
    {
            self.b0 | self.b1 | self.b2
    }

    /// The squares that hold a piece of side `turn`.
    pub fn col_piece_mask(&self, turn: bool) -> (r: u64)
        ensures
            r == self.spec_col_piece_mask(turn),
            forall|sq: int| 0 <= sq < 64 ==> #[trigger] bit(r, sq) == piece_of(self.tag(sq), turn),
    {
            self.piece_mask() & self.colour_mask(turn)
    }

    /// The squares that side `turn` may move onto: empty or held by the other side.
    pub fn enemy_or_empty(&self, turn: bool) -> (r: u64)
        ensures
            r == self.spec_enemy_or_empty(turn),
            forall|sq: int| 0 <= sq < 64 ==> #[trigger] bit(r, sq) == !piece_of(self.tag(sq), turn),
    {
            !self.col_piece_mask(turn)
    }

    /// The squares whose tag is not 0, a lone side bit included.
    pub fn piece_special_mask(&self) -> (r: u64)
        ensures
            r == self.spec_piece_special_mask(),
            forall|sq: int| 0 <= sq < 64 ==> #[trigger] bit(r, sq) == (self.tag(sq) != 0),
    {
            self.b0 | self.b1 | self.b2 | self.b3
    }

    /// The sliding fill of `pieces` by `step` squares at a time, up the board when
    /// `SHIFT_LIFT` and down otherwise, stopped by `colision` and by `side_mask`.
    pub fn sliding_mask<const SHIFT_LIFT: bool>(
        pieces: u64,
        step: u8,
        colision: u64,
        side_mask: u64,
    ) -> (r: u64)
        requires
            step < 64,
        ensures
            r == slide(pieces, step, colision, side_mask, SHIFT_LIFT),
            forall|t: int|
                #[trigger] bit(r, t) == reached_within(
                    pieces,
                    step,
                    colision,
                    side_mask,
                    SHIFT_LIFT,
                    t,
                    7,
                ),
    {
        proof {
            lemma_slide_reach(pieces, step, colision, side_mask, SHIFT_LIFT);
        }
        let mut mask: u64 = if SHIFT_LIFT {
            (pieces << step) & !side_mask
        } else {
            (pieces >> step) & !side_mask
        };
        let mut i: u8 = 0;
        while i != 6
            invariant
                i <= 6,
                step < 64,
                fill(mask, step, colision, side_mask, SHIFT_LIFT, (6 - i) as nat) == slide(
                    pieces,
                    step,
                    colision,
                    side_mask,
                    SHIFT_LIFT,
                ),
            decreases 6 - i,
        {
            mask |= if SHIFT_LIFT {
                ((mask & !colision) << step) & !side_mask
            } else {
                ((mask & !colision) >> step) & !side_mask
            };
            i += 1;
        }
        mask
    }

    /// The squares that hold a pawn.
    pub fn pawn_mask(&self) -> (r: u64)
        ensures
            r == self.spec_pawn_mask(),
            forall|sq: int| 0 <= sq < 64 ==> #[trigger] bit(r, sq) == (kind(self.tag(sq)) == PAWN),
    {
            !self.b0 & !self.b1 & self.b2
    }

    /// The squares that hold a pawn of side `turn`.
    pub fn col_pawn_mask(&self, turn: bool) -> (r: u64)
        ensures
            r == self.spec_col_pawn_mask(turn),
            forall|sq: int|
                0 <= sq < 64 ==> #[trigger] bit(r, sq) == (kind(self.tag(sq)) == PAWN && white(
                    self.tag(sq),
                ) == turn),
    {
        self.pawn_mask() & self.colour_mask(turn)
    }

    /// The squares that pawns of side `turn` would attack from the squares of `pieces`.
    pub fn pawn_like_attack_mask(&self, turn: bool, pieces: u64) -> (r: u64)
        ensures
            r == pawn_fan(turn, pieces),
            forall|to: int|
                #[trigger] bit(r, to) == (exists|from: int|
                    bit(pieces, from) && pawn_hit(turn, from, to)),
    {
        proof {
            lemma_pawn_fan(turn, pieces);
        }
        if turn {
            ((pieces << 9u8) & !RIGHT_SIDE) | ((pieces << 7u8) & !LEFT_SIDE)
        } else {
            ((pieces >> 7u8) & !RIGHT_SIDE) | ((pieces >> 9u8) & !LEFT_SIDE)
        }
    }

    /// The squares that the pawns of side `turn` attack.
    pub fn pawn_attack_mask(&self, turn: bool) -> (r: u64)
        ensures
            r == self.spec_pawn_attack_mask(turn),
    {
        let pawns = self.col_pawn_mask(turn);
        self.pawn_like_attack_mask(turn, pawns)
    }

    /// The squares that hold a knight.
    pub fn knight_mask(&self) -> (r: u64)
        ensures
            r == self.spec_knight_mask(),
            forall|sq: int| 0 <= sq < 64 ==> #[trigger] bit(r, sq) == (kind(self.tag(sq)) == KNIGHT),
    {
            self.b0 & !self.b1 & self.b2
    }

    /// The squares that hold a knight of side `turn`.
    pub fn col_knight_mask(&self, turn: bool) -> (r: u64)
        ensures
            r == self.spec_col_knight_mask(turn),
            forall|sq: int|
                0 <= sq < 64 ==> #[trigger] bit(r, sq) == (kind(self.tag(sq)) == KNIGHT && white(
                    self.tag(sq),
                ) == turn),
    {
        self.knight_mask() & (self.colour_mask(turn))
    }

    /// The squares that knights would attack from the squares of `pieces`.
    pub fn knight_like_attack_mask(&self, pieces: u64) -> (r: u64)
        ensures
            r == knight_fan(pieces),
            forall|to: int|
                #[trigger] bit(r, to) == (exists|from: int|
                    bit(pieces, from) && knight_jump(from, to)),
    {
        proof {
            lemma_knight_fan(pieces);
        }
        let knights_r2 = pieces & !RIGHT2_SIDE;
        let knights_r1 = pieces & !RIGHT_SIDE;
        let knights_l1 = pieces & !LEFT_SIDE;
        let knights_l2 = pieces & !LEFT2_SIDE;
        let inner = (knights_r1 >> 1u8) | (knights_l1 << 1u8);
        let outer = (knights_r2 >> 2u8) | (knights_l2 << 2u8);
        let r = (outer << 8u8) | (outer >> 8u8) | (inner << 16u8) | (inner >> 16u8);
        assert(r == knight_fan(pieces));
        r
    }

    /// The squares that the knights of side `turn` attack.
    pub fn knight_attack_mask(&self, turn: bool) -> (r: u64)
        ensures
            r == self.spec_knight_attack_mask(turn),
    {
        let knights = self.col_knight_mask(turn);
        self.knight_like_attack_mask(knights)
    }

    /// The squares that hold a bishop or a queen.
    pub fn diagonal_mask(&self) -> (r: u64)
        ensures
            r == self.spec_diagonal_mask(),
            forall|sq: int|
                0 <= sq < 64 ==> #[trigger] bit(r, sq) == (kind(self.tag(sq)) == BISHOP || kind(
                    self.tag(sq),
                ) == QUEEN),
    {
            self.b0 & !self.b2
    }

    /// The squares that hold a bishop or a queen of side `turn`.
    pub fn col_diagonal_mask(&self, turn: bool) -> (r: u64)
        ensures
            r == self.spec_col_diagonal_mask(turn),
            forall|sq: int|
                0 <= sq < 64 ==> #[trigger] bit(r, sq) == ((kind(self.tag(sq)) == BISHOP || kind(
                    self.tag(sq),
                ) == QUEEN) && white(self.tag(sq)) == turn),
    {
        self.diagonal_mask() & (self.colour_mask(turn))
    }

    /// The squares that diagonal sliders would attack from the squares of `pieces`, on this
    /// board's occupancy.
    pub fn diagonal_like_attack_mask(&self, pieces: u64) -> (r: u64)
        ensures
            r == diagonal_rays(pieces, self.spec_piece_mask()),
    {
        let blockers = self.piece_mask();
        let ur = Self::sliding_mask::<true>(pieces, 7, blockers, LEFT_SIDE);
        let ul = Self::sliding_mask::<true>(pieces, 9, blockers, RIGHT_SIDE);
        let dr = Self::sliding_mask::<false>(pieces, 9, blockers, LEFT_SIDE);
        let dl = Self::sliding_mask::<false>(pieces, 7, blockers, RIGHT_SIDE);
        ur | ul | dr | dl
    }

    /// The squares that the bishops and queens of side `turn` attack.
    pub fn diagonal_attack_mask(&self, turn: bool) -> (r: u64)
        ensures
            r == self.spec_diagonal_attack_mask(turn),
    {
        let bishops = self.col_diagonal_mask(turn);
        self.diagonal_like_attack_mask(bishops)
    }

    /// The squares that hold a rook or a queen.
    pub fn ortho_mask(&self) -> (r: u64)
        ensures
            r == self.spec_ortho_mask(),
            forall|sq: int|
                0 <= sq < 64 ==> #[trigger] bit(r, sq) == (kind(self.tag(sq)) == ROOK || kind(
                    self.tag(sq),
                ) == QUEEN),
    {
            self.b1 & !self.b2
    }

    /// The squares that hold a rook or a queen of side `turn`.
    pub fn col_ortho_mask(&self, turn: bool) -> (r: u64)
        ensures
            r == self.spec_col_ortho_mask(turn),
            forall|sq: int|
                0 <= sq < 64 ==> #[trigger] bit(r, sq) == ((kind(self.tag(sq)) == ROOK || kind(
                    self.tag(sq),
                ) == QUEEN) && white(self.tag(sq)) == turn),
    {
        self.ortho_mask() & (self.colour_mask(turn))
    }

    /// The squares that orthogonal sliders would attack from the squares of `pieces`, on this
    /// board's occupancy.
    pub fn ortho_like_attack_mask(&self, pieces: u64) -> (r: u64)
        ensures
            r == ortho_rays(pieces, self.spec_piece_mask()),
    {
        let blockers = self.piece_mask();
        let r = Self::sliding_mask::<true>(pieces, 1, blockers, RIGHT_SIDE);
        let l = Self::sliding_mask::<false>(pieces, 1, blockers, LEFT_SIDE);
        let u = Self::sliding_mask::<true>(pieces, 8, blockers, 0);
        let d = Self::sliding_mask::<false>(pieces, 8, blockers, 0);
        r | l | u | d
    }

    /// The squares that the rooks and queens of side `turn` attack.
    pub fn ortho_attack_mask(&self, turn: bool) -> (r: u64)
        ensures
            r == self.spec_ortho_attack_mask(turn),
    {
        let rooks = self.col_ortho_mask(turn);
        self.ortho_like_attack_mask(rooks)
    }

    /// The squares that hold a king.
    pub fn king_mask(&self) -> (r: u64)
        ensures
            r == self.spec_king_mask(),
            forall|sq: int| 0 <= sq < 64 ==> #[trigger] bit(r, sq) == (kind(self.tag(sq)) == KING),
    {
            self.b0 & self.b1 & self.b2
    }

    /// The squares that hold a king of side `turn`.
    pub fn col_king_mask(&self, turn: bool) -> (r: u64)
        ensures
            r == self.spec_col_king_mask(turn),
            forall|sq: int|
                0 <= sq < 64 ==> #[trigger] bit(r, sq) == (kind(self.tag(sq)) == KING && white(
                    self.tag(sq),
                ) == turn),
    {
        self.king_mask() & (self.colour_mask(turn))
    }

    /// The squares next to the king of side `turn`.
    pub fn king_attack_mask(&self, turn: bool) -> (r: u64)
        ensures
            r == self.spec_king_attack_mask(turn),
            forall|to: int|
                #[trigger] bit(r, to) == (exists|from: int|
                    bit(self.spec_col_king_mask(turn), from) && king_step(from, to)),
    {
        proof {
            lemma_king_fan(self.spec_col_king_mask(turn));
        }
        let kings = self.col_king_mask(turn);
        let u = kings << 8u8;
        let d = kings >> 8u8;
        let mast = kings | u | d;
        let r = ((mast >> 1u8) & !LEFT_SIDE) | ((mast << 1u8) & !RIGHT_SIDE) | u | d;
        assert(r == king_fan(kings));
        r
    }

    /// The squares that the pieces of side `turn` attack together.
    pub fn attack_mask(&self, turn: bool) -> (r: u64)
        ensures
            r == self.spec_attack_mask(turn),
            forall|t: int| #[trigger] bit(r, t) == (exists|a: int| attacks(*self, turn, a, t)),
    {
        proof {
            self.lemma_attack_mask(turn);
        }
        let r = self.pawn_attack_mask(turn) | self.knight_attack_mask(turn)
            | self.diagonal_attack_mask(turn) | self.ortho_attack_mask(turn)
            | self.king_attack_mask(turn);
        assert(r == self.spec_attack_mask(turn));
        r
    }
}

} // verus!
