//! What holds of every legal move that the generator emits, and of the position it leads to.

use crate::bit_board::generate::lemma_bit_ranks;
use crate::bit_board::masks::{
    diagonal_rays, king_fan, knight_fan, lemma_diagonal_rays_line, lemma_king_fan,
    lemma_ortho_rays_line, ortho_rays,
};
use crate::bit_board::planes::{kind, piece_of, white, BitBoard, EMPTY, KING, KNIGHT, PAWN};
use crate::bit_board::position::{pack, promo_code};
use crate::bit_board::position::BitBoardGame;
use crate::game::ChessGame;
use crate::bit_board::visitor::{Emission, Origin, Step};
use crate::bits::{
    bit, each, king_step, lemma_bit_and, lemma_bit_not, lemma_bit_single, lemma_bit_zero,
    lemma_each_all, lemma_each_distinct, lemma_lowest,
};
use vstd::prelude::*;

verus! {

impl Emission {
    /// The step is one that the rules of movement allow on the board it is made from: its
    /// squares are on the board and differ, the square it leaves holds a piece of the side to
    /// move, of the class that the step is for, and a promotion is to a knight, bishop, rook
    /// or queen of that side.
    pub open spec fn sound(self) -> bool {
        let b = self.origin.board;
        let t = self.origin.turn;
        self.step.in_range(t) && match self.step {
            Step::Move { from, to } => from != to && piece_of(b.tag(from as int), t) && kind(
                b.tag(from as int),
            ) != KING,
            Step::KingMove { from, to } => from != to && piece_of(b.tag(from as int), t) && kind(
                b.tag(from as int),
            ) == KING,
            Step::EnPassant { from, to } => piece_of(b.tag(from as int), t) && kind(
                b.tag(from as int),
            ) == PAWN && (if t {
                to == from + 7 || to == from + 9
            } else {
                to == from - 7 || to == from - 9
            }),
            Step::PawnPush2 { from } => piece_of(b.tag(from as int), t) && kind(
                b.tag(from as int),
            ) == PAWN && (if t {
                8 <= from < 16
            } else {
                48 <= from < 56
            }),
            Step::Promotion { from, to, piece } => from != to && piece_of(b.tag(from as int), t)
                && kind(b.tag(from as int)) == PAWN && piece_of(piece, t) && (kind(piece) == 1
                || kind(piece) == 2 || kind(piece) == 3 || kind(piece) == 5),
            Step::QsCastle => true,
            Step::KsCastle => true,
        }
    }
}

impl Origin {
    /// An emission of this origin that is sound.
    pub open spec fn admits(self) -> spec_fn(Emission) -> bool {
        |e: Emission| e.origin == self && e.sound()
    }

    proof fn lemma_quiet_sound(self, from: u8, targets: u64)
        requires
            from < 64,
            piece_of(self.board.tag(from as int), self.turn),
            kind(self.board.tag(from as int)) != KING,
            forall|t: int| #[trigger] bit(targets, t) ==> t != from,
        ensures
            forall|k: int|
                0 <= k < each(targets, self.quiet_gen(from)).len() ==> (self.admits())(
                    #[trigger] each(targets, self.quiet_gen(from))[k],
                ),
    {
        let g = self.quiet_gen(from);
        let p = self.admits();
        assert forall|t: u8, k: int| bit(targets, t as int) && 0 <= k < g(t).len() implies p(
            #[trigger] g(t)[k],
        ) by {
            assert(g(t)[k] == self.emit(Step::Move { from, to: t }));
        }
        lemma_each_all(targets, g, p);
    }

    /// A piece of the side to move does not stand where the base mask lets it land.
    proof fn lemma_base_mask(self, from: u8)
        requires
            from < 64,
            piece_of(self.board.tag(from as int), self.turn),
        ensures
            !bit(self.base_mask(), from as int),
    {
        self.board.lemma_masks(self.turn);
        lemma_bit_and(
            self.board.spec_enemy_or_empty(self.turn),
            self.board.spec_check_mask(self.turn),
            from as int,
        );
    }

    proof fn lemma_knights_sound(self)
        ensures
            forall|k: int|
                0 <= k < self.knight_emissions().len() ==> (self.admits())(
                    #[trigger] self.knight_emissions()[k],
                ),
    {
        broadcast use lemma_bit_and;

        let g = self.knight_gen();
        let p = self.admits();
        self.board.lemma_masks(self.turn);
        assert forall|f: u8, k: int|
            bit(self.knight_sources(), f as int) && 0 <= k < g(f).len() implies p(
            #[trigger] g(f)[k],
        ) by {
            self.lemma_base_mask(f);
            self.lemma_quiet_sound(f, knight_fan(1u64 << f) & self.base_mask());
        }
        lemma_each_all(self.knight_sources(), g, p);
    }

    proof fn lemma_diagonals_sound(self)
        ensures
            forall|k: int|
                0 <= k < self.diagonal_emissions().len() ==> (self.admits())(
                    #[trigger] self.diagonal_emissions()[k],
                ),
    {
        broadcast use lemma_bit_and;

        let free = self.diagonal_free_gen();
        let pinned = self.diagonal_pinned_gen();
        let p = self.admits();
        let rays = |f: u8| diagonal_rays(1u64 << f, self.board.spec_piece_mask());
        self.board.lemma_masks(self.turn);
        assert forall|f: u8, k: int|
            bit(self.diagonal_free_sources(), f as int) && 0 <= k < free(f).len() implies p(
            #[trigger] free(f)[k],
        ) by {
            self.lemma_base_mask(f);
            self.lemma_quiet_sound(f, rays(f) & self.base_mask());
        }
        lemma_each_all(self.diagonal_free_sources(), free, p);
        assert forall|f: u8, k: int|
            bit(self.diagonal_pinned_sources(), f as int) && 0 <= k < pinned(f).len() implies p(
            #[trigger] pinned(f)[k],
        ) by {
            self.lemma_base_mask(f);
            self.lemma_quiet_sound(
                f,
                rays(f) & self.base_mask() & self.board.spec_diagonal_pin_mask(self.turn),
            );
        }
        lemma_each_all(self.diagonal_pinned_sources(), pinned, p);
    }

    proof fn lemma_orthos_sound(self)
        ensures
            forall|k: int|
                0 <= k < self.ortho_emissions().len() ==> (self.admits())(
                    #[trigger] self.ortho_emissions()[k],
                ),
    {
        broadcast use lemma_bit_and;

        let free = self.ortho_free_gen();
        let pinned = self.ortho_pinned_gen();
        let p = self.admits();
        let rays = |f: u8| ortho_rays(1u64 << f, self.board.spec_piece_mask());
        self.board.lemma_masks(self.turn);
        assert forall|f: u8, k: int|
            bit(self.ortho_free_sources(), f as int) && 0 <= k < free(f).len() implies p(
            #[trigger] free(f)[k],
        ) by {
            self.lemma_base_mask(f);
            self.lemma_quiet_sound(f, rays(f) & self.base_mask());
        }
        lemma_each_all(self.ortho_free_sources(), free, p);
        assert forall|f: u8, k: int|
            bit(self.ortho_pinned_sources(), f as int) && 0 <= k < pinned(f).len() implies p(
            #[trigger] pinned(f)[k],
        ) by {
            self.lemma_base_mask(f);
            self.lemma_quiet_sound(
                f,
                rays(f) & self.base_mask() & self.board.spec_ortho_pin_mask(self.turn),
            );
        }
        lemma_each_all(self.ortho_pinned_sources(), pinned, p);
    }

    /// Where the king may step there is a king, and it does not step onto its own square.
    pub proof fn lemma_king_targets(self)
        ensures
            self.king_targets() != 0 ==> self.king_square() < 64 && bit(
                self.board.spec_col_king_mask(self.turn),
                self.king_square() as int,
            ),
            forall|t: int|
                #[trigger] bit(self.king_targets(), t) ==> !piece_of(self.board.tag(t), self.turn),
    {
        broadcast use crate::bits::group_bit;

        let king = self.board.spec_col_king_mask(self.turn);
        let targets = self.king_targets();
        self.board.lemma_masks(self.turn);
        if targets != 0 {
            lemma_lowest(targets);
            let t = vstd::std_specs::bits::u64_trailing_zeros(targets) as int;
            crate::bit_board::masks::lemma_king_fan(king);
            assert(bit(crate::bit_board::masks::king_fan(king), t));
            assert(king != 0);
            lemma_lowest(king);
        }
    }

    proof fn lemma_kings_sound(self)
        ensures
            forall|k: int|
                0 <= k < self.king_emissions().len() ==> (self.admits())(
                    #[trigger] self.king_emissions()[k],
                ),
    {
        let from = self.king_square();
        let g = self.king_gen(from);
        let p = self.admits();
        let targets = self.king_targets();
        self.lemma_king_targets();
        self.board.lemma_masks(self.turn);
        assert forall|t: u8, k: int| bit(targets, t as int) && 0 <= k < g(t).len() implies p(
            #[trigger] g(t)[k],
        ) by {
            lemma_bit_zero(t as int);
            assert(g(t)[k] == self.emit(Step::KingMove { from, to: t }));
        }
        lemma_each_all(targets, g, p);
        let steps = each(targets, g);
        let castles = self.castle_emissions();
        assert forall|k: int| 0 <= k < self.king_emissions().len() implies p(
            #[trigger] self.king_emissions()[k],
        ) by {
            if k < steps.len() {
                assert(self.king_emissions()[k] == steps[k]);
            } else {
                assert(self.king_emissions()[k] == castles[k - steps.len()]);
            }
        }
    }

    proof fn lemma_advance_sound(self, from: u8, to: u8)
        requires
            from < 64,
            to < 64,
            from != to,
            piece_of(self.board.tag(from as int), self.turn),
            kind(self.board.tag(from as int)) == PAWN,
        ensures
            forall|k: int|
                0 <= k < self.advance(from, to).len() ==> (self.admits())(
                    #[trigger] self.advance(from, to)[k],
                ),
    {
    }

    proof fn lemma_pawns_sound(self, ep: Option<u8>)
        requires
            ep matches Some(x) ==> x < 64,
        ensures
            forall|k: int|
                0 <= k < self.pawn_emissions(ep).len() ==> (self.admits())(
                    #[trigger] self.pawn_emissions(ep)[k],
                ),
    {
        broadcast use lemma_bit_and;

        let p = self.admits();
        self.board.lemma_masks(self.turn);
        self.lemma_pawn_sources_in_range(ep);
        let g1 = self.push_gen();
        let m1 = self.push_sources();
        assert forall|f: u8, k: int| bit(m1, f as int) && 0 <= k < g1(f).len() implies p(
            #[trigger] g1(f)[k],
        ) by {
            self.lemma_advance_sound(f, self.ahead(f, 8));
        }
        lemma_each_all(m1, g1, p);
        let g2 = self.push2_gen();
        let m2 = self.push2_sources();
        assert forall|f: u8, k: int| bit(m2, f as int) && 0 <= k < g2(f).len() implies p(
            #[trigger] g2(f)[k],
        ) by {
            assert(g2(f)[k] == self.emit(Step::PawnPush2 { from: f }));
        }
        lemma_each_all(m2, g2, p);
        let g3 = self.capture_gen(7);
        let m3 = self.capture_sources(ep, 7);
        assert forall|f: u8, k: int| bit(m3, f as int) && 0 <= k < g3(f).len() implies p(
            #[trigger] g3(f)[k],
        ) by {
            self.lemma_advance_sound(f, self.ahead(f, 7));
        }
        lemma_each_all(m3, g3, p);
        let g4 = self.capture_gen(9);
        let m4 = self.capture_sources(ep, 9);
        assert forall|f: u8, k: int| bit(m4, f as int) && 0 <= k < g4(f).len() implies p(
            #[trigger] g4(f)[k],
        ) by {
            self.lemma_advance_sound(f, self.ahead(f, 9));
        }
        lemma_each_all(m4, g4, p);
        let s1 = each(m1, g1);
        let s2 = each(m2, g2);
        let s3 = each(m3, g3);
        let s4 = each(m4, g4);
        assert forall|k: int| 0 <= k < self.pawn_emissions(ep).len() implies p(
            #[trigger] self.pawn_emissions(ep)[k],
        ) by {
            let all = self.pawn_emissions(ep);
            if k < s1.len() {
                assert(all[k] == s1[k]);
            } else if k < s1.len() + s2.len() {
                assert(all[k] == s2[k - s1.len()]);
            } else if k < s1.len() + s2.len() + s3.len() {
                assert(all[k] == s3[k - s1.len() - s2.len()]);
            } else {
                assert(all[k] == s4[k - s1.len() - s2.len() - s3.len()]);
            }
        }
    }

    /// Every emission of a position is made from that position and is sound.
    pub proof fn lemma_emissions_sound(self, ep: Option<u8>)
        requires
            ep matches Some(x) ==> x < 64,
        ensures
            forall|k: int|
                0 <= k < self.emissions(ep).len() ==> (#[trigger] self.emissions(ep)[k]).origin
                    == self && self.emissions(ep)[k].sound(),
    {
        let p = self.admits();
        self.lemma_pawns_sound(ep);
        self.lemma_knights_sound();
        self.lemma_diagonals_sound();
        self.lemma_orthos_sound();
        self.lemma_kings_sound();
        let s1 = self.pawn_emissions(ep);
        let s2 = self.knight_emissions();
        let s3 = self.diagonal_emissions();
        let s4 = self.ortho_emissions();
        let s5 = self.king_emissions();
        let all = self.emissions(ep);
        assert forall|k: int| 0 <= k < all.len() implies (#[trigger] all[k]).origin == self
            && all[k].sound() by {
            if k < s1.len() {
                assert(all[k] == s1[k]);
                assert(p(s1[k]));
            } else if k < s1.len() + s2.len() {
                assert(all[k] == s2[k - s1.len()]);
                assert(p(s2[k - s1.len()]));
            } else if k < s1.len() + s2.len() + s3.len() {
                assert(all[k] == s3[k - s1.len() - s2.len()]);
                assert(p(s3[k - s1.len() - s2.len()]));
            } else if k < s1.len() + s2.len() + s3.len() + s4.len() {
                assert(all[k] == s4[k - s1.len() - s2.len() - s3.len()]);
                assert(p(s4[k - s1.len() - s2.len() - s3.len()]));
            } else {
                assert(all[k] == s5[k - s1.len() - s2.len() - s3.len() - s4.len()]);
                assert(p(s5[k - s1.len() - s2.len() - s3.len() - s4.len()]));
            }
        }
    }
}

impl Emission {
    /// The square that the moving piece leaves. For castling it is the king's.
    pub open spec fn departs(self) -> u8 {
        match self.step {
            Step::Move { from, to } => from,
            Step::KingMove { from, to } => from,
            Step::EnPassant { from, to } => from,
            Step::PawnPush2 { from } => from,
            Step::Promotion { from, to, piece } => from,
            Step::QsCastle => if self.origin.turn {
                3
            } else {
                59
            },
            Step::KsCastle => if self.origin.turn {
                3
            } else {
                59
            },
        }
    }

    /// The square that the moving piece reaches. For castling it is the king's.
    pub open spec fn lands(self) -> u8 {
        match self.step {
            Step::Move { from, to } => to,
            Step::KingMove { from, to } => to,
            Step::EnPassant { from, to } => to,
            Step::PawnPush2 { from } => if self.origin.turn {
                (from + 16) as u8
            } else {
                (from - 16) as u8
            },
            Step::Promotion { from, to, piece } => to,
            Step::QsCastle => if self.origin.turn {
                5
            } else {
                61
            },
            Step::KsCastle => if self.origin.turn {
                1
            } else {
                57
            },
        }
    }

    /// The tag that stands on the landing square after the step: the moving piece's own, or
    /// the piece that a pawn promotes to.
    pub open spec fn arrives_as(self) -> u8 {
        match self.step {
            Step::Promotion { from, to, piece } => piece,
            _ => self.origin.board.tag(self.departs() as int),
        }
    }

    /// After a sound step the landing square holds the piece that moved, unchanged unless
    /// the step is a promotion, in which case it holds the piece promoted to; and the square
    /// that the piece left is empty.
    pub proof fn lemma_piece_kept(self)
        requires
            self.sound(),
        ensures
            self.successor().board.tag(self.lands() as int) == self.arrives_as(),
            self.successor().board.tag(self.departs() as int) == EMPTY,
    {
        let b = self.origin.board;
        let after = self.successor().board;
        let t = self.origin.turn;
        match self.step {
            Step::Move { from, to } => {
                b.lemma_moved(from, to);
            },
            Step::KingMove { from, to } => {
                b.lemma_moved(from, to);
            },
            Step::EnPassant { from, to } => {
                let victim = if t {
                    (to - 8) as u8
                } else {
                    (to + 8) as u8
                };
                b.lemma_moved(from, to);
                b.moved(from, to).lemma_cleared(victim);
            },
            Step::PawnPush2 { from } => {
                b.lemma_moved(from, self.lands());
            },
            Step::Promotion { from, to, piece } => {
                b.lemma_cleared(from);
                b.cleared(from).lemma_placed(to, piece);
            },
            Step::QsCastle => {
                if t {
                    b.lemma_moved(7, 4);
                    b.moved(7, 4).lemma_moved(3, 5);
                } else {
                    b.lemma_moved(63, 60);
                    b.moved(63, 60).lemma_moved(59, 61);
                }
            },
            Step::KsCastle => {
                if t {
                    b.lemma_moved(0, 2);
                    b.moved(0, 2).lemma_moved(3, 1);
                } else {
                    b.lemma_moved(56, 58);
                    b.moved(56, 58).lemma_moved(59, 57);
                }
            },
        }
        assert(after@[self.lands() as int] == after.tag(self.lands() as int));
        assert(after@[self.departs() as int] == after.tag(self.departs() as int));
        assert(b@[self.departs() as int] == b.tag(self.departs() as int));
    }

    /// A sound step adds no king: a side with at most one king before it has at most one
    /// after it.
    pub proof fn lemma_kings_stay_unique(self, side: bool)
        requires
            self.sound(),
            self.origin.board.one_king_at_most(side),
        ensures
            self.successor().board.one_king_at_most(side),
    {
        let b = self.origin.board;
        let t = self.origin.turn;
        match self.step {
            Step::Move { from, to } => {
                b.lemma_move_keeps_kings(from, to, side);
            },
            Step::KingMove { from, to } => {
                b.lemma_move_keeps_kings(from, to, side);
            },
            Step::EnPassant { from, to } => {
                let victim = if t {
                    (to - 8) as u8
                } else {
                    (to + 8) as u8
                };
                b.lemma_move_keeps_kings(from, to, side);
                b.moved(from, to).lemma_clear_keeps_kings(victim, side);
            },
            Step::PawnPush2 { from } => {
                b.lemma_move_keeps_kings(from, self.lands(), side);
            },
            Step::Promotion { from, to, piece } => {
                b.lemma_clear_keeps_kings(from, side);
                let c = b.cleared(from);
                c.lemma_placed(to, piece);
                let after = c.placed(to, piece);
                assert forall|i: int, j: int|
                    after.king_on(i, side) && after.king_on(j, side) implies i == j by {
                    assert(after@[i] == after.tag(i) && after@[j] == after.tag(j));
                    assert(c@[i] == c.tag(i) && c@[j] == c.tag(j));
                    assert(c.king_on(i, side) && c.king_on(j, side));
                }
            },
            Step::QsCastle => {
                if t {
                    b.lemma_move_keeps_kings(7, 4, side);
                    b.moved(7, 4).lemma_move_keeps_kings(3, 5, side);
                } else {
                    b.lemma_move_keeps_kings(63, 60, side);
                    b.moved(63, 60).lemma_move_keeps_kings(59, 61, side);
                }
            },
            Step::KsCastle => {
                if t {
                    b.lemma_move_keeps_kings(0, 2, side);
                    b.moved(0, 2).lemma_move_keeps_kings(3, 1, side);
                } else {
                    b.lemma_move_keeps_kings(56, 58, side);
                    b.moved(56, 58).lemma_move_keeps_kings(59, 57, side);
                }
            },
        }
    }

    /// No step gives a castling right back: a right that the successor has, the position
    /// before had.
    pub proof fn lemma_rights_never_return(self)
        ensures
            self.successor().white_qs ==> self.origin.rights.wq,
            self.successor().white_ks ==> self.origin.rights.wk,
            self.successor().black_qs ==> self.origin.rights.bq,
            self.successor().black_ks ==> self.origin.rights.bk,
    {
    }

    /// The successor has an en-passant target exactly when the step is a pawn's double step,
    /// and the target is then the square that the pawn passed over.
    pub proof fn lemma_ep_after_double_step(self)
        ensures
            self.successor().ep is Some <==> self.step is PawnPush2,
            self.step matches Step::PawnPush2 { from } ==> self.successor().ep == Some(
                if self.origin.turn {
                    (from + 8) as u8
                } else {
                    (from - 8) as u8
                },
            ),
    {
    }
}

impl BitBoard {
    /// Square `sq` holds the king of side `side`.
    pub open spec fn king_on(self, sq: int, side: bool) -> bool {
        0 <= sq < 64 && kind(self.tag(sq)) == KING && white(self.tag(sq)) == side
    }

    /// Side `side` has no more than one king on the board.
    pub open spec fn one_king_at_most(self, side: bool) -> bool {
        forall|i: int, j: int| self.king_on(i, side) && self.king_on(j, side) ==> i == j
    }

    /// Moving a piece adds no king.
    pub proof fn lemma_move_keeps_kings(self, from: u8, to: u8, side: bool)
        requires
            from < 64,
            to < 64,
            self.one_king_at_most(side),
        ensures
            self.moved(from, to).one_king_at_most(side),
    {
        self.lemma_moved(from, to);
        let after = self.moved(from, to);
        assert forall|i: int, j: int| after.king_on(i, side) && after.king_on(j, side) implies i
            == j by {
            assert(after@[i] == after.tag(i) && after@[j] == after.tag(j));
            assert(self@[i] == self.tag(i) && self@[j] == self.tag(j));
            assert(self@[from as int] == self.tag(from as int));
            let src_i = if i == to {
                from as int
            } else {
                i
            };
            let src_j = if j == to {
                from as int
            } else {
                j
            };
            assert(self.king_on(src_i, side) && self.king_on(src_j, side));
        }
    }

    /// Emptying a square adds no king.
    pub proof fn lemma_clear_keeps_kings(self, sq: u8, side: bool)
        requires
            sq < 64,
            self.one_king_at_most(side),
        ensures
            self.cleared(sq).one_king_at_most(side),
    {
        self.lemma_cleared(sq);
        let after = self.cleared(sq);
        assert forall|i: int, j: int| after.king_on(i, side) && after.king_on(j, side) implies i
            == j by {
            assert(after@[i] == after.tag(i) && after@[j] == after.tag(j));
            assert(self@[i] == self.tag(i) && self@[j] == self.tag(j));
            assert(self.king_on(i, side) && self.king_on(j, side));
        }
    }
}

impl BitBoardGame {
    /// In every successor of a position the other side is to move.
    pub proof fn lemma_successors_pass_the_turn(self, k: int)
        requires
            self.valid(),
            0 <= k < self.legal().len(),
        ensures
            self.after(&self.legal()[k]).turn == !self.turn,
    {
        self.lemma_legal_valid();
    }

    /// In every successor of a position the piece that moved stands on the square it moved
    /// to, as the piece it was or, after a promotion, as the piece chosen; the square it left
    /// is empty.
    pub proof fn lemma_successors_keep_the_piece(self, k: int)
        requires
            self.valid(),
            0 <= k < self.legal().len(),
        ensures
            self.after(&self.legal()[k]).board.tag(self.emissions()[k].lands() as int)
                == self.emissions()[k].arrives_as(),
            self.after(&self.legal()[k]).board.tag(self.emissions()[k].departs() as int) == EMPTY,
            self.emissions()[k].step matches Step::Promotion { from, to, piece }
                ==> self.emissions()[k].arrives_as() == piece,
            !(self.emissions()[k].step is Promotion) ==> self.emissions()[k].arrives_as()
                == self.board.tag(self.emissions()[k].departs() as int),
    {
        self.lemma_legal_valid();
        self.emissions()[k].lemma_piece_kept();
    }

    /// A side that has at most one king has at most one king in every successor.
    pub proof fn lemma_successors_keep_kings_unique(self, k: int, side: bool)
        requires
            self.valid(),
            0 <= k < self.legal().len(),
            self.board.one_king_at_most(side),
        ensures
            self.after(&self.legal()[k]).board.one_king_at_most(side),
    {
        self.lemma_legal_valid();
        self.emissions()[k].lemma_kings_stay_unique(side);
    }

    /// A castling right that a successor has, the position has: along a line of play the
    /// rights only shrink.
    pub proof fn lemma_successors_keep_no_new_rights(self, k: int)
        requires
            self.valid(),
            0 <= k < self.legal().len(),
        ensures
            self.after(&self.legal()[k]).white_qs ==> self.white_qs,
            self.after(&self.legal()[k]).white_ks ==> self.white_ks,
            self.after(&self.legal()[k]).black_qs ==> self.black_qs,
            self.after(&self.legal()[k]).black_ks ==> self.black_ks,
    {
        self.lemma_legal_valid();
        self.emissions()[k].lemma_rights_never_return();
    }

    /// A successor has an en-passant target exactly when the move that leads to it is a
    /// pawn's double step.
    pub proof fn lemma_successors_ep(self, k: int)
        requires
            self.valid(),
            0 <= k < self.legal().len(),
        ensures
            self.after(&self.legal()[k]).ep is Some <==> self.emissions()[k].step is PawnPush2,
    {
        self.lemma_legal_valid();
        self.emissions()[k].lemma_ep_after_double_step();
    }
}

impl Emission {
    /// What a promotion adds to the packed move: the flag and the two bits of the piece.
    pub open spec fn bonus(self) -> int {
        match self.step {
            Step::Promotion { from, to, piece } => 16384 + 4096 * promo_code(piece),
            _ => 0,
        }
    }

    /// The step is a castling move.
    pub open spec fn is_castle(self) -> bool {
        self.step is QsCastle || self.step is KsCastle
    }

    /// What tells one move of a position from another: the square left, the square reached,
    /// what a promotion adds, and whether it is castling.
    pub open spec fn signature(self) -> (u8, u8, int, bool) {
        (self.departs(), self.lands(), self.bonus(), self.is_castle())
    }

    /// The step is sound, a king's step is to a square next to it, and castling is by right.
    pub open spec fn fits(self) -> bool {
        &&& self.sound()
        &&& self.step matches Step::KingMove { from, to } ==> king_step(from as int, to as int)
        &&& self.step is KsCastle ==> self.origin.right(true)
        &&& self.step is QsCastle ==> self.origin.right(false)
    }

    /// The part of the generator that a move with this signature belongs to, numbered in the
    /// order of generation: pawn steps, double steps, the two capture directions, knights,
    /// free and pinned diagonal sliders, free and pinned orthogonal sliders, king, castling.
    pub open spec fn class(self) -> int {
        let b = self.origin.board;
        let t = self.origin.turn;
        let from = self.departs() as int;
        let to = self.lands() as int;
        let d = if to >= from {
            to - from
        } else {
            from - to
        };
        let k = kind(b.tag(from));
        if self.is_castle() {
            11
        } else if k == PAWN {
            if d == 8 {
                1
            } else if d == 16 {
                2
            } else if d == 7 {
                3
            } else if d == 9 {
                4
            } else {
                0
            }
        } else if k == KNIGHT {
            5
        } else if k == KING {
            10
        } else if to / 8 != from / 8 && to % 8 != from % 8 {
            if bit(b.spec_diagonal_pin_mask(t), from) {
                7
            } else {
                6
            }
        } else {
            if bit(b.spec_ortho_pin_mask(t), from) {
                9
            } else {
                8
            }
        }
    }

    /// Two moves with different signatures.
    pub open spec fn unlike(self, other: Emission) -> bool {
        self.signature() != other.signature()
    }

    /// Two fitting moves of one position that differ in their signature lead to different
    /// records: the packed moves differ, or the castling rights that are left.
    pub proof fn lemma_unlike_records(self, other: Emission)
        requires
            self.origin == other.origin,
            self.fits(),
            other.fits(),
            self.unlike(other),
        ensures
            self.materialise() != other.materialise(),
    {
        self.lemma_packed();
        other.lemma_packed();
        if self.departs() == other.departs() && self.lands() == other.lands() && self.bonus()
            == other.bonus() {
            let c = if self.is_castle() {
                self
            } else {
                other
            };
            let m = if self.is_castle() {
                other
            } else {
                self
            };
            assert(c.is_castle() && !m.is_castle());
            assert(m.successor().white_qs != c.successor().white_qs || m.successor().white_ks
                != c.successor().white_ks || m.successor().black_qs != c.successor().black_qs
                || m.successor().black_ks != c.successor().black_ks) by {
                crate::bits::lemma_king_step_offsets(m.departs() as int, m.lands() as int);
            }
        }
    }

    /// The packed move of a sound step holds the square left in its low six bits, the
    /// square reached in the next six, and above them what a promotion adds.
    pub proof fn lemma_packed(self)
        requires
            self.sound(),
        ensures
            self.departs() < 64,
            self.lands() < 64,
            0 <= self.bonus() < 65536 - 4096,
            self.bonus() % 4096 == 0,
            self.packed() == self.bonus() + 64 * self.lands() + self.departs(),
    {
    }
}

/// The moves of a run differ pairwise in their signature.
pub open spec fn apart(s: Seq<Emission>) -> bool {
    forall|i: int, j: int| 0 <= i < j < s.len() ==> #[trigger] s[i].unlike(s[j])
}

impl Origin {
    /// A fitting emission of this origin in the part `lane` of the generator.
    pub open spec fn cast(self, lane: int) -> spec_fn(Emission) -> bool {
        |e: Emission| e.origin == self && e.fits() && e.class() == lane
    }

    /// A run of fitting emissions of this origin that differ pairwise and belong to the
    /// parts from `lo` up to, but not including, `hi`.
    pub open spec fn lane_ok(self, s: Seq<Emission>, lo: int, hi: int) -> bool {
        &&& apart(s)
        &&& forall|k: int|
            0 <= k < s.len() ==> (#[trigger] s[k]).origin == self && s[k].fits() && lo
                <= s[k].class() < hi
    }

    /// Two runs of different parts make one run.
    proof fn lemma_join(self, a: Seq<Emission>, b: Seq<Emission>, lo: int, mid: int, hi: int)
        requires
            lo <= mid <= hi,
            self.lane_ok(a, lo, mid),
            self.lane_ok(b, mid, hi),
        ensures
            self.lane_ok(a + b, lo, hi),
    {
        let s = a + b;
        assert forall|i: int, j: int| 0 <= i < j < s.len() implies #[trigger] s[i].unlike(s[j]) by {
            if j < a.len() {
                assert(a[i].unlike(a[j]));
            } else if i >= a.len() {
                assert(b[i - a.len()].unlike(b[j - a.len()]));
            } else {
                assert(s[i] == a[i] && s[j] == b[j - a.len()]);
                assert(a[i].class() != b[j - a.len()].class());
            }
        }
        assert forall|k: int| 0 <= k < s.len() implies (#[trigger] s[k]).origin == self
            && s[k].fits() && lo <= s[k].class() < hi by {
            if k < a.len() {
                assert(s[k] == a[k]);
            } else {
                assert(s[k] == b[k - a.len()]);
            }
        }
    }

    /// The moves of one piece, not a king, to the squares of `targets` are a run of part
    /// `lane`, where each of them is of that part.
    proof fn lemma_quiet_lane(self, from: u8, targets: u64, lane: int)
        requires
            from < 64,
            piece_of(self.board.tag(from as int), self.turn),
            kind(self.board.tag(from as int)) != KING,
            forall|t: int|
                #[trigger] bit(targets, t) ==> t != from && self.emit(
                    Step::Move { from, to: t as u8 },
                ).class() == lane,
        ensures
            self.lane_ok(each(targets, self.quiet_gen(from)), lane, lane + 1),
            forall|k: int|
                0 <= k < each(targets, self.quiet_gen(from)).len() ==> (#[trigger] each(
                    targets,
                    self.quiet_gen(from),
                )[k]).departs() == from,
    {
        let g = self.quiet_gen(from);
        let p = |e: Emission| self.cast(lane)(e) && e.departs() == from;
        assert forall|t: u8, k: int| bit(targets, t as int) && 0 <= k < g(t).len() implies p(
            #[trigger] g(t)[k],
        ) by {
            assert(g(t)[k] == self.emit(Step::Move { from, to: t }));
        }
        lemma_each_all(targets, g, p);
        let differ = |a: Emission, b: Emission| a.unlike(b);
        assert forall|f1: u8, f2: u8, k: int, l: int|
            bit(targets, f1 as int) && bit(targets, f2 as int) && f1 != f2 && 0 <= k < g(f1).len()
                && 0 <= l < g(f2).len() implies #[trigger] differ(g(f1)[k], g(f2)[l]) by {
            assert(g(f1)[k] == self.emit(Step::Move { from, to: f1 }));
            assert(g(f2)[l] == self.emit(Step::Move { from, to: f2 }));
        }
        lemma_each_distinct(targets, g, differ);
        let s = each(targets, g);
        assert forall|i: int, j: int| 0 <= i < j < s.len() implies #[trigger] s[i].unlike(s[j]) by {
            assert(differ(s[i], s[j]));
        }
        assert forall|k: int| 0 <= k < s.len() implies (#[trigger] s[k]).origin == self
            && s[k].fits() && lane <= s[k].class() < lane + 1 && s[k].departs() == from by {
            assert(p(s[k]));
        }
    }

    /// The moves that come of the pieces on `sources`, where the moves of each piece are a
    /// run of part `lane` that leaves from the piece's square, are a run of that part.
    proof fn lemma_sources_lane(self, sources: u64, g: spec_fn(u8) -> Seq<Emission>, lane: int)
        requires
            forall|f: u8|
                bit(sources, f as int) ==> self.lane_ok(#[trigger] g(f), lane, lane + 1)
                    && forall|k: int| 0 <= k < g(f).len() ==> (#[trigger] g(f)[k]).departs() == f,
        ensures
            self.lane_ok(each(sources, g), lane, lane + 1),
    {
        let p = self.cast(lane);
        assert forall|f: u8, k: int| bit(sources, f as int) && 0 <= k < g(f).len() implies p(
            #[trigger] g(f)[k],
        ) by {
            assert(self.lane_ok(g(f), lane, lane + 1));
        }
        lemma_each_all(sources, g, p);
        let differ = |a: Emission, b: Emission| a.unlike(b);
        assert forall|f: u8, k: int, l: int|
            bit(sources, f as int) && 0 <= k < l < g(f).len() implies #[trigger] differ(
            g(f)[k],
            g(f)[l],
        ) by {
            assert(self.lane_ok(g(f), lane, lane + 1));
            assert(g(f)[k].unlike(g(f)[l]));
        }
        assert forall|f1: u8, f2: u8, k: int, l: int|
            bit(sources, f1 as int) && bit(sources, f2 as int) && f1 != f2 && 0 <= k < g(f1).len()
                && 0 <= l < g(f2).len() implies #[trigger] differ(g(f1)[k], g(f2)[l]) by {
            assert(self.lane_ok(g(f1), lane, lane + 1));
            assert(self.lane_ok(g(f2), lane, lane + 1));
            assert(g(f1)[k].departs() == f1);
            assert(g(f2)[l].departs() == f2);
        }
        lemma_each_distinct(sources, g, differ);
        let s = each(sources, g);
        assert forall|i: int, j: int| 0 <= i < j < s.len() implies #[trigger] s[i].unlike(s[j]) by {
            assert(differ(s[i], s[j]));
        }
        assert forall|k: int| 0 <= k < s.len() implies (#[trigger] s[k]).origin == self
            && s[k].fits() && lane <= s[k].class() < lane + 1 by {
            assert(p(s[k]));
        }
    }

    proof fn lemma_knights_lane(self)
        ensures
            self.lane_ok(self.knight_emissions(), 5, 6),
    {
        broadcast use lemma_bit_and;

        let g = self.knight_gen();
        self.board.lemma_masks(self.turn);
        assert forall|f: u8| bit(self.knight_sources(), f as int) implies self.lane_ok(
            #[trigger] g(f),
            5,
            6,
        ) && forall|k: int| 0 <= k < g(f).len() ==> (#[trigger] g(f)[k]).departs() == f by {
            self.lemma_base_mask(f);
            self.lemma_quiet_lane(f, knight_fan(1u64 << f) & self.base_mask(), 5);
        }
        self.lemma_sources_lane(self.knight_sources(), g, 5);
    }

    proof fn lemma_diagonals_lane(self)
        ensures
            self.lane_ok(self.diagonal_emissions(), 6, 8),
    {
        broadcast use lemma_bit_and, lemma_bit_not;

        let free = self.diagonal_free_gen();
        let pinned = self.diagonal_pinned_gen();
        let pins = self.board.spec_diagonal_pin_mask(self.turn);
        let blockers = self.board.spec_piece_mask();
        self.board.lemma_masks(self.turn);
        assert forall|f: u8| bit(self.diagonal_free_sources(), f as int) implies self.lane_ok(
            #[trigger] free(f),
            6,
            7,
        ) && forall|k: int| 0 <= k < free(f).len() ==> (#[trigger] free(f)[k]).departs() == f by {
            self.lemma_base_mask(f);
            lemma_diagonal_rays_line(f, blockers);
            self.lemma_quiet_lane(f, diagonal_rays(1u64 << f, blockers) & self.base_mask(), 6);
        }
        self.lemma_sources_lane(self.diagonal_free_sources(), free, 6);
        assert forall|f: u8| bit(self.diagonal_pinned_sources(), f as int) implies self.lane_ok(
            #[trigger] pinned(f),
            7,
            8,
        ) && forall|k: int|
            0 <= k < pinned(f).len() ==> (#[trigger] pinned(f)[k]).departs() == f by {
            self.lemma_base_mask(f);
            lemma_diagonal_rays_line(f, blockers);
            self.lemma_quiet_lane(
                f,
                diagonal_rays(1u64 << f, blockers) & self.base_mask() & pins,
                7,
            );
        }
        self.lemma_sources_lane(self.diagonal_pinned_sources(), pinned, 7);
        self.lemma_join(
            each(self.diagonal_free_sources(), free),
            each(self.diagonal_pinned_sources(), pinned),
            6,
            7,
            8,
        );
    }

    proof fn lemma_orthos_lane(self)
        ensures
            self.lane_ok(self.ortho_emissions(), 8, 10),
    {
        broadcast use lemma_bit_and, lemma_bit_not;

        let free = self.ortho_free_gen();
        let pinned = self.ortho_pinned_gen();
        let pins = self.board.spec_ortho_pin_mask(self.turn);
        let blockers = self.board.spec_piece_mask();
        self.board.lemma_masks(self.turn);
        assert forall|f: u8| bit(self.ortho_free_sources(), f as int) implies self.lane_ok(
            #[trigger] free(f),
            8,
            9,
        ) && forall|k: int| 0 <= k < free(f).len() ==> (#[trigger] free(f)[k]).departs() == f by {
            self.lemma_base_mask(f);
            lemma_ortho_rays_line(f, blockers);
            self.lemma_quiet_lane(f, ortho_rays(1u64 << f, blockers) & self.base_mask(), 8);
        }
        self.lemma_sources_lane(self.ortho_free_sources(), free, 8);
        assert forall|f: u8| bit(self.ortho_pinned_sources(), f as int) implies self.lane_ok(
            #[trigger] pinned(f),
            9,
            10,
        ) && forall|k: int|
            0 <= k < pinned(f).len() ==> (#[trigger] pinned(f)[k]).departs() == f by {
            self.lemma_base_mask(f);
            lemma_ortho_rays_line(f, blockers);
            self.lemma_quiet_lane(f, ortho_rays(1u64 << f, blockers) & self.base_mask() & pins, 9);
        }
        self.lemma_sources_lane(self.ortho_pinned_sources(), pinned, 9);
        self.lemma_join(
            each(self.ortho_free_sources(), free),
            each(self.ortho_pinned_sources(), pinned),
            8,
            9,
            10,
        );
    }

    proof fn lemma_kings_lane(self)
        requires
            self.board.one_king_at_most(self.turn),
        ensures
            self.lane_ok(self.king_emissions(), 10, 12),
    {
        let from = self.king_square();
        let g = self.king_gen(from);
        let targets = self.king_targets();
        let king = self.board.spec_col_king_mask(self.turn);
        self.lemma_king_targets();
        self.board.lemma_masks(self.turn);
        lemma_king_fan(king);
        let p = self.cast(10);
        assert forall|t: u8, k: int| bit(targets, t as int) && 0 <= k < g(t).len() implies p(
            #[trigger] g(t)[k],
        ) by {
            lemma_bit_zero(t as int);
            assert(g(t)[k] == self.emit(Step::KingMove { from, to: t }));
            assert(bit(king_fan(king), t as int)) by {
                broadcast use crate::bits::group_bit;

            }
            let f = choose|f: int| bit(king, f) && king_step(f, t as int);
            assert(self.board.king_on(f, self.turn) && self.board.king_on(from as int, self.turn));
        }
        lemma_each_all(targets, g, p);
        let differ = |a: Emission, b: Emission| a.unlike(b);
        assert forall|f1: u8, f2: u8, k: int, l: int|
            bit(targets, f1 as int) && bit(targets, f2 as int) && f1 != f2 && 0 <= k < g(f1).len()
                && 0 <= l < g(f2).len() implies #[trigger] differ(g(f1)[k], g(f2)[l]) by {
            assert(g(f1)[k] == self.emit(Step::KingMove { from, to: f1 }));
            assert(g(f2)[l] == self.emit(Step::KingMove { from, to: f2 }));
        }
        lemma_each_distinct(targets, g, differ);
        let steps = each(targets, g);
        assert forall|i: int, j: int| 0 <= i < j < steps.len() implies #[trigger] steps[i].unlike(
            steps[j],
        ) by {
            assert(differ(steps[i], steps[j]));
        }
        assert forall|k: int| 0 <= k < steps.len() implies (#[trigger] steps[k]).origin == self
            && steps[k].fits() && 10 <= steps[k].class() < 11 by {
            assert(p(steps[k]));
        }
        let castles = self.castle_emissions();
        assert(self.lane_ok(castles, 11, 12));
        self.lemma_join(steps, castles, 10, 11, 12);
    }

    /// What a pawn's step or capture from `from` to `to` gives is a run of part `lane`.
    proof fn lemma_advance_lane(self, from: u8, to: u8, lane: int)
        requires
            from < 64,
            to < 64,
            piece_of(self.board.tag(from as int), self.turn),
            kind(self.board.tag(from as int)) == PAWN,
            self.emit(Step::Move { from, to }).class() == lane,
            1 <= lane <= 4,
        ensures
            self.lane_ok(self.advance(from, to), lane, lane + 1),
            forall|k: int|
                0 <= k < self.advance(from, to).len() ==> (#[trigger] self.advance(
                    from,
                    to,
                )[k]).departs() == from,
    {
        let s = self.advance(from, to);
        assert forall|i: int, j: int| 0 <= i < j < s.len() implies #[trigger] s[i].unlike(s[j]) by {
            assert(s[i].bonus() != s[j].bonus());
        }
    }

    proof fn lemma_pawns_lane(self, ep: Option<u8>)
        requires
            ep matches Some(x) ==> x < 64,
        ensures
            self.lane_ok(self.pawn_emissions(ep), 1, 5),
    {
        broadcast use lemma_bit_and;

        self.board.lemma_masks(self.turn);
        self.lemma_pawn_sources_in_range(ep);
        let g1 = self.push_gen();
        let m1 = self.push_sources();
        assert forall|f: u8| bit(m1, f as int) implies self.lane_ok(#[trigger] g1(f), 1, 2)
            && forall|k: int| 0 <= k < g1(f).len() ==> (#[trigger] g1(f)[k]).departs() == f by {
            self.lemma_advance_lane(f, self.ahead(f, 8), 1);
        }
        self.lemma_sources_lane(m1, g1, 1);
        let g2 = self.push2_gen();
        let m2 = self.push2_sources();
        assert forall|f: u8| bit(m2, f as int) implies self.lane_ok(#[trigger] g2(f), 2, 3)
            && forall|k: int| 0 <= k < g2(f).len() ==> (#[trigger] g2(f)[k]).departs() == f by {
            assert(g2(f)[0] == self.emit(Step::PawnPush2 { from: f }));
        }
        self.lemma_sources_lane(m2, g2, 2);
        let g3 = self.capture_gen(7);
        let m3 = self.capture_sources(ep, 7);
        assert forall|f: u8| bit(m3, f as int) implies self.lane_ok(#[trigger] g3(f), 3, 4)
            && forall|k: int| 0 <= k < g3(f).len() ==> (#[trigger] g3(f)[k]).departs() == f by {
            self.lemma_advance_lane(f, self.ahead(f, 7), 3);
        }
        self.lemma_sources_lane(m3, g3, 3);
        let g4 = self.capture_gen(9);
        let m4 = self.capture_sources(ep, 9);
        assert forall|f: u8| bit(m4, f as int) implies self.lane_ok(#[trigger] g4(f), 4, 5)
            && forall|k: int| 0 <= k < g4(f).len() ==> (#[trigger] g4(f)[k]).departs() == f by {
            self.lemma_advance_lane(f, self.ahead(f, 9), 4);
        }
        self.lemma_sources_lane(m4, g4, 4);
        self.lemma_join(each(m1, g1), each(m2, g2), 1, 2, 3);
        self.lemma_join(each(m1, g1) + each(m2, g2), each(m3, g3), 1, 3, 4);
        self.lemma_join(each(m1, g1) + each(m2, g2) + each(m3, g3), each(m4, g4), 1, 4, 5);
    }

    /// The emissions of a position whose side to move has at most one king are fitting and
    /// differ pairwise in their signature.
    pub proof fn lemma_emissions_apart(self, ep: Option<u8>)
        requires
            ep matches Some(x) ==> x < 64,
            self.board.one_king_at_most(self.turn),
        ensures
            self.lane_ok(self.emissions(ep), 1, 12),
    {
        self.lemma_pawns_lane(ep);
        self.lemma_knights_lane();
        self.lemma_diagonals_lane();
        self.lemma_orthos_lane();
        self.lemma_kings_lane();
        let s1 = self.pawn_emissions(ep);
        let s2 = self.knight_emissions();
        let s3 = self.diagonal_emissions();
        let s4 = self.ortho_emissions();
        let s5 = self.king_emissions();
        self.lemma_join(s1, s2, 1, 5, 6);
        self.lemma_join(s1 + s2, s3, 1, 6, 8);
        self.lemma_join(s1 + s2 + s3, s4, 1, 8, 10);
        self.lemma_join(s1 + s2 + s3 + s4, s5, 1, 10, 12);
    }
}

impl BitBoardGame {
    /// No two legal moves of a position are the same, where the side to move has at most
    /// one king.
    pub proof fn lemma_moves_differ(self, i: int, j: int)
        requires
            self.valid(),
            self.board.one_king_at_most(self.turn),
            0 <= i < j < self.legal().len(),
        ensures
            self.legal()[i] != self.legal()[j],
    {
        self.lemma_legal_valid();
        self.origin().lemma_emissions_apart(self.ep);
        let s = self.emissions();
        assert(s[i].unlike(s[j]));
        s[i].lemma_unlike_records(s[j]);
    }
}

impl BitBoardGame {
    /// The position `next` follows this one by a legal move.
    pub open spec fn leads_to(self, next: BitBoardGame) -> bool {
        exists|k: int| 0 <= k < self.legal().len() && next == self.after(&#[trigger] self.legal()[k])
    }
}

/// Position `i` of the line has its en-passant target on the board, and the next position
/// follows it by a legal move.
pub open spec fn linked(line: Seq<BitBoardGame>, i: int) -> bool {
    line[i].valid() && line[i].leads_to(line[i + 1])
}

/// The positions are a line of play: each follows the one before it by a legal move.
pub open spec fn line_of_play(line: Seq<BitBoardGame>) -> bool {
    forall|i: int| 0 <= i < line.len() - 1 ==> #[trigger] linked(line, i)
}

/// Along a line of play the castling rights only shrink: a right that a later position has,
/// every earlier position has.
pub proof fn lemma_rights_shrink(line: Seq<BitBoardGame>, i: int, j: int)
    requires
        line_of_play(line),
        0 <= i <= j < line.len(),
    ensures
        line[j].white_qs ==> line[i].white_qs,
        line[j].white_ks ==> line[i].white_ks,
        line[j].black_qs ==> line[i].black_qs,
        line[j].black_ks ==> line[i].black_ks,
    decreases j - i,
{
    if i < j {
        lemma_rights_shrink(line, i, j - 1);
        let p = line[j - 1];
        assert(linked(line, j - 1));
        let k = choose|k: int|
            0 <= k < p.legal().len() && line[j] == p.after(&#[trigger] p.legal()[k]);
        p.lemma_successors_keep_no_new_rights(k);
    }
}

/// Along a line of play that starts with at most one king of a side, that side has at most
/// one king in every position.
pub proof fn lemma_kings_stay_unique_in_play(line: Seq<BitBoardGame>, side: bool, j: int)
    requires
        line_of_play(line),
        0 <= j < line.len(),
        line[0].board.one_king_at_most(side),
    ensures
        line[j].board.one_king_at_most(side),
    decreases j,
{
    if 0 < j {
        lemma_kings_stay_unique_in_play(line, side, j - 1);
        let p = line[j - 1];
        assert(linked(line, j - 1));
        let k = choose|k: int|
            0 <= k < p.legal().len() && line[j] == p.after(&#[trigger] p.legal()[k]);
        p.lemma_successors_keep_kings_unique(k, side);
    }
}

/// Along a line of play the sides take turns.
pub proof fn lemma_turns_alternate(line: Seq<BitBoardGame>, j: int)
    requires
        line_of_play(line),
        0 <= j < line.len(),
    ensures
        line[j].turn == (if j % 2 == 0 {
            line[0].turn
        } else {
            !line[0].turn
        }),
    decreases j,
{
    if 0 < j {
        lemma_turns_alternate(line, j - 1);
        let p = line[j - 1];
        assert(linked(line, j - 1));
        let k = choose|k: int|
            0 <= k < p.legal().len() && line[j] == p.after(&#[trigger] p.legal()[k]);
        p.lemma_successors_pass_the_turn(k);
    }
}

} // verus!
