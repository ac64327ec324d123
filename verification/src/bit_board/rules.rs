//! The rules of movement, and the generator held against them: what it emits is what the
//! rules allow.

use crate::bit_board::masks::{
    attacks, diagonal_rays, knight_fan, lemma_diagonal_rays, lemma_knight_fan, lemma_ortho_rays,
    ortho_rays, threatens,
};
use crate::bit_board::planes::{kind, piece_of, BitBoard, BISHOP, KING, KNIGHT, PAWN, QUEEN, ROOK};
use crate::bit_board::position::BitBoardGame;
use crate::bit_board::safety::lemma_castle_masks;
use crate::bit_board::visitor::{Emission, Origin, Step};
use crate::bits::{
    bit, each, king_step, knight_jump, lemma_bit_and, lemma_bit_not, lemma_bit_single,
    lemma_each_all, lemma_pawn_hit_offsets, pawn_hit,
};
use crate::game::ChessGame;
use crate::rays::{sees_diagonally, sees_straight};
use vstd::prelude::*;

verus! {

/// Square `sq` holds no piece.
pub open spec fn vacant(b: BitBoard, sq: int) -> bool {
    0 <= sq < 64 && kind(b.tag(sq)) == 0
}

/// No piece of the side that is not `side` attacks square `sq`.
pub open spec fn safe_at(b: BitBoard, side: bool, sq: int) -> bool {
    forall|a: int| !threatens(b, side, a, sq)
}

impl Origin {
    /// The square `n` ranks ahead of `from`, as the side to move sees it.
    pub open spec fn ranks_ahead(self, from: int, n: int) -> int {
        if self.turn {
            from + 8 * n
        } else {
            from - 8 * n
        }
    }

    /// A pawn of the side to move goes from `from` to `to`: one square ahead onto an empty
    /// square, or one square diagonally ahead onto a piece of the other side.
    pub open spec fn pawn_goes(self, from: int, to: int) -> bool {
        (to == self.ranks_ahead(from, 1) && vacant(self.board, to)) || (pawn_hit(
            self.turn,
            from,
            to,
        ) && piece_of(self.board.tag(to), !self.turn))
    }

    /// A pawn on `from` stands one step before its last rank.
    pub open spec fn before_last(self, from: int) -> bool {
        from / 8 == (if self.turn {
            6int
        } else {
            1
        })
    }

    /// The step is one that the pieces can make by the way they move: a piece of the side to
    /// move goes to a square that holds no piece of its side, a knight by a knight's jump, a
    /// bishop, rook or queen along a line of sight, the king by one step; a pawn steps or
    /// captures, takes a double step from its starting rank over empty squares, captures en
    /// passant onto the empty en-passant target, or promotes from the rank before its last
    /// to a knight, bishop, rook or queen; and the king castles by right over empty squares
    /// when neither its square nor the two it crosses are attacked.
    pub open spec fn movable(self, step: Step, ep: Option<u8>) -> bool {
        let b = self.board;
        let t = self.turn;
        let occ = b.spec_piece_mask();
        match step {
            Step::Move { from, to } => {
                let k = kind(b.tag(from as int));
                &&& from < 64 && to < 64
                &&& piece_of(b.tag(from as int), t)
                &&& !piece_of(b.tag(to as int), t)
                &&& if k == PAWN {
                    self.pawn_goes(from as int, to as int) && !self.before_last(from as int)
                } else if k == KNIGHT {
                    knight_jump(from as int, to as int)
                } else if k == BISHOP {
                    sees_diagonally(from as int, to as int, occ)
                } else if k == ROOK {
                    sees_straight(from as int, to as int, occ)
                } else if k == QUEEN {
                    sees_diagonally(from as int, to as int, occ) || sees_straight(
                        from as int,
                        to as int,
                        occ,
                    )
                } else {
                    false
                }
            },
            Step::KingMove { from, to } => {
                &&& from < 64 && to < 64
                &&& piece_of(b.tag(from as int), t) && kind(b.tag(from as int)) == KING
                &&& !piece_of(b.tag(to as int), t)
                &&& king_step(from as int, to as int)
            },
            Step::PawnPush2 { from } => {
                &&& from < 64
                &&& piece_of(b.tag(from as int), t) && kind(b.tag(from as int)) == PAWN
                &&& from / 8 == (if t {
                    1int
                } else {
                    6
                })
                &&& vacant(b, self.ranks_ahead(from as int, 1))
                &&& vacant(b, self.ranks_ahead(from as int, 2))
            },
            Step::EnPassant { from, to } => {
                &&& from < 64 && to < 64
                &&& piece_of(b.tag(from as int), t) && kind(b.tag(from as int)) == PAWN
                &&& ep == Some(to)
                &&& pawn_hit(t, from as int, to as int)
                &&& vacant(b, to as int)
            },
            Step::Promotion { from, to, piece } => {
                &&& from < 64 && to < 64 && piece < 16
                &&& piece_of(b.tag(from as int), t) && kind(b.tag(from as int)) == PAWN
                &&& self.before_last(from as int)
                &&& self.pawn_goes(from as int, to as int)
                &&& piece_of(piece, t)
                &&& kind(piece) == KNIGHT || kind(piece) == BISHOP || kind(piece) == ROOK || kind(
                    piece,
                ) == QUEEN
            },
            Step::KsCastle => {
                let home = if t {
                    0int
                } else {
                    56
                };
                &&& self.right(true)
                &&& vacant(b, home + 1) && vacant(b, home + 2)
                &&& safe_at(b, t, home + 1) && safe_at(b, t, home + 2) && safe_at(b, t, home + 3)
            },
            Step::QsCastle => {
                let home = if t {
                    0int
                } else {
                    56
                };
                &&& self.right(false)
                &&& vacant(b, home + 4) && vacant(b, home + 5) && vacant(b, home + 6)
                &&& safe_at(b, t, home + 3) && safe_at(b, t, home + 4) && safe_at(b, t, home + 5)
            },
        }
    }

    /// The step is legal: the pieces can make it, and it leaves the king of the side that
    /// makes it out of check.
    pub open spec fn lawful(self, step: Step, ep: Option<u8>) -> bool {
        self.movable(step, ep) && (Emission { origin: self, step }).board_after().out_of_check(
            self.turn,
        )
    }

    /// An emission of this origin whose step the pieces can make.
    pub open spec fn by_rule(self, ep: Option<u8>) -> spec_fn(Emission) -> bool {
        |e: Emission| e.origin == self && self.movable(e.step, ep)
    }

    proof fn lemma_quiet_movable(self, ep: Option<u8>, from: u8, targets: u64)
        requires
            forall|t: u8|
                bit(targets, t as int) ==> #[trigger] self.movable(Step::Move { from, to: t }, ep),
        ensures
            forall|k: int|
                0 <= k < each(targets, self.quiet_gen(from)).len() ==> (self.by_rule(ep))(
                    #[trigger] each(targets, self.quiet_gen(from))[k],
                ),
    {
        let g = self.quiet_gen(from);
        let p = self.by_rule(ep);
        assert forall|t: u8, k: int| bit(targets, t as int) && 0 <= k < g(t).len() implies p(
            #[trigger] g(t)[k],
        ) by {
            assert(g(t)[k] == self.emit(Step::Move { from, to: t }));
            assert(self.movable(Step::Move { from, to: t }, ep));
        }
        lemma_each_all(targets, g, p);
    }

    /// What the base mask says of a square: it is on the board and holds no piece of the
    /// side to move.
    proof fn lemma_base_free(self, t: int)
        requires
            bit(self.base_mask(), t),
        ensures
            0 <= t < 64,
            !piece_of(self.board.tag(t), self.turn),
    {
        self.board.lemma_masks(self.turn);
        lemma_bit_and(
            self.board.spec_enemy_or_empty(self.turn),
            self.board.spec_check_mask(self.turn),
            t,
        );
    }

    proof fn lemma_knights_movable(self, ep: Option<u8>)
        ensures
            forall|k: int|
                0 <= k < self.knight_emissions().len() ==> (self.by_rule(ep))(
                    #[trigger] self.knight_emissions()[k],
                ),
    {
        broadcast use lemma_bit_and;

        let g = self.knight_gen();
        let p = self.by_rule(ep);
        self.board.lemma_masks(self.turn);
        assert forall|f: u8, k: int|
            bit(self.knight_sources(), f as int) && 0 <= k < g(f).len() implies p(
            #[trigger] g(f)[k],
        ) by {
            let targets = knight_fan(1u64 << f) & self.base_mask();
            lemma_knight_fan(1u64 << f);
            assert forall|t: u8| bit(targets, t as int) implies #[trigger] self.movable(
                Step::Move { from: f, to: t },
                ep,
            ) by {
                self.lemma_base_free(t as int);
                let a = choose|a: int| bit(1u64 << f, a) && knight_jump(a, t as int);
                lemma_bit_single(f, a);
            }
            self.lemma_quiet_movable(ep, f, targets);
        }
        lemma_each_all(self.knight_sources(), g, p);
    }

    proof fn lemma_sliders_movable(self, ep: Option<u8>, diag: bool)
        ensures
            forall|k: int|
                0 <= k < self.slider_emissions(diag).len() ==> (self.by_rule(ep))(
                    #[trigger] self.slider_emissions(diag)[k],
                ),
    {
        broadcast use lemma_bit_and;

        let b = self.board;
        let t = self.turn;
        let occ = b.spec_piece_mask();
        let p = self.by_rule(ep);
        let free = if diag {
            self.diagonal_free_gen()
        } else {
            self.ortho_free_gen()
        };
        let pinned = if diag {
            self.diagonal_pinned_gen()
        } else {
            self.ortho_pinned_gen()
        };
        let m1 = if diag {
            self.diagonal_free_sources()
        } else {
            self.ortho_free_sources()
        };
        let m2 = if diag {
            self.diagonal_pinned_sources()
        } else {
            self.ortho_pinned_sources()
        };
        let pins = if diag {
            b.spec_diagonal_pin_mask(t)
        } else {
            b.spec_ortho_pin_mask(t)
        };
        b.lemma_masks(t);
        assert forall|f: u8, x: u8|
            (bit(m1, f as int) || bit(m2, f as int)) && bit(
                (if diag {
                    diagonal_rays(1u64 << f, occ)
                } else {
                    ortho_rays(1u64 << f, occ)
                }) & self.base_mask(),
                x as int,
            ) implies #[trigger] self.movable(Step::Move { from: f, to: x }, ep) by {
            self.lemma_base_free(x as int);
            lemma_diagonal_rays(1u64 << f, occ);
            lemma_ortho_rays(1u64 << f, occ);
            if diag {
                let a = choose|a: int| bit(1u64 << f, a) && sees_diagonally(a, x as int, occ);
                lemma_bit_single(f, a);
            } else {
                let a = choose|a: int| bit(1u64 << f, a) && sees_straight(a, x as int, occ);
                lemma_bit_single(f, a);
            }
        }
        assert forall|f: u8, k: int| bit(m1, f as int) && 0 <= k < free(f).len() implies p(
            #[trigger] free(f)[k],
        ) by {
            let rays = if diag {
                diagonal_rays(1u64 << f, occ)
            } else {
                ortho_rays(1u64 << f, occ)
            };
            self.lemma_quiet_movable(ep, f, rays & self.base_mask());
        }
        lemma_each_all(m1, free, p);
        assert forall|f: u8, k: int| bit(m2, f as int) && 0 <= k < pinned(f).len() implies p(
            #[trigger] pinned(f)[k],
        ) by {
            let rays = if diag {
                diagonal_rays(1u64 << f, occ)
            } else {
                ortho_rays(1u64 << f, occ)
            };
            assert forall|x: u8| bit(rays & self.base_mask() & pins, x as int) implies
                #[trigger] self.movable(Step::Move { from: f, to: x }, ep) by {
                assert(bit(rays & self.base_mask(), x as int));
            }
            self.lemma_quiet_movable(ep, f, rays & self.base_mask() & pins);
        }
        lemma_each_all(m2, pinned, p);
        let s1 = each(m1, free);
        let s2 = each(m2, pinned);
        let all = self.slider_emissions(diag);
        assert(all == s1 + s2);
        assert forall|k: int| 0 <= k < all.len() implies p(#[trigger] all[k]) by {
            if k < s1.len() {
                assert(all[k] == s1[k]);
            } else {
                assert(all[k] == s2[k - s1.len()]);
            }
        }
    }

    proof fn lemma_kings_movable(self, king: int, ep: Option<u8>)
        requires
            self.board.sole_king(self.turn, king),
        ensures
            forall|k: int|
                0 <= k < self.king_emissions().len() ==> (self.by_rule(ep))(
                    #[trigger] self.king_emissions()[k],
                ),
    {
        let b = self.board;
        let t = self.turn;
        let from = self.king_square();
        let g = self.king_gen(from);
        let p = self.by_rule(ep);
        let targets = self.king_targets();
        b.lemma_sole_king(t, king);
        b.lemma_masks(t);
        assert forall|x: u8, k: int| bit(targets, x as int) && 0 <= k < g(x).len() implies p(
            #[trigger] g(x)[k],
        ) by {
            crate::bits::lemma_bit_zero(x as int);
            self.lemma_king_targets();
            assert(b.king_on(from as int, t));
            self.lemma_king_target(king, x as int);
            assert(g(x)[k] == self.emit(Step::KingMove { from, to: x }));
        }
        lemma_each_all(targets, g, p);
        let steps = each(targets, g);
        let castles = self.castle_emissions();
        let home: u8 = if t {
            0
        } else {
            56
        };
        let empty = !b.spec_piece_mask();
        let safe = !b.spec_attack_mask(!t);
        lemma_castle_masks(empty, home);
        lemma_castle_masks(safe, home);
        b.lemma_attack_mask(!t);
        assert forall|sq: int| bit(safe, sq) implies #[trigger] safe_at(b, t, sq) by {
            lemma_bit_not(b.spec_attack_mask(!t), sq);
        }
        assert forall|sq: int| bit(empty, sq) implies #[trigger] vacant(b, sq) by {
            lemma_bit_not(b.spec_piece_mask(), sq);
        }
        assert forall|k: int| 0 <= k < castles.len() implies p(#[trigger] castles[k]) by {
            if self.may_castle(true) {
                assert(vacant(b, home + 1) && vacant(b, home + 2));
                assert(safe_at(b, t, home + 1) && safe_at(b, t, home + 2) && safe_at(
                    b,
                    t,
                    home + 3,
                ));
            }
            if self.may_castle(false) {
                assert(vacant(b, home + 4) && vacant(b, home + 5) && vacant(b, home + 6));
                assert(safe_at(b, t, home + 3) && safe_at(b, t, home + 4) && safe_at(
                    b,
                    t,
                    home + 5,
                ));
            }
        }
        assert forall|k: int| 0 <= k < self.king_emissions().len() implies p(
            #[trigger] self.king_emissions()[k],
        ) by {
            if k < steps.len() {
                assert(self.king_emissions()[k] == steps[k]);
            } else {
                assert(self.king_emissions()[k] == castles[k - steps.len()]);
            }
        }
    }

    /// What a pawn's step or capture from `from` to `to` gives is by the rules.
    proof fn lemma_advance_movable(self, ep: Option<u8>, from: u8, to: u8)
        requires
            from < 64,
            to < 64,
            piece_of(self.board.tag(from as int), self.turn),
            kind(self.board.tag(from as int)) == PAWN,
            !piece_of(self.board.tag(to as int), self.turn),
            self.pawn_goes(from as int, to as int),
        ensures
            forall|k: int|
                0 <= k < self.advance(from, to).len() ==> (self.by_rule(ep))(
                    #[trigger] self.advance(from, to)[k],
                ),
    {
    }

    proof fn lemma_pawns_movable(self, ep: Option<u8>)
        requires
            ep matches Some(x) ==> x < 64 && !bit(self.board.spec_piece_mask(), x as int),
        ensures
            forall|k: int|
                0 <= k < self.pawn_emissions(ep).len() ==> (self.by_rule(ep))(
                    #[trigger] self.pawn_emissions(ep)[k],
                ),
    {
        broadcast use lemma_bit_and;

        let b = self.board;
        let t = self.turn;
        let p = self.by_rule(ep);
        b.lemma_masks(t);
        b.lemma_masks(!t);
        self.lemma_pawn_sources_in_range(ep);
        let g1 = self.push_gen();
        let m1 = self.push_sources();
        assert forall|f: u8, k: int| bit(m1, f as int) && 0 <= k < g1(f).len() implies p(
            #[trigger] g1(f)[k],
        ) by {
            self.lemma_push_facts(f);
            self.lemma_advance_movable(ep, f, self.ahead(f, 8));
        }
        lemma_each_all(m1, g1, p);
        let g2 = self.push2_gen();
        let m2 = self.push2_sources();
        assert forall|f: u8, k: int| bit(m2, f as int) && 0 <= k < g2(f).len() implies p(
            #[trigger] g2(f)[k],
        ) by {
            self.lemma_push2_facts(f);
            assert(g2(f)[k] == self.emit(Step::PawnPush2 { from: f }));
        }
        lemma_each_all(m2, g2, p);
        self.lemma_captures_movable(ep, 7);
        self.lemma_captures_movable(ep, 9);
        let s1 = each(m1, g1);
        let s2 = each(m2, g2);
        let s3 = each(self.capture_sources(ep, 7), self.capture_gen(7));
        let s4 = each(self.capture_sources(ep, 9), self.capture_gen(9));
        assert forall|k: int| 0 <= k < self.pawn_emissions(ep).len() implies p(
            #[trigger] self.pawn_emissions(ep)[k],
        ) by {
            let all = self.pawn_emissions(ep);
            if k < s1.len() {
                assert(all[k] == s1[k]);
            } else if k < s1.len() + s2.len() {
                assert(all[k] == s2[k - s1.len()]);
            } else if k < s1.len() + s2.len() + s3.len() {
                assert(all[k] == s3[k - s1.len() - s2.len()]);
            } else {
                assert(all[k] == s4[k - s1.len() - s2.len() - s3.len()]);
            }
        }
    }

    proof fn lemma_captures_movable(self, ep: Option<u8>, d: u8)
        requires
            d == 7 || d == 9,
            ep matches Some(x) ==> x < 64 && !bit(self.board.spec_piece_mask(), x as int),
        ensures
            forall|k: int|
                0 <= k < each(self.capture_sources(ep, d), self.capture_gen(d)).len() ==> (
                self.by_rule(ep))(#[trigger] each(self.capture_sources(ep, d), self.capture_gen(d))[k]),
    {
        broadcast use lemma_bit_and;

        let b = self.board;
        let t = self.turn;
        let p = self.by_rule(ep);
        b.lemma_masks(t);
        b.lemma_masks(!t);
        let g3 = self.capture_gen(d);
        let m3 = self.capture_sources(ep, d);
        assert forall|f: u8, k: int| bit(m3, f as int) && 0 <= k < g3(f).len() implies p(
            #[trigger] g3(f)[k],
        ) by {
            let g = self.ahead(f, d);
            self.lemma_capture_facts(ep, d, f);
            lemma_pawn_hit_offsets(t, f as int, g as int);
            assert(pawn_hit(t, f as int, g as int));
            if bit(b.spec_piece_mask(), g as int) {
                self.lemma_advance_movable(ep, f, g);
            } else {
                assert(g3(f)[k] == self.emit(Step::EnPassant { from: f, to: g }));
            }
        }
        lemma_each_all(m3, g3, p);
    }

    /// Every emission of a position is a step that the pieces can make.
    pub proof fn lemma_emissions_movable(self, king: int, ep: Option<u8>)
        requires
            self.board.sole_king(self.turn, king),
            ep matches Some(x) ==> x < 64 && !bit(self.board.spec_piece_mask(), x as int),
        ensures
            forall|k: int|
                0 <= k < self.emissions(ep).len() ==> (#[trigger] self.emissions(ep)[k]).origin
                    == self && self.movable(self.emissions(ep)[k].step, ep),
    {
        let p = self.by_rule(ep);
        self.lemma_pawns_movable(ep);
        self.lemma_knights_movable(ep);
        self.lemma_sliders_movable(ep, true);
        self.lemma_sliders_movable(ep, false);
        self.lemma_kings_movable(king, ep);
        let s1 = self.pawn_emissions(ep);
        let s2 = self.knight_emissions();
        let s3 = self.slider_emissions(true);
        let s4 = self.slider_emissions(false);
        let s5 = self.king_emissions();
        let all = self.emissions(ep);
        assert forall|k: int| 0 <= k < all.len() implies (#[trigger] all[k]).origin == self
            && self.movable(all[k].step, ep) by {
            if k < s1.len() {
                assert(all[k] == s1[k]);
                assert(p(s1[k]));
            } else if k < s1.len() + s2.len() {
                assert(all[k] == s2[k - s1.len()]);
                assert(p(s2[k - s1.len()]));
            } else if k < s1.len() + s2.len() + s3.len() {
                assert(all[k] == s3[k - s1.len() - s2.len()]);
                assert(p(s3[k - s1.len() - s2.len()]));
            } else if k < s1.len() + s2.len() + s3.len() + s4.len() {
                assert(all[k] == s4[k - s1.len() - s2.len() - s3.len()]);
                assert(p(s4[k - s1.len() - s2.len() - s3.len()]));
            } else {
                assert(all[k] == s5[k - s1.len() - s2.len() - s3.len() - s4.len()]);
                assert(p(s5[k - s1.len() - s2.len() - s3.len() - s4.len()]));
            }
        }
    }
}

impl BitBoardGame {
    /// Every legal move that is listed is legal by the rules. Where the position is one of a
    /// game in play, with the king of the side to move on `king`, the step of every emission
    /// is one that the pieces can make, and it leaves the king of the side that makes it out
    /// of check.
    pub proof fn lemma_listed_moves_are_lawful(self, king: int, k: int)
        requires
            self.valid(),
            self.origin().in_play(king, self.ep),
            0 <= k < self.legal().len(),
        ensures
            self.origin().lawful(self.emissions()[k].step, self.ep),
    {
        self.lemma_legal_valid();
        let o = self.origin();
        o.lemma_emissions_sound(self.ep);
        o.lemma_emissions_guarded(king, self.ep);
        o.lemma_emissions_movable(king, self.ep);
        let e = self.emissions()[k];
        e.lemma_leaves_king_safe(king, self.ep);
        assert(e == (Emission { origin: o, step: e.step }));
    }
}

} // verus!
