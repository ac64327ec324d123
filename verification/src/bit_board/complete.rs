//! The generator held against the rules of movement, the other way round: what the rules
//! allow is emitted.

use crate::bit_board::generate::{lemma_bit_ranks, retreat};
use crate::bit_board::masks::{
    attacks, diagonal_rays, king_fan, knight_fan, lemma_diagonal_rays, lemma_king_fan,
    lemma_knight_fan, lemma_ortho_rays, ortho_rays, threatens,
};
use crate::bit_board::planes::{BISHOP, BitBoard, KING, KNIGHT, PAWN, QUEEN, ROOK, kind, piece_of};
use crate::bit_board::position::BitBoardGame;
use crate::bit_board::rules::{safe_at, vacant};
use crate::bit_board::safety::{
    fill_of, knight_answers, lemma_castle_masks, lemma_dir_cases, lemma_fill_of, lemma_slider_dir,
    near, passed_pawn, pawn_answers, same_line, slanted, slides_along,
};
use crate::bit_board::threats::{check_ray, restrict};
use crate::bit_board::visitor::{Emission, Origin, Step};
use crate::bits::{
    LEFT2_SIDE, LEFT_SIDE, RIGHT2_SIDE, RIGHT_SIDE, bit, each, group_bit, king_step, knight_jump,
    lemma_bit_and, lemma_bit_full, lemma_bit_not, lemma_bit_or, lemma_bit_single, lemma_bit_zero,
    lemma_bits_equal, lemma_each_contains, lemma_knight_jump_offsets, lemma_lowest,
    lemma_pawn_hit_offsets, pawn_hit, slide,
};
use crate::game::ChessGame;
use crate::rays::{
    aligned, between, is_dir, lemma_aligned_back, lemma_aligned_order, lemma_aligned_range,
    lemma_aligned_trans, lemma_first_blocker, lemma_one_direction, lemma_sees_back,
    lemma_sees_parts, lemma_slide_sees, lemma_step_aligned, one_step, sees, sees_diagonally,
    sees_straight,
};
use vstd::prelude::*;

verus! {

impl BitBoard {
    /// A check on the king on `king` that a move to `g` does not answer: a knight or pawn
    /// that attacks the king from another square than `g`, or a slider that the king sees
    /// along a line on which `g` is not in sight.
    pub open spec fn unanswered(self, side: bool, king: int, g: int) -> bool {
        ||| exists|a: int|
            a != g && 0 <= a < 64 && piece_of(#[trigger] self.tag(a), !side) && ((kind(self.tag(a))
                == KNIGHT && knight_jump(a, king)) || (kind(self.tag(a)) == PAWN && pawn_hit(
                !side,
                a,
                king,
            )))
        ||| exists|a: int, df: int, dr: int|
            is_dir(df, dr) && slides_along(self.tag(a), !side, df, dr) && #[trigger] sees(
                king,
                a,
                df,
                dr,
                self.spec_piece_mask(),
            ) && !sees(king, g, df, dr, self.spec_piece_mask())
    }

    /// A check ray that does not hold `g` is the ray to a slider that checks the king.
    proof fn lemma_ray_unanswered(self, side: bool, king: int, df: int, dr: int, g: int)
        requires
            is_dir(df, dr),
            self.sole_king(side, king),
            0 <= g < 64,
            !bit(
                check_ray(
                    1u64 << (king as u8),
                    fill_of(df, dr).0,
                    self.spec_piece_mask(),
                    fill_of(df, dr).1,
                    fill_of(df, dr).2,
                    self.sliders(!side, df, dr),
                ),
                g,
            ),
        ensures
            self.unanswered(side, king, g),
    {
        let occ = self.spec_piece_mask();
        let way = fill_of(df, dr);
        let others = self.sliders(!side, df, dr);
        let ray = slide(1u64 << (king as u8), way.0, occ, way.1, way.2);
        lemma_fill_of(df, dr);
        lemma_slide_sees(king as u8, way.0, occ, way.1, way.2, df, dr);
        lemma_bit_full(g);
        assert(ray & others != 0);
        lemma_lowest(ray & others);
        let a = vstd::std_specs::bits::u64_trailing_zeros(ray & others) as int;
        lemma_bit_and(ray, others, a);
        self.lemma_sliders(!side, df, dr);
        assert(sees(king, a, df, dr, occ));
        assert(!sees(king, g, df, dr, occ));
    }

    /// A square that the check mask does not hold leaves a check unanswered.
    pub proof fn lemma_check_mask_complete(self, side: bool, king: int, g: int)
        requires
            self.sole_king(side, king),
            0 <= g < 64,
            !bit(self.spec_check_mask(side), g),
        ensures
            self.unanswered(side, king, g),
    {
        broadcast use lemma_bit_and;

        let kings = self.spec_col_king_mask(side);
        self.lemma_sole_king(side, king);
        let occ = self.spec_piece_mask();
        assert(self.sliders(!side, 1, 0) == self.spec_col_ortho_mask(!side));
        assert(self.sliders(!side, 1, 1) == self.spec_col_diagonal_mask(!side));
        if !bit(self.spec_hor_check_mask(side), g) {
            if !bit(check_ray(kings, 1, occ, LEFT_SIDE, false, self.spec_col_ortho_mask(!side)), g) {
                self.lemma_ray_unanswered(side, king, -1, 0, g);
            } else {
                self.lemma_ray_unanswered(side, king, 1, 0, g);
            }
        } else if !bit(self.spec_vert_check_mask(side), g) {
            if !bit(check_ray(kings, 8, occ, 0, true, self.spec_col_ortho_mask(!side)), g) {
                self.lemma_ray_unanswered(side, king, 0, 1, g);
            } else {
                self.lemma_ray_unanswered(side, king, 0, -1, g);
            }
        } else if !bit(self.spec_lr_check_mask(side), g) {
            if !bit(
                check_ray(kings, 7, occ, LEFT_SIDE, true, self.spec_col_diagonal_mask(!side)),
                g,
            ) {
                self.lemma_ray_unanswered(side, king, -1, 1, g);
            } else {
                self.lemma_ray_unanswered(side, king, 1, -1, g);
            }
        } else if !bit(self.spec_rl_check_mask(side), g) {
            if !bit(
                check_ray(kings, 9, occ, LEFT_SIDE, false, self.spec_col_diagonal_mask(!side)),
                g,
            ) {
                self.lemma_ray_unanswered(side, king, -1, -1, g);
            } else {
                self.lemma_ray_unanswered(side, king, 1, 1, g);
            }
        } else if !bit(self.spec_knight_check_mask(side), g) {
            assert(self.spec_knight_check_mask(side) == knight_answers(
                king as u8,
                self.spec_col_knight_mask(!side),
            ));
            self.lemma_masks(!side);
            let a = lemma_knight_unanswered(king as u8, self.spec_col_knight_mask(!side), g);
            assert(knight_jump(a, king));
            assert(piece_of(self.tag(a), !side) && kind(self.tag(a)) == KNIGHT);
        } else {
            assert(self.spec_pawn_check_mask(side) == pawn_answers(
                side,
                king as u8,
                self.spec_col_pawn_mask(!side),
            ));
            self.lemma_masks(!side);
            let a = lemma_pawn_unanswered(side, king as u8, self.spec_col_pawn_mask(!side), g);
            assert(piece_of(self.tag(a), !side) && kind(self.tag(a)) == PAWN);
        }
    }
}

impl BitBoard {
    /// The board `after` follows from this one by a move from `f` to `g`: `f` is left empty,
    /// and every other square but `g` holds what it held, or is empty where it held a pawn.
    pub open spec fn lifted(self, after: BitBoard, f: int, g: int) -> bool {
        &&& 0 <= f < 64 && 0 <= g < 64
        &&& after.tag(f) == 0
        &&& forall|u: int|
            0 <= u < 64 && u != g && u != f ==> #[trigger] after.tag(u) == self.tag(u) || (
            after.tag(u) == 0 && kind(self.tag(u)) == PAWN)
    }

    /// A slider that sees the king of side `side` along a clear line attacks it.
    pub proof fn lemma_line_open(self, side: bool, king: int, a: int, df: int, dr: int)
        requires
            is_dir(df, dr),
            slides_along(self.tag(a), !side, df, dr),
            sees(king, a, df, dr, self.spec_piece_mask()),
        ensures
            threatens(self, side, a, king),
    {
        lemma_sees_back(king, a, df, dr, self.spec_piece_mask());
        lemma_aligned_range(king, a, df, dr);
        lemma_dir_cases(df, dr);
    }

    /// A move that leaves the king out of check lands on the check mask.
    pub proof fn lemma_must_answer(self, after: BitBoard, side: bool, king: int, f: int, g: int)
        requires
            self.sole_king(side, king),
            self.moved_to(after, side, f, g),
            f != king,
            g != king,
            after.out_of_check(side),
        ensures
            bit(self.spec_check_mask(side), g),
    {
        let occ = self.spec_piece_mask();
        let occ2 = after.spec_piece_mask();
        self.lemma_masks(side);
        after.lemma_masks(side);
        assert(after.tag(king) == self.tag(king));
        assert(after.king_on(king, side));
        if !bit(self.spec_check_mask(side), g) {
            self.lemma_check_mask_complete(side, king, g);
            if exists|a: int|
                a != g && 0 <= a < 64 && piece_of(#[trigger] self.tag(a), !side) && ((kind(
                    self.tag(a),
                ) == KNIGHT && knight_jump(a, king)) || (kind(self.tag(a)) == PAWN && pawn_hit(
                    !side,
                    a,
                    king,
                ))) {
                let a = choose|a: int|
                    a != g && 0 <= a < 64 && piece_of(#[trigger] self.tag(a), !side) && ((kind(
                        self.tag(a),
                    ) == KNIGHT && knight_jump(a, king)) || (kind(self.tag(a)) == PAWN && pawn_hit(
                        !side,
                        a,
                        king,
                    )));
                assert(after.tag(a) == self.tag(a));
                assert(threatens(after, side, a, king));
            } else {
                let (a, df, dr) = choose|a: int, df: int, dr: int|
                    is_dir(df, dr) && slides_along(self.tag(a), !side, df, dr) && #[trigger] sees(
                        king,
                        a,
                        df,
                        dr,
                        occ,
                    ) && !sees(king, g, df, dr, occ);
                lemma_aligned_range(king, a, df, dr);
                assert(after.tag(a) == self.tag(a));
                assert forall|u: int| #[trigger] between(king, u, a, df, dr) implies !bit(
                    occ2,
                    u,
                ) by {
                    lemma_aligned_range(king, u, df, dr);
                    if u == g {
                        lemma_sees_parts(king, g, a, df, dr, occ);
                    }
                }
                after.lemma_line_open(side, king, a, df, dr);
            }
        }
    }

    /// A move that leaves the king out of check respects the pins.
    pub proof fn lemma_must_keep_pins(
        self,
        after: BitBoard,
        side: bool,
        king: int,
        f: int,
        g: int,
    )
        requires
            self.sole_king(side, king),
            self.lifted(after, f, g),
            f != king,
            g != king,
            after.out_of_check(side),
        ensures
            self.keeps_pins(side, king, f, g),
    {
        let occ = self.spec_piece_mask();
        let occ2 = after.spec_piece_mask();
        self.lemma_masks(side);
        after.lemma_masks(side);
        assert(after.tag(king) == self.tag(king));
        assert(after.king_on(king, side));
        assert forall|from: int, df: int, dr: int|
            is_dir(df, dr) && #[trigger] self.pins(side, king, f, from, df, dr) implies aligned(
            king,
            g,
            df,
            dr,
        ) && !aligned(from, g, df, dr) by {
            if !(aligned(king, g, df, dr) && !aligned(from, g, df, dr)) {
                lemma_aligned_trans(king, f, from, df, dr);
                lemma_aligned_range(f, from, df, dr);
                lemma_aligned_range(king, from, df, dr);
                self.lemma_sliders(!side, df, dr);
                if aligned(from, from, df, dr) {
                    lemma_aligned_range(from, from, df, dr);
                }
                assert(from != g);
                assert(after.tag(from) == self.tag(from));
                assert forall|u: int| #[trigger] between(king, u, from, df, dr) implies !bit(
                    occ2,
                    u,
                ) by {
                    lemma_aligned_range(king, u, df, dr);
                    if u == g {
                        if aligned(from, g, df, dr) {
                            lemma_aligned_trans(g, from, g, df, dr);
                            lemma_aligned_range(g, g, df, dr);
                        }
                    } else if u != f {
                        lemma_aligned_order(king, u, f, df, dr);
                        if aligned(u, f, df, dr) {
                            assert(between(king, u, f, df, dr));
                        } else {
                            assert(between(f, u, from, df, dr));
                        }
                    }
                }
                after.lemma_line_open(side, king, from, df, dr);
            }
        }
    }

    /// An own piece on a square of a line's pin mask is pinned along that line.
    pub proof fn lemma_pinned_piece(self, side: bool, king: int, f: int, df: int, dr: int) -> (r: (
        int,
        int,
        int,
    ))
        requires
            is_dir(df, dr),
            self.sole_king(side, king),
            0 <= f < 64,
            piece_of(self.tag(f), side),
            bit(self.line_pin_mask(side, df, dr), f),
        ensures
            same_line(r.1, r.2, df, dr),
            self.pins(side, king, f, r.0, r.1, r.2),
    {
        let occ = self.spec_piece_mask();
        self.lemma_line_pin(side, king, df, dr);
        let (f2, from, wf, wr) = choose|f2: int, from: int, wf: int, wr: int|
            same_line(wf, wr, df, dr) && #[trigger] self.pins(side, king, f2, from, wf, wr) && (
            sees(king, f, wf, wr, occ) || sees(f2, f, wf, wr, occ));
        self.lemma_masks(side);
        self.lemma_sliders(!side, wf, wr);
        if sees(king, f, wf, wr, occ) {
            lemma_first_blocker(king, f, f2, wf, wr, occ);
        } else {
            lemma_aligned_range(f2, from, wf, wr);
            lemma_first_blocker(f2, f, from, wf, wr, occ);
        }
        (from, wf, wr)
    }

    /// A piece on a line's pin mask that moves without leaving its king in check moves along
    /// that line, to a square of the mask.
    pub proof fn lemma_pinned_move(self, side: bool, king: int, f: int, g: int, df: int, dr: int)
        -> (r: (int, int))
        requires
            is_dir(df, dr),
            self.sole_king(side, king),
            0 <= f < 64,
            f != g,
            piece_of(self.tag(f), side),
            bit(self.line_pin_mask(side, df, dr), f),
            self.keeps_pins(side, king, f, g),
        ensures
            same_line(r.0, r.1, df, dr),
            aligned(f, g, r.0, r.1),
            bit(self.line_pin_mask(side, df, dr), g),
    {
        let occ = self.spec_piece_mask();
        let (from, wf, wr) = self.lemma_pinned_piece(side, king, f, df, dr);
        assert(aligned(king, g, wf, wr) && !aligned(from, g, wf, wr));
        lemma_aligned_order(king, f, g, wf, wr);
        self.lemma_line_pin(side, king, df, dr);
        let nf = -wf;
        let nr = -wr;
        if aligned(f, g, wf, wr) {
            lemma_aligned_order(f, g, from, wf, wr);
            assert(sees(f, g, wf, wr, occ)) by {
                if g != from {
                    assert(between(f, g, from, wf, wr));
                    lemma_sees_parts(f, g, from, wf, wr, occ);
                }
            }
            (wf, wr)
        } else {
            assert(between(king, g, f, wf, wr));
            lemma_sees_parts(king, g, f, wf, wr, occ);
            crate::rays::lemma_aligned_back(g, f, wf, wr);
            (nf, nr)
        }
    }
}

impl Emission {
    /// The step is one of a piece other than the king: a move or capture, a double step, a
    /// promotion or a capture en passant, from a piece of the side to move to another square
    /// on the board that holds none of its side.
    pub open spec fn of_a_piece(self) -> bool {
        let b = self.origin.board;
        let t = self.origin.turn;
        let f = self.departs();
        let g = self.lands();
        &&& f < 64 && g < 64 && f != g
        &&& piece_of(b.tag(f as int), t) && kind(b.tag(f as int)) != KING
        &&& !piece_of(b.tag(g as int), t)
        &&& match self.step {
            Step::Move { from, to } => true,
            Step::PawnPush2 { from } => true,
            Step::Promotion { from, to, piece } => piece < 16 && piece_of(piece, t),
            Step::EnPassant { from, to } => 8 <= to < 56 && kind(
                b.tag(self.origin.ranks_ahead(to as int, -1)),
            ) == PAWN,
            _ => false,
        }
    }

    /// A legal step of a piece other than the king respects the pins and, unless it is a
    /// capture en passant, lands on the check mask.
    pub proof fn lemma_piece_bound(self, king: int)
        requires
            self.origin.board.sole_king(self.origin.turn, king),
            self.of_a_piece(),
            self.board_after().out_of_check(self.origin.turn),
        ensures
            self.origin.board.keeps_pins(
                self.origin.turn,
                king,
                self.departs() as int,
                self.lands() as int,
            ),
            !(self.step is EnPassant) ==> bit(
                self.origin.board.spec_check_mask(self.origin.turn),
                self.lands() as int,
            ),
    {
        let b = self.origin.board;
        let t = self.origin.turn;
        let after = self.board_after();
        let f = self.departs();
        let g = self.lands();
        match self.step {
            Step::Promotion { from, to, piece } => {
                b.lemma_cleared(from);
                b.cleared(from).lemma_placed(to, piece);
                assert forall|u: int| 0 <= u < 64 implies after.tag(u) == (if u == to {
                    piece
                } else if u == from {
                    0u8
                } else {
                    b.tag(u)
                }) by {
                    assert(after@[u] == after.tag(u));
                    assert(b.cleared(from)@[u] == b.cleared(from).tag(u));
                    assert(b@[u] == b.tag(u));
                }
                b.lemma_must_answer(after, t, king, f as int, g as int);
            },
            Step::EnPassant { from, to } => {
                let v = self.origin.ranks_ahead(to as int, -1) as u8;
                b.lemma_moved_tags(from, to);
                let mid = b.moved(from, to);
                mid.lemma_cleared(v);
                assert forall|u: int| 0 <= u < 64 implies after.tag(u) == (if u == from || u
                    == v {
                    0u8
                } else if u == to {
                    b.tag(from as int)
                } else {
                    b.tag(u)
                }) by {
                    assert(after@[u] == after.tag(u));
                    assert(mid@[u] == mid.tag(u));
                }
            },
            _ => {
                b.lemma_moved_tags(f, g);
                b.lemma_must_answer(after, t, king, f as int, g as int);
            },
        }
        b.lemma_must_keep_pins(after, t, king, f as int, g as int);
    }
}

impl BitBoard {
    /// A piece that moves off a line without leaving its king in check is not on the pin
    /// mask of that line.
    pub proof fn lemma_off_line(self, side: bool, king: int, f: int, g: int, df: int, dr: int)
        requires
            is_dir(df, dr),
            self.sole_king(side, king),
            0 <= f < 64,
            f != g,
            piece_of(self.tag(f), side),
            self.keeps_pins(side, king, f, g),
            !aligned(f, g, df, dr),
            !aligned(f, g, -df, -dr),
        ensures
            !bit(self.line_pin_mask(side, df, dr), f),
    {
        if bit(self.line_pin_mask(side, df, dr), f) {
            let w = self.lemma_pinned_move(side, king, f, g, df, dr);
        }
    }

    /// A piece that moves along a direction without leaving its king in check is on no pin
    /// mask but that of the line it moves along; if it is on that, so is the square it
    /// moves to.
    pub proof fn lemma_along_line(self, side: bool, king: int, f: int, g: int, vf: int, vr: int)
        requires
            is_dir(vf, vr),
            self.sole_king(side, king),
            piece_of(self.tag(f), side),
            self.keeps_pins(side, king, f, g),
            aligned(f, g, vf, vr),
        ensures
            forall|df: int, dr: int|
                is_dir(df, dr) && !same_line(df, dr, vf, vr) ==> !#[trigger] bit(
                    self.line_pin_mask(side, df, dr),
                    f,
                ),
            bit(self.line_pin_mask(side, vf, vr), f) ==> bit(self.line_pin_mask(side, vf, vr), g),
    {
        lemma_aligned_range(f, g, vf, vr);
        assert forall|df: int, dr: int|
            is_dir(df, dr) && !same_line(df, dr, vf, vr) implies !#[trigger] bit(
            self.line_pin_mask(side, df, dr),
            f,
        ) by {
            let nf = -df;
            let nr = -dr;
            if aligned(f, g, df, dr) {
                lemma_one_direction(f, g, df, dr, vf, vr);
            }
            if aligned(f, g, nf, nr) {
                lemma_one_direction(f, g, nf, nr, vf, vr);
            }
            self.lemma_off_line(side, king, f, g, df, dr);
        }
        if bit(self.line_pin_mask(side, vf, vr), f) {
            let w = self.lemma_pinned_move(side, king, f, g, vf, vr);
        }
    }
}

impl Origin {
    /// A move to a square of `targets` is among the moves from `from` to the squares of
    /// `targets`.
    proof fn lemma_quiet_listed(self, from: u8, targets: u64, to: u8)
        requires
            bit(targets, to as int),
        ensures
            each(targets, self.quiet_gen(from)).contains(self.emit(Step::Move { from, to })),
    {
        let g = self.quiet_gen(from);
        assert(g(to)[0] == self.emit(Step::Move { from, to }));
        lemma_each_contains(targets, g, to, self.emit(Step::Move { from, to }));
    }

    /// What the base mask holds: the squares of the check mask that hold no piece of the side
    /// to move.
    proof fn lemma_base_has(self, to: int)
        requires
            0 <= to < 64,
            !piece_of(self.board.tag(to), self.turn),
            bit(self.board.spec_check_mask(self.turn), to),
        ensures
            bit(self.base_mask(), to),
    {
        self.board.lemma_masks(self.turn);
        lemma_bit_and(
            self.board.spec_enemy_or_empty(self.turn),
            self.board.spec_check_mask(self.turn),
            to,
        );
    }

    /// A legal knight move is among the knight moves.
    pub proof fn lemma_knight_listed(self, king: int, from: u8, to: u8)
        requires
            self.board.sole_king(self.turn, king),
            self.emit(Step::Move { from, to }).of_a_piece(),
            self.emit(Step::Move { from, to }).board_after().out_of_check(self.turn),
            kind(self.board.tag(from as int)) == KNIGHT,
            knight_jump(from as int, to as int),
        ensures
            self.knight_emissions().contains(self.emit(Step::Move { from, to })),
    {
        let b = self.board;
        let t = self.turn;
        let e = self.emit(Step::Move { from, to });
        let f = from as int;
        let g = to as int;
        e.lemma_piece_bound(king);
        assert(!aligned(f, g, 1, 0) && !aligned(f, g, -1, 0) && !aligned(f, g, 0, 1) && !aligned(
            f,
            g,
            0,
            -1,
        ) && !aligned(f, g, 1, 1) && !aligned(f, g, -1, -1) && !aligned(f, g, 1, -1) && !aligned(
            f,
            g,
            -1,
            1,
        )) by {
            reveal(aligned);
        }
        b.lemma_off_line(t, king, f, g, 1, 0);
        b.lemma_off_line(t, king, f, g, 0, 1);
        b.lemma_off_line(t, king, f, g, 1, 1);
        b.lemma_off_line(t, king, f, g, 1, -1);
        b.lemma_masks(t);
        let sources = self.knight_sources();
        assert(bit(sources, f)) by {
            broadcast use lemma_bit_and, lemma_bit_or, lemma_bit_not;

        }
        let targets = knight_fan(1u64 << from) & self.base_mask();
        assert(bit(targets, g)) by {
            lemma_knight_fan(1u64 << from);
            lemma_bit_single(from, f);
            self.lemma_base_has(g);
            lemma_bit_and(knight_fan(1u64 << from), self.base_mask(), g);
        }
        self.lemma_quiet_listed(from, targets, to);
        lemma_each_contains(sources, self.knight_gen(), from, e);
    }

    /// A legal move of a bishop, rook or queen along a line of sight is among the diagonal
    /// moves where the line is a diagonal, among the orthogonal moves where it is not.
    pub proof fn lemma_slide_listed(self, king: int, from: u8, to: u8, vf: int, vr: int)
        requires
            self.board.sole_king(self.turn, king),
            self.emit(Step::Move { from, to }).of_a_piece(),
            self.emit(Step::Move { from, to }).board_after().out_of_check(self.turn),
            is_dir(vf, vr),
            slides_along(self.board.tag(from as int), self.turn, vf, vr),
            sees(from as int, to as int, vf, vr, self.board.spec_piece_mask()),
        ensures
            slanted(vf, vr) ==> self.diagonal_emissions().contains(
                self.emit(Step::Move { from, to }),
            ),
            !slanted(vf, vr) ==> self.ortho_emissions().contains(
                self.emit(Step::Move { from, to }),
            ),
    {
        let b = self.board;
        let t = self.turn;
        let occ = b.spec_piece_mask();
        let e = self.emit(Step::Move { from, to });
        let f = from as int;
        let g = to as int;
        e.lemma_piece_bound(king);
        b.lemma_along_line(t, king, f, g, vf, vr);
        b.lemma_masks(t);
        self.lemma_base_has(g);
        lemma_dir_cases(vf, vr);
        lemma_bit_single(from, f);
        let hor = b.spec_hor_pin_mask(t);
        let vert = b.spec_vert_pin_mask(t);
        let lr = b.spec_lr_pin_mask(t);
        let rl = b.spec_rl_pin_mask(t);
        assert(hor == b.line_pin_mask(t, 1, 0));
        assert(vert == b.line_pin_mask(t, 0, 1));
        assert(rl == b.line_pin_mask(t, 1, 1));
        assert(lr == b.line_pin_mask(t, 1, -1));
        let own = b.line_pin_mask(t, vf, vr);
        lemma_bit_or(hor, vert, f);
        lemma_bit_or(lr, rl, f);
        lemma_bit_or(hor, vert, g);
        lemma_bit_or(lr, rl, g);
        let ortho_pins = b.spec_ortho_pin_mask(t);
        let diag_pins = b.spec_diagonal_pin_mask(t);
        if slanted(vf, vr) {
            assert(is_dir(1, 0) && !same_line(1, 0, vf, vr));
            assert(is_dir(0, 1) && !same_line(0, 1, vf, vr));
            assert(!bit(ortho_pins, f));
            let rays = diagonal_rays(1u64 << from, occ);
            lemma_diagonal_rays(1u64 << from, occ);
            assert(sees_diagonally(f, g, occ));
            assert(bit(rays, g));
            let pieces = b.spec_col_diagonal_mask(t);
            if bit(diag_pins, f) {
                if vf == vr {
                    assert(is_dir(1, -1) && !same_line(1, -1, vf, vr));
                } else {
                    assert(is_dir(1, 1) && !same_line(1, 1, vf, vr));
                }
                assert(bit(own, f));
                assert(bit(diag_pins, g));
                let targets = rays & self.base_mask() & diag_pins;
                assert(bit(targets, g)) by {
                    broadcast use lemma_bit_and;

                }
                lemma_bit_and(pieces, diag_pins, f);
                self.lemma_quiet_listed(from, targets, to);
                lemma_each_contains(
                    self.diagonal_pinned_sources(),
                    self.diagonal_pinned_gen(),
                    from,
                    e,
                );
                lemma_joined(
                    each(self.diagonal_free_sources(), self.diagonal_free_gen()),
                    each(self.diagonal_pinned_sources(), self.diagonal_pinned_gen()),
                    e,
                );
            } else {
                let targets = rays & self.base_mask();
                lemma_bit_and(rays, self.base_mask(), g);
                assert(bit(self.diagonal_free_sources(), f)) by {
                    broadcast use lemma_bit_and, lemma_bit_not;

                }
                self.lemma_quiet_listed(from, targets, to);
                lemma_each_contains(
                    self.diagonal_free_sources(),
                    self.diagonal_free_gen(),
                    from,
                    e,
                );
                lemma_joined(
                    each(self.diagonal_free_sources(), self.diagonal_free_gen()),
                    each(self.diagonal_pinned_sources(), self.diagonal_pinned_gen()),
                    e,
                );
            }
        } else {
            assert(is_dir(1, 1) && !same_line(1, 1, vf, vr));
            assert(is_dir(1, -1) && !same_line(1, -1, vf, vr));
            assert(!bit(diag_pins, f));
            let rays = ortho_rays(1u64 << from, occ);
            lemma_ortho_rays(1u64 << from, occ);
            assert(sees_straight(f, g, occ));
            assert(bit(rays, g));
            let pieces = b.spec_col_ortho_mask(t);
            if bit(ortho_pins, f) {
                if vr == 0 {
                    assert(is_dir(0, 1) && !same_line(0, 1, vf, vr));
                } else {
                    assert(is_dir(1, 0) && !same_line(1, 0, vf, vr));
                }
                assert(bit(own, f));
                assert(bit(ortho_pins, g));
                let targets = rays & self.base_mask() & ortho_pins;
                assert(bit(targets, g)) by {
                    broadcast use lemma_bit_and;

                }
                lemma_bit_and(pieces, ortho_pins, f);
                self.lemma_quiet_listed(from, targets, to);
                lemma_each_contains(
                    self.ortho_pinned_sources(),
                    self.ortho_pinned_gen(),
                    from,
                    e,
                );
                lemma_joined(
                    each(self.ortho_free_sources(), self.ortho_free_gen()),
                    each(self.ortho_pinned_sources(), self.ortho_pinned_gen()),
                    e,
                );
            } else {
                let targets = rays & self.base_mask();
                lemma_bit_and(rays, self.base_mask(), g);
                assert(bit(self.ortho_free_sources(), f)) by {
                    broadcast use lemma_bit_and, lemma_bit_not;

                }
                self.lemma_quiet_listed(from, targets, to);
                lemma_each_contains(self.ortho_free_sources(), self.ortho_free_gen(), from, e);
                lemma_joined(
                    each(self.ortho_free_sources(), self.ortho_free_gen()),
                    each(self.ortho_pinned_sources(), self.ortho_pinned_gen()),
                    e,
                );
            }
        }
    }
}

impl Origin {
    /// The step is the one that a pawn's single step or capture from `from` to `to` gives:
    /// the move, or before the last rank a promotion to a knight, bishop, rook or queen of
    /// the side to move.
    pub open spec fn advances(self, from: u8, to: u8, step: Step) -> bool {
        match step {
            Step::Move { from: f, to: g } => f == from && g == to && !self.promotes(from),
            Step::Promotion { from: f, to: g, piece } => f == from && g == to && self.promotes(
                from,
            ) && piece < 16 && piece_of(piece, self.turn) && (kind(piece) == KNIGHT || kind(piece)
                == BISHOP || kind(piece) == ROOK || kind(piece) == QUEEN),
            _ => false,
        }
    }

    /// Such a step is among what the single step or capture gives.
    proof fn lemma_advance_has(self, from: u8, to: u8, step: Step)
        requires
            self.advances(from, to, step),
        ensures
            self.advance(from, to).contains(self.emit(step)),
    {
        let a = self.advance(from, to);
        match step {
            Step::Promotion { from: f, to: g, piece } => {
                let k = kind(piece);
                let j = if k == KNIGHT {
                    0int
                } else if k == BISHOP {
                    1
                } else if k == ROOK {
                    2
                } else {
                    3
                };
                assert(a[j] == self.emit(step));
            },
            _ => {
                assert(a[0] == self.emit(step));
            },
        }
    }

    /// A legal single step of a pawn is among the pawn moves.
    proof fn lemma_push_listed(self, king: int, from: u8, to: u8, step: Step)
        requires
            self.board.sole_king(self.turn, king),
            self.emit(step).of_a_piece(),
            self.emit(step).board_after().out_of_check(self.turn),
            self.advances(from, to, step),
            kind(self.board.tag(from as int)) == PAWN,
            to == self.ranks_ahead(from as int, 1),
            vacant(self.board, to as int),
        ensures
            each(self.push_sources(), self.push_gen()).contains(self.emit(step)),
    {
        let b = self.board;
        let t = self.turn;
        let e = self.emit(step);
        let f = from as int;
        let g = to as int;
        let vr = if t {
            1int
        } else {
            -1
        };
        e.lemma_piece_bound(king);
        assert(aligned(f, g, 0, vr)) by {
            reveal(aligned);
        }
        b.lemma_along_line(t, king, f, g, 0, vr);
        b.lemma_masks(t);
        assert(b.spec_hor_pin_mask(t) == b.line_pin_mask(t, 1, 0));
        assert(b.spec_rl_pin_mask(t) == b.line_pin_mask(t, 1, 1));
        assert(b.spec_lr_pin_mask(t) == b.line_pin_mask(t, 1, -1));
        assert(is_dir(1, 0) && !same_line(1, 0, 0, vr));
        assert(is_dir(1, 1) && !same_line(1, 1, 0, vr));
        assert(is_dir(1, -1) && !same_line(1, -1, 0, vr));
        assert(bit(self.push_sources(), f)) by {
            broadcast use group_bit;

        }
        assert(self.ahead(from, 8) == to);
        self.lemma_advance_has(from, to, step);
        lemma_each_contains(self.push_sources(), self.push_gen(), from, e);
    }

    /// A legal double step of a pawn is among the pawn moves.
    proof fn lemma_push2_listed(self, king: int, from: u8)
        requires
            self.board.sole_king(self.turn, king),
            from < 64,
            piece_of(self.board.tag(from as int), self.turn),
            kind(self.board.tag(from as int)) == PAWN,
            from / 8 == (if self.turn {
                1int
            } else {
                6
            }),
            vacant(self.board, self.ranks_ahead(from as int, 1)),
            vacant(self.board, self.ranks_ahead(from as int, 2)),
            self.emit(Step::PawnPush2 { from }).board_after().out_of_check(self.turn),
        ensures
            each(self.push2_sources(), self.push2_gen()).contains(
                self.emit(Step::PawnPush2 { from }),
            ),
    {
        let b = self.board;
        let t = self.turn;
        let e = self.emit(Step::PawnPush2 { from });
        let f = from as int;
        let g = e.lands() as int;
        let vr = if t {
            1int
        } else {
            -1
        };
        assert(g == self.ranks_ahead(f, 2));
        e.lemma_piece_bound(king);
        assert(aligned(f, g, 0, vr)) by {
            reveal(aligned);
        }
        b.lemma_along_line(t, king, f, g, 0, vr);
        b.lemma_masks(t);
        assert(b.spec_hor_pin_mask(t) == b.line_pin_mask(t, 1, 0));
        assert(b.spec_rl_pin_mask(t) == b.line_pin_mask(t, 1, 1));
        assert(b.spec_lr_pin_mask(t) == b.line_pin_mask(t, 1, -1));
        assert(is_dir(1, 0) && !same_line(1, 0, 0, vr));
        assert(is_dir(1, 1) && !same_line(1, 1, 0, vr));
        assert(is_dir(1, -1) && !same_line(1, -1, 0, vr));
        lemma_bit_ranks(f);
        assert(bit(self.push2_sources(), f)) by {
            broadcast use group_bit;

        }
        let gen = self.push2_gen();
        assert(gen(from)[0] == e);
        lemma_each_contains(self.push2_sources(), gen, from, e);
    }

    /// The pawns that may capture `d` squares ahead, pawn by pawn.
    proof fn lemma_capture_source(self, ep: Option<u8>, d: u8, from: u8)
        requires
            d == 7 || d == 9,
            if self.turn {
                8 <= from + d < 64
            } else {
                d <= from < 56 + d
            },
            from % 8 != (if (d == 7) == self.turn {
                0int
            } else {
                7int
            }),
            bit(self.pawn_enemy(ep), self.ahead(from, d) as int),
            bit(self.board.spec_col_pawn_mask(self.turn), from as int),
            !bit(self.board.spec_ortho_pin_mask(self.turn), from as int),
            !bit(
                if d == 7 {
                    self.board.spec_rl_pin_mask(self.turn)
                } else {
                    self.board.spec_lr_pin_mask(self.turn)
                },
                from as int,
            ),
        ensures
            bit(self.capture_sources(ep, d), from as int),
    {
        broadcast use group_bit;

    }

    /// A legal capture by a pawn, `d` squares ahead, is among the pawn moves; so is a legal
    /// capture en passant that does not open the rank and whose captured pawn is on the
    /// check mask.
    proof fn lemma_capture_listed(
        self,
        king: int,
        ep: Option<u8>,
        d: u8,
        from: u8,
        to: u8,
        step: Step,
    )
        requires
            self.board.sole_king(self.turn, king),
            self.emit(step).of_a_piece(),
            self.emit(step).board_after().out_of_check(self.turn),
            kind(self.board.tag(from as int)) == PAWN,
            pawn_hit(self.turn, from as int, to as int),
            d == 7 || d == 9,
            to == self.ranks_ahead(from as int, 1) + (if self.turn {
                d - 8
            } else {
                8 - d
            }),
            (self.advances(from, to, step) && piece_of(self.board.tag(to as int), !self.turn)) || (
            step == (Step::EnPassant { from, to }) && ep == Some(to) && vacant(
                self.board,
                to as int,
            ) && self.ep_open() && bit(
                self.board.spec_check_mask(self.turn),
                self.ranks_ahead(to as int, -1),
            )),
        ensures
            each(self.capture_sources(ep, d), self.capture_gen(d)).contains(self.emit(step)),
    {
        let b = self.board;
        let t = self.turn;
        let e = self.emit(step);
        let f = from as int;
        let g = to as int;
        let vr = if t {
            1int
        } else {
            -1
        };
        let vf = if (d == 7) == t {
            -1int
        } else {
            1
        };
        e.lemma_piece_bound(king);
        lemma_pawn_hit_offsets(t, f, g);
        assert(f == 8 * (f / 8) + f % 8 && g == 8 * (g / 8) + g % 8);
        assert(aligned(f, g, vf, vr)) by {
            reveal(aligned);
        }
        b.lemma_along_line(t, king, f, g, vf, vr);
        b.lemma_masks(t);
        b.lemma_masks(!t);
        assert(b.spec_hor_pin_mask(t) == b.line_pin_mask(t, 1, 0));
        assert(b.spec_vert_pin_mask(t) == b.line_pin_mask(t, 0, 1));
        assert(b.spec_rl_pin_mask(t) == b.line_pin_mask(t, 1, 1));
        assert(b.spec_lr_pin_mask(t) == b.line_pin_mask(t, 1, -1));
        assert(is_dir(1, 0) && !same_line(1, 0, vf, vr));
        assert(is_dir(0, 1) && !same_line(0, 1, vf, vr));
        if d == 7 {
            assert(is_dir(1, 1) && !same_line(1, 1, vf, vr));
        } else {
            assert(is_dir(1, -1) && !same_line(1, -1, vf, vr));
        }
        assert(self.ahead(from, d) == to);
        assert(bit(self.pawn_enemy(ep), g)) by {
            lemma_bit_or(
                b.spec_col_piece_mask(!t) & b.spec_check_mask(t),
                crate::bit_board::generate::ep_bit(ep),
                g,
            );
            lemma_bit_and(b.spec_col_piece_mask(!t), b.spec_check_mask(t), g);
            lemma_bit_single(to, g);
        }
        lemma_bit_or(b.spec_hor_pin_mask(t), b.spec_vert_pin_mask(t), f);
        self.lemma_capture_source(ep, d, from);
        let gen = self.capture_gen(d);
        if step == (Step::EnPassant { from, to }) {
            assert(self.victim(from, d) as int == self.ranks_ahead(g, -1));
            assert(gen(from)[0] == e);
        } else {
            self.lemma_advance_has(from, to, step);
        }
        lemma_each_contains(self.capture_sources(ep, d), gen, from, e);
    }
}

/// The one square that a shifted king mask off an edge file can hold, by the shift.
proof fn lemma_near_square(king: u8, g: int)
    requires
        king < 64,
    ensures
        bit(!LEFT_SIDE & ((1u64 << king) >> 1u8), g) ==> g == king - 1 && g % 8 != 7,
        bit(!RIGHT_SIDE & ((1u64 << king) << 1u8), g) ==> g == king + 1 && g % 8 != 0,
        bit((1u64 << king) >> 8u8, g) ==> g == king - 8 && g >= 0,
        bit((1u64 << king) << 8u8, g) ==> g == king + 8 && g < 64,
        bit(!LEFT_SIDE & ((1u64 << king) >> 9u8), g) ==> g == king - 9 && g % 8 != 7 && g >= 0,
        bit(!RIGHT_SIDE & ((1u64 << king) << 9u8), g) ==> g == king + 9 && g % 8 != 0 && g < 64,
        bit(!RIGHT_SIDE & ((1u64 << king) >> 7u8), g) ==> g == king - 7 && g % 8 != 0 && g >= 0,
        bit(!LEFT_SIDE & ((1u64 << king) << 7u8), g) ==> g == king + 7 && g % 8 != 7 && g < 64,
{
    broadcast use group_bit;

}

/// The squares `near` the king on a line are one step from it along the line, one way or
/// the other.
proof fn lemma_near_only(king: u8, df: int, dr: int, g: int)
    requires
        king < 64,
        is_dir(df, dr),
        bit(near(1u64 << king, df, dr), g),
    ensures
        one_step(king as int, g, df, dr) || one_step(king as int, g, -df, -dr),
{
    let k = king as int;
    let kings = 1u64 << king;
    lemma_near_square(king, g);
    lemma_dir_cases(df, dr);
    if dr == 0 {
        lemma_bit_or(!LEFT_SIDE & (kings >> 1u8), !RIGHT_SIDE & (kings << 1u8), g);
    } else if df == 0 {
        lemma_bit_or(kings >> 8u8, kings << 8u8, g);
    } else if df == dr {
        lemma_bit_or(!LEFT_SIDE & (kings >> 9u8), !RIGHT_SIDE & (kings << 9u8), g);
    } else {
        lemma_bit_or(!RIGHT_SIDE & (kings >> 7u8), !LEFT_SIDE & (kings << 7u8), g);
    }
    assert(0 <= g < 64);
    assert(k == 8 * (k / 8) + k % 8 && g == 8 * (g / 8) + g % 8);
}

impl BitBoard {
    /// A check ray that is not the full board comes with a slider that the king sees along
    /// the ray's direction.
    proof fn lemma_ray_attacker(self, side: bool, king: int, df: int, dr: int) -> (a: int)
        requires
            is_dir(df, dr),
            self.sole_king(side, king),
            check_ray(
                1u64 << (king as u8),
                fill_of(df, dr).0,
                self.spec_piece_mask(),
                fill_of(df, dr).1,
                fill_of(df, dr).2,
                self.sliders(!side, df, dr),
            ) != u64::MAX,
        ensures
            slides_along(self.tag(a), !side, df, dr),
            sees(king, a, df, dr, self.spec_piece_mask()),
    {
        let occ = self.spec_piece_mask();
        let way = fill_of(df, dr);
        let others = self.sliders(!side, df, dr);
        let ray = slide(1u64 << (king as u8), way.0, occ, way.1, way.2);
        lemma_fill_of(df, dr);
        lemma_slide_sees(king as u8, way.0, occ, way.1, way.2, df, dr);
        assert(ray & others != 0);
        lemma_lowest(ray & others);
        let a = vstd::std_specs::bits::u64_trailing_zeros(ray & others) as int;
        lemma_bit_and(ray, others, a);
        self.lemma_sliders(!side, df, dr);
        a
    }

    /// A line's check mask that is not the full board comes with a slider that the king sees
    /// along the line, one way or the other.
    proof fn lemma_line_attacker(self, side: bool, king: int, df: int, dr: int) -> (r: (
        int,
        int,
        int,
    ))
        requires
            is_dir(df, dr),
            self.sole_king(side, king),
            self.line_check_mask(side, df, dr) != u64::MAX,
        ensures
            same_line(r.1, r.2, df, dr),
            slides_along(self.tag(r.0), !side, r.1, r.2),
            sees(king, r.0, r.1, r.2, self.spec_piece_mask()),
    {
        let nf = -df;
        let nr = -dr;
        let occ = self.spec_piece_mask();
        let kings = 1u64 << (king as u8);
        self.lemma_sole_king(side, king);
        let others = self.sliders(!side, df, dr);
        assert(others == self.sliders(!side, nf, nr));
        let one = fill_of(df, dr);
        let two = fill_of(nf, nr);
        let ahead = check_ray(kings, one.0, occ, one.1, one.2, others);
        let behind = check_ray(kings, two.0, occ, two.1, two.2, others);
        let line = self.line_check_mask(side, df, dr);
        lemma_dir_cases(df, dr);
        assert(line == ahead & behind || line == behind & ahead);
        if ahead == u64::MAX && behind == u64::MAX {
            assert forall|i: int| 0 <= i < 64 implies bit(line, i) == bit(u64::MAX, i) by {
                lemma_bit_and(ahead, behind, i);
                lemma_bit_and(behind, ahead, i);
            }
            lemma_bits_equal(line, u64::MAX);
        }
        if ahead != u64::MAX {
            let a = self.lemma_ray_attacker(side, king, df, dr);
            (a, df, dr)
        } else {
            let a = self.lemma_ray_attacker(side, king, nf, nr);
            (a, nf, nr)
        }
    }

    /// A square that a piece of the other side attacks is still attacked when the king has
    /// stepped onto it.
    proof fn lemma_attack_stays(self, after: BitBoard, side: bool, king: int, g: int, a: int)
        requires
            self.moved_to(after, side, king, g),
            kind(after.tag(g)) == KING,
            attacks(self, !side, a, g),
        ensures
            threatens(after, side, a, g),
    {
        let occ = self.spec_piece_mask();
        let occ2 = after.spec_piece_mask();
        self.lemma_masks(side);
        after.lemma_masks(side);
        let k = kind(self.tag(a));
        if a == g {
            if sees_diagonally(a, g, occ) || sees_straight(a, g, occ) {
                let d = lemma_slider_dir(self, !side, a, g);
                lemma_aligned_range(a, g, d.0, d.1);
            }
        }
        assert(after.tag(a) == self.tag(a));
        if !(k == PAWN && pawn_hit(!side, a, g)) && !(k == KNIGHT && knight_jump(a, g)) && !(k
            == KING && king_step(a, g)) {
            let d = lemma_slider_dir(self, !side, a, g);
            assert forall|u: int| #[trigger] between(a, u, g, d.0, d.1) implies !bit(occ2, u) by {
                lemma_aligned_range(u, g, d.0, d.1);
            }
            lemma_sees_back(a, g, d.0, d.1, occ2);
            let nf = -d.0;
            let nr = -d.1;
            assert(slides_along(after.tag(a), !side, nf, nr));
            after.lemma_line_open(side, g, a, nf, nr);
        }
    }

    /// The king that steps along a line on which a slider checks it, onto a square that
    /// holds no slider of that line, is in check there.
    proof fn lemma_retreat_fails(
        self,
        after: BitBoard,
        side: bool,
        king: int,
        g: int,
        a: int,
        df: int,
        dr: int,
    )
        requires
            is_dir(df, dr),
            self.sole_king(side, king),
            self.moved_to(after, side, king, g),
            slides_along(self.tag(a), !side, df, dr),
            sees(king, a, df, dr, self.spec_piece_mask()),
            one_step(king, g, df, dr) || one_step(king, g, -df, -dr),
            !slides_along(self.tag(g), !side, df, dr),
        ensures
            threatens(after, side, a, g),
    {
        let occ = self.spec_piece_mask();
        let occ2 = after.spec_piece_mask();
        let nf = -df;
        let nr = -dr;
        self.lemma_masks(side);
        after.lemma_masks(side);
        lemma_aligned_range(king, a, df, dr);
        assert(a != g);
        assert(after.tag(a) == self.tag(a));
        lemma_step_aligned(king, g, df, dr);
        lemma_step_aligned(king, g, nf, nr);
        if one_step(king, g, df, dr) {
            lemma_aligned_order(king, g, a, df, dr);
            assert(between(king, g, a, df, dr));
            lemma_sees_parts(king, g, a, df, dr, occ);
            assert forall|u: int| #[trigger] between(g, u, a, df, dr) implies !bit(occ2, u) by {
                lemma_aligned_range(g, u, df, dr);
                lemma_aligned_trans(king, g, u, df, dr);
                lemma_aligned_range(king, u, df, dr);
            }
        } else {
            lemma_aligned_back(king, g, nf, nr);
            assert(aligned(g, king, df, dr));
            lemma_aligned_trans(g, king, a, df, dr);
            assert forall|u: int| #[trigger] between(g, u, a, df, dr) implies !bit(occ2, u) by {
                lemma_aligned_range(g, u, df, dr);
                if u != king {
                    lemma_aligned_order(g, king, u, df, dr);
                    lemma_aligned_range(g, u, df, dr);
                    assert(between(king, u, a, df, dr));
                }
            }
        }
        after.lemma_line_open(side, g, a, df, dr);
    }
}

impl Origin {
    /// A legal step of the king goes to one of the king's targets.
    pub proof fn lemma_king_target_has(self, king: int, to: u8)
        requires
            self.board.sole_king(self.turn, king),
            to < 64,
            king_step(king, to as int),
            !piece_of(self.board.tag(to as int), self.turn),
            self.emit(Step::KingMove { from: king as u8, to }).board_after().out_of_check(
                self.turn,
            ),
        ensures
            bit(self.king_targets(), to as int),
    {
        let b = self.board;
        let t = self.turn;
        let g = to as int;
        let from = king as u8;
        let after = b.moved(from, to);
        let kings = b.spec_col_king_mask(t);
        b.lemma_sole_king(t, king);
        b.lemma_masks(t);
        b.lemma_moved_tags(from, to);
        assert(b.moved_to(after, t, king, g));
        assert(after.king_on(g, t));
        lemma_bit_single(from, king);
        lemma_king_fan(kings);
        assert(bit(king_fan(kings), g));
        let other = !t;
        b.lemma_attack_mask(other);
        if bit(b.spec_attack_mask(other), g) {
            let a = choose|a: int| attacks(b, other, a, g);
            b.lemma_attack_stays(after, t, king, g, a);
        }
        self.lemma_no_retreat(king, to, 1, 0);
        self.lemma_no_retreat(king, to, 0, 1);
        self.lemma_no_retreat(king, to, 1, -1);
        self.lemma_no_retreat(king, to, 1, 1);
        assert(b.sliders(!t, 1, 0) == b.spec_col_ortho_mask(!t));
        assert(b.sliders(!t, 0, 1) == b.spec_col_ortho_mask(!t));
        assert(b.sliders(!t, 1, 1) == b.spec_col_diagonal_mask(!t));
        assert(b.sliders(!t, 1, -1) == b.spec_col_diagonal_mask(!t));
        assert(bit(self.king_targets(), g)) by {
            broadcast use lemma_bit_and, lemma_bit_not;

        }
    }

    /// A legal step of the king does not go where the king may not retreat to.
    proof fn lemma_no_retreat(self, king: int, to: u8, df: int, dr: int)
        requires
            is_dir(df, dr),
            self.board.sole_king(self.turn, king),
            to < 64,
            king != to,
            !piece_of(self.board.tag(to as int), self.turn),
            self.emit(Step::KingMove { from: king as u8, to }).board_after().out_of_check(
                self.turn,
            ),
        ensures
            !bit(
                retreat(
                    self.board.line_check_mask(self.turn, df, dr),
                    near(self.board.spec_col_king_mask(self.turn), df, dr),
                    self.board.sliders(!self.turn, df, dr),
                ),
                to as int,
            ),
    {
        let b = self.board;
        let t = self.turn;
        let g = to as int;
        let from = king as u8;
        let after = b.moved(from, to);
        let line = b.line_check_mask(t, df, dr);
        let squares = near(b.spec_col_king_mask(t), df, dr);
        let others = b.sliders(!t, df, dr);
        b.lemma_sole_king(t, king);
        b.lemma_masks(t);
        b.lemma_moved_tags(from, to);
        assert(b.moved_to(after, t, king, g));
        assert(after.king_on(g, t));
        lemma_bit_zero(g);
        if line != u64::MAX && bit(squares & !others, g) {
            lemma_bit_and(squares, !others, g);
            lemma_bit_not(others, g);
            b.lemma_sliders(!t, df, dr);
            let c = b.lemma_line_attacker(t, king, df, dr);
            lemma_near_only(from, df, dr, g);
            assert(!slides_along(b.tag(g), !t, c.1, c.2));
            b.lemma_retreat_fails(after, t, king, g, c.0, c.1, c.2);
        }
    }

    /// What the rules ask of castling is what the generator asks of it.
    pub proof fn lemma_castle_listed(self, kingside: bool, ep: Option<u8>)
        requires
            self.movable(
                if kingside {
                    Step::KsCastle
                } else {
                    Step::QsCastle
                },
                ep,
            ),
        ensures
            self.may_castle(kingside),
    {
        let b = self.board;
        let t = self.turn;
        let empty = !b.spec_piece_mask();
        let safe = !b.spec_attack_mask(!t);
        let home: u8 = if t {
            0
        } else {
            56
        };
        let other = !t;
        b.lemma_masks(t);
        b.lemma_attack_mask(other);
        lemma_castle_masks(empty, home);
        lemma_castle_masks(safe, home);
        assert forall|q: int| 0 <= q < 64 && safe_at(b, t, q) implies bit(safe, q) by {
            lemma_bit_not(b.spec_attack_mask(other), q);
            if bit(b.spec_attack_mask(other), q) {
                let a = choose|a: int| attacks(b, other, a, q);
                assert(threatens(b, t, a, q));
            }
        }
        assert forall|q: int| vacant(b, q) implies bit(empty, q) by {
            lemma_bit_not(b.spec_piece_mask(), q);
        }
    }
}

impl Origin {
    /// What is among the moves of one kind of piece is among the emissions.
    proof fn lemma_lane_listed(self, ep: Option<u8>, e: Emission)
        requires
            self.pawn_emissions(ep).contains(e) || self.knight_emissions().contains(e)
                || self.diagonal_emissions().contains(e) || self.ortho_emissions().contains(e)
                || self.king_emissions().contains(e),
        ensures
            self.emissions(ep).contains(e),
    {
        let pawns = self.pawn_emissions(ep);
        let knights = self.knight_emissions();
        let diagonals = self.diagonal_emissions();
        let straights = self.ortho_emissions();
        let kings = self.king_emissions();
        if pawns.contains(e) || knights.contains(e) {
            lemma_joined(pawns, knights, e);
        }
        if (pawns + knights).contains(e) || diagonals.contains(e) {
            lemma_joined(pawns + knights, diagonals, e);
        }
        if (pawns + knights + diagonals).contains(e) || straights.contains(e) {
            lemma_joined(pawns + knights + diagonals, straights, e);
        }
        lemma_joined(pawns + knights + diagonals + straights, kings, e);
    }

    /// A legal step or capture of a pawn, promotions included, is among the pawn moves.
    proof fn lemma_pawn_goes_listed(
        self,
        king: int,
        ep: Option<u8>,
        from: u8,
        to: u8,
        step: Step,
    )
        requires
            self.board.sole_king(self.turn, king),
            from < 64 && to < 64,
            piece_of(self.board.tag(from as int), self.turn),
            kind(self.board.tag(from as int)) == PAWN,
            !piece_of(self.board.tag(to as int), self.turn),
            self.pawn_goes(from as int, to as int),
            self.advances(from, to, step),
            self.emit(step).board_after().out_of_check(self.turn),
        ensures
            self.pawn_emissions(ep).contains(self.emit(step)),
    {
        let e = self.emit(step);
        let f = from as int;
        let g = to as int;
        let pushes = each(self.push_sources(), self.push_gen());
        let doubles = each(self.push2_sources(), self.push2_gen());
        let left = each(self.capture_sources(ep, 7), self.capture_gen(7));
        let right = each(self.capture_sources(ep, 9), self.capture_gen(9));
        lemma_pawn_hit_offsets(self.turn, f, g);
        assert(e.of_a_piece());
        if g == self.ranks_ahead(f, 1) && vacant(self.board, g) {
            self.lemma_push_listed(king, from, to, step);
            lemma_joined(pushes, doubles, e);
            lemma_joined(pushes + doubles, left, e);
        } else {
            let d: u8 = if g == f + 7 || g == f - 7 {
                7
            } else {
                9
            };
            self.lemma_capture_listed(king, ep, d, from, to, step);
            if d == 7 {
                lemma_joined(pushes + doubles, left, e);
            }
        }
        lemma_joined(pushes + doubles + left, right, e);
    }

    /// A legal move of a piece other than the king is among the emissions.
    proof fn lemma_move_listed(self, king: int, ep: Option<u8>, from: u8, to: u8)
        requires
            self.board.sole_king(self.turn, king),
            self.lawful(Step::Move { from, to }, ep),
        ensures
            self.emissions(ep).contains(self.emit(Step::Move { from, to })),
    {
        let b = self.board;
        let t = self.turn;
        let occ = b.spec_piece_mask();
        let step = Step::Move { from, to };
        let e = self.emit(step);
        let f = from as int;
        let g = to as int;
        let k = kind(b.tag(f));
        let pawns = self.pawn_emissions(ep);
        let knights = self.knight_emissions();
        let diagonals = self.diagonal_emissions();
        let straights = self.ortho_emissions();
        let kings = self.king_emissions();
        if k == PAWN {
            self.lemma_pawn_goes_listed(king, ep, from, to, step);
        } else if k == KNIGHT {
            self.lemma_knight_listed(king, from, to);
        } else if (k == BISHOP || k == QUEEN) && sees_diagonally(f, g, occ) {
            let v = if sees(f, g, -1, 1, occ) {
                (-1int, 1int)
            } else if sees(f, g, 1, 1, occ) {
                (1int, 1int)
            } else if sees(f, g, -1, -1, occ) {
                (-1int, -1int)
            } else {
                (1int, -1int)
            };
            lemma_aligned_range(f, g, v.0, v.1);
            self.lemma_slide_listed(king, from, to, v.0, v.1);
        } else {
            let v = if sees(f, g, 1, 0, occ) {
                (1int, 0int)
            } else if sees(f, g, -1, 0, occ) {
                (-1int, 0int)
            } else if sees(f, g, 0, 1, occ) {
                (0int, 1int)
            } else {
                (0int, -1int)
            };
            lemma_aligned_range(f, g, v.0, v.1);
            self.lemma_slide_listed(king, from, to, v.0, v.1);
        }
        self.lemma_lane_listed(ep, e);
    }

    /// A legal step of the king, and castling that the rules allow, is among the king's
    /// moves.
    proof fn lemma_king_listed(self, king: int, ep: Option<u8>, step: Step)
        requires
            self.board.sole_king(self.turn, king),
            self.lawful(step, ep),
            step is KingMove || step is KsCastle || step is QsCastle,
        ensures
            self.king_emissions().contains(self.emit(step)),
    {
        let b = self.board;
        let t = self.turn;
        let e = self.emit(step);
        let steps = each(self.king_targets(), self.king_gen(self.king_square()));
        let castles = self.castle_emissions();
        match step {
            Step::KingMove { from, to } => {
                assert(b.king_on(from as int, t));
                self.lemma_king_target_has(king, to);
                lemma_bit_zero(to as int);
                self.lemma_king_targets();
                b.lemma_sole_king(t, king);
                lemma_bit_single(king as u8, self.king_square() as int);
                let gen = self.king_gen(self.king_square());
                assert(gen(to)[0] == e);
                lemma_each_contains(self.king_targets(), gen, to, e);
            },
            Step::KsCastle => {
                self.lemma_castle_listed(true, ep);
                assert(castles[0] == e);
            },
            _ => {
                self.lemma_castle_listed(false, ep);
                assert(castles[castles.len() - 1] == e);
            },
        }
        lemma_joined(steps, castles, e);
    }

    /// Every legal step is among the emissions: whatever the pieces can do by the way they
    /// move that leaves the king of the side to move out of check, the generator emits. Of
    /// captures en passant it emits those that do not remove two pieces from between the
    /// king and a rook or queen on its rank, and whose captured pawn is on the check mask.
    pub proof fn lemma_lawful_listed(self, king: int, ep: Option<u8>, step: Step)
        requires
            self.board.sole_king(self.turn, king),
            self.ep_fits(king, ep),
            self.lawful(step, ep),
            step matches Step::EnPassant { from, to } ==> self.ep_open() && bit(
                self.board.spec_check_mask(self.turn),
                self.ranks_ahead(to as int, -1),
            ),
        ensures
            self.emissions(ep).contains(self.emit(step)),
    {
        let b = self.board;
        let t = self.turn;
        let e = self.emit(step);
        let pawns = self.pawn_emissions(ep);
        let knights = self.knight_emissions();
        let diagonals = self.diagonal_emissions();
        let straights = self.ortho_emissions();
        let kings = self.king_emissions();
        match step {
            Step::Move { from, to } => {
                self.lemma_move_listed(king, ep, from, to);
            },
            Step::PawnPush2 { from } => {
                self.lemma_push2_listed(king, from);
                lemma_joined(each(self.push_sources(), self.push_gen()), each(
                    self.push2_sources(),
                    self.push2_gen(),
                ), e);
                lemma_joined(
                    each(self.push_sources(), self.push_gen()) + each(
                        self.push2_sources(),
                        self.push2_gen(),
                    ),
                    each(self.capture_sources(ep, 7), self.capture_gen(7)),
                    e,
                );
                lemma_joined(
                    each(self.push_sources(), self.push_gen()) + each(
                        self.push2_sources(),
                        self.push2_gen(),
                    ) + each(self.capture_sources(ep, 7), self.capture_gen(7)),
                    each(self.capture_sources(ep, 9), self.capture_gen(9)),
                    e,
                );
            },
            Step::Promotion { from, to, piece } => {
                self.lemma_pawn_goes_listed(king, ep, from, to, step);
            },
            Step::EnPassant { from, to } => {
                self.lemma_ep_listed(king, ep, from, to);
            },
            _ => {
                self.lemma_king_listed(king, ep, step);
            },
        }
        if !(step is Move) {
            self.lemma_lane_listed(ep, e);
        }
    }

    /// A legal capture en passant that the generator's two conditions admit is among the
    /// pawn moves.
    proof fn lemma_ep_listed(self, king: int, ep: Option<u8>, from: u8, to: u8)
        requires
            self.board.sole_king(self.turn, king),
            self.ep_fits(king, ep),
            self.lawful(Step::EnPassant { from, to }, ep),
            self.ep_open(),
            bit(self.board.spec_check_mask(self.turn), self.ranks_ahead(to as int, -1)),
        ensures
            self.pawn_emissions(ep).contains(self.emit(Step::EnPassant { from, to })),
    {
        let step = Step::EnPassant { from, to };
        let e = self.emit(step);
        let f = from as int;
        let g = to as int;
        let pushes = each(self.push_sources(), self.push_gen());
        let doubles = each(self.push2_sources(), self.push2_gen());
        let left = each(self.capture_sources(ep, 7), self.capture_gen(7));
        let right = each(self.capture_sources(ep, 9), self.capture_gen(9));
        lemma_pawn_hit_offsets(self.turn, f, g);
        assert(passed_pawn(self.turn, to) as int == self.ranks_ahead(g, -1));
        assert(e.of_a_piece());
        let d: u8 = if g == f + 7 || g == f - 7 {
            7
        } else {
            9
        };
        self.lemma_capture_listed(king, ep, d, from, to, step);
        if d == 7 {
            lemma_joined(pushes + doubles, left, e);
        }
        lemma_joined(pushes + doubles + left, right, e);
    }
}

impl BitBoardGame {
    /// Every legal move is listed. Where the king of the side to move is its only one and
    /// the en-passant target fits the board, each step that the pieces can make by the way
    /// they move, and that leaves that king out of check, is the step of one of the moves
    /// that the generator finds. Of captures en passant this holds for those that do not
    /// remove two pieces from between the king and a rook or queen on its rank, and whose
    /// captured pawn is on the check mask.
    pub proof fn lemma_lawful_moves_are_listed(self, king: int, step: Step) -> (k: int)
        requires
            self.valid(),
            self.board.sole_king(self.turn, king),
            self.origin().ep_fits(king, self.ep),
            self.origin().lawful(step, self.ep),
            step matches Step::EnPassant { from, to } ==> self.origin().ep_open() && bit(
                self.board.spec_check_mask(self.turn),
                self.origin().ranks_ahead(to as int, -1),
            ),
        ensures
            0 <= k < self.legal().len(),
            self.emissions()[k].step == step,
            self.legal()[k] == self.origin().emit(step).materialise(),
    {
        self.lemma_legal_valid();
        let o = self.origin();
        o.lemma_lawful_listed(king, self.ep, step);
        let e = o.emit(step);
        let k = choose|k: int| 0 <= k < self.emissions().len() && self.emissions()[k] == e;
        k
    }
}

impl Origin {
    /// The step is one that the generator lists: it is legal, and a capture en passant
    /// neither removes two pieces from between the king and a rook or queen on its rank nor
    /// takes a pawn that the check mask does not hold.
    pub open spec fn listable(self, step: Step, ep: Option<u8>) -> bool {
        self.lawful(step, ep) && (step matches Step::EnPassant { from, to } ==> self.ep_open()
            && bit(self.board.spec_check_mask(self.turn), self.ranks_ahead(to as int, -1)))
    }
}

impl BitBoardGame {
    /// The legal moves of a position in play are exactly the steps that can be listed: a
    /// step is the step of one of the moves that the generator finds if and only if the
    /// pieces can make it by the way they move, it leaves the king of the side that makes
    /// it out of check, and, for a capture en passant, the generator's two conditions hold.
    pub proof fn lemma_listed_exactly(self, king: int, step: Step)
        requires
            self.valid(),
            self.origin().in_play(king, self.ep),
        ensures
            self.emissions().contains(self.origin().emit(step)) <==> self.origin().listable(
                step,
                self.ep,
            ),
    {
        let o = self.origin();
        let e = o.emit(step);
        self.lemma_legal_valid();
        if o.listable(step, self.ep) {
            o.lemma_lawful_listed(king, self.ep, step);
        }
        if self.emissions().contains(e) {
            let k = choose|k: int| 0 <= k < self.emissions().len() && self.emissions()[k] == e;
            self.lemma_listed_moves_are_lawful(king, k);
            o.lemma_emissions_guarded(king, self.ep);
            assert(e.guarded(king, self.ep));
        }
    }
}

/// What is in one of two sequences is in the two joined.
pub proof fn lemma_joined<T>(a: Seq<T>, b: Seq<T>, x: T)
    requires
        a.contains(x) || b.contains(x),
    ensures
        (a + b).contains(x),
{
    if a.contains(x) {
        let i = choose|i: int| 0 <= i < a.len() && a[i] == x;
        assert((a + b)[i] == x);
    } else {
        let i = choose|i: int| 0 <= i < b.len() && b[i] == x;
        assert((a + b)[a.len() + i] == x);
    }
}

/// One term of the answers to knight or pawn checks that does not hold `g` holds a checking
/// piece on another square.
proof fn lemma_term_unanswered(keep: u64, test: u64, g: int) -> (a: int)
    requires
        0 <= g < 64,
        !bit(restrict(test, keep), g),
    ensures
        bit(test, a),
        !bit(keep, g),
{
    lemma_bit_full(g);
    lemma_lowest(test);
    vstd::std_specs::bits::u64_trailing_zeros(test) as int
}

/// The one square that a shifted king mask can hold, by the shift.
proof fn lemma_jump_square(king: u8, a: int)
    requires
        king < 64,
    ensures
        bit(((1u64 << king) & !RIGHT2_SIDE) >> 10u8, a) ==> a == king - 10 && king % 8 >= 2,
        bit(((1u64 << king) & !RIGHT2_SIDE) << 6u8, a) ==> a == king + 6 && king % 8 >= 2,
        bit(((1u64 << king) & !RIGHT_SIDE) >> 17u8, a) ==> a == king - 17 && king % 8 >= 1,
        bit(((1u64 << king) & !RIGHT_SIDE) << 15u8, a) ==> a == king + 15 && king % 8 >= 1,
        bit(((1u64 << king) & !LEFT_SIDE) >> 15u8, a) ==> a == king - 15 && king % 8 <= 6,
        bit(((1u64 << king) & !LEFT_SIDE) << 17u8, a) ==> a == king + 17 && king % 8 <= 6,
        bit(((1u64 << king) & !LEFT2_SIDE) >> 6u8, a) ==> a == king - 6 && king % 8 <= 5,
        bit(((1u64 << king) & !LEFT2_SIDE) << 10u8, a) ==> a == king + 10 && king % 8 <= 5,
{
    broadcast use group_bit;

}

/// Knight answers that do not hold `g` come with a knight of `others` that is a knight's jump
/// from the king, on another square than `g`.
proof fn lemma_knight_unanswered(king: u8, others: u64, g: int) -> (a: int)
    requires
        king < 64,
        0 <= g < 64,
        !bit(knight_answers(king, others), g),
    ensures
        a != g,
        0 <= a < 64,
        bit(others, a),
        knight_jump(a, king as int),
{
    let kings = 1u64 << king;
    let r2 = kings & !RIGHT2_SIDE;
    let r1 = kings & !RIGHT_SIDE;
    let l1 = kings & !LEFT_SIDE;
    let l2 = kings & !LEFT2_SIDE;
    assert(exists|keep: u64|
        !bit(restrict(keep & others, keep), g) && (keep == r2 >> 10u8 || keep == r2 << 6u8 || keep
            == r1 >> 17u8 || keep == r1 << 15u8 || keep == l1 >> 15u8 || keep == l1 << 17u8 || keep
            == l2 >> 6u8 || keep == l2 << 10u8)) by {
        broadcast use lemma_bit_and;

        let keep = if !bit(restrict((r2 >> 10u8) & others, r2 >> 10u8), g) {
            r2 >> 10u8
        } else if !bit(restrict((r2 << 6u8) & others, r2 << 6u8), g) {
            r2 << 6u8
        } else if !bit(restrict((r1 >> 17u8) & others, r1 >> 17u8), g) {
            r1 >> 17u8
        } else if !bit(restrict((r1 << 15u8) & others, r1 << 15u8), g) {
            r1 << 15u8
        } else if !bit(restrict((l1 >> 15u8) & others, l1 >> 15u8), g) {
            l1 >> 15u8
        } else if !bit(restrict((l1 << 17u8) & others, l1 << 17u8), g) {
            l1 << 17u8
        } else if !bit(restrict((l2 >> 6u8) & others, l2 >> 6u8), g) {
            l2 >> 6u8
        } else {
            l2 << 10u8
        };
        assert(!bit(restrict(keep & others, keep), g));
    }
    let keep = choose|keep: u64|
        !bit(restrict(keep & others, keep), g) && (keep == r2 >> 10u8 || keep == r2 << 6u8 || keep
            == r1 >> 17u8 || keep == r1 << 15u8 || keep == l1 >> 15u8 || keep == l1 << 17u8 || keep
            == l2 >> 6u8 || keep == l2 << 10u8);
    let a = lemma_term_unanswered(keep, keep & others, g);
    lemma_bit_and(keep, others, a);
    lemma_jump_square(king, a);
    lemma_knight_jump_offsets(king as int, a);
    assert(knight_jump(king as int, a));
    a
}

/// Pawn answers that do not hold `g` come with a pawn of `others` that attacks the king, on
/// another square than `g`.
proof fn lemma_pawn_unanswered(side: bool, king: u8, others: u64, g: int) -> (a: int)
    requires
        king < 64,
        0 <= g < 64,
        !bit(pawn_answers(side, king, others), g),
    ensures
        a != g,
        0 <= a < 64,
        bit(others, a),
        pawn_hit(!side, a, king as int),
{
    broadcast use group_bit;

    let kings = 1u64 << king;
    let a = if side {
        if !bit(restrict((kings << 9u8) & !RIGHT_SIDE & others, kings << 9u8), g) {
            lemma_term_unanswered(kings << 9u8, (kings << 9u8) & !RIGHT_SIDE & others, g)
        } else {
            lemma_term_unanswered(kings << 7u8, (kings << 7u8) & !LEFT_SIDE & others, g)
        }
    } else {
        if !bit(restrict((kings >> 7u8) & !RIGHT_SIDE & others, kings >> 7u8), g) {
            lemma_term_unanswered(kings >> 7u8, (kings >> 7u8) & !RIGHT_SIDE & others, g)
        } else {
            lemma_term_unanswered(kings >> 9u8, (kings >> 9u8) & !LEFT_SIDE & others, g)
        }
    };
    lemma_pawn_hit_offsets(!side, a, king as int);
    a
}

} // verus!
