//! The legal move generator: which emissions a position gives rise to, and the routines that
//! hand them to a visitor.

use crate::bit_board::masks::{diagonal_rays, king_fan, knight_fan, lemma_king_fan, ortho_rays};
use crate::bit_board::planes::BitBoard;
use crate::bit_board::visitor::{origin_of, Emission, OnMove, Origin, Step};
use crate::bits::{
    bit, each, group_bit, king_step, lemma_bit_test, lemma_each_empty, lemma_each_unfold,
    lemma_lowest, LEFT_SIDE, RIGHT_SIDE,
};
use vstd::prelude::*;

verus! {

/// The fifth rank, where a white pawn stands when it captures en passant.
pub const RANK_5: u64 = 0x000000FF00000000;

/// The fourth rank, where a black pawn stands when it captures en passant.
pub const RANK_4: u64 = 0x00000000FF000000;

/// The second rank, from which a white pawn may take a double step.
pub const RANK_2: u64 = 0x000000000000FF00;

/// The seventh rank, from which a black pawn may take a double step.
pub const RANK_7: u64 = 0x00FF000000000000;

/// The squares between king and rook that must be empty to castle kingside, on the first
/// rank.
pub const KS_EMPTY: u64 = 0x06;

/// The squares that must not be attacked to castle kingside, on the first rank.
pub const KS_SAFE: u64 = 0x0E;

/// The squares between king and rook that must be empty to castle queenside, on the first
/// rank.
pub const QS_EMPTY: u64 = 0x70;

/// The squares that must not be attacked to castle queenside, on the first rank.
pub const QS_SAFE: u64 = 0x38;

/// The one-square set of the en-passant target, or the empty set.
pub open spec fn ep_bit(ep: Option<u8>) -> u64 {
    match ep {
        Some(x) => 1u64 << x,
        None => 0,
    }
}

/// What the king may not step onto along an axis on which it is in check: the two squares
/// `near` it on that axis, unless an enemy slider of that axis stands there.
pub open spec fn retreat(axis_check: u64, near: u64, sliders: u64) -> u64 {
    if axis_check != u64::MAX {
        near & !sliders
    } else {
        0
    }
}

impl Origin {
    /// One quiet move or capture from `from` for a landing square.
    pub open spec fn quiet_gen(self, from: u8) -> spec_fn(u8) -> Seq<Emission> {
        |to: u8| seq![self.emit(Step::Move { from, to })]
    }

    /// One king move from `from` for a landing square.
    pub open spec fn king_gen(self, from: u8) -> spec_fn(u8) -> Seq<Emission> {
        |to: u8| seq![self.emit(Step::KingMove { from, to })]
    }

    /// Where a piece other than the king may land at all: not on its own side's pieces, and
    /// only where the check mask allows.
    pub open spec fn base_mask(self) -> u64 {
        self.board.spec_enemy_or_empty(self.turn) & self.board.spec_check_mask(self.turn)
    }

    /// The square `d` squares ahead of `from`, as the side to move sees it.
    pub open spec fn ahead(self, from: u8, d: u8) -> u8 {
        if self.turn {
            (from + d) as u8
        } else {
            (from - d) as u8
        }
    }

    /// A pawn on `from` stands one step from its last rank.
    pub open spec fn promotes(self, from: u8) -> bool {
        from / 8 == (if self.turn {
            6int
        } else {
            1
        })
    }

    /// The tag of a piece of kind `kind` of the side to move.
    pub open spec fn own(self, kind: u8) -> u8 {
        if self.turn {
            (8 + kind) as u8
        } else {
            kind
        }
    }

    /// The four promotions of the pawn that goes from `from` to `to`: to knight, bishop,
    /// rook and queen.
    pub open spec fn promotions(self, from: u8, to: u8) -> Seq<Emission> {
        seq![
            self.emit(Step::Promotion { from, to, piece: self.own(5) }),
            self.emit(Step::Promotion { from, to, piece: self.own(1) }),
            self.emit(Step::Promotion { from, to, piece: self.own(2) }),
            self.emit(Step::Promotion { from, to, piece: self.own(3) }),
        ]
    }

    /// What a pawn's single step or capture from `from` to `to` gives: the move, or its four
    /// promotions where `to` is on the last rank.
    pub open spec fn advance(self, from: u8, to: u8) -> Seq<Emission> {
        if self.promotes(from) {
            self.promotions(from, to)
        } else {
            seq![self.emit(Step::Move { from, to })]
        }
    }

    /// The squares that a pawn may capture on: the enemy pieces that the check mask allows,
    /// and the en-passant target.
    pub open spec fn pawn_enemy(self, ep: Option<u8>) -> u64 {
        (self.board.spec_col_piece_mask(!self.turn) & self.board.spec_check_mask(self.turn))
            | ep_bit(ep)
    }

    /// The pawns that may step forward: on no diagonal pin ray and not pinned along the rank.
    pub open spec fn up_pawns(self) -> u64 {
        self.board.spec_col_pawn_mask(self.turn) & !self.board.spec_diagonal_pin_mask(self.turn)
            & !self.board.spec_hor_pin_mask(self.turn)
    }

    /// The pawns that may capture `d` squares ahead (7: along the a1-h8 diagonal for white;
    /// 9: along the other): not pinned along the other diagonal, a rank or a file.
    pub open spec fn diag_pawns(self, d: u8) -> u64 {
        self.board.spec_col_pawn_mask(self.turn) & !(if d == 7 {
            self.board.spec_rl_pin_mask(self.turn)
        } else {
            self.board.spec_lr_pin_mask(self.turn)
        }) & !self.board.spec_ortho_pin_mask(self.turn)
    }

    /// The pawns that may take a single step.
    pub open spec fn push_sources(self) -> u64 {
        let empty_free = !self.board.spec_piece_mask() & self.board.spec_check_mask(self.turn);
        if self.turn {
            (empty_free >> 8u8) & self.up_pawns()
        } else {
            (empty_free << 8u8) & self.up_pawns()
        }
    }

    /// The pawns that may take a double step.
    pub open spec fn push2_sources(self) -> u64 {
        let empty = !self.board.spec_piece_mask();
        let empty_free = empty & self.board.spec_check_mask(self.turn);
        if self.turn {
            (empty_free >> 16u8) & (empty >> 8u8) & self.up_pawns() & RANK_2
        } else {
            (empty_free << 16u8) & (empty << 8u8) & self.up_pawns() & RANK_7
        }
    }

    /// The file that a capture `d` squares ahead cannot start from.
    pub open spec fn capture_edge(self, d: u8) -> u64 {
        if (d == 7) == self.turn {
            RIGHT_SIDE
        } else {
            LEFT_SIDE
        }
    }

    /// The pawns that may capture `d` squares ahead, en passant included.
    pub open spec fn capture_sources(self, ep: Option<u8>, d: u8) -> u64 {
        if self.turn {
            (self.pawn_enemy(ep) >> d) & self.diag_pawns(d) & !self.capture_edge(d)
        } else {
            (self.pawn_enemy(ep) << d) & self.diag_pawns(d) & !self.capture_edge(d)
        }
    }

    /// The square of the pawn that a capture en passant from `from`, `d` squares ahead,
    /// removes: beside `from`, behind the landing square.
    pub open spec fn victim(self, from: u8, d: u8) -> u8 {
        if self.turn {
            (from + d - 8) as u8
        } else {
            (from + 8 - d) as u8
        }
    }

    /// No enemy rook or queen looks at the king along the rank of an en-passant capture
    /// through exactly two pieces.
    pub open spec fn ep_open(self) -> bool {
        self.board.spec_hor_pin_mask2(self.turn) & (if self.turn {
            RANK_5
        } else {
            RANK_4
        }) == 0
    }

    /// What the single step of the pawn on `from` gives.
    pub open spec fn push_gen(self) -> spec_fn(u8) -> Seq<Emission> {
        |from: u8| self.advance(from, self.ahead(from, 8))
    }

    /// What the double step of the pawn on `from` gives.
    pub open spec fn push2_gen(self) -> spec_fn(u8) -> Seq<Emission> {
        |from: u8| seq![self.emit(Step::PawnPush2 { from })]
    }

    /// What the capture of the pawn on `from`, `d` squares ahead, gives: an ordinary capture
    /// (or its promotions) where the landing square is occupied; on the empty en-passant
    /// target the capture en passant, unless it would open the rank to a rook or queen or
    /// the check mask does not hold the captured pawn.
    pub open spec fn capture_gen(self, d: u8) -> spec_fn(u8) -> Seq<Emission> {
        |from: u8|
            {
                let to = self.ahead(from, d);
                if bit(self.board.spec_piece_mask(), to as int) {
                    self.advance(from, to)
                } else if self.ep_open() && bit(
                    self.board.spec_check_mask(self.turn),
                    self.victim(from, d) as int,
                ) {
                    seq![self.emit(Step::EnPassant { from, to })]
                } else {
                    Seq::empty()
                }
            }
    }

    /// The pawn moves: single steps, double steps, captures 7 squares ahead, captures 9
    /// squares ahead; each by ascending square of the pawn.
    pub open spec fn pawn_emissions(self, ep: Option<u8>) -> Seq<Emission> {
        each(self.push_sources(), self.push_gen()) + each(self.push2_sources(), self.push2_gen())
            + each(self.capture_sources(ep, 7), self.capture_gen(7)) + each(
            self.capture_sources(ep, 9),
            self.capture_gen(9),
        )
    }

    /// The knights that may move: those on no pin ray.
    pub open spec fn knight_sources(self) -> u64 {
        self.board.spec_col_knight_mask(self.turn) & !self.board.spec_ortho_pin_mask(self.turn)
            & !self.board.spec_diagonal_pin_mask(self.turn)
    }

    /// The moves of the knight on `from`.
    pub open spec fn knight_gen(self) -> spec_fn(u8) -> Seq<Emission> {
        |from: u8| each(knight_fan(1u64 << from) & self.base_mask(), self.quiet_gen(from))
    }

    /// The knight moves, by ascending square of the knight and then of its landing square.
    pub open spec fn knight_emissions(self) -> Seq<Emission> {
        each(self.knight_sources(), self.knight_gen())
    }

    /// The bishops and queens on no pin ray.
    pub open spec fn diagonal_free_sources(self) -> u64 {
        self.board.spec_col_diagonal_mask(self.turn) & !self.board.spec_diagonal_pin_mask(
            self.turn,
        ) & !self.board.spec_ortho_pin_mask(self.turn)
    }

    /// The bishops and queens on a diagonal pin ray.
    pub open spec fn diagonal_pinned_sources(self) -> u64 {
        self.board.spec_col_diagonal_mask(self.turn) & self.board.spec_diagonal_pin_mask(
            self.turn,
        )
    }

    /// The diagonal moves of the unpinned slider on `from`.
    pub open spec fn diagonal_free_gen(self) -> spec_fn(u8) -> Seq<Emission> {
        |from: u8|
            each(
                diagonal_rays(1u64 << from, self.board.spec_piece_mask()) & self.base_mask(),
                self.quiet_gen(from),
            )
    }

    /// The diagonal moves of the diagonally pinned slider on `from`: those that stay on the
    /// pin rays.
    pub open spec fn diagonal_pinned_gen(self) -> spec_fn(u8) -> Seq<Emission> {
        |from: u8|
            each(
                diagonal_rays(1u64 << from, self.board.spec_piece_mask()) & self.base_mask()
                    & self.board.spec_diagonal_pin_mask(self.turn),
                self.quiet_gen(from),
            )
    }

    /// The diagonal moves of bishops and queens: first of the unpinned, then of the pinned.
    pub open spec fn diagonal_emissions(self) -> Seq<Emission> {
        each(self.diagonal_free_sources(), self.diagonal_free_gen()) + each(
            self.diagonal_pinned_sources(),
            self.diagonal_pinned_gen(),
        )
    }

    /// The rooks and queens on no pin ray.
    pub open spec fn ortho_free_sources(self) -> u64 {
        self.board.spec_col_ortho_mask(self.turn) & !self.board.spec_diagonal_pin_mask(self.turn)
            & !self.board.spec_ortho_pin_mask(self.turn)
    }

    /// The rooks and queens on an orthogonal pin ray.
    pub open spec fn ortho_pinned_sources(self) -> u64 {
        self.board.spec_col_ortho_mask(self.turn) & self.board.spec_ortho_pin_mask(self.turn)
    }

    /// The orthogonal moves of the unpinned slider on `from`.
    pub open spec fn ortho_free_gen(self) -> spec_fn(u8) -> Seq<Emission> {
        |from: u8|
            each(
                ortho_rays(1u64 << from, self.board.spec_piece_mask()) & self.base_mask(),
                self.quiet_gen(from),
            )
    }

    /// The orthogonal moves of the orthogonally pinned slider on `from`: those that stay on
    /// the pin rays.
    pub open spec fn ortho_pinned_gen(self) -> spec_fn(u8) -> Seq<Emission> {
        |from: u8|
            each(
                ortho_rays(1u64 << from, self.board.spec_piece_mask()) & self.base_mask()
                    & self.board.spec_ortho_pin_mask(self.turn),
                self.quiet_gen(from),
            )
    }

    /// The orthogonal moves of rooks and queens: first of the unpinned, then of the pinned.
    pub open spec fn ortho_emissions(self) -> Seq<Emission> {
        each(self.ortho_free_sources(), self.ortho_free_gen()) + each(
            self.ortho_pinned_sources(),
            self.ortho_pinned_gen(),
        )
    }

    /// The squares that the king may step onto: next to it, not held by its own side, not
    /// attacked, and not further along a line on which a slider checks it.
    pub open spec fn king_targets(self) -> u64 {
        let b = self.board;
        let t = self.turn;
        let king = b.spec_col_king_mask(t);
        let ortho = b.spec_col_ortho_mask(!t);
        let diag = b.spec_col_diagonal_mask(!t);
        king_fan(king) & (b.spec_enemy_or_empty(t) & !b.spec_attack_mask(!t)) & !retreat(
            b.spec_hor_check_mask(t),
            (!LEFT_SIDE & (king >> 1u8)) | (!RIGHT_SIDE & (king << 1u8)),
            ortho,
        ) & !retreat(b.spec_vert_check_mask(t), (king >> 8u8) | (king << 8u8), ortho) & !retreat(
            b.spec_lr_check_mask(t),
            (!RIGHT_SIDE & (king >> 7u8)) | (!LEFT_SIDE & (king << 7u8)),
            diag,
        ) & !retreat(
            b.spec_rl_check_mask(t),
            (!LEFT_SIDE & (king >> 9u8)) | (!RIGHT_SIDE & (king << 9u8)),
            diag,
        )
    }

    /// The king's square: the lowest square that holds a king of the side to move (64 where
    /// there is none).
    pub open spec fn king_square(self) -> u8 {
        vstd::std_specs::bits::u64_trailing_zeros(self.board.spec_col_king_mask(self.turn)) as u8
    }

    /// The side to move has the right to castle on the side asked.
    pub open spec fn right(self, kingside: bool) -> bool {
        if self.turn {
            if kingside {
                self.rights.wk
            } else {
                self.rights.wq
            }
        } else {
            if kingside {
                self.rights.bk
            } else {
                self.rights.bq
            }
        }
    }

    /// The side to move may castle on the side asked: it has the right, the squares between
    /// king and rook are empty, and neither the king's square nor the two it crosses are
    /// attacked.
    pub open spec fn may_castle(self, kingside: bool) -> bool {
        let empty = !self.board.spec_piece_mask();
        let safe = !self.board.spec_attack_mask(!self.turn);
        let rank: u8 = if self.turn {
            0
        } else {
            56
        };
        self.right(kingside) && (if kingside {
            (empty >> rank) & KS_EMPTY == KS_EMPTY && (safe >> rank) & KS_SAFE == KS_SAFE
        } else {
            (empty >> rank) & QS_EMPTY == QS_EMPTY && (safe >> rank) & QS_SAFE == QS_SAFE
        })
    }

    /// The castling moves: kingside first.
    pub open spec fn castle_emissions(self) -> Seq<Emission> {
        (if self.may_castle(true) {
            seq![self.emit(Step::KsCastle)]
        } else {
            Seq::empty()
        }) + (if self.may_castle(false) {
            seq![self.emit(Step::QsCastle)]
        } else {
            Seq::empty()
        })
    }

    /// The king's moves by ascending landing square, then the castling moves.
    pub open spec fn king_emissions(self) -> Seq<Emission> {
        each(self.king_targets(), self.king_gen(self.king_square())) + self.castle_emissions()
    }

    /// Every legal move of the position, with `ep` as its en-passant target: pawn moves,
    /// knight moves, diagonal moves, orthogonal moves, king moves.
    pub open spec fn emissions(self, ep: Option<u8>) -> Seq<Emission> {
        self.pawn_emissions(ep) + self.knight_emissions() + self.diagonal_emissions()
            + self.ortho_emissions() + self.king_emissions()
    }
}

impl Origin {
    /// The pawns that may step or capture stand where the step or capture stays on the board.
    pub proof fn lemma_pawn_sources_in_range(self, ep: Option<u8>)
        ensures
            forall|f: int|
                #[trigger] bit(self.push_sources(), f) ==> (if self.turn {
                    f < 56
                } else {
                    8 <= f
                }),
            forall|f: int|
                #[trigger] bit(self.push2_sources(), f) ==> (if self.turn {
                    8 <= f < 16
                } else {
                    48 <= f < 56
                }),
            forall|f: int|
                #[trigger] bit(self.capture_sources(ep, 7), f) ==> (if self.turn {
                    8 <= f + 7 < 64
                } else {
                    7 <= f < 56 + 7
                }),
            forall|f: int|
                #[trigger] bit(self.capture_sources(ep, 9), f) ==> (if self.turn {
                    8 <= f + 9 < 64
                } else {
                    9 <= f < 56 + 9
                }),
    {
        broadcast use group_bit;

        assert forall|f: int| #[trigger] bit(self.push2_sources(), f) implies (if self.turn {
            8 <= f < 16
        } else {
            48 <= f < 56
        }) by {
            lemma_bit_ranks(f);
        }
    }
}

/// The ranks that a pawn's double step and a capture en passant start from, square by square.
pub proof fn lemma_bit_ranks(i: int)
    ensures
        bit(RANK_2, i) == (8 <= i < 16),
        bit(RANK_4, i) == (24 <= i < 32),
        bit(RANK_5, i) == (32 <= i < 40),
        bit(RANK_7, i) == (48 <= i < 56),
{
    if 0 <= i < 64 {
        let k = i as u64;
        assert(((0x000000000000FF00u64 >> k) & 1 == 1) == (8 <= k < 16)) by (bit_vector)
            requires
                k < 64,
        ;
        assert(((0x00000000FF000000u64 >> k) & 1 == 1) == (24 <= k < 32)) by (bit_vector)
            requires
                k < 64,
        ;
        assert(((0x000000FF00000000u64 >> k) & 1 == 1) == (32 <= k < 40)) by (bit_vector)
            requires
                k < 64,
        ;
        assert(((0x00FF000000000000u64 >> k) & 1 == 1) == (48 <= k < 56)) by (bit_vector)
            requires
                k < 64,
        ;
    }
}

impl BitBoard {
    /// Hands the visitor one move from `from_idx` for each square of `targets`, in ascending
    /// order.
    fn emit_moves<const WQ: bool, const WK: bool, const BQ: bool, const BK: bool, Mov: OnMove>(
        &self,
        turn: bool,
        on_move: &mut Mov,
        from_idx: u8,
        targets: u64,
    )
        requires
            old(on_move).inv(),
            from_idx < 64,
        ensures
            final(on_move).inv(),
            final(on_move).emitted() == old(on_move).emitted() + each(
                targets,
                origin_of(WQ, WK, BQ, BK, turn, *self).quiet_gen(from_idx),
            ),
    {
        let ghost o = origin_of(WQ, WK, BQ, BK, turn, *self);
        let ghost g = o.quiet_gen(from_idx);
        let ghost all = old(on_move).emitted() + each(targets, g);
        let mut to_mask = targets;
        while to_mask != 0
            invariant
                on_move.inv(),
                from_idx < 64,
                o == origin_of(WQ, WK, BQ, BK, turn, *self),
                g == o.quiet_gen(from_idx),
                on_move.emitted() + each(to_mask, g) == all,
            decreases to_mask,
        {
            let ghost before = on_move.emitted();
            proof {
                lemma_each_unfold(to_mask, g);
            }
            let to_idx = to_mask.trailing_zeros() as u8;
            on_move.on_move::<WQ, WK, BQ, BK>(turn, self, from_idx, to_idx);
            to_mask &= to_mask - 1;
            assert(g(to_idx) == seq![o.emit(Step::Move { from: from_idx, to: to_idx })]);
            assert(on_move.emitted() + each(to_mask, g) =~= before + (g(to_idx) + each(to_mask, g)));
        }
        proof {
            lemma_each_empty(g);
            assert(on_move.emitted() + Seq::<Emission>::empty() =~= on_move.emitted());
        }
    }

    /// Hands the visitor every legal knight move of side `turn`.
    pub fn gen_knight_moves<
        const WQ: bool,
        const WK: bool,
        const BQ: bool,
        const BK: bool,
        Mov: OnMove,
    >(&self, turn: bool, on_move: &mut Mov)
        requires
            old(on_move).inv(),
        ensures
            final(on_move).inv(),
            final(on_move).emitted() == old(on_move).emitted() + origin_of(
                WQ,
                WK,
                BQ,
                BK,
                turn,
                *self,
            ).knight_emissions(),
    {
        let ghost o = origin_of(WQ, WK, BQ, BK, turn, *self);
        let ghost g = o.knight_gen();
        let base_mask = self.enemy_or_empty(turn) & self.check_mask(turn);
        let ortho_pins = self.ortho_pin_mask(turn);
        let diagonal_pins = self.diagonal_pin_mask(turn);

        let mut knights = self.col_knight_mask(turn) & !ortho_pins & !diagonal_pins;
        let ghost all = old(on_move).emitted() + each(knights, g);
        while knights != 0
            invariant
                on_move.inv(),
                base_mask == o.base_mask(),
                o == origin_of(WQ, WK, BQ, BK, turn, *self),
                g == o.knight_gen(),
                on_move.emitted() + each(knights, g) == all,
            decreases knights,
        {
            let ghost before = on_move.emitted();
            proof {
                lemma_each_unfold(knights, g);
            }
            let from_idx = knights.trailing_zeros() as u8;
            let to_mask = self.knight_like_attack_mask(1u64 << from_idx) & base_mask;
            self.emit_moves::<WQ, WK, BQ, BK, Mov>(turn, on_move, from_idx, to_mask);
            knights &= knights - 1;
            assert(on_move.emitted() + each(knights, g) =~= before + (g(from_idx) + each(
                knights,
                g,
            )));
        }
        proof {
            lemma_each_empty(g);
            assert(on_move.emitted() + Seq::<Emission>::empty() =~= on_move.emitted());
        }
    }

    /// Hands the visitor every legal diagonal move of the bishops and queens of side `turn`.
    pub fn gen_diagonal_moves<
        const WQ: bool,
        const WK: bool,
        const BQ: bool,
        const BK: bool,
        Mov: OnMove,
    >(&self, turn: bool, on_move: &mut Mov)
        requires
            old(on_move).inv(),
        ensures
            final(on_move).inv(),
            final(on_move).emitted() == old(on_move).emitted() + origin_of(
                WQ,
                WK,
                BQ,
                BK,
                turn,
                *self,
            ).diagonal_emissions(),
    {
        let ghost o = origin_of(WQ, WK, BQ, BK, turn, *self);
        let ghost free = o.diagonal_free_gen();
        let ghost pinned = o.diagonal_pinned_gen();
        let base_mask = self.enemy_or_empty(turn) & self.check_mask(turn);
        let ortho_pins = self.ortho_pin_mask(turn);
        let diagonal_pins = self.diagonal_pin_mask(turn);

        let mut free_bishops = self.col_diagonal_mask(turn) & !diagonal_pins & !ortho_pins;
        let mut pin_bishops = self.col_diagonal_mask(turn) & diagonal_pins;
        let ghost first = each(free_bishops, free);
        let ghost second = each(pin_bishops, pinned);
        let ghost all = old(on_move).emitted() + first;

        while free_bishops != 0
            invariant
                on_move.inv(),
                base_mask == o.base_mask(),
                o == origin_of(WQ, WK, BQ, BK, turn, *self),
                free == o.diagonal_free_gen(),
                on_move.emitted() + each(free_bishops, free) == all,
            decreases free_bishops,
        {
            let ghost before = on_move.emitted();
            proof {
                lemma_each_unfold(free_bishops, free);
            }
            let from_idx = free_bishops.trailing_zeros() as u8;
            let to_mask = self.diagonal_like_attack_mask(1u64 << from_idx) & base_mask;
            self.emit_moves::<WQ, WK, BQ, BK, Mov>(turn, on_move, from_idx, to_mask);
            free_bishops &= free_bishops - 1;
            assert(on_move.emitted() + each(free_bishops, free) =~= before + (free(from_idx)
                + each(free_bishops, free)));
        }
        proof {
            lemma_each_empty(free);
            assert(on_move.emitted() =~= all);
        }
        let ghost all2 = all + second;

        while pin_bishops != 0
            invariant
                on_move.inv(),
                base_mask == o.base_mask(),
                diagonal_pins == self.spec_diagonal_pin_mask(turn),
                o == origin_of(WQ, WK, BQ, BK, turn, *self),
                pinned == o.diagonal_pinned_gen(),
                on_move.emitted() + each(pin_bishops, pinned) == all2,
            decreases pin_bishops,
        {
            let ghost before = on_move.emitted();
            proof {
                lemma_each_unfold(pin_bishops, pinned);
            }
            let from_idx = pin_bishops.trailing_zeros() as u8;
            let to_mask = self.diagonal_like_attack_mask(1u64 << from_idx) & base_mask
                & diagonal_pins;
            self.emit_moves::<WQ, WK, BQ, BK, Mov>(turn, on_move, from_idx, to_mask);
            pin_bishops &= pin_bishops - 1;
            assert(on_move.emitted() + each(pin_bishops, pinned) =~= before + (pinned(from_idx)
                + each(pin_bishops, pinned)));
        }
        proof {
            lemma_each_empty(pinned);
            assert(on_move.emitted() =~= old(on_move).emitted() + (first + second));
        }
    }

    /// Hands the visitor every legal orthogonal move of the rooks and queens of side `turn`.
    pub fn gen_ortho_moves<
        const WQ: bool,
        const WK: bool,
        const BQ: bool,
        const BK: bool,
        Mov: OnMove,
    >(&self, turn: bool, on_move: &mut Mov)
        requires
            old(on_move).inv(),
        ensures
            final(on_move).inv(),
            final(on_move).emitted() == old(on_move).emitted() + origin_of(
                WQ,
                WK,
                BQ,
                BK,
                turn,
                *self,
            ).ortho_emissions(),
    {
        let ghost o = origin_of(WQ, WK, BQ, BK, turn, *self);
        let ghost free = o.ortho_free_gen();
        let ghost pinned = o.ortho_pinned_gen();
        let base_mask = self.enemy_or_empty(turn) & self.check_mask(turn);
        let ortho_pins = self.ortho_pin_mask(turn);
        let diagonal_pins = self.diagonal_pin_mask(turn);

        let mut free_rooks = self.col_ortho_mask(turn) & !diagonal_pins & !ortho_pins;
        let mut pin_rooks = self.col_ortho_mask(turn) & ortho_pins;
        let ghost first = each(free_rooks, free);
        let ghost second = each(pin_rooks, pinned);
        let ghost all = old(on_move).emitted() + first;

        while free_rooks != 0
            invariant
                on_move.inv(),
                base_mask == o.base_mask(),
                o == origin_of(WQ, WK, BQ, BK, turn, *self),
                free == o.ortho_free_gen(),
                on_move.emitted() + each(free_rooks, free) == all,
            decreases free_rooks,
        {
            let ghost before = on_move.emitted();
            proof {
                lemma_each_unfold(free_rooks, free);
            }
            let from_idx = free_rooks.trailing_zeros() as u8;
            let to_mask = self.ortho_like_attack_mask(1u64 << from_idx) & base_mask;
            self.emit_moves::<WQ, WK, BQ, BK, Mov>(turn, on_move, from_idx, to_mask);
            free_rooks &= free_rooks - 1;
            assert(on_move.emitted() + each(free_rooks, free) =~= before + (free(from_idx) + each(
                free_rooks,
                free,
            )));
        }
        proof {
            lemma_each_empty(free);
            assert(on_move.emitted() =~= all);
        }
        let ghost all2 = all + second;

        while pin_rooks != 0
            invariant
                on_move.inv(),
                base_mask == o.base_mask(),
                ortho_pins == self.spec_ortho_pin_mask(turn),
                o == origin_of(WQ, WK, BQ, BK, turn, *self),
                pinned == o.ortho_pinned_gen(),
                on_move.emitted() + each(pin_rooks, pinned) == all2,
            decreases pin_rooks,
        {
            let ghost before = on_move.emitted();
            proof {
                lemma_each_unfold(pin_rooks, pinned);
            }
            let from_idx = pin_rooks.trailing_zeros() as u8;
            let to_mask = self.ortho_like_attack_mask(1u64 << from_idx) & base_mask & ortho_pins;
            self.emit_moves::<WQ, WK, BQ, BK, Mov>(turn, on_move, from_idx, to_mask);
            pin_rooks &= pin_rooks - 1;
            assert(on_move.emitted() + each(pin_rooks, pinned) =~= before + (pinned(from_idx)
                + each(pin_rooks, pinned)));
        }
        proof {
            lemma_each_empty(pinned);
            assert(on_move.emitted() =~= old(on_move).emitted() + (first + second));
        }
    }

    /// Hands the visitor one king move from `from_idx` for each square of `targets`, in
    /// ascending order.
    fn emit_king_moves<
        const WQ: bool,
        const WK: bool,
        const BQ: bool,
        const BK: bool,
        Mov: OnMove,
    >(&self, turn: bool, on_move: &mut Mov, from_idx: u8, targets: u64)
        requires
            old(on_move).inv(),
            targets != 0 ==> from_idx < 64,
        ensures
            final(on_move).inv(),
            final(on_move).emitted() == old(on_move).emitted() + each(
                targets,
                origin_of(WQ, WK, BQ, BK, turn, *self).king_gen(from_idx),
            ),
    {
        let ghost o = origin_of(WQ, WK, BQ, BK, turn, *self);
        let ghost g = o.king_gen(from_idx);
        let ghost all = old(on_move).emitted() + each(targets, g);
        let mut to_mask = targets;
        while to_mask != 0
            invariant
                on_move.inv(),
                to_mask != 0 ==> from_idx < 64,
                o == origin_of(WQ, WK, BQ, BK, turn, *self),
                g == o.king_gen(from_idx),
                on_move.emitted() + each(to_mask, g) == all,
            decreases to_mask,
        {
            let ghost before = on_move.emitted();
            proof {
                lemma_each_unfold(to_mask, g);
            }
            let to_idx = to_mask.trailing_zeros() as u8;
            on_move.on_king_move::<WQ, WK, BQ, BK>(turn, self, from_idx, to_idx);
            to_mask &= to_mask - 1;
            assert(g(to_idx) == seq![o.emit(Step::KingMove { from: from_idx, to: to_idx })]);
            assert(on_move.emitted() + each(to_mask, g) =~= before + (g(to_idx) + each(to_mask, g)));
        }
        proof {
            lemma_each_empty(g);
            assert(on_move.emitted() + Seq::<Emission>::empty() =~= on_move.emitted());
        }
    }

    /// Hands the visitor every legal move of the king of side `turn`, castling included.
    pub fn gen_king_moves<
        const WQ: bool,
        const WK: bool,
        const BQ: bool,
        const BK: bool,
        Mov: OnMove,
    >(&self, turn: bool, on_move: &mut Mov)
        requires
            old(on_move).inv(),
        ensures
            final(on_move).inv(),
            final(on_move).emitted() == old(on_move).emitted() + origin_of(
                WQ,
                WK,
                BQ,
                BK,
                turn,
                *self,
            ).king_emissions(),
    {
        let ghost o = origin_of(WQ, WK, BQ, BK, turn, *self);
        let empty = !self.piece_mask();
        let other_attacks = self.attack_mask(!turn);
        let base_mask = self.enemy_or_empty(turn) & !other_attacks;
        let king = self.col_king_mask(turn);
        let other_ortho = self.col_ortho_mask(!turn);
        let other_diag = self.col_diagonal_mask(!turn);

        let from_idx = king.trailing_zeros() as u8;
        let to_mask = self.king_attack_mask(turn) & base_mask & !retreat_from(
            self.hor_check_mask(turn),
            (!LEFT_SIDE & (king >> 1u8)) | (!RIGHT_SIDE & (king << 1u8)),
            other_ortho,
        ) & !retreat_from(self.vert_check_mask(turn), (king >> 8u8) | (king << 8u8), other_ortho)
            & !retreat_from(
            self.lr_check_mask(turn),
            (!RIGHT_SIDE & (king >> 7u8)) | (!LEFT_SIDE & (king << 7u8)),
            other_diag,
        ) & !retreat_from(
            self.rl_check_mask(turn),
            (!LEFT_SIDE & (king >> 9u8)) | (!RIGHT_SIDE & (king << 9u8)),
            other_diag,
        );
        assert(to_mask == o.king_targets());
        proof {
            if to_mask != 0 {
                lemma_lowest(to_mask);
                let t = vstd::std_specs::bits::u64_trailing_zeros(to_mask) as int;
                assert(bit(king_fan(king), t)) by {
                    broadcast use group_bit;

                }
                lemma_king_fan(king);
                if king == 0 {
                    let f = choose|f: int| bit(king, f) && king_step(f, t);
                    crate::bits::lemma_bit_zero(f);
                }
            }
            vstd::std_specs::bits::axiom_u64_trailing_zeros(king);
        }
        self.emit_king_moves::<WQ, WK, BQ, BK, Mov>(turn, on_move, from_idx, to_mask);
        let ghost moved = on_move.emitted();

        let safe = !other_attacks;
        let rank: u8 = if turn {
            0
        } else {
            56
        };
        let ks_right = if turn {
            WK
        } else {
            BK
        };
        let qs_right = if turn {
            WQ
        } else {
            BQ
        };
        if ks_right && (empty >> rank) & KS_EMPTY == KS_EMPTY && (safe >> rank) & KS_SAFE
            == KS_SAFE {
            on_move.on_ks_castle::<WQ, WK, BQ, BK>(turn, self);
        }
        if qs_right && (empty >> rank) & QS_EMPTY == QS_EMPTY && (safe >> rank) & QS_SAFE
            == QS_SAFE {
            on_move.on_qs_castle::<WQ, WK, BQ, BK>(turn, self);
        }
        assert(on_move.emitted() =~= moved + o.castle_emissions());
        assert(on_move.emitted() =~= old(on_move).emitted() + o.king_emissions());
    }

    /// Hands the visitor what a pawn's single step or capture from `from_idx` to `to_idx`
    /// gives: the move, or its four promotions.
    fn emit_advance<const WQ: bool, const WK: bool, const BQ: bool, const BK: bool, Mov: OnMove>(
        &self,
        turn: bool,
        on_move: &mut Mov,
        from_idx: u8,
        to_idx: u8,
    )
        requires
            old(on_move).inv(),
            from_idx < 64,
            to_idx < 64,
        ensures
            final(on_move).inv(),
            final(on_move).emitted() == old(on_move).emitted() + origin_of(
                WQ,
                WK,
                BQ,
                BK,
                turn,
                *self,
            ).advance(from_idx, to_idx),
    {
        let ghost o = origin_of(WQ, WK, BQ, BK, turn, *self);
        let last: u8 = if turn {
            6
        } else {
            1
        };
        assert(from_idx >> 3 == from_idx / 8) by (bit_vector);
        if from_idx >> 3 == last {
            let side: u8 = if turn {
                8
            } else {
                0
            };
            on_move.on_promotion::<WQ, WK, BQ, BK>(turn, self, from_idx, to_idx, side + 5);
            on_move.on_promotion::<WQ, WK, BQ, BK>(turn, self, from_idx, to_idx, side + 1);
            on_move.on_promotion::<WQ, WK, BQ, BK>(turn, self, from_idx, to_idx, side + 2);
            on_move.on_promotion::<WQ, WK, BQ, BK>(turn, self, from_idx, to_idx, side + 3);
            assert(on_move.emitted() =~= old(on_move).emitted() + o.promotions(from_idx, to_idx));
        } else {
            on_move.on_move::<WQ, WK, BQ, BK>(turn, self, from_idx, to_idx);
            assert(on_move.emitted() =~= old(on_move).emitted() + seq![
                o.emit(Step::Move { from: from_idx, to: to_idx }),
            ]);
        }
    }

    /// Hands the visitor the single steps of the pawns on `sources`.
    fn gen_pawn_pushes<
        const WQ: bool,
        const WK: bool,
        const BQ: bool,
        const BK: bool,
        Mov: OnMove,
    >(&self, turn: bool, on_move: &mut Mov, sources: u64)
        requires
            old(on_move).inv(),
            forall|f: int|
                #[trigger] bit(sources, f) ==> (if turn {
                    f < 56
                } else {
                    8 <= f
                }),
        ensures
            final(on_move).inv(),
            final(on_move).emitted() == old(on_move).emitted() + each(
                sources,
                origin_of(WQ, WK, BQ, BK, turn, *self).push_gen(),
            ),
    {
        let ghost o = origin_of(WQ, WK, BQ, BK, turn, *self);
        let ghost g = o.push_gen();
        let ghost all = old(on_move).emitted() + each(sources, g);
        let mut up1 = sources;
        while up1 != 0
            invariant
                on_move.inv(),
                o == origin_of(WQ, WK, BQ, BK, turn, *self),
                g == o.push_gen(),
                forall|f: int|
                    #[trigger] bit(up1, f) ==> (if turn {
                        f < 56
                    } else {
                        8 <= f
                    }),
                on_move.emitted() + each(up1, g) == all,
            decreases up1,
        {
            let ghost before = on_move.emitted();
            proof {
                lemma_each_unfold(up1, g);
            }
            let from_idx = up1.trailing_zeros() as u8;
            let to_idx = if turn {
                from_idx + 8
            } else {
                from_idx - 8
            };
            self.emit_advance::<WQ, WK, BQ, BK, Mov>(turn, on_move, from_idx, to_idx);
            up1 &= up1 - 1;
            assert(g(from_idx) == o.advance(from_idx, to_idx));
            assert(on_move.emitted() + each(up1, g) =~= before + (g(from_idx) + each(up1, g)));
        }
        proof {
            lemma_each_empty(g);
            assert(on_move.emitted() + Seq::<Emission>::empty() =~= on_move.emitted());
        }
    }

    /// Hands the visitor the double steps of the pawns on `sources`.
    fn gen_pawn_double_pushes<
        const WQ: bool,
        const WK: bool,
        const BQ: bool,
        const BK: bool,
        Mov: OnMove,
    >(&self, turn: bool, on_move: &mut Mov, sources: u64)
        requires
            old(on_move).inv(),
            forall|f: int|
                #[trigger] bit(sources, f) ==> (if turn {
                    f < 48
                } else {
                    16 <= f
                }),
        ensures
            final(on_move).inv(),
            final(on_move).emitted() == old(on_move).emitted() + each(
                sources,
                origin_of(WQ, WK, BQ, BK, turn, *self).push2_gen(),
            ),
    {
        let ghost o = origin_of(WQ, WK, BQ, BK, turn, *self);
        let ghost g = o.push2_gen();
        let ghost all = old(on_move).emitted() + each(sources, g);
        let mut up2 = sources;
        while up2 != 0
            invariant
                on_move.inv(),
                o == origin_of(WQ, WK, BQ, BK, turn, *self),
                g == o.push2_gen(),
                forall|f: int|
                    #[trigger] bit(up2, f) ==> (if turn {
                        f < 48
                    } else {
                        16 <= f
                    }),
                on_move.emitted() + each(up2, g) == all,
            decreases up2,
        {
            let ghost before = on_move.emitted();
            proof {
                lemma_each_unfold(up2, g);
            }
            let from_idx = up2.trailing_zeros() as u8;
            on_move.on_pawn_push2::<WQ, WK, BQ, BK>(turn, self, from_idx);
            up2 &= up2 - 1;
            assert(g(from_idx) == seq![o.emit(Step::PawnPush2 { from: from_idx })]);
            assert(on_move.emitted() + each(up2, g) =~= before + (g(from_idx) + each(up2, g)));
        }
        proof {
            lemma_each_empty(g);
            assert(on_move.emitted() + Seq::<Emission>::empty() =~= on_move.emitted());
        }
    }

    /// Hands the visitor the captures `d` squares ahead of the pawns on `sources`.
    fn gen_pawn_captures<
        const WQ: bool,
        const WK: bool,
        const BQ: bool,
        const BK: bool,
        Mov: OnMove,
    >(&self, turn: bool, on_move: &mut Mov, sources: u64, d: u8, empty: u64, check_mask: u64)
        requires
            old(on_move).inv(),
            d == 7 || d == 9,
            empty == !self.spec_piece_mask(),
            check_mask == self.spec_check_mask(turn),
            forall|f: int|
                #[trigger] bit(sources, f) ==> (if turn {
                    8 <= f + d < 64
                } else {
                    d <= f < 56 + d
                }),
        ensures
            final(on_move).inv(),
            final(on_move).emitted() == old(on_move).emitted() + each(
                sources,
                origin_of(WQ, WK, BQ, BK, turn, *self).capture_gen(d),
            ),
    {
        let ghost o = origin_of(WQ, WK, BQ, BK, turn, *self);
        let ghost g = o.capture_gen(d);
        let ghost all = old(on_move).emitted() + each(sources, g);
        let ep_rank = if turn {
            RANK_5
        } else {
            RANK_4
        };
        let mut pawns = sources;
        while pawns != 0
            invariant
                on_move.inv(),
                d == 7 || d == 9,
                empty == !self.spec_piece_mask(),
                check_mask == self.spec_check_mask(turn),
                ep_rank == if turn {
                    RANK_5
                } else {
                    RANK_4
                },
                o == origin_of(WQ, WK, BQ, BK, turn, *self),
                g == o.capture_gen(d),
                forall|f: int|
                    #[trigger] bit(pawns, f) ==> (if turn {
                        8 <= f + d < 64
                    } else {
                        d <= f < 56 + d
                    }),
                on_move.emitted() + each(pawns, g) == all,
            decreases pawns,
        {
            let ghost before = on_move.emitted();
            proof {
                lemma_each_unfold(pawns, g);
            }
            let from_idx = pawns.trailing_zeros() as u8;
            let to_idx = if turn {
                from_idx + d
            } else {
                from_idx - d
            };
            let victim = if turn {
                from_idx + d - 8
            } else {
                from_idx + 8 - d
            };
            proof {
                lemma_bit_test(empty, to_idx);
                lemma_bit_test(check_mask, victim);
                broadcast use group_bit;

            }
            if empty & (1u64 << to_idx) == 0 {
                self.emit_advance::<WQ, WK, BQ, BK, Mov>(turn, on_move, from_idx, to_idx);
            } else if self.hor_pin_mask2(turn) & ep_rank == 0 && check_mask & (1u64 << victim)
                != 0 {
                on_move.on_ep_move::<WQ, WK, BQ, BK>(turn, self, from_idx, to_idx);
                assert(on_move.emitted() =~= before + seq![
                    o.emit(Step::EnPassant { from: from_idx, to: to_idx }),
                ]);
            } else {
                assert(on_move.emitted() =~= before + Seq::<Emission>::empty());
            }
            pawns &= pawns - 1;
            assert(on_move.emitted() == before + g(from_idx));
            assert(on_move.emitted() + each(pawns, g) =~= before + (g(from_idx) + each(pawns, g)));
        }
        proof {
            lemma_each_empty(g);
            assert(on_move.emitted() + Seq::<Emission>::empty() =~= on_move.emitted());
        }
    }

    /// Hands the visitor every legal pawn move of side `turn`, where `sq` is the en-passant
    /// target of the position, if it has one.
    pub fn gen_pawn_moves<
        const WQ: bool,
        const WK: bool,
        const BQ: bool,
        const BK: bool,
        Mov: OnMove,
    >(&self, turn: bool, on_move: &mut Mov, sq: Option<u8>)
        requires
            old(on_move).inv(),
            sq matches Some(x) ==> x < 64,
        ensures
            final(on_move).inv(),
            final(on_move).emitted() == old(on_move).emitted() + origin_of(
                WQ,
                WK,
                BQ,
                BK,
                turn,
                *self,
            ).pawn_emissions(sq),
    {
        let ghost o = origin_of(WQ, WK, BQ, BK, turn, *self);
        let check_mask = self.check_mask(turn);
        let hor_pins = self.hor_pin_mask(turn);
        let ortho_pins = self.ortho_pin_mask(turn);
        let lr_pins = self.lr_pin_mask(turn);
        let rl_pins = self.rl_pin_mask(turn);
        let diagonal_pins = self.diagonal_pin_mask(turn);
        let empty = !self.piece_mask();
        let empty_free = empty & check_mask;
        let ep: u64 = match sq {
            Some(x) => 1u64 << x,
            None => 0,
        };
        let enemy = self.col_piece_mask(!turn) & check_mask | ep;

        let base_pawns = self.col_pawn_mask(turn);
        let lr_pawns = base_pawns & !rl_pins & !ortho_pins;
        let up_pawns = base_pawns & !diagonal_pins & !hor_pins;
        let rl_pawns = base_pawns & !lr_pins & !ortho_pins;
        let up1 = if turn {
            (empty_free >> 8u8) & up_pawns
        } else {
            (empty_free << 8u8) & up_pawns
        };
        let up2 = if turn {
            (empty_free >> 16u8) & (empty >> 8u8) & up_pawns & RANK_2
        } else {
            (empty_free << 16u8) & (empty << 8u8) & up_pawns & RANK_7
        };
        let lr = if turn {
            (enemy >> 7u8) & lr_pawns & !RIGHT_SIDE
        } else {
            (enemy << 7u8) & lr_pawns & !LEFT_SIDE
        };
        let rl = if turn {
            (enemy >> 9u8) & rl_pawns & !LEFT_SIDE
        } else {
            (enemy << 9u8) & rl_pawns & !RIGHT_SIDE
        };
        assert(up1 == o.push_sources());
        assert(up2 == o.push2_sources());
        assert(lr == o.capture_sources(sq, 7));
        assert(rl == o.capture_sources(sq, 9));
        proof {
            o.lemma_pawn_sources_in_range(sq);
        }
        self.gen_pawn_pushes::<WQ, WK, BQ, BK, Mov>(turn, on_move, up1);
        self.gen_pawn_double_pushes::<WQ, WK, BQ, BK, Mov>(turn, on_move, up2);
        self.gen_pawn_captures::<WQ, WK, BQ, BK, Mov>(turn, on_move, lr, 7, empty, check_mask);
        self.gen_pawn_captures::<WQ, WK, BQ, BK, Mov>(turn, on_move, rl, 9, empty, check_mask);
        assert(on_move.emitted() =~= old(on_move).emitted() + o.pawn_emissions(sq));
    }

    /// Hands the visitor every legal move of side `turn` on this board, where the four
    /// constants are the castling rights and `ep` is the en-passant target, if there is one.
    pub fn gen_moves<const WQ: bool, const WK: bool, const BQ: bool, const BK: bool, Mov: OnMove>(
        &self,
        turn: bool,
        on_move: &mut Mov,
        ep: Option<u8>,
    )
        requires
            old(on_move).inv(),
            ep matches Some(x) ==> x < 64,
        ensures
            final(on_move).inv(),
            final(on_move).emitted() == old(on_move).emitted() + origin_of(
                WQ,
                WK,
                BQ,
                BK,
                turn,
                *self,
            ).emissions(ep),
    {
        let ghost o = origin_of(WQ, WK, BQ, BK, turn, *self);
        self.gen_pawn_moves::<WQ, WK, BQ, BK, Mov>(turn, on_move, ep);
        self.gen_knight_moves::<WQ, WK, BQ, BK, Mov>(turn, on_move);
        self.gen_diagonal_moves::<WQ, WK, BQ, BK, Mov>(turn, on_move);
        self.gen_ortho_moves::<WQ, WK, BQ, BK, Mov>(turn, on_move);
        self.gen_king_moves::<WQ, WK, BQ, BK, Mov>(turn, on_move);
        proof {
            lemma_five_runs(
                old(on_move).emitted(),
                o.pawn_emissions(ep),
                o.knight_emissions(),
                o.diagonal_emissions(),
                o.ortho_emissions(),
                o.king_emissions(),
            );
        }
    }
}

/// Five runs added one after the other to a record are their concatenation added to it.
proof fn lemma_five_runs(
    start: Seq<Emission>,
    a: Seq<Emission>,
    b: Seq<Emission>,
    c: Seq<Emission>,
    d: Seq<Emission>,
    e: Seq<Emission>,
)
    ensures
        start + a + b + c + d + e == start + (a + b + c + d + e),
{
    assert(start + a + b + c + d + e =~= start + (a + b + c + d + e));
}

/// The squares that the king may not step onto along an axis on which it is in check.
fn retreat_from(axis_check: u64, near: u64, sliders: u64) -> (r: u64)
    ensures
        r == retreat(axis_check, near, sliders),
{
    if axis_check != u64::MAX {
        near & !sliders
    } else {
        0
    }
}

} // verus!
