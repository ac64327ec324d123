//! The king of the side that moved is not left in check: what the check mask, the pin masks
//! and the king's targets mean in lines of sight, and what follows for the successors.

use crate::bit_board::masks::{
    attacks, diagonal_rays, king_fan, knight_fan, lemma_diagonal_rays, lemma_king_fan,
    lemma_ortho_rays, ortho_rays, threatens,
};
use crate::bit_board::planes::{kind, piece_of, white, BitBoard, BISHOP, KING, KNIGHT, PAWN, QUEEN, ROOK};
use crate::bit_board::generate::{ep_bit, retreat, KS_EMPTY, KS_SAFE, QS_EMPTY, QS_SAFE};
use crate::bit_board::generate::{lemma_bit_ranks, RANK_4, RANK_5};
use crate::bit_board::threats::{check_ray, pin_ray, pin_ray2, restrict};
use crate::bit_board::position::BitBoardGame;
use crate::bit_board::visitor::{Emission, Origin, Step};
use crate::game::ChessGame;
use crate::bits::{
    bit, each, group_bit, king_step, knight_jump, lemma_bit_and, lemma_bit_full, lemma_bit_not,
    lemma_bit_or, lemma_bit_single, lemma_bit_zero, lemma_each_all, lemma_lowest,
    lemma_bits_equal, lemma_king_step_offsets, lemma_knight_jump_offsets, lemma_pawn_hit_offsets,
    pawn_hit, slide, LEFT2_SIDE, LEFT_SIDE, RIGHT2_SIDE, RIGHT_SIDE,
};
use crate::rays::{
    aligned, between, heads, is_dir, lemma_aligned_back, lemma_aligned_order, lemma_aligned_range,
    lemma_aligned_trans, lemma_file_off_diagonal, lemma_first_blocker, lemma_neighbours_see,
    lemma_no_triangle, lemma_one_direction, lemma_rank_line, lemma_rank_neighbour,
    lemma_sees_back, lemma_step_on_line, lemma_two_steps_on_line,
    lemma_sees_parts, lemma_slide_sees, lemma_slide_sees_from,
    lemma_step_aligned, one_step, sees,
    sees_diagonally, sees_straight, span,
};
use vstd::prelude::*;

verus! {

/// The direction is along a diagonal.
pub open spec fn slanted(df: int, dr: int) -> bool {
    df != 0 && dr != 0
}

/// The tag is a piece of side `side` that slides along the direction (`df`, `dr`): a bishop
/// or queen along a diagonal, a rook or queen along a rank or file.
pub open spec fn slides_along(tag: u8, side: bool, df: int, dr: int) -> bool {
    piece_of(tag, side) && (kind(tag) == QUEEN || kind(tag) == (if slanted(df, dr) {
        BISHOP as int
    } else {
        ROOK as int
    }))
}

impl BitBoard {
    /// The king of side `side` stands on `sq`, and nowhere else.
    pub open spec fn sole_king(self, side: bool, sq: int) -> bool {
        self.king_on(sq, side) && self.one_king_at_most(side)
    }

    /// The pieces of side `side` that slide along the direction (`df`, `dr`).
    pub open spec fn sliders(self, side: bool, df: int, dr: int) -> u64 {
        if slanted(df, dr) {
            self.spec_col_diagonal_mask(side)
        } else {
            self.spec_col_ortho_mask(side)
        }
    }

    /// The check mask of the line that the direction (`df`, `dr`) lies on.
    pub open spec fn line_check_mask(self, side: bool, df: int, dr: int) -> u64 {
        if dr == 0 {
            self.spec_hor_check_mask(side)
        } else if df == 0 {
            self.spec_vert_check_mask(side)
        } else if df == dr {
            self.spec_rl_check_mask(side)
        } else {
            self.spec_lr_check_mask(side)
        }
    }

    /// With one king, the king mask is the king's square.
    pub proof fn lemma_sole_king(self, side: bool, sq: int)
        requires
            self.sole_king(side, sq),
        ensures
            self.spec_col_king_mask(side) == 1u64 << (sq as u8),
    {
        self.lemma_masks(side);
        let m = self.spec_col_king_mask(side);
        assert forall|i: int| 0 <= i < 64 implies bit(m, i) == bit(1u64 << (sq as u8), i) by {
            lemma_bit_single(sq as u8, i);
            if bit(m, i) {
                assert(self.king_on(i, side));
            }
        }
        lemma_bits_equal(m, 1u64 << (sq as u8));
    }

    /// The sliders of a side, square by square.
    pub proof fn lemma_sliders(self, side: bool, df: int, dr: int)
        ensures
            forall|sq: int|
                0 <= sq < 64 ==> #[trigger] bit(self.sliders(side, df, dr), sq) == slides_along(
                    self.tag(sq),
                    side,
                    df,
                    dr,
                ),
    {
        self.lemma_masks(side);
    }
}

/// Where one of `attackers` is in sight of the king along a direction, the check ray of that
/// direction is what the king sees along it; and it is not the full board.
pub proof fn lemma_check_ray(
    king: u8,
    step: u8,
    blockers: u64,
    edge: u64,
    up: bool,
    df: int,
    dr: int,
    attackers: u64,
    from: int,
)
    requires
        king < 64,
        heads(step, edge, up, df, dr),
        bit(attackers, from),
        sees(king as int, from, df, dr, blockers),
    ensures
        check_ray(1u64 << king, step, blockers, edge, up, attackers) != u64::MAX,
        forall|x: int|
            #[trigger] bit(check_ray(1u64 << king, step, blockers, edge, up, attackers), x) == sees(
            king as int,
            x,
            df,
            dr,
            blockers,
        ),
{
    broadcast use crate::bits::lemma_bit_and;

    let ray = slide(1u64 << king, step, blockers, edge, up);
    lemma_slide_sees(king, step, blockers, edge, up, df, dr);
    assert(bit(ray & attackers, from));
    lemma_bit_zero(from);
    assert(ray & attackers != 0);
    lemma_bit_full(king as int);
    if sees(king as int, king as int, df, dr, blockers) {
        lemma_aligned_range(king as int, king as int, df, dr);
    }
    assert(!bit(ray, king as int));
}

impl BitBoard {
    /// A slider that checks the king along a line bounds the check mask: only squares that the
    /// king sees along that line, the slider's own among them, answer the check; and the check
    /// mask of that line is not the full board.
    pub proof fn lemma_line_check(self, side: bool, king: int, df: int, dr: int, from: int)
        requires
            is_dir(df, dr),
            self.sole_king(side, king),
            slides_along(self.tag(from), !side, df, dr),
            sees(king, from, df, dr, self.spec_piece_mask()),
        ensures
            self.line_check_mask(side, df, dr) != u64::MAX,
            forall|x: int|
                #[trigger] bit(self.spec_check_mask(side), x) ==> sees(
                    king,
                    x,
                    df,
                    dr,
                    self.spec_piece_mask(),
                ),
    {
        broadcast use crate::bits::lemma_bit_and;

        let k = king as u8;
        let occ = self.spec_piece_mask();
        let kings = self.spec_col_king_mask(side);
        let others = self.sliders(!side, df, dr);
        self.lemma_sole_king(side, king);
        self.lemma_sliders(!side, df, dr);
        lemma_aligned_range(king, from, df, dr);
        assert(bit(others, from));
        let step: u8 = if dr == 0 {
            1
        } else if df == 0 {
            8
        } else if df == dr {
            9
        } else {
            7
        };
        let up = dr > 0 || (dr == 0 && df > 0);
        let edge = if df == 1 {
            RIGHT_SIDE
        } else if df == -1 {
            LEFT_SIDE
        } else {
            0
        };
        assert(heads(step, edge, up, df, dr));
        lemma_check_ray(k, step, occ, edge, up, df, dr, others, from);
        let mine = check_ray(kings, step, occ, edge, up, others);
        let line = self.line_check_mask(side, df, dr);
        let back_edge = if df == 1 {
            LEFT_SIDE
        } else if df == -1 {
            RIGHT_SIDE
        } else {
            0
        };
        let other = check_ray(kings, step, occ, back_edge, !up, others);
        assert(line == mine & other || line == other & mine);
        assert forall|x: int| #[trigger] bit(line, x) implies bit(mine, x) by {}
        assert(line != u64::MAX) by {
            lemma_bit_full(king);
            if sees(king, king, df, dr, occ) {
                lemma_aligned_range(king, king, df, dr);
            }
            assert(!bit(mine, king));
        }
        assert forall|x: int| #[trigger] bit(self.spec_check_mask(side), x) implies bit(line, x) by {}
    }
}

/// The two squares next to the king on the line that the direction (`df`, `dr`) lies on.
pub open spec fn near(king: u64, df: int, dr: int) -> u64 {
    if dr == 0 {
        (!LEFT_SIDE & (king >> 1u8)) | (!RIGHT_SIDE & (king << 1u8))
    } else if df == 0 {
        (king >> 8u8) | (king << 8u8)
    } else if df == dr {
        (!LEFT_SIDE & (king >> 9u8)) | (!RIGHT_SIDE & (king << 9u8))
    } else {
        (!RIGHT_SIDE & (king >> 7u8)) | (!LEFT_SIDE & (king << 7u8))
    }
}

/// The squares one step from the king along a direction or against it are `near` it.
pub proof fn lemma_near(king: u8, df: int, dr: int, g: int)
    requires
        king < 64,
        is_dir(df, dr),
        one_step(king as int, g, df, dr),
    ensures
        bit(near(1u64 << king, df, dr), g),
{
    broadcast use group_bit;

    let k = king as int;
    assert(k == 8 * (k / 8) + k % 8 && g == 8 * (g / 8) + g % 8);
}

/// A king's step is one step along one of the eight directions.
pub proof fn lemma_king_step_dir(k: int, g: int) -> (d: (int, int))
    requires
        king_step(k, g),
    ensures
        is_dir(d.0, d.1),
        one_step(k, g, d.0, d.1),
{
    (g % 8 - k % 8, g / 8 - k / 8)
}

impl BitBoard {
    /// The king of side `side` on `king` is in check along a line from one side while an
    /// enemy piece that slides along that line stands next to it on the other side.
    pub open spec fn sandwiched(self, side: bool, king: int) -> bool {
        exists|df: int, dr: int, from: int, g: int|
            is_dir(df, dr) && slides_along(self.tag(from), !side, df, dr) && #[trigger] sees(
                king,
                from,
                df,
                dr,
                self.spec_piece_mask(),
            ) && #[trigger] one_step(king, g, -df, -dr) && slides_along(self.tag(g), !side, df, dr)
    }
}

impl Origin {
    /// What the king's targets are: squares next to the king that hold no piece of its side,
    /// that the other side does not attack, and that do not lie on a line on which a slider
    /// checks the king, unless an enemy piece that slides along that line stands there.
    pub proof fn lemma_king_target(self, king: int, g: int)
        requires
            self.board.sole_king(self.turn, king),
            bit(self.king_targets(), g),
        ensures
            king_step(king, g),
            !piece_of(self.board.tag(g), self.turn),
            forall|a: int| !threatens(self.board, self.turn, a, g),
            forall|df: int, dr: int|
                is_dir(df, dr) && #[trigger] one_step(king, g, df, dr)
                    && self.board.line_check_mask(self.turn, df, dr) != u64::MAX
                    ==> slides_along(self.board.tag(g), !self.turn, df, dr),
    {
        broadcast use crate::bits::lemma_bit_and, crate::bits::lemma_bit_not;

        let b = self.board;
        let t = self.turn;
        let kings = b.spec_col_king_mask(t);
        let ortho = b.spec_col_ortho_mask(!t);
        let diag = b.spec_col_diagonal_mask(!t);
        b.lemma_sole_king(t, king);
        b.lemma_masks(t);
        b.lemma_attack_mask(!t);
        lemma_king_fan(kings);
        assert(bit(king_fan(kings), g));
        let from = choose|from: int| bit(kings, from) && king_step(from, g);
        assert(b.king_on(from, t));
        assert(!bit(b.spec_attack_mask(!t), g));
        assert forall|df: int, dr: int|
            is_dir(df, dr) && #[trigger] one_step(king, g, df, dr) && b.line_check_mask(t, df, dr)
                != u64::MAX implies slides_along(b.tag(g), !t, df, dr) by {
            lemma_near(king as u8, df, dr, g);
            b.lemma_sliders(!t, df, dr);
            let line = b.line_check_mask(t, df, dr);
            let squares = near(kings, df, dr);
            let others = b.sliders(!t, df, dr);
            assert(!bit(retreat(line, squares, others), g));
            assert(retreat(line, squares, others) == squares & !others);
        }
    }

    /// The king does not step into check. Where the king of the side to move is its only one
    /// and is not sandwiched, no piece of the other side attacks the square that the king
    /// has moved to.
    pub proof fn lemma_king_steps_safely(self, from: u8, to: u8)
        requires
            self.board.sole_king(self.turn, from as int),
            !self.board.sandwiched(self.turn, from as int),
            bit(self.king_targets(), to as int),
        ensures
            forall|a: int| !threatens(self.board.moved(from, to), self.turn, a, to as int),
    {
        let king = from as int;
        let g = to as int;
        let b = self.board;
        let t = self.turn;
        let after = b.moved(from, to);
        let occ = b.spec_piece_mask();
        let occ2 = after.spec_piece_mask();
        self.lemma_king_target(king, g);
        lemma_king_step_offsets(king, g);
        b.lemma_moved(from, to);
        b.lemma_masks(t);
        after.lemma_masks(t);
        assert forall|u: int| 0 <= u < 64 implies after.tag(u) == (if u == king {
            0u8
        } else if u == g {
            b.tag(king)
        } else {
            b.tag(u)
        }) by {
            assert(after@[u] == after.tag(u));
            assert(b@[u] == b.tag(u));
            assert(b@[king] == b.tag(king));
        }
        assert forall|u: int| 0 <= u < 64 implies #[trigger] bit(occ2, u) == (u == g || (u != king
            && bit(occ, u))) by {}
        assert forall|a: int| !threatens(after, t, a, g) by {
            if attacks(after, !t, a, g) {
                assert(a != g && a != king);
                assert(after.tag(a) == b.tag(a));
                let k = kind(b.tag(a));
                if (k == PAWN && pawn_hit(!t, a, g)) || (k == KNIGHT && knight_jump(a, g)) || (k
                    == KING && king_step(a, g)) {
                    assert(attacks(b, !t, a, g));
                } else {
                    let d = lemma_slider_dir(after, !t, a, g);
                    self.lemma_slider_blocked(from, to, a, d.0, d.1);
                }
                assert(threatens(b, t, a, g));
            }
        }
    }

    /// A slider that attacks the square that the king has moved to attacked it before.
    proof fn lemma_slider_blocked(self, from: u8, to: u8, a: int, df: int, dr: int)
        requires
            self.board.sole_king(self.turn, from as int),
            !self.board.sandwiched(self.turn, from as int),
            bit(self.king_targets(), to as int),
            is_dir(df, dr),
            a != to,
            a != from,
            slides_along(self.board.tag(a), !self.turn, df, dr),
            sees(a, to as int, df, dr, self.board.moved(from, to).spec_piece_mask()),
            forall|u: int|
                0 <= u < 64 ==> #[trigger] bit(self.board.moved(from, to).spec_piece_mask(), u)
                    == (u == to || (u != from && bit(self.board.spec_piece_mask(), u))),
        ensures
            attacks(self.board, !self.turn, a, to as int),
    {
        let king = from as int;
        let g = to as int;
        let b = self.board;
        let t = self.turn;
        let occ = b.spec_piece_mask();
        let occ2 = b.moved(from, to).spec_piece_mask();
        self.lemma_king_target(king, g);
        if between(a, king, g, df, dr) {
            lemma_sees_parts(a, king, g, df, dr, occ2);
            assert(sees(a, king, df, dr, occ)) by {
                assert forall|u: int| between(a, u, king, df, dr) implies !bit(occ, u) by {
                    lemma_aligned_range(u, king, df, dr);
                    lemma_aligned_range(a, u, df, dr);
                }
            }
            lemma_sees_back(a, king, df, dr, occ);
            b.lemma_line_check(t, king, -df, -dr, a);
            lemma_step_aligned(king, g, df, dr);
            let d = lemma_king_step_dir(king, g);
            lemma_step_aligned(king, g, d.0, d.1);
            lemma_aligned_range(king, g, df, dr);
            assert(span(king, g) == 1);
            assert(one_step(king, g, df, dr));
            assert(b.line_check_mask(t, df, dr) == b.line_check_mask(t, -df, -dr));
            assert(slides_along(b.tag(g), !t, df, dr));
            assert(slides_along(b.tag(a), !t, -df, -dr));
            assert(slides_along(b.tag(g), !t, -df, -dr));
            assert(one_step(king, g, -(-df), -(-dr)));
            assert(b.sandwiched(t, king));
        } else {
            assert(sees(a, g, df, dr, occ)) by {
                assert forall|u: int| between(a, u, g, df, dr) implies !bit(occ, u) by {
                    lemma_aligned_range(a, u, df, dr);
                    lemma_aligned_range(u, g, df, dr);
                }
            }
            let k = kind(b.tag(a));
            assert(attacks(b, !t, a, g)) by {
                lemma_dir_cases(df, dr);
            }
        }
    }
}

/// The direction along which a sliding piece attacks.
pub proof fn lemma_slider_dir(b: BitBoard, side: bool, a: int, t: int) -> (d: (int, int))
    requires
        attacks(b, side, a, t),
        !(kind(b.tag(a)) == PAWN && pawn_hit(side, a, t)),
        !(kind(b.tag(a)) == KNIGHT && knight_jump(a, t)),
        !(kind(b.tag(a)) == KING && king_step(a, t)),
    ensures
        is_dir(d.0, d.1),
        slides_along(b.tag(a), side, d.0, d.1),
        sees(a, t, d.0, d.1, b.spec_piece_mask()),
{
    let occ = b.spec_piece_mask();
    let k = kind(b.tag(a));
    if (k == BISHOP || k == QUEEN) && sees_diagonally(a, t, occ) {
        if sees(a, t, -1, 1, occ) {
            (-1, 1)
        } else if sees(a, t, 1, 1, occ) {
            (1, 1)
        } else if sees(a, t, -1, -1, occ) {
            (-1, -1)
        } else {
            (1, -1)
        }
    } else {
        if sees(a, t, 1, 0, occ) {
            (1, 0)
        } else if sees(a, t, -1, 0, occ) {
            (-1, 0)
        } else if sees(a, t, 0, 1, occ) {
            (0, 1)
        } else {
            (0, -1)
        }
    }
}

/// The eight directions, one by one.
pub proof fn lemma_dir_cases(df: int, dr: int)
    requires
        is_dir(df, dr),
    ensures
        (df == 1 && dr == 0) || (df == -1 && dr == 0) || (df == 0 && dr == 1) || (df == 0 && dr
            == -1) || (df == -1 && dr == 1) || (df == 1 && dr == 1) || (df == -1 && dr == -1) || (df
            == 1 && dr == -1),
{
}

/// The step, the edge and the sense of the sliding fill that goes along a direction.
pub open spec fn fill_of(df: int, dr: int) -> (u8, u64, bool) {
    (
        if dr == 0 {
            1u8
        } else if df == 0 {
            8u8
        } else if df == dr {
            9u8
        } else {
            7u8
        },
        if df == 1 {
            RIGHT_SIDE
        } else if df == -1 {
            LEFT_SIDE
        } else {
            0
        },
        dr > 0 || (dr == 0 && df > 0),
    )
}

/// The fill of a direction goes along it.
pub proof fn lemma_fill_of(df: int, dr: int)
    requires
        is_dir(df, dr),
    ensures
        heads(fill_of(df, dr).0, fill_of(df, dr).1, fill_of(df, dr).2, df, dr),
{
}

/// The king on `king` sees the blocker `f` along a direction, and `f` sees one of
/// `attackers` along the same direction: `f` is pinned.
pub open spec fn pinned_by(
    king: int,
    f: int,
    from: int,
    df: int,
    dr: int,
    blockers: u64,
    attackers: u64,
) -> bool {
    sees(king, f, df, dr, blockers) && bit(blockers, f) && sees(f, from, df, dr, blockers) && bit(
        attackers,
        from,
    )
}

/// The pin ray of a direction, square by square: where a blocker is pinned along it, the
/// squares that the king sees and those that the pinned blocker sees; nothing where none is.
pub proof fn lemma_pin_ray(
    king: u8,
    step: u8,
    blockers: u64,
    edge: u64,
    up: bool,
    df: int,
    dr: int,
    attackers: u64,
)
    requires
        king < 64,
        heads(step, edge, up, df, dr),
    ensures
        forall|x: int|
            #[trigger] bit(pin_ray(1u64 << king, step, blockers, edge, up, attackers), x)
                == (exists|f: int, from: int|
                pinned_by(king as int, f, from, df, dr, blockers, attackers) && (sees(
                    king as int,
                    x,
                    df,
                    dr,
                    blockers,
                ) || sees(f, x, df, dr, blockers))),
{
    broadcast use crate::bits::lemma_bit_and, crate::bits::lemma_bit_or;

    let k = king as int;
    let r1 = slide(1u64 << king, step, blockers, edge, up);
    let r2 = slide(r1 & blockers, step, blockers, edge, up);
    let pin = pin_ray(1u64 << king, step, blockers, edge, up, attackers);
    lemma_slide_sees(king, step, blockers, edge, up, df, dr);
    lemma_slide_sees_from(r1 & blockers, step, blockers, edge, up, df, dr);
    assert forall|x: int| #[trigger] bit(pin, x) == (exists|f: int, from: int|
        pinned_by(k, f, from, df, dr, blockers, attackers) && (sees(k, x, df, dr, blockers) || sees(
            f,
            x,
            df,
            dr,
            blockers,
        ))) by {
        if bit(pin, x) {
            assert(r2 & attackers != 0);
            crate::bits::lemma_lowest(r2 & attackers);
            let from = vstd::std_specs::bits::u64_trailing_zeros(r2 & attackers) as int;
            assert(bit(r2, from) && bit(attackers, from));
            let f = choose|f: int| bit(r1 & blockers, f) && sees(f, from, df, dr, blockers);
            assert(pinned_by(k, f, from, df, dr, blockers, attackers));
            if !sees(k, x, df, dr, blockers) {
                assert(bit(r2, x));
                let f2 = choose|f2: int| bit(r1 & blockers, f2) && sees(f2, x, df, dr, blockers);
                lemma_first_blocker(k, f, f2, df, dr, blockers);
            }
        }
        if exists|f: int, from: int|
            pinned_by(k, f, from, df, dr, blockers, attackers) && (sees(k, x, df, dr, blockers)
                || sees(f, x, df, dr, blockers)) {
            let (f, from) = choose|f: int, from: int|
                pinned_by(k, f, from, df, dr, blockers, attackers) && (sees(k, x, df, dr, blockers)
                    || sees(f, x, df, dr, blockers));
            assert(bit(r1 & blockers, f));
            assert(bit(r2, from));
            assert(bit(r2 & attackers, from));
            lemma_bit_zero(from);
            assert(r2 & attackers != 0);
            if !sees(k, x, df, dr, blockers) {
                assert(bit(r2, x));
            }
        }
    }
}

impl BitBoard {
    /// The pin mask of the line that the direction (`df`, `dr`) lies on.
    pub open spec fn line_pin_mask(self, side: bool, df: int, dr: int) -> u64 {
        if dr == 0 {
            self.spec_hor_pin_mask(side)
        } else if df == 0 {
            self.spec_vert_pin_mask(side)
        } else if df == dr {
            self.spec_rl_pin_mask(side)
        } else {
            self.spec_lr_pin_mask(side)
        }
    }

    /// The blocker `f` is pinned to the king `king` of side `side` by the piece on `from`
    /// along the direction (`df`, `dr`).
    pub open spec fn pins(self, side: bool, king: int, f: int, from: int, df: int, dr: int)
        -> bool {
        pinned_by(king, f, from, df, dr, self.spec_piece_mask(), self.sliders(!side, df, dr))
    }

    /// The pin mask of a line, square by square: the squares from the king to the pinning
    /// piece, for each direction of the line along which a blocker is pinned.
    pub proof fn lemma_line_pin(self, side: bool, king: int, df: int, dr: int)
        requires
            is_dir(df, dr),
            self.sole_king(side, king),
        ensures
            forall|x: int|
                #[trigger] bit(self.line_pin_mask(side, df, dr), x) == (exists|
                    f: int,
                    from: int,
                    wf: int,
                    wr: int,
                |
                    same_line(wf, wr, df, dr) && #[trigger] self.pins(side, king, f, from, wf, wr)
                        && (sees(king, x, wf, wr, self.spec_piece_mask()) || sees(
                        f,
                        x,
                        wf,
                        wr,
                        self.spec_piece_mask(),
                    ))),
    {
        broadcast use crate::bits::lemma_bit_or;

        let occ = self.spec_piece_mask();
        let k = king as u8;
        let kings = self.spec_col_king_mask(side);
        self.lemma_sole_king(side, king);
        let others = self.sliders(!side, df, dr);
        let nf = -df;
        let nr = -dr;
        assert(others == self.sliders(!side, nf, nr));
        let one = fill_of(df, dr);
        let two = fill_of(nf, nr);
        lemma_fill_of(df, dr);
        lemma_fill_of(nf, nr);
        lemma_pin_ray(k, one.0, occ, one.1, one.2, df, dr, others);
        lemma_pin_ray(k, two.0, occ, two.1, two.2, nf, nr, others);
        let ahead_pin = pin_ray(kings, one.0, occ, one.1, one.2, others);
        let behind_pin = pin_ray(kings, two.0, occ, two.1, two.2, others);
        let line = self.line_pin_mask(side, df, dr);
        assert(line == ahead_pin | behind_pin || line == behind_pin | ahead_pin);
        assert forall|x: int| #[trigger] bit(line, x) == (exists|
            f: int,
            from: int,
            wf: int,
            wr: int,
        |
            same_line(wf, wr, df, dr) && #[trigger] self.pins(side, king, f, from, wf, wr) && (sees(
                king,
                x,
                wf,
                wr,
                occ,
            ) || sees(f, x, wf, wr, occ))) by {
            if bit(ahead_pin, x) {
                let (f, from) = choose|f: int, from: int|
                    pinned_by(king, f, from, df, dr, occ, others) && (sees(king, x, df, dr, occ)
                        || sees(f, x, df, dr, occ));
                assert(same_line(df, dr, df, dr) && self.pins(side, king, f, from, df, dr));
            }
            if bit(behind_pin, x) {
                let (f, from) = choose|f: int, from: int|
                    pinned_by(king, f, from, nf, nr, occ, others) && (sees(king, x, nf, nr, occ)
                        || sees(f, x, nf, nr, occ));
                assert(same_line(nf, nr, df, dr) && self.pins(side, king, f, from, nf, nr));
            }
            if exists|f: int, from: int, wf: int, wr: int|
                same_line(wf, wr, df, dr) && #[trigger] self.pins(side, king, f, from, wf, wr) && (
                sees(king, x, wf, wr, occ) || sees(f, x, wf, wr, occ)) {
                let (f, from, wf, wr) = choose|f: int, from: int, wf: int, wr: int|
                    same_line(wf, wr, df, dr) && #[trigger] self.pins(side, king, f, from, wf, wr)
                        && (sees(king, x, wf, wr, occ) || sees(f, x, wf, wr, occ));
                if wf == df && wr == dr {
                    assert(pinned_by(king, f, from, df, dr, occ, others));
                    assert(bit(ahead_pin, x));
                } else {
                    assert(pinned_by(king, f, from, nf, nr, occ, others));
                    assert(bit(behind_pin, x));
                }
            }
        }
    }
}

/// The direction (`wf`, `wr`) lies on the line of the direction (`df`, `dr`): it is that
/// direction or the opposite one.
pub open spec fn same_line(wf: int, wr: int, df: int, dr: int) -> bool {
    (wf == df && wr == dr) || (wf == -df && wr == -dr)
}

impl BitBoard {
    /// A knight that checks the king bounds the check mask: only its capture answers the
    /// check.
    pub proof fn lemma_knight_check(self, side: bool, king: int, from: int)
        requires
            self.sole_king(side, king),
            piece_of(self.tag(from), !side),
            kind(self.tag(from)) == KNIGHT,
            knight_jump(from, king),
        ensures
            forall|x: int| #[trigger] bit(self.spec_check_mask(side), x) ==> x == from,
    {
        self.lemma_sole_king(side, king);
        self.lemma_masks(!side);
        lemma_knight_jump_offsets(king, from);
        assert(knight_jump(king, from));
        let others = self.spec_col_knight_mask(!side);
        assert(bit(others, from));
        let mask = self.spec_knight_check_mask(side);
        lemma_knight_keeps(king as u8, others, from);
        assert(mask == knight_answers(king as u8, others));
        assert forall|x: int| #[trigger] bit(self.spec_check_mask(side), x) implies x == from by {
            lemma_bit_and(
                self.spec_hor_check_mask(side) & self.spec_vert_check_mask(side)
                    & self.spec_lr_check_mask(side) & self.spec_rl_check_mask(side) & mask,
                self.spec_pawn_check_mask(side),
                x,
            );
            lemma_bit_and(
                self.spec_hor_check_mask(side) & self.spec_vert_check_mask(side)
                    & self.spec_lr_check_mask(side) & self.spec_rl_check_mask(side),
                mask,
                x,
            );
        }
    }

    /// A pawn that checks the king bounds the check mask: only its capture answers the check.
    pub proof fn lemma_pawn_check(self, side: bool, king: int, from: int)
        requires
            self.sole_king(side, king),
            piece_of(self.tag(from), !side),
            kind(self.tag(from)) == PAWN,
            pawn_hit(!side, from, king),
        ensures
            forall|x: int| #[trigger] bit(self.spec_check_mask(side), x) ==> x == from,
    {
        self.lemma_sole_king(side, king);
        self.lemma_masks(!side);
        lemma_pawn_hit_offsets(!side, from, king);
        let others = self.spec_col_pawn_mask(!side);
        assert(bit(others, from));
        let mask = self.spec_pawn_check_mask(side);
        lemma_pawn_keeps(side, king as u8, others, from);
        assert(mask == pawn_answers(side, king as u8, others));
        assert forall|x: int| #[trigger] bit(self.spec_check_mask(side), x) implies x == from by {
            lemma_bit_and(
                self.spec_hor_check_mask(side) & self.spec_vert_check_mask(side)
                    & self.spec_lr_check_mask(side) & self.spec_rl_check_mask(side)
                    & self.spec_knight_check_mask(side),
                mask,
                x,
            );
        }
    }

    /// The board `after` is this board with the piece of side `side` gone from `f` and a
    /// piece of that side on `g`.
    pub open spec fn moved_to(self, after: BitBoard, side: bool, f: int, g: int) -> bool {
        &&& 0 <= f < 64 && 0 <= g < 64 && f != g
        &&& piece_of(self.tag(f), side)
        &&& after.tag(f) == 0
        &&& piece_of(after.tag(g), side)
        &&& forall|u: int| 0 <= u < 64 && u != f && u != g ==> #[trigger] after.tag(u) == self.tag(u)
    }

    /// The move from `f` to `g` respects the pins: where `f` is pinned along a direction, `g`
    /// lies on the half-line from the king along that direction, and not beyond the pinning
    /// piece.
    pub open spec fn keeps_pins(self, side: bool, king: int, f: int, g: int) -> bool {
        forall|from: int, df: int, dr: int|
            is_dir(df, dr) && #[trigger] self.pins(side, king, f, from, df, dr) ==> aligned(
                king,
                g,
                df,
                dr,
            ) && !aligned(from, g, df, dr)
    }

    /// No king of the other side stands next to the king on `king`.
    pub open spec fn kings_apart(self, side: bool, king: int) -> bool {
        forall|a: int| self.king_on(a, !side) ==> !#[trigger] king_step(a, king)
    }

    /// A piece other than the king that moves to a square of the check mask and respects the
    /// pins leaves its king out of check.
    pub proof fn lemma_mover_safe(self, after: BitBoard, side: bool, king: int, f: int, g: int)
        requires
            self.sole_king(side, king),
            self.kings_apart(side, king),
            self.moved_to(after, side, f, g),
            f != king,
            g != king,
            bit(self.spec_check_mask(side), g),
            self.keeps_pins(side, king, f, g),
        ensures
            forall|a: int| !threatens(after, side, a, king),
    {
        let occ = self.spec_piece_mask();
        let occ2 = after.spec_piece_mask();
        self.lemma_masks(side);
        after.lemma_masks(side);
        assert forall|u: int| 0 <= u < 64 implies #[trigger] bit(occ2, u) == (u == g || (u != f
            && bit(occ, u))) by {}
        assert forall|a: int| !threatens(after, side, a, king) by {
            if attacks(after, !side, a, king) {
                assert(a != f && a != g);
                assert(after.tag(a) == self.tag(a));
                let k = kind(self.tag(a));
                if k == PAWN && pawn_hit(!side, a, king) {
                    self.lemma_pawn_check(side, king, a);
                } else if k == KNIGHT && knight_jump(a, king) {
                    self.lemma_knight_check(side, king, a);
                } else if k == KING && king_step(a, king) {
                    assert(self.king_on(a, !side));
                } else {
                    let d = lemma_slider_dir(after, !side, a, king);
                    self.lemma_slider_shut(after, side, king, f, g, a, d.0, d.1);
                }
            }
        }
    }

    /// A slider of the other side does not see the king after the move.
    proof fn lemma_slider_shut(
        self,
        after: BitBoard,
        side: bool,
        king: int,
        f: int,
        g: int,
        a: int,
        df: int,
        dr: int,
    )
        requires
            self.sole_king(side, king),
            self.moved_to(after, side, f, g),
            f != king,
            g != king,
            a != f,
            a != g,
            bit(self.spec_check_mask(side), g),
            self.keeps_pins(side, king, f, g),
            is_dir(df, dr),
            slides_along(self.tag(a), !side, df, dr),
            forall|u: int|
                0 <= u < 64 ==> #[trigger] bit(after.spec_piece_mask(), u) == (u == g || (u != f
                    && bit(self.spec_piece_mask(), u))),
        ensures
            !sees(a, king, df, dr, after.spec_piece_mask()),
    {
        let occ = self.spec_piece_mask();
        let occ2 = after.spec_piece_mask();
        let nf = -df;
        let nr = -dr;
        if sees(a, king, df, dr, occ2) {
            lemma_sees_back(a, king, df, dr, occ2);
            assert(sees(king, a, nf, nr, occ2));
            lemma_aligned_range(king, a, nf, nr);
            self.lemma_masks(side);
            self.lemma_sliders(!side, nf, nr);
            assert(slides_along(self.tag(a), !side, nf, nr));
            assert(bit(occ, a));
            if between(king, f, a, nf, nr) {
                lemma_sees_parts(king, f, a, nf, nr, occ2);
                assert(sees(king, f, nf, nr, occ)) by {
                    assert forall|u: int| #[trigger] between(king, u, f, nf, nr) implies !bit(
                        occ,
                        u,
                    ) by {
                        lemma_aligned_range(king, u, nf, nr);
                        lemma_aligned_range(u, f, nf, nr);
                    }
                }
                assert(sees(f, a, nf, nr, occ)) by {
                    assert forall|u: int| #[trigger] between(f, u, a, nf, nr) implies !bit(occ, u) by {
                        lemma_aligned_range(f, u, nf, nr);
                        lemma_aligned_range(u, a, nf, nr);
                    }
                }
                assert(self.pins(side, king, f, a, nf, nr));
                assert(aligned(king, g, nf, nr) && !aligned(a, g, nf, nr));
                lemma_aligned_order(king, g, a, nf, nr);
                assert(between(king, g, a, nf, nr));
                assert(!bit(occ2, g));
            } else {
                assert(sees(king, a, nf, nr, occ)) by {
                    assert forall|u: int| #[trigger] between(king, u, a, nf, nr) implies !bit(
                        occ,
                        u,
                    ) by {
                        lemma_aligned_range(king, u, nf, nr);
                        lemma_aligned_range(u, a, nf, nr);
                    }
                }
                self.lemma_line_check(side, king, nf, nr, a);
                assert(sees(king, g, nf, nr, occ));
                lemma_aligned_order(king, g, a, nf, nr);
                if aligned(g, a, nf, nr) {
                    assert(between(king, g, a, nf, nr));
                    assert(!bit(occ2, g));
                } else {
                    assert(between(king, a, g, nf, nr));
                    assert(!bit(occ, a));
                }
            }
        }
    }
}

impl BitBoard {
    /// A pinned blocker and all that the king and the blocker see along the pin are in the
    /// pin mask of the line of the pin.
    pub proof fn lemma_pin_marks(self, side: bool, king: int, f: int, from: int, df: int, dr: int)
        requires
            is_dir(df, dr),
            self.sole_king(side, king),
            self.pins(side, king, f, from, df, dr),
        ensures
            bit(self.line_pin_mask(side, df, dr), f),
            bit(self.line_pin_mask(side, df, dr), from),
    {
        self.lemma_line_pin(side, king, df, dr);
        assert(same_line(df, dr, df, dr));
    }

    /// What is in the pin mask of a line lies on a half-line from the king along that line.
    pub proof fn lemma_pin_mask_line(self, side: bool, king: int, df: int, dr: int, x: int) -> (w: (
        int,
        int,
        int,
        int,
    ))
        requires
            is_dir(df, dr),
            self.sole_king(side, king),
            bit(self.line_pin_mask(side, df, dr), x),
        ensures
            same_line(w.0, w.1, df, dr),
            self.pins(side, king, w.2, w.3, w.0, w.1),
            sees(king, x, w.0, w.1, self.spec_piece_mask()) || sees(
                w.2,
                x,
                w.0,
                w.1,
                self.spec_piece_mask(),
            ),
            aligned(king, x, w.0, w.1),
    {
        self.lemma_line_pin(side, king, df, dr);
        let occ = self.spec_piece_mask();
        let (f, from, wf, wr) = choose|f: int, from: int, wf: int, wr: int|
            same_line(wf, wr, df, dr) && #[trigger] self.pins(side, king, f, from, wf, wr) && (sees(
                king,
                x,
                wf,
                wr,
                occ,
            ) || sees(f, x, wf, wr, occ));
        if !sees(king, x, wf, wr, occ) {
            lemma_aligned_trans(king, f, x, wf, wr);
        }
        (wf, wr, f, from)
    }

    /// A piece on no pin mask is not pinned, so any move of it respects the pins.
    pub proof fn lemma_free_keeps_pins(self, side: bool, king: int, f: int, g: int)
        requires
            self.sole_king(side, king),
            !bit(self.spec_ortho_pin_mask(side), f),
            !bit(self.spec_diagonal_pin_mask(side), f),
        ensures
            self.keeps_pins(side, king, f, g),
    {
        broadcast use crate::bits::lemma_bit_or;

        assert forall|from: int, df: int, dr: int|
            is_dir(df, dr) && #[trigger] self.pins(side, king, f, from, df, dr) implies aligned(
            king,
            g,
            df,
            dr,
        ) && !aligned(from, g, df, dr) by {
            self.lemma_pin_marks(side, king, f, from, df, dr);
        }
    }

    /// A slider on a pin mask of its kind of line that moves along a line of sight to a
    /// square of such a pin mask respects the pins.
    pub proof fn lemma_pinned_keeps_pins(
        self,
        side: bool,
        king: int,
        f: int,
        g: int,
        vf: int,
        vr: int,
    )
        requires
            self.sole_king(side, king),
            is_dir(vf, vr),
            f != king,
            g != king,
            bit(self.spec_piece_mask(), f),
            sees(f, g, vf, vr, self.spec_piece_mask()),
            if slanted(vf, vr) {
                bit(self.spec_diagonal_pin_mask(side), f) && bit(
                    self.spec_diagonal_pin_mask(side),
                    g,
                )
            } else {
                bit(self.spec_ortho_pin_mask(side), f) && bit(self.spec_ortho_pin_mask(side), g)
            },
        ensures
            self.keeps_pins(side, king, f, g),
    {
        broadcast use crate::bits::lemma_bit_or;

        let occ = self.spec_piece_mask();
        self.lemma_masks(side);
        assert(bit(occ, king));
        // the line of the pin mask that holds f, and the line of the one that holds g
        let (af, ar) = if slanted(vf, vr) {
            if bit(self.spec_lr_pin_mask(side), f) {
                (-1int, 1int)
            } else {
                (1int, 1int)
            }
        } else {
            if bit(self.spec_hor_pin_mask(side), f) {
                (1int, 0int)
            } else {
                (0int, 1int)
            }
        };
        let (bf, br) = if slanted(vf, vr) {
            if bit(self.spec_lr_pin_mask(side), g) {
                (-1int, 1int)
            } else {
                (1int, 1int)
            }
        } else {
            if bit(self.spec_hor_pin_mask(side), g) {
                (1int, 0int)
            } else {
                (0int, 1int)
            }
        };
        let wf_ = self.lemma_pin_mask_line(side, king, af, ar, f);
        let wg = self.lemma_pin_mask_line(side, king, bf, br, g);
        assert forall|from: int, df: int, dr: int|
            is_dir(df, dr) && #[trigger] self.pins(side, king, f, from, df, dr) implies aligned(
            king,
            g,
            df,
            dr,
        ) && !aligned(from, g, df, dr) by {
            self.lemma_sliders(!side, df, dr);
            lemma_aligned_range(f, from, df, dr);
            assert(bit(occ, from));
            self.lemma_sliders(!side, wg.0, wg.1);
            lemma_aligned_range(wg.2, wg.3, wg.0, wg.1);
            assert(bit(occ, wg.3));
            // f lies on one half-line from the king only
            lemma_one_direction(king, f, df, dr, wf_.0, wf_.1);
            // the half-line of g lies on the line of the pin
            lemma_no_triangle(king, f, g, df, dr, wg.0, wg.1, vf, vr);
            if wg.0 == df && wg.1 == dr {
                // the pin that marks g is the pin of f
                lemma_first_blocker(king, f, wg.2, df, dr, occ);
                lemma_first_blocker(f, from, wg.3, df, dr, occ);
                if aligned(from, g, df, dr) {
                    lemma_aligned_trans(f, from, g, df, dr);
                    lemma_aligned_trans(king, f, g, df, dr);
                    if sees(king, g, df, dr, occ) {
                        assert(between(king, f, g, df, dr));
                    } else {
                        assert(between(f, from, g, df, dr));
                    }
                }
            } else {
                // g lies behind the king as f sees it
                let nf = -df;
                let nr = -dr;
                lemma_aligned_back(king, f, df, dr);
                assert(aligned(f, king, nf, nr));
                lemma_aligned_trans(f, king, g, nf, nr);
                lemma_one_direction(f, g, vf, vr, nf, nr);
                assert(between(f, king, g, vf, vr));
            }
        }
    }

    /// A pawn that is on no pin mask but, maybe, that of the line it moves along respects the
    /// pins with a step along that line.
    pub proof fn lemma_step_keeps_pins(self, side: bool, king: int, f: int, g: int, vf: int, vr: int)
        requires
            self.sole_king(side, king),
            is_dir(vf, vr),
            one_step(f, g, vf, vr),
            g != king,
            forall|df: int, dr: int|
                is_dir(df, dr) && !same_line(df, dr, vf, vr) ==> !bit(
                    #[trigger] self.line_pin_mask(side, df, dr),
                    f,
                ),
        ensures
            self.keeps_pins(side, king, f, g),
    {
        assert forall|from: int, df: int, dr: int|
            is_dir(df, dr) && #[trigger] self.pins(side, king, f, from, df, dr) implies aligned(
            king,
            g,
            df,
            dr,
        ) && !aligned(from, g, df, dr) by {
            self.lemma_pin_marks(side, king, f, from, df, dr);
            assert(same_line(df, dr, vf, vr));
            lemma_step_on_line(king, f, from, g, df, dr, vf, vr);
        }
    }

    /// As `lemma_step_keeps_pins`, for two steps over an empty square.
    pub proof fn lemma_two_steps_keep_pins(
        self,
        side: bool,
        king: int,
        f: int,
        m: int,
        g: int,
        vf: int,
        vr: int,
    )
        requires
            self.sole_king(side, king),
            is_dir(vf, vr),
            one_step(f, m, vf, vr),
            one_step(m, g, vf, vr),
            !bit(self.spec_piece_mask(), m),
            g != king,
            forall|df: int, dr: int|
                is_dir(df, dr) && !same_line(df, dr, vf, vr) ==> !bit(
                    #[trigger] self.line_pin_mask(side, df, dr),
                    f,
                ),
        ensures
            self.keeps_pins(side, king, f, g),
    {
        self.lemma_masks(side);
        assert forall|from: int, df: int, dr: int|
            is_dir(df, dr) && #[trigger] self.pins(side, king, f, from, df, dr) implies aligned(
            king,
            g,
            df,
            dr,
        ) && !aligned(from, g, df, dr) by {
            self.lemma_pin_marks(side, king, f, from, df, dr);
            assert(same_line(df, dr, vf, vr));
            self.lemma_sliders(!side, df, dr);
            lemma_aligned_range(f, from, df, dr);
            assert(bit(self.spec_piece_mask(), from));
            assert(bit(self.spec_piece_mask(), king));
            lemma_two_steps_on_line(king, f, from, m, g, df, dr, vf, vr);
        }
    }
}

impl Emission {
    /// The direction of a pawn's step or capture from `departs` to `lands`.
    pub open spec fn pawn_dir(self) -> (int, int) {
        let d = self.lands() - self.departs();
        if d == 8 || d == 16 {
            (0int, 1int)
        } else if d == -8 || d == -16 {
            (0int, -1int)
        } else if d == 7 {
            (-1int, 1int)
        } else if d == 9 {
            (1int, 1int)
        } else if d == -7 {
            (1int, -1int)
        } else {
            (-1int, -1int)
        }
    }

    /// What the generator has seen to before it emits the step, for the king on `king`: a
    /// piece other than the king lands on the check mask and respects the pins; the king
    /// steps onto one of its targets; castling meets its conditions; a capture en passant
    /// lands on an empty square, takes a pawn of the check mask, does not open the rank, and
    /// is made by a pawn that is pinned along the line of the capture at most.
    pub open spec fn guarded(self, king: int, ep: Option<u8>) -> bool {
        let b = self.origin.board;
        let t = self.origin.turn;
        let f = self.departs() as int;
        let g = self.lands() as int;
        match self.step {
            Step::KingMove { from, to } => from == king && bit(
                self.origin.king_targets(),
                to as int,
            ),
            Step::KsCastle => self.origin.may_castle(true),
            Step::QsCastle => self.origin.may_castle(false),
            Step::EnPassant { from, to } => {
                &&& g != king
                &&& ep == Some(to)
                &&& !bit(b.spec_piece_mask(), g)
                &&& self.origin.ep_open()
                &&& bit(b.spec_check_mask(t), if t {
                    g - 8
                } else {
                    g + 8
                })
                &&& one_step(f, g, self.pawn_dir().0, self.pawn_dir().1)
                &&& forall|df: int, dr: int|
                    is_dir(df, dr) && !same_line(df, dr, self.pawn_dir().0, self.pawn_dir().1)
                        ==> !bit(#[trigger] b.line_pin_mask(t, df, dr), f)
            },
            _ => g != king && bit(b.spec_check_mask(t), g) && b.keeps_pins(t, king, f, g),
        }
    }
}

impl Origin {
    /// An emission of this origin that is guarded.
    pub open spec fn wards(self, king: int, ep: Option<u8>) -> spec_fn(Emission) -> bool {
        |e: Emission| e.origin == self && e.guarded(king, ep)
    }

    proof fn lemma_quiet_guarded(self, king: int, ep: Option<u8>, from: u8, targets: u64)
        requires
            from < 64,
            forall|t: int|
                #[trigger] bit(targets, t) ==> t != king && bit(
                    self.board.spec_check_mask(self.turn),
                    t,
                ) && self.board.keeps_pins(self.turn, king, from as int, t),
        ensures
            forall|k: int|
                0 <= k < each(targets, self.quiet_gen(from)).len() ==> (self.wards(king, ep))(
                    #[trigger] each(targets, self.quiet_gen(from))[k],
                ),
    {
        let g = self.quiet_gen(from);
        let p = self.wards(king, ep);
        assert forall|t: u8, k: int| bit(targets, t as int) && 0 <= k < g(t).len() implies p(
            #[trigger] g(t)[k],
        ) by {
            assert(g(t)[k] == self.emit(Step::Move { from, to: t }));
        }
        lemma_each_all(targets, g, p);
    }

    /// The base mask holds squares of the check mask that are not the king's.
    pub proof fn lemma_base_guard(self, king: int, t: int)
        requires
            self.board.sole_king(self.turn, king),
            bit(self.base_mask(), t),
        ensures
            t != king,
            bit(self.board.spec_check_mask(self.turn), t),
    {
        self.board.lemma_masks(self.turn);
        lemma_bit_and(
            self.board.spec_enemy_or_empty(self.turn),
            self.board.spec_check_mask(self.turn),
            t,
        );
    }

    proof fn lemma_knights_guarded(self, king: int, ep: Option<u8>)
        requires
            self.board.sole_king(self.turn, king),
        ensures
            forall|k: int|
                0 <= k < self.knight_emissions().len() ==> (self.wards(king, ep))(
                    #[trigger] self.knight_emissions()[k],
                ),
    {
        broadcast use lemma_bit_and, lemma_bit_not;

        let g = self.knight_gen();
        let p = self.wards(king, ep);
        assert forall|f: u8, k: int|
            bit(self.knight_sources(), f as int) && 0 <= k < g(f).len() implies p(
            #[trigger] g(f)[k],
        ) by {
            let targets = knight_fan(1u64 << f) & self.base_mask();
            assert forall|t: int| #[trigger] bit(targets, t) implies t != king && bit(
                self.board.spec_check_mask(self.turn),
                t,
            ) && self.board.keeps_pins(self.turn, king, f as int, t) by {
                self.lemma_base_guard(king, t);
                self.board.lemma_free_keeps_pins(self.turn, king, f as int, t);
            }
            self.lemma_quiet_guarded(king, ep, f, targets);
        }
        lemma_each_all(self.knight_sources(), g, p);
    }

    /// The moves of the diagonal sliders, or those of the orthogonal ones.
    pub open spec fn slider_emissions(self, diag: bool) -> Seq<Emission> {
        if diag {
            self.diagonal_emissions()
        } else {
            self.ortho_emissions()
        }
    }

    proof fn lemma_sliders_guarded(self, king: int, ep: Option<u8>, diag: bool)
        requires
            self.board.sole_king(self.turn, king),
        ensures
            forall|k: int|
                0 <= k < self.slider_emissions(diag).len() ==> (self.wards(king, ep))(
                    #[trigger] self.slider_emissions(diag)[k],
                ),
    {
        broadcast use lemma_bit_and, lemma_bit_not;

        let b = self.board;
        let t = self.turn;
        let occ = b.spec_piece_mask();
        let p = self.wards(king, ep);
        let free = if diag {
            self.diagonal_free_gen()
        } else {
            self.ortho_free_gen()
        };
        let pinned = if diag {
            self.diagonal_pinned_gen()
        } else {
            self.ortho_pinned_gen()
        };
        let m1 = if diag {
            self.diagonal_free_sources()
        } else {
            self.ortho_free_sources()
        };
        let m2 = if diag {
            self.diagonal_pinned_sources()
        } else {
            self.ortho_pinned_sources()
        };
        let pins = if diag {
            b.spec_diagonal_pin_mask(t)
        } else {
            b.spec_ortho_pin_mask(t)
        };
        b.lemma_masks(t);
        assert forall|f: u8, k: int| bit(m1, f as int) && 0 <= k < free(f).len() implies p(
            #[trigger] free(f)[k],
        ) by {
            let rays = if diag {
                diagonal_rays(1u64 << f, occ)
            } else {
                ortho_rays(1u64 << f, occ)
            };
            let targets = rays & self.base_mask();
            assert forall|x: int| #[trigger] bit(targets, x) implies x != king && bit(
                b.spec_check_mask(t),
                x,
            ) && b.keeps_pins(t, king, f as int, x) by {
                self.lemma_base_guard(king, x);
                b.lemma_free_keeps_pins(t, king, f as int, x);
            }
            self.lemma_quiet_guarded(king, ep, f, targets);
        }
        lemma_each_all(m1, free, p);
        assert forall|f: u8, k: int| bit(m2, f as int) && 0 <= k < pinned(f).len() implies p(
            #[trigger] pinned(f)[k],
        ) by {
            let rays = if diag {
                diagonal_rays(1u64 << f, occ)
            } else {
                ortho_rays(1u64 << f, occ)
            };
            let targets = rays & self.base_mask() & pins;
            lemma_diagonal_rays(1u64 << f, occ);
            lemma_ortho_rays(1u64 << f, occ);
            assert forall|x: int| #[trigger] bit(targets, x) implies x != king && bit(
                b.spec_check_mask(t),
                x,
            ) && b.keeps_pins(t, king, f as int, x) by {
                self.lemma_base_guard(king, x);
                assert(bit(rays, x));
                let s = if diag {
                    choose|s: int| bit(1u64 << f, s) && sees_diagonally(s, x, occ)
                } else {
                    choose|s: int| bit(1u64 << f, s) && sees_straight(s, x, occ)
                };
                lemma_bit_single(f, s);
                assert(s == f);
                let v = if diag {
                    if sees(s, x, -1, 1, occ) {
                        (-1int, 1int)
                    } else if sees(s, x, 1, 1, occ) {
                        (1int, 1int)
                    } else if sees(s, x, -1, -1, occ) {
                        (-1int, -1int)
                    } else {
                        (1int, -1int)
                    }
                } else {
                    if sees(s, x, 1, 0, occ) {
                        (1int, 0int)
                    } else if sees(s, x, -1, 0, occ) {
                        (-1int, 0int)
                    } else if sees(s, x, 0, 1, occ) {
                        (0int, 1int)
                    } else {
                        (0int, -1int)
                    }
                };
                b.lemma_pinned_keeps_pins(t, king, f as int, x, v.0, v.1);
            }
            self.lemma_quiet_guarded(king, ep, f, targets);
        }
        lemma_each_all(m2, pinned, p);
        let s1 = each(m1, free);
        let s2 = each(m2, pinned);
        let all = self.slider_emissions(diag);
        assert(all == s1 + s2);
        assert forall|k: int| 0 <= k < all.len() implies p(#[trigger] all[k]) by {
            if k < s1.len() {
                assert(all[k] == s1[k]);
            } else {
                assert(all[k] == s2[k - s1.len()]);
            }
        }
    }

    proof fn lemma_kings_guarded(self, king: int, ep: Option<u8>)
        requires
            self.board.sole_king(self.turn, king),
        ensures
            forall|k: int|
                0 <= k < self.king_emissions().len() ==> (self.wards(king, ep))(
                    #[trigger] self.king_emissions()[k],
                ),
    {
        let from = self.king_square();
        let g = self.king_gen(from);
        let p = self.wards(king, ep);
        let targets = self.king_targets();
        self.board.lemma_sole_king(self.turn, king);
        assert forall|t: u8, k: int| bit(targets, t as int) && 0 <= k < g(t).len() implies p(
            #[trigger] g(t)[k],
        ) by {
            lemma_bit_zero(t as int);
            self.lemma_king_targets();
            self.board.lemma_masks(self.turn);
            assert(self.board.king_on(from as int, self.turn));
            assert(g(t)[k] == self.emit(Step::KingMove { from, to: t }));
        }
        lemma_each_all(targets, g, p);
        let steps = each(targets, g);
        let castles = self.castle_emissions();
        assert forall|k: int| 0 <= k < self.king_emissions().len() implies p(
            #[trigger] self.king_emissions()[k],
        ) by {
            if k < steps.len() {
                assert(self.king_emissions()[k] == steps[k]);
            } else {
                assert(self.king_emissions()[k] == castles[k - steps.len()]);
            }
        }
    }
}

impl Origin {
    /// A pawn on a square that these two pin masks do not hold is on no pin mask of a line
    /// other than that of the direction (`vf`, `vr`).
    proof fn lemma_other_lines(self, f: int, vf: int, vr: int)
        requires
            is_dir(vf, vr),
            if vf == 0 {
                !bit(self.board.spec_diagonal_pin_mask(self.turn), f) && !bit(
                    self.board.spec_hor_pin_mask(self.turn),
                    f,
                )
            } else if vf == vr {
                vr != 0 && !bit(self.board.spec_lr_pin_mask(self.turn), f) && !bit(
                    self.board.spec_ortho_pin_mask(self.turn),
                    f,
                )
            } else {
                vr != 0 && !bit(self.board.spec_rl_pin_mask(self.turn), f) && !bit(
                    self.board.spec_ortho_pin_mask(self.turn),
                    f,
                )
            },
        ensures
            forall|df: int, dr: int|
                is_dir(df, dr) && !same_line(df, dr, vf, vr) ==> !bit(
                    #[trigger] self.board.line_pin_mask(self.turn, df, dr),
                    f,
                ),
    {
        broadcast use lemma_bit_or;

    }

    proof fn lemma_pushes_guarded(self, king: int, ep: Option<u8>)
        requires
            self.board.sole_king(self.turn, king),
        ensures
            forall|k: int|
                0 <= k < each(self.push_sources(), self.push_gen()).len() ==> (self.wards(king, ep))(
                    #[trigger] each(self.push_sources(), self.push_gen())[k],
                ),
            forall|k: int|
                0 <= k < each(self.push2_sources(), self.push2_gen()).len() ==> (self.wards(king, ep))(
                    #[trigger] each(self.push2_sources(), self.push2_gen())[k],
                ),
    {
        let b = self.board;
        let t = self.turn;
        let p = self.wards(king, ep);
        let vr = if t {
            1int
        } else {
            -1int
        };
        b.lemma_masks(t);
        let g1 = self.push_gen();
        let m1 = self.push_sources();
        assert forall|f: u8, k: int| bit(m1, f as int) && 0 <= k < g1(f).len() implies p(
            #[trigger] g1(f)[k],
        ) by {
            let g = self.ahead(f, 8);
            self.lemma_push_facts(f);
            self.lemma_other_lines(f as int, 0, vr);
            let x = f as int;
            let y = g as int;
            assert(x == 8 * (x / 8) + x % 8 && y == 8 * (y / 8) + y % 8);
            b.lemma_step_keeps_pins(t, king, f as int, g as int, 0, vr);
        }
        lemma_each_all(m1, g1, p);
        let g2 = self.push2_gen();
        let m2 = self.push2_sources();
        assert forall|f: u8, k: int| bit(m2, f as int) && 0 <= k < g2(f).len() implies p(
            #[trigger] g2(f)[k],
        ) by {
            assert(g2(f)[k] == self.emit(Step::PawnPush2 { from: f }));
            self.lemma_push2_facts(f);
            self.lemma_other_lines(f as int, 0, vr);
            let m = self.ahead(f, 8);
            let g = self.ahead(f, 16);
            let x = f as int;
            let y = g as int;
            let z = m as int;
            assert(x == 8 * (x / 8) + x % 8 && y == 8 * (y / 8) + y % 8 && z == 8 * (z / 8) + z
                % 8);
            b.lemma_two_steps_keep_pins(t, king, f as int, m as int, g as int, 0, vr);
        }
        lemma_each_all(m2, g2, p);
    }

    /// What the mask of the single steps says of a pawn that it holds.
    pub proof fn lemma_push_facts(self, f: u8)
        requires
            bit(self.push_sources(), f as int),
        ensures
            if self.turn {
                f < 56
            } else {
                8 <= f < 64
            },
            !bit(self.board.spec_piece_mask(), self.ahead(f, 8) as int),
            bit(self.board.spec_check_mask(self.turn), self.ahead(f, 8) as int),
            !bit(self.board.spec_diagonal_pin_mask(self.turn), f as int),
            !bit(self.board.spec_hor_pin_mask(self.turn), f as int),
    {
        broadcast use group_bit;

    }

    /// What the mask of the double steps says of a pawn that it holds.
    pub proof fn lemma_push2_facts(self, f: u8)
        requires
            bit(self.push2_sources(), f as int),
        ensures
            if self.turn {
                f < 48
            } else {
                16 <= f < 64
            },
            !bit(self.board.spec_piece_mask(), self.ahead(f, 8) as int),
            !bit(self.board.spec_piece_mask(), self.ahead(f, 16) as int),
            bit(self.board.spec_check_mask(self.turn), self.ahead(f, 16) as int),
            !bit(self.board.spec_diagonal_pin_mask(self.turn), f as int),
            !bit(self.board.spec_hor_pin_mask(self.turn), f as int),
    {
        broadcast use group_bit;

    }

    /// What the mask of the captures `d` squares ahead says of a pawn that it holds.
    pub proof fn lemma_capture_facts(self, ep: Option<u8>, d: u8, f: u8)
        requires
            d == 7 || d == 9,
            ep matches Some(x) ==> x < 64 && !bit(self.board.spec_piece_mask(), x as int),
            bit(self.capture_sources(ep, d), f as int),
        ensures
            if self.turn {
                8 <= f + d < 64
            } else {
                d <= f < 56 + d
            },
            f % 8 != (if (d == 7) == self.turn {
                0int
            } else {
                7int
            }),
            bit(self.board.spec_piece_mask(), self.ahead(f, d) as int) ==> bit(
                self.board.spec_check_mask(self.turn),
                self.ahead(f, d) as int,
            ) && piece_of(self.board.tag(self.ahead(f, d) as int), !self.turn),
            !bit(self.board.spec_piece_mask(), self.ahead(f, d) as int) ==> ep == Some(
                self.ahead(f, d),
            ),
            !bit(self.board.spec_ortho_pin_mask(self.turn), f as int),
            !bit(
                if d == 7 {
                    self.board.spec_rl_pin_mask(self.turn)
                } else {
                    self.board.spec_lr_pin_mask(self.turn)
                },
                f as int,
            ),
    {
        broadcast use group_bit;

        self.board.lemma_masks(!self.turn);
    }

    proof fn lemma_captures_guarded(self, king: int, ep: Option<u8>, d: u8)
        requires
            d == 7 || d == 9,
            self.board.sole_king(self.turn, king),
            ep matches Some(x) ==> x < 64 && !bit(self.board.spec_piece_mask(), x as int),
        ensures
            forall|k: int|
                0 <= k < each(self.capture_sources(ep, d), self.capture_gen(d)).len() ==> (
                self.wards(king, ep))(#[trigger] each(self.capture_sources(ep, d), self.capture_gen(d))[k]),
    {
        let b = self.board;
        let t = self.turn;
        let p = self.wards(king, ep);
        b.lemma_masks(t);
        let g3 = self.capture_gen(d);
        let m3 = self.capture_sources(ep, d);
        assert forall|f: u8, k: int| bit(m3, f as int) && 0 <= k < g3(f).len() implies p(
            #[trigger] g3(f)[k],
        ) by {
            let g = self.ahead(f, d);
            self.lemma_capture_facts(ep, d, f);
            let v = if t {
                if d == 7 {
                    (-1int, 1int)
                } else {
                    (1int, 1int)
                }
            } else {
                if d == 7 {
                    (1int, -1int)
                } else {
                    (-1int, -1int)
                }
            };
            self.lemma_other_lines(f as int, v.0, v.1);
            let x = f as int;
            let y = g as int;
            assert(x == 8 * (x / 8) + x % 8 && y == 8 * (y / 8) + y % 8);
            assert(one_step(x, y, v.0, v.1));
            if bit(b.spec_piece_mask(), g as int) {
                b.lemma_step_keeps_pins(t, king, f as int, g as int, v.0, v.1);
            } else {
                assert(g3(f)[k].pawn_dir() == v);
            }
        }
        lemma_each_all(m3, g3, p);
    }

    /// Every emission of a position is guarded.
    pub proof fn lemma_emissions_guarded(self, king: int, ep: Option<u8>)
        requires
            self.board.sole_king(self.turn, king),
            ep matches Some(x) ==> x < 64 && !bit(self.board.spec_piece_mask(), x as int),
        ensures
            forall|k: int|
                0 <= k < self.emissions(ep).len() ==> (#[trigger] self.emissions(ep)[k]).guarded(
                    king,
                    ep,
                ),
    {
        let p = self.wards(king, ep);
        self.lemma_pushes_guarded(king, ep);
        self.lemma_captures_guarded(king, ep, 7);
        self.lemma_captures_guarded(king, ep, 9);
        self.lemma_knights_guarded(king, ep);
        self.lemma_sliders_guarded(king, ep, true);
        self.lemma_sliders_guarded(king, ep, false);
        self.lemma_kings_guarded(king, ep);
        let a1 = each(self.push_sources(), self.push_gen());
        let a2 = each(self.push2_sources(), self.push2_gen());
        let a3 = each(self.capture_sources(ep, 7), self.capture_gen(7));
        let a4 = each(self.capture_sources(ep, 9), self.capture_gen(9));
        let s1 = self.pawn_emissions(ep);
        let s2 = self.knight_emissions();
        let s3 = self.slider_emissions(true);
        let s4 = self.slider_emissions(false);
        let s5 = self.king_emissions();
        let all = self.emissions(ep);
        assert forall|k: int| 0 <= k < s1.len() implies p(#[trigger] s1[k]) by {
            if k < a1.len() {
                assert(s1[k] == a1[k]);
            } else if k < a1.len() + a2.len() {
                assert(s1[k] == a2[k - a1.len()]);
            } else if k < a1.len() + a2.len() + a3.len() {
                assert(s1[k] == a3[k - a1.len() - a2.len()]);
            } else {
                assert(s1[k] == a4[k - a1.len() - a2.len() - a3.len()]);
            }
        }
        assert forall|k: int| 0 <= k < all.len() implies (#[trigger] all[k]).guarded(king, ep) by {
            if k < s1.len() {
                assert(all[k] == s1[k]);
                assert(p(s1[k]));
            } else if k < s1.len() + s2.len() {
                assert(all[k] == s2[k - s1.len()]);
                assert(p(s2[k - s1.len()]));
            } else if k < s1.len() + s2.len() + s3.len() {
                assert(all[k] == s3[k - s1.len() - s2.len()]);
                assert(p(s3[k - s1.len() - s2.len()]));
            } else if k < s1.len() + s2.len() + s3.len() + s4.len() {
                assert(all[k] == s4[k - s1.len() - s2.len() - s3.len()]);
                assert(p(s4[k - s1.len() - s2.len() - s3.len()]));
            } else {
                assert(all[k] == s5[k - s1.len() - s2.len() - s3.len() - s4.len()]);
                assert(p(s5[k - s1.len() - s2.len() - s3.len() - s4.len()]));
            }
        }
    }
}

/// The masks of castling, square by square: what must be empty and what must be safe, on the
/// first rank (`home` 0) or the last (`home` 56).
pub proof fn lemma_castle_masks(m: u64, home: u8)
    requires
        home == 0 || home == 56,
    ensures
        ((m >> home) & KS_EMPTY == KS_EMPTY) == (bit(m, home + 1) && bit(m, home + 2)),
        ((m >> home) & KS_SAFE == KS_SAFE) == (bit(m, home + 1) && bit(m, home + 2) && bit(
            m,
            home + 3,
        )),
        ((m >> home) & QS_EMPTY == QS_EMPTY) == (bit(m, home + 4) && bit(m, home + 5) && bit(
            m,
            home + 6,
        )),
        ((m >> home) & QS_SAFE == QS_SAFE) == (bit(m, home + 3) && bit(m, home + 4) && bit(
            m,
            home + 5,
        )),
{
    let h = home as u64;
    assert(((m >> home) & 0x06 == 0x06) == ((m >> ((h + 1) as u64)) & 1 == 1 && (m >> ((h
        + 2) as u64)) & 1 == 1)) by (bit_vector)
        requires
            h == home,
            home == 0 || home == 56,
    ;
    assert(((m >> home) & 0x0E == 0x0E) == ((m >> ((h + 1) as u64)) & 1 == 1 && (m >> ((h
        + 2) as u64)) & 1 == 1 && (m >> ((h + 3) as u64)) & 1 == 1)) by (bit_vector)
        requires
            h == home,
            home == 0 || home == 56,
    ;
    assert(((m >> home) & 0x70 == 0x70) == ((m >> ((h + 4) as u64)) & 1 == 1 && (m >> ((h
        + 5) as u64)) & 1 == 1 && (m >> ((h + 6) as u64)) & 1 == 1)) by (bit_vector)
        requires
            h == home,
            home == 0 || home == 56,
    ;
    assert(((m >> home) & 0x38 == 0x38) == ((m >> ((h + 3) as u64)) & 1 == 1 && (m >> ((h
        + 4) as u64)) & 1 == 1 && (m >> ((h + 5) as u64)) & 1 == 1)) by (bit_vector)
        requires
            h == home,
            home == 0 || home == 56,
    ;
}

impl BitBoard {
    /// The king that has castled is not in check. `after` is this board with king and rook
    /// moved from `k1` and `r1` to the empty squares `k2` and `r2` of their rank, where the
    /// rook lands between the king's two squares and the king lands on a square that is not
    /// attacked.
    pub proof fn lemma_castle_safe(
        self,
        after: BitBoard,
        side: bool,
        home: int,
        k1: int,
        k2: int,
        r1: int,
        r2: int,
    )
        requires
            home == 0 || home == 56,
            (k1 == home + 3 && k2 == home + 1 && r1 == home && r2 == home + 2) || (k1 == home + 3
                && k2 == home + 5 && r1 == home + 7 && r2 == home + 4),
            piece_of(self.tag(k1), side),
            piece_of(self.tag(r1), side),
            after.tag(k1) == 0,
            after.tag(r1) == 0,
            after.tag(k2) == self.tag(k1),
            after.tag(r2) == self.tag(r1),
            forall|u: int|
                0 <= u < 64 && u != k1 && u != k2 && u != r1 && u != r2 ==> #[trigger] after.tag(u)
                    == self.tag(u),
            forall|a: int| !threatens(self, side, a, k2),
        ensures
            forall|a: int| !threatens(after, side, a, k2),
    {
        let occ = self.spec_piece_mask();
        let occ2 = after.spec_piece_mask();
        self.lemma_masks(side);
        after.lemma_masks(side);
        assert forall|a: int| !threatens(after, side, a, k2) by {
            if attacks(after, !side, a, k2) {
                assert(a != k1 && a != k2 && a != r1 && a != r2);
                assert(after.tag(a) == self.tag(a));
                let k = kind(self.tag(a));
                if (k == PAWN && pawn_hit(!side, a, k2)) || (k == KNIGHT && knight_jump(a, k2)) || (
                k == KING && king_step(a, k2)) {
                    assert(attacks(self, !side, a, k2));
                } else {
                    let d = lemma_slider_dir(after, !side, a, k2);
                    let df = d.0;
                    let dr = d.1;
                    if between(a, k1, k2, df, dr) {
                        lemma_rank_order(k1, r2, k2, df, dr);
                        lemma_aligned_trans(a, k1, r2, df, dr);
                        assert(between(a, r2, k2, df, dr));
                        assert(bit(occ2, r2));
                    } else if between(a, r1, k2, df, dr) {
                        lemma_rank_end(home, a, r1, k2, df, dr);
                    } else {
                        assert(sees(a, k2, df, dr, occ)) by {
                            assert forall|u: int| #[trigger] between(a, u, k2, df, dr) implies !bit(
                                occ,
                                u,
                            ) by {
                                lemma_aligned_range(a, u, df, dr);
                                lemma_aligned_range(u, k2, df, dr);
                            }
                        }
                        lemma_dir_cases(df, dr);
                        assert(attacks(self, !side, a, k2));
                    }
                }
                assert(threatens(self, side, a, k2));
            }
        }
    }
}

/// Of three squares of a rank in a row, the middle one lies between the other two.
pub proof fn lemma_rank_order(x: int, y: int, z: int, df: int, dr: int)
    requires
        is_dir(df, dr),
        0 <= x < 64 && 0 <= y < 64 && 0 <= z < 64,
        x / 8 == y / 8 && y / 8 == z / 8,
        (x < y && y < z) || (x > y && y > z),
        aligned(x, z, df, dr),
    ensures
        aligned(x, y, df, dr),
        aligned(y, z, df, dr),
{
    reveal(aligned);
}

/// No square lies beyond the corner of its rank: none sees the corner square along the rank
/// from outside.
pub proof fn lemma_rank_end(home: int, a: int, corner: int, inner: int, df: int, dr: int)
    requires
        is_dir(df, dr),
        home == 0 || home == 56,
        corner == home || corner == home + 7,
        home <= inner <= home + 7,
    ensures
        !between(a, corner, inner, df, dr),
{
    reveal(aligned);
}

/// Where the king sees a blocker, that blocker sees a second one and the second one sees one
/// of `attackers`, all along one direction, the ray through two blockers holds the first.
pub proof fn lemma_pin_ray2(
    king: u8,
    step: u8,
    blockers: u64,
    edge: u64,
    up: bool,
    df: int,
    dr: int,
    attackers: u64,
    b1: int,
    b2: int,
    from: int,
)
    requires
        king < 64,
        heads(step, edge, up, df, dr),
        sees(king as int, b1, df, dr, blockers),
        bit(blockers, b1),
        sees(b1, b2, df, dr, blockers),
        bit(blockers, b2),
        sees(b2, from, df, dr, blockers),
        bit(attackers, from),
    ensures
        bit(pin_ray2(1u64 << king, step, blockers, edge, up, attackers), b1),
{
    broadcast use lemma_bit_and, lemma_bit_or;

    let r1 = slide(1u64 << king, step, blockers, edge, up);
    let r2 = slide(r1 & blockers, step, blockers, edge, up);
    let r3 = slide(r2 & blockers, step, blockers, edge, up);
    lemma_slide_sees(king, step, blockers, edge, up, df, dr);
    lemma_slide_sees_from(r1 & blockers, step, blockers, edge, up, df, dr);
    lemma_slide_sees_from(r2 & blockers, step, blockers, edge, up, df, dr);
    assert(bit(r1 & blockers, b1));
    assert(bit(r2, b2));
    assert(bit(r2 & blockers, b2));
    assert(bit(r3, from));
    assert(bit(r3 & attackers, from));
    lemma_bit_zero(from);
}

impl BitBoard {
    /// A capture en passant leaves the king out of check. `after` is this board with the pawn
    /// gone from `f` to the empty square `g` and the pawn of the other side gone from `v`,
    /// beside `f` and before `g`; `before` is this board with that pawn back on `s`, the
    /// square it came from, behind `g`.
    pub proof fn lemma_ep_safe(
        self,
        after: BitBoard,
        before: BitBoard,
        side: bool,
        king: int,
        f: int,
        g: int,
        v: int,
        s: int,
        vf: int,
        vr: int,
    )
        requires
            self.sole_king(side, king),
            self.kings_apart(side, king),
            0 <= f < 64 && 0 <= g < 64 && 0 <= v < 64 && 0 <= s < 64,
            f != king,
            piece_of(self.tag(f), side),
            piece_of(self.tag(v), !side),
            kind(self.tag(v)) == PAWN,
            !bit(self.spec_piece_mask(), g),
            !bit(self.spec_piece_mask(), s),
            if side {
                v == g - 8 && s == g + 8 && 32 <= v < 40
            } else {
                v == g + 8 && s == g - 8 && 24 <= v < 32
            },
            f / 8 == v / 8,
            f == v + 1 || f == v - 1,
            is_dir(vf, vr),
            one_step(f, g, vf, vr),
            forall|df: int, dr: int|
                is_dir(df, dr) && !same_line(df, dr, vf, vr) ==> !bit(
                    #[trigger] self.line_pin_mask(side, df, dr),
                    f,
                ),
            bit(self.spec_check_mask(side), v),
            self.spec_hor_pin_mask2(side) & (if side {
                RANK_5
            } else {
                RANK_4
            }) == 0,
            after.tag(f) == 0,
            after.tag(v) == 0,
            piece_of(after.tag(g), side),
            forall|u: int|
                0 <= u < 64 && u != f && u != g && u != v ==> #[trigger] after.tag(u) == self.tag(u),
            before.tag(v) == 0,
            forall|u: int| 0 <= u < 64 && u != v && u != s ==> #[trigger] before.tag(u) == self.tag(u),
            forall|a: int| !threatens(before, side, a, king),
        ensures
            forall|a: int| !threatens(after, side, a, king),
    {
        let occ = self.spec_piece_mask();
        let occ2 = after.spec_piece_mask();
        self.lemma_masks(side);
        self.lemma_masks(!side);
        after.lemma_masks(side);
        assert forall|u: int| 0 <= u < 64 implies #[trigger] bit(occ2, u) == (u == g || (u != f
            && u != v && bit(occ, u))) by {}
        assert forall|a: int| !threatens(after, side, a, king) by {
            if attacks(after, !side, a, king) {
                assert(a != f && a != g && a != v);
                assert(after.tag(a) == self.tag(a));
                let k = kind(self.tag(a));
                if k == PAWN && pawn_hit(!side, a, king) {
                    self.lemma_pawn_check(side, king, a);
                } else if k == KNIGHT && knight_jump(a, king) {
                    self.lemma_knight_check(side, king, a);
                } else if k == KING && king_step(a, king) {
                    assert(self.king_on(a, !side));
                } else {
                    let d = lemma_slider_dir(after, !side, a, king);
                    self.lemma_ep_shut(after, before, side, king, f, g, v, s, vf, vr, a, d.0, d.1);
                }
            }
        }
    }

    /// No slider of the other side sees the king after a capture en passant.
    proof fn lemma_ep_shut(
        self,
        after: BitBoard,
        before: BitBoard,
        side: bool,
        king: int,
        f: int,
        g: int,
        v: int,
        s: int,
        vf: int,
        vr: int,
        a: int,
        df: int,
        dr: int,
    )
        requires
            self.sole_king(side, king),
            0 <= f < 64 && 0 <= g < 64 && 0 <= v < 64 && 0 <= s < 64,
            f != king,
            piece_of(self.tag(f), side),
            piece_of(self.tag(v), !side),
            kind(self.tag(v)) == PAWN,
            !bit(self.spec_piece_mask(), g),
            !bit(self.spec_piece_mask(), s),
            if side {
                v == g - 8 && s == g + 8 && 32 <= v < 40
            } else {
                v == g + 8 && s == g - 8 && 24 <= v < 32
            },
            f / 8 == v / 8,
            f == v + 1 || f == v - 1,
            is_dir(vf, vr),
            one_step(f, g, vf, vr),
            forall|df: int, dr: int|
                is_dir(df, dr) && !same_line(df, dr, vf, vr) ==> !bit(
                    #[trigger] self.line_pin_mask(side, df, dr),
                    f,
                ),
            bit(self.spec_check_mask(side), v),
            self.spec_hor_pin_mask2(side) & (if side {
                RANK_5
            } else {
                RANK_4
            }) == 0,
            before.tag(v) == 0,
            forall|u: int| 0 <= u < 64 && u != v && u != s ==> #[trigger] before.tag(u) == self.tag(u),
            forall|a: int| !threatens(before, side, a, king),
            a != f && a != g && a != v,
            is_dir(df, dr),
            slides_along(self.tag(a), !side, df, dr),
            forall|u: int|
                0 <= u < 64 ==> #[trigger] bit(after.spec_piece_mask(), u) == (u == g || (u != f
                    && u != v && bit(self.spec_piece_mask(), u))),
        ensures
            !sees(a, king, df, dr, after.spec_piece_mask()),
    {
        let occ = self.spec_piece_mask();
        let occ2 = after.spec_piece_mask();
        let nf = -df;
        let nr = -dr;
        self.lemma_masks(side);
        self.lemma_masks(!side);
        if sees(a, king, df, dr, occ2) {
            lemma_sees_back(a, king, df, dr, occ2);
            lemma_aligned_range(king, a, nf, nr);
            self.lemma_sliders(!side, nf, nr);
            assert(slides_along(self.tag(a), !side, nf, nr));
            assert(bit(occ, a) && bit(occ, f) && bit(occ, v) && bit(occ, king));
            assert(g != king);
            let in_f = between(king, f, a, nf, nr);
            let in_v = between(king, v, a, nf, nr);
            if in_f && in_v {
                lemma_rank_line(king, f, v, nf, nr);
                lemma_aligned_order(king, f, v, nf, nr);
                let b1 = if aligned(f, v, nf, nr) {
                    f
                } else {
                    v
                };
                let b2 = if aligned(f, v, nf, nr) {
                    v
                } else {
                    f
                };
                lemma_neighbours_see(king, b1, b2, nf, nr, occ);
                lemma_sees_parts(king, b1, a, nf, nr, occ2);
                lemma_sees_parts(king, b2, a, nf, nr, occ2);
                assert(sees(king, b1, nf, nr, occ)) by {
                    assert forall|u: int| #[trigger] between(king, u, b1, nf, nr) implies !bit(
                        occ,
                        u,
                    ) by {
                        lemma_aligned_range(king, u, nf, nr);
                        lemma_aligned_range(u, b1, nf, nr);
                        lemma_aligned_trans(u, b1, b2, nf, nr);
                        lemma_aligned_range(u, b2, nf, nr);
                    }
                }
                assert(sees(b2, a, nf, nr, occ)) by {
                    assert forall|u: int| #[trigger] between(b2, u, a, nf, nr) implies !bit(
                        occ,
                        u,
                    ) by {
                        lemma_aligned_range(b2, u, nf, nr);
                        lemma_aligned_range(u, a, nf, nr);
                        lemma_aligned_trans(b1, b2, u, nf, nr);
                        lemma_aligned_range(b1, u, nf, nr);
                    }
                }
                let way = fill_of(nf, nr);
                lemma_fill_of(nf, nr);
                self.lemma_sole_king(side, king);
                lemma_pin_ray2(
                    king as u8,
                    way.0,
                    occ,
                    way.1,
                    way.2,
                    nf,
                    nr,
                    self.spec_col_ortho_mask(!side),
                    b1,
                    b2,
                    a,
                );
                let rank = if side {
                    RANK_5
                } else {
                    RANK_4
                };
                lemma_bit_ranks(b1);
                assert(bit(self.spec_hor_pin_mask2(side), b1)) by {
                    broadcast use lemma_bit_or;

                }
                lemma_bit_and(self.spec_hor_pin_mask2(side), rank, b1);
                lemma_bit_zero(b1);
            } else if in_f {
                assert(sees(king, f, nf, nr, occ)) by {
                    lemma_sees_parts(king, f, a, nf, nr, occ2);
                    assert forall|u: int| #[trigger] between(king, u, f, nf, nr) implies !bit(
                        occ,
                        u,
                    ) by {
                        lemma_aligned_range(king, u, nf, nr);
                        lemma_aligned_range(u, f, nf, nr);
                        lemma_aligned_trans(u, f, a, nf, nr);
                        assert(between(king, u, a, nf, nr));
                    }
                }
                assert(sees(f, a, nf, nr, occ)) by {
                    lemma_sees_parts(king, f, a, nf, nr, occ2);
                    assert forall|u: int| #[trigger] between(f, u, a, nf, nr) implies !bit(occ, u) by {
                        lemma_aligned_range(f, u, nf, nr);
                        lemma_aligned_range(u, a, nf, nr);
                        lemma_aligned_trans(king, f, u, nf, nr);
                        assert(between(king, u, a, nf, nr));
                    }
                }
                assert(self.pins(side, king, f, a, nf, nr));
                self.lemma_pin_marks(side, king, f, a, nf, nr);
                assert(same_line(nf, nr, vf, vr));
                lemma_step_on_line(king, f, a, g, nf, nr, vf, vr);
                lemma_aligned_order(king, g, a, nf, nr);
                assert(between(king, g, a, nf, nr));
                assert(!bit(occ2, g));
            } else if in_v {
                assert(sees(king, v, nf, nr, occ)) by {
                    lemma_sees_parts(king, v, a, nf, nr, occ2);
                    assert forall|u: int| #[trigger] between(king, u, v, nf, nr) implies !bit(
                        occ,
                        u,
                    ) by {
                        lemma_aligned_range(king, u, nf, nr);
                        lemma_aligned_range(u, v, nf, nr);
                        lemma_aligned_trans(u, v, a, nf, nr);
                        assert(between(king, u, a, nf, nr));
                    }
                }
                assert(sees(v, a, nf, nr, occ)) by {
                    lemma_sees_parts(king, v, a, nf, nr, occ2);
                    assert forall|u: int| #[trigger] between(v, u, a, nf, nr) implies !bit(occ, u) by {
                        lemma_aligned_range(v, u, nf, nr);
                        lemma_aligned_range(u, a, nf, nr);
                        lemma_aligned_trans(king, v, u, nf, nr);
                        assert(between(king, u, a, nf, nr));
                    }
                }
                if nr == 0 {
                    lemma_rank_neighbour(king, v, a, f, nf, nr);
                } else if nf == 0 {
                    let step = if side {
                        1int
                    } else {
                        -1int
                    };
                    assert(v == 8 * (v / 8) + v % 8 && g == 8 * (g / 8) + g % 8);
                    assert(one_step(v, g, 0, step));
                    lemma_step_on_line(king, v, a, g, nf, nr, 0, step);
                    lemma_aligned_order(king, g, a, nf, nr);
                    assert(between(king, g, a, nf, nr));
                    assert(!bit(occ2, g));
                } else {
                    let occ0 = before.spec_piece_mask();
                    before.lemma_masks(side);
                    assert(s % 8 == v % 8 && s != v);
                    lemma_file_off_diagonal(king, v, s, nf, nr);
                    assert(sees(king, a, nf, nr, occ0)) by {
                        assert forall|u: int| #[trigger] between(king, u, a, nf, nr) implies !bit(
                            occ0,
                            u,
                        ) by {
                            lemma_aligned_range(king, u, nf, nr);
                            lemma_aligned_range(u, a, nf, nr);
                            if u == s {
                                assert(aligned(king, s, nf, nr));
                            }
                        }
                    }
                    lemma_sees_back(king, a, nf, nr, occ0);
                    assert(sees(a, king, df, dr, occ0));
                    assert(a != s);
                    assert(before.tag(a) == self.tag(a));
                    lemma_dir_cases(df, dr);
                    assert(attacks(before, !side, a, king));
                    assert(threatens(before, side, a, king));
                }
            } else {
                assert(sees(king, a, nf, nr, occ)) by {
                    assert forall|u: int| #[trigger] between(king, u, a, nf, nr) implies !bit(
                        occ,
                        u,
                    ) by {
                        lemma_aligned_range(king, u, nf, nr);
                        lemma_aligned_range(u, a, nf, nr);
                    }
                }
                self.lemma_line_check(side, king, nf, nr, a);
                assert(sees(king, v, nf, nr, occ));
                lemma_aligned_order(king, v, a, nf, nr);
                if aligned(v, a, nf, nr) {
                    assert(between(king, v, a, nf, nr));
                } else {
                    assert(between(king, a, v, nf, nr));
                    assert(!bit(occ, a));
                }
            }
        }
    }
}

/// The square of the pawn that passed the en-passant target `x`, where `side` is to move.
pub open spec fn passed_pawn(side: bool, x: u8) -> u8 {
    if side {
        (x - 8) as u8
    } else {
        (x + 8) as u8
    }
}

/// The square that the pawn that passed the en-passant target `x` came from, where `side` is
/// to move.
pub open spec fn passed_from(side: bool, x: u8) -> u8 {
    if side {
        (x + 8) as u8
    } else {
        (x - 8) as u8
    }
}

impl Origin {
    /// The first square of the home rank of the side to move.
    pub open spec fn home(self) -> int {
        if self.turn {
            0
        } else {
            56
        }
    }

    /// A castling right of the side to move comes with its king and a piece of its own on
    /// their home squares.
    pub open spec fn at_home(self) -> bool {
        &&& self.right(true) ==> self.board.king_on(self.home() + 3, self.turn) && piece_of(
            self.board.tag(self.home()),
            self.turn,
        )
        &&& self.right(false) ==> self.board.king_on(self.home() + 3, self.turn) && piece_of(
            self.board.tag(self.home() + 7),
            self.turn,
        )
    }

    /// The en-passant target fits the board: it is an empty square of the sixth rank as the
    /// side to move sees it, the pawn that passed it stands before it, the square behind it,
    /// where that pawn came from, is empty, and with that pawn back there the king on `king`
    /// was not in check.
    pub open spec fn ep_fits(self, king: int, ep: Option<u8>) -> bool {
        match ep {
            None => true,
            Some(x) => {
                let occ = self.board.spec_piece_mask();
                let v = passed_pawn(self.turn, x);
                let s = passed_from(self.turn, x);
                &&& if self.turn {
                    40 <= x < 48
                } else {
                    16 <= x < 24
                }
                &&& !bit(occ, x as int)
                &&& !bit(occ, s as int)
                &&& piece_of(self.board.tag(v as int), !self.turn)
                &&& kind(self.board.tag(v as int)) == PAWN
                &&& forall|a: int| !threatens(self.board.moved(v, s), self.turn, a, king)
            },
        }
    }

    /// The position is one of a game in play, with the king of the side to move on `king`:
    /// that king is the only one of its side; the other side is not in check; the king is
    /// not sandwiched; castling rights and en-passant target fit the board.
    pub open spec fn in_play(self, king: int, ep: Option<u8>) -> bool {
        &&& self.board.sole_king(self.turn, king)
        &&& self.board.out_of_check(!self.turn)
        &&& !self.board.sandwiched(self.turn, king)
        &&& self.at_home()
        &&& self.ep_fits(king, ep)
    }
}

impl BitBoard {
    /// No piece of the other side attacks a king of side `side`.
    pub open spec fn out_of_check(self, side: bool) -> bool {
        forall|k2: int, a: int| self.king_on(k2, side) ==> !#[trigger] threatens(self, side, a, k2)
    }

    /// Being out of check, in terms of the masks: no king of the side stands on a square of
    /// the other side's attack mask.
    pub proof fn lemma_out_of_check(self, side: bool)
        ensures
            self.out_of_check(side) == (self.spec_attack_mask(!side) & self.spec_col_king_mask(side)
                == 0),
    {
        let other = !side;
        let att = self.spec_attack_mask(other);
        let kings = self.spec_col_king_mask(side);
        self.lemma_attack_mask(other);
        self.lemma_masks(side);
        if att & kings != 0 {
            lemma_lowest(att & kings);
            let sq = vstd::std_specs::bits::u64_trailing_zeros(att & kings) as int;
            lemma_bit_and(att, kings, sq);
            let a = choose|a: int| attacks(self, other, a, sq);
            assert(self.king_on(sq, side) && threatens(self, side, a, sq));
        }
        if !self.out_of_check(side) {
            let (k2, a) = choose|k2: int, a: int|
                self.king_on(k2, side) && #[trigger] threatens(self, side, a, k2);
            assert(attacks(self, !side, a, k2));
            assert(bit(att, k2));
            lemma_bit_and(att, kings, k2);
            lemma_bit_zero(k2);
        }
    }
}

impl Emission {
    /// A sound and guarded step of a position in play leaves the king of the side that moved
    /// out of check.
    pub proof fn lemma_leaves_king_safe(self, king: int, ep: Option<u8>)
        requires
            self.origin.in_play(king, ep),
            self.sound(),
            self.guarded(king, ep),
        ensures
            self.board_after().out_of_check(self.origin.turn),
    {
        let o = self.origin;
        let b = o.board;
        let t = o.turn;
        let after = self.board_after();
        b.lemma_masks(t);
        after.lemma_masks(t);
        assert(b.kings_apart(t, king)) by {
            assert forall|a: int| b.king_on(a, !t) implies !#[trigger] king_step(a, king) by {
                if king_step(a, king) {
                    lemma_king_step_offsets(a, king);
                    lemma_king_step_offsets(king, a);
                    assert(attacks(b, t, king, a));
                    assert(threatens(b, !t, king, a));
                }
            }
        }
        match self.step {
            Step::Move { from, to } => {
                b.lemma_moved_tags(from, to);
                b.lemma_mover_safe(after, t, king, from as int, to as int);
                assert forall|q: int| after.king_on(q, t) implies q == king by {
                    assert(b.king_on(q, t));
                }
            },
            Step::PawnPush2 { from } => {
                b.lemma_moved_tags(from, self.lands());
                b.lemma_mover_safe(after, t, king, from as int, self.lands() as int);
                assert forall|q: int| after.king_on(q, t) implies q == king by {
                    assert(b.king_on(q, t));
                }
            },
            Step::Promotion { from, to, piece } => {
                b.lemma_cleared(from);
                b.cleared(from).lemma_placed(to, piece);
                assert forall|u: int| 0 <= u < 64 implies after.tag(u) == (if u == to {
                    piece
                } else if u == from {
                    0u8
                } else {
                    b.tag(u)
                }) by {
                    assert(after@[u] == after.tag(u));
                    assert(b.cleared(from)@[u] == b.cleared(from).tag(u));
                    assert(b@[u] == b.tag(u));
                }
                b.lemma_mover_safe(after, t, king, from as int, to as int);
                assert forall|q: int| after.king_on(q, t) implies q == king by {
                    assert(b.king_on(q, t));
                }
            },
            Step::KingMove { from, to } => {
                o.lemma_king_steps_safely(from, to);
                b.lemma_moved_tags(from, to);
                assert forall|q: int| after.king_on(q, t) implies q == to by {
                    if q != to {
                        assert(b.king_on(q, t));
                    }
                }
            },
            Step::EnPassant { from, to } => {
                self.lemma_ep_leaves_king_safe(king, ep, from, to);
            },
            Step::KsCastle => {
                self.lemma_castle_leaves_king_safe(king, ep, true);
            },
            Step::QsCastle => {
                self.lemma_castle_leaves_king_safe(king, ep, false);
            },
        }
    }

    proof fn lemma_castle_leaves_king_safe(self, king: int, ep: Option<u8>, kingside: bool)
        requires
            self.origin.in_play(king, ep),
            self.guarded(king, ep),
            self.step == (if kingside {
                Step::KsCastle
            } else {
                Step::QsCastle
            }),
        ensures
            self.board_after().out_of_check(self.origin.turn),
    {
        let o = self.origin;
        let b = o.board;
        let t = o.turn;
        let after = self.board_after();
        let home = o.home();
        let h = home as u8;
        let k1 = home + 3;
        let k2 = if kingside {
            home + 1
        } else {
            home + 5
        };
        let r1 = if kingside {
            home
        } else {
            home + 7
        };
        let r2 = if kingside {
            home + 2
        } else {
            home + 4
        };
        b.lemma_masks(t);
        after.lemma_masks(t);
        let first = b.moved(r1 as u8, r2 as u8);
        b.lemma_moved_tags(r1 as u8, r2 as u8);
        first.lemma_moved_tags(k1 as u8, k2 as u8);
        assert(after == first.moved(k1 as u8, k2 as u8));
        assert(o.may_castle(kingside));
        assert(o.right(kingside));
        assert(b.king_on(k1, t));
        let safe = !b.spec_attack_mask(!t);
        lemma_castle_masks(safe, h);
        lemma_bit_not(b.spec_attack_mask(!t), k2);
        b.lemma_attack_mask(!t);
        assert forall|a: int| !threatens(b, t, a, k2) by {
            if attacks(b, !t, a, k2) {
                assert(bit(b.spec_attack_mask(!t), k2));
            }
        }
        assert(king == k1);
        b.lemma_castle_safe(after, t, home, k1, k2, r1, r2);
        assert forall|q: int, a: int| after.king_on(q, t) implies !#[trigger] threatens(
            after,
            t,
            a,
            q,
        ) by {
            if q != k2 {
                if q == r2 {
                    assert(b.king_on(r1, t));
                } else {
                    assert(b.king_on(q, t));
                }
            }
        }
    }

    proof fn lemma_ep_leaves_king_safe(self, king: int, ep: Option<u8>, from: u8, to: u8)
        requires
            self.origin.in_play(king, ep),
            self.sound(),
            self.guarded(king, ep),
            self.step == (Step::EnPassant { from, to }),
        ensures
            self.board_after().out_of_check(self.origin.turn),
    {
        let o = self.origin;
        let b = o.board;
        let t = o.turn;
        let after = self.board_after();
        let v = passed_pawn(t, to);
        let s = passed_from(t, to);
        let before = b.moved(v, s);
        b.lemma_masks(t);
        b.lemma_masks(!t);
        after.lemma_masks(t);
        assert(b.kings_apart(t, king)) by {
            assert forall|a: int| b.king_on(a, !t) implies !#[trigger] king_step(a, king) by {
                if king_step(a, king) {
                    lemma_king_step_offsets(a, king);
                    lemma_king_step_offsets(king, a);
                    assert(attacks(b, t, king, a));
                    assert(threatens(b, !t, king, a));
                }
            }
        }
        b.lemma_moved_tags(from, to);
        let mid = b.moved(from, to);
        mid.lemma_cleared(v);
        assert forall|u: int| 0 <= u < 64 implies after.tag(u) == (if u == from || u == v {
            0u8
        } else if u == to {
            b.tag(from as int)
        } else {
            b.tag(u)
        }) by {
            assert(after@[u] == after.tag(u));
            assert(mid@[u] == mid.tag(u));
        }
        assert(ep == Some(to));
        assert(o.ep_fits(king, ep));
        b.lemma_moved_tags(v, s);
        let d = self.pawn_dir();
        let f = from as int;
        let g = to as int;
        assert(f == 8 * (f / 8) + f % 8 && g == 8 * (g / 8) + g % 8);
        b.lemma_ep_safe(after, before, t, king, f, g, v as int, s as int, d.0, d.1);
        assert forall|q: int, a: int| after.king_on(q, t) implies !#[trigger] threatens(
            after,
            t,
            a,
            q,
        ) by {
            if q != king {
                assert(b.king_on(q, t));
            }
        }
    }
}

impl BitBoardGame {
    /// The king of the side that moved is not in check in any successor. Where the position
    /// is one of a game in play, with the king of the side to move on `king`, no piece of the
    /// side that is to move after a legal move attacks a king of the side that made it.
    pub proof fn lemma_mover_not_in_check(self, king: int, k: int)
        requires
            self.valid(),
            self.origin().in_play(king, self.ep),
            0 <= k < self.legal().len(),
        ensures
            self.after(&self.legal()[k]).board.out_of_check(self.turn),
            self.after(&self.legal()[k]).board.spec_attack_mask(!self.turn) & self.after(
                &self.legal()[k],
            ).board.spec_col_king_mask(self.turn) == 0,
    {
        self.lemma_legal_valid();
        let o = self.origin();
        o.lemma_emissions_sound(self.ep);
        o.lemma_emissions_guarded(king, self.ep);
        let e = self.emissions()[k];
        e.lemma_leaves_king_safe(king, self.ep);
        e.board_after().lemma_out_of_check(self.turn);
    }
}

/// The part of the check mask that answers knight checks, for the king on `king` and the
/// knights `others`.
pub open spec fn knight_answers(king: u8, others: u64) -> u64 {
    let kings = 1u64 << king;
    let r2 = kings & !RIGHT2_SIDE;
    let r1 = kings & !RIGHT_SIDE;
    let l1 = kings & !LEFT_SIDE;
    let l2 = kings & !LEFT2_SIDE;
    restrict((r2 >> 10u8) & others, r2 >> 10u8) & restrict((r2 << 6u8) & others, r2 << 6u8)
        & restrict((r1 >> 17u8) & others, r1 >> 17u8) & restrict((r1 << 15u8) & others, r1 << 15u8)
        & restrict((l1 >> 15u8) & others, l1 >> 15u8) & restrict((l1 << 17u8) & others, l1 << 17u8)
        & restrict((l2 >> 6u8) & others, l2 >> 6u8) & restrict((l2 << 10u8) & others, l2 << 10u8)
}

/// The part of the check mask that answers pawn checks, for the king of side `side` on
/// `king` and the pawns `others`.
pub open spec fn pawn_answers(side: bool, king: u8, others: u64) -> u64 {
    let kings = 1u64 << king;
    if side {
        restrict((kings << 9u8) & !RIGHT_SIDE & others, kings << 9u8) & restrict(
            (kings << 7u8) & !LEFT_SIDE & others,
            kings << 7u8,
        )
    } else {
        restrict((kings >> 7u8) & !RIGHT_SIDE & others, kings >> 7u8) & restrict(
            (kings >> 9u8) & !LEFT_SIDE & others,
            kings >> 9u8,
        )
    }
}

/// One term of the check mask that holds at most the square `from`, where a piece of
/// `others` stands, bounds the term to that square.
proof fn lemma_restrict_to(keep: u64, others: u64, from: int)
    requires
        bit(keep, from),
        bit(others, from),
        forall|x: int| #[trigger] bit(keep, x) ==> x == from,
    ensures
        forall|x: int| #[trigger] bit(restrict(keep & others, keep), x) ==> x == from,
{
    lemma_bit_and(keep, others, from);
    lemma_bit_zero(from);
}

/// A knight of `others` a knight's jump from the king bounds the knight answers to its
/// square.
proof fn lemma_knight_keeps(king: u8, others: u64, from: int)
    requires
        king < 64,
        bit(others, from),
        knight_jump(king as int, from),
    ensures
        forall|x: int| #[trigger] bit(knight_answers(king, others), x) ==> x == from,
{
    let kings = 1u64 << king;
    let r2 = kings & !RIGHT2_SIDE;
    let r1 = kings & !RIGHT_SIDE;
    let l1 = kings & !LEFT_SIDE;
    let l2 = kings & !LEFT2_SIDE;
    lemma_knight_jump_offsets(king as int, from);
    let d = from - king;
    let keep = if d == -10 {
        r2 >> 10u8
    } else if d == 6 {
        r2 << 6u8
    } else if d == -17 {
        r1 >> 17u8
    } else if d == 15 {
        r1 << 15u8
    } else if d == -15 {
        l1 >> 15u8
    } else if d == 17 {
        l1 << 17u8
    } else if d == -6 {
        l2 >> 6u8
    } else {
        l2 << 10u8
    };
    assert(bit(keep, from) && forall|x: int| #[trigger] bit(keep, x) ==> x == from) by {
        broadcast use group_bit;

    }
    lemma_restrict_to(keep, others, from);
    let term = restrict(keep & others, keep);
    assert forall|x: int| #[trigger] bit(knight_answers(king, others), x) implies bit(term, x) by {
        broadcast use lemma_bit_and;

    }
}

/// A pawn of `others` that attacks the king bounds the pawn answers to its square.
proof fn lemma_pawn_keeps(side: bool, king: u8, others: u64, from: int)
    requires
        king < 64,
        bit(others, from),
        pawn_hit(!side, from, king as int),
    ensures
        forall|x: int| #[trigger] bit(pawn_answers(side, king, others), x) ==> x == from,
{
    let kings = 1u64 << king;
    lemma_pawn_hit_offsets(!side, from, king as int);
    let d = from - king;
    let keep = if d == 9 {
        kings << 9u8
    } else if d == 7 {
        kings << 7u8
    } else if d == -7 {
        kings >> 7u8
    } else {
        kings >> 9u8
    };
    let edge = if d == 9 || d == -7 {
        RIGHT_SIDE
    } else {
        LEFT_SIDE
    };
    assert(bit(keep & !edge & others, from) && forall|x: int| #[trigger] bit(keep, x) ==> x
        == from) by {
        broadcast use group_bit;

    }
    lemma_bit_zero(from);
    let term = restrict(keep & !edge & others, keep);
    assert(term == keep);
    let all = pawn_answers(side, king, others);
    assert forall|x: int| #[trigger] bit(all, x) implies bit(term, x) by {
        broadcast use lemma_bit_and;

    }
}

impl BitBoard {
    /// The tags after a piece went from `from` to `to`.
    pub proof fn lemma_moved_tags(self, from: u8, to: u8)
        requires
            from < 64,
            to < 64,
            from != to,
        ensures
            forall|u: int|
                0 <= u < 64 ==> #[trigger] self.moved(from, to).tag(u) == (if u == from {
                    0u8
                } else if u == to {
                    self.tag(from as int)
                } else {
                    self.tag(u)
                }),
    {
        let after = self.moved(from, to);
        self.lemma_moved(from, to);
        assert forall|u: int| 0 <= u < 64 implies #[trigger] after.tag(u) == (if u == from {
            0u8
        } else if u == to {
            self.tag(from as int)
        } else {
            self.tag(u)
        }) by {
            assert(after@[u] == after.tag(u));
            assert(self@[u] == self.tag(u));
            assert(self@[from as int] == self.tag(from as int));
        }
    }
}

} // verus!
