//! Positions of a game in play, and what every legal move keeps of them.

use crate::bit_board::laws::{line_of_play, linked};
use crate::bit_board::masks::{attacks, threatens};
use crate::bit_board::planes::{BitBoard, EMPTY, KING, PAWN, kind, piece_of};
use crate::bit_board::position::{BitBoardGame, start_board, start_position};
use crate::bit_board::safety::{passed_from, passed_pawn, slides_along};
use crate::bit_board::visitor::{Emission, Origin, Step};
use crate::bits::bit;
use crate::game::ChessGame;
use crate::rays::{
    aligned, between, is_dir, lemma_aligned_back, lemma_aligned_range, lemma_aligned_trans,
    lemma_last_step, lemma_one_direction, lemma_step_aligned, one_step, sees, sees_diagonally,
    sees_straight, span,
};
use vstd::prelude::*;

verus! {

impl Emission {
    /// The square that the rook leaves when the step is castling.
    pub open spec fn rook_departs(self) -> int {
        self.origin.home() + (if self.step is KsCastle {
            0int
        } else {
            7
        })
    }

    /// The square that the rook reaches when the step is castling.
    pub open spec fn rook_lands(self) -> int {
        self.origin.home() + (if self.step is KsCastle {
            2int
        } else {
            4
        })
    }

    /// The tag of square `u` after the step.
    pub open spec fn tag_after(self, u: int) -> u8 {
        let b = self.origin.board;
        let f = self.departs() as int;
        let g = self.lands() as int;
        match self.step {
            Step::Promotion { from, to, piece } => if u == g {
                piece
            } else if u == f {
                EMPTY
            } else {
                b.tag(u)
            },
            Step::EnPassant { from, to } => if u == f || u == self.origin.ranks_ahead(g, -1) {
                EMPTY
            } else if u == g {
                b.tag(f)
            } else {
                b.tag(u)
            },
            Step::KsCastle | Step::QsCastle => if u == f || u == self.rook_departs() {
                EMPTY
            } else if u == g {
                b.tag(f)
            } else if u == self.rook_lands() {
                b.tag(self.rook_departs())
            } else {
                b.tag(u)
            },
            _ => if u == f {
                EMPTY
            } else if u == g {
                b.tag(f)
            } else {
                b.tag(u)
            },
        }
    }

    /// The board after a sound step, square by square.
    pub proof fn lemma_after_tags(self)
        requires
            self.sound(),
        ensures
            forall|u: int| 0 <= u < 64 ==> #[trigger] self.board_after().tag(u) == self.tag_after(u),
    {
        let b = self.origin.board;
        let t = self.origin.turn;
        let after = self.board_after();
        match self.step {
            Step::Promotion { from, to, piece } => {
                b.lemma_cleared(from);
                b.cleared(from).lemma_placed(to, piece);
                assert forall|u: int| 0 <= u < 64 implies #[trigger] after.tag(u) == self.tag_after(
                    u,
                ) by {
                    assert(after@[u] == after.tag(u));
                    assert(b.cleared(from)@[u] == b.cleared(from).tag(u));
                    assert(b@[u] == b.tag(u));
                }
            },
            Step::EnPassant { from, to } => {
                let v = self.origin.ranks_ahead(to as int, -1) as u8;
                b.lemma_moved_tags(from, to);
                let mid = b.moved(from, to);
                mid.lemma_cleared(v);
                assert forall|u: int| 0 <= u < 64 implies #[trigger] after.tag(u) == self.tag_after(
                    u,
                ) by {
                    assert(after@[u] == after.tag(u));
                    assert(mid@[u] == mid.tag(u));
                }
            },
            Step::KsCastle | Step::QsCastle => {
                let r1 = self.rook_departs() as u8;
                let r2 = self.rook_lands() as u8;
                b.lemma_moved_tags(r1, r2);
                b.moved(r1, r2).lemma_moved_tags(self.departs(), self.lands());
            },
            _ => {
                b.lemma_moved_tags(self.departs(), self.lands());
            },
        }
    }
}

impl Origin {
    /// The same board and rights with the other side to move.
    pub open spec fn passed(self) -> Origin {
        Origin { rights: self.rights, turn: !self.turn, board: self.board }
    }

    /// What holds of a position of a game in play whatever was played: the king of the side
    /// to move, on `mine`, and the king of the other side, on `theirs`, are the only ones of
    /// their sides; the side that is not to move is not in check; the castling rights of
    /// both sides and the en-passant target fit the board.
    pub open spec fn poised(self, mine: int, theirs: int, ep: Option<u8>) -> bool {
        &&& ep matches Some(x) ==> x < 64
        &&& self.board.sole_king(self.turn, mine)
        &&& self.board.sole_king(!self.turn, theirs)
        &&& self.board.out_of_check(!self.turn)
        &&& self.at_home()
        &&& self.passed().at_home()
        &&& self.ep_fits(mine, ep)
    }
}

impl Emission {
    /// The origin of the successor.
    pub open spec fn origin_after(self) -> Origin {
        Origin { rights: self.rights_left(), turn: !self.origin.turn, board: self.board_after() }
    }

    /// The square of the mover's king after the step.
    pub open spec fn king_after(self, mine: int) -> int {
        match self.step {
            Step::KingMove { from, to } => to as int,
            Step::KsCastle => self.lands() as int,
            Step::QsCastle => self.lands() as int,
            _ => mine,
        }
    }

    /// The step changes what stands on square `u`.
    pub open spec fn touches(self, u: int) -> bool {
        ||| u == self.departs()
        ||| u == self.lands()
        ||| self.step is EnPassant && u == self.origin.ranks_ahead(self.lands() as int, -1)
        ||| (self.step is KsCastle || self.step is QsCastle) && (u == self.rook_departs() || u
            == self.rook_lands())
    }

    /// A step that the pieces can make from a position where the other side is not in check
    /// lands on no king of the other side, and removes none.
    proof fn lemma_king_not_taken(self, mine: int, theirs: int, ep: Option<u8>)
        requires
            self.origin.poised(mine, theirs, ep),
            self.sound(),
            self.origin.movable(self.step, ep),
        ensures
            !self.touches(theirs),
            !self.touches(mine) || self.departs() == mine,
    {
        let o = self.origin;
        let b = o.board;
        let t = o.turn;
        let f = self.departs() as int;
        let g = self.lands() as int;
        let other = !t;
        assert(b.king_on(theirs, other) && b.king_on(mine, t));
        assert(!threatens(b, other, f, theirs));
        match self.step {
            Step::Move { from, to } => {
                assert(g == theirs ==> attacks(b, t, f, theirs));
            },
            Step::KingMove { from, to } => {
                assert(g == theirs ==> attacks(b, t, f, theirs));
                assert(b.king_on(f, t));
            },
            Step::Promotion { from, to, piece } => {
                assert(g == theirs ==> attacks(b, t, f, theirs));
            },
            Step::EnPassant { from, to } => {},
            Step::PawnPush2 { from } => {},
            _ => {
                assert(o.right(true) || o.right(false));
                assert(b.king_on(o.home() + 3, t));
            },
        }
    }
}

impl Emission {
    /// After the step the castling rights that are left to a side come with its king and a
    /// piece of its own on their home squares.
    proof fn lemma_homes_kept(self, mine: int, theirs: int, ep: Option<u8>, side: bool)
        requires
            self.origin.poised(mine, theirs, ep),
            self.sound(),
            self.origin.movable(self.step, ep),
        ensures
            (Origin { rights: self.rights_left(), turn: side, board: self.board_after() }).at_home(),
    {
        let o = self.origin;
        let b = o.board;
        let t = o.turn;
        let after = self.board_after();
        let before = Origin { rights: o.rights, turn: side, board: b };
        let next = Origin { rights: self.rights_left(), turn: side, board: after };
        let home = next.home();
        assert(before == (if side == t {
            o
        } else {
            o.passed()
        }));
        assert(before.at_home());
        self.lemma_after_tags();
        self.lemma_king_not_taken(mine, theirs, ep);
        self.lemma_rights_never_return();
        assert(b.king_on(mine, t) && b.king_on(theirs, !t));
        if next.right(true) {
            assert(before.right(true));
            assert(b.king_on(home + 3, side));
            assert(!self.touches(home + 3));
            assert(!self.touches(home)) by {
                self.lemma_corner_kept(mine, theirs, ep, side, true);
            }
            assert(after.tag(home + 3) == b.tag(home + 3));
            assert(after.tag(home) == b.tag(home));
        }
        if next.right(false) {
            assert(before.right(false));
            assert(b.king_on(home + 3, side));
            assert(!self.touches(home + 3));
            assert(!self.touches(home + 7)) by {
                self.lemma_corner_kept(mine, theirs, ep, side, false);
            }
            assert(after.tag(home + 3) == b.tag(home + 3));
            assert(after.tag(home + 7) == b.tag(home + 7));
        }
    }

    /// A step that leaves a castling right of a side does not touch the corner that the
    /// right belongs to.
    proof fn lemma_corner_kept(
        self,
        mine: int,
        theirs: int,
        ep: Option<u8>,
        side: bool,
        kingside: bool,
    )
        requires
            self.origin.poised(mine, theirs, ep),
            self.sound(),
            self.origin.movable(self.step, ep),
            (Origin { rights: self.rights_left(), turn: side, board: self.board_after() }).right(
                kingside,
            ),
        ensures
            !self.touches(
                (if side {
                    0int
                } else {
                    56
                }) + (if kingside {
                    0int
                } else {
                    7
                }),
            ),
    {
        let o = self.origin;
        let t = o.turn;
        let f = self.departs() as int;
        let g = self.lands() as int;
        assert(f == 8 * (f / 8) + f % 8 && g == 8 * (g / 8) + g % 8);
        match self.step {
            Step::EnPassant { from, to } => {
                crate::bits::lemma_pawn_hit_offsets(t, f, g);
            },
            Step::Promotion { from, to, piece } => {
                crate::bits::lemma_pawn_hit_offsets(t, f, g);
            },
            _ => {},
        }
    }
}

impl BitBoard {
    /// Two boards that hold the same pieces on the same squares have the same occupied
    /// squares and the same attacks.
    pub proof fn lemma_same_pieces(self, other: BitBoard)
        requires
            forall|u: int|
                0 <= u < 64 ==> kind(#[trigger] self.tag(u)) == kind(other.tag(u)) && (kind(
                    self.tag(u),
                ) != 0 ==> self.tag(u) == other.tag(u)),
        ensures
            self.spec_piece_mask() == other.spec_piece_mask(),
            forall|side: bool, a: int, t: int|
                #[trigger] attacks(self, side, a, t) == attacks(other, side, a, t),
    {
        self.lemma_masks(true);
        other.lemma_masks(true);
        crate::bits::lemma_bits_equal(self.spec_piece_mask(), other.spec_piece_mask());
    }
}

impl Emission {
    /// After a double step the en-passant target fits the board.
    proof fn lemma_ep_fits_after(self, mine: int, theirs: int, ep: Option<u8>)
        requires
            self.origin.poised(mine, theirs, ep),
            self.sound(),
            self.origin.movable(self.step, ep),
        ensures
            self.origin_after().ep_fits(theirs, self.ep_after()),
    {
        let o = self.origin;
        let b = o.board;
        let t = o.turn;
        let other = !t;
        let after = self.board_after();
        if let Step::PawnPush2 { from } = self.step {
            let x = self.ep_after()->0;
            let v = passed_pawn(other, x);
            let s = passed_from(other, x);
            assert(v == self.lands() && s == from);
            self.lemma_after_tags();
            b.lemma_masks(t);
            after.lemma_masks(t);
            assert(after.tag(x as int) == b.tag(x as int));
            after.lemma_moved_tags(v, s);
            let back = after.moved(v, s);
            back.lemma_same_pieces(b);
            assert(b.king_on(theirs, other));
            assert forall|a: int| !threatens(back, other, a, theirs) by {
                assert(!threatens(b, other, a, theirs));
            }
        }
    }

    /// After the step each side still has its king, and no other.
    proof fn lemma_kings_after(self, mine: int, theirs: int, ep: Option<u8>)
        requires
            self.origin.poised(mine, theirs, ep),
            self.sound(),
            self.origin.movable(self.step, ep),
        ensures
            self.board_after().sole_king(self.origin.turn, self.king_after(mine)),
            self.board_after().sole_king(!self.origin.turn, theirs),
    {
        let o = self.origin;
        let b = o.board;
        let t = o.turn;
        let after = self.board_after();
        self.lemma_after_tags();
        self.lemma_king_not_taken(mine, theirs, ep);
        self.lemma_kings_stay_unique(t);
        self.lemma_kings_stay_unique(!t);
        assert(self.successor().board == after);
        assert(b.king_on(mine, t) && b.king_on(theirs, !t));
        assert(after.tag(theirs) == b.tag(theirs));
        match self.step {
            Step::KingMove { from, to } => {
                assert(b.king_on(from as int, t));
            },
            Step::KsCastle => {
                assert(b.king_on(o.home() + 3, t));
            },
            Step::QsCastle => {
                assert(b.king_on(o.home() + 3, t));
            },
            _ => {
                assert(after.tag(mine) == b.tag(mine));
            },
        }
    }

    /// A legal move keeps a position poised. Where a step that the pieces can make, from a
    /// position that is poised, leaves the king of the side that makes it out of check, the
    /// position that it leads to is poised, with the kings' squares exchanged.
    pub proof fn lemma_stays_poised(self, mine: int, theirs: int, ep: Option<u8>)
        requires
            self.origin.poised(mine, theirs, ep),
            self.sound(),
            self.origin.movable(self.step, ep),
            self.board_after().out_of_check(self.origin.turn),
        ensures
            self.origin_after().poised(theirs, self.king_after(mine), self.ep_after()),
    {
        let next = self.origin_after();
        self.lemma_kings_after(mine, theirs, ep);
        self.lemma_homes_kept(mine, theirs, ep, !self.origin.turn);
        self.lemma_homes_kept(mine, theirs, ep, self.origin.turn);
        self.lemma_ep_fits_after(mine, theirs, ep);
        assert(next.passed() == (Origin {
            rights: self.rights_left(),
            turn: self.origin.turn,
            board: self.board_after(),
        }));
    }
}

/// A square sees the square one step from it, whatever the blockers.
pub proof fn lemma_step_sees(i: int, j: int, df: int, dr: int, blockers: u64)
    requires
        is_dir(df, dr),
        one_step(i, j, df, dr),
    ensures
        sees(i, j, df, dr, blockers),
{
    lemma_step_aligned(i, j, df, dr);
    assert forall|u: int| #[trigger] between(i, u, j, df, dr) implies !bit(blockers, u) by {
        lemma_aligned_trans(i, u, j, df, dr);
        lemma_aligned_range(i, u, df, dr);
        lemma_aligned_range(u, j, df, dr);
    }
}

impl Emission {
    /// The piece that lands next to the other king, on the far side of a line along which
    /// a piece of the mover's side looks at that king after the step, is no piece that slides
    /// along that line: a slider cannot have come there from the line's other side past the
    /// king, and a pawn that promotes moves one square only.
    proof fn lemma_no_slider_lands(
        self,
        mine: int,
        theirs: int,
        ep: Option<u8>,
        g: int,
        u: int,
        df: int,
        dr: int,
    )
        requires
            self.origin.poised(mine, theirs, ep),
            self.sound(),
            self.origin.movable(self.step, ep),
            is_dir(df, dr),
            one_step(theirs, g, -df, -dr),
            aligned(theirs, u, df, dr),
            self.touches(g),
            self.touches(u),
            kind(self.tag_after(u)) == 0,
        ensures
            !slides_along(self.tag_after(g), self.origin.turn, df, dr),
    {
        let o = self.origin;
        let b = o.board;
        let t = o.turn;
        let occ = b.spec_piece_mask();
        let f = self.departs() as int;
        let nf = -df;
        let nr = -dr;
        b.lemma_masks(t);
        assert(b.king_on(theirs, !t) && b.king_on(mine, t));
        lemma_step_aligned(theirs, g, nf, nr);
        lemma_aligned_back(theirs, g, nf, nr);
        assert(aligned(g, theirs, df, dr));
        lemma_aligned_trans(g, theirs, u, df, dr);
        lemma_aligned_range(g, u, df, dr);
        lemma_aligned_range(theirs, u, df, dr);
        if slides_along(self.tag_after(g), t, df, dr) {
            match self.step {
                Step::Move { from, to } => {
                    assert(g == to && u == from);
                    let k = kind(b.tag(f));
                    let v = if (k == crate::bit_board::planes::BISHOP || k
                        == crate::bit_board::planes::QUEEN) && sees_diagonally(f, g, occ) {
                        if sees(f, g, -1, 1, occ) {
                            (-1int, 1int)
                        } else if sees(f, g, 1, 1, occ) {
                            (1int, 1int)
                        } else if sees(f, g, -1, -1, occ) {
                            (-1int, -1int)
                        } else {
                            (1int, -1int)
                        }
                    } else {
                        if sees(f, g, 1, 0, occ) {
                            (1int, 0int)
                        } else if sees(f, g, -1, 0, occ) {
                            (-1int, 0int)
                        } else if sees(f, g, 0, 1, occ) {
                            (0int, 1int)
                        } else {
                            (0int, -1int)
                        }
                    };
                    assert(sees(f, g, v.0, v.1, occ));
                    lemma_aligned_back(g, f, df, dr);
                    lemma_one_direction(f, g, v.0, v.1, nf, nr);
                    lemma_aligned_back(theirs, f, df, dr);
                    assert(between(f, theirs, g, nf, nr));
                },
                Step::Promotion { from, to, piece } => {
                    assert(g == to && u == from);
                    crate::bits::lemma_pawn_hit_offsets(t, f, g);
                    assert(span(g, u) >= 2);
                    assert(span(g, u) <= 1) by {
                        reveal(span);
                        assert(f == 8 * (f / 8) + f % 8 && g == 8 * (g / 8) + g % 8);
                    }
                },
                Step::KsCastle => {
                    assert(b.king_on(o.home() + 3, t));
                    assert(g == o.home() + 2);
                    assert(dr == 0) by {
                        reveal(aligned);
                    }
                    assert(theirs == o.home() + 1 || theirs == o.home() + 3);
                },
                Step::QsCastle => {
                    assert(b.king_on(o.home() + 3, t));
                    assert(g == o.home() + 4);
                    assert(dr == 0) by {
                        reveal(aligned);
                    }
                    assert(theirs == o.home() + 5 || theirs == o.home() + 3);
                },
                _ => {},
            }
        }
    }

    /// After a step that the pieces can make from a poised position, the king of the side
    /// that is then to move is not in check along a line from one side with a piece of the
    /// other side that slides along that line next to it on the other.
    pub proof fn lemma_never_sandwiched(self, mine: int, theirs: int, ep: Option<u8>)
        requires
            self.origin.poised(mine, theirs, ep),
            self.sound(),
            self.origin.movable(self.step, ep),
        ensures
            !self.board_after().sandwiched(!self.origin.turn, theirs),
    {
        let o = self.origin;
        let b = o.board;
        let t = o.turn;
        let other = !t;
        let after = self.board_after();
        let occ = b.spec_piece_mask();
        let occ2 = after.spec_piece_mask();
        self.lemma_after_tags();
        b.lemma_masks(t);
        after.lemma_masks(t);
        assert(b.king_on(theirs, other));
        if after.sandwiched(other, theirs) {
            let (df, dr, from, g) = choose|df: int, dr: int, from: int, g: int|
                is_dir(df, dr) && slides_along(after.tag(from), !other, df, dr) && #[trigger] sees(
                    theirs,
                    from,
                    df,
                    dr,
                    occ2,
                ) && #[trigger] one_step(theirs, g, -df, -dr) && slides_along(
                    after.tag(g),
                    !other,
                    df,
                    dr,
                );
            let nf = -df;
            let nr = -dr;
            lemma_aligned_range(theirs, from, df, dr);
            lemma_step_aligned(theirs, g, nf, nr);
            if from == g {
                lemma_one_direction(theirs, g, df, dr, nf, nr);
            }
            if after.tag(g) == b.tag(g) {
                lemma_step_sees(theirs, g, nf, nr, occ);
                assert(slides_along(b.tag(g), !other, nf, nr));
                b.lemma_line_open(other, theirs, g, nf, nr);
                assert(!threatens(b, other, g, theirs));
            }
            assert(self.touches(g));
            assert(after.tag(from) == b.tag(from));
            if sees(theirs, from, df, dr, occ) {
                b.lemma_line_open(other, theirs, from, df, dr);
                assert(!threatens(b, other, from, theirs));
            }
            let u = choose|u: int| #[trigger] between(theirs, u, from, df, dr) && bit(occ, u);
            lemma_aligned_range(theirs, u, df, dr);
            assert(!bit(occ2, u));
            assert(self.touches(u));
            self.lemma_no_slider_lands(mine, theirs, ep, g, u, df, dr);
        }
    }
}

impl BitBoardGame {
    /// The position is poised, with the king of the side to move on `mine` and the other
    /// king on `theirs`.
    pub open spec fn poised(self, mine: int, theirs: int) -> bool {
        self.origin().poised(mine, theirs, self.ep)
    }

    /// The position is one that play can go on from: it is poised, and the king of the side
    /// to move is not in check along a line from one side with an enemy piece that slides
    /// along that line next to it on the other.
    pub open spec fn steady(self) -> bool {
        exists|mine: int, theirs: int| #[trigger]
            self.poised(mine, theirs) && !self.board.sandwiched(self.turn, mine)
    }

    /// Every legal move of a steady position leads to a steady position in which the side
    /// that moved is not in check.
    pub proof fn lemma_play_goes_on(self, mine: int, theirs: int, k: int) -> (king: int)
        requires
            self.poised(mine, theirs),
            !self.board.sandwiched(self.turn, mine),
            0 <= k < self.legal().len(),
        ensures
            self.after(&self.legal()[k]).poised(theirs, king),
            !self.after(&self.legal()[k]).board.sandwiched(!self.turn, theirs),
            self.after(&self.legal()[k]).steady(),
            self.after(&self.legal()[k]).board.out_of_check(self.turn),
    {
        self.lemma_legal_valid();
        let o = self.origin();
        o.lemma_emissions_sound(self.ep);
        o.lemma_emissions_guarded(mine, self.ep);
        o.lemma_emissions_movable(mine, self.ep);
        let e = self.emissions()[k];
        e.lemma_leaves_king_safe(mine, self.ep);
        e.lemma_stays_poised(mine, theirs, self.ep);
        e.lemma_never_sandwiched(mine, theirs, self.ep);
        let next = e.successor();
        assert(next.origin() == e.origin_after());
        assert(next.poised(theirs, e.king_after(mine)) && !next.board.sandwiched(
            next.turn,
            theirs,
        ));
        e.king_after(mine)
    }
}

/// Along a line of play from a steady position every position is steady, and the side that
/// has just moved is not in check.
pub proof fn lemma_play_stays_steady(line: Seq<BitBoardGame>, j: int)
    requires
        line_of_play(line),
        0 <= j < line.len(),
        line[0].steady(),
    ensures
        line[j].steady(),
        j > 0 ==> line[j].board.out_of_check(!line[j].turn),
    decreases j,
{
    if j > 0 {
        lemma_play_stays_steady(line, j - 1);
        let p = line[j - 1];
        assert(linked(line, j - 1));
        let (m, t) = choose|m: int, t: int| #[trigger]
            p.poised(m, t) && !p.board.sandwiched(p.turn, m);
        let k = choose|k: int|
            0 <= k < p.legal().len() && line[j] == p.after(&#[trigger] p.legal()[k]);
        let king = p.lemma_play_goes_on(m, t, k);
        p.lemma_successors_pass_the_turn(k);
    }
}

/// No legal move of a position in play leaves the mover's king in check. Along a line of
/// play from a steady position, the start of a game for one, every move that the generator
/// finds in any of its positions is one that the pieces can make by the way they move, and
/// leads to a position in which no piece of the side then to move attacks a king of the
/// side that has moved.
pub proof fn lemma_king_is_safe_in_play(line: Seq<BitBoardGame>, j: int, k: int)
    requires
        line_of_play(line),
        0 <= j < line.len(),
        line[0].steady(),
        0 <= k < line[j].legal().len(),
    ensures
        line[j].origin().lawful(line[j].emissions()[k].step, line[j].ep),
        line[j].after(&line[j].legal()[k]).board.out_of_check(line[j].turn),
        line[j].after(&line[j].legal()[k]).board.spec_attack_mask(!line[j].turn) & line[j].after(
            &line[j].legal()[k],
        ).board.spec_col_king_mask(line[j].turn) == 0,
{
    lemma_play_stays_steady(line, j);
    let p = line[j];
    let (m, t) = choose|m: int, t: int| #[trigger]
        p.poised(m, t) && !p.board.sandwiched(p.turn, m);
    assert(p.origin().in_play(m, p.ep));
    p.lemma_mover_not_in_check(m, k);
    p.lemma_listed_moves_are_lawful(m, k);
}

/// The four planes of the board at the start of a game, square by square.
proof fn lemma_start_planes(i: int)
    ensures
        bit(0x7E0000000000007E, i) == (0 <= i < 64 && (i < 8 || i >= 56) && 1 <= i % 8 <= 6),
        bit(0x9900000000000099, i) == (0 <= i < 64 && (i < 8 || i >= 56) && (i % 8 == 0 || i % 8
            == 3 || i % 8 == 4 || i % 8 == 7)),
        bit(0x4AFF00000000FF4A, i) == (0 <= i < 64 && (8 <= i < 16 || 48 <= i < 56 || ((i < 8 || i
            >= 56) && (i % 8 == 1 || i % 8 == 3 || i % 8 == 6)))),
        bit(0x000000000000FFFF, i) == (0 <= i < 16),
{
    if 0 <= i < 64 {
        let k = i as u64;
        assert(((0x7E0000000000007Eu64 >> k) & 1 == 1) == ((k < 8 || k >= 56) && 1 <= k % 8 && k
            % 8 <= 6)) by (bit_vector)
            requires
                k < 64,
        ;
        assert(((0x9900000000000099u64 >> k) & 1 == 1) == ((k < 8 || k >= 56) && (k % 8 == 0 || k
            % 8 == 3 || k % 8 == 4 || k % 8 == 7))) by (bit_vector)
            requires
                k < 64,
        ;
        assert(((0x4AFF00000000FF4Au64 >> k) & 1 == 1) == ((8 <= k && k < 16) || (48 <= k && k
            < 56) || ((k < 8 || k >= 56) && (k % 8 == 1 || k % 8 == 3 || k % 8 == 6))))
            by (bit_vector)
            requires
                k < 64,
        ;
        assert(((0x000000000000FFFFu64 >> k) & 1 == 1) == (k < 16)) by (bit_vector)
            requires
                k < 64,
        ;
    }
}

/// The board at the start of a game, square by square: the pieces on the first and last
/// ranks, the pawns before them, white on the low squares.
pub proof fn lemma_start_tags(i: int)
    requires
        0 <= i < 64,
    ensures
        piece_of(start_board().tag(i), true) == (i < 16),
        piece_of(start_board().tag(i), false) == (i >= 48),
        kind(start_board().tag(i)) == (if 8 <= i < 16 || 48 <= i < 56 {
            PAWN as int
        } else if 16 <= i < 48 {
            0
        } else if i % 8 == 0 || i % 8 == 7 {
            2
        } else if i % 8 == 1 || i % 8 == 6 {
            5
        } else if i % 8 == 2 || i % 8 == 5 {
            1
        } else if i % 8 == 3 {
            KING as int
        } else {
            3
        }),
{
    lemma_start_planes(i);
}

/// No white piece attacks the black king's square at the start of a game.
proof fn lemma_start_quiet(a: int)
    ensures
        !attacks(start_board(), true, a, 59),
{
    let b = start_board();
    let occ = b.spec_piece_mask();
    if attacks(b, true, a, 59) {
        lemma_start_tags(a);
        crate::bits::lemma_knight_jump_offsets(a, 59);
        crate::bits::lemma_pawn_hit_offsets(true, a, 59);
        crate::bits::lemma_king_step_offsets(a, 59);
        let d = crate::bit_board::safety::lemma_slider_dir(b, true, a, 59);
        lemma_aligned_range(a, 59, d.0, d.1);
        assert(d.1 == 1 && span(a, 59) >= 2) by {
            reveal(aligned);
            reveal(span);
        }
        lemma_last_step(a, 59, d.0, d.1);
        let u = 59 - (8 * d.1 + d.0);
        assert(between(a, u, 59, d.0, d.1)) by {
            crate::rays::lemma_step_aligned(u, 59, d.0, d.1);
        }
        lemma_start_tags(u);
        b.lemma_masks(true);
        assert(bit(occ, u));
    }
}

/// The position at the start of a game is steady.
pub proof fn lemma_start_steady()
    ensures
        start_position().poised(3, 59),
        start_position().steady(),
{
    let p = start_position();
    let b = start_board();
    let o = p.origin();
    lemma_start_tags(0);
    lemma_start_tags(3);
    lemma_start_tags(7);
    lemma_start_tags(56);
    lemma_start_tags(59);
    lemma_start_tags(63);
    assert forall|i: int, j: int| b.king_on(i, true) && b.king_on(j, true) implies i == j by {
        lemma_start_tags(i);
        lemma_start_tags(j);
    }
    assert forall|i: int, j: int| b.king_on(i, false) && b.king_on(j, false) implies i == j by {
        lemma_start_tags(i);
        lemma_start_tags(j);
    }
    assert forall|k2: int, a: int| b.king_on(k2, false) implies !#[trigger] threatens(
        b,
        false,
        a,
        k2,
    ) by {
        lemma_start_tags(k2);
        lemma_start_quiet(a);
    }
    assert(p.poised(3, 59));
    assert(!b.sandwiched(true, 3)) by {
        assert forall|df: int, dr: int, g: int|
            is_dir(df, dr) && #[trigger] one_step(3, g, -df, -dr) implies !slides_along(
            b.tag(g),
            false,
            df,
            dr,
        ) by {
            lemma_start_tags(g);
        }
    }
}

} // verus!
