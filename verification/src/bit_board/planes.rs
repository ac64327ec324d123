//! The piece-plane board: four 64-bit words that hold a 4-bit tag for each square.

use crate::bits::{bit, group_bit, lemma_bits_equal};
use vstd::prelude::*;

verus! {

/// Tag of an empty square.
pub const EMPTY: u8 = 0;

/// Piece kind of a bishop (the low three bits of a tag).
pub const BISHOP: u8 = 1;

/// Piece kind of a rook.
pub const ROOK: u8 = 2;

/// Piece kind of a queen.
pub const QUEEN: u8 = 3;

/// Piece kind of a pawn.
pub const PAWN: u8 = 4;

/// Piece kind of a knight.
pub const KNIGHT: u8 = 5;

/// Piece kind of a king.
pub const KING: u8 = 7;

/// The side bit of a tag: set for white.
pub const WHITE: u8 = 8;

/// The piece kind of a tag: its low three bits.
pub open spec fn kind(tag: u8) -> int {
    tag as int % 8
}

/// The tag has the side bit set.
pub open spec fn white(tag: u8) -> bool {
    tag >= 8
}

/// The tag is a piece of side `turn` (`true` is white).
pub open spec fn piece_of(tag: u8, turn: bool) -> bool {
    kind(tag) != 0 && white(tag) == turn
}

/// Column-wise board: bit `i` of `b0`, `b1`, `b2`, `b3` are the four bits, low to high, of
/// the tag of square `i`. `0` is an empty square, the high bit is the side (set for white)
/// and the low three bits are the piece kind.
#[derive(Clone, Copy, Debug, PartialEq, Eq, Structural)]
pub struct BitBoard {
    pub b0: u64,
    pub b1: u64,
    pub b2: u64,
    pub b3: u64,
}

impl View for BitBoard {
    type V = Seq<u8>;

    /// The board as its 64 tags.
    open spec fn view(&self) -> Seq<u8> {
        Seq::new(64, |sq: int| self.tag(sq))
    }
}

/// The low four bits of a tag as a number.
pub open spec fn tag_of(t0: bool, t1: bool, t2: bool, t3: bool) -> u8 {
    ((if t0 {
        1int
    } else {
        0
    }) + (if t1 {
        2int
    } else {
        0
    }) + (if t2 {
        4int
    } else {
        0
    }) + (if t3 {
        8int
    } else {
        0
    })) as u8
}

/// What a plane holds after square `to` took the bit of square `from`.
pub open spec fn plane_dupe(p: u64, from: u8, to: u8) -> u64 {
    (p & !(1u64 << to)) | (((p >> from) & 1) << to)
}

/// What plane `i` holds after square `sq` took the tag `piece`.
pub open spec fn plane_set(p: u64, sq: u8, piece: u8, i: u8) -> u64 {
    (p & !(1u64 << sq)) | ((((piece as u64) >> i) & 1) << sq)
}

proof fn lemma_plane_dupe(p: u64, from: u8, to: u8)
    requires
        from < 64,
        to < 64,
    ensures
        forall|j: int|
            0 <= j < 64 ==> #[trigger] bit(plane_dupe(p, from, to), j) == (if j == to {
                bit(p, from as int)
            } else {
                bit(p, j)
            }),
{
    assert forall|j: int| 0 <= j < 64 implies #[trigger] bit(plane_dupe(p, from, to), j) == (if j
        == to {
        bit(p, from as int)
    } else {
        bit(p, j)
    }) by {
        let k = j as u64;
        let f = from as u64;
        assert(((((p & !(1u64 << to)) | (((p >> from) & 1) << to)) >> k) & 1 == 1) == (if k == to {
            (p >> f) & 1 == 1
        } else {
            (p >> k) & 1 == 1
        })) by (bit_vector)
            requires
                from < 64,
                to < 64,
                k < 64,
                f == from,
        ;
    }
}

proof fn lemma_plane_set(p: u64, sq: u8, piece: u8, i: u8)
    requires
        sq < 64,
        i < 4,
    ensures
        forall|j: int|
            0 <= j < 64 ==> #[trigger] bit(plane_set(p, sq, piece, i), j) == (if j == sq {
                bit(piece as u64, i as int)
            } else {
                bit(p, j)
            }),
{
    assert forall|j: int| 0 <= j < 64 implies #[trigger] bit(plane_set(p, sq, piece, i), j) == (if j
        == sq {
        bit(piece as u64, i as int)
    } else {
        bit(p, j)
    }) by {
        let k = j as u64;
        let w = piece as u64;
        let s = i as u64;
        assert(((((p & !(1u64 << sq)) | (((w >> i) & 1) << sq)) >> k) & 1 == 1) == (if k == sq {
            (w >> s) & 1 == 1
        } else {
            (p >> k) & 1 == 1
        })) by (bit_vector)
            requires
                sq < 64,
                i < 4,
                k < 64,
                s == i,
        ;
    }
}

proof fn lemma_tag_bits(piece: u8)
    ensures
        tag_of(
            bit(piece as u64, 0),
            bit(piece as u64, 1),
            bit(piece as u64, 2),
            bit(piece as u64, 3),
        ) == piece % 16,
{
    let w = piece as u64;
    assert(w % 16 == (w & 1) + 2 * ((w >> 1) & 1) + 4 * ((w >> 2) & 1) + 8 * ((w >> 3) & 1))
        by (bit_vector);
    assert((w >> 0) & 1 == w & 1) by (bit_vector);
    assert((w >> 1) & 1 <= 1 && (w >> 2) & 1 <= 1 && (w >> 3) & 1 <= 1 && w & 1 <= 1)
        by (bit_vector);
}

impl BitBoard {
    /// The tag of square `sq`.
    pub open spec fn tag(&self, sq: int) -> u8 {
        tag_of(bit(self.b0, sq), bit(self.b1, sq), bit(self.b2, sq), bit(self.b3, sq))
    }

    /// The board with square `sq` emptied.
    pub open spec fn cleared(self, sq: u8) -> BitBoard {
        BitBoard {
            b0: self.b0 & !(1u64 << sq),
            b1: self.b1 & !(1u64 << sq),
            b2: self.b2 & !(1u64 << sq),
            b3: self.b3 & !(1u64 << sq),
        }
    }

    /// The board with the tag of `from` copied over that of `to`.
    pub open spec fn duped(self, from: u8, to: u8) -> BitBoard {
        BitBoard {
            b0: plane_dupe(self.b0, from, to),
            b1: plane_dupe(self.b1, from, to),
            b2: plane_dupe(self.b2, from, to),
            b3: plane_dupe(self.b3, from, to),
        }
    }

    /// The board with the piece of `from` moved to `to`.
    pub open spec fn moved(self, from: u8, to: u8) -> BitBoard {
        self.duped(from, to).cleared(from)
    }

    /// The board with the tag `piece` put on `sq`.
    pub open spec fn placed(self, sq: u8, piece: u8) -> BitBoard {
        BitBoard {
            b0: plane_set(self.b0, sq, piece, 0),
            b1: plane_set(self.b1, sq, piece, 1),
            b2: plane_set(self.b2, sq, piece, 2),
            b3: plane_set(self.b3, sq, piece, 3),
        }
    }

    /// Two boards with the same tags are the same board.
    pub proof fn lemma_view_injective(self, other: BitBoard)
        requires
            self@ == other@,
        ensures
            self == other,
    {
        assert forall|i: int| 0 <= i < 64 implies bit(self.b0, i) == bit(other.b0, i) && bit(
            self.b1,
            i,
        ) == bit(other.b1, i) && bit(self.b2, i) == bit(other.b2, i) && bit(self.b3, i) == bit(
            other.b3,
            i,
        ) by {
            assert(self@[i] == self.tag(i));
            assert(other@[i] == other.tag(i));
            assert(self.tag(i) == other.tag(i));
        }
        lemma_bits_equal(self.b0, other.b0);
        lemma_bits_equal(self.b1, other.b1);
        lemma_bits_equal(self.b2, other.b2);
        lemma_bits_equal(self.b3, other.b3);
    }

    /// Emptying a square changes that square's tag to 0 and no other.
    pub proof fn lemma_cleared(self, sq: u8)
        requires
            sq < 64,
        ensures
            self.cleared(sq)@ == self@.update(sq as int, EMPTY),
    {
        broadcast use group_bit;

        assert(self.cleared(sq)@ =~= self@.update(sq as int, EMPTY));
    }

    /// Copying a tag changes the tag of `to` to that of `from` and no other.
    pub proof fn lemma_duped(self, from: u8, to: u8)
        requires
            from < 64,
            to < 64,
        ensures
            self.duped(from, to)@ == self@.update(to as int, self@[from as int]),
    {
        lemma_plane_dupe(self.b0, from, to);
        lemma_plane_dupe(self.b1, from, to);
        lemma_plane_dupe(self.b2, from, to);
        lemma_plane_dupe(self.b3, from, to);
        assert(self.duped(from, to)@ =~= self@.update(to as int, self@[from as int]));
    }

    /// Moving a piece puts its tag on `to` and leaves `from` empty.
    pub proof fn lemma_moved(self, from: u8, to: u8)
        requires
            from < 64,
            to < 64,
        ensures
            self.moved(from, to)@ == self@.update(to as int, self@[from as int]).update(
                from as int,
                EMPTY,
            ),
    {
        self.lemma_duped(from, to);
        self.duped(from, to).lemma_cleared(from);
    }

    /// Placing a tag changes the tag of that square to the low four bits of `piece`.
    pub proof fn lemma_placed(self, sq: u8, piece: u8)
        requires
            sq < 64,
        ensures
            self.placed(sq, piece)@ == self@.update(sq as int, piece % 16),
    {
        lemma_plane_set(self.b0, sq, piece, 0);
        lemma_plane_set(self.b1, sq, piece, 1);
        lemma_plane_set(self.b2, sq, piece, 2);
        lemma_plane_set(self.b3, sq, piece, 3);
        lemma_tag_bits(piece);
        assert(self.placed(sq, piece)@ =~= self@.update(sq as int, piece % 16));
    }

    /// Set cell `square` to an empty cell.
    pub fn clear(&mut self, square: u8)
        requires
            square < 64,
        ensures
            *final(self) == old(self).cleared(square),
            final(self)@ == old(self)@.update(square as int, EMPTY),
    {
        let keep: u64 = !(1u64 << square);
        self.b0 = self.b0 & keep;
        self.b1 = self.b1 & keep;
        self.b2 = self.b2 & keep;
        self.b3 = self.b3 & keep;
        proof {
            old(self).lemma_cleared(square);
        }
    }

    /// Copy cell `from` to cell `to`.
    pub fn dupe(&mut self, from: u8, to: u8)
        requires
            from < 64,
            to < 64,
        ensures
            *final(self) == old(self).duped(from, to),
            final(self)@ == old(self)@.update(to as int, old(self)@[from as int]),
    {
        let keep: u64 = !(1u64 << to);
        self.b0 = (self.b0 & keep) | (((self.b0 >> from) & 1) << to);
        self.b1 = (self.b1 & keep) | (((self.b1 >> from) & 1) << to);
        self.b2 = (self.b2 & keep) | (((self.b2 >> from) & 1) << to);
        self.b3 = (self.b3 & keep) | (((self.b3 >> from) & 1) << to);
        proof {
            old(self).lemma_duped(from, to);
        }
    }

    /// Move the piece of `from` to `to`; `from` is left empty.
    pub fn mov(&mut self, from: u8, to: u8)
        requires
            from < 64,
            to < 64,
        ensures
            *final(self) == old(self).moved(from, to),
            final(self)@ == old(self)@.update(to as int, old(self)@[from as int]).update(
                from as int,
                EMPTY,
            ),
    {
        self.dupe(from, to);
        self.clear(from);
    }

    /// Place the piece with tag `piece` (its low four bits) on `square`.
    pub fn set(&mut self, square: u8, piece: u8)
        requires
            square < 64,
        ensures
            *final(self) == old(self).placed(square, piece),
            final(self)@ == old(self)@.update(square as int, piece % 16),
    {
        let keep: u64 = !(1u64 << square);
        let p: u64 = piece as u64;
        self.b0 = (self.b0 & keep) | (((p >> 0u8) & 1) << square);
        self.b1 = (self.b1 & keep) | (((p >> 1u8) & 1) << square);
        self.b2 = (self.b2 & keep) | (((p >> 2u8) & 1) << square);
        self.b3 = (self.b3 & keep) | (((p >> 3u8) & 1) << square);
        proof {
            old(self).lemma_placed(square, piece);
        }
    }
}

} // verus!
