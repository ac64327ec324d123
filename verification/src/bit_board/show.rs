//! Boards and bit-sets as text, rank 8 first and file a to the left.

use crate::bit_board::planes::{tag_of, BitBoard};
use crate::bits::bit;
use vstd::prelude::*;

verus! {

/// The character of a tag: `-` for an empty square (`*` where only the side bit is set), the
/// piece letter in upper case for white and in lower case for black, `#` for the unused
/// piece kind.
pub open spec fn tag_char(tag: u8) -> char {
    let k = tag % 8;
    let w = tag >= 8;
    if k == 0 {
        if w {
            '*'
        } else {
            '-'
        }
    } else if k == 1 {
        if w {
            'B'
        } else {
            'b'
        }
    } else if k == 2 {
        if w {
            'R'
        } else {
            'r'
        }
    } else if k == 3 {
        if w {
            'Q'
        } else {
            'q'
        }
    } else if k == 4 {
        if w {
            'P'
        } else {
            'p'
        }
    } else if k == 5 {
        if w {
            'N'
        } else {
            'n'
        }
    } else if k == 6 {
        '#'
    } else {
        if w {
            'K'
        } else {
            'k'
        }
    }
}

/// The board as eight lines of eight characters, each line ended by a line feed.
pub open spec fn board_text(b: BitBoard) -> Seq<char> {
    Seq::new(
        72,
        |j: int|
            if j % 9 == 8 {
                '\n'
            } else {
                tag_char(b.tag(63 - (8 * (j / 9) + j % 9)))
            },
    )
}

/// The set as eight lines of eight characters, each line begun by a line feed: `X` for a
/// member, `-` for any other square.
pub open spec fn mask_text(mask: u64) -> Seq<char> {
    Seq::new(
        72,
        |j: int|
            if j % 9 == 0 {
                '\n'
            } else if bit(mask, 63 - (8 * (j / 9) + j % 9 - 1)) {
                'X'
            } else {
                '-'
            },
    )
}

fn has(m: u64, sq: u8) -> (r: bool)
    requires
        sq < 64,
    ensures
        r == bit(m, sq as int),
{
    let k = sq as u64;
    assert(((m >> sq) & 1 == 1) == ((m >> k) & 1 == 1)) by (bit_vector)
        requires
            k == sq,
    ;
    (m >> sq) & 1 == 1
}

fn letter(tag: u8) -> (r: char)
    ensures
        r == tag_char(tag),
{
    let k = tag % 8;
    let w = tag >= 8;
    match k {
        0 => if w {
            '*'
        } else {
            '-'
        },
        1 => if w {
            'B'
        } else {
            'b'
        },
        2 => if w {
            'R'
        } else {
            'r'
        },
        3 => if w {
            'Q'
        } else {
            'q'
        },
        4 => if w {
            'P'
        } else {
            'p'
        },
        5 => if w {
            'N'
        } else {
            'n'
        },
        6 => '#',
        _ => if w {
            'K'
        } else {
            'k'
        },
    }
}

impl BitBoard {
    /// The tag of square `sq`.
    pub fn tag_at(&self, sq: u8) -> (r: u8)
        requires
            sq < 64,
        ensures
            r == self.tag(sq as int),
    {
        let t0: u8 = if has(self.b0, sq) {
            1
        } else {
            0
        };
        let t1: u8 = if has(self.b1, sq) {
            2
        } else {
            0
        };
        let t2: u8 = if has(self.b2, sq) {
            4
        } else {
            0
        };
        let t3: u8 = if has(self.b3, sq) {
            8
        } else {
            0
        };
        t0 + t1 + t2 + t3
    }

    /// The board as text.
    pub fn to_string(&self) -> (r: String)
        ensures
            r@ == board_text(*self),
    {
        let mut text = String::new();
        let mut i: u8 = 0;
        while i < 64
            invariant
                i <= 64,
                text@.len() == i + i / 8,
                forall|j: int| 0 <= j < text@.len() ==> text@[j] == board_text(*self)[j],
            decreases 64 - i,
        {
            text.push(letter(self.tag_at(63 - i)));
            if i % 8 == 7 {
                text.push('\n');
            }
            i += 1;
        }
        assert(text@ =~= board_text(*self));
        text
    }
}

/// The set `mask` as text.
pub fn bitmask_text(mask: u64) -> (r: String)
    ensures
        r@ == mask_text(mask),
{
    let mut text = String::new();
    let mut i: u8 = 0;
    while i < 64
        invariant
            i <= 64,
            text@.len() == i + (i + 7) / 8,
            forall|j: int| 0 <= j < text@.len() ==> text@[j] == mask_text(mask)[j],
        decreases 64 - i,
    {
        if i % 8 == 0 {
            text.push('\n');
        }
        text.push(
            if has(mask, 63 - i) {
                'X'
            } else {
                '-'
            },
        );
        i += 1;
    }
    assert(text@ =~= mask_text(mask));
    text
}

} // verus!
