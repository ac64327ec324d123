//! Reading a position from a FEN record.

use crate::bit_board::planes::BitBoard;
use crate::bit_board::position::BitBoardGame;
use crate::text::{chars_of, drop_spaces, skip_spaces, trim_bounds};
use vstd::prelude::*;

verus! {

/// What a FEN record says: the 64 tags in reading order (rank 8 first, each rank from file a
/// to file h), the side to move, the castling rights and the en-passant target square.
pub struct FenRecord {
    pub tags: Seq<u8>,
    pub turn: bool,
    pub white_qs: bool,
    pub white_ks: bool,
    pub black_qs: bool,
    pub black_ks: bool,
    pub ep: Option<u8>,
}

/// The progress of reading a piece placement: the tags read so far and the number of rank
/// separators passed.
pub struct Placement {
    pub tags: Seq<u8>,
    pub slashes: nat,
}

/// The tag that a piece letter stands for: upper case is white.
pub open spec fn glyph_tag(c: char) -> Option<u8> {
    if c == 'P' {
        Some(12u8)
    } else if c == 'N' {
        Some(13u8)
    } else if c == 'B' {
        Some(9u8)
    } else if c == 'R' {
        Some(10u8)
    } else if c == 'Q' {
        Some(11u8)
    } else if c == 'K' {
        Some(15u8)
    } else if c == 'p' {
        Some(4u8)
    } else if c == 'n' {
        Some(5u8)
    } else if c == 'b' {
        Some(1u8)
    } else if c == 'r' {
        Some(2u8)
    } else if c == 'q' {
        Some(3u8)
    } else if c == 'k' {
        Some(7u8)
    } else {
        None
    }
}

/// The number of empty squares that a digit from 1 to 8 stands for.
pub open spec fn run_length(c: char) -> Option<u8> {
    if c == '1' {
        Some(1u8)
    } else if c == '2' {
        Some(2u8)
    } else if c == '3' {
        Some(3u8)
    } else if c == '4' {
        Some(4u8)
    } else if c == '5' {
        Some(5u8)
    } else if c == '6' {
        Some(6u8)
    } else if c == '7' {
        Some(7u8)
    } else if c == '8' {
        Some(8u8)
    } else {
        None
    }
}

/// One more character of a piece placement. A separator may come only after a full rank, and
/// at most seven times; a piece or a run of empty squares must fit into the current rank.
pub open spec fn placement_step(p: Placement, c: char) -> Option<Placement> {
    let room = 8 * (p.slashes + 1) - p.tags.len();
    if c == '/' {
        if room == 0 && p.slashes < 7 {
            Some(Placement { tags: p.tags, slashes: p.slashes + 1 })
        } else {
            None
        }
    } else if run_length(c) is Some {
        let n = run_length(c).unwrap();
        if n <= room {
            Some(Placement { tags: p.tags + Seq::new(n as nat, |i: int| 0u8), slashes: p.slashes })
        } else {
            None
        }
    } else if glyph_tag(c) is Some {
        if 1 <= room {
            Some(Placement { tags: p.tags.push(glyph_tag(c).unwrap()), slashes: p.slashes })
        } else {
            None
        }
    } else {
        None
    }
}

/// The progress after reading all of `text` as a piece placement, if it can be read.
pub open spec fn placement_scan(text: Seq<char>) -> Option<Placement>
    decreases text.len(),
{
    if text.len() == 0 {
        Some(Placement { tags: Seq::empty(), slashes: 0 })
    } else {
        match placement_scan(text.drop_last()) {
            Some(p) => placement_step(p, text.last()),
            None => None,
        }
    }
}

/// The 64 tags of a piece placement: eight ranks of eight squares, separated by `/`.
pub open spec fn placement_tags(text: Seq<char>) -> Option<Seq<u8>> {
    match placement_scan(text) {
        Some(p) => if p.tags.len() == 64 && p.slashes == 7 {
            Some(p.tags)
        } else {
            None
        },
        None => None,
    }
}

/// The side to move: `w` or `b`.
pub open spec fn side_of(text: Seq<char>) -> Option<bool> {
    if text.len() == 1 && text[0] == 'w' {
        Some(true)
    } else if text.len() == 1 && text[0] == 'b' {
        Some(false)
    } else {
        None
    }
}

/// The text is a castling field: `-`, or one or more of the letters `K`, `Q`, `k`, `q`.
pub open spec fn castling_ok(text: Seq<char>) -> bool {
    text.len() >= 1 && (text =~= seq!['-'] || forall|i: int|
        0 <= i < text.len() ==> #[trigger] text[i] == 'K' || text[i] == 'Q' || text[i] == 'k'
            || text[i] == 'q')
}

/// The file of an en-passant target, counted from file h: `a` is 7.
pub open spec fn file_index(c: char) -> Option<u8> {
    if c == 'a' {
        Some(7u8)
    } else if c == 'b' {
        Some(6u8)
    } else if c == 'c' {
        Some(5u8)
    } else if c == 'd' {
        Some(4u8)
    } else if c == 'e' {
        Some(3u8)
    } else if c == 'f' {
        Some(2u8)
    } else if c == 'g' {
        Some(1u8)
    } else if c == 'h' {
        Some(0u8)
    } else {
        None
    }
}

/// The en-passant field: `-` for none, or a file letter and the rank digit that fits the side
/// to move (`6` for white, `3` for black), which give the target square.
pub open spec fn ep_of(text: Seq<char>, turn: bool) -> Option<Option<u8>> {
    if text =~= seq!['-'] {
        Some(None)
    } else if text.len() == 2 && file_index(text[0]) is Some && text[1] == (if turn {
        '6'
    } else {
        '3'
    }) {
        Some(Some((file_index(text[0]).unwrap() + (if turn {
            40int
        } else {
            16
        })) as u8))
    } else {
        None
    }
}

/// The end of the field that starts at `i`: the index of the next blank, or `hi`.
pub open spec fn field_end(s: Seq<char>, i: int, hi: int) -> int
    decreases hi - i,
{
    if 0 <= i < hi <= s.len() && s[i] != ' ' {
        field_end(s, i + 1, hi)
    } else {
        i
    }
}

/// What a FEN record says, if it is one. The record is what is left of the text without the
/// space characters around it. It has at least four fields, separated by one blank each:
/// piece placement, side to move, castling rights and en-passant target. What follows the
/// fourth field (move counters) is not looked at.
pub open spec fn parse_fen(s: Seq<char>) -> Option<FenRecord> {
    let lo = skip_spaces(s, 0, s.len() as int);
    let hi = drop_spaces(s, lo, s.len() as int);
    let e0 = field_end(s, lo, hi);
    let e1 = field_end(s, e0 + 1, hi);
    let e2 = field_end(s, e1 + 1, hi);
    let e3 = field_end(s, e2 + 1, hi);
    if e0 < hi && e1 < hi && e2 < hi {
        let tags = placement_tags(s.subrange(lo, e0));
        let side = side_of(s.subrange(e0 + 1, e1));
        let castling = s.subrange(e1 + 1, e2);
        if tags is Some && side is Some && castling_ok(castling) {
            let ep = ep_of(s.subrange(e2 + 1, e3), side.unwrap());
            if ep is Some {
                Some(
                    FenRecord {
                        tags: tags.unwrap(),
                        turn: side.unwrap(),
                        white_qs: castling.contains('Q'),
                        white_ks: castling.contains('K'),
                        black_qs: castling.contains('q'),
                        black_ks: castling.contains('k'),
                        ep: ep.unwrap(),
                    },
                )
            } else {
                None
            }
        } else {
            None
        }
    } else {
        None
    }
}

impl FenRecord {
    /// The position `g` is the one that the record describes: tag `i` in reading order is
    /// the tag of square `63 - i`.
    pub open spec fn describes(self, g: BitBoardGame) -> bool {
        &&& self.tags.len() == 64
        &&& forall|sq: int| 0 <= sq < 64 ==> g.board.tag(sq) == #[trigger] self.tags[63 - sq]
        &&& g.turn == self.turn
        &&& g.white_qs == self.white_qs
        &&& g.white_ks == self.white_ks
        &&& g.black_qs == self.black_qs
        &&& g.black_ks == self.black_ks
        &&& g.ep == self.ep
    }
}

fn glyph(c: char) -> (r: Option<u8>)
    ensures
        r == glyph_tag(c),
{
    match c {
        'P' => Some(12),
        'N' => Some(13),
        'B' => Some(9),
        'R' => Some(10),
        'Q' => Some(11),
        'K' => Some(15),
        'p' => Some(4),
        'n' => Some(5),
        'b' => Some(1),
        'r' => Some(2),
        'q' => Some(3),
        'k' => Some(7),
        _ => None,
    }
}

fn digit(c: char) -> (r: Option<u8>)
    ensures
        r == run_length(c),
{
    match c {
        '1' => Some(1),
        '2' => Some(2),
        '3' => Some(3),
        '4' => Some(4),
        '5' => Some(5),
        '6' => Some(6),
        '7' => Some(7),
        '8' => Some(8),
        _ => None,
    }
}

fn file_of(c: char) -> (r: Option<u8>)
    ensures
        r == file_index(c),
{
    match c {
        'a' => Some(7),
        'b' => Some(6),
        'c' => Some(5),
        'd' => Some(4),
        'e' => Some(3),
        'f' => Some(2),
        'g' => Some(1),
        'h' => Some(0),
        _ => None,
    }
}

/// The end of the field that starts at `from`.
pub fn find_field_end(s: &Vec<char>, from: usize, hi: usize) -> (r: usize)
    requires
        hi <= s.len(),
    ensures
        r == field_end(s@, from as int, hi as int),
        from <= hi ==> from <= r <= hi,
{
    let mut i = from;
    while i < hi && s[i] != ' '
        invariant
            hi <= s.len(),
            from <= i,
            from <= hi ==> i <= hi,
            field_end(s@, i as int, hi as int) == field_end(s@, from as int, hi as int),
        decreases hi - i,
    {
        i += 1;
    }
    i
}

/// Reads the piece placement in `s[lo..hi]`.
pub fn read_placement(s: &Vec<char>, lo: usize, hi: usize) -> (r: Option<BitBoard>)
    requires
        lo <= hi <= s.len(),
    ensures
        match placement_tags(s@.subrange(lo as int, hi as int)) {
            Some(tags) => r matches Some(b) && forall|sq: int|
                0 <= sq < 64 ==> b.tag(sq) == #[trigger] tags[63 - sq],
            None => r is None,
        },
{
    let mut board = BitBoard { b0: 0, b1: 0, b2: 0, b3: 0 };
    let mut counter: u8 = 0;
    let mut slashes: u8 = 0;
    let mut i = lo;
    let ghost text = s@.subrange(lo as int, hi as int);
    proof {
        broadcast use crate::bits::lemma_bit_zero;

        assert(s@.subrange(lo as int, lo as int) =~= Seq::<char>::empty());
        assert(forall|sq: int| 0 <= sq < 64 ==> board.tag(sq) == 0);
    }
    while i < hi
        invariant
            lo <= i <= hi <= s.len(),
            text == s@.subrange(lo as int, hi as int),
            slashes <= 7,
            counter <= 8 * (slashes + 1),
            placement_scan(s@.subrange(lo as int, i as int)) == Some(
                Placement { tags: placement_scan(s@.subrange(lo as int, i as int)).unwrap().tags, slashes: slashes as nat },
            ),
            placement_scan(s@.subrange(lo as int, i as int)).unwrap().tags.len() == counter,
            forall|k: int|
                0 <= k < counter ==> board.tag(63 - k) == #[trigger] placement_scan(
                    s@.subrange(lo as int, i as int),
                ).unwrap().tags[k],
            forall|sq: int| 0 <= sq < 64 - counter ==> #[trigger] board.tag(sq) == 0,
        decreases hi - i,
    {
        let c = s[i];
        let ghost before = placement_scan(s@.subrange(lo as int, i as int)).unwrap();
        let ghost prefix = s@.subrange(lo as int, i as int + 1);
        proof {
            assert(prefix.drop_last() =~= s@.subrange(lo as int, i as int));
            assert(prefix.last() == c);
            assert(placement_scan(prefix) == placement_step(before, c));
        }
        let room = 8 * (slashes + 1) - counter;
        if c == '/' {
            if room == 0 && slashes < 7 {
                slashes += 1;
            } else {
                proof {
                    assert(text.subrange(0, i - lo + 1) =~= prefix);
                    lemma_scan_stuck(text, i - lo + 1);
                }
                return None;
            }
        } else if let Some(n) = digit(c) {
            if n <= room {
                counter += n;
            } else {
                proof {
                    assert(text.subrange(0, i - lo + 1) =~= prefix);
                    lemma_scan_stuck(text, i - lo + 1);
                }
                return None;
            }
        } else if let Some(piece) = glyph(c) {
            if 1 <= room {
                let ghost old_board = board;
                board.set(63 - counter, piece);
                counter += 1;
                proof {
                    assert forall|sq: int| 0 <= sq < 64 implies board.tag(sq) == (if sq == 64
                        - counter {
                        piece
                    } else {
                        old_board.tag(sq)
                    }) by {
                        assert(board@[sq] == board.tag(sq));
                        assert(old_board@[sq] == old_board.tag(sq));
                    }
                }
            } else {
                proof {
                    assert(text.subrange(0, i - lo + 1) =~= prefix);
                    lemma_scan_stuck(text, i - lo + 1);
                }
                return None;
            }
        } else {
            proof {
                assert(text.subrange(0, i - lo + 1) =~= prefix);
                lemma_scan_stuck(text, i - lo + 1);
            }
            return None;
        }
        i += 1;
    }
    assert(s@.subrange(lo as int, i as int) == text);
    if counter == 64 && slashes == 7 {
        Some(board)
    } else {
        None
    }
}

/// Once a prefix of a placement cannot be read, neither can the whole.
proof fn lemma_scan_stuck(text: Seq<char>, n: int)
    requires
        0 <= n <= text.len(),
        placement_scan(text.subrange(0, n)) is None,
    ensures
        placement_scan(text) is None,
    decreases text.len() - n,
{
    if n < text.len() {
        let longer = text.subrange(0, n + 1);
        assert(longer.drop_last() =~= text.subrange(0, n));
        lemma_scan_stuck(text, n + 1);
    } else {
        assert(text.subrange(0, n) =~= text);
    }
}

/// Reads the castling field in `s[lo..hi]`: whether it is one, and the four rights.
fn read_castling(s: &Vec<char>, lo: usize, hi: usize) -> (r: (bool, bool, bool, bool, bool))
    requires
        lo <= hi <= s.len(),
    ensures
        r.0 == castling_ok(s@.subrange(lo as int, hi as int)),
        r.1 == s@.subrange(lo as int, hi as int).contains('Q'),
        r.2 == s@.subrange(lo as int, hi as int).contains('K'),
        r.3 == s@.subrange(lo as int, hi as int).contains('q'),
        r.4 == s@.subrange(lo as int, hi as int).contains('k'),
{
    let ghost text = s@.subrange(lo as int, hi as int);
    let mut letters = true;
    let mut wq = false;
    let mut wk = false;
    let mut bq = false;
    let mut bk = false;
    let mut i = lo;
    while i < hi
        invariant
            lo <= i <= hi <= s.len(),
            text == s@.subrange(lo as int, hi as int),
            letters == forall|k: int|
                0 <= k < i - lo ==> #[trigger] text[k] == 'K' || text[k] == 'Q' || text[k] == 'k'
                    || text[k] == 'q',
            wq == exists|k: int| 0 <= k < i - lo && #[trigger] text[k] == 'Q',
            wk == exists|k: int| 0 <= k < i - lo && #[trigger] text[k] == 'K',
            bq == exists|k: int| 0 <= k < i - lo && #[trigger] text[k] == 'q',
            bk == exists|k: int| 0 <= k < i - lo && #[trigger] text[k] == 'k',
        decreases hi - i,
    {
        let c = s[i];
        assert(text[i - lo] == c);
        if c == 'Q' {
            wq = true;
        } else if c == 'K' {
            wk = true;
        } else if c == 'q' {
            bq = true;
        } else if c == 'k' {
            bk = true;
        } else {
            letters = false;
        }
        i += 1;
    }
    let dash = hi - lo == 1 && s[lo] == '-';
    proof {
        if dash {
            assert(text =~= seq!['-']);
        } else if text =~= seq!['-'] {
            assert(text[0] == '-');
        }
    }
    (hi - lo >= 1 && (dash || letters), wq, wk, bq, bk)
}

/// Reads a FEN record.
pub fn read_fen(fen: &str) -> (r: Option<BitBoardGame>)
    ensures
            match parse_fen(fen@) {
                Some(record) => r matches Some(g) && record.describes(g) && g.valid(),
                None => r is None,
            },
    {
        let s = chars_of(fen);
    let (lo, hi) = trim_bounds(&s);
    let e0 = find_field_end(&s, lo, hi);
        if e0 >= hi {
            return None;
        }
        let e1 = find_field_end(&s, e0 + 1, hi);
        if e1 >= hi {
            return None;
        }
        let e2 = find_field_end(&s, e1 + 1, hi);
        if e2 >= hi {
            return None;
        }
        let e3 = find_field_end(&s, e2 + 1, hi);
        let board = match read_placement(&s, lo, e0) {
            Some(b) => b,
            None => {
                return None;
            },
        };
        let ghost side_text = s@.subrange(e0 + 1, e1 as int);
        let turn = if e1 - e0 == 2 && s[e0 + 1] == 'w' {
            true
        } else if e1 - e0 == 2 && s[e0 + 1] == 'b' {
            false
        } else {
            return None;
        };
        assert(side_text[0] == s@[e0 + 1]);
        let (ok, white_qs, white_ks, black_qs, black_ks) = read_castling(&s, e1 + 1, e2);
        if !ok {
            return None;
        }
        let ghost ep_text = s@.subrange(e2 + 1, e3 as int);
        let rank = if turn {
            '6'
        } else {
            '3'
        };
        proof {
            if e3 - e2 >= 2 {
                assert(ep_text[0] == s@[e2 + 1]);
            }
            if e3 - e2 >= 3 {
                assert(ep_text[1] == s@[e2 + 2]);
            }
        }
        let ep = if e3 - e2 == 2 && s[e2 + 1] == '-' {
            assert(ep_text =~= seq!['-']);
            None
        } else if e3 - e2 == 3 && s[e2 + 2] == rank {
            match file_of(s[e2 + 1]) {
                Some(x) => Some(
                    if turn {
                        x + 40
                    } else {
                        x + 16
                    },
                ),
                None => {
                    return None;
                },
            }
        } else {
            return None;
        };
        Some(BitBoardGame { board, turn, white_qs, white_ks, black_qs, black_ks, ep })
    }

} // verus!
