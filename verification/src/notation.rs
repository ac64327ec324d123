//! Algebraic notation: squares, piece letters and moves as players write them.

use crate::piece::Piece;
use crate::text::{chars_of, drop_spaces, skip_spaces, trim_bounds, trimmed};
use vstd::prelude::*;
use vstd::string::{StrSliceExecFns, StringExecFns};

verus! {

/// What a move in algebraic notation says of a square: the square itself as rank and file,
/// or the piece that stands on it with as much of its rank and file as is written.
#[derive(Clone, Copy, PartialEq, Eq, Structural, Debug)]
pub enum AlgebraicPosition {
    Square(u8, u8),
    Piece(Piece),
    RankPiece(u8, Piece),
    FilePiece(u8, Piece),
    SquarePiece(u8, u8, Piece),
}

/// A move in algebraic notation.
#[derive(Clone, Copy, PartialEq, Eq, Structural, Debug)]
pub enum AlgebraicMove {
    Move(AlgebraicPosition, AlgebraicPosition),
    Promotion(AlgebraicPosition, AlgebraicPosition, Piece),
    KSCastle,
    QSCastle,
}

/// A move with an optional piece letter, an optional `x`, a square and an optional promotion.
pub const ALG_OPT_PARSE: &'static str = "([NBRQK])?x?([a-h][1-8])(=[BNRQ])?";

/// As `ALG_OPT_PARSE`, with an optional file and an optional rank that the piece leaves.
pub const ALG_PARSE: &'static str = "([NBRQK])?([a-h])?([1-8])?x?([a-h][1-8])(=[BNRQ])?";

/// What `regex::Regex::captures` finds of capture group `i` where the regular expression
/// `pattern` first matches in `text`: the text of the group, or `None` where the pattern is
/// no regular expression, matches nowhere, or matches without that group taking part.
/// Group 0 is the whole match.
pub uninterp spec fn regex_group(pattern: Seq<char>, text: Seq<char>, i: int) -> Option<Seq<char>>;

/// The view of an optional string.
pub open spec fn text_of(s: Option<String>) -> Option<Seq<char>> {
    match s {
        Some(t) => Some(t@),
        None => None,
    }
}

/// The view of an optional piece of text.
pub open spec fn slice_of(s: Option<&str>) -> Option<Seq<char>> {
    match s {
        Some(t) => Some(t@),
        None => None,
    }
}

/// Calls `regex::Regex::new` and `regex::Regex::captures`, and hands back the part of `text`
/// that is capture group `i` of the leftmost match. The contract only names the result: it
/// is the same for the same pattern, text and index.
#[verifier::external_body]
pub(crate) fn capture_group<'a>(pattern: &str, text: &'a str, i: usize) -> (r: Option<&'a str>)
    ensures
        slice_of(r) == regex_group(pattern@, text@, i as int),
{
    let re = match regex::Regex::new(pattern) {
        Ok(re) => re,
        Err(_) => return None,
    };
    let caps = re.captures(text)?;
    caps.get(i).map(|m| m.as_str())
}

/// Capture group `i` of the leftmost match of `pattern` in `text`, as a string of its own.
fn owned_group(pattern: &str, text: &str, i: usize) -> (r: Option<String>)
    ensures
        text_of(r) == regex_group(pattern@, text@, i as int),
{
    match capture_group(pattern, text, i) {
        Some(t) => Some(String::from_str(t)),
        None => None,
    }
}

/// The number of a file letter, `a` being 0, or of a rank digit, `1` being 0.
pub open spec fn offset(c: char, first: char) -> u8 {
    (c as int - first as int) as u8
}

/// The character is one of the eight from `first` on.
pub open spec fn among_eight(c: char, first: char) -> bool {
    (first as int) <= (c as int) && (c as int) < (first as int) + 8
}

/// The square that two characters name, as (rank, file) with `a1` as (0, 0).
pub open spec fn square_of(s: Seq<char>) -> Option<(u8, u8)> {
    if s.len() == 2 && among_eight(s[0], 'a') && among_eight(s[1], '1') {
        Some((offset(s[1], '1'), offset(s[0], 'a')))
    } else {
        None
    }
}

/// The rank that one digit names, `1` being 0.
pub open spec fn rank_of(s: Seq<char>) -> Option<u8> {
    if s.len() == 1 && among_eight(s[0], '1') {
        Some(offset(s[0], '1'))
    } else {
        None
    }
}

/// The file that one letter names, `a` being 0.
pub open spec fn file_of(s: Seq<char>) -> Option<u8> {
    if s.len() == 1 && among_eight(s[0], 'a') {
        Some(offset(s[0], 'a'))
    } else {
        None
    }
}

/// The piece that an upper-case letter names.
pub open spec fn piece_of_letter(c: char) -> Option<Piece> {
    if c == 'P' {
        Some(Piece::Pawn)
    } else if c == 'N' {
        Some(Piece::Knight)
    } else if c == 'B' {
        Some(Piece::Bishop)
    } else if c == 'R' {
        Some(Piece::Rook)
    } else if c == 'Q' {
        Some(Piece::Queen)
    } else if c == 'K' {
        Some(Piece::King)
    } else {
        None
    }
}

/// The piece that moves: the one that the first letter of the piece group names, a pawn
/// where there is no such group.
pub open spec fn mover_of(piece: Option<Seq<char>>) -> Option<Piece> {
    match piece {
        None => Some(Piece::Pawn),
        Some(t) => if t.len() >= 1 {
            piece_of_letter(t[0])
        } else {
            None
        },
    }
}

/// The move that the capture groups of a match stand for: `piece` the piece letter, `origin`
/// what is known of the square it leaves, `square` the square it reaches and `promo` the
/// promotion group, whose third character names the piece promoted to. A promotion is a
/// pawn's: with a piece letter it is no move.
pub open spec fn move_of(
    piece: Option<Seq<char>>,
    origin: spec_fn(Piece) -> Option<AlgebraicPosition>,
    square: Option<Seq<char>>,
    promo: Option<Seq<char>>,
) -> Option<AlgebraicMove> {
    if mover_of(piece) is Some && origin(mover_of(piece).unwrap()) is Some && square is Some
        && square_of(square.unwrap()) is Some {
        let target = AlgebraicPosition::Square(
            square_of(square.unwrap()).unwrap().0,
            square_of(square.unwrap()).unwrap().1,
        );
        match promo {
            None => Some(AlgebraicMove::Move(origin(mover_of(piece).unwrap()).unwrap(), target)),
            Some(p) => if piece is None && p.len() >= 3 && piece_of_letter(p[2]) is Some {
                Some(
                    AlgebraicMove::Promotion(
                        AlgebraicPosition::Piece(Piece::Pawn),
                        target,
                        piece_of_letter(p[2]).unwrap(),
                    ),
                )
            } else {
                None
            },
        }
    } else {
        None
    }
}

/// What is known of the square that a piece leaves when the notation says nothing of it.
pub open spec fn plain_origin() -> spec_fn(Piece) -> Option<AlgebraicPosition> {
    |p: Piece| Some(AlgebraicPosition::Piece(p))
}

/// What is known of the square that a piece leaves, from the file and rank groups.
pub open spec fn told_origin(file: Option<Seq<char>>, rank: Option<Seq<char>>) -> spec_fn(
    Piece,
) -> Option<AlgebraicPosition> {
    |p: Piece|
        match (file, rank) {
            (Some(f), Some(r)) => if rank_of(r) is Some && file_of(f) is Some {
                Some(AlgebraicPosition::SquarePiece(rank_of(r).unwrap(), file_of(f).unwrap(), p))
            } else {
                None
            },
            (Some(f), None) => if file_of(f) is Some {
                Some(AlgebraicPosition::FilePiece(file_of(f).unwrap(), p))
            } else {
                None
            },
            (None, Some(r)) => if rank_of(r) is Some {
                Some(AlgebraicPosition::RankPiece(rank_of(r).unwrap(), p))
            } else {
                None
            },
            (None, None) => Some(AlgebraicPosition::Piece(p)),
        }
}

/// The text starts with `prefix`.
pub open spec fn starts_with(s: Seq<char>, prefix: Seq<char>) -> bool {
    s.len() >= prefix.len() && s.subrange(0, prefix.len() as int) == prefix
}

/// The move that a text in algebraic notation stands for, if it is one: castling where the
/// text, without the space characters around it, starts with `O-O-O` or `O-O`; else what the
/// groups of `ALG_OPT_PARSE` say where it matches; else what those of `ALG_PARSE` say.
pub open spec fn algebraic_of(inp: Seq<char>) -> Option<AlgebraicMove> {
    let t = trimmed(inp);
    if starts_with(t, seq!['O', '-', 'O', '-', 'O']) {
        Some(AlgebraicMove::QSCastle)
    } else if starts_with(t, seq!['O', '-', 'O']) {
        Some(AlgebraicMove::KSCastle)
    } else if regex_group(ALG_OPT_PARSE@, t, 0) is Some {
        move_of(
            regex_group(ALG_OPT_PARSE@, t, 1),
            plain_origin(),
            regex_group(ALG_OPT_PARSE@, t, 2),
            regex_group(ALG_OPT_PARSE@, t, 3),
        )
    } else if regex_group(ALG_PARSE@, t, 0) is Some {
        move_of(
            regex_group(ALG_PARSE@, t, 1),
            told_origin(regex_group(ALG_PARSE@, t, 2), regex_group(ALG_PARSE@, t, 3)),
            regex_group(ALG_PARSE@, t, 4),
            regex_group(ALG_PARSE@, t, 5),
        )
    } else {
        None
    }
}

fn eighth(c: char, first: char) -> (r: Option<u8>)
    requires
        first == 'a' || first == '1',
    ensures
        r == if among_eight(c, first) {
            Some(offset(c, first))
        } else {
            None
        },
{
    let code = c as u32;
    let base = first as u32;
    if code >= base && code < base + 8 {
        Some((code - base) as u8)
    } else {
        None
    }
}

/// Maps a square in standard notation to its rank and file indices: `a4` is (3, 0) and `h7`
/// is (6, 7).
pub fn parse_square(inp: &str) -> (r: Option<(u8, u8)>)
    ensures
        r == square_of(inp@),
{
    let s = chars_of(inp);
    if s.len() != 2 {
        return None;
    }
    match (eighth(s[0], 'a'), eighth(s[1], '1')) {
        (Some(file), Some(rank)) => Some((rank, file)),
        _ => None,
    }
}

/// Maps a rank digit to its index: `1` is 0.
pub fn parse_rank(inp: &str) -> (r: Option<u8>)
    ensures
        r == rank_of(inp@),
{
    let s = chars_of(inp);
    if s.len() != 1 {
        return None;
    }
    eighth(s[0], '1')
}

/// Maps a file letter to its index: `a` is 0.
pub fn parse_file(inp: &str) -> (r: Option<u8>)
    ensures
        r == file_of(inp@),
{
    let s = chars_of(inp);
    if s.len() != 1 {
        return None;
    }
    eighth(s[0], 'a')
}

/// Maps an upper-case piece letter to its piece.
pub fn parse_piece_letter(inp: char) -> (r: Option<Piece>)
    ensures
        r == piece_of_letter(inp),
{
    match inp {
        'P' => Some(Piece::Pawn),
        'N' => Some(Piece::Knight),
        'B' => Some(Piece::Bishop),
        'R' => Some(Piece::Rook),
        'Q' => Some(Piece::Queen),
        'K' => Some(Piece::King),
        _ => None,
    }
}

/// The piece that the piece group names: a pawn where there is none.
fn mover(piece: &Option<String>) -> (r: Option<Piece>)
    ensures
        r == mover_of(text_of(*piece)),
{
    match piece {
        None => Some(Piece::Pawn),
        Some(t) => {
            let s = chars_of(t.as_str());
            if s.len() >= 1 {
                parse_piece_letter(s[0])
            } else {
                None
            }
        },
    }
}

/// The move that is made of a moving piece's position, a target square and a promotion
/// group, for a match whose piece group is `piece`.
pub fn algebraic_from_parts(
    piece: &Option<String>,
    origin: Option<AlgebraicPosition>,
    square: &Option<String>,
    promo: &Option<String>,
) -> (r: Option<AlgebraicMove>)
    ensures
        mover_of(text_of(*piece)) is Some ==> r == move_of(
            text_of(*piece),
            |p: Piece| origin,
            text_of(*square),
            text_of(*promo),
        ),
        mover_of(text_of(*piece)) is None ==> r is None,
{
    if mover(piece).is_none() {
        return None;
    }
    let moving_piece = match origin {
        Some(o) => o,
        None => {
            return None;
        },
    };
    let (rank, file) = match square {
        Some(sqr) => match parse_square(sqr.as_str()) {
            Some(rf) => rf,
            None => {
                return None;
            },
        },
        None => {
            return None;
        },
    };
    let target = AlgebraicPosition::Square(rank, file);
    match promo {
        None => Some(AlgebraicMove::Move(moving_piece, target)),
        Some(p) => {
            let letters = chars_of(p.as_str());
            if piece.is_none() && letters.len() >= 3 {
                match parse_piece_letter(letters[2]) {
                    Some(to) => Some(
                        AlgebraicMove::Promotion(
                            AlgebraicPosition::Piece(Piece::Pawn),
                            target,
                            to,
                        ),
                    ),
                    None => None,
                }
            } else {
                None
            }
        },
    }
}

/// What the file and rank groups of a match say of the square that piece `p` leaves.
pub fn origin_from_parts(file: &Option<String>, rank: &Option<String>, p: Piece) -> (r: Option<
    AlgebraicPosition,
>)
    ensures
        r == told_origin(text_of(*file), text_of(*rank))(p),
{
    match (file, rank) {
        (Some(f), Some(r)) => match (parse_rank(r.as_str()), parse_file(f.as_str())) {
            (Some(rank), Some(file)) => Some(AlgebraicPosition::SquarePiece(rank, file, p)),
            _ => None,
        },
        (Some(f), None) => match parse_file(f.as_str()) {
            Some(file) => Some(AlgebraicPosition::FilePiece(file, p)),
            None => None,
        },
        (None, Some(r)) => match parse_rank(r.as_str()) {
            Some(rank) => Some(AlgebraicPosition::RankPiece(rank, p)),
            None => None,
        },
        (None, None) => Some(AlgebraicPosition::Piece(p)),
    }
}

fn has_prefix(s: &Vec<char>, lo: usize, hi: usize, castle_long: bool) -> (r: bool)
    requires
        lo <= hi <= s.len(),
    ensures
        r == starts_with(
            s@.subrange(lo as int, hi as int),
            if castle_long {
                seq!['O', '-', 'O', '-', 'O']
            } else {
                seq!['O', '-', 'O']
            },
        ),
{
    let ghost t = s@.subrange(lo as int, hi as int);
    if castle_long {
        let r = hi - lo >= 5 && s[lo] == 'O' && s[lo + 1] == '-' && s[lo + 2] == 'O' && s[lo + 3]
            == '-' && s[lo + 4] == 'O';
        proof {
            if hi - lo >= 5 {
                let head = t.subrange(0, 5);
                assert(head[0] == s@[lo as int] && head[1] == s@[lo + 1] && head[2] == s@[lo + 2]
                    && head[3] == s@[lo + 3] && head[4] == s@[lo + 4]);
                if r {
                    assert(head =~= seq!['O', '-', 'O', '-', 'O']);
                }
            }
        }
        r
    } else {
        let r = hi - lo >= 3 && s[lo] == 'O' && s[lo + 1] == '-' && s[lo + 2] == 'O';
        proof {
            if hi - lo >= 3 {
                let head = t.subrange(0, 3);
                assert(head[0] == s@[lo as int] && head[1] == s@[lo + 1] && head[2] == s@[lo + 2]);
                if r {
                    assert(head =~= seq!['O', '-', 'O']);
                }
            }
        }
        r
    }
}

/// Reads a move in algebraic notation.
pub fn str_to_algebraic(inp: &str) -> (r: Option<AlgebraicMove>)
    ensures
        r == algebraic_of(inp@),
{
    let s = chars_of(inp);
    let (lo, hi) = trim_bounds(&s);
    let text = inp.substring_char(lo, hi);
    if has_prefix(&s, lo, hi, true) {
        Some(AlgebraicMove::QSCastle)
    } else if has_prefix(&s, lo, hi, false) {
        Some(AlgebraicMove::KSCastle)
    } else if owned_group(ALG_OPT_PARSE, text, 0).is_some() {
        let piece = owned_group(ALG_OPT_PARSE, text, 1);
        let square = owned_group(ALG_OPT_PARSE, text, 2);
        let promo = owned_group(ALG_OPT_PARSE, text, 3);
        let origin = match mover(&piece) {
            Some(p) => Some(AlgebraicPosition::Piece(p)),
            None => None,
        };
        algebraic_from_parts(&piece, origin, &square, &promo)
    } else if owned_group(ALG_PARSE, text, 0).is_some() {
        let piece = owned_group(ALG_PARSE, text, 1);
        let file = owned_group(ALG_PARSE, text, 2);
        let rank = owned_group(ALG_PARSE, text, 3);
        let square = owned_group(ALG_PARSE, text, 4);
        let promo = owned_group(ALG_PARSE, text, 5);
        let origin = match mover(&piece) {
            Some(p) => origin_from_parts(&file, &rank, p),
            None => None,
        };
        algebraic_from_parts(&piece, origin, &square, &promo)
    } else {
        None
    }
}

} // verus!
