//! Reading games in portable game notation, line by line.

use crate::bit_board::fen::{field_end, find_field_end};
use crate::notation::{algebraic_of, str_to_algebraic, text_of, AlgebraicMove};
use crate::text::chars_of;
use std::collections::HashMap;
use vstd::prelude::*;
use vstd::std_specs::iter::IteratorSpec;
use vstd::string::{StrSliceExecFns, StringExecFns};

verus! {

/// A reader of lines that holds the line it is at.
pub struct StrIter<'a, Reader: Iterator<Item = String>> {
    line: Option<String>,
    reader: &'a mut Reader,
}

impl<'a, T: Iterator<Item = String>> StrIter<'a, T> {
    /// A reader over `itr` that is at no line yet.
    pub fn new(itr: &'a mut T) -> (r: Self)
        ensures
            r.current() is None,
            r.source() == *old(itr),
    {
        StrIter { line: None, reader: itr }
    }

    /// The line that the reader is at.
    pub closed spec fn current(&self) -> Option<String> {
        self.line
    }

    /// The underlying reader, as it stands.
    pub closed spec fn source(&self) -> T {
        *self.reader
    }

    /// Goes on to the next line of the underlying reader, if it has one. Of a reader that
    /// keeps the laws of iterators, the line that the reader is at is then the first of
    /// those that were still to come, and the others are still to come; where none was to
    /// come, the reader is at no line.
    pub fn advance(&mut self)
        ensures
            T::obeys_prophetic_iter_laws(&final(self).source()) == T::obeys_prophetic_iter_laws(
                &old(self).source(),
            ),
            T::obeys_prophetic_iter_laws(&old(self).source()) ==> (if T::remaining(
                &old(self).source(),
            ).len() > 0 {
                &&& final(self).current() == Some(T::remaining(&old(self).source())[0])
                &&& T::remaining(&final(self).source()) == T::remaining(
                    &old(self).source(),
                ).drop_first()
            } else {
                &&& final(self).current() is None
                &&& T::remaining(&final(self).source()) == T::remaining(&old(self).source())
            }),
    {
        self.line = self.reader.next();
    }

    /// The line that the reader is at.
    pub fn get(&self) -> (r: Option<&str>)
        ensures
            match r {
                Some(t) => self.current() matches Some(line) && t@ == line@,
                None => self.current() is None,
            },
    {
        match &self.line {
            Some(t) => Some(t.as_str()),
            None => None,
        }
    }
}

/// A game as read: its moves and its tag pairs.
pub struct PGNChessGame {
    pub moves: Vec<AlgebraicMove>,
    pub meta: HashMap<String, String>,
}

/// What a line of a game file is.
pub enum PgnLine {
    /// A tag pair: its name and its value.
    Tag(String, String),
    /// An empty line.
    Blank,
    /// A line that starts like a tag pair and has no blank between name and value.
    Broken,
    /// Any other line: the moves of the game.
    Moves,
}

/// The first index at or after `i` that does not hold an opening bracket.
pub open spec fn skip_open(s: Seq<char>, i: int) -> int
    decreases s.len() - i,
{
    if 0 <= i < s.len() && s[i] == '[' {
        skip_open(s, i + 1)
    } else {
        i
    }
}

/// The end of what is left of `s[lo..j]` when the closing brackets at its end are dropped.
pub open spec fn drop_close(s: Seq<char>, lo: int, j: int) -> int
    decreases j,
{
    if 0 <= lo < j <= s.len() && s[j - 1] == ']' {
        drop_close(s, lo, j - 1)
    } else {
        j
    }
}

/// Name and value of a tag pair: what stands between the opening brackets at the start of
/// the line and the closing brackets at its end, cut at its first blank.
pub open spec fn tag_pair(line: Seq<char>) -> Option<(Seq<char>, Seq<char>)> {
    let lo = skip_open(line, 0);
    let hi = drop_close(line, lo, line.len() as int);
    let cut = field_end(line, lo, hi);
    if cut < hi {
        Some((line.subrange(lo, cut), line.subrange(cut + 1, hi)))
    } else {
        None
    }
}

/// The line is the one that `kind` says.
pub open spec fn is_line(line: Seq<char>, kind: PgnLine) -> bool {
    match kind {
        PgnLine::Tag(name, value) => line.len() > 0 && line[0] == '[' && tag_pair(line) == Some(
            (name@, value@),
        ),
        PgnLine::Blank => line.len() == 0,
        PgnLine::Broken => line.len() > 0 && line[0] == '[' && tag_pair(line) is None,
        PgnLine::Moves => line.len() > 0 && line[0] != '[',
    }
}

/// Says what a line of a game file is.
pub fn classify(line: &str) -> (r: PgnLine)
    ensures
        is_line(line@, r),
{
    let s = chars_of(line);
    let n = s.len();
    if n == 0 {
        return PgnLine::Blank;
    }
    if s[0] != '[' {
        return PgnLine::Moves;
    }
    let mut lo: usize = 0;
    while lo < n && s[lo] == '['
        invariant
            lo <= n == s.len(),
            skip_open(s@, lo as int) == skip_open(s@, 0),
        decreases n - lo,
    {
        lo += 1;
    }
    let mut hi: usize = n;
    while lo < hi && s[hi - 1] == ']'
        invariant
            lo <= hi <= n == s.len(),
            drop_close(s@, lo as int, hi as int) == drop_close(s@, lo as int, n as int),
        decreases hi,
    {
        hi -= 1;
    }
    let cut = find_field_end(&s, lo, hi);
    if cut < hi {
        let name = String::from_str(line.substring_char(lo, cut));
        let value = String::from_str(line.substring_char(cut + 1, hi));
        PgnLine::Tag(name, value)
    } else {
        PgnLine::Broken
    }
}

/// A move number, white's move, and after an optional comment and an optional move number
/// with three dots, black's move.
pub const MOVE_MATCH: &'static str =
    "([0-9]+)\\. ?([1-8xa-hBNRQKO\\-\\+#]+) (\\{[^\\}]*\\})? ?([0-9]+\\.\\.\\.)? ?([1-8xa-hBNRQKO\\-\\+#]+ )?(\\{[^\\}]*\\})?";

/// What `regex::Regex::captures_iter` finds of capture group `i` in the match of number `n`
/// (the first is 0) among the matches of the regular expression `pattern` in `text` that
/// follow each other without overlap: the text of the group, or `None` where the pattern is
/// no regular expression, has no such match, or matches without that group taking part.
pub uninterp spec fn regex_nth_group(pattern: Seq<char>, text: Seq<char>, n: int, i: int) -> Option<
    Seq<char>,
>;

/// Calls `regex::Regex::new` and `regex::Regex::captures_iter`, and hands back the text of
/// capture group `i` of match number `n`. The contract only names the result: it is the same
/// for the same pattern, text and numbers.
#[verifier::external_body]
fn nth_capture_group(pattern: &str, text: &str, n: usize, i: usize) -> (r: Option<String>)
    ensures
        text_of(r) == regex_nth_group(pattern@, text@, n as int, i as int),
{
    let re = match regex::Regex::new(pattern) {
        Ok(re) => re,
        Err(_) => return None,
    };
    let caps = re.captures_iter(text).nth(n)?;
    caps.get(i).map(|m| m.as_str().to_string())
}

/// The moves of one match of `MOVE_MATCH`: white's, from the text of its group, and black's
/// where its group took part. No moves where one of the texts is no move.
pub open spec fn pair_of(white: Option<Seq<char>>, black: Option<Seq<char>>) -> Option<
    Seq<AlgebraicMove>,
> {
    match white {
        None => None,
        Some(w) => match algebraic_of(w) {
            None => None,
            Some(first) => match black {
                None => Some(seq![first]),
                Some(b) => match algebraic_of(b) {
                    None => None,
                    Some(second) => Some(seq![first, second]),
                },
            },
        },
    }
}

/// The moves of the matches of `MOVE_MATCH` in `line` from number `n` on, up to number
/// `cap`.
pub open spec fn moves_from(line: Seq<char>, n: int, cap: int) -> Option<Seq<AlgebraicMove>>
    decreases cap - n,
{
    if n >= cap || regex_nth_group(MOVE_MATCH@, line, n, 0) is None {
        Some(Seq::empty())
    } else {
        match pair_of(
            regex_nth_group(MOVE_MATCH@, line, n, 2),
            regex_nth_group(MOVE_MATCH@, line, n, 5),
        ) {
            None => None,
            Some(pair) => match moves_from(line, n + 1, cap) {
                None => None,
                Some(rest) => Some(pair + rest),
            },
        }
    }
}

/// The moves that one match gives, from the texts of white's and black's groups.
pub fn moves_of_match(white: &Option<String>, black: &Option<String>) -> (r: Option<
    Vec<AlgebraicMove>,
>)
    ensures
        match pair_of(text_of(*white), text_of(*black)) {
            Some(pair) => r matches Some(v) && v@ == pair,
            None => r is None,
        },
{
    let first = match white {
        Some(w) => match str_to_algebraic(w.as_str()) {
            Some(m) => m,
            None => {
                return None;
            },
        },
        None => {
            return None;
        },
    };
    let mut out: Vec<AlgebraicMove> = Vec::new();
    out.push(first);
    match black {
        Some(b) => match str_to_algebraic(b.as_str()) {
            Some(second) => {
                out.push(second);
                assert(out@ =~= seq![first, second]);
            },
            None => {
                return None;
            },
        },
        None => {
            assert(out@ =~= seq![first]);
        },
    }
    Some(out)
}

/// The moves of a line of moves: those of each match of `MOVE_MATCH`, in the order of the
/// matches. No more matches are looked at than the line has characters.
pub fn moves_of_line(line: &str) -> (r: Option<Vec<AlgebraicMove>>)
    ensures
        match moves_from(line@, 0, line@.len() as int) {
            Some(moves) => r matches Some(v) && v@ == moves,
            None => r is None,
        },
{
    let cap = line.unicode_len();
    let mut moves: Vec<AlgebraicMove> = Vec::new();
    let mut n: usize = 0;
    let ghost all = moves_from(line@, 0, cap as int);
    while n < cap
        invariant
            cap == line@.len(),
            n <= cap,
            all == moves_from(line@, 0, cap as int),
            all == match moves_from(line@, n as int, cap as int) {
                Some(rest) => Some(moves@ + rest),
                None => None,
            },
        decreases cap - n,
    {
        if nth_capture_group(MOVE_MATCH, line, n, 0).is_none() {
            assert(moves@ + Seq::<AlgebraicMove>::empty() =~= moves@);
            return Some(moves);
        }
        let white = nth_capture_group(MOVE_MATCH, line, n, 2);
        let black = nth_capture_group(MOVE_MATCH, line, n, 5);
        let ghost before = moves@;
        match moves_of_match(&white, &black) {
            Some(pair) => {
                let mut k: usize = 0;
                while k < pair.len()
                    invariant
                        k <= pair.len(),
                        moves@ == before + pair@.take(k as int),
                    decreases pair.len() - k,
                {
                    moves.push(pair[k]);
                    k += 1;
                    assert(moves@ =~= before + pair@.take(k as int));
                }
                assert(pair@.take(k as int) =~= pair@);
                proof {
                    let rest = moves_from(line@, n + 1, cap as int);
                    if rest is Some {
                        assert(before + (pair@ + rest.unwrap()) =~= moves@ + rest.unwrap());
                    }
                }
            },
            None => {
                return None;
            },
        }
        n += 1;
    }
    assert(moves@ + Seq::<AlgebraicMove>::empty() =~= moves@);
    Some(moves)
}

} // verus!
