//! What a chess engine offers to a front-end that speaks the engine protocol.

use crate::bit_board::fen::{field_end, find_field_end};
use crate::notation::{capture_group, regex_group, slice_of};
use crate::text::{chars_of, drop_spaces, is_space, skip_spaces, trim_bounds};
use vstd::prelude::*;
use vstd::string::StrSliceExecFns;

verus! {

/// The arguments of a `go` command.
pub struct GoArgs<'a> {
    pub moves: Option<Vec<&'a str>>,
    pub ponder: bool,
    pub wtime: Option<u64>,
    pub btime: Option<u64>,
    pub winc: Option<u64>,
    pub binc: Option<u64>,
    pub movestogo: Option<u64>,
    pub depth: Option<u64>,
    pub nodes: Option<u64>,
    pub mate: Option<u64>,
    pub move_time: Option<u64>,
    pub infinite: bool,
}

/// A chess engine as a front-end drives it.
pub trait Engine: Sized {
    fn new() -> Self;

    fn set_from_fen(&mut self, fen: &str);

    fn play_move(&mut self, mov: &str);

    fn select_move(&self) -> u16;

    fn get_name(&self) -> String;

    fn get_author(&self) -> String;

    fn set_debug(&self, b: bool);

    fn log(&self, log: &str);

    fn go<'a>(&self, args: &'a GoArgs);

    fn stop(&self);
}

/// `startpos`, and the moves that follow it.
pub const START_POS: &'static str = "^ ?startpos( moves(( [a-h][1-8][a-h][1-8][rnbq]?)+))?";

/// A FEN record, and the moves that follow it.
pub const FEN_POS: &'static str =
    "^ ?([pnbrqkPNBRQK1-8/]* [bw] ((K?Q?k?q?)|\\-) (([a-h][1-8])|\\-)( (([1-9][0-9]*)|\\-|0))?( (([1-9][0-9]*)|\\-|0))?)( moves(( [a-h][1-8][a-h][1-8][rnbq]?)+))?";

/// The moves that a search is restricted to.
pub const SEARCH_MOVES: &'static str = "searchmoves(( [a-h][1-8][a-h][1-8][rnbq]?)+)";

/// The keyword of pondering.
pub const PONDER: &'static str = "ponder";

/// White's time on the clock, in milliseconds.
pub const WTIME: &'static str = "wtime (([1-9][0-9]*)|0)";

/// Black's time on the clock, in milliseconds.
pub const BTIME: &'static str = "btime (([1-9][0-9]*)|0)";

/// White's increment for each move, in milliseconds.
pub const WINC: &'static str = "winc (([1-9][0-9]*)|0)";

/// Black's increment for each move, in milliseconds.
pub const BINC: &'static str = "binc (([1-9][0-9]*)|0)";

/// The number of moves to the next time control.
pub const MOVES_TO_GO: &'static str = "movestogo (([1-9][0-9]*)|0)";

/// The depth to search to, in half-moves.
pub const DEPTH: &'static str = "depth (([1-9][0-9]*)|0)";

/// The number of positions to search.
pub const NODES: &'static str = "nodes (([1-9][0-9]*)|0)";

/// The number of moves in which to look for a mate.
pub const MATE: &'static str = "mate (([1-9][0-9]*)|0)";

/// The time to search for, in milliseconds.
pub const MOVE_TIME: &'static str = "movetime (([1-9][0-9]*)|0)";

/// The keyword of a search without end.
pub const INFINITE: &'static str = "infinite";

/// A command of the engine protocol, as read from a line.
pub enum UciCommand<'a> {
    Uci,
    Debug(bool),
    IsReady,
    SetOption(&'a str),
    Register(&'a str),
    NewGame(&'a str),
    /// A position and the moves to play from it.
    Position(Vec<&'a str>),
    /// A position with no moves to play.
    PositionNoMoves,
    /// `position` with something that is neither `startpos` nor a FEN record.
    PositionNoMatch(&'a str),
    Go(GoArgs<'a>),
    Stop,
    Quit,
    /// Any other command, or `debug` with something other than `on` or `off`.
    Unknown(&'a str),
}

/// The end of the word that starts at `i`: the index of the next space character, or the
/// length of the text.
pub open spec fn word_end(s: Seq<char>, i: int) -> int
    decreases s.len() - i,
{
    if 0 <= i < s.len() && !is_space(s[i]) {
        word_end(s, i + 1)
    } else {
        i
    }
}

/// The words of the text from index `i` on: what stands between its space characters.
pub open spec fn words_from(s: Seq<char>, i: int) -> Seq<Seq<char>>
    decreases s.len() - i,
{
    let a = skip_spaces(s, i, s.len() as int);
    if 0 <= i <= a < s.len() && a < word_end(s, a) <= s.len() {
        seq![s.subrange(a, word_end(s, a))] + words_from(s, word_end(s, a))
    } else {
        Seq::empty()
    }
}

/// The words of the text.
pub open spec fn words(s: Seq<char>) -> Seq<Seq<char>> {
    words_from(s, 0)
}

/// The texts of a list of pieces of text.
pub open spec fn views(v: Seq<&str>) -> Seq<Seq<char>> {
    v.map_values(|t: &str| t@)
}

/// The value of a decimal digit; -1 for any other character.
pub open spec fn digit_value(c: char) -> int {
    if c == '0' {
        0
    } else if c == '1' {
        1
    } else if c == '2' {
        2
    } else if c == '3' {
        3
    } else if c == '4' {
        4
    } else if c == '5' {
        5
    } else if c == '6' {
        6
    } else if c == '7' {
        7
    } else if c == '8' {
        8
    } else if c == '9' {
        9
    } else {
        -1
    }
}

fn digit_of(c: char) -> (r: Option<u64>)
    ensures
        match r {
            Some(d) => d == digit_value(c),
            None => digit_value(c) < 0,
        },
{
    match c {
        '0' => Some(0),
        '1' => Some(1),
        '2' => Some(2),
        '3' => Some(3),
        '4' => Some(4),
        '5' => Some(5),
        '6' => Some(6),
        '7' => Some(7),
        '8' => Some(8),
        '9' => Some(9),
        _ => None,
    }
}

/// The number that decimal digits stand for, whatever its size; -1 where the text is
/// empty or holds anything but digits.
pub open spec fn decimal(s: Seq<char>) -> int
    decreases s.len(),
{
    if s.len() == 0 {
        -1
    } else {
        let d = digit_value(s.last());
        let rest = if s.len() == 1 {
            0
        } else {
            decimal(s.drop_last())
        };
        if 0 <= d <= 9 && rest >= 0 {
            rest * 10 + d
        } else {
            -1
        }
    }
}

/// The number that the text stands for, if it is one that a `u64` holds.
pub open spec fn number_of(s: Seq<char>) -> Option<u64> {
    if 0 <= decimal(s) <= u64::MAX {
        Some(decimal(s) as u64)
    } else {
        None
    }
}

/// The number that follows the keyword of `pattern` in `rest`.
pub open spec fn number_in(pattern: Seq<char>, rest: Seq<char>) -> Option<u64> {
    match regex_group(pattern, rest, 1) {
        Some(d) => number_of(d),
        None => None,
    }
}

/// The arguments are what the text after `go` says.
pub open spec fn go_is(rest: Seq<char>, args: GoArgs) -> bool {
    &&& match regex_group(SEARCH_MOVES@, rest, 1) {
        Some(m) => args.moves matches Some(v) && views(v@) == words(m),
        None => args.moves is None,
    }
    &&& args.ponder == (regex_group(PONDER@, rest, 0) is Some)
    &&& args.wtime == number_in(WTIME@, rest)
    &&& args.btime == number_in(BTIME@, rest)
    &&& args.winc == number_in(WINC@, rest)
    &&& args.binc == number_in(BINC@, rest)
    &&& args.movestogo == number_in(MOVES_TO_GO@, rest)
    &&& args.depth == number_in(DEPTH@, rest)
    &&& args.nodes == number_in(NODES@, rest)
    &&& args.mate == number_in(MATE@, rest)
    &&& args.move_time == number_in(MOVE_TIME@, rest)
    &&& args.infinite == (regex_group(INFINITE@, rest, 0) is Some)
}

/// The moves that follow a position: those of `startpos` where the text starts with it,
/// else those of a FEN record where the text starts with one. The outer `None` says that
/// the text starts with neither.
pub open spec fn position_moves(rest: Seq<char>) -> Option<Option<Seq<char>>> {
    if regex_group(START_POS@, rest, 0) is Some {
        Some(regex_group(START_POS@, rest, 2))
    } else if regex_group(FEN_POS@, rest, 0) is Some {
        Some(regex_group(FEN_POS@, rest, 13))
    } else {
        None
    }
}

/// The command is what the line says. Its name is the first word of the line, and what
/// follows the blank after that word, up to the space characters at the end of the line,
/// is its text.
pub open spec fn command_is(input: Seq<char>, c: UciCommand) -> bool {
    let lo = skip_spaces(input, 0, input.len() as int);
    let hi = drop_spaces(input, lo, input.len() as int);
    let cut = field_end(input, lo, hi);
    let name = input.subrange(lo, cut);
    let rest = if cut < hi {
        input.subrange(cut + 1, hi)
    } else {
        Seq::empty()
    };
    if name == "uci"@ {
        c is Uci
    } else if name == "debug"@ && rest == "on"@ {
        c matches UciCommand::Debug(b) && b
    } else if name == "debug"@ && rest == "off"@ {
        c matches UciCommand::Debug(b) && !b
    } else if name == "isready"@ {
        c is IsReady
    } else if name == "setoption"@ {
        c matches UciCommand::SetOption(t) && t@ == rest
    } else if name == "register"@ {
        c matches UciCommand::Register(t) && t@ == rest
    } else if name == "ucinewgame"@ {
        c matches UciCommand::NewGame(t) && t@ == rest
    } else if name == "position"@ {
        match position_moves(rest) {
            None => c matches UciCommand::PositionNoMatch(t) && t@ == rest,
            Some(None) => c is PositionNoMoves,
            Some(Some(m)) => c matches UciCommand::Position(v) && views(v@) == words(m),
        }
    } else if name == "go"@ {
        c matches UciCommand::Go(args) && go_is(rest, args)
    } else if name == "stop"@ {
        c is Stop
    } else if name == "quit"@ {
        c is Quit
    } else {
        c matches UciCommand::Unknown(t) && t@ == name
    }
}

/// The words of a piece of text.
pub fn split_words<'a>(text: &'a str) -> (r: Vec<&'a str>)
    ensures
        views(r@) == words(text@),
{
    let s = chars_of(text);
    let n = s.len();
    let mut out: Vec<&'a str> = Vec::new();
    let mut i: usize = 0;
    assert(views(out@) =~= Seq::<Seq<char>>::empty());
    loop
        invariant_except_break
            views(out@) + words_from(s@, i as int) == words(s@),
        invariant
            i <= n == s.len(),
            s@ == text@,
        ensures
            views(out@) == words(s@),
        decreases n - i,
    {
        let mut a = i;
        while a < n && is_blank(s[a])
            invariant
                i <= a <= n == s.len(),
                skip_spaces(s@, a as int, n as int) == skip_spaces(s@, i as int, n as int),
            decreases n - a,
        {
            a += 1;
        }
        let mut b = a;
        while b < n && !is_blank(s[b])
            invariant
                a <= b <= n == s.len(),
                word_end(s@, b as int) == word_end(s@, a as int),
            decreases n - b,
        {
            b += 1;
        }
        if a >= n || b <= a {
            assert(views(out@) + Seq::<Seq<char>>::empty() =~= views(out@));
            break ;
        }
        let ghost before = views(out@);
        let word = text.substring_char(a, b);
        out.push(word);
        assert(views(out@) =~= before.push(word@));
        assert(before.push(word@) + words_from(s@, b as int) =~= before + (seq![word@]
            + words_from(s@, b as int)));
        i = b;
    }
    out
}

fn is_blank(c: char) -> (r: bool)
    ensures
        r == is_space(c),
{
    c == ' ' || c == '\t' || c == '\n' || c == '\r'
}

/// The number that a text of decimal digits stands for, if a `u64` holds it.
pub fn parse_number(text: &str) -> (r: Option<u64>)
    ensures
        r == number_of(text@),
{
    let s = chars_of(text);
    let n = s.len();
    if n == 0 {
        return None;
    }
    let mut value: u64 = 0;
    let mut i: usize = 0;
    while i < n
        invariant
            i <= n == s.len(),
            n > 0,
            s@ == text@,
            i > 0 ==> value == decimal(s@.take(i as int)),
            i == 0 ==> value == 0,
        decreases n - i,
    {
        let found = digit_of(s[i]);
        let ghost upto = s@.take(i + 1);
        let ghost d = digit_value(s@[i as int]);
        let ghost rest: int = if i == 0 {
            0
        } else {
            value as int
        };
        proof {
            assert(upto.drop_last() =~= s@.take(i as int));
            assert(upto.last() == s@[i as int]);
            assert(decimal(upto) == (if 0 <= d <= 9 && rest >= 0 {
                rest * 10 + d
            } else {
                -1
            }));
        }
        let digit = match found {
            Some(d) => d,
            None => {
                proof {
                    lemma_decimal_stuck(s@, i + 1);
                }
                return None;
            },
        };
        let next = match value.checked_mul(10) {
            Some(v) => v.checked_add(digit),
            None => None,
        };
        match next {
            Some(v) => {
                value = v;
            },
            None => {
                proof {
                    assert(decimal(upto) == value * 10 + digit);
                    assert(decimal(upto) > u64::MAX);
                    lemma_decimal_grows(s@, i + 1);
                }
                return None;
            },
        }
        i += 1;
    }
    assert(s@.take(i as int) =~= s@);
    Some(value)
}

/// Once the start of a text is no number, neither is the whole.
proof fn lemma_decimal_stuck(s: Seq<char>, n: int)
    requires
        1 <= n <= s.len(),
        decimal(s.take(n)) < 0,
    ensures
        decimal(s) < 0,
    decreases s.len() - n,
{
    if n < s.len() {
        assert(s.take(n + 1).drop_last() =~= s.take(n));
        lemma_decimal_stuck(s, n + 1);
    } else {
        assert(s.take(n) =~= s);
    }
}

/// A number is no smaller than the number that its first digits stand for.
proof fn lemma_decimal_grows(s: Seq<char>, n: int)
    requires
        1 <= n <= s.len(),
    ensures
        decimal(s) < 0 || decimal(s) >= decimal(s.take(n)),
    decreases s.len() - n,
{
    if n < s.len() {
        assert(s.take(n + 1).drop_last() =~= s.take(n));
        lemma_decimal_grows(s, n + 1);
        if decimal(s.take(n + 1)) < 0 {
            lemma_decimal_stuck(s, n + 1);
        }
    } else {
        assert(s.take(n) =~= s);
    }
}

/// The number that follows the keyword of `pattern` in `rest`.
fn number_after(pattern: &str, rest: &str) -> (r: Option<u64>)
    ensures
        r == number_in(pattern@, rest@),
{
    match capture_group(pattern, rest, 1) {
        Some(d) => parse_number(d),
        None => None,
    }
}

/// The arguments that the text after `go` gives.
pub fn parse_go<'a>(rest: &'a str) -> (r: GoArgs<'a>)
    ensures
        go_is(rest@, r),
{
    let moves = match capture_group(SEARCH_MOVES, rest, 1) {
        Some(m) => Some(split_words(m)),
        None => None,
    };
    GoArgs {
        moves,
        ponder: capture_group(PONDER, rest, 0).is_some(),
        wtime: number_after(WTIME, rest),
        btime: number_after(BTIME, rest),
        winc: number_after(WINC, rest),
        binc: number_after(BINC, rest),
        movestogo: number_after(MOVES_TO_GO, rest),
        depth: number_after(DEPTH, rest),
        nodes: number_after(NODES, rest),
        mate: number_after(MATE, rest),
        move_time: number_after(MOVE_TIME, rest),
        infinite: capture_group(INFINITE, rest, 0).is_some(),
    }
}

/// Whether `s[lo..hi]` is the text `word`.
fn is_word(s: &Vec<char>, lo: usize, hi: usize, word: &str) -> (r: bool)
    requires
        lo <= hi <= s.len(),
    ensures
        r == (s@.subrange(lo as int, hi as int) == word@),
{
    let w = chars_of(word);
    if w.len() != hi - lo {
        return false;
    }
    let mut i: usize = 0;
    while i < w.len()
        invariant
            i <= w.len(),
            lo <= hi <= s.len(),
            w.len() == hi - lo,
            w@ == word@,
            forall|k: int| 0 <= k < i ==> s@[lo + k] == w@[k],
        decreases w.len() - i,
    {
        if s[lo + i] != w[i] {
            assert(s@.subrange(lo as int, hi as int)[i as int] != w@[i as int]);
            return false;
        }
        i += 1;
    }
    assert(s@.subrange(lo as int, hi as int) =~= w@);
    true
}

/// Reads a command of the engine protocol from a line.
pub fn parse_command<'a>(input: &'a str) -> (r: UciCommand<'a>)
    ensures
        command_is(input@, r),
{
    let s = chars_of(input);
    let (lo, hi) = trim_bounds(&s);
    let cut = find_field_end(&s, lo, hi);
    let name = input.substring_char(lo, cut);
    let rest = if cut < hi {
        input.substring_char(cut + 1, hi)
    } else {
        input.substring_char(hi, hi)
    };
    assert(s@.subrange(hi as int, hi as int) =~= Seq::<char>::empty());
    let from = if cut < hi {
        cut + 1
    } else {
        hi
    };
    if is_word(&s, lo, cut, "uci") {
        UciCommand::Uci
    } else if is_word(&s, lo, cut, "debug") && is_word(&s, from, hi, "on") {
        UciCommand::Debug(true)
    } else if is_word(&s, lo, cut, "debug") && is_word(&s, from, hi, "off") {
        UciCommand::Debug(false)
    } else if is_word(&s, lo, cut, "isready") {
        UciCommand::IsReady
    } else if is_word(&s, lo, cut, "setoption") {
        UciCommand::SetOption(rest)
    } else if is_word(&s, lo, cut, "register") {
        UciCommand::Register(rest)
    } else if is_word(&s, lo, cut, "ucinewgame") {
        UciCommand::NewGame(rest)
    } else if is_word(&s, lo, cut, "position") {
        let moves = if capture_group(START_POS, rest, 0).is_some() {
            Some(capture_group(START_POS, rest, 2))
        } else if capture_group(FEN_POS, rest, 0).is_some() {
            Some(capture_group(FEN_POS, rest, 13))
        } else {
            None
        };
        match moves {
            None => UciCommand::PositionNoMatch(rest),
            Some(None) => UciCommand::PositionNoMoves,
            Some(Some(m)) => UciCommand::Position(split_words(m)),
        }
    } else if is_word(&s, lo, cut, "go") {
        UciCommand::Go(parse_go(rest))
    } else if is_word(&s, lo, cut, "stop") {
        UciCommand::Stop
    } else if is_word(&s, lo, cut, "quit") {
        UciCommand::Quit
    } else {
        UciCommand::Unknown(name)
    }
}

} // verus!
