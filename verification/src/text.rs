//! Small helpers for reading text character by character.

use vstd::prelude::*;
use vstd::string::StrSliceExecFns;

verus! {

/// A character that may surround a record: blank, tab, line feed or carriage return.
pub open spec fn is_space(c: char) -> bool {
    c == ' ' || c == '\t' || c == '\n' || c == '\r'
}

/// The first index at or after `i` that holds no space character (or `hi`).
pub open spec fn skip_spaces(s: Seq<char>, i: int, hi: int) -> int
    decreases hi - i,
{
    if 0 <= i < hi <= s.len() && is_space(s[i]) {
        skip_spaces(s, i + 1, hi)
    } else {
        i
    }
}

/// The end of the text that is left when the space characters before `j` are dropped.
pub open spec fn drop_spaces(s: Seq<char>, lo: int, j: int) -> int
    decreases j,
{
    if 0 <= lo < j <= s.len() && is_space(s[j - 1]) {
        drop_spaces(s, lo, j - 1)
    } else {
        j
    }
}

/// The text without the space characters around it.
pub open spec fn trimmed(s: Seq<char>) -> Seq<char> {
    let lo = skip_spaces(s, 0, s.len() as int);
    let hi = drop_spaces(s, lo, s.len() as int);
    s.subrange(lo, hi)
}

fn space(c: char) -> (r: bool)
    ensures
        r == is_space(c),
{
    c == ' ' || c == '\t' || c == '\n' || c == '\r'
}

/// The characters of a string, one by one.
pub fn chars_of(text: &str) -> (r: Vec<char>)
    ensures
        r@ == text@,
{
    let n = text.unicode_len();
    let mut out: Vec<char> = Vec::with_capacity(n);
    let mut i: usize = 0;
    while i < n
        invariant
            i <= n,
            n == text@.len(),
            out@ == text@.subrange(0, i as int),
        decreases n - i,
    {
        out.push(text.get_char(i));
        i += 1;
        assert(out@ =~= text@.subrange(0, i as int));
    }
    assert(out@ =~= text@);
    out
}

/// Where the text without the space characters around it starts and ends.
pub fn trim_bounds(s: &Vec<char>) -> (r: (usize, usize))
    ensures
        r.0 == skip_spaces(s@, 0, s@.len() as int),
        r.1 == drop_spaces(s@, r.0 as int, s@.len() as int),
        r.0 <= r.1 <= s@.len(),
{
    let n = s.len();
    let mut lo: usize = 0;
    while lo < n && space(s[lo])
        invariant
            lo <= n == s.len(),
            skip_spaces(s@, lo as int, n as int) == skip_spaces(s@, 0, n as int),
        decreases n - lo,
    {
        lo += 1;
    }
    let mut hi: usize = n;
    while lo < hi && space(s[hi - 1])
        invariant
            lo <= hi <= n == s.len(),
            drop_spaces(s@, lo as int, hi as int) == drop_spaces(s@, lo as int, n as int),
        decreases hi,
    {
        hi -= 1;
    }
    (lo, hi)
}

} // verus!
