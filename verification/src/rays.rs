//! The sliding fill as lines of sight: what a piece on one square sees along a direction.

use crate::bits::{
    bit, from_of, lemma_bit_left, lemma_bit_right, lemma_bit_single, lemma_bit_zero,
    lemma_slide_reach, on_line, reached_in, reached_within, slide, LEFT_SIDE, RIGHT_SIDE,
};
use vstd::prelude::*;

verus! {

/// Square `t` lies on the half-line that starts next to square `s` and goes along the
/// direction (`df`, `dr`).
#[verifier::opaque]
pub open spec fn aligned(s: int, t: int, df: int, dr: int) -> bool {
    on_line(s, t, df, dr)
}

/// The number of steps between two squares of one line: the larger of their distances in
/// files and in ranks.
#[verifier::opaque]
pub open spec fn span(s: int, t: int) -> int {
    let a = if t % 8 >= s % 8 {
        t % 8 - s % 8
    } else {
        s % 8 - t % 8
    };
    let b = if t / 8 >= s / 8 {
        t / 8 - s / 8
    } else {
        s / 8 - t / 8
    };
    if a >= b {
        a
    } else {
        b
    }
}

/// `(df, dr)` is one of the eight directions.
pub open spec fn is_dir(df: int, dr: int) -> bool {
    -1 <= df <= 1 && -1 <= dr <= 1 && (df != 0 || dr != 0)
}

/// Square `u` lies strictly between `s` and `t` on the half-line from `s` through `t`.
pub open spec fn between(s: int, u: int, t: int, df: int, dr: int) -> bool {
    aligned(s, u, df, dr) && aligned(u, t, df, dr)
}

/// From square `s`, square `t` is in sight along the direction (`df`, `dr`): it lies on the
/// half-line from `s`, and no square strictly between them is one of `blockers`.
pub open spec fn sees(s: int, t: int, df: int, dr: int, blockers: u64) -> bool {
    aligned(s, t, df, dr) && forall|u: int|
        #[trigger] between(s, u, t, df, dr) ==> !bit(blockers, u)
}

/// The sliding fill by `step` squares, up or down the board, with `edge` as its stop at the
/// side of the board, goes along the direction (`df`, `dr`): a step adds `8 * dr + df` to a
/// square's index, and the edge is the file that a step would wrap onto.
pub open spec fn heads(step: u8, edge: u64, up: bool, df: int, dr: int) -> bool {
    &&& is_dir(df, dr)
    &&& (if up {
        step as int
    } else {
        -(step as int)
    }) == 8 * dr + df
    &&& edge == (if df == 1 {
        RIGHT_SIDE
    } else if df == -1 {
        LEFT_SIDE
    } else {
        0
    })
}

/// Square `j` is one step from square `i` along (`df`, `dr`).
pub open spec fn one_step(i: int, j: int, df: int, dr: int) -> bool {
    0 <= i < 64 && 0 <= j < 64 && j % 8 == i % 8 + df && j / 8 == i / 8 + dr
}

/// Squares on a line are on the board, differ, and are one to seven steps apart.
pub proof fn lemma_aligned_range(s: int, t: int, df: int, dr: int)
    requires
        is_dir(df, dr),
        aligned(s, t, df, dr),
    ensures
        0 <= s < 64,
        0 <= t < 64,
        s != t,
        1 <= span(s, t) <= 7,
{
    reveal(aligned);
    reveal(span);
}

/// A line goes on: what lies on the half-line from a square of the half-line from `s` lies
/// on the half-line from `s`, as many steps further.
pub proof fn lemma_aligned_trans(s: int, u: int, t: int, df: int, dr: int)
    requires
        is_dir(df, dr),
        aligned(s, u, df, dr),
        aligned(u, t, df, dr),
    ensures
        aligned(s, t, df, dr),
        span(s, t) == span(s, u) + span(u, t),
{
    reveal(aligned);
    reveal(span);
}

/// Two squares of one half-line are the same, or one lies on the half-line from the other.
pub proof fn lemma_aligned_order(s: int, u: int, t: int, df: int, dr: int)
    requires
        is_dir(df, dr),
        aligned(s, u, df, dr),
        aligned(s, t, df, dr),
    ensures
        u == t || aligned(u, t, df, dr) || aligned(t, u, df, dr),
        span(s, u) == span(s, t) ==> u == t,
        span(s, u) < span(s, t) ==> aligned(u, t, df, dr),
{
    reveal(aligned);
    reveal(span);
    let fs = s % 8;
    let rs = s / 8;
    let fu = u % 8;
    let ru = u / 8;
    let ft = t % 8;
    let rt = t / 8;
    assert(u == 8 * ru + fu && t == 8 * rt + ft);
}

/// A line read backwards is a line.
pub proof fn lemma_aligned_back(s: int, t: int, df: int, dr: int)
    ensures
        aligned(s, t, df, dr) == aligned(t, s, -df, -dr),
        span(s, t) == span(t, s),
{
    reveal(aligned);
    reveal(span);
}

/// One step is a line of span one.
pub proof fn lemma_step_aligned(i: int, j: int, df: int, dr: int)
    requires
        is_dir(df, dr),
    ensures
        one_step(i, j, df, dr) == (aligned(i, j, df, dr) && span(i, j) == 1),
{
    reveal(aligned);
    reveal(span);
}

/// The last step of a line of two or more steps: the square before `t` is on the line from
/// `s`, one step closer.
pub proof fn lemma_last_step(s: int, t: int, df: int, dr: int)
    requires
        is_dir(df, dr),
        aligned(s, t, df, dr),
        span(s, t) >= 2,
    ensures
        one_step(t - (8 * dr + df), t, df, dr),
        aligned(s, t - (8 * dr + df), df, dr),
        span(s, t - (8 * dr + df)) == span(s, t) - 1,
{
    reveal(aligned);
    reveal(span);
    let back = t - (8 * dr + df);
    let bf = t % 8 - df;
    let br = t / 8 - dr;
    assert(t == 8 * (t / 8) + t % 8);
    assert(0 <= bf < 8 && 0 <= br < 8);
    assert(back == 8 * br + bf);
    assert(back % 8 == bf && back / 8 == br);
}

/// One step along a direction, in terms of the fill: the index grows by the step, and the
/// landing square is on the board and off the edge.
pub proof fn lemma_one_step(step: u8, edge: u64, up: bool, df: int, dr: int, i: int, j: int)
    requires
        heads(step, edge, up, df, dr),
        0 <= i < 64,
    ensures
        one_step(i, j, df, dr) == (0 <= j < 64 && i == from_of(j, step, up) && !bit(edge, j)),
{
    lemma_bit_left(j);
    lemma_bit_right(j);
    lemma_bit_zero(j);
    if 0 <= j < 64 {
        assert(i == 8 * (i / 8) + i % 8 && j == 8 * (j / 8) + j % 8);
    }
}

/// Being reached in `k` steps from the single square `s`, in terms of the board: on the
/// half-line from `s`, `k` steps away, with nothing in between.
pub proof fn lemma_reached_in(
    s: u8,
    step: u8,
    blockers: u64,
    edge: u64,
    up: bool,
    df: int,
    dr: int,
    t: int,
    k: nat,
)
    requires
        s < 64,
        heads(step, edge, up, df, dr),
        k >= 1,
    ensures
        reached_in(1u64 << s, step, blockers, edge, up, t, k) == (sees(s as int, t, df, dr, blockers)
            && span(s as int, t) == k),
    decreases k,
{
    let back = from_of(t, step, up);
    let reached = reached_in(1u64 << s, step, blockers, edge, up, t, k);
    let seen = sees(s as int, t, df, dr, blockers) && span(s as int, t) == k;
    lemma_bit_single(s, back);
    if k == 1 {
        lemma_one_step(step, edge, up, df, dr, s as int, t);
        lemma_step_aligned(s as int, t, df, dr);
        if reached {
            assert forall|u: int| between(s as int, u, t, df, dr) implies !bit(blockers, u) by {
                lemma_aligned_trans(s as int, u, t, df, dr);
                lemma_aligned_range(s as int, u, df, dr);
                lemma_aligned_range(u, t, df, dr);
            }
        }
        assert(reached == seen);
    } else {
        let j = (k - 1) as nat;
        lemma_reached_in(s, step, blockers, edge, up, df, dr, back, j);
        if 0 <= back < 64 {
            lemma_one_step(step, edge, up, df, dr, back, t);
            lemma_step_aligned(back, t, df, dr);
        }
        if reached {
            lemma_aligned_trans(s as int, back, t, df, dr);
            assert forall|u: int| between(s as int, u, t, df, dr) implies !bit(blockers, u) by {
                lemma_aligned_range(u, t, df, dr);
                lemma_aligned_trans(s as int, u, t, df, dr);
                lemma_aligned_order(s as int, u, back, df, dr);
                if u != back {
                    assert(between(s as int, u, back, df, dr));
                }
            }
            assert(seen);
        }
        if seen {
            lemma_last_step(s as int, t, df, dr);
            assert(t - (8 * dr + df) == back);
            assert(between(s as int, back, t, df, dr));
            assert forall|u: int| between(s as int, u, back, df, dr) implies !bit(blockers, u) by {
                lemma_aligned_trans(u, back, t, df, dr);
                assert(between(s as int, u, t, df, dr));
            }
            assert(reached);
        }
    }
}

/// The sliding fill from the single square `s` holds exactly the squares in sight of `s`.
pub proof fn lemma_slide_sees(
    s: u8,
    step: u8,
    blockers: u64,
    edge: u64,
    up: bool,
    df: int,
    dr: int,
)
    requires
        s < 64,
        heads(step, edge, up, df, dr),
    ensures
        forall|t: int|
            #[trigger] bit(slide(1u64 << s, step, blockers, edge, up), t) == sees(
                s as int,
                t,
                df,
                dr,
                blockers,
            ),
{
    lemma_slide_reach(1u64 << s, step, blockers, edge, up);
    assert forall|t: int| #[trigger] bit(slide(1u64 << s, step, blockers, edge, up), t) == sees(
        s as int,
        t,
        df,
        dr,
        blockers,
    ) by {
        let pieces = 1u64 << s;
        if reached_within(pieces, step, blockers, edge, up, t, 7) {
            let k = choose|k: nat|
                1 <= k <= 7 && reached_in(pieces, step, blockers, edge, up, t, k);
            lemma_reached_in(s, step, blockers, edge, up, df, dr, t, k);
        }
        if sees(s as int, t, df, dr, blockers) {
            lemma_aligned_range(s as int, t, df, dr);
            let k = span(s as int, t) as nat;
            lemma_reached_in(s, step, blockers, edge, up, df, dr, t, k);
            assert(reached_in(pieces, step, blockers, edge, up, t, k));
        }
    }
}

/// Being reached in `k` steps from a set is being reached in `k` steps from one of its
/// members.
pub proof fn lemma_reached_from(
    pieces: u64,
    step: u8,
    blockers: u64,
    edge: u64,
    up: bool,
    t: int,
    k: nat,
)
    requires
        k >= 1,
    ensures
        reached_in(pieces, step, blockers, edge, up, t, k) == (exists|s: u8|
            s < 64 && bit(pieces, s as int) && #[trigger] reached_in(
                1u64 << s,
                step,
                blockers,
                edge,
                up,
                t,
                k,
            )),
    decreases k,
{
    let back = from_of(t, step, up);
    if k == 1 {
        if reached_in(pieces, step, blockers, edge, up, t, k) {
            let s = back as u8;
            lemma_bit_single(s, back);
            assert(reached_in(1u64 << s, step, blockers, edge, up, t, k));
        }
        if exists|s: u8|
            s < 64 && bit(pieces, s as int) && #[trigger] reached_in(
                1u64 << s,
                step,
                blockers,
                edge,
                up,
                t,
                k,
            ) {
            let s = choose|s: u8|
                s < 64 && bit(pieces, s as int) && #[trigger] reached_in(
                    1u64 << s,
                    step,
                    blockers,
                    edge,
                    up,
                    t,
                    k,
                );
            lemma_bit_single(s, back);
        }
    } else {
        let j = (k - 1) as nat;
        lemma_reached_from(pieces, step, blockers, edge, up, back, j);
        if reached_in(pieces, step, blockers, edge, up, t, k) {
            let s = choose|s: u8|
                s < 64 && bit(pieces, s as int) && #[trigger] reached_in(
                    1u64 << s,
                    step,
                    blockers,
                    edge,
                    up,
                    back,
                    j,
                );
            assert(reached_in(1u64 << s, step, blockers, edge, up, t, k));
        }
        if exists|s: u8|
            s < 64 && bit(pieces, s as int) && #[trigger] reached_in(
                1u64 << s,
                step,
                blockers,
                edge,
                up,
                t,
                k,
            ) {
            let s = choose|s: u8|
                s < 64 && bit(pieces, s as int) && #[trigger] reached_in(
                    1u64 << s,
                    step,
                    blockers,
                    edge,
                    up,
                    t,
                    k,
                );
            assert(reached_in(1u64 << s, step, blockers, edge, up, back, j));
        }
    }
}

/// The sliding fill from a set holds exactly the squares in sight of one of its members.
pub proof fn lemma_slide_sees_from(
    pieces: u64,
    step: u8,
    blockers: u64,
    edge: u64,
    up: bool,
    df: int,
    dr: int,
)
    requires
        heads(step, edge, up, df, dr),
    ensures
        forall|t: int|
            #[trigger] bit(slide(pieces, step, blockers, edge, up), t) == (exists|s: int|
                bit(pieces, s) && sees(s, t, df, dr, blockers)),
{
    lemma_slide_reach(pieces, step, blockers, edge, up);
    assert forall|t: int| #[trigger] bit(slide(pieces, step, blockers, edge, up), t) == (exists|
        s: int,
    |
        bit(pieces, s) && sees(s, t, df, dr, blockers)) by {
        if reached_within(pieces, step, blockers, edge, up, t, 7) {
            let k = choose|k: nat|
                1 <= k <= 7 && reached_in(pieces, step, blockers, edge, up, t, k);
            lemma_reached_from(pieces, step, blockers, edge, up, t, k);
            let s = choose|s: u8|
                s < 64 && bit(pieces, s as int) && #[trigger] reached_in(
                    1u64 << s,
                    step,
                    blockers,
                    edge,
                    up,
                    t,
                    k,
                );
            lemma_reached_in(s, step, blockers, edge, up, df, dr, t, k);
            assert(bit(pieces, s as int) && sees(s as int, t, df, dr, blockers));
        }
        if exists|s: int| bit(pieces, s) && sees(s, t, df, dr, blockers) {
            let s = choose|s: int| bit(pieces, s) && sees(s, t, df, dr, blockers);
            lemma_aligned_range(s, t, df, dr);
            let k = span(s, t) as nat;
            let s8 = s as u8;
            lemma_reached_in(s8, step, blockers, edge, up, df, dr, t, k);
            assert(reached_in(1u64 << s8, step, blockers, edge, up, t, k));
            lemma_reached_from(pieces, step, blockers, edge, up, t, k);
            assert(reached_in(pieces, step, blockers, edge, up, t, k));
        }
    }
}

/// From `s`, `t` is in sight along one of the four diagonal directions.
pub open spec fn sees_diagonally(s: int, t: int, blockers: u64) -> bool {
    sees(s, t, -1, 1, blockers) || sees(s, t, 1, 1, blockers) || sees(s, t, -1, -1, blockers)
        || sees(s, t, 1, -1, blockers)
}

/// From `s`, `t` is in sight along its rank or its file.
pub open spec fn sees_straight(s: int, t: int, blockers: u64) -> bool {
    sees(s, t, 1, 0, blockers) || sees(s, t, -1, 0, blockers) || sees(s, t, 0, 1, blockers) || sees(
        s,
        t,
        0,
        -1,
        blockers,
    )
}

/// A line of sight read backwards is a line of sight.
pub proof fn lemma_sees_back(s: int, t: int, df: int, dr: int, blockers: u64)
    ensures
        sees(s, t, df, dr, blockers) == sees(t, s, -df, -dr, blockers),
{
    lemma_aligned_back(s, t, df, dr);
    if sees(s, t, df, dr, blockers) {
        assert forall|u: int| between(t, u, s, -df, -dr) implies !bit(blockers, u) by {
            lemma_aligned_back(u, t, df, dr);
            lemma_aligned_back(s, u, df, dr);
            assert(between(s, u, t, df, dr));
        }
    }
    if sees(t, s, -df, -dr, blockers) {
        assert forall|u: int| between(s, u, t, df, dr) implies !bit(blockers, u) by {
            lemma_aligned_back(u, t, df, dr);
            lemma_aligned_back(s, u, df, dr);
            assert(between(t, u, s, -df, -dr));
        }
    }
}

/// A line of sight holds of each of its parts.
pub proof fn lemma_sees_parts(s: int, u: int, t: int, df: int, dr: int, blockers: u64)
    requires
        is_dir(df, dr),
        sees(s, t, df, dr, blockers),
        between(s, u, t, df, dr),
    ensures
        sees(s, u, df, dr, blockers),
        sees(u, t, df, dr, blockers),
{
    assert forall|v: int| between(s, v, u, df, dr) implies !bit(blockers, v) by {
        lemma_aligned_trans(v, u, t, df, dr);
        assert(between(s, v, t, df, dr));
    }
    assert forall|v: int| between(u, v, t, df, dr) implies !bit(blockers, v) by {
        lemma_aligned_trans(s, u, v, df, dr);
        assert(between(s, v, t, df, dr));
    }
}

/// The first blocker on a line of sight is the only one: of two blockers that a square sees
/// along one direction, none lies behind the other.
pub proof fn lemma_first_blocker(s: int, u: int, t: int, df: int, dr: int, blockers: u64)
    requires
        is_dir(df, dr),
        sees(s, u, df, dr, blockers),
        sees(s, t, df, dr, blockers),
        bit(blockers, u),
        bit(blockers, t),
    ensures
        u == t,
{
    lemma_aligned_order(s, u, t, df, dr);
    if u != t {
        if aligned(u, t, df, dr) {
            assert(between(s, u, t, df, dr));
        } else {
            assert(between(s, t, u, df, dr));
        }
    }
}

/// From one square to another there is one direction at most.
pub proof fn lemma_one_direction(s: int, t: int, df: int, dr: int, wf: int, wr: int)
    requires
        is_dir(df, dr),
        is_dir(wf, wr),
        aligned(s, t, df, dr),
        aligned(s, t, wf, wr),
    ensures
        df == wf,
        dr == wr,
{
    reveal(aligned);
}

/// Three squares that see each other pairwise along diagonals, or pairwise along ranks and
/// files, lie on one line: where `f` and `g` both lie on half-lines from `k` and `g` lies on a
/// half-line from `f`, the half-lines from `k` are on one line.
pub proof fn lemma_no_triangle(
    k: int,
    f: int,
    g: int,
    df: int,
    dr: int,
    wf: int,
    wr: int,
    vf: int,
    vr: int,
)
    requires
        is_dir(df, dr),
        is_dir(wf, wr),
        is_dir(vf, vr),
        (df != 0 && dr != 0) == (wf != 0 && wr != 0),
        (df != 0 && dr != 0) == (vf != 0 && vr != 0),
        aligned(k, f, df, dr),
        aligned(k, g, wf, wr),
        aligned(f, g, vf, vr),
    ensures
        (wf == df && wr == dr) || (wf == -df && wr == -dr),
{
    reveal(aligned);
}

/// A square one step from a square of a half-line, along the line, lies on the half-line
/// unless it is the square that the half-line starts from; and it lies no further than any
/// square that is further along than the square it is next to.
pub proof fn lemma_step_on_line(
    k: int,
    f: int,
    from: int,
    g: int,
    df: int,
    dr: int,
    vf: int,
    vr: int,
)
    requires
        is_dir(df, dr),
        aligned(k, f, df, dr),
        aligned(f, from, df, dr),
        (vf == df && vr == dr) || (vf == -df && vr == -dr),
        one_step(f, g, vf, vr),
        g != k,
    ensures
        aligned(k, g, df, dr),
        !aligned(from, g, df, dr),
{
    reveal(aligned);
}

/// As `lemma_step_on_line`, for two steps in a row over a square that is neither the start
/// of the half-line nor the far square.
pub proof fn lemma_two_steps_on_line(
    k: int,
    f: int,
    from: int,
    m: int,
    g: int,
    df: int,
    dr: int,
    vf: int,
    vr: int,
)
    requires
        is_dir(df, dr),
        aligned(k, f, df, dr),
        aligned(f, from, df, dr),
        (vf == df && vr == dr) || (vf == -df && vr == -dr),
        one_step(f, m, vf, vr),
        one_step(m, g, vf, vr),
        m != k,
        m != from,
        g != k,
    ensures
        aligned(k, g, df, dr),
        !aligned(from, g, df, dr),
{
    reveal(aligned);
}

/// A square next to a square of a rank line, on the same rank, that is neither end of the
/// line lies within the line.
pub proof fn lemma_rank_neighbour(k: int, v: int, a: int, f: int, df: int, dr: int)
    requires
        is_dir(df, dr),
        dr == 0,
        aligned(k, v, df, dr),
        aligned(v, a, df, dr),
        0 <= f < 64,
        f / 8 == v / 8,
        f == v + 1 || f == v - 1,
        f != k,
        f != a,
    ensures
        between(k, f, a, df, dr),
{
    reveal(aligned);
}

/// Two squares of one file do not both lie on one diagonal half-line.
pub proof fn lemma_file_off_diagonal(k: int, v: int, s: int, df: int, dr: int)
    requires
        is_dir(df, dr),
        df != 0 && dr != 0,
        aligned(k, v, df, dr),
        v % 8 == s % 8,
        v != s,
    ensures
        !aligned(k, s, df, dr),
{
    reveal(aligned);
}

/// Two squares of one rank that both lie on one half-line lie on a half-line along the rank.
pub proof fn lemma_rank_line(k: int, f: int, v: int, df: int, dr: int)
    requires
        is_dir(df, dr),
        aligned(k, f, df, dr),
        aligned(k, v, df, dr),
        f / 8 == v / 8,
        f != v,
    ensures
        dr == 0,
        k / 8 == v / 8,
{
    reveal(aligned);
}

/// Of two neighbours on a rank that lie on a half-line along it, the nearer sees the
/// further, whatever the blockers.
pub proof fn lemma_neighbours_see(k: int, x: int, y: int, df: int, dr: int, blockers: u64)
    requires
        is_dir(df, dr),
        dr == 0,
        aligned(k, x, df, dr),
        aligned(k, y, df, dr),
        y == x + 1 || y == x - 1,
        aligned(x, y, df, dr),
    ensures
        sees(x, y, df, dr, blockers),
{
    reveal(aligned);
    assert forall|u: int| #[trigger] between(x, u, y, df, dr) implies !bit(blockers, u) by {
        reveal(aligned);
    }
}

} // verus!
