//! Bit-set primitives: squares as bits of a 64-bit word, the edge masks and the sliding fill.
//!
//! Square `i` (0..63) has rank `i / 8` (0 is the first rank) and sits on file `h` when
//! `i % 8 == 0`, on file `a` when `i % 8 == 7`.

use vstd::prelude::*;
use vstd::std_specs::bits::{axiom_u64_trailing_zeros, u64_trailing_zeros};

verus! {

/// The a-file: squares whose index is 7 modulo 8.
pub const LEFT_SIDE: u64 = 0x8080808080808080;

/// The h-file: squares whose index is 0 modulo 8.
pub const RIGHT_SIDE: u64 = 0x0101010101010101;

/// The a- and b-files.
pub const LEFT2_SIDE: u64 = 0xC0C0C0C0C0C0C0C0;

/// The g- and h-files.
pub const RIGHT2_SIDE: u64 = 0x0303030303030303;

/// Square `i` is a member of the set `m`.
pub open spec fn bit(m: u64, i: int) -> bool {
    0 <= i < 64 && (m >> (i as u64)) & 1 == 1
}

/// Membership in an intersection.
pub broadcast proof fn lemma_bit_and(a: u64, b: u64, i: int)
    ensures
        #[trigger] bit(a & b, i) == (bit(a, i) && bit(b, i)),
{
    if 0 <= i < 64 {
        let k = i as u64;
        assert((((a & b) >> k) & 1 == 1) == (((a >> k) & 1 == 1) && ((b >> k) & 1 == 1)))
            by (bit_vector);
    }
}

/// Membership in a union.
pub broadcast proof fn lemma_bit_or(a: u64, b: u64, i: int)
    ensures
        #[trigger] bit(a | b, i) == (bit(a, i) || bit(b, i)),
{
    if 0 <= i < 64 {
        let k = i as u64;
        assert((((a | b) >> k) & 1 == 1) == (((a >> k) & 1 == 1) || ((b >> k) & 1 == 1)))
            by (bit_vector);
    }
}

/// Membership in a symmetric difference.
pub broadcast proof fn lemma_bit_xor(a: u64, b: u64, i: int)
    ensures
        #[trigger] bit(a ^ b, i) == (0 <= i < 64 && bit(a, i) != bit(b, i)),
{
    if 0 <= i < 64 {
        let k = i as u64;
        assert((((a ^ b) >> k) & 1 == 1) == (((a >> k) & 1 == 1) != ((b >> k) & 1 == 1)))
            by (bit_vector);
    }
}

/// Membership in a complement.
pub broadcast proof fn lemma_bit_not(a: u64, i: int)
    ensures
        #[trigger] bit(!a, i) == (0 <= i < 64 && !bit(a, i)),
{
    if 0 <= i < 64 {
        let k = i as u64;
        assert((((!a) >> k) & 1 == 1) == !((a >> k) & 1 == 1)) by (bit_vector)
            requires
                k < 64,
        ;
    }
}

/// A left shift by `s` moves every member up by `s` squares and drops what leaves the board.
pub broadcast proof fn lemma_bit_shl(a: u64, s: u8, i: int)
    requires
        s < 64,
    ensures
        #[trigger] bit(a << s, i) == (s <= i < 64 && bit(a, i - s)),
{
    if 0 <= i < 64 {
        let k = i as u64;
        if i >= s {
            let d = (i - s) as u64;
            assert((((a << s) >> k) & 1 == 1) == ((a >> d) & 1 == 1)) by (bit_vector)
                requires
                    s < 64,
                    k < 64,
                    k >= s,
                    d == k - s,
            ;
        } else {
            assert(((a << s) >> k) & 1 == 0) by (bit_vector)
                requires
                    s < 64,
                    k < s,
            ;
        }
    }
}

/// A right shift by `s` moves every member down by `s` squares and drops what leaves the board.
pub broadcast proof fn lemma_bit_shr(a: u64, s: u8, i: int)
    requires
        s < 64,
    ensures
        #[trigger] bit(a >> s, i) == (0 <= i && bit(a, i + s)),
{
    if 0 <= i < 64 {
        let k = i as u64;
        if i + s < 64 {
            let d = (i + s) as u64;
            assert((((a >> s) >> k) & 1 == 1) == ((a >> d) & 1 == 1)) by (bit_vector)
                requires
                    s < 64,
                    k < 64,
                    d == k + s,
                    d < 64,
            ;
        } else {
            assert(((a >> s) >> k) & 1 == 0) by (bit_vector)
                requires
                    s < 64,
                    k < 64,
                    k + s >= 64,
            ;
        }
    }
}

/// The one-square set of `sq`.
pub broadcast proof fn lemma_bit_single(sq: u8, i: int)
    requires
        sq < 64,
    ensures
        #[trigger] bit(1u64 << sq, i) == (i == sq),
{
    if 0 <= i < 64 {
        let k = i as u64;
        assert((((1u64 << sq) >> k) & 1 == 1) == (k == sq)) by (bit_vector)
            requires
                sq < 64,
                k < 64,
        ;
    }
}

/// The empty set has no member.
pub broadcast proof fn lemma_bit_zero(i: int)
    ensures
        !(#[trigger] bit(0, i)),
{
    if 0 <= i < 64 {
        let k = i as u64;
        assert((0u64 >> k) & 1 == 0) by (bit_vector);
    }
}

/// The full board has every square.
pub broadcast proof fn lemma_bit_full(i: int)
    ensures
        #[trigger] bit(u64::MAX, i) == (0 <= i < 64),
{
    if 0 <= i < 64 {
        let k = i as u64;
        assert((0xffff_ffff_ffff_ffffu64 >> k) & 1 == 1) by (bit_vector)
            requires
                k < 64,
        ;
    }
}

/// The a-file, square by square.
pub broadcast proof fn lemma_bit_left(i: int)
    ensures
        #[trigger] bit(LEFT_SIDE, i) == (0 <= i < 64 && i % 8 == 7),
{
    if 0 <= i < 64 {
        let k = i as u64;
        assert(((0x8080808080808080u64 >> k) & 1 == 1) == (k % 8 == 7)) by (bit_vector)
            requires
                k < 64,
        ;
    }
}

/// The h-file, square by square.
pub broadcast proof fn lemma_bit_right(i: int)
    ensures
        #[trigger] bit(RIGHT_SIDE, i) == (0 <= i < 64 && i % 8 == 0),
{
    if 0 <= i < 64 {
        let k = i as u64;
        assert(((0x0101010101010101u64 >> k) & 1 == 1) == (k % 8 == 0)) by (bit_vector)
            requires
                k < 64,
        ;
    }
}

/// The a- and b-files, square by square.
pub broadcast proof fn lemma_bit_left2(i: int)
    ensures
        #[trigger] bit(LEFT2_SIDE, i) == (0 <= i < 64 && i % 8 >= 6),
{
    if 0 <= i < 64 {
        let k = i as u64;
        assert(((0xC0C0C0C0C0C0C0C0u64 >> k) & 1 == 1) == (k % 8 >= 6)) by (bit_vector)
            requires
                k < 64,
        ;
    }
}

/// The g- and h-files, square by square.
pub broadcast proof fn lemma_bit_right2(i: int)
    ensures
        #[trigger] bit(RIGHT2_SIDE, i) == (0 <= i < 64 && i % 8 <= 1),
{
    if 0 <= i < 64 {
        let k = i as u64;
        assert(((0x0303030303030303u64 >> k) & 1 == 1) == (k % 8 <= 1)) by (bit_vector)
            requires
                k < 64,
        ;
    }
}

pub broadcast group group_bit {
    lemma_bit_and,
    lemma_bit_or,
    lemma_bit_xor,
    lemma_bit_not,
    lemma_bit_shl,
    lemma_bit_shr,
    lemma_bit_single,
    lemma_bit_zero,
    lemma_bit_full,
    lemma_bit_left,
    lemma_bit_right,
    lemma_bit_left2,
    lemma_bit_right2,
}

/// A non-empty set has a member: its lowest one.
pub proof fn lemma_lowest(m: u64)
    requires
        m != 0,
    ensures
        u64_trailing_zeros(m) < 64,
        bit(m, u64_trailing_zeros(m) as int),
        forall|j: int| 0 <= j < u64_trailing_zeros(m) ==> !#[trigger] bit(m, j),
{
    axiom_u64_trailing_zeros(m);
    let t = u64_trailing_zeros(m);
    assert forall|j: int| 0 <= j < t implies !bit(m, j) by {
        let k = j as u64;
        assert((m >> k) & 1 == 0);
    }
}

/// Two sets with the same members are the same word.
pub proof fn lemma_bits_equal(a: u64, b: u64)
    requires
        forall|i: int| 0 <= i < 64 ==> bit(a, i) == bit(b, i),
    ensures
        a == b,
{
    let x = a ^ b;
    if x != 0 {
        lemma_lowest(x);
        lemma_bit_xor(a, b, u64_trailing_zeros(x) as int);
    }
    assert(a ^ b == 0 ==> a == b) by (bit_vector);
}

/// `m & (m - 1)` is `m` without its lowest member.
pub proof fn lemma_drop_lowest(m: u64)
    requires
        m != 0,
    ensures
        forall|j: int|
            #[trigger] bit(m & ((m - 1) as u64), j) == (bit(m, j) && j != u64_trailing_zeros(m)),
{
    axiom_u64_trailing_zeros(m);
    let t = u64_trailing_zeros(m) as u64;
    let d = (64 - t) as u64;
    assert(m << d == 0);
    let r = m & ((m - 1) as u64);
    assert forall|j: int| bit(r, j) == (bit(m, j) && j != t) by {
        if 0 <= j < 64 {
            let k = j as u64;
            assert(((m & ((m - 1) as u64)) >> k) & 1 == (if k == t {
                0
            } else {
                (m >> k) & 1
            })) by (bit_vector)
                requires
                    t < 64,
                    k < 64,
                    d == 64 - t,
                    m << d == 0,
                    (m >> t) & 1 == 1,
            ;
        }
    }
}

/// The members of `m` from square `lo` upwards, in ascending order.
pub open spec fn squares_from(m: u64, lo: int) -> Seq<u8>
    decreases 64 - lo,
{
    if lo < 0 || lo >= 64 {
        Seq::empty()
    } else if bit(m, lo) {
        seq![lo as u8] + squares_from(m, lo + 1)
    } else {
        squares_from(m, lo + 1)
    }
}

/// The members of `m` in ascending order.
pub open spec fn squares(m: u64) -> Seq<u8> {
    squares_from(m, 0)
}

/// Squares that are not members contribute nothing to the listing.
pub proof fn lemma_squares_skip(m: u64, lo: int, hi: int)
    requires
        0 <= lo <= hi <= 64,
        forall|j: int| lo <= j < hi ==> !bit(m, j),
    ensures
        squares_from(m, lo) == squares_from(m, hi),
    decreases hi - lo,
{
    if lo < hi {
        lemma_squares_skip(m, lo + 1, hi);
    }
}

/// The listing from `lo` depends only on the members at or above `lo`.
pub proof fn lemma_squares_agree(a: u64, b: u64, lo: int)
    requires
        0 <= lo <= 64,
        forall|j: int| lo <= j < 64 ==> bit(a, j) == bit(b, j),
    ensures
        squares_from(a, lo) == squares_from(b, lo),
    decreases 64 - lo,
{
    if lo < 64 {
        lemma_squares_agree(a, b, lo + 1);
    }
}

/// The listing of a non-empty set starts with its lowest member and goes on with the
/// listing of the rest.
pub proof fn lemma_squares_unfold(m: u64)
    requires
        m != 0,
    ensures
        u64_trailing_zeros(m) < 64,
        bit(m, u64_trailing_zeros(m) as int),
        squares(m) == seq![u64_trailing_zeros(m) as u8] + squares(m & ((m - 1) as u64)),
{
    lemma_lowest(m);
    lemma_drop_lowest(m);
    let t = u64_trailing_zeros(m) as int;
    let r = m & ((m - 1) as u64);
    lemma_squares_skip(m, 0, t);
    lemma_squares_skip(r, 0, t + 1);
    lemma_squares_agree(m, r, t + 1);
}

/// The listing of the empty set is empty.
pub proof fn lemma_squares_empty()
    ensures
        squares(0) == Seq::<u8>::empty(),
{
    broadcast use lemma_bit_zero;

    lemma_squares_skip(0, 0, 64);
}

/// Every listed square is on the board, is a member, and the listing ascends strictly.
pub proof fn lemma_squares_sorted(m: u64, lo: int)
    requires
        0 <= lo <= 64,
    ensures
        forall|k: int|
            0 <= k < squares_from(m, lo).len() ==> lo <= (#[trigger] squares_from(m, lo)[k]) < 64
                && bit(m, squares_from(m, lo)[k] as int),
        forall|k: int, l: int|
            0 <= k < l < squares_from(m, lo).len() ==> squares_from(m, lo)[k] < squares_from(
                m,
                lo,
            )[l],
        forall|j: int| lo <= j < 64 && bit(m, j) ==> squares_from(m, lo).contains(j as u8),
    decreases 64 - lo,
{
    if lo < 64 {
        lemma_squares_sorted(m, lo + 1);
        let rest = squares_from(m, lo + 1);
        let all = squares_from(m, lo);
        if bit(m, lo) {
            assert forall|j: int| lo <= j < 64 && bit(m, j) implies all.contains(j as u8) by {
                if j == lo {
                    assert(all[0] == lo as u8);
                } else {
                    let k = choose|k: int| 0 <= k < rest.len() && rest[k] == j as u8;
                    assert(all[k + 1] == j as u8);
                }
            }
            assert forall|k: int, l: int| 0 <= k < l < all.len() implies all[k] < all[l] by {
                if k > 0 {
                    assert(all[k] == rest[k - 1]);
                }
                assert(all[l] == rest[l - 1]);
            }
        }
    }
}

/// The concatenation of what `g` gives for each square of `s`, in the order of `s`.
pub open spec fn over<T>(s: Seq<u8>, g: spec_fn(u8) -> Seq<T>) -> Seq<T>
    decreases s.len(),
{
    if s.len() == 0 {
        Seq::empty()
    } else {
        g(s[0]) + over(s.drop_first(), g)
    }
}

/// The concatenation of what `g` gives for each member of `m`, in ascending order of the
/// members.
pub open spec fn each<T>(m: u64, g: spec_fn(u8) -> Seq<T>) -> Seq<T> {
    over(squares(m), g)
}

/// Nothing comes of the empty set.
pub proof fn lemma_each_empty<T>(g: spec_fn(u8) -> Seq<T>)
    ensures
        each(0, g) == Seq::<T>::empty(),
{
    lemma_squares_empty();
}

/// What comes of a non-empty set starts with what its lowest member gives and goes on with
/// what comes of the rest, which is a smaller word.
pub proof fn lemma_each_unfold<T>(m: u64, g: spec_fn(u8) -> Seq<T>)
    requires
        m != 0,
    ensures
        u64_trailing_zeros(m) < 64,
        bit(m, u64_trailing_zeros(m) as int),
        each(m, g) == g(u64_trailing_zeros(m) as u8) + each(m & ((m - 1) as u64), g),
        m & ((m - 1) as u64) < m,
        forall|j: int| #[trigger] bit(m & ((m - 1) as u64), j) ==> bit(m, j),
{
    lemma_squares_unfold(m);
    lemma_drop_lowest(m);
    let t = u64_trailing_zeros(m) as u8;
    let rest = squares(m & ((m - 1) as u64));
    assert(squares(m).drop_first() =~= rest);
    assert(m & ((m - 1) as u64) < m) by (bit_vector)
        requires
            m != 0,
    ;
}

/// What holds of everything that `g` gives for the squares of `s` holds of everything in
/// their concatenation.
pub proof fn lemma_over_all<T>(s: Seq<u8>, g: spec_fn(u8) -> Seq<T>, p: spec_fn(T) -> bool)
    requires
        forall|i: int, k: int|
            0 <= i < s.len() && 0 <= k < g(s[i]).len() ==> p(#[trigger] g(s[i])[k]),
    ensures
        forall|k: int| 0 <= k < over(s, g).len() ==> p(#[trigger] over(s, g)[k]),
    decreases s.len(),
{
    if s.len() > 0 {
        let rest = s.drop_first();
        assert forall|i: int, k: int| 0 <= i < rest.len() && 0 <= k < g(rest[i]).len() implies p(
            #[trigger] g(rest[i])[k],
        ) by {
            assert(rest[i] == s[i + 1]);
        }
        lemma_over_all(rest, g, p);
        assert forall|k: int| 0 <= k < over(s, g).len() implies p(#[trigger] over(s, g)[k]) by {
            if k < g(s[0]).len() {
                assert(over(s, g)[k] == g(s[0])[k]);
            } else {
                assert(over(s, g)[k] == over(rest, g)[k - g(s[0]).len()]);
            }
        }
    }
}

/// What holds of everything that `g` gives for the members of `m` holds of everything that
/// comes of `m`.
pub proof fn lemma_each_all<T>(m: u64, g: spec_fn(u8) -> Seq<T>, p: spec_fn(T) -> bool)
    requires
        forall|f: u8, k: int| bit(m, f as int) && 0 <= k < g(f).len() ==> p(#[trigger] g(f)[k]),
    ensures
        forall|k: int| 0 <= k < each(m, g).len() ==> p(#[trigger] each(m, g)[k]),
{
    lemma_squares_sorted(m, 0);
    let s = squares(m);
    assert forall|i: int, k: int| 0 <= i < s.len() && 0 <= k < g(s[i]).len() implies p(
        #[trigger] g(s[i])[k],
    ) by {
        assert(bit(m, s[i] as int));
    }
    lemma_over_all(s, g, p);
}

/// Everything in the concatenation over `s` is something that `g` gives for a square of `s`.
pub proof fn lemma_over_source<T>(s: Seq<u8>, g: spec_fn(u8) -> Seq<T>, k: int) -> (r: (int, int))
    requires
        0 <= k < over(s, g).len(),
    ensures
        0 <= r.0 < s.len(),
        0 <= r.1 < g(s[r.0]).len(),
        over(s, g)[k] == g(s[r.0])[r.1],
    decreases s.len(),
{
    if k < g(s[0]).len() {
        (0, k)
    } else {
        let rest = s.drop_first();
        let r = lemma_over_source(rest, g, k - g(s[0]).len());
        assert(rest[r.0] == s[r.0 + 1]);
        (r.0 + 1, r.1)
    }
}

/// Where what `g` gives for one square differs pairwise, and differs from what it gives for
/// any other square, everything in the concatenation over squares that differ pairwise
/// differs pairwise.
pub proof fn lemma_over_distinct<T>(
    s: Seq<u8>,
    g: spec_fn(u8) -> Seq<T>,
    differ: spec_fn(T, T) -> bool,
)
    requires
        forall|a: int, b: int| 0 <= a < b < s.len() ==> s[a] != s[b],
        forall|a: int, k: int, l: int|
            0 <= a < s.len() && 0 <= k < l < g(s[a]).len() ==> #[trigger] differ(
                g(s[a])[k],
                g(s[a])[l],
            ),
        forall|a: int, b: int, k: int, l: int|
            0 <= a < s.len() && 0 <= b < s.len() && a != b && 0 <= k < g(s[a]).len() && 0 <= l < g(
                s[b],
            ).len() ==> #[trigger] differ(g(s[a])[k], g(s[b])[l]),
    ensures
        forall|i: int, j: int|
            0 <= i < j < over(s, g).len() ==> #[trigger] differ(over(s, g)[i], over(s, g)[j]),
    decreases s.len(),
{
    if s.len() > 0 {
        let rest = s.drop_first();
        let head = g(s[0]);
        assert forall|a: int, k: int, l: int|
            0 <= a < rest.len() && 0 <= k < l < g(rest[a]).len() implies #[trigger] differ(
            g(rest[a])[k],
            g(rest[a])[l],
        ) by {
            assert(rest[a] == s[a + 1]);
        }
        assert forall|a: int, b: int, k: int, l: int|
            0 <= a < rest.len() && 0 <= b < rest.len() && a != b && 0 <= k < g(rest[a]).len() && 0
                <= l < g(rest[b]).len() implies #[trigger] differ(g(rest[a])[k], g(rest[b])[l]) by {
            assert(rest[a] == s[a + 1]);
            assert(rest[b] == s[b + 1]);
        }
        assert forall|a: int, b: int| 0 <= a < b < rest.len() implies rest[a] != rest[b] by {
            assert(rest[a] == s[a + 1]);
            assert(rest[b] == s[b + 1]);
        }
        lemma_over_distinct(rest, g, differ);
        assert forall|i: int, j: int| 0 <= i < j < over(s, g).len() implies #[trigger] differ(
            over(s, g)[i],
            over(s, g)[j],
        ) by {
            if j < head.len() {
                assert(over(s, g)[i] == g(s[0])[i]);
                assert(over(s, g)[j] == g(s[0])[j]);
            } else if i < head.len() {
                let r = lemma_over_source(rest, g, j - head.len());
                assert(rest[r.0] == s[r.0 + 1]);
                assert(over(s, g)[i] == g(s[0])[i]);
                assert(over(s, g)[j] == g(s[r.0 + 1])[r.1]);
            } else {
                assert(over(s, g)[i] == over(rest, g)[i - head.len()]);
                assert(over(s, g)[j] == over(rest, g)[j - head.len()]);
            }
        }
    }
}

/// Where what `g` gives for one member differs pairwise, and differs from what it gives for
/// any other member, everything that comes of `m` differs pairwise.
pub proof fn lemma_each_distinct<T>(m: u64, g: spec_fn(u8) -> Seq<T>, differ: spec_fn(T, T) -> bool)
    requires
        forall|f: u8, k: int, l: int|
            bit(m, f as int) && 0 <= k < l < g(f).len() ==> #[trigger] differ(g(f)[k], g(f)[l]),
        forall|f1: u8, f2: u8, k: int, l: int|
            bit(m, f1 as int) && bit(m, f2 as int) && f1 != f2 && 0 <= k < g(f1).len() && 0 <= l
                < g(f2).len() ==> #[trigger] differ(g(f1)[k], g(f2)[l]),
    ensures
        forall|i: int, j: int|
            0 <= i < j < each(m, g).len() ==> #[trigger] differ(each(m, g)[i], each(m, g)[j]),
{
    lemma_squares_sorted(m, 0);
    let s = squares(m);
    assert forall|a: int| 0 <= a < s.len() implies bit(m, #[trigger] s[a] as int) by {}
    lemma_over_distinct(s, g, differ);
}

/// What `g` gives for a square of `s` is in the concatenation over `s`.
pub proof fn lemma_over_has<T>(s: Seq<u8>, g: spec_fn(u8) -> Seq<T>, i: int, j: int) -> (k: int)
    requires
        0 <= i < s.len(),
        0 <= j < g(s[i]).len(),
    ensures
        0 <= k < over(s, g).len(),
        over(s, g)[k] == g(s[i])[j],
    decreases s.len(),
{
    let head = g(s[0]);
    if i == 0 {
        j
    } else {
        let rest = s.drop_first();
        assert(rest[i - 1] == s[i]);
        let k = lemma_over_has(rest, g, i - 1, j);
        head.len() + k
    }
}

/// What `g` gives for a member of `m` is in what comes of `m`.
pub proof fn lemma_each_has<T>(m: u64, g: spec_fn(u8) -> Seq<T>, f: u8, j: int) -> (k: int)
    requires
        bit(m, f as int),
        0 <= j < g(f).len(),
    ensures
        0 <= k < each(m, g).len(),
        each(m, g)[k] == g(f)[j],
{
    lemma_squares_sorted(m, 0);
    let s = squares(m);
    assert(s.contains(f));
    let i = choose|i: int| 0 <= i < s.len() && s[i] == f;
    lemma_over_has(s, g, i, j)
}

/// What is among what `g` gives for a member of `m` is among what comes of `m`.
pub proof fn lemma_each_contains<T>(m: u64, g: spec_fn(u8) -> Seq<T>, f: u8, x: T)
    requires
        bit(m, f as int),
        g(f).contains(x),
    ensures
        each(m, g).contains(x),
{
    let s = g(f);
    let j = choose|j: int| 0 <= j < s.len() && s[j] == x;
    let k = lemma_each_has(m, g, f, j);
}

/// Testing a square against a one-square mask is asking for membership.
pub proof fn lemma_bit_test(m: u64, sq: u8)
    requires
        sq < 64,
    ensures
        (m & (1u64 << sq) != 0) == bit(m, sq as int),
{
    let k = sq as u64;
    assert((m & (1u64 << sq) != 0) == ((m >> k) & 1 == 1)) by (bit_vector)
        requires
            sq < 64,
            k == sq,
    ;
}

/// Square `to` is a knight's jump away from square `from`.
pub open spec fn knight_jump(from: int, to: int) -> bool {
    let df = to % 8 - from % 8;
    let dr = to / 8 - from / 8;
    0 <= from < 64 && 0 <= to < 64 && ((df == 1 || df == -1) && (dr == 2 || dr == -2) || (df == 2
        || df == -2) && (dr == 1 || dr == -1))
}

/// Square `to` is next to square `from`, along a rank, a file or a diagonal.
pub open spec fn king_step(from: int, to: int) -> bool {
    let df = to % 8 - from % 8;
    let dr = to / 8 - from / 8;
    0 <= from < 64 && 0 <= to < 64 && from != to && -1 <= df <= 1 && -1 <= dr <= 1
}

/// Square `to` is one of the two squares that a pawn of side `turn` on `from` attacks
/// (`true` is white, which moves up the board).
pub open spec fn pawn_hit(turn: bool, from: int, to: int) -> bool {
    let df = to % 8 - from % 8;
    let dr = to / 8 - from / 8;
    0 <= from < 64 && 0 <= to < 64 && (df == 1 || df == -1) && dr == (if turn {
        1int
    } else {
        -1
    })
}

/// A knight's jump, as a difference of square indices and a condition on the file it
/// starts from.
pub proof fn lemma_knight_jump_offsets(from: int, to: int)
    ensures
        knight_jump(from, to) == (0 <= from < 64 && 0 <= to < 64 && ((to == from + 6 && from % 8
            >= 2) || (to == from + 10 && from % 8 <= 5) || (to == from - 6 && from % 8 <= 5) || (to
            == from - 10 && from % 8 >= 2) || (to == from + 15 && from % 8 >= 1) || (to == from
            + 17 && from % 8 <= 6) || (to == from - 15 && from % 8 <= 6) || (to == from - 17
            && from % 8 >= 1))),
{
    if 0 <= from < 64 && 0 <= to < 64 {
        let ff = from % 8;
        let fr = from / 8;
        let tf = to % 8;
        let tr = to / 8;
        assert(from == 8 * fr + ff && to == 8 * tr + tf);
    }
}

/// A king's step, as a difference of square indices and a condition on the file it
/// starts from.
pub proof fn lemma_king_step_offsets(from: int, to: int)
    ensures
        king_step(from, to) == (0 <= from < 64 && 0 <= to < 64 && (to == from + 8 || to == from
            - 8 || ((to == from + 1 || to == from + 9 || to == from - 7) && from % 8 <= 6) || ((to
            == from - 1 || to == from - 9 || to == from + 7) && from % 8 >= 1))),
{
    if 0 <= from < 64 && 0 <= to < 64 {
        let ff = from % 8;
        let fr = from / 8;
        let tf = to % 8;
        let tr = to / 8;
        assert(from == 8 * fr + ff && to == 8 * tr + tf);
    }
}

/// A pawn's attack, as a difference of square indices and a condition on the file it
/// starts from.
pub proof fn lemma_pawn_hit_offsets(turn: bool, from: int, to: int)
    ensures
        pawn_hit(turn, from, to) == (0 <= from < 64 && 0 <= to < 64 && (if turn {
            (to == from + 9 && from % 8 <= 6) || (to == from + 7 && from % 8 >= 1)
        } else {
            (to == from - 7 && from % 8 <= 6) || (to == from - 9 && from % 8 >= 1)
        })),
{
    if 0 <= from < 64 && 0 <= to < 64 {
        let ff = from % 8;
        let fr = from / 8;
        let tf = to % 8;
        let tr = to / 8;
        assert(from == 8 * fr + ff && to == 8 * tr + tf);
    }
}

/// One step of every member in a direction: up the board (towards higher squares) or down.
pub open spec fn shift(m: u64, step: u8, up: bool) -> u64 {
    if up {
        m << step
    } else {
        m >> step
    }
}

/// One round of the sliding fill: it adds what the members off the blockers reach in one
/// more step without landing on the edge.
pub open spec fn fill_round(cur: u64, step: u8, blockers: u64, edge: u64, up: bool) -> u64 {
    cur | (shift(cur & !blockers, step, up) & !edge)
}

/// `n` further rounds of the sliding fill.
pub open spec fn fill(cur: u64, step: u8, blockers: u64, edge: u64, up: bool, n: nat) -> u64
    decreases n,
{
    if n == 0 {
        cur
    } else {
        fill(fill_round(cur, step, blockers, edge, up), step, blockers, edge, up, (n - 1) as nat)
    }
}

/// The sliding fill: every square that `pieces` reach by one to seven steps in one direction,
/// where a step never lands on `edge` and never starts from a blocker. The first blocker on a
/// ray is itself reached.
pub open spec fn slide(pieces: u64, step: u8, blockers: u64, edge: u64, up: bool) -> u64 {
    fill(shift(pieces, step, up) & !edge, step, blockers, edge, up, 6)
}

/// Square `t` lies on the half-line that starts next to square `f` and goes `df` files and
/// `dr` ranks further with every step (each of them -1, 0 or 1, files counted from file h).
pub open spec fn on_line(f: int, t: int, df: int, dr: int) -> bool {
    let a = t % 8 - f % 8;
    let b = t / 8 - f / 8;
    &&& 0 <= f < 64 && 0 <= t < 64
    &&& if df == 0 {
        a == 0
    } else if df > 0 {
        a >= 1
    } else {
        a <= -1
    }
    &&& if dr == 0 {
        b == 0
    } else if dr > 0 {
        b >= 1
    } else {
        b <= -1
    }
    &&& df != 0 && dr != 0 ==> (if df == dr {
        a == b
    } else {
        a == -b
    })
}

/// The square that a step of `step` squares, up or down the board, comes from when it lands
/// on `j`.
pub open spec fn from_of(j: int, step: u8, up: bool) -> int {
    if up {
        j - step
    } else {
        j + step
    }
}

/// Square `t` is reached from a square of `pieces` by exactly `k` steps of the sliding fill:
/// no step lands on `edge`, and no step but the first starts from a blocker.
pub open spec fn reached_in(
    pieces: u64,
    step: u8,
    blockers: u64,
    edge: u64,
    up: bool,
    t: int,
    k: nat,
) -> bool
    decreases k,
{
    let back = from_of(t, step, up);
    if k == 0 {
        false
    } else if k == 1 {
        0 <= t < 64 && bit(pieces, back) && !bit(edge, t)
    } else {
        0 <= t < 64 && reached_in(pieces, step, blockers, edge, up, back, (k - 1) as nat) && !bit(
            blockers,
            back,
        ) && !bit(edge, t)
    }
}

/// Square `t` is reached from a square of `pieces` by one to `n` steps of the sliding fill.
pub open spec fn reached_within(
    pieces: u64,
    step: u8,
    blockers: u64,
    edge: u64,
    up: bool,
    t: int,
    n: nat,
) -> bool {
    exists|k: nat| 1 <= k <= n && reached_in(pieces, step, blockers, edge, up, t, k)
}

/// A round may as well be the last as the first.
proof fn lemma_fill_last(cur: u64, step: u8, blockers: u64, edge: u64, up: bool, n: nat)
    ensures
        fill(cur, step, blockers, edge, up, n + 1) == fill_round(
            fill(cur, step, blockers, edge, up, n),
            step,
            blockers,
            edge,
            up,
        ),
    decreases n,
{
    let next = fill_round(cur, step, blockers, edge, up);
    assert(fill(cur, step, blockers, edge, up, n + 1) == fill(next, step, blockers, edge, up, n));
    if n > 0 {
        lemma_fill_last(next, step, blockers, edge, up, (n - 1) as nat);
        assert(fill(cur, step, blockers, edge, up, n) == fill(
            next,
            step,
            blockers,
            edge,
            up,
            (n - 1) as nat,
        ));
    }
}

/// After `n` rounds the fill holds exactly the squares reached by one to `n + 1` steps.
proof fn lemma_fill_reach(pieces: u64, step: u8, blockers: u64, edge: u64, up: bool, n: nat)
    requires
        step < 64,
    ensures
        forall|t: int|
            #[trigger] bit(
                fill(shift(pieces, step, up) & !edge, step, blockers, edge, up, n),
                t,
            ) == reached_within(pieces, step, blockers, edge, up, t, n + 1),
    decreases n,
{
    broadcast use lemma_bit_and, lemma_bit_or, lemma_bit_not, lemma_bit_shl, lemma_bit_shr;

    let first = shift(pieces, step, up) & !edge;
    let now = fill(first, step, blockers, edge, up, n);
    if n == 0 {
        assert forall|t: int| #[trigger] bit(now, t) == reached_within(
            pieces,
            step,
            blockers,
            edge,
            up,
            t,
            1,
        ) by {
            if bit(now, t) {
                assert(reached_in(pieces, step, blockers, edge, up, t, 1));
            }
        }
    } else {
        let m = (n - 1) as nat;
        let before = fill(first, step, blockers, edge, up, m);
        lemma_fill_reach(pieces, step, blockers, edge, up, m);
        lemma_fill_last(first, step, blockers, edge, up, m);
        assert forall|t: int| #[trigger] bit(now, t) == reached_within(
            pieces,
            step,
            blockers,
            edge,
            up,
            t,
            n + 1,
        ) by {
            let back = from_of(t, step, up);
            if bit(now, t) {
                if bit(before, t) {
                    let k = choose|k: nat|
                        1 <= k <= n && reached_in(pieces, step, blockers, edge, up, t, k);
                    assert(reached_in(pieces, step, blockers, edge, up, t, k));
                } else {
                    assert(bit(before, back));
                    let k = choose|k: nat|
                        1 <= k <= n && reached_in(pieces, step, blockers, edge, up, back, k);
                    assert(reached_in(pieces, step, blockers, edge, up, t, k + 1));
                }
            }
            if reached_within(pieces, step, blockers, edge, up, t, n + 1) {
                let k = choose|k: nat|
                    1 <= k <= n + 1 && reached_in(pieces, step, blockers, edge, up, t, k);
                if k <= n {
                    assert(reached_within(pieces, step, blockers, edge, up, t, n));
                    assert(bit(before, t));
                } else {
                    assert(reached_in(pieces, step, blockers, edge, up, back, (k - 1) as nat));
                    assert(reached_within(pieces, step, blockers, edge, up, back, n));
                    assert(bit(before, back));
                }
            }
        }
    }
}

/// The sliding fill, square by square: it holds exactly the squares reached by one to seven
/// steps.
pub proof fn lemma_slide_reach(pieces: u64, step: u8, blockers: u64, edge: u64, up: bool)
    requires
        step < 64,
    ensures
        forall|t: int|
            #[trigger] bit(slide(pieces, step, blockers, edge, up), t) == reached_within(
                pieces,
                step,
                blockers,
                edge,
                up,
                t,
                7,
            ),
{
    lemma_fill_reach(pieces, step, blockers, edge, up, 6);
}

} // verus!
