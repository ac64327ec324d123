//! Bitboard chess move generation with machine-checked contracts.

pub mod bit_board;
pub mod bits;
pub mod board;
pub mod engine;
pub mod game;
pub mod notation;
pub mod perft_bb_mover;
pub mod pgn;
pub mod piece;
pub mod rays;
pub mod text;

use crate::game::ChessGame;
use vstd::prelude::*;

verus! {

/// The number of lines of play of `depth` half-moves that start from `g`.
pub open spec fn perft_count<Game: ChessGame>(g: Game, depth: nat) -> nat
    decreases depth, 0nat,
{
    if depth == 0 {
        1
    } else {
        perft_sum(g, g.legal(), (depth - 1) as nat)
    }
}

/// The number of lines of play of `depth + 1` half-moves that start from `g` with one of
/// `moves`.
pub open spec fn perft_sum<Game: ChessGame>(g: Game, moves: Seq<Game::Move>, depth: nat) -> nat
    decreases depth, moves.len() + 1,
{
    if moves.len() == 0 {
        0
    } else {
        perft_sum(g, moves.drop_last(), depth) + perft_count(g.after(&moves.last()), depth)
    }
}

/// With no half-move left after it, each move counts once.
pub proof fn lemma_perft_sum_zero<Game: ChessGame>(g: Game, moves: Seq<Game::Move>)
    ensures
        perft_sum(g, moves, 0) == moves.len(),
    decreases moves.len(),
{
    if moves.len() > 0 {
        lemma_perft_sum_zero(g, moves.drop_last());
        assert(perft_count(g.after(&moves.last()), 0) == 1);
        assert(perft_sum(g, moves, 0) == perft_sum(g, moves.drop_last(), 0) + perft_count(
            g.after(&moves.last()),
            0,
        ));
    }
}

/// The count over a prefix of the moves is no more than the count over all of them.
pub proof fn lemma_perft_sum_prefix<Game: ChessGame>(
    g: Game,
    moves: Seq<Game::Move>,
    n: int,
    depth: nat,
)
    requires
        0 <= n <= moves.len(),
    ensures
        perft_sum(g, moves.take(n), depth) <= perft_sum(g, moves, depth),
    decreases moves.len(),
{
    if n < moves.len() {
        assert(moves.drop_last().take(n) =~= moves.take(n));
        lemma_perft_sum_prefix(g, moves.drop_last(), n, depth);
    } else {
        assert(moves.take(n) =~= moves);
    }
}

/// Counts the lines of play of `limit` half-moves that start from `gs`, and leaves `gs` as it
/// was.
pub fn perft<Game: ChessGame>(gs: &mut Game, limit: usize) -> (r: usize)
    requires
        old(gs).wf(),
        perft_count(*old(gs), limit as nat) <= usize::MAX,
    ensures
        r == perft_count(*old(gs), limit as nat),
        *final(gs) == *old(gs),
    decreases limit,
{
    if limit == 0 {
        1
    } else if limit == 1 {
        proof {
            lemma_perft_sum_zero(*gs, gs.legal());
        }
        gs.moves().len()
    } else {
        let moves = gs.moves();
        let ghost depth = (limit - 2) as nat + 1;
        let mut total: usize = 0;
        let mut i: usize = 0;
        while i < moves.len()
            invariant
                i <= moves.len(),
                limit >= 2,
                depth == limit - 1,
                *gs == *old(gs),
                gs.wf(),
                moves@ == gs.legal(),
                perft_sum(*gs, moves@, depth) <= usize::MAX,
                total == perft_sum(*gs, moves@.take(i as int), depth),
            decreases moves.len() - i,
        {
            let ghost here = *gs;
            proof {
                assert(moves@.take(i + 1).drop_last() =~= moves@.take(i as int));
                assert(moves@.take(i + 1).last() == moves@[i as int]);
                lemma_perft_sum_prefix(here, moves@, i + 1, depth);
            }
            let unmov = gs.do_move(&moves[i]);
            total += perft(gs, limit - 1);
            gs.unmove(&unmov);
            i += 1;
        }
        assert(moves@.take(i as int) =~= moves@);
        total
    }
}

/// The count over the whole of the moves is no less than the count of the lines that start
/// with one of them.
pub proof fn lemma_perft_sum_part<Game: ChessGame>(
    g: Game,
    moves: Seq<Game::Move>,
    i: int,
    depth: nat,
)
    requires
        0 <= i < moves.len(),
    ensures
        perft_sum(g, moves.take(i), depth) + perft_count(g.after(&moves[i]), depth) <= perft_sum(
            g,
            moves,
            depth,
        ),
{
    assert(moves.take(i + 1).drop_last() =~= moves.take(i));
    assert(moves.take(i + 1).last() == moves[i]);
    lemma_perft_sum_prefix(g, moves, i + 1, depth);
}

/// Counts the lines of play of `limit` half-moves that start from `gs`, if their number can
/// be held, and leaves `gs` as it was.
pub fn perft_checked<Game: ChessGame>(gs: &mut Game, limit: usize) -> (r: Option<usize>)
    requires
        old(gs).wf(),
    ensures
        *final(gs) == *old(gs),
        match r {
            Some(n) => n == perft_count(*old(gs), limit as nat),
            None => perft_count(*old(gs), limit as nat) > usize::MAX,
        },
    decreases limit,
{
    if limit == 0 {
        Some(1)
    } else if limit == 1 {
        proof {
            lemma_perft_sum_zero(*gs, gs.legal());
        }
        Some(gs.moves().len())
    } else {
        let moves = gs.moves();
        let ghost depth = (limit - 2) as nat + 1;
        let mut total: usize = 0;
        let mut i: usize = 0;
        while i < moves.len()
            invariant
                i <= moves.len(),
                limit >= 2,
                depth == limit - 1,
                *gs == *old(gs),
                gs.wf(),
                moves@ == gs.legal(),
                total == perft_sum(*gs, moves@.take(i as int), depth),
            decreases moves.len() - i,
        {
            let ghost here = *gs;
            proof {
                assert(moves@.take(i + 1).drop_last() =~= moves@.take(i as int));
                assert(moves@.take(i + 1).last() == moves@[i as int]);
                lemma_perft_sum_part(here, moves@, i as int, depth);
            }
            let unmov = gs.do_move(&moves[i]);
            let below = perft_checked(gs, limit - 1);
            gs.unmove(&unmov);
            let sum = match below {
                Some(n) => total.checked_add(n),
                None => None,
            };
            match sum {
                Some(t) => {
                    total = t;
                },
                None => {
                    return None;
                },
            }
            i += 1;
        }
        assert(moves@.take(i as int) =~= moves@);
        Some(total)
    }
}

} // verus!
