//! Counting legal moves without building their successor positions.

use crate::bit_board::planes::BitBoard;
use crate::bit_board::position::BitBoardGame;
use crate::bit_board::visitor::{origin_of, Emission, OnMove, Step};
use crate::game::ChessGame;
use crate::{lemma_perft_sum_prefix, lemma_perft_sum_zero, perft_count, perft_sum};
use vstd::prelude::*;

verus! {

/// The visitor that counts the moves it is handed. The count stops at `u64::MAX`.
pub struct MoveCounter {
    pub counter: u64,
    pub log: Ghost<Seq<Emission>>,
}

/// A count that stops at `u64::MAX`.
pub open spec fn capped(n: nat) -> u64 {
    if n <= u64::MAX {
        n as u64
    } else {
        u64::MAX
    }
}

impl MoveCounter {
    /// A counter that has counted nothing.
    pub fn new() -> (r: Self)
        ensures
            r.inv(),
            r.counter == 0,
            r.emitted() == Seq::<Emission>::empty(),
    {
        MoveCounter { counter: 0, log: Ghost(Seq::empty()) }
    }

    fn count(&mut self, e: Ghost<Emission>)
        requires
            old(self).inv(),
        ensures
            final(self).inv(),
            final(self).emitted() == old(self).emitted().push(e@),
    {
        if self.counter < u64::MAX {
            self.counter += 1;
        }
        proof {
            self.log@ = self.log@.push(e@);
        }
    }
}

impl OnMove for MoveCounter {
    open spec fn emitted(&self) -> Seq<Emission> {
        self.log@
    }

    /// The counter holds the number of moves received.
    open spec fn inv(&self) -> bool {
        self.counter == capped(self.log@.len())
    }

    fn on_move<const WQ: bool, const WK: bool, const BQ: bool, const BK: bool>(
        &mut self,
        turn: bool,
        me: &BitBoard,
        from: u8,
        to: u8,
    ) {
        self.count(Ghost(origin_of(WQ, WK, BQ, BK, turn, *me).emit(Step::Move { from, to })));
    }

    fn on_king_move<const WQ: bool, const WK: bool, const BQ: bool, const BK: bool>(
        &mut self,
        turn: bool,
        me: &BitBoard,
        from: u8,
        to: u8,
    ) {
        self.count(Ghost(origin_of(WQ, WK, BQ, BK, turn, *me).emit(Step::KingMove { from, to })));
    }

    fn on_ep_move<const WQ: bool, const WK: bool, const BQ: bool, const BK: bool>(
        &mut self,
        turn: bool,
        me: &BitBoard,
        from: u8,
        to: u8,
    ) {
        self.count(Ghost(origin_of(WQ, WK, BQ, BK, turn, *me).emit(Step::EnPassant { from, to })));
    }

    fn on_pawn_push2<const WQ: bool, const WK: bool, const BQ: bool, const BK: bool>(
        &mut self,
        turn: bool,
        me: &BitBoard,
        from: u8,
    ) {
        self.count(Ghost(origin_of(WQ, WK, BQ, BK, turn, *me).emit(Step::PawnPush2 { from })));
    }

    fn on_promotion<const WQ: bool, const WK: bool, const BQ: bool, const BK: bool>(
        &mut self,
        turn: bool,
        me: &BitBoard,
        from: u8,
        to: u8,
        piece: u8,
    ) {
        self.count(
            Ghost(origin_of(WQ, WK, BQ, BK, turn, *me).emit(Step::Promotion { from, to, piece })),
        );
    }

    fn on_qs_castle<const WQ: bool, const WK: bool, const BQ: bool, const BK: bool>(
        &mut self,
        turn: bool,
        me: &BitBoard,
    ) {
        self.count(Ghost(origin_of(WQ, WK, BQ, BK, turn, *me).emit(Step::QsCastle)));
    }

    fn on_ks_castle<const WQ: bool, const WK: bool, const BQ: bool, const BK: bool>(
        &mut self,
        turn: bool,
        me: &BitBoard,
    ) {
        self.count(Ghost(origin_of(WQ, WK, BQ, BK, turn, *me).emit(Step::KsCastle)));
    }
}

impl BitBoardGame {
    /// The number of legal moves of the position, counted without building a successor. The
    /// count stops at `u64::MAX`.
    pub fn count_moves(&self) -> (r: u64)
        requires
            self.valid(),
        ensures
            r == capped(self.legal().len()),
    {
        let mut counter = MoveCounter::new();
        self.proc_movs(&mut counter);
        assert(counter.log@ =~= self.emissions());
        counter.counter
    }
}

/// Counts the lines of play of `depth` half-moves that start from `pos`. The moves of the last
/// half-move are counted without building their successors.
pub fn perft_fast(pos: &BitBoardGame, depth: usize) -> (r: usize)
    requires
        pos.valid(),
        perft_count(*pos, depth as nat) <= usize::MAX,
    ensures
        r == perft_count(*pos, depth as nat),
    decreases depth,
{
    if depth == 0 {
        1
    } else if depth == 1 {
        proof {
            lemma_perft_sum_zero(*pos, pos.legal());
        }
        pos.count_moves() as usize
    } else {
        let moves = pos.moves();
        let ghost rest = (depth - 1) as nat;
        let mut total: usize = 0;
        let mut i: usize = 0;
        proof {
            pos.lemma_legal_valid();
        }
        while i < moves.len()
            invariant
                i <= moves.len(),
                depth >= 2,
                rest == depth - 1,
                pos.valid(),
                moves@ == pos.legal(),
                forall|k: int| 0 <= k < moves@.len() ==> (#[trigger] moves@[k]).bbg.valid(),
                perft_sum(*pos, moves@, rest) <= usize::MAX,
                total == perft_sum(*pos, moves@.take(i as int), rest),
            decreases moves.len() - i,
        {
            proof {
                assert(moves@.take(i + 1).drop_last() =~= moves@.take(i as int));
                assert(moves@.take(i + 1).last() == moves@[i as int]);
                lemma_perft_sum_prefix(*pos, moves@, i + 1, rest);
            }
            total += perft_fast(&moves[i].bbg, depth - 1);
            i += 1;
        }
        assert(moves@.take(i as int) =~= moves@);
        total
    }
}

} // verus!
