//! The position: a board with its side to move, castling rights and en-passant target; the
//! visitor that builds successor positions; and the position as a game to explore.

use crate::bit_board::fen::{parse_fen, read_fen};
use crate::bit_board::planes::BitBoard;
use crate::bit_board::visitor::{origin_of, Emission, OnMove, Origin, Rights, Step};
use crate::game::{uci_text, ChessGame, Move};
use vstd::prelude::*;

verus! {

/// A packed move: `0b-pccvvvuuuyyyxxx`, where `xxx` and `yyy` are file and rank of the square
/// left, `uuu` and `vvv` those of the square reached, `cc` the promotion piece (`00` knight,
/// `01` bishop, `10` rook, `11` queen) and `p` the promotion flag.
pub struct BBMove {
    _packed: u16,
}

/// A marker for a fact that is known when the program is compiled.
pub struct BoolExists<const _N: bool> {}

/// A position: the board, the side to move (`true` is white), the four castling rights and
/// the en-passant target, which is the square that a capturing pawn would land on.
#[derive(Clone, Copy, Debug, PartialEq, Eq, Structural)]
pub struct BitBoardGame {
    pub board: BitBoard,
    pub turn: bool,
    pub white_qs: bool,
    pub white_ks: bool,
    pub black_qs: bool,
    pub black_ks: bool,
    pub ep: Option<u8>,
}

/// A legal move together with the position that it leads to.
#[derive(Clone, Copy, Debug, PartialEq, Eq, Structural)]
pub struct BitBoardGameMove {
    pub mov: u16,
    pub bbg: BitBoardGame,
}

/// The two promotion bits of a packed move for the piece with tag `piece`.
pub open spec fn promo_code(piece: u8) -> u16 {
    let kind = piece % 8;
    if kind == 1 {
        1
    } else if kind == 2 {
        2
    } else if kind == 3 {
        3
    } else {
        0
    }
}

/// The packed move from `from` to `to`.
pub open spec fn pack(from: u8, to: u8) -> u16 {
    (to * 64 + from) as u16
}

impl Emission {
    /// The castling rights that are left after the squares `from` and `to` were touched: a
    /// move that leaves or reaches a corner ends the right that belongs to that corner.
    pub open spec fn rights_after(self, from: u8, to: u8) -> Rights {
        let r = self.origin.rights;
        Rights {
            wq: from != 7 && to != 7 && r.wq,
            wk: from != 0 && to != 0 && r.wk,
            bq: from != 63 && to != 63 && r.bq,
            bk: from != 56 && to != 56 && r.bk,
        }
    }

    /// The castling rights that are left to the side that did not move after the mover's king
    /// went from `from` to `to`.
    pub open spec fn rights_after_king(self, from: u8, to: u8) -> Rights {
        let r = self.rights_after(from, to);
        let t = self.origin.turn;
        Rights { wq: r.wq && !t, wk: r.wk && !t, bq: r.bq && t, bk: r.bk && t }
    }

    /// The board after the step.
    pub open spec fn board_after(self) -> BitBoard {
        let b = self.origin.board;
        let t = self.origin.turn;
        match self.step {
            Step::Move { from, to } => b.moved(from, to),
            Step::KingMove { from, to } => b.moved(from, to),
            Step::EnPassant { from, to } => b.moved(from, to).cleared(
                if t {
                    (to - 8) as u8
                } else {
                    (to + 8) as u8
                },
            ),
            Step::PawnPush2 { from } => b.moved(
                from,
                if t {
                    (from + 16) as u8
                } else {
                    (from - 16) as u8
                },
            ),
            Step::Promotion { from, to, piece } => b.cleared(from).placed(to, piece),
            Step::QsCastle => if t {
                b.moved(7, 4).moved(3, 5)
            } else {
                b.moved(63, 60).moved(59, 61)
            },
            Step::KsCastle => if t {
                b.moved(0, 2).moved(3, 1)
            } else {
                b.moved(56, 58).moved(59, 57)
            },
        }
    }

    /// The castling rights after the step.
    pub open spec fn rights_left(self) -> Rights {
        let r = self.origin.rights;
        let t = self.origin.turn;
        match self.step {
            Step::Move { from, to } => self.rights_after(from, to),
            Step::KingMove { from, to } => self.rights_after_king(from, to),
            Step::EnPassant { from, to } => r,
            Step::PawnPush2 { from } => r,
            Step::Promotion { from, to, piece } => self.rights_after(to, to),
            Step::QsCastle => Rights { wq: r.wq && !t, wk: r.wk && !t, bq: r.bq && t, bk: r.bk && t },
            Step::KsCastle => Rights { wq: r.wq && !t, wk: r.wk && !t, bq: r.bq && t, bk: r.bk && t },
        }
    }

    /// The en-passant target after the step: the square that a double step passed over.
    pub open spec fn ep_after(self) -> Option<u8> {
        match self.step {
            Step::PawnPush2 { from } => Some(
                if self.origin.turn {
                    (from + 8) as u8
                } else {
                    (from - 8) as u8
                },
            ),
            _ => None,
        }
    }

    /// The position that the step leads to: the other side is to move.
    pub open spec fn successor(self) -> BitBoardGame {
        let r = self.rights_left();
        BitBoardGame {
            board: self.board_after(),
            turn: !self.origin.turn,
            white_qs: r.wq,
            white_ks: r.wk,
            black_qs: r.bq,
            black_ks: r.bk,
            ep: self.ep_after(),
        }
    }

    /// The step as a packed move. Castling is the king's move of two squares.
    pub open spec fn packed(self) -> u16 {
        let t = self.origin.turn;
        match self.step {
            Step::Move { from, to } => pack(from, to),
            Step::KingMove { from, to } => pack(from, to),
            Step::EnPassant { from, to } => pack(from, to),
            Step::PawnPush2 { from } => pack(
                from,
                if t {
                    (from + 16) as u8
                } else {
                    (from - 16) as u8
                },
            ),
            Step::Promotion { from, to, piece } => (16384 + 4096 * promo_code(piece) + pack(
                from,
                to,
            )) as u16,
            Step::QsCastle => if t {
                pack(3, 5)
            } else {
                pack(59, 61)
            },
            Step::KsCastle => if t {
                pack(3, 1)
            } else {
                pack(59, 57)
            },
        }
    }

    /// The step as the move that the materialising visitor records.
    pub open spec fn materialise(self) -> BitBoardGameMove {
        BitBoardGameMove { mov: self.packed(), bbg: self.successor() }
    }
}

/// The moves that the materialising visitor records for a run of emissions.
pub open spec fn materialised(log: Seq<Emission>) -> Seq<BitBoardGameMove> {
    log.map_values(|e: Emission| e.materialise())
}

/// The packed move from `from` to `to`.
fn pack_squares(from: u8, to: u8) -> (r: u16)
    requires
        from < 64,
        to < 64,
    ensures
        r == pack(from, to),
{
    assert(((to as u16) << 6) == to * 64) by (bit_vector)
        requires
            to < 64,
    ;
    ((to as u16) << 6) + from as u16
}

/// The visitor that builds the successor position of every move and keeps them in a list.
pub struct GenericMoveGenerator {
    pub next: Vec<BitBoardGameMove>,
    pub log: Ghost<Seq<Emission>>,
}

impl GenericMoveGenerator {
    /// Records the successor `next_state` reached by the packed move `next_move`, which is
    /// what the emission `e` materialises to.
    fn record(&mut self, next_move: u16, next_state: BitBoardGame, e: Ghost<Emission>)
        requires
            old(self).inv(),
            next_move == e@.packed(),
            next_state == e@.successor(),
        ensures
            final(self).inv(),
            final(self).emitted() == old(self).emitted().push(e@),
    {
        let next_bbgm = BitBoardGameMove { mov: next_move, bbg: next_state };
        self.next.push(next_bbgm);
        proof {
            self.log@ = self.log@.push(e@);
            assert(self.next@ =~= materialised(self.log@));
        }
    }
}

impl OnMove for GenericMoveGenerator {
    open spec fn emitted(&self) -> Seq<Emission> {
        self.log@
    }

    /// The list holds, move for move, what the emissions received materialise to.
    open spec fn inv(&self) -> bool {
        self.next@ == materialised(self.log@)
    }

    fn on_move<const WQ: bool, const WK: bool, const BQ: bool, const BK: bool>(
        &mut self,
        turn: bool,
        me: &BitBoard,
        from: u8,
        to: u8,
    ) {
        let mut b = *me;
        b.mov(from, to);
        let next_state = BitBoardGame::from_parts(
            b,
            !turn,
            from != 7 && to != 7 && WQ,
            from != 0 && to != 0 && WK,
            from != 63 && to != 63 && BQ,
            from != 56 && to != 56 && BK,
            None,
        );
        let next_move = pack_squares(from, to);
        self.record(
            next_move,
            next_state,
            Ghost(origin_of(WQ, WK, BQ, BK, turn, *me).emit(Step::Move { from, to })),
        );
    }

    fn on_king_move<const WQ: bool, const WK: bool, const BQ: bool, const BK: bool>(
        &mut self,
        turn: bool,
        me: &BitBoard,
        from: u8,
        to: u8,
    ) {
        let mut b = *me;
        b.mov(from, to);
        let next_state = BitBoardGame::from_parts(
            b,
            !turn,
            from != 7 && to != 7 && WQ && !turn,
            from != 0 && to != 0 && WK && !turn,
            from != 63 && to != 63 && BQ && turn,
            from != 56 && to != 56 && BK && turn,
            None,
        );
        let next_move = pack_squares(from, to);
        self.record(
            next_move,
            next_state,
            Ghost(origin_of(WQ, WK, BQ, BK, turn, *me).emit(Step::KingMove { from, to })),
        );
    }

    fn on_ep_move<const WQ: bool, const WK: bool, const BQ: bool, const BK: bool>(
        &mut self,
        turn: bool,
        me: &BitBoard,
        from: u8,
        to: u8,
    ) {
        let mut b = *me;
        b.mov(from, to);
        if turn {
            b.clear(to - 8);
        } else {
            b.clear(to + 8);
        }
        let next_state = BitBoardGame::from_parts(b, !turn, WQ, WK, BQ, BK, None);
        let next_move = pack_squares(from, to);
        self.record(
            next_move,
            next_state,
            Ghost(origin_of(WQ, WK, BQ, BK, turn, *me).emit(Step::EnPassant { from, to })),
        );
    }

    fn on_pawn_push2<const WQ: bool, const WK: bool, const BQ: bool, const BK: bool>(
        &mut self,
        turn: bool,
        me: &BitBoard,
        from: u8,
    ) {
        let mut b = *me;
        let (to, passed) = if turn {
            (from + 16, from + 8)
        } else {
            (from - 16, from - 8)
        };
        b.mov(from, to);
        let next_state = BitBoardGame::from_parts(b, !turn, WQ, WK, BQ, BK, Some(passed));
        let next_move = pack_squares(from, to);
        self.record(
            next_move,
            next_state,
            Ghost(origin_of(WQ, WK, BQ, BK, turn, *me).emit(Step::PawnPush2 { from })),
        );
    }

    fn on_promotion<const WQ: bool, const WK: bool, const BQ: bool, const BK: bool>(
        &mut self,
        turn: bool,
        me: &BitBoard,
        from: u8,
        to: u8,
        piece: u8,
    ) {
        let mut b = *me;
        b.clear(from);
        b.set(to, piece);
        let next_state = BitBoardGame::from_parts(
            b,
            !turn,
            to != 7 && WQ,
            to != 0 && WK,
            to != 63 && BQ,
            to != 56 && BK,
            None,
        );
        let kind = piece % 8;
        let code: u16 = if kind == 1 {
            1
        } else if kind == 2 {
            2
        } else if kind == 3 {
            3
        } else {
            0
        };
        let next_move = 16384 + 4096 * code + pack_squares(from, to);
        self.record(
            next_move,
            next_state,
            Ghost(origin_of(WQ, WK, BQ, BK, turn, *me).emit(Step::Promotion { from, to, piece })),
        );
    }

    fn on_qs_castle<const WQ: bool, const WK: bool, const BQ: bool, const BK: bool>(
        &mut self,
        turn: bool,
        me: &BitBoard,
    ) {
        let mut b = *me;
        let ghost e = origin_of(WQ, WK, BQ, BK, turn, *me).emit(Step::QsCastle);
        if turn {
            b.mov(7, 4);
            b.mov(3, 5);
            let next_state = BitBoardGame::from_parts(b, !turn, false, false, BQ, BK, None);
            let next_move = pack_squares(3, 5);
            self.record(next_move, next_state, Ghost(e));
        } else {
            b.mov(63, 60);
            b.mov(59, 61);
            let next_state = BitBoardGame::from_parts(b, !turn, WQ, WK, false, false, None);
            let next_move = pack_squares(59, 61);
            self.record(next_move, next_state, Ghost(e));
        }
    }

    fn on_ks_castle<const WQ: bool, const WK: bool, const BQ: bool, const BK: bool>(
        &mut self,
        turn: bool,
        me: &BitBoard,
    ) {
        let mut b = *me;
        let ghost e = origin_of(WQ, WK, BQ, BK, turn, *me).emit(Step::KsCastle);
        if turn {
            b.mov(0, 2);
            b.mov(3, 1);
            let next_state = BitBoardGame::from_parts(b, !turn, false, false, BQ, BK, None);
            let next_move = pack_squares(3, 1);
            self.record(next_move, next_state, Ghost(e));
        } else {
            b.mov(56, 58);
            b.mov(59, 57);
            let next_state = BitBoardGame::from_parts(b, !turn, WQ, WK, false, false, None);
            let next_move = pack_squares(59, 57);
            self.record(next_move, next_state, Ghost(e));
        }
    }
}

impl BitBoardGame {
    /// The position made of its parts.
    pub fn from_parts(
        board: BitBoard,
        turn: bool,
        white_qs: bool,
        white_ks: bool,
        black_qs: bool,
        black_ks: bool,
        ep: Option<u8>,
    ) -> (r: Self)
        ensures
            r == (BitBoardGame { board, turn, white_qs, white_ks, black_qs, black_ks, ep }),
    {
        Self { board, turn, white_qs, white_ks, black_qs, black_ks, ep }
    }

    /// What the generator's callbacks are told of this position.
    pub open spec fn origin(&self) -> Origin {
        origin_of(self.white_qs, self.white_ks, self.black_qs, self.black_ks, self.turn, self.board)
    }

    /// The emissions of the position: one for each legal move.
    pub open spec fn emissions(&self) -> Seq<Emission> {
        self.origin().emissions(self.ep)
    }

    /// The en-passant target, if any, is a square of the board.
    pub open spec fn valid(&self) -> bool {
        self.ep matches Some(x) ==> x < 64
    }

    /// Hands the visitor every legal move of the position: one call for each.
    pub fn proc_movs<MOV: OnMove>(&self, mov: &mut MOV)
        requires
            self.valid(),
            old(mov).inv(),
        ensures
            final(mov).inv(),
            final(mov).emitted() == old(mov).emitted() + self.emissions(),
    {
        let turn = self.turn;
        match (self.white_qs, self.white_ks, self.black_qs, self.black_ks) {
            (true, true, true, true) => self.board.gen_moves::<true, true, true, true, MOV>(
                turn,
                mov,
                self.ep,
            ),
            (true, true, true, false) => self.board.gen_moves::<true, true, true, false, MOV>(
                turn,
                mov,
                self.ep,
            ),
            (true, true, false, true) => self.board.gen_moves::<true, true, false, true, MOV>(
                turn,
                mov,
                self.ep,
            ),
            (true, true, false, false) => self.board.gen_moves::<true, true, false, false, MOV>(
                turn,
                mov,
                self.ep,
            ),
            (true, false, true, true) => self.board.gen_moves::<true, false, true, true, MOV>(
                turn,
                mov,
                self.ep,
            ),
            (true, false, true, false) => self.board.gen_moves::<true, false, true, false, MOV>(
                turn,
                mov,
                self.ep,
            ),
            (true, false, false, true) => self.board.gen_moves::<true, false, false, true, MOV>(
                turn,
                mov,
                self.ep,
            ),
            (true, false, false, false) => self.board.gen_moves::<true, false, false, false, MOV>(
                turn,
                mov,
                self.ep,
            ),
            (false, true, true, true) => self.board.gen_moves::<false, true, true, true, MOV>(
                turn,
                mov,
                self.ep,
            ),
            (false, true, true, false) => self.board.gen_moves::<false, true, true, false, MOV>(
                turn,
                mov,
                self.ep,
            ),
            (false, true, false, true) => self.board.gen_moves::<false, true, false, true, MOV>(
                turn,
                mov,
                self.ep,
            ),
            (false, true, false, false) => self.board.gen_moves::<false, true, false, false, MOV>(
                turn,
                mov,
                self.ep,
            ),
            (false, false, true, true) => self.board.gen_moves::<false, false, true, true, MOV>(
                turn,
                mov,
                self.ep,
            ),
            (false, false, true, false) => self.board.gen_moves::<false, false, true, false, MOV>(
                turn,
                mov,
                self.ep,
            ),
            (false, false, false, true) => self.board.gen_moves::<false, false, false, true, MOV>(
                turn,
                mov,
                self.ep,
            ),
            (false, false, false, false) => self.board.gen_moves::<
                false,
                false,
                false,
                false,
                MOV,
            >(turn, mov, self.ep),
        }
    }
}

/// The board at the start of a game.
pub open spec fn start_board() -> BitBoard {
    BitBoard {
        b0: 0x7E0000000000007E,
        b1: 0x9900000000000099,
        b2: 0x4AFF00000000FF4A,
        b3: 0x000000000000FFFF,
    }
}

/// The position at the start of a game: white to move, every castling right, no en-passant
/// target.
pub open spec fn start_position() -> BitBoardGame {
    BitBoardGame {
        board: start_board(),
        turn: true,
        white_qs: true,
        white_ks: true,
        black_qs: true,
        black_ks: true,
        ep: None,
    }
}

impl ChessGame for BitBoardGame {
    type Move = BitBoardGameMove;

    type UnMove = BitBoardGame;

    open spec fn wf(&self) -> bool {
        self.valid()
    }

    /// One move for each emission of the position, in the generator's order.
    open spec fn legal(&self) -> Seq<BitBoardGameMove> {
        materialised(self.emissions())
    }

    /// A move carries the position that it leads to.
    open spec fn after(&self, mov: &BitBoardGameMove) -> Self {
        mov.bbg
    }

    /// What takes a move back is the position before it.
    open spec fn undoes(un: &BitBoardGame, before: &Self, after: &Self) -> bool {
        *un == *before
    }

    fn new() -> (r: Self)
        ensures
            r == start_position(),
    {
        BitBoardGame {
            board: BitBoard {
                b0: 0x7E0000000000007E,
                b1: 0x9900000000000099,
                b2: 0x4AFF00000000FF4A,
                b3: 0x000000000000FFFF,
            },
            turn: true,
            white_qs: true,
            white_ks: true,
            black_qs: true,
            black_ks: true,
            ep: None,
        }
    }

    fn from_fen(fen: &str) -> (r: Option<Self>)
        ensures
            match parse_fen(fen@) {
                Some(record) => r matches Some(g) && record.describes(g),
                None => r is None,
            },
    {
        read_fen(fen)
    }

    fn moves(&self) -> (r: Vec<Self::Move>) {
        let mut genny = GenericMoveGenerator { next: Vec::with_capacity(240), log: Ghost(Seq::empty()) };
        assert(genny.next@ =~= materialised(genny.log@));
        self.proc_movs(&mut genny);
        assert(genny.log@ =~= self.emissions());
        genny.next
    }

    fn do_move(&mut self, mov: &Self::Move) -> (un: Self::UnMove) {
        proof {
            self.lemma_legal_valid();
        }
        let un = *self;
        *self = mov.bbg;
        un
    }

    fn unmove(&mut self, mov: &Self::UnMove) {
        *self = *mov
    }
}

impl BitBoardGame {
    /// Every legal move is what a sound emission of this position materialises to, and leads
    /// to a position whose en-passant target, if any, is on the board.
    pub proof fn lemma_legal_valid(self)
        requires
            self.valid(),
        ensures
            self.legal().len() == self.emissions().len(),
            forall|k: int|
                0 <= k < self.legal().len() ==> (#[trigger] self.legal()[k])
                    == self.emissions()[k].materialise() && self.emissions()[k].origin
                    == self.origin() && self.emissions()[k].sound() && self.legal()[k].bbg.valid(),
    {
        self.origin().lemma_emissions_sound(self.ep);
    }
}

impl BitBoardGame {
    /// The position as text: its board.
    pub fn to_string(&self) -> (r: String)
        ensures
            r@ == crate::bit_board::show::board_text(self.board),
    {
        self.board.to_string()
    }
}

impl BitBoardGameMove {
    /// The move as text: the board of the position that it leads to.
    pub fn to_string(&self) -> (r: String)
        ensures
            r@ == crate::bit_board::show::board_text(self.bbg.board),
    {
        self.bbg.to_string()
    }
}

impl Move for BitBoardGameMove {
    open spec fn uci(&self) -> Seq<char> {
        uci_text(self.mov)
    }

    fn to_uci(&self) -> (r: String) {
        self.mov.to_uci()
    }
}

} // verus!
