//! The square-array board: sixty-four squares that hold a piece or none, and a game on it
//! whose moves are played and taken back in place. Square `y * 8 + x` is on file `x` (`a` is 0)
//! and rank `y` (the first rank is 0).

use crate::bit_board::fen::{parse_fen, placement_tags, read_fen, read_placement, FenRecord};
use crate::bit_board::planes::BitBoard;
use crate::text::chars_of;
use crate::game::{file_char, rank_char, ChessGame, Move};
use crate::piece::{ColouredPiece, Piece, PlayerColour};
use vstd::array::spec_array_update;
use vstd::prelude::*;
use vstd::string::StringExecFns;

verus! {

/// What a game keeps beside the board: the four castling rights and the file of the pawn
/// that has just taken a double step.
#[derive(Clone, Copy, PartialEq, Eq, Structural, Debug)]
pub struct GSMetaData {
    /// White kingside castle
    pub white_ks_castle: bool,
    /// Black kingside castle
    pub black_ks_castle: bool,
    /// White queenside castle
    pub white_qs_castle: bool,
    /// Black queenside castle
    pub black_qs_castle: bool,
    pub enpasant_col: Option<u8>,
}

/// A move with what is needed to take it back: the piece promoted to, the piece taken,
/// whether it is a capture en passant, and what the game kept beside the board before it.
#[derive(Debug, PartialEq, Eq, Structural, Clone, Copy)]
pub struct FesMoveDet {
    pub from: u8,
    pub to: u8,
    pub promo: Option<Piece>,
    pub take: Option<Piece>,
    pub enpas: bool,
    pub meta: GSMetaData,
}

/// The move from `from` to `to` with its details.
pub open spec fn detailed(
    from: int,
    to: int,
    promo: Option<Piece>,
    take: Option<Piece>,
    enpas: bool,
    meta: GSMetaData,
) -> FesMoveDet {
    FesMoveDet { from: from as u8, to: to as u8, promo, take, enpas, meta }
}

impl FesMoveDet {
    /// Appends a move that takes nothing.
    pub fn push_basic(vec: &mut Vec<FesMoveDet>, from: usize, to: usize, meta: &GSMetaData)
        requires
            from < 64,
            to < 64,
        ensures
            final(vec)@ == old(vec)@.push(detailed(from as int, to as int, None, None, false, *meta)),
    {
        vec.push(
            FesMoveDet {
                from: from as u8,
                to: to as u8,
                promo: None,
                take: None,
                enpas: false,
                meta: *meta,
            },
        )
    }

    /// Appends a move that takes `take`, if it takes anything.
    pub fn push_take(
        vec: &mut Vec<FesMoveDet>,
        from: usize,
        to: usize,
        take: Option<Piece>,
        meta: &GSMetaData,
    )
        requires
            from < 64,
            to < 64,
        ensures
            final(vec)@ == old(vec)@.push(detailed(from as int, to as int, None, take, false, *meta)),
    {
        vec.push(
            FesMoveDet { from: from as u8, to: to as u8, promo: None, take, enpas: false, meta: *meta },
        )
    }

    /// Appends a promotion to `promo`.
    pub fn push_promo(
        vec: &mut Vec<FesMoveDet>,
        from: usize,
        to: usize,
        promo: Piece,
        take: Option<Piece>,
        meta: &GSMetaData,
    )
        requires
            from < 64,
            to < 64,
        ensures
            final(vec)@ == old(vec)@.push(
                detailed(from as int, to as int, Some(promo), take, false, *meta),
            ),
    {
        vec.push(
            FesMoveDet {
                from: from as u8,
                to: to as u8,
                promo: Some(promo),
                take,
                enpas: false,
                meta: *meta,
            },
        )
    }

    /// Appends a capture en passant. It takes nothing on the square that it moves to.
    pub fn push_enpas(vec: &mut Vec<FesMoveDet>, from: usize, to: usize, meta: &GSMetaData)
        requires
            from < 64,
            to < 64,
        ensures
            final(vec)@ == old(vec)@.push(detailed(from as int, to as int, None, None, true, *meta)),
    {
        vec.push(
            FesMoveDet {
                from: from as u8,
                to: to as u8,
                promo: None,
                take: None,
                enpas: true,
                meta: *meta,
            },
        )
    }
}

/// The text of a move of the square-array board: the square it leaves and the square it
/// reaches, with file `a` as 0.
pub open spec fn plain_uci(from: u8, to: u8) -> Seq<char> {
    seq![
        ('a' as int + from % 8) as char,
        rank_char(from as int),
        ('a' as int + to % 8) as char,
        rank_char(to as int),
    ]
}

impl Move for FesMoveDet {
    open spec fn uci(&self) -> Seq<char> {
        plain_uci(self.from, self.to)
    }

    fn to_uci(&self) -> (r: String) {
        let fx = self.from & 7;
        let fy = self.from >> 3;
        let tx = self.to & 7;
        let ty = self.to >> 3;
        let from = self.from;
        let to = self.to;
        assert(from & 7 == from % 8 && from >> 3 == from / 8 && to & 7 == to % 8 && to >> 3 == to
            / 8) by (bit_vector);
        let ox = (97u8 + fx) as char;
        let oy = (49u8 + fy) as char;
        let nx = (97u8 + tx) as char;
        let ny = (49u8 + ty) as char;
        let mut text = String::new();
        text.push(ox);
        text.push(oy);
        text.push(nx);
        text.push(ny);
        assert(text@ =~= plain_uci(self.from, self.to));
        text
    }
}

/// The board as an array of squares.
#[derive(Clone, Copy, PartialEq, Eq, Debug)]
pub struct Board {
    pub pieces: [Option<ColouredPiece>; 64],
}

/// The coordinates are those of a square.
pub open spec fn on_board(x: int, y: int) -> bool {
    0 <= x < 8 && 0 <= y < 8
}

impl View for Board {
    type V = Seq<Option<ColouredPiece>>;

    open spec fn view(&self) -> Seq<Option<ColouredPiece>> {
        self.pieces@
    }
}

impl Board {
    /// What stands on file `x` of rank `y`.
    pub open spec fn at(&self, x: int, y: int) -> Option<ColouredPiece> {
        self@[y * 8 + x]
    }

    /// The empty board.
    pub fn new() -> (r: Self)
        ensures
            forall|i: int| 0 <= i < 64 ==> r@[i] is None,
    {
        broadcast use vstd::array::group_array_axioms;

        let empty: Option<ColouredPiece> = None;
        let pieces: [Option<ColouredPiece>; 64] = [empty;64];
        assert(pieces == vstd::array::spec_array_fill_for_copy_type::<Option<ColouredPiece>, 64>(
            empty,
        ));
        assert(pieces@[3] == empty);
        Self { pieces }
    }

    fn get(&self, x: usize, y: usize) -> (r: Option<ColouredPiece>)
        requires
            x < 8,
            y < 8,
        ensures
            r == self.at(x as int, y as int),
    {
        self.pieces[y * 8 + x]
    }

    /// The board with `piece` on square `sq`.
    pub open spec fn with(self, sq: int, piece: Option<ColouredPiece>) -> Board {
        Board { pieces: spec_array_update(self.pieces, sq, piece) }
    }

    fn put(&mut self, x: usize, y: usize, piece: Option<ColouredPiece>)
        requires
            x < 8,
            y < 8,
        ensures
            *final(self) == old(self).with(y * 8 + x, piece),
            final(self)@ == old(self)@.update(y * 8 + x, piece),
    {
        self.pieces[y * 8 + x] = piece;
        assert(self.pieces =~= spec_array_update(old(self).pieces, y * 8 + x, piece));
    }
}

fn legal_pos(x: i8, y: i8) -> (r: bool)
    ensures
        r == on_board(x as int, y as int),
{
    0 <= x && x < 8 && 0 <= y && y < 8
}

fn unpack_index(packed: u8) -> (r: (usize, usize))
    ensures
        r.0 == packed % 8,
        r.1 == packed / 8,
{
    assert(packed & 7 == packed % 8 && packed >> 3 == packed / 8) by (bit_vector);
    ((packed & 7) as usize, (packed >> 3) as usize)
}

fn pack(x: usize, y: usize) -> (r: usize)
    requires
        x < 8,
        y < 8,
    ensures
        r == y * 8 + x,
{
    y * 8 + x
}

/// A game on the square-array board: the side to move, the board, and what is kept beside
/// it.
#[derive(Clone, Copy, PartialEq, Eq, Debug)]
pub struct GameState {
    pub turn: PlayerColour,
    pub board: Board,
    pub meta: GSMetaData,
}

/// The kind of the piece on a square, if there is one.
pub open spec fn kind_on(v: Option<ColouredPiece>) -> Option<Piece> {
    match v {
        Some(p) => Some(p.kind()),
        None => None,
    }
}

/// The number of steps along (`dx`, `dy`) that stay on the board from (`nx`, `ny`), that
/// square counted.
pub open spec fn room(nx: int, ny: int, dx: int, dy: int) -> nat {
    if !on_board(nx, ny) {
        0
    } else if dx > 0 {
        (8 - nx) as nat
    } else if dx < 0 {
        (nx + 1) as nat
    } else if dy > 0 {
        (8 - ny) as nat
    } else {
        (ny + 1) as nat
    }
}

impl GameState {
    /// The move of the piece of colour `col` on (`x`, `y`) to (`nx`, `ny`), if that is a
    /// square that holds no piece of that colour: a capture of what stands there.
    #[verifier::opaque]
    pub open spec fn hop(self, col: PlayerColour, x: int, y: int, nx: int, ny: int) -> Seq<
        FesMoveDet,
    > {
        if on_board(nx, ny) && !ColouredPiece::spec_opt_is_col(self.board.at(nx, ny), col, false) {
            seq![
                detailed(
                    y * 8 + x,
                    ny * 8 + nx,
                    None,
                    kind_on(self.board.at(nx, ny)),
                    false,
                    self.meta,
                ),
            ]
        } else {
            Seq::empty()
        }
    }

    /// (`nx`, `ny`) is an empty square: a slide that reaches it goes on.
    pub open spec fn open_at(self, nx: int, ny: int) -> bool {
        on_board(nx, ny) && self.board.at(nx, ny) is None
    }

    /// The moves of the piece of colour `col` on (`x`, `y`) that slides along (`dx`, `dy`),
    /// from (`nx`, `ny`) on: one for each empty square, and one for the first piece on the
    /// way if it is not of that colour.
    pub open spec fn ray(
        self,
        col: PlayerColour,
        x: int,
        y: int,
        nx: int,
        ny: int,
        dx: int,
        dy: int,
    ) -> Seq<FesMoveDet>
        decreases room(nx, ny, dx, dy),
    {
        if (dx == 0 && dy == 0) || !on_board(nx, ny) {
            Seq::empty()
        } else {
            self.hop(col, x, y, nx, ny) + (if self.open_at(nx, ny) {
                self.ray(col, x, y, nx + dx, ny + dy, dx, dy)
            } else {
                Seq::empty()
            })
        }
    }

    /// The moves of a rook of colour `col` on (`x`, `y`).
    pub open spec fn rook_rays(self, col: PlayerColour, x: int, y: int) -> Seq<FesMoveDet> {
        self.ray(col, x, y, x + 1, y, 1, 0) + self.ray(col, x, y, x, y + 1, 0, 1) + self.ray(
            col,
            x,
            y,
            x - 1,
            y,
            -1,
            0,
        ) + self.ray(col, x, y, x, y - 1, 0, -1)
    }

    /// The moves of a bishop of colour `col` on (`x`, `y`).
    pub open spec fn bishop_rays(self, col: PlayerColour, x: int, y: int) -> Seq<FesMoveDet> {
        self.ray(col, x, y, x + 1, y + 1, 1, 1) + self.ray(col, x, y, x - 1, y + 1, -1, 1)
            + self.ray(col, x, y, x + 1, y - 1, 1, -1) + self.ray(col, x, y, x - 1, y - 1, -1, -1)
    }

    /// The moves of a knight of colour `col` on (`x`, `y`).
    pub open spec fn knight_hops(self, col: PlayerColour, x: int, y: int) -> Seq<FesMoveDet> {
        self.hop(col, x, y, x + 1, y + 2) + self.hop(col, x, y, x - 1, y + 2) + self.hop(
            col,
            x,
            y,
            x + 1,
            y - 2,
        ) + self.hop(col, x, y, x - 1, y - 2) + self.hop(col, x, y, x + 2, y + 1) + self.hop(
            col,
            x,
            y,
            x - 2,
            y + 1,
        ) + self.hop(col, x, y, x + 2, y - 1) + self.hop(col, x, y, x - 2, y - 1)
    }

    /// The steps of a king of colour `col` on (`x`, `y`).
    pub open spec fn king_hops(self, col: PlayerColour, x: int, y: int) -> Seq<FesMoveDet> {
        self.hop(col, x, y, x + 1, y + 1) + self.hop(col, x, y, x + 1, y) + self.hop(
            col,
            x,
            y,
            x + 1,
            y - 1,
        ) + self.hop(col, x, y, x, y + 1) + self.hop(col, x, y, x, y - 1) + self.hop(
            col,
            x,
            y,
            x - 1,
            y + 1,
        ) + self.hop(col, x, y, x - 1, y) + self.hop(col, x, y, x - 1, y - 1)
    }

    /// The four promotions of a pawn that goes from `from` to `to` and takes `take`: to
    /// queen, rook, bishop and knight.
    pub open spec fn promotions(self, from: int, to: int, take: Option<Piece>) -> Seq<FesMoveDet> {
        seq![
            detailed(from, to, Some(Piece::Queen), take, false, self.meta),
            detailed(from, to, Some(Piece::Rook), take, false, self.meta),
            detailed(from, to, Some(Piece::Bishop), take, false, self.meta),
            detailed(from, to, Some(Piece::Knight), take, false, self.meta),
        ]
    }

    /// The capture of a pawn of colour `col` on (`x`, `y`) to file `nx` of rank `ny`: of a
    /// piece of the other colour, or en passant where the pawn stands on the rank for it
    /// and `nx` is the file of the pawn that has just taken a double step.
    #[verifier::opaque]
    pub open spec fn pawn_capture(self, col: PlayerColour, x: int, y: int, nx: int, ny: int)
        -> Seq<FesMoveDet> {
        let white = col == PlayerColour::White;
        let can_prom = (y == 6 && white) || (y == 1 && !white);
        let passant = y == (if white {
            4int
        } else {
            3
        }) && self.meta.enpasant_col == Some(nx as u8);
        let target = self.board.at(nx, ny);
        if 0 <= nx < 8 && (!ColouredPiece::spec_opt_is_col(target, col, true) || passant) {
            if can_prom {
                self.promotions(y * 8 + x, ny * 8 + nx, kind_on(target))
            } else if passant {
                seq![detailed(y * 8 + x, ny * 8 + nx, None, None, true, self.meta)]
            } else {
                seq![detailed(y * 8 + x, ny * 8 + nx, None, kind_on(target), false, self.meta)]
            }
        } else {
            Seq::empty()
        }
    }

    /// The steps of a pawn of colour `col` on (`x`, `y`): one square ahead onto an empty
    /// square, and two from its starting rank over an empty square onto an empty square.
    #[verifier::opaque]
    pub open spec fn pawn_steps(self, col: PlayerColour, x: int, y: int) -> Seq<FesMoveDet> {
        let white = col == PlayerColour::White;
        let can_prom = (y == 6 && white) || (y == 1 && !white);
        let ny = if white {
            y + 1
        } else {
            y - 1
        };
        let ny2 = if white {
            y + 2
        } else {
            y - 2
        };
        let start = if white {
            1int
        } else {
            6
        };
        if self.board.at(x, ny) is None {
            (if can_prom {
                self.promotions(y * 8 + x, ny * 8 + x, None)
            } else {
                seq![detailed(y * 8 + x, ny * 8 + x, None, None, false, self.meta)]
            }) + (if y == start && self.board.at(x, ny2) is None {
                seq![detailed(y * 8 + x, ny2 * 8 + x, None, None, false, self.meta)]
            } else {
                Seq::empty()
            })
        } else {
            Seq::empty()
        }
    }

    /// The moves of a pawn of colour `col` on (`x`, `y`): captures towards file a, captures
    /// towards file h, steps. A pawn on its last rank has none.
    pub open spec fn pawn_moves(self, col: PlayerColour, x: int, y: int) -> Seq<FesMoveDet> {
        let ny = if col == PlayerColour::White {
            y + 1
        } else {
            y - 1
        };
        if 0 <= ny < 8 {
            self.pawn_capture(col, x, y, x - 1, ny) + self.pawn_capture(col, x, y, x + 1, ny)
                + self.pawn_steps(col, x, y)
        } else {
            Seq::empty()
        }
    }

    /// The moves of what stands on square `sq`, if it is a piece of the side to move.
    pub open spec fn piece_moves(self, sq: int) -> Seq<FesMoveDet> {
        let x = sq % 8;
        let y = sq / 8;
        match self.board@[sq] {
            None => Seq::empty(),
            Some(piece) => if piece.colour() != self.turn {
                Seq::empty()
            } else {
                match piece.kind() {
                    Piece::Pawn => self.pawn_moves(self.turn, x, y),
                    Piece::Knight => self.knight_hops(self.turn, x, y),
                    Piece::Bishop => self.bishop_rays(self.turn, x, y),
                    Piece::Rook => self.rook_rays(self.turn, x, y),
                    Piece::Queen => self.bishop_rays(self.turn, x, y) + self.rook_rays(
                        self.turn,
                        x,
                        y,
                    ),
                    Piece::King => self.king_hops(self.turn, x, y),
                }
            },
        }
    }

    /// The moves of the pieces on the squares from `lo` up to, but not including, `hi`.
    pub open spec fn scan(self, lo: int, hi: int) -> Seq<FesMoveDet>
        decreases hi - lo,
    {
        if lo >= hi {
            Seq::empty()
        } else {
            self.scan(lo, hi - 1) + self.piece_moves(hi - 1)
        }
    }

    /// No pawn of colour `pawn` stands on the files from `lo` to `hi` of rank `y`.
    pub open spec fn no_pawn(self, pawn: ColouredPiece, y: int, lo: int, hi: int) -> bool {
        forall|x: int| lo <= x <= hi ==> #[trigger] self.board.at(x, y) != Some(pawn)
    }

    /// The files from `lo` to `hi` of rank `y` are empty.
    pub open spec fn all_empty(self, y: int, lo: int, hi: int) -> bool {
        forall|x: int| lo <= x <= hi ==> #[trigger] self.board.at(x, y) is None
    }

    /// The castling moves that are tried, kingside first, and after them the king's move
    /// onto its own square, which is tried to find out whether the king is in check.
    pub open spec fn castle_tries(self) -> Seq<FesMoveDet> {
        let white = self.turn == PlayerColour::White;
        let y = if white {
            0int
        } else {
            7
        };
        let py = if white {
            1int
        } else {
            6
        };
        let pawn = if white {
            ColouredPiece::BlackPawn
        } else {
            ColouredPiece::WhitePawn
        };
        let ks = if white {
            self.meta.white_ks_castle
        } else {
            self.meta.black_ks_castle
        };
        let qs = if white {
            self.meta.white_qs_castle
        } else {
            self.meta.black_qs_castle
        };
        let king = y * 8 + 4;
        (if ks && self.no_pawn(pawn, py, 4, 7) && self.all_empty(y, 5, 6) {
            seq![detailed(king, king + 2, None, None, false, self.meta)]
        } else {
            Seq::empty()
        }) + (if qs && self.no_pawn(pawn, py, 1, 4) && self.all_empty(y, 1, 3) {
            seq![detailed(king, king - 2, None, None, false, self.meta)]
        } else {
            Seq::empty()
        }) + seq![detailed(king, king, None, None, false, self.meta)]
    }

    /// The moves that the pieces of the side to move can make by the way they move, whether
    /// or not they leave the king in check, followed by the castling tries.
    pub open spec fn preliminary(self) -> Seq<FesMoveDet> {
        self.scan(0, 64) + self.castle_tries()
    }
}

/// Four runs added one after the other to a list are their concatenation added to it.
proof fn lemma_four_runs<T>(start: Seq<T>, a: Seq<T>, b: Seq<T>, c: Seq<T>, d: Seq<T>)
    ensures
        start + a + b + c + d == start + (a + b + c + d),
{
    assert(start + a + b + c + d =~= start + (a + b + c + d));
}

/// Eight runs added one after the other to a list are their concatenation added to it.
proof fn lemma_eight_runs<T>(
    start: Seq<T>,
    a: Seq<T>,
    b: Seq<T>,
    c: Seq<T>,
    d: Seq<T>,
    e: Seq<T>,
    f: Seq<T>,
    g: Seq<T>,
    h: Seq<T>,
)
    ensures
        start + a + b + c + d + e + f + g + h == start + (a + b + c + d + e + f + g + h),
{
    assert(start + a + b + c + d + e + f + g + h =~= start + (a + b + c + d + e + f + g + h));
}

impl GameState {
    /// Appends the move of the piece of colour `col` on (`old_x`, `old_y`) to (`new_x`,
    /// `new_y`), if there is one. Returns true if the move was legal and didn't take a piece
    /// (sliding pieces can't take another step if false).
    fn optionaly_add(
        &self,
        col: PlayerColour,
        old_x: usize,
        old_y: usize,
        new_x: i8,
        new_y: i8,
        moves: &mut Vec<FesMoveDet>,
    ) -> (r: bool)
        requires
            old_x < 8,
            old_y < 8,
        ensures
            final(moves)@ == old(moves)@ + self.hop(
                col,
                old_x as int,
                old_y as int,
                new_x as int,
                new_y as int,
            ),
            r == self.open_at(new_x as int, new_y as int),
    {
        reveal(GameState::hop);
        if legal_pos(new_x, new_y) {
            let target = self.board.get(new_x as usize, new_y as usize);
            if !ColouredPiece::opt_is_col(target, col, false) {
                let take = ColouredPiece::opt_piece(target);
                let from = pack(old_x, old_y);
                let to = pack(new_x as usize, new_y as usize);
                FesMoveDet::push_take(moves, from, to, take, &self.meta);
                assert(moves@ =~= old(moves)@ + self.hop(
                    col,
                    old_x as int,
                    old_y as int,
                    new_x as int,
                    new_y as int,
                ));
                return take.is_none();
            }
        }
        assert(moves@ =~= old(moves)@ + Seq::<FesMoveDet>::empty());
        false
    }

    /// Appends the moves of a piece of colour `col` on (`x`, `y`) that slides along (`dx`,
    /// `dy`).
    fn slide_moves(
        &self,
        col: PlayerColour,
        x: usize,
        y: usize,
        dx: i8,
        dy: i8,
        moves: &mut Vec<FesMoveDet>,
    )
        requires
            x < 8,
            y < 8,
            -1 <= dx <= 1,
            -1 <= dy <= 1,
            dx != 0 || dy != 0,
        ensures
            final(moves)@ == old(moves)@ + self.ray(
                col,
                x as int,
                y as int,
                x + dx,
                y + dy,
                dx as int,
                dy as int,
            ),
    {
        let mut nx: i8 = x as i8 + dx;
        let mut ny: i8 = y as i8 + dy;
        let ghost all = old(moves)@ + self.ray(
            col,
            x as int,
            y as int,
            x + dx,
            y + dy,
            dx as int,
            dy as int,
        );
        loop
            invariant_except_break
                moves@ + self.ray(col, x as int, y as int, nx as int, ny as int, dx as int, dy as int)
                    == all,
            invariant
                x < 8,
                y < 8,
                -1 <= dx <= 1,
                -1 <= dy <= 1,
                dx != 0 || dy != 0,
                -1 <= nx <= 8,
                -1 <= ny <= 8,
            ensures
                moves@ == all,
            decreases room(nx as int, ny as int, dx as int, dy as int),
        {
            let ghost before = moves@;
            let ghost here = self.hop(col, x as int, y as int, nx as int, ny as int);
            let ghost rest = self.ray(
                col,
                x as int,
                y as int,
                nx + dx,
                ny + dy,
                dx as int,
                dy as int,
            );
            let go_on = self.optionaly_add(col, x, y, nx, ny, moves);
            if !go_on {
                proof {
                    reveal(GameState::hop);
                }
                assert(moves@ =~= all);
                break ;
            }
            assert(before + here + rest =~= before + (here + rest));
            nx = nx + dx;
            ny = ny + dy;
        }
    }

    /// Appends the moves of a rook of colour `col` on (`x`, `y`).
    fn rook_moves(&self, col: PlayerColour, x: usize, y: usize, moves: &mut Vec<FesMoveDet>)
        requires
            x < 8,
            y < 8,
        ensures
            final(moves)@ == old(moves)@ + self.rook_rays(col, x as int, y as int),
    {
        self.slide_moves(col, x, y, 1, 0, moves);
        self.slide_moves(col, x, y, 0, 1, moves);
        self.slide_moves(col, x, y, -1, 0, moves);
        self.slide_moves(col, x, y, 0, -1, moves);
        proof {
            let cx = x as int;
            let cy = y as int;
            lemma_four_runs(
                old(moves)@,
                self.ray(col, cx, cy, cx + 1, cy, 1, 0),
                self.ray(col, cx, cy, cx, cy + 1, 0, 1),
                self.ray(col, cx, cy, cx - 1, cy, -1, 0),
                self.ray(col, cx, cy, cx, cy - 1, 0, -1),
            );
        }
    }

    /// Appends the moves of a bishop of colour `col` on (`x`, `y`).
    fn bishop_moves(&self, col: PlayerColour, x: usize, y: usize, moves: &mut Vec<FesMoveDet>)
        requires
            x < 8,
            y < 8,
        ensures
            final(moves)@ == old(moves)@ + self.bishop_rays(col, x as int, y as int),
    {
        self.slide_moves(col, x, y, 1, 1, moves);
        self.slide_moves(col, x, y, -1, 1, moves);
        self.slide_moves(col, x, y, 1, -1, moves);
        self.slide_moves(col, x, y, -1, -1, moves);
        proof {
            let cx = x as int;
            let cy = y as int;
            lemma_four_runs(
                old(moves)@,
                self.ray(col, cx, cy, cx + 1, cy + 1, 1, 1),
                self.ray(col, cx, cy, cx - 1, cy + 1, -1, 1),
                self.ray(col, cx, cy, cx + 1, cy - 1, 1, -1),
                self.ray(col, cx, cy, cx - 1, cy - 1, -1, -1),
            );
        }
    }

    fn push_promotions(
        &self,
        from: usize,
        to: usize,
        take: Option<Piece>,
        moves: &mut Vec<FesMoveDet>,
    )
        requires
            from < 64,
            to < 64,
        ensures
            final(moves)@ == old(moves)@ + self.promotions(from as int, to as int, take),
    {
        FesMoveDet::push_promo(moves, from, to, Piece::Queen, take, &self.meta);
        FesMoveDet::push_promo(moves, from, to, Piece::Rook, take, &self.meta);
        FesMoveDet::push_promo(moves, from, to, Piece::Bishop, take, &self.meta);
        FesMoveDet::push_promo(moves, from, to, Piece::Knight, take, &self.meta);
        assert(moves@ =~= old(moves)@ + self.promotions(from as int, to as int, take));
    }

    fn pawn_capture_moves(
        &self,
        col: PlayerColour,
        x: usize,
        y: usize,
        nx: i8,
        ny: usize,
        moves: &mut Vec<FesMoveDet>,
    )
        requires
            x < 8,
            y < 8,
            ny < 8,
            -1 <= nx <= 8,
        ensures
            final(moves)@ == old(moves)@ + self.pawn_capture(
                col,
                x as int,
                y as int,
                nx as int,
                ny as int,
            ),
    {
        reveal(GameState::pawn_capture);
        let is_white = match col {
            PlayerColour::White => true,
            PlayerColour::Black => false,
        };
        let can_prom = y == 6 && is_white || y == 1 && !is_white;
        let ypassant: usize = if is_white {
            4
        } else {
            3
        };
        if 0 <= nx && nx < 8 {
            let passant = y == ypassant && match self.meta.enpasant_col {
                Some(c) => c == nx as u8,
                None => false,
            };
            let target = self.board.get(nx as usize, ny);
            if !ColouredPiece::opt_is_col(target, col, true) || passant {
                let take = ColouredPiece::opt_piece(target);
                let from = pack(x, y);
                let to = pack(nx as usize, ny);
                if can_prom {
                    self.push_promotions(from, to, take, moves);
                } else if passant {
                    FesMoveDet::push_enpas(moves, from, to, &self.meta);
                    assert(moves@ =~= old(moves)@ + self.pawn_capture(
                        col,
                        x as int,
                        y as int,
                        nx as int,
                        ny as int,
                    ));
                } else {
                    FesMoveDet::push_take(moves, from, to, take, &self.meta);
                    assert(moves@ =~= old(moves)@ + self.pawn_capture(
                        col,
                        x as int,
                        y as int,
                        nx as int,
                        ny as int,
                    ));
                }
                return ;
            }
        }
        assert(moves@ =~= old(moves)@ + Seq::<FesMoveDet>::empty());
    }

    fn pawn_step_moves(&self, col: PlayerColour, x: usize, y: usize, moves: &mut Vec<FesMoveDet>)
        requires
            x < 8,
            y < 8,
            match col {
                PlayerColour::White => y < 7,
                PlayerColour::Black => y > 0,
            },
        ensures
            final(moves)@ == old(moves)@ + self.pawn_steps(col, x as int, y as int),
    {
        reveal(GameState::pawn_steps);
        let is_white = match col {
            PlayerColour::White => true,
            PlayerColour::Black => false,
        };
        let can_prom = y == 6 && is_white || y == 1 && !is_white;
        let ny: usize = if is_white {
            y + 1
        } else {
            y - 1
        };
        let ystart: usize = if is_white {
            1
        } else {
            6
        };
        let from = pack(x, y);
        if self.board.get(x, ny).is_none() {
            let to = pack(x, ny);
            if can_prom {
                self.push_promotions(from, to, None, moves);
            } else {
                FesMoveDet::push_basic(moves, from, to, &self.meta);
            }
            if y == ystart {
                let ny2: usize = if is_white {
                    y + 2
                } else {
                    y - 2
                };
                if self.board.get(x, ny2).is_none() {
                    let to = pack(x, ny2);
                    FesMoveDet::push_basic(moves, from, to, &self.meta);
                }
            }
            assert(moves@ =~= old(moves)@ + self.pawn_steps(col, x as int, y as int));
        } else {
            assert(moves@ =~= old(moves)@ + Seq::<FesMoveDet>::empty());
        }
    }

    fn knight_moves(&self, col: PlayerColour, x: usize, y: usize, moves: &mut Vec<FesMoveDet>)
        requires
            x < 8,
            y < 8,
        ensures
            final(moves)@ == old(moves)@ + self.knight_hops(col, x as int, y as int),
    {
        let cx = x as i8;
        let cy = y as i8;
        self.optionaly_add(col, x, y, cx + 1, cy + 2, moves);
        self.optionaly_add(col, x, y, cx - 1, cy + 2, moves);
        self.optionaly_add(col, x, y, cx + 1, cy - 2, moves);
        self.optionaly_add(col, x, y, cx - 1, cy - 2, moves);
        self.optionaly_add(col, x, y, cx + 2, cy + 1, moves);
        self.optionaly_add(col, x, y, cx - 2, cy + 1, moves);
        self.optionaly_add(col, x, y, cx + 2, cy - 1, moves);
        self.optionaly_add(col, x, y, cx - 2, cy - 1, moves);
        proof {
            let ax = x as int;
            let ay = y as int;
            lemma_eight_runs(
                old(moves)@,
                self.hop(col, ax, ay, ax + 1, ay + 2),
                self.hop(col, ax, ay, ax - 1, ay + 2),
                self.hop(col, ax, ay, ax + 1, ay - 2),
                self.hop(col, ax, ay, ax - 1, ay - 2),
                self.hop(col, ax, ay, ax + 2, ay + 1),
                self.hop(col, ax, ay, ax - 2, ay + 1),
                self.hop(col, ax, ay, ax + 2, ay - 1),
                self.hop(col, ax, ay, ax - 2, ay - 1),
            );
        }
    }

    fn king_moves(&self, col: PlayerColour, x: usize, y: usize, moves: &mut Vec<FesMoveDet>)
        requires
            x < 8,
            y < 8,
        ensures
            final(moves)@ == old(moves)@ + self.king_hops(col, x as int, y as int),
    {
        let cx = x as i8;
        let cy = y as i8;
        self.optionaly_add(col, x, y, cx + 1, cy + 1, moves);
        self.optionaly_add(col, x, y, cx + 1, cy, moves);
        self.optionaly_add(col, x, y, cx + 1, cy - 1, moves);
        self.optionaly_add(col, x, y, cx, cy + 1, moves);
        self.optionaly_add(col, x, y, cx, cy - 1, moves);
        self.optionaly_add(col, x, y, cx - 1, cy + 1, moves);
        self.optionaly_add(col, x, y, cx - 1, cy, moves);
        self.optionaly_add(col, x, y, cx - 1, cy - 1, moves);
        proof {
            let ax = x as int;
            let ay = y as int;
            lemma_eight_runs(
                old(moves)@,
                self.hop(col, ax, ay, ax + 1, ay + 1),
                self.hop(col, ax, ay, ax + 1, ay),
                self.hop(col, ax, ay, ax + 1, ay - 1),
                self.hop(col, ax, ay, ax, ay + 1),
                self.hop(col, ax, ay, ax, ay - 1),
                self.hop(col, ax, ay, ax - 1, ay + 1),
                self.hop(col, ax, ay, ax - 1, ay),
                self.hop(col, ax, ay, ax - 1, ay - 1),
            );
        }
    }

    fn pawn_moves_at(&self, col: PlayerColour, x: usize, y: usize, moves: &mut Vec<FesMoveDet>)
        requires
            x < 8,
            y < 8,
        ensures
            final(moves)@ == old(moves)@ + self.pawn_moves(col, x as int, y as int),
    {
        let is_white = match col {
            PlayerColour::White => true,
            PlayerColour::Black => false,
        };
        let last: usize = if is_white {
            7
        } else {
            0
        };
        if y != last {
            let ny: usize = if is_white {
                y + 1
            } else {
                y - 1
            };
            self.pawn_capture_moves(col, x, y, x as i8 - 1, ny, moves);
            self.pawn_capture_moves(col, x, y, x as i8 + 1, ny, moves);
            self.pawn_step_moves(col, x, y, moves);
            proof {
                let cx = x as int;
                let cy = y as int;
                lemma_four_runs(
                    old(moves)@,
                    self.pawn_capture(col, cx, cy, cx - 1, ny as int),
                    self.pawn_capture(col, cx, cy, cx + 1, ny as int),
                    self.pawn_steps(col, cx, cy),
                    Seq::empty(),
                );
                assert(self.pawn_moves(col, cx, cy) =~= self.pawn_capture(
                    col,
                    cx,
                    cy,
                    cx - 1,
                    ny as int,
                ) + self.pawn_capture(col, cx, cy, cx + 1, ny as int) + self.pawn_steps(col, cx, cy)
                    + Seq::empty());
                assert(moves@ =~= old(moves)@ + self.pawn_capture(col, cx, cy, cx - 1, ny as int)
                    + self.pawn_capture(col, cx, cy, cx + 1, ny as int) + self.pawn_steps(
                    col,
                    cx,
                    cy,
                ) + Seq::empty());
            }
        } else {
            assert(moves@ =~= old(moves)@ + Seq::<FesMoveDet>::empty());
        }
    }

    fn queen_moves(&self, col: PlayerColour, x: usize, y: usize, moves: &mut Vec<FesMoveDet>)
        requires
            x < 8,
            y < 8,
        ensures
            final(moves)@ == old(moves)@ + (self.bishop_rays(col, x as int, y as int)
                + self.rook_rays(col, x as int, y as int)),
    {
        self.bishop_moves(col, x, y, moves);
        self.rook_moves(col, x, y, moves);
        assert(moves@ =~= old(moves)@ + (self.bishop_rays(col, x as int, y as int)
            + self.rook_rays(col, x as int, y as int)));
    }

    fn piece_moves_at(&self, x: usize, y: usize, moves: &mut Vec<FesMoveDet>)
        requires
            x < 8,
            y < 8,
        ensures
            final(moves)@ == old(moves)@ + self.piece_moves(y * 8 + x),
    {
        let ghost sq = (y * 8 + x) as int;
        assert(sq % 8 == x && sq / 8 == y);
        let ghost expected = self.piece_moves(sq);
        match self.board.get(x, y) {
            None => {
                assert(moves@ =~= old(moves)@ + Seq::<FesMoveDet>::empty());
            },
            Some(piece) => {
                let piece_col = if piece.is_white() {
                    PlayerColour::White
                } else {
                    PlayerColour::Black
                };
                let mine = match (self.turn, piece_col) {
                    (PlayerColour::White, PlayerColour::White) => true,
                    (PlayerColour::Black, PlayerColour::Black) => true,
                    _ => false,
                };
                assert(piece_col == piece.colour());
                assert(mine == (piece.colour() == self.turn));
                if mine {
                    match piece.piece() {
                        Piece::Pawn => {
                            self.pawn_moves_at(piece_col, x, y, moves);
                        },
                        Piece::Knight => {
                            self.knight_moves(piece_col, x, y, moves);
                        },
                        Piece::Bishop => {
                            self.bishop_moves(piece_col, x, y, moves);
                        },
                        Piece::Rook => {
                            self.rook_moves(piece_col, x, y, moves);
                        },
                        Piece::Queen => {
                            self.queen_moves(piece_col, x, y, moves);
                        },
                        Piece::King => {
                            self.king_moves(piece_col, x, y, moves);
                        },
                    }
                } else {
                    assert(moves@ =~= old(moves)@ + Seq::<FesMoveDet>::empty());
                }
            },
        }
    }

    /// Whether no pawn `pawn` stands on the files from `lo` to `hi` of rank `y`.
    fn rank_has_no(&self, pawn: ColouredPiece, y: usize, lo: usize, hi: usize) -> (r: bool)
        requires
            y < 8,
            lo <= hi < 8,
        ensures
            r == self.no_pawn(pawn, y as int, lo as int, hi as int),
    {
        let mut x = lo;
        while x <= hi
            invariant
                y < 8,
                lo <= x <= hi + 1,
                hi < 8,
                forall|k: int| lo <= k < x ==> #[trigger] self.board.at(k, y as int) != Some(pawn),
            decreases hi + 1 - x,
        {
            match self.board.get(x, y) {
                Some(p) => {
                    if p == pawn {
                        return false;
                    }
                },
                None => {},
            }
            x += 1;
        }
        true
    }

    /// Whether the files from `lo` to `hi` of rank `y` are empty.
    fn rank_is_empty(&self, y: usize, lo: usize, hi: usize) -> (r: bool)
        requires
            y < 8,
            lo <= hi < 8,
        ensures
            r == self.all_empty(y as int, lo as int, hi as int),
    {
        let mut x = lo;
        while x <= hi
            invariant
                y < 8,
                lo <= x <= hi + 1,
                hi < 8,
                forall|k: int| lo <= k < x ==> #[trigger] self.board.at(k, y as int) is None,
            decreases hi + 1 - x,
        {
            if self.board.get(x, y).is_some() {
                return false;
            }
            x += 1;
        }
        true
    }

    /// The moves that the pieces of the side to move can make by the way they move, and the
    /// castling tries.
    fn get_preliminary_moves(&self) -> (r: Vec<FesMoveDet>)
        ensures
            r@ == self.preliminary(),
    {
        let mut moves: Vec<FesMoveDet> = Vec::new();
        let mut y: usize = 0;
        while y < 8
            invariant
                y <= 8,
                moves@ == self.scan(0, y * 8),
            decreases 8 - y,
        {
            let mut x: usize = 0;
            while x < 8
                invariant
                    y < 8,
                    x <= 8,
                    moves@ == self.scan(0, y * 8 + x),
                decreases 8 - x,
            {
                self.piece_moves_at(x, y, &mut moves);
                x += 1;
            }
            y += 1;
        }
        let ghost scanned = moves@;
        let is_white = match self.turn {
            PlayerColour::White => true,
            PlayerColour::Black => false,
        };
        let y: usize = if is_white {
            0
        } else {
            7
        };
        let py: usize = if is_white {
            1
        } else {
            6
        };
        let pawn = if is_white {
            ColouredPiece::BlackPawn
        } else {
            ColouredPiece::WhitePawn
        };
        let ks = if is_white {
            self.meta.white_ks_castle
        } else {
            self.meta.black_ks_castle
        };
        let qs = if is_white {
            self.meta.white_qs_castle
        } else {
            self.meta.black_qs_castle
        };
        let king = y * 8 + 4;
        if ks && self.rank_has_no(pawn, py, 4, 7) && self.rank_is_empty(y, 5, 6) {
            FesMoveDet::push_basic(&mut moves, king, king + 2, &self.meta);
        }
        if qs && self.rank_has_no(pawn, py, 1, 4) && self.rank_is_empty(y, 1, 3) {
            FesMoveDet::push_basic(&mut moves, king, king - 2, &self.meta);
        }
        // a move of the king onto its own square, to find out later whether it is in check
        FesMoveDet::push_basic(&mut moves, king, king, &self.meta);
        assert(moves@ =~= scanned + self.castle_tries());
        moves
    }
}

/// The other colour.
pub open spec fn other(col: PlayerColour) -> PlayerColour {
    match col {
        PlayerColour::White => PlayerColour::Black,
        PlayerColour::Black => PlayerColour::White,
    }
}

/// The piece of colour `col` and kind `p`.
pub open spec fn coloured(col: PlayerColour, p: Piece) -> ColouredPiece {
    match (col, p) {
        (PlayerColour::White, Piece::Pawn) => ColouredPiece::WhitePawn,
        (PlayerColour::White, Piece::Knight) => ColouredPiece::WhiteKnight,
        (PlayerColour::White, Piece::Bishop) => ColouredPiece::WhiteBishop,
        (PlayerColour::White, Piece::Rook) => ColouredPiece::WhiteRook,
        (PlayerColour::White, Piece::Queen) => ColouredPiece::WhiteQueen,
        (PlayerColour::White, Piece::King) => ColouredPiece::WhiteKing,
        (PlayerColour::Black, Piece::Pawn) => ColouredPiece::BlackPawn,
        (PlayerColour::Black, Piece::Knight) => ColouredPiece::BlackKnight,
        (PlayerColour::Black, Piece::Bishop) => ColouredPiece::BlackBishop,
        (PlayerColour::Black, Piece::Rook) => ColouredPiece::BlackRook,
        (PlayerColour::Black, Piece::Queen) => ColouredPiece::BlackQueen,
        (PlayerColour::Black, Piece::King) => ColouredPiece::BlackKing,
    }
}

impl GameState {
    /// The piece that `m` moves is a king.
    pub open spec fn king_moves_in(self, m: FesMoveDet) -> bool {
        self.board@[m.from as int] matches Some(p) && p.kind() == Piece::King
    }

    /// What is kept beside the board after `m`: a right is lost with a move from or to its
    /// rook's corner and with a move from its king's square; the file of a pawn that takes a
    /// double step is noted.
    pub open spec fn meta_after(self, m: FesMoveDet) -> GSMetaData {
        let from = m.from;
        let to = m.to;
        let double = self.board@[from as int] matches Some(p) && p.kind() == Piece::Pawn && ((from
            / 8 == 1 && to / 8 == 3) || (from / 8 == 6 && to / 8 == 4));
        GSMetaData {
            white_qs_castle: self.meta.white_qs_castle && !(from == 0 || to == 0 || from == 4),
            white_ks_castle: self.meta.white_ks_castle && !(from == 7 || to == 7 || from == 4),
            black_qs_castle: self.meta.black_qs_castle && !(from == 56 || to == 56 || from == 60),
            black_ks_castle: self.meta.black_ks_castle && !(from == 63 || to == 63 || from == 60),
            enpasant_col: if double {
                Some((from % 8) as u8)
            } else {
                None
            },
        }
    }

    /// The board after the rook's part of castling, where `m` is a king's move from file e to
    /// file g or c.
    pub open spec fn rook_castled(self, m: FesMoveDet) -> Board {
        let row = (m.from / 8) * 8;
        if self.king_moves_in(m) && m.from % 8 == 4 && m.to % 8 == 6 {
            self.board.with(row + 5, Some(coloured(self.turn, Piece::Rook))).with(row + 7, None)
        } else if self.king_moves_in(m) && m.from % 8 == 4 && m.to % 8 == 2 {
            self.board.with(row + 3, Some(coloured(self.turn, Piece::Rook))).with(row, None)
        } else {
            self.board
        }
    }

    /// The board after `m`.
    pub open spec fn board_after(self, m: FesMoveDet) -> Board {
        let one = self.rook_castled(m);
        let two = if m.enpas && m.to / 8 == 2 {
            one.with(24 + m.to % 8, None)
        } else {
            one
        };
        let three = if m.enpas && m.to / 8 == 5 {
            two.with(32 + m.to % 8, None)
        } else {
            two
        };
        three.with(
            m.to as int,
            match m.promo {
                Some(p) => Some(coloured(self.turn, p)),
                None => three@[m.from as int],
            },
        ).with(m.from as int, None)
    }

    /// The game after `m`. A move from a square to itself only passes the turn.
    pub open spec fn played(self, m: FesMoveDet) -> GameState {
        if m.from == m.to {
            GameState { turn: other(self.turn), board: self.board, meta: self.meta }
        } else {
            GameState {
                turn: other(self.turn),
                board: self.board_after(m),
                meta: self.meta_after(m),
            }
        }
    }

    /// The game with `m` taken back, where the game is what `m` led to.
    pub open spec fn taken_back(self, m: FesMoveDet) -> GameState {
        let turn = other(self.turn);
        if m.from == m.to {
            GameState { turn, board: self.board, meta: self.meta }
        } else {
            let row = (m.from / 8) * 8;
            let king = self.board@[m.to as int] matches Some(p) && p.kind() == Piece::King;
            let one = if king && m.from % 8 == 4 && m.to % 8 == 6 {
                self.board.with(row + 7, Some(coloured(turn, Piece::Rook))).with(row + 5, None)
            } else if king && m.from % 8 == 4 && m.to % 8 == 2 {
                self.board.with(row as int, Some(coloured(turn, Piece::Rook))).with(row + 3, None)
            } else {
                self.board
            };
            let two = if m.enpas && m.to / 8 == 2 {
                one.with(24 + m.to % 8, Some(ColouredPiece::WhitePawn))
            } else {
                one
            };
            let three = if m.enpas && m.to / 8 == 5 {
                two.with(32 + m.to % 8, Some(ColouredPiece::BlackPawn))
            } else {
                two
            };
            let four = three.with(
                m.from as int,
                match m.promo {
                    Some(_) => Some(coloured(turn, Piece::Pawn)),
                    None => three@[m.to as int],
                },
            );
            let five = four.with(
                m.to as int,
                match m.take {
                    Some(p) => Some(coloured(other(turn), p)),
                    None => None,
                },
            );
            GameState { turn, board: five, meta: m.meta }
        }
    }

    /// The piece that `m` moves is there.
    pub open spec fn has_mover(self, m: FesMoveDet) -> bool {
        m.from < 64 && m.to < 64 && (m.from != m.to ==> self.board@[m.from as int] is Some)
    }

    /// What is kept beside the board after `mov`.
    fn meta_for(&self, mov: &FesMoveDet) -> (r: GSMetaData)
        requires
            self.has_mover(*mov),
        ensures
            r == self.meta_after(*mov),
    {
        let (fx, fy) = unpack_index(mov.from);
        let (tx, ty) = unpack_index(mov.to);
        let from = mov.from;
        let to = mov.to;
        assert(fy * 8 + fx == from && ty * 8 + tx == to);
        let is_pawn = match self.board.get(fx, fy) {
            Some(p) => match p.piece() {
                Piece::Pawn => true,
                _ => false,
            },
            None => false,
        };
        GSMetaData {
            white_qs_castle: self.meta.white_qs_castle && !(from == 0 || to == 0 || from == 4),
            white_ks_castle: self.meta.white_ks_castle && !(from == 7 || to == 7 || from == 4),
            black_qs_castle: self.meta.black_qs_castle && !(from == 56 || to == 56 || from == 60),
            black_ks_castle: self.meta.black_ks_castle && !(from == 63 || to == 63 || from == 60),
            enpasant_col: if is_pawn && ((fy == 1 && ty == 3) || (fy == 6 && ty == 4)) {
                Some(fx as u8)
            } else {
                None
            },
        }
    }

    /// Moves the rook where `mov` is castling.
    fn castle_rook(&mut self, mov: &FesMoveDet)
        requires
            old(self).has_mover(*mov),
        ensures
            final(self).board == old(self).rook_castled(*mov),
            final(self).turn == old(self).turn,
            final(self).meta == old(self).meta,
    {
        let (fx, fy) = unpack_index(mov.from);
        let (tx, ty) = unpack_index(mov.to);
        let from = mov.from;
        assert(fy * 8 + fx == from);
        let is_king = match self.board.get(fx, fy) {
            Some(p) => match p.piece() {
                Piece::King => true,
                _ => false,
            },
            None => false,
        };
        if is_king {
            if fx == 4 && tx == 6 {
                let rook = ColouredPiece::from_parts(self.turn, Piece::Rook);
                proof {
                    rook.lemma_parts(coloured(self.turn, Piece::Rook));
                }
                self.board.put(5, fy, Some(rook));
                self.board.put(7, fy, None);
            } else if fx == 4 && tx == 2 {
                let rook = ColouredPiece::from_parts(self.turn, Piece::Rook);
                proof {
                    rook.lemma_parts(coloured(self.turn, Piece::Rook));
                }
                self.board.put(3, fy, Some(rook));
                self.board.put(0, fy, None);
            }
        }
    }

    /// Plays `mov`.
    fn apply(&mut self, mov: &FesMoveDet)
        requires
            old(self).has_mover(*mov),
        ensures
            *final(self) == old(self).played(*mov),
    {
        let next = self.turn.invert();
        if mov.from == mov.to {
            self.turn = next;
        } else {
            let (fx, fy) = unpack_index(mov.from);
            let (tx, ty) = unpack_index(mov.to);
            let from = mov.from;
            let to = mov.to;
            assert(fy * 8 + fx == from && ty * 8 + tx == to);
            let meta = self.meta_for(mov);
            self.castle_rook(mov);
            let ghost one = self.board;
            if mov.enpas {
                if ty == 2 {
                    self.board.put(tx, 3, None);
                }
                if ty == 5 {
                    self.board.put(tx, 4, None);
                }
            }
            let ghost three = self.board;
            assert(three == (if mov.enpas && to / 8 == 5 {
                (if mov.enpas && to / 8 == 2 {
                    one.with(24 + to % 8, None)
                } else {
                    one
                }).with(32 + to % 8, None)
            } else if mov.enpas && to / 8 == 2 {
                one.with(24 + to % 8, None)
            } else {
                one
            }));
            let landed = match mov.promo {
                Some(p) => {
                    let piece = ColouredPiece::from_parts(self.turn, p);
                    proof {
                        piece.lemma_parts(coloured(self.turn, p));
                    }
                    Some(piece)
                },
                None => self.board.get(fx, fy),
            };
            self.board.put(tx, ty, landed);
            self.board.put(fx, fy, None);
            self.meta = meta;
            self.turn = next;
            assert(self.board == old(self).board_after(*mov));
        }
    }

    /// Takes `mov` back.
    fn revert(&mut self, mov: &FesMoveDet)
        requires
            mov.from < 64,
            mov.to < 64,
        ensures
            *final(self) == old(self).taken_back(*mov),
    {
        self.turn = self.turn.invert();
        if mov.from == mov.to {
            return ;
        }
        let (fx, fy) = unpack_index(mov.from);
        let (tx, ty) = unpack_index(mov.to);
        let from = mov.from;
        let to = mov.to;
        assert(fy * 8 + fx == from && ty * 8 + tx == to);
        let is_king = match self.board.get(tx, ty) {
            Some(p) => match p.piece() {
                Piece::King => true,
                _ => false,
            },
            None => false,
        };
        if is_king {
            if fx == 4 && tx == 6 {
                self.board.put(7, fy, Some(ColouredPiece::from_parts(self.turn, Piece::Rook)));
                self.board.put(5, fy, None);
            } else if fx == 4 && tx == 2 {
                self.board.put(0, fy, Some(ColouredPiece::from_parts(self.turn, Piece::Rook)));
                self.board.put(3, fy, None);
            }
        }
        if mov.enpas {
            if ty == 2 {
                self.board.put(tx, 3, Some(ColouredPiece::WhitePawn));
            }
            if ty == 5 {
                self.board.put(tx, 4, Some(ColouredPiece::BlackPawn));
            }
        }
        let back = match mov.promo {
            Some(_) => Some(ColouredPiece::from_parts(self.turn, Piece::Pawn)),
            None => self.board.get(tx, ty),
        };
        self.board.put(fx, fy, back);
        let taken = match mov.take {
            Some(p) => Some(ColouredPiece::from_parts(self.turn.invert(), p)),
            None => None,
        };
        self.board.put(tx, ty, taken);
        self.meta = mov.meta;
    }
}

impl GameState {
    /// The move is one that can be played in this game and taken back: it carries what the
    /// game keeps beside the board; it moves a piece of the side to move; it takes what
    /// stands on the square it reaches, which is no piece of that side; a promotion is a
    /// pawn's, to queen, rook, bishop or knight; a king's move from file e to file g or c
    /// is castling with its rook over empty squares; a capture en passant lands on an
    /// empty square beside the pawn it takes; and a pawn's double step goes from its
    /// starting rank over an empty square to an empty square.
    pub open spec fn fits(self, m: FesMoveDet) -> bool {
        let from = m.from as int;
        let to = m.to as int;
        let fx = from % 8;
        let fy = from / 8;
        let tx = to % 8;
        let ty = to / 8;
        let row = fy * 8;
        let b = self.board@;
        &&& m.meta == self.meta
        &&& from < 64 && to < 64
        &&& from != to ==> {
            &&& b[from] matches Some(p) && p.colour() == self.turn && {
                &&& m.promo matches Some(pp) ==> p.kind() == Piece::Pawn && pp != Piece::Pawn && pp
                    != Piece::King && !m.enpas && ty == (if self.turn == PlayerColour::White {
                    7int
                } else {
                    0
                })
                &&& p.kind() == Piece::King && fx == 4 && tx == 6 ==> to == from + 2 && b[row + 7]
                    == Some(coloured(self.turn, Piece::Rook)) && b[row + 5] is None && b[to] is None
                &&& p.kind() == Piece::King && fx == 4 && tx == 2 ==> to == from - 2 && b[row]
                    == Some(coloured(self.turn, Piece::Rook)) && b[row + 3] is None && b[to] is None
                &&& m.enpas ==> p.kind() == Piece::Pawn && fx != tx && b[to] is None && (ty == 2
                    ==> b[24 + tx] == Some(ColouredPiece::WhitePawn)) && (ty == 5 ==> b[32 + tx]
                    == Some(ColouredPiece::BlackPawn))
                &&& p.kind() == Piece::Pawn && fy == 1 && ty == 3 ==> self.turn
                    == PlayerColour::White && fx == tx && b[16 + fx] is None && b[to] is None
                &&& p.kind() == Piece::Pawn && fy == 6 && ty == 4 ==> self.turn
                    == PlayerColour::Black && fx == tx && b[40 + fx] is None && b[to] is None
            }
            &&& match b[to] {
                Some(q) => q.colour() != self.turn && m.take == Some(q.kind()) && !m.enpas,
                None => m.take is None,
            }
        }
    }

    /// A castling right comes with king and rook on their home squares.
    pub open spec fn rights_fit(self) -> bool {
        let b = self.board@;
        &&& self.meta.white_ks_castle ==> b[4] == Some(ColouredPiece::WhiteKing) && b[7] == Some(
            ColouredPiece::WhiteRook,
        )
        &&& self.meta.white_qs_castle ==> b[4] == Some(ColouredPiece::WhiteKing) && b[0] == Some(
            ColouredPiece::WhiteRook,
        )
        &&& self.meta.black_ks_castle ==> b[60] == Some(ColouredPiece::BlackKing) && b[63] == Some(
            ColouredPiece::BlackRook,
        )
        &&& self.meta.black_qs_castle ==> b[60] == Some(ColouredPiece::BlackKing) && b[56] == Some(
            ColouredPiece::BlackRook,
        )
    }

    /// The file of a double step comes with the pawn that took it, and with an empty square
    /// behind that pawn.
    pub open spec fn passant_fits(self) -> bool {
        let b = self.board@;
        match self.meta.enpasant_col {
            None => true,
            Some(c) => c < 8 && match self.turn {
                PlayerColour::White => b[32 + c] == Some(ColouredPiece::BlackPawn) && b[40 + c]
                    is None,
                PlayerColour::Black => b[24 + c] == Some(ColouredPiece::WhitePawn) && b[16 + c]
                    is None,
            },
        }
    }

    /// No preliminary move takes a king: the side that is not to move is not in check.
    pub open spec fn no_king_capture(self) -> bool {
        forall|k: int|
            0 <= k < self.preliminary().len() ==> (#[trigger] self.preliminary()[k]).take != Some(
                Piece::King,
            )
    }

    /// The game is one that moves can be listed for.
    pub open spec fn sound(self) -> bool {
        self.rights_fit() && self.passant_fits() && self.no_king_capture()
    }

    /// A move that fits, played and taken back, leaves the game as it was.
    pub proof fn lemma_round_trip(self, m: FesMoveDet)
        requires
            self.fits(m),
        ensures
            self.played(m).taken_back(m) == self,
    {
        broadcast use vstd::array::group_array_axioms;

        let back = self.played(m).taken_back(m);
        assert(back.turn == self.turn);
        assert(back.meta == self.meta);
        if m.from != m.to {
            assert(back.board.pieces =~= self.board.pieces);
        }
    }

    /// A move that fits and takes no king leaves castling rights and double-step file
    /// fitting the board.
    pub proof fn lemma_played_fits(self, m: FesMoveDet)
        requires
            self.rights_fit(),
            self.fits(m),
            m.from != m.to,
            m.take != Some(Piece::King),
        ensures
            self.played(m).rights_fit(),
            self.played(m).passant_fits(),
    {
        broadcast use vstd::array::group_array_axioms;

        let after = self.played(m);
        let from = m.from as int;
        let to = m.to as int;
        let p = self.board@[from].unwrap();
        assert(after.rights_fit());
        if after.meta.enpasant_col is Some {
            assert(p.kind() == Piece::Pawn);
            assert(from % 8 == to % 8);
            assert(m.promo is None);
            assert(!m.enpas);
            assert(after.board@[to] == Some(p));
            if from / 8 == 1 {
                p.lemma_parts(ColouredPiece::WhitePawn);
                assert(to == 24 + from % 8);
                assert(after.board@[16 + from % 8] is None);
            } else {
                p.lemma_parts(ColouredPiece::BlackPawn);
                assert(to == 32 + from % 8);
                assert(after.board@[40 + from % 8] is None);
            }
        }
    }
}

impl GameState {
    /// A move that fits and goes from one square to another.
    pub open spec fn proper(self) -> spec_fn(FesMoveDet) -> bool {
        |m: FesMoveDet| self.fits(m) && m.from != m.to
    }

    proof fn lemma_hop_proper(self, x: int, y: int, nx: int, ny: int)
        requires
            on_board(x, y),
            self.board.at(x, y) matches Some(p) && p.colour() == self.turn && (p.kind()
                == Piece::King ==> -1 <= nx - x <= 1) && (p.kind() == Piece::Pawn ==> false),
            nx != x || ny != y,
        ensures
            forall|k: int|
                0 <= k < self.hop(self.turn, x, y, nx, ny).len() ==> (self.proper())(
                    #[trigger] self.hop(self.turn, x, y, nx, ny)[k],
                ),
    {
        reveal(GameState::hop);
        if on_board(nx, ny) {
            let from = y * 8 + x;
            let to = ny * 8 + nx;
            assert(from % 8 == x && from / 8 == y && to % 8 == nx && to / 8 == ny);
        }
    }

    proof fn lemma_ray_proper(self, x: int, y: int, nx: int, ny: int, dx: int, dy: int)
        requires
            on_board(x, y),
            self.board.at(x, y) matches Some(p) && p.colour() == self.turn && p.kind()
                != Piece::King && p.kind() != Piece::Pawn,
            -1 <= dx <= 1 && -1 <= dy <= 1,
            if dx > 0 {
                nx > x
            } else if dx < 0 {
                nx < x
            } else if dy > 0 {
                ny > y
            } else {
                ny < y
            },
        ensures
            forall|k: int|
                0 <= k < self.ray(self.turn, x, y, nx, ny, dx, dy).len() ==> (self.proper())(
                    #[trigger] self.ray(self.turn, x, y, nx, ny, dx, dy)[k],
                ),
        decreases room(nx, ny, dx, dy),
    {
        if !((dx == 0 && dy == 0) || !on_board(nx, ny)) {
            self.lemma_hop_proper(x, y, nx, ny);
            let here = self.hop(self.turn, x, y, nx, ny);
            if self.open_at(nx, ny) {
                self.lemma_ray_proper(x, y, nx + dx, ny + dy, dx, dy);
                let rest = self.ray(self.turn, x, y, nx + dx, ny + dy, dx, dy);
                lemma_both(here, rest, self.proper());
            } else {
                assert(self.ray(self.turn, x, y, nx, ny, dx, dy) =~= here);
            }
        }
    }

    proof fn lemma_rays_proper(self, x: int, y: int)
        requires
            on_board(x, y),
            self.board.at(x, y) matches Some(p) && p.colour() == self.turn && p.kind()
                != Piece::King && p.kind() != Piece::Pawn,
        ensures
            forall|k: int|
                0 <= k < self.rook_rays(self.turn, x, y).len() ==> (self.proper())(
                    #[trigger] self.rook_rays(self.turn, x, y)[k],
                ),
            forall|k: int|
                0 <= k < self.bishop_rays(self.turn, x, y).len() ==> (self.proper())(
                    #[trigger] self.bishop_rays(self.turn, x, y)[k],
                ),
    {
        let t = self.turn;
        let p = self.proper();
        self.lemma_ray_proper(x, y, x + 1, y, 1, 0);
        self.lemma_ray_proper(x, y, x, y + 1, 0, 1);
        self.lemma_ray_proper(x, y, x - 1, y, -1, 0);
        self.lemma_ray_proper(x, y, x, y - 1, 0, -1);
        lemma_both(self.ray(t, x, y, x + 1, y, 1, 0), self.ray(t, x, y, x, y + 1, 0, 1), p);
        lemma_both(
            self.ray(t, x, y, x + 1, y, 1, 0) + self.ray(t, x, y, x, y + 1, 0, 1),
            self.ray(t, x, y, x - 1, y, -1, 0),
            p,
        );
        lemma_both(
            self.ray(t, x, y, x + 1, y, 1, 0) + self.ray(t, x, y, x, y + 1, 0, 1) + self.ray(
                t,
                x,
                y,
                x - 1,
                y,
                -1,
                0,
            ),
            self.ray(t, x, y, x, y - 1, 0, -1),
            p,
        );
        self.lemma_ray_proper(x, y, x + 1, y + 1, 1, 1);
        self.lemma_ray_proper(x, y, x - 1, y + 1, -1, 1);
        self.lemma_ray_proper(x, y, x + 1, y - 1, 1, -1);
        self.lemma_ray_proper(x, y, x - 1, y - 1, -1, -1);
        lemma_both(self.ray(t, x, y, x + 1, y + 1, 1, 1), self.ray(t, x, y, x - 1, y + 1, -1, 1), p);
        lemma_both(
            self.ray(t, x, y, x + 1, y + 1, 1, 1) + self.ray(t, x, y, x - 1, y + 1, -1, 1),
            self.ray(t, x, y, x + 1, y - 1, 1, -1),
            p,
        );
        lemma_both(
            self.ray(t, x, y, x + 1, y + 1, 1, 1) + self.ray(t, x, y, x - 1, y + 1, -1, 1)
                + self.ray(t, x, y, x + 1, y - 1, 1, -1),
            self.ray(t, x, y, x - 1, y - 1, -1, -1),
            p,
        );
    }

    proof fn lemma_hops_proper(self, x: int, y: int)
        requires
            on_board(x, y),
            self.board.at(x, y) matches Some(p) && p.colour() == self.turn,
        ensures
            self.board.at(x, y).unwrap().kind() == Piece::Knight ==> forall|k: int|
                0 <= k < self.knight_hops(self.turn, x, y).len() ==> (self.proper())(
                    #[trigger] self.knight_hops(self.turn, x, y)[k],
                ),
            self.board.at(x, y).unwrap().kind() == Piece::King ==> forall|k: int|
                0 <= k < self.king_hops(self.turn, x, y).len() ==> (self.proper())(
                    #[trigger] self.king_hops(self.turn, x, y)[k],
                ),
    {
        let t = self.turn;
        let p = self.proper();
        if self.board.at(x, y).unwrap().kind() == Piece::Knight {
            let a = self.hop(t, x, y, x + 1, y + 2);
            let b = self.hop(t, x, y, x - 1, y + 2);
            let c = self.hop(t, x, y, x + 1, y - 2);
            let d = self.hop(t, x, y, x - 1, y - 2);
            let e = self.hop(t, x, y, x + 2, y + 1);
            let f = self.hop(t, x, y, x - 2, y + 1);
            let g = self.hop(t, x, y, x + 2, y - 1);
            let h = self.hop(t, x, y, x - 2, y - 1);
            self.lemma_hop_proper(x, y, x + 1, y + 2);
            self.lemma_hop_proper(x, y, x - 1, y + 2);
            self.lemma_hop_proper(x, y, x + 1, y - 2);
            self.lemma_hop_proper(x, y, x - 1, y - 2);
            self.lemma_hop_proper(x, y, x + 2, y + 1);
            self.lemma_hop_proper(x, y, x - 2, y + 1);
            self.lemma_hop_proper(x, y, x + 2, y - 1);
            self.lemma_hop_proper(x, y, x - 2, y - 1);
            lemma_both(a, b, p);
            lemma_both(a + b, c, p);
            lemma_both(a + b + c, d, p);
            lemma_both(a + b + c + d, e, p);
            lemma_both(a + b + c + d + e, f, p);
            lemma_both(a + b + c + d + e + f, g, p);
            lemma_both(a + b + c + d + e + f + g, h, p);
        }
        if self.board.at(x, y).unwrap().kind() == Piece::King {
            let a = self.hop(t, x, y, x + 1, y + 1);
            let b = self.hop(t, x, y, x + 1, y);
            let c = self.hop(t, x, y, x + 1, y - 1);
            let d = self.hop(t, x, y, x, y + 1);
            let e = self.hop(t, x, y, x, y - 1);
            let f = self.hop(t, x, y, x - 1, y + 1);
            let g = self.hop(t, x, y, x - 1, y);
            let h = self.hop(t, x, y, x - 1, y - 1);
            self.lemma_hop_proper(x, y, x + 1, y + 1);
            self.lemma_hop_proper(x, y, x + 1, y);
            self.lemma_hop_proper(x, y, x + 1, y - 1);
            self.lemma_hop_proper(x, y, x, y + 1);
            self.lemma_hop_proper(x, y, x, y - 1);
            self.lemma_hop_proper(x, y, x - 1, y + 1);
            self.lemma_hop_proper(x, y, x - 1, y);
            self.lemma_hop_proper(x, y, x - 1, y - 1);
            lemma_both(a, b, p);
            lemma_both(a + b, c, p);
            lemma_both(a + b + c, d, p);
            lemma_both(a + b + c + d, e, p);
            lemma_both(a + b + c + d + e, f, p);
            lemma_both(a + b + c + d + e + f, g, p);
            lemma_both(a + b + c + d + e + f + g, h, p);
        }
    }

    proof fn lemma_pawn_capture_proper(self, x: int, y: int, nx: int, ny: int)
        requires
            on_board(x, y),
            0 <= ny < 8,
            ny == (if self.turn == PlayerColour::White {
                y + 1
            } else {
                y - 1
            }),
            nx == x - 1 || nx == x + 1,
            self.passant_fits(),
            self.board.at(x, y) matches Some(p) && p.colour() == self.turn && p.kind()
                == Piece::Pawn,
        ensures
            forall|k: int|
                0 <= k < self.pawn_capture(self.turn, x, y, nx, ny).len() ==> (self.proper())(
                    #[trigger] self.pawn_capture(self.turn, x, y, nx, ny)[k],
                ),
    {
        reveal(GameState::pawn_capture);
        let from = y * 8 + x;
        assert(from % 8 == x && from / 8 == y);
        if 0 <= nx < 8 {
            let to = ny * 8 + nx;
            assert(to % 8 == nx && to / 8 == ny);
        }
    }

    proof fn lemma_pawn_steps_proper(self, x: int, y: int)
        requires
            on_board(x, y),
            0 <= (if self.turn == PlayerColour::White {
                y + 1
            } else {
                y - 1
            }) < 8,
            self.board.at(x, y) matches Some(p) && p.colour() == self.turn && p.kind()
                == Piece::Pawn,
        ensures
            forall|k: int|
                0 <= k < self.pawn_steps(self.turn, x, y).len() ==> (self.proper())(
                    #[trigger] self.pawn_steps(self.turn, x, y)[k],
                ),
    {
        reveal(GameState::pawn_steps);
        let ny = if self.turn == PlayerColour::White {
            y + 1
        } else {
            y - 1
        };
        let ny2 = if self.turn == PlayerColour::White {
            y + 2
        } else {
            y - 2
        };
        let from = y * 8 + x;
        assert(from % 8 == x && from / 8 == y);
        let m = ny * 8 + x;
        assert(m % 8 == x && m / 8 == ny);
        if 0 <= ny2 < 8 {
            let m2 = ny2 * 8 + x;
            assert(m2 % 8 == x && m2 / 8 == ny2);
        }
    }

    proof fn lemma_pawn_proper(self, x: int, y: int)
        requires
            on_board(x, y),
            self.passant_fits(),
            self.board.at(x, y) matches Some(p) && p.colour() == self.turn && p.kind()
                == Piece::Pawn,
        ensures
            forall|k: int|
                0 <= k < self.pawn_moves(self.turn, x, y).len() ==> (self.proper())(
                    #[trigger] self.pawn_moves(self.turn, x, y)[k],
                ),
    {
        let t = self.turn;
        let p = self.proper();
        let ny = if t == PlayerColour::White {
            y + 1
        } else {
            y - 1
        };
        if 0 <= ny < 8 {
            let a = self.pawn_capture(t, x, y, x - 1, ny);
            let b = self.pawn_capture(t, x, y, x + 1, ny);
            let c = self.pawn_steps(t, x, y);
            self.lemma_pawn_capture_proper(x, y, x - 1, ny);
            self.lemma_pawn_capture_proper(x, y, x + 1, ny);
            self.lemma_pawn_steps_proper(x, y);
            lemma_both(a, b, p);
            lemma_both(a + b, c, p);
        }
    }

    proof fn lemma_piece_proper(self, sq: int)
        requires
            0 <= sq < 64,
            self.passant_fits(),
        ensures
            forall|k: int|
                0 <= k < self.piece_moves(sq).len() ==> (self.proper())(
                    #[trigger] self.piece_moves(sq)[k],
                ),
    {
        let x = sq % 8;
        let y = sq / 8;
        assert(sq == y * 8 + x);
        match self.board@[sq] {
            None => {},
            Some(piece) => {
                if piece.colour() == self.turn {
                    match piece.kind() {
                        Piece::Pawn => {
                            self.lemma_pawn_proper(x, y);
                        },
                        Piece::Knight => {
                            self.lemma_hops_proper(x, y);
                        },
                        Piece::Bishop => {
                            self.lemma_rays_proper(x, y);
                        },
                        Piece::Rook => {
                            self.lemma_rays_proper(x, y);
                        },
                        Piece::Queen => {
                            self.lemma_rays_proper(x, y);
                            lemma_both(
                                self.bishop_rays(self.turn, x, y),
                                self.rook_rays(self.turn, x, y),
                                self.proper(),
                            );
                        },
                        Piece::King => {
                            self.lemma_hops_proper(x, y);
                        },
                    }
                }
            },
        }
    }

    proof fn lemma_scan_proper(self, hi: int)
        requires
            0 <= hi <= 64,
            self.passant_fits(),
        ensures
            forall|k: int|
                0 <= k < self.scan(0, hi).len() ==> (self.proper())(#[trigger] self.scan(0, hi)[k]),
        decreases hi,
    {
        if hi > 0 {
            self.lemma_scan_proper(hi - 1);
            self.lemma_piece_proper(hi - 1);
            lemma_both(self.scan(0, hi - 1), self.piece_moves(hi - 1), self.proper());
        }
    }

    /// Every preliminary move fits, and every one but the last, which is the king's move onto
    /// its own square, goes from one square to another.
    pub proof fn lemma_preliminary_fits(self)
        requires
            self.rights_fit(),
            self.passant_fits(),
        ensures
            self.preliminary().len() >= 1,
            self.preliminary().last().from == self.preliminary().last().to,
            forall|k: int|
                0 <= k < self.preliminary().len() ==> self.fits(#[trigger] self.preliminary()[k]),
            forall|k: int|
                0 <= k < self.preliminary().len() - 1 ==> (#[trigger] self.preliminary()[k]).from
                    != self.preliminary()[k].to,
    {
        self.lemma_scan_proper(64);
        let a = self.scan(0, 64);
        let c = self.castle_tries();
        let all = self.preliminary();
        let white = self.turn == PlayerColour::White;
        let y = if white {
            0int
        } else {
            7
        };
        assert(self.all_empty(y, 5, 6) ==> self.board.at(5, y) is None && self.board.at(6, y)
            is None);
        assert(self.all_empty(y, 1, 3) ==> self.board.at(1, y) is None && self.board.at(2, y)
            is None && self.board.at(3, y) is None);
        assert forall|k: int| 0 <= k < c.len() implies self.fits(#[trigger] c[k]) && (k < c.len()
            - 1 ==> c[k].from != c[k].to) by {}
        assert forall|k: int| 0 <= k < all.len() implies self.fits(#[trigger] all[k]) && (k
            < all.len() - 1 ==> all[k].from != all[k].to) by {
            if k < a.len() {
                assert(all[k] == a[k]);
                assert((self.proper())(a[k]));
            } else {
                assert(all[k] == c[k - a.len()]);
            }
        }
    }
}

/// What holds of everything in two runs holds of everything in their concatenation.
proof fn lemma_both<T>(a: Seq<T>, b: Seq<T>, p: spec_fn(T) -> bool)
    requires
        forall|k: int| 0 <= k < a.len() ==> p(#[trigger] a[k]),
        forall|k: int| 0 <= k < b.len() ==> p(#[trigger] b[k]),
    ensures
        forall|k: int| 0 <= k < (a + b).len() ==> p(#[trigger] (a + b)[k]),
{
    assert forall|k: int| 0 <= k < (a + b).len() implies p(#[trigger] (a + b)[k]) by {
        if k < a.len() {
            assert((a + b)[k] == a[k]);
        } else {
            assert((a + b)[k] == b[k - a.len()]);
        }
    }
}

impl GameState {
    /// After the move the side that made it is not in check.
    pub open spec fn keeps(self) -> spec_fn(FesMoveDet) -> bool {
        |m: FesMoveDet| self.played(m).no_king_capture()
    }

    /// The preliminary moves that do not leave the king in check.
    pub open spec fn checked(self) -> Seq<FesMoveDet> {
        self.preliminary().filter(self.keeps())
    }

    /// The king of the side to move is in check: its move onto its own square, the last of
    /// the preliminary moves, is not among the checked ones.
    pub open spec fn in_check(self) -> bool {
        self.checked().len() == 0 || self.checked().last().from != self.checked().last().to
    }

    /// The checked moves without the king's move onto its own square.
    pub open spec fn candidates(self) -> Seq<FesMoveDet> {
        if self.in_check() {
            self.checked()
        } else {
            self.checked().drop_last()
        }
    }

    /// Entry `i` of `ms` is a castling move that is not allowed: the king is in check, or
    /// its step onto the square that it would pass is not among `ms`.
    pub open spec fn bad_castle(self, ms: Seq<FesMoveDet>, i: int) -> bool {
        0 <= i < ms.len() && self.king_moves_in(ms[i]) && {
            let m = ms[i];
            let d = m.from - m.to;
            (d == 2 && (self.in_check() || !ms.contains(
                detailed(m.from as int, m.to + 1, None, None, false, m.meta),
            ))) || (d == -2 && (self.in_check() || !ms.contains(
                detailed(m.from as int, m.to - 1, None, None, false, m.meta),
            )))
        }
    }

    /// `ms` without entry `i`, if that is a castling move that is not allowed.
    pub open spec fn strip(self, ms: Seq<FesMoveDet>, i: int) -> Seq<FesMoveDet> {
        if self.bad_castle(ms, i) {
            ms.remove(i)
        } else {
            ms
        }
    }

    /// The legal moves: the candidates, where the last two are dropped if they are castling
    /// moves that are not allowed.
    pub open spec fn legal_moves(self) -> Seq<FesMoveDet> {
        let c = self.candidates();
        if c.len() == 0 {
            c
        } else if c.len() == 1 {
            self.strip(c, 0)
        } else {
            self.strip(self.strip(c, c.len() - 1), c.len() - 2)
        }
    }

    /// The candidates are the checked ones among the preliminary moves before the last.
    proof fn lemma_candidates(self)
        requires
            self.rights_fit(),
            self.passant_fits(),
        ensures
            self.candidates() == self.preliminary().drop_last().filter(self.keeps()),
            forall|k: int|
                0 <= k < self.candidates().len() ==> self.fits(#[trigger] self.candidates()[k])
                    && self.candidates()[k].from != self.candidates()[k].to
                    && self.preliminary().contains(self.candidates()[k]) && (self.keeps())(
                    self.candidates()[k],
                ),
    {
        let all = self.preliminary();
        let pred = self.keeps();
        let front = all.drop_last();
        let sub = front.filter(pred);
        self.lemma_preliminary_fits();
        lemma_filter_last(all, pred);
        assert forall|k: int| 0 <= k < sub.len() implies self.fits(#[trigger] sub[k]) && sub[k].from
            != sub[k].to && all.contains(sub[k]) && pred(sub[k]) by {
            front.lemma_filter_pred(pred, k);
            assert(sub.contains(sub[k]));
            front.lemma_filter_contains_rev(pred, sub[k]);
            let j = choose|j: int| 0 <= j < front.len() && front[j] == sub[k];
            assert(front[j] == all[j]);
        }
        if pred(all.last()) {
            assert(self.checked().last() == all.last());
            assert(self.checked().drop_last() =~= sub);
        } else {
            if sub.len() > 0 {
                assert(sub.last() == sub[sub.len() - 1]);
            }
        }
        assert(self.candidates() =~= sub);
    }

    /// What is left of a list after an entry was dropped from it is in the list.
    proof fn lemma_strip_subset(self, ms: Seq<FesMoveDet>, i: int, x: FesMoveDet)
        requires
            self.strip(ms, i).contains(x),
        ensures
            ms.contains(x),
    {
        if self.bad_castle(ms, i) {
            let r = ms.remove(i);
            let k = choose|k: int| 0 <= k < r.len() && r[k] == x;
            if k < i {
                assert(ms[k] == x);
            } else {
                assert(ms[k + 1] == x);
            }
        }
    }

    /// Every legal move is a preliminary move other than the king's move onto its own
    /// square, fits, takes no king, and leaves the side that made it out of check.
    pub proof fn lemma_legal_moves(self, m: FesMoveDet)
        requires
            self.sound(),
            self.legal_moves().contains(m),
        ensures
            self.fits(m),
            m.from != m.to,
            m.take != Some(Piece::King),
            self.played(m).no_king_capture(),
    {
        self.lemma_candidates();
        let c = self.candidates();
        let one = if c.len() == 0 {
            c
        } else {
            self.strip(c, c.len() - 1)
        };
        if c.len() >= 2 {
            self.lemma_strip_subset(one, c.len() - 2, m);
        }
        if c.len() >= 1 {
            self.lemma_strip_subset(c, c.len() - 1, m);
        }
        assert(c.contains(m));
        let k = choose|k: int| 0 <= k < c.len() && c[k] == m;
        assert(self.fits(c[k]));
        let j = choose|j: int| 0 <= j < self.preliminary().len() && self.preliminary()[j] == m;
        assert(self.preliminary()[j].take != Some(Piece::King));
    }

    /// Whether the move leaves the side that makes it out of check.
    fn validate_move(&self, mov: &FesMoveDet) -> (r: bool)
        requires
            self.has_mover(*mov),
        ensures
            r == self.played(*mov).no_king_capture(),
    {
        let mut next = *self;
        next.apply(mov);
        let replies = next.get_preliminary_moves();
        let mut i: usize = 0;
        while i < replies.len()
            invariant
                i <= replies.len(),
                next == self.played(*mov),
                replies@ == next.preliminary(),
                forall|k: int| 0 <= k < i ==> (#[trigger] replies@[k]).take != Some(Piece::King),
            decreases replies.len() - i,
        {
            match replies[i].take {
                Some(Piece::King) => {
                    assert(replies@[i as int].take == Some(Piece::King));
                    assert(next.preliminary()[i as int].take == Some(Piece::King));
                    assert(!next.no_king_capture());
                    assert(next == self.played(*mov));
                    return false;
                },
                _ => {},
            }
            i += 1;
        }
        true
    }

    /// Drops entry `i` of `moves` if it is a castling move that is not allowed.
    fn strip_castle(&self, moves: &mut Vec<FesMoveDet>, i: usize, is_check: bool)
        requires
            is_check == self.in_check(),
            forall|k: int|
                0 <= k < old(moves)@.len() ==> (#[trigger] old(moves)@[k]).from < 64
                    && old(moves)@[k].to < 64,
        ensures
            final(moves)@ == self.strip(old(moves)@, i as int),
            forall|k: int|
                0 <= k < final(moves)@.len() ==> (#[trigger] final(moves)@[k]).from < 64
                    && final(moves)@[k].to < 64,
    {
        if i >= moves.len() {
            return ;
        }
        let m = moves[i];
        let (fx, fy) = unpack_index(m.from);
        assert(fy * 8 + fx == m.from);
        let is_king = match self.board.get(fx, fy) {
            Some(p) => match p.piece() {
                Piece::King => true,
                _ => false,
            },
            None => false,
        };
        if !is_king {
            return ;
        }
        let dist = m.from as i16 - m.to as i16;
        let bad = if dist == 2 {
            let step = FesMoveDet {
                from: m.from,
                to: m.to + 1,
                promo: None,
                take: None,
                enpas: false,
                meta: m.meta,
            };
            is_check || !has_move(moves, &step)
        } else if dist == -2 {
            let step = FesMoveDet {
                from: m.from,
                to: m.to - 1,
                promo: None,
                take: None,
                enpas: false,
                meta: m.meta,
            };
            is_check || !has_move(moves, &step)
        } else {
            false
        };
        if bad {
            proof {
                old(moves)@.remove_ensures(i as int);
            }
            moves.remove(i);
        }
    }

    /// The legal moves of the game.
    fn list_moves(&self) -> (r: Vec<FesMoveDet>)
        requires
            self.rights_fit(),
            self.passant_fits(),
        ensures
            r@ == self.legal_moves(),
    {
        let prelim = self.get_preliminary_moves();
        let ghost pred = self.keeps();
        proof {
            self.lemma_preliminary_fits();
        }
        let mut moves: Vec<FesMoveDet> = Vec::new();
        let mut i: usize = 0;
        assert(prelim@.take(0) =~= Seq::<FesMoveDet>::empty());
        proof {
            lemma_filter_none(pred);
        }
        while i < prelim.len()
            invariant
                i <= prelim.len(),
                prelim@ == self.preliminary(),
                pred == self.keeps(),
                forall|k: int| 0 <= k < prelim@.len() ==> self.fits(#[trigger] prelim@[k]),
                forall|k: int|
                    0 <= k < moves@.len() ==> (#[trigger] moves@[k]).from < 64 && moves@[k].to < 64,
                moves@ == prelim@.take(i as int).filter(pred),
            decreases prelim.len() - i,
        {
            proof {
                let upto = prelim@.take(i + 1);
                assert(upto.drop_last() =~= prelim@.take(i as int));
                assert(upto.last() == prelim@[i as int]);
                lemma_filter_last(upto, pred);
            }
            if self.validate_move(&prelim[i]) {
                moves.push(prelim[i]);
            }
            i += 1;
        }
        assert(prelim@.take(i as int) =~= prelim@);
        assert(moves@ == self.checked());
        let is_check = moves.len() == 0 || moves[moves.len() - 1].from != moves[moves.len()
            - 1].to;
        if !is_check {
            moves.pop();
        }
        assert(moves@ == self.candidates());
        // castling moves are always the last two to be added
        if moves.len() == 0 {
            return moves;
        }
        let last = moves.len() - 1;
        self.strip_castle(&mut moves, last, is_check);
        if last > 0 {
            self.strip_castle(&mut moves, last - 1, is_check);
        }
        moves
    }
}

/// The filter of the empty list is empty.
proof fn lemma_filter_none<T>(pred: spec_fn(T) -> bool)
    ensures
        Seq::<T>::empty().filter(pred) == Seq::<T>::empty(),
{
    reveal(Seq::filter);
}

/// The filter of a list is the filter of the list without its last entry, and that entry
/// where it is to be kept.
proof fn lemma_filter_last<T>(s: Seq<T>, pred: spec_fn(T) -> bool)
    requires
        s.len() > 0,
    ensures
        s.filter(pred) == if pred(s.last()) {
            s.drop_last().filter(pred).push(s.last())
        } else {
            s.drop_last().filter(pred)
        },
{
    reveal(Seq::filter);
}

/// Whether `m` is one of `moves`.
fn has_move(moves: &Vec<FesMoveDet>, m: &FesMoveDet) -> (r: bool)
    ensures
        r == moves@.contains(*m),
{
    let mut i: usize = 0;
    while i < moves.len()
        invariant
            i <= moves.len(),
            forall|k: int| 0 <= k < i ==> moves@[k] != *m,
        decreases moves.len() - i,
    {
        if moves[i] == *m {
            return true;
        }
        i += 1;
    }
    false
}

/// The piece that a tag of the piece placement stands for.
pub open spec fn piece_for(tag: u8) -> Option<ColouredPiece> {
    if tag == 12 {
        Some(ColouredPiece::WhitePawn)
    } else if tag == 13 {
        Some(ColouredPiece::WhiteKnight)
    } else if tag == 9 {
        Some(ColouredPiece::WhiteBishop)
    } else if tag == 10 {
        Some(ColouredPiece::WhiteRook)
    } else if tag == 11 {
        Some(ColouredPiece::WhiteQueen)
    } else if tag == 15 {
        Some(ColouredPiece::WhiteKing)
    } else if tag == 4 {
        Some(ColouredPiece::BlackPawn)
    } else if tag == 5 {
        Some(ColouredPiece::BlackKnight)
    } else if tag == 1 {
        Some(ColouredPiece::BlackBishop)
    } else if tag == 2 {
        Some(ColouredPiece::BlackRook)
    } else if tag == 3 {
        Some(ColouredPiece::BlackQueen)
    } else if tag == 7 {
        Some(ColouredPiece::BlackKing)
    } else {
        None
    }
}

fn piece_of_tag(tag: u8) -> (r: Option<ColouredPiece>)
    ensures
        r == piece_for(tag),
{
    match tag {
        12 => Some(ColouredPiece::WhitePawn),
        13 => Some(ColouredPiece::WhiteKnight),
        9 => Some(ColouredPiece::WhiteBishop),
        10 => Some(ColouredPiece::WhiteRook),
        11 => Some(ColouredPiece::WhiteQueen),
        15 => Some(ColouredPiece::WhiteKing),
        4 => Some(ColouredPiece::BlackPawn),
        5 => Some(ColouredPiece::BlackKnight),
        1 => Some(ColouredPiece::BlackBishop),
        2 => Some(ColouredPiece::BlackRook),
        3 => Some(ColouredPiece::BlackQueen),
        7 => Some(ColouredPiece::BlackKing),
        _ => None,
    }
}

impl Board {
    /// The board holds what the 64 tags of a piece placement, in reading order, stand for.
    pub open spec fn laid_out_by(self, tags: Seq<u8>) -> bool {
        tags.len() == 64 && forall|sq: int|
            0 <= sq < 64 ==> #[trigger] self@[sq] == piece_for(tags[(7 - sq / 8) * 8 + sq % 8])
    }

    /// The board that a bitboard holds.
    fn of_bitboard(bb: &BitBoard) -> (r: Self)
        ensures
            forall|sq: int|
                0 <= sq < 64 ==> #[trigger] r@[sq] == piece_for(bb.tag((sq / 8) * 8 + 7 - sq % 8)),
    {
        let mut board = Board::new();
        let mut sq: usize = 0;
        while sq < 64
            invariant
                sq <= 64,
                forall|k: int|
                    0 <= k < sq ==> #[trigger] board@[k] == piece_for(
                        bb.tag((k / 8) * 8 + 7 - k % 8),
                    ),
            decreases 64 - sq,
        {
            let x = sq % 8;
            let y = sq / 8;
            let piece = piece_of_tag(bb.tag_at((y * 8 + 7 - x) as u8));
            board.put(x, y, piece);
            sq += 1;
        }
        board
    }

    /// The board that the piece placement of a FEN record describes, if it is one.
    pub fn from_fen(input: &str) -> (r: Option<Self>)
        ensures
            match placement_tags(input@) {
                Some(tags) => r matches Some(b) && b.laid_out_by(tags),
                None => r is None,
            },
    {
        let s = chars_of(input);
        assert(s@.subrange(0, s@.len() as int) =~= input@);
        match read_placement(&s, 0, s.len()) {
            Some(bb) => {
                let board = Board::of_bitboard(&bb);
                proof {
                    let tags = placement_tags(input@).unwrap();
                    assert forall|sq: int| 0 <= sq < 64 implies #[trigger] board@[sq] == piece_for(
                        tags[(7 - sq / 8) * 8 + sq % 8],
                    ) by {
                        let at = (sq / 8) * 8 + 7 - sq % 8;
                        assert(bb.tag(at) == tags[63 - at]);
                    }
                }
                Some(board)
            },
            None => None,
        }
    }

    fn holds(&self, sq: usize, piece: ColouredPiece) -> (r: bool)
        requires
            sq < 64,
        ensures
            r == (self@[sq as int] == Some(piece)),
    {
        match self.pieces[sq] {
            Some(p) => p == piece,
            None => false,
        }
    }

    fn vacant(&self, sq: usize) -> (r: bool)
        requires
            sq < 64,
        ensures
            r == (self@[sq as int] is None),
    {
        self.pieces[sq].is_none()
    }
}

impl GameState {
    /// The game is what the FEN record says: the board, the side to move, the castling
    /// rights, and the file of the en-passant target.
    pub open spec fn laid_out_by(self, record: FenRecord) -> bool {
        &&& self.board.laid_out_by(record.tags)
        &&& self.turn == (if record.turn {
            PlayerColour::White
        } else {
            PlayerColour::Black
        })
        &&& self.meta == (GSMetaData {
            white_ks_castle: record.white_ks,
            black_ks_castle: record.black_ks,
            white_qs_castle: record.white_qs,
            black_qs_castle: record.black_qs,
            enpasant_col: match record.ep {
                Some(sq) => Some((7 - sq % 8) as u8),
                None => None,
            },
        })
    }

    /// Whether castling rights and double-step file fit the board.
    fn check_fit(&self) -> (r: bool)
        ensures
            r == (self.rights_fit() && self.passant_fits()),
    {
        let b = &self.board;
        let rights = (!self.meta.white_ks_castle || (b.holds(4, ColouredPiece::WhiteKing) && b.holds(
            7,
            ColouredPiece::WhiteRook,
        ))) && (!self.meta.white_qs_castle || (b.holds(4, ColouredPiece::WhiteKing) && b.holds(
            0,
            ColouredPiece::WhiteRook,
        ))) && (!self.meta.black_ks_castle || (b.holds(60, ColouredPiece::BlackKing) && b.holds(
            63,
            ColouredPiece::BlackRook,
        ))) && (!self.meta.black_qs_castle || (b.holds(60, ColouredPiece::BlackKing) && b.holds(
            56,
            ColouredPiece::BlackRook,
        )));
        let passant = match self.meta.enpasant_col {
            None => true,
            Some(c) => c < 8 && match self.turn {
                PlayerColour::White => b.holds(32 + c as usize, ColouredPiece::BlackPawn)
                    && b.vacant(40 + c as usize),
                PlayerColour::Black => b.holds(24 + c as usize, ColouredPiece::WhitePawn)
                    && b.vacant(16 + c as usize),
            },
        };
        rights && passant
    }

    /// Whether no preliminary move takes a king.
    fn check_kings(&self) -> (r: bool)
        ensures
            r == self.no_king_capture(),
    {
        let moves = self.get_preliminary_moves();
        let mut i: usize = 0;
        while i < moves.len()
            invariant
                i <= moves.len(),
                moves@ == self.preliminary(),
                forall|k: int| 0 <= k < i ==> (#[trigger] moves@[k]).take != Some(Piece::King),
            decreases moves.len() - i,
        {
            match moves[i].take {
                Some(Piece::King) => {
                    assert(self.preliminary()[i as int].take == Some(Piece::King));
                    return false;
                },
                _ => {},
            }
            i += 1;
        }
        true
    }
}

/// The position at the start of a game as a FEN record.
pub const START: &'static str = "rnbqkbnr/pppppppp/8/8/8/8/PPPPPPPP/RNBQKBNR w KQkq - 0 1";

impl ChessGame for GameState {
    type Move = FesMoveDet;

    type UnMove = FesMoveDet;

    open spec fn wf(&self) -> bool {
        self.sound()
    }

    open spec fn legal(&self) -> Seq<FesMoveDet> {
        self.legal_moves()
    }

    open spec fn after(&self, mov: &FesMoveDet) -> Self {
        self.played(*mov)
    }

    /// A move takes itself back, where it fits the game it was played in.
    open spec fn undoes(un: &FesMoveDet, before: &Self, after: &Self) -> bool {
        before.fits(*un) && *after == before.played(*un)
    }

    /// The position at the start of a game.
    fn new() -> (r: Self)
        ensures
            r.at_start(),
    {
        Self::opening()
    }

    /// The game that a FEN record describes, if it is one and the game is sound.
    fn from_fen(input: &str) -> (r: Option<Self>)
        ensures
            match parse_fen(input@) {
                None => r is None,
                Some(record) => match r {
                    Some(g) => g.laid_out_by(record),
                    None => forall|g: GameState| g.laid_out_by(record) ==> !g.sound(),
                },
            },
    {
        let parsed = match read_fen(input) {
            Some(p) => p,
            None => {
                return None;
            },
        };
        let ghost record = parse_fen(input@).unwrap();
        let board = Board::of_bitboard(&parsed.board);
        let state = GameState {
            turn: if parsed.turn {
                PlayerColour::White
            } else {
                PlayerColour::Black
            },
            board,
            meta: GSMetaData {
                white_ks_castle: parsed.white_ks,
                black_ks_castle: parsed.black_ks,
                white_qs_castle: parsed.white_qs,
                black_qs_castle: parsed.black_qs,
                enpasant_col: match parsed.ep {
                    Some(sq) => Some(7 - sq % 8),
                    None => None,
                },
            },
        };
        proof {
            assert forall|sq: int| 0 <= sq < 64 implies #[trigger] board@[sq] == piece_for(
                record.tags[(7 - sq / 8) * 8 + sq % 8],
            ) by {
                let at = (sq / 8) * 8 + 7 - sq % 8;
                assert(parsed.board.tag(at) == record.tags[63 - at]);
            }
            assert(state.laid_out_by(record));
            assert forall|g: GameState| g.laid_out_by(record) implies g == state by {
                broadcast use vstd::array::group_array_axioms;

                assert forall|i: int| 0 <= i < 64 implies g.board.pieces[i]
                    == state.board.pieces[i] by {
                    assert(g.board@[i] == state.board@[i]);
                }
                assert(g.board.pieces =~= state.board.pieces);
            }
        }
        if state.check_fit() && state.check_kings() {
            Some(state)
        } else {
            None
        }
    }

    fn moves(&self) -> (r: Vec<Self::Move>) {
        self.list_moves()
    }

    fn do_move(&mut self, mov: &Self::Move) -> (un: Self::UnMove) {
        proof {
            self.lemma_legal_moves(*mov);
            self.lemma_played_fits(*mov);
        }
        self.apply(mov);
        *mov
    }

    fn unmove(&mut self, mov: &Self::UnMove) {
        proof {
            let before = choose|before: Self| Self::undoes(mov, &before, self);
            assert(before.fits(*mov));
        }
        let ghost here = *self;
        self.revert(mov);
        proof {
            assert forall|before: Self| Self::undoes(mov, &before, &here) implies *self
                == before by {
                before.lemma_round_trip(*mov);
            }
        }
    }
}

/// The character that stands for a square: the piece's letter, or a dot.
pub open spec fn square_char(v: Option<ColouredPiece>) -> char {
    match v {
        Some(p) => p.letter(),
        None => '.',
    }
}

/// The board as eight lines of eight characters, rank 8 first, each ended by a line feed.
pub open spec fn board_text(b: Board) -> Seq<char> {
    Seq::new(
        72,
        |j: int|
            if j % 9 == 8 {
                '\n'
            } else {
                square_char(b@[(7 - j / 9) * 8 + j % 9])
            },
    )
}

/// The letters of the castling rights that are set, in the order `KQkq`.
pub open spec fn rights_text(meta: GSMetaData) -> Seq<char> {
    (if meta.white_ks_castle {
        seq!['K']
    } else {
        Seq::empty()
    }) + (if meta.white_qs_castle {
        seq!['Q']
    } else {
        Seq::empty()
    }) + (if meta.black_ks_castle {
        seq!['k']
    } else {
        Seq::empty()
    }) + (if meta.black_qs_castle {
        seq!['q']
    } else {
        Seq::empty()
    })
}

/// The file of a double step as text: `None`, or `Some(` and the file's digit and `)`. A
/// file beyond 9 is written as `?`.
pub open spec fn file_text(col: Option<u8>) -> Seq<char> {
    match col {
        None => "None"@,
        Some(c) => "Some("@.push(
            if c < 10 {
                ('0' as int + c) as char
            } else {
                '?'
            },
        ).push(')'),
    }
}

/// The game as text: the board, the castling rights, the file of a double step and the side
/// to move.
pub open spec fn game_text(g: GameState) -> Seq<char> {
    board_text(g.board) + "Castle rights: "@ + rights_text(g.meta) + seq!['\n'] + "ep: "@
        + file_text(g.meta.enpasant_col) + seq!['\n'] + "Player: "@ + (match g.turn {
        PlayerColour::White => "white"@,
        PlayerColour::Black => "black"@,
    }) + " to play."@
}

impl Board {
    /// The board as text.
    pub fn to_string(&self) -> (r: String)
        ensures
            r@ == board_text(*self),
    {
        let mut text = String::new();
        let mut i: usize = 0;
        while i < 64
            invariant
                i <= 64,
                text@.len() == i + i / 8,
                forall|j: int| 0 <= j < text@.len() ==> text@[j] == board_text(*self)[j],
            decreases 64 - i,
        {
            let row = 7 - i / 8;
            let c = match self.pieces[row * 8 + i % 8] {
                Some(p) => letter_of(p),
                None => '.',
            };
            text.push(c);
            if i % 8 == 7 {
                text.push('\n');
            }
            i += 1;
        }
        assert(text@ =~= board_text(*self));
        text
    }
}

fn letter_of(p: ColouredPiece) -> (r: char)
    ensures
        r == p.letter(),
{
    match p {
        ColouredPiece::WhitePawn => 'P',
        ColouredPiece::WhiteKnight => 'N',
        ColouredPiece::WhiteBishop => 'B',
        ColouredPiece::WhiteRook => 'R',
        ColouredPiece::WhiteQueen => 'Q',
        ColouredPiece::WhiteKing => 'K',
        ColouredPiece::BlackPawn => 'p',
        ColouredPiece::BlackKnight => 'n',
        ColouredPiece::BlackBishop => 'b',
        ColouredPiece::BlackRook => 'r',
        ColouredPiece::BlackQueen => 'q',
        ColouredPiece::BlackKing => 'k',
    }
}

impl GameState {
    /// The game as text.
    pub fn to_string(&self) -> (r: String)
        ensures
            r@ == game_text(*self),
    {
        let mut text = self.board.to_string();
        text.append("Castle rights: ");
        let ghost head = text@;
        if self.meta.white_ks_castle {
            text.push('K');
        }
        if self.meta.white_qs_castle {
            text.push('Q');
        }
        if self.meta.black_ks_castle {
            text.push('k');
        }
        if self.meta.black_qs_castle {
            text.push('q');
        }
        assert(text@ =~= head + rights_text(self.meta));
        text.push('\n');
        text.append("ep: ");
        let ghost middle = text@;
        assert(middle =~= head + rights_text(self.meta) + seq!['\n'] + "ep: "@);
        match self.meta.enpasant_col {
            None => {
                text.append("None");
            },
            Some(c) => {
                text.append("Some(");
                text.push(
                    if c < 10 {
                        (48u8 + c) as char
                    } else {
                        '?'
                    },
                );
                text.push(')');
            },
        }
        assert(text@ =~= middle + file_text(self.meta.enpasant_col));
        text.push('\n');
        text.append("Player: ");
        let ghost tail = text@;
        assert(tail =~= middle + file_text(self.meta.enpasant_col) + seq!['\n'] + "Player: "@);
        match self.turn {
            PlayerColour::White => {
                text.append("white");
            },
            PlayerColour::Black => {
                text.append("black");
            },
        }
        text.append(" to play.");
        assert(text@ =~= game_text(*self));
        text
    }
}

/// What stands on file `x` of rank `y` at the start of a game.
pub open spec fn start_at(x: int, y: int) -> Option<ColouredPiece> {
    if y == 1 {
        Some(ColouredPiece::WhitePawn)
    } else if y == 6 {
        Some(ColouredPiece::BlackPawn)
    } else if y == 0 {
        Some(
            if x == 0 || x == 7 {
                ColouredPiece::WhiteRook
            } else if x == 1 || x == 6 {
                ColouredPiece::WhiteKnight
            } else if x == 2 || x == 5 {
                ColouredPiece::WhiteBishop
            } else if x == 3 {
                ColouredPiece::WhiteQueen
            } else {
                ColouredPiece::WhiteKing
            },
        )
    } else if y == 7 {
        Some(
            if x == 0 || x == 7 {
                ColouredPiece::BlackRook
            } else if x == 1 || x == 6 {
                ColouredPiece::BlackKnight
            } else if x == 2 || x == 5 {
                ColouredPiece::BlackBishop
            } else if x == 3 {
                ColouredPiece::BlackQueen
            } else {
                ColouredPiece::BlackKing
            },
        )
    } else {
        None
    }
}

/// None of the moves takes a piece.
pub open spec fn harmless(moves: Seq<FesMoveDet>) -> bool {
    forall|j: int| 0 <= j < moves.len() ==> (#[trigger] moves[j]).take is None
}

/// Harmless moves after harmless moves are harmless.
proof fn lemma_harmless_join(a: Seq<FesMoveDet>, b: Seq<FesMoveDet>)
    requires
        harmless(a),
        harmless(b),
    ensures
        harmless(a + b),
{
    assert forall|j: int| 0 <= j < (a + b).len() implies (#[trigger] (a + b)[j]).take is None by {
        if j < a.len() {
            assert((a + b)[j] == a[j]);
        } else {
            assert((a + b)[j] == b[j - a.len()]);
        }
    }
}

/// The piece of the first or last rank that stands on file `x` at the start of a game.
fn back_rank_piece(white: bool, x: usize) -> (r: ColouredPiece)
    requires
        x < 8,
    ensures
        Some(r) == start_at(x as int, if white {
            0int
        } else {
            7
        }),
{
    if x == 0 || x == 7 {
        if white {
            ColouredPiece::WhiteRook
        } else {
            ColouredPiece::BlackRook
        }
    } else if x == 1 || x == 6 {
        if white {
            ColouredPiece::WhiteKnight
        } else {
            ColouredPiece::BlackKnight
        }
    } else if x == 2 || x == 5 {
        if white {
            ColouredPiece::WhiteBishop
        } else {
            ColouredPiece::BlackBishop
        }
    } else if x == 3 {
        if white {
            ColouredPiece::WhiteQueen
        } else {
            ColouredPiece::BlackQueen
        }
    } else {
        if white {
            ColouredPiece::WhiteKing
        } else {
            ColouredPiece::BlackKing
        }
    }
}

impl GameState {
    /// The game is at its start: the pieces stand on their first squares, white is to move,
    /// every castling right is there, and no pawn has taken a double step.
    pub open spec fn at_start(self) -> bool {
        &&& self.turn == PlayerColour::White
        &&& self.meta == (GSMetaData {
            white_ks_castle: true,
            black_ks_castle: true,
            white_qs_castle: true,
            black_qs_castle: true,
            enpasant_col: None,
        })
        &&& forall|x: int, y: int| on_board(x, y) ==> #[trigger] self.board.at(x, y) == start_at(x, y)
    }

    /// A hop onto a square that holds no piece of the other colour takes nothing.
    proof fn lemma_hop_harmless(self, col: PlayerColour, x: int, y: int, nx: int, ny: int)
        requires
            on_board(nx, ny) ==> (self.board.at(nx, ny) matches Some(p) ==> p.colour() == col),
        ensures
            harmless(self.hop(col, x, y, nx, ny)),
    {
        reveal(GameState::hop);
    }

    /// A slide that starts off the board or on a piece of the slider's colour goes nowhere.
    proof fn lemma_ray_shut(
        self,
        col: PlayerColour,
        x: int,
        y: int,
        nx: int,
        ny: int,
        dx: int,
        dy: int,
    )
        requires
            on_board(nx, ny) ==> (self.board.at(nx, ny) matches Some(p) && p.colour() == col),
        ensures
            self.ray(col, x, y, nx, ny, dx, dy) == Seq::<FesMoveDet>::empty(),
    {
        reveal(GameState::hop);
        assert(self.ray(col, x, y, nx, ny, dx, dy) =~= Seq::<FesMoveDet>::empty());
    }

    /// At the start of a game no move of the piece on a square takes anything.
    proof fn lemma_start_moves(self, sq: int)
        requires
            self.at_start(),
            0 <= sq < 64,
        ensures
            harmless(self.piece_moves(sq)),
    {
        let x = sq % 8;
        let y = sq / 8;
        let w = PlayerColour::White;
        assert(on_board(x, y) && sq == y * 8 + x);
        assert(self.board@[sq] == self.board.at(x, y));
        if y == 1 {
            self.lemma_start_pawn(x);
        } else if y == 0 {
            assert forall|nx: int, ny: int| #![trigger self.board.at(nx, ny)]
                on_board(nx, ny) && ny <= 1 implies self.board.at(nx, ny) matches Some(p)
                && p.colour() == w by {}
            if x == 1 || x == 6 {
                self.lemma_start_knight(x);
            } else if x == 4 {
                self.lemma_start_king();
            } else {
                self.lemma_ray_shut(w, x, y, x + 1, y, 1, 0);
                self.lemma_ray_shut(w, x, y, x, y + 1, 0, 1);
                self.lemma_ray_shut(w, x, y, x - 1, y, -1, 0);
                self.lemma_ray_shut(w, x, y, x, y - 1, 0, -1);
                self.lemma_ray_shut(w, x, y, x + 1, y + 1, 1, 1);
                self.lemma_ray_shut(w, x, y, x - 1, y + 1, -1, 1);
                self.lemma_ray_shut(w, x, y, x + 1, y - 1, 1, -1);
                self.lemma_ray_shut(w, x, y, x - 1, y - 1, -1, -1);
                assert(self.rook_rays(w, x, y) =~= Seq::<FesMoveDet>::empty());
                assert(self.bishop_rays(w, x, y) =~= Seq::<FesMoveDet>::empty());
                assert(self.piece_moves(sq) =~= Seq::<FesMoveDet>::empty());
            }
        } else {
            assert(self.piece_moves(sq) =~= Seq::<FesMoveDet>::empty());
        }
    }

    /// At the start of a game a pawn's moves take nothing.
    proof fn lemma_start_pawn(self, x: int)
        requires
            self.at_start(),
            0 <= x < 8,
        ensures
            harmless(self.pawn_moves(PlayerColour::White, x, 1)),
    {
        let w = PlayerColour::White;
        reveal(GameState::pawn_capture);
        reveal(GameState::pawn_steps);
        assert(on_board(x, 2) && on_board(x, 3));
        assert(self.board.at(x, 2) is None && self.board.at(x, 3) is None);
        if on_board(x - 1, 2) {
            assert(self.board.at(x - 1, 2) is None);
        }
        if on_board(x + 1, 2) {
            assert(self.board.at(x + 1, 2) is None);
        }
        assert(self.pawn_capture(w, x, 1, x - 1, 2) =~= Seq::<FesMoveDet>::empty());
        assert(self.pawn_capture(w, x, 1, x + 1, 2) =~= Seq::<FesMoveDet>::empty());
        assert(harmless(self.pawn_steps(w, x, 1)));
        assert(self.pawn_moves(w, x, 1) =~= self.pawn_steps(w, x, 1));
    }

    /// At the start of a game a knight's moves take nothing.
    proof fn lemma_start_knight(self, x: int)
        requires
            self.at_start(),
            0 <= x < 8,
        ensures
            harmless(self.knight_hops(PlayerColour::White, x, 0)),
    {
        let w = PlayerColour::White;
        let y = 0int;
        assert forall|nx: int, ny: int| #![trigger self.board.at(nx, ny)]
            on_board(nx, ny) && ny <= 2 implies (self.board.at(nx, ny) matches Some(p)
            ==> p.colour() == w) by {}
        self.lemma_hop_harmless(w, x, y, x + 1, y + 2);
        self.lemma_hop_harmless(w, x, y, x - 1, y + 2);
        self.lemma_hop_harmless(w, x, y, x + 1, y - 2);
        self.lemma_hop_harmless(w, x, y, x - 1, y - 2);
        self.lemma_hop_harmless(w, x, y, x + 2, y + 1);
        self.lemma_hop_harmless(w, x, y, x - 2, y + 1);
        self.lemma_hop_harmless(w, x, y, x + 2, y - 1);
        self.lemma_hop_harmless(w, x, y, x - 2, y - 1);
        let a = self.hop(w, x, y, x + 1, y + 2);
        let b = self.hop(w, x, y, x - 1, y + 2);
        let c = self.hop(w, x, y, x + 1, y - 2);
        let d = self.hop(w, x, y, x - 1, y - 2);
        let e = self.hop(w, x, y, x + 2, y + 1);
        let f = self.hop(w, x, y, x - 2, y + 1);
        let g = self.hop(w, x, y, x + 2, y - 1);
        let h = self.hop(w, x, y, x - 2, y - 1);
        lemma_harmless_join(a, b);
        lemma_harmless_join(a + b, c);
        lemma_harmless_join(a + b + c, d);
        lemma_harmless_join(a + b + c + d, e);
        lemma_harmless_join(a + b + c + d + e, f);
        lemma_harmless_join(a + b + c + d + e + f, g);
        lemma_harmless_join(a + b + c + d + e + f + g, h);
    }

    /// At the start of a game the king's moves take nothing.
    proof fn lemma_start_king(self)
        requires
            self.at_start(),
        ensures
            harmless(self.king_hops(PlayerColour::White, 4, 0)),
    {
        let w = PlayerColour::White;
        let x = 4int;
        let y = 0int;
        assert forall|nx: int, ny: int| #![trigger self.board.at(nx, ny)]
            on_board(nx, ny) && ny <= 2 implies (self.board.at(nx, ny) matches Some(p)
            ==> p.colour() == w) by {}
        self.lemma_hop_harmless(w, x, y, x + 1, y + 1);
        self.lemma_hop_harmless(w, x, y, x + 1, y);
        self.lemma_hop_harmless(w, x, y, x + 1, y - 1);
        self.lemma_hop_harmless(w, x, y, x, y + 1);
        self.lemma_hop_harmless(w, x, y, x, y - 1);
        self.lemma_hop_harmless(w, x, y, x - 1, y + 1);
        self.lemma_hop_harmless(w, x, y, x - 1, y);
        self.lemma_hop_harmless(w, x, y, x - 1, y - 1);
        let a = self.hop(w, x, y, x + 1, y + 1);
        let b = self.hop(w, x, y, x + 1, y);
        let c = self.hop(w, x, y, x + 1, y - 1);
        let d = self.hop(w, x, y, x, y + 1);
        let e = self.hop(w, x, y, x, y - 1);
        let f = self.hop(w, x, y, x - 1, y + 1);
        let g = self.hop(w, x, y, x - 1, y);
        let h = self.hop(w, x, y, x - 1, y - 1);
        lemma_harmless_join(a, b);
        lemma_harmless_join(a + b, c);
        lemma_harmless_join(a + b + c, d);
        lemma_harmless_join(a + b + c + d, e);
        lemma_harmless_join(a + b + c + d + e, f);
        lemma_harmless_join(a + b + c + d + e + f, g);
        lemma_harmless_join(a + b + c + d + e + f + g, h);
    }

    /// At the start of a game no move of the pieces on the squares below `hi` takes
    /// anything.
    proof fn lemma_start_scan(self, hi: int)
        requires
            self.at_start(),
            0 <= hi <= 64,
        ensures
            harmless(self.scan(0, hi)),
        decreases hi,
    {
        if hi > 0 {
            self.lemma_start_scan(hi - 1);
            self.lemma_start_moves(hi - 1);
            lemma_harmless_join(self.scan(0, hi - 1), self.piece_moves(hi - 1));
        }
    }

    /// The game at its start is one that moves can be listed for.
    pub proof fn lemma_start_sound(self)
        requires
            self.at_start(),
        ensures
            self.sound(),
    {
        assert(self.board@[4] == self.board.at(4, 0) && self.board@[0] == self.board.at(0, 0)
            && self.board@[7] == self.board.at(7, 0) && self.board@[60] == self.board.at(4, 7)
            && self.board@[56] == self.board.at(0, 7) && self.board@[63] == self.board.at(7, 7));
        assert(on_board(4, 0) && on_board(0, 0) && on_board(7, 0) && on_board(4, 7) && on_board(
            0,
            7,
        ) && on_board(7, 7));
        self.lemma_start_scan(64);
        assert(harmless(self.castle_tries()));
        lemma_harmless_join(self.scan(0, 64), self.castle_tries());
    }

    /// The game at its start.
    fn opening() -> (r: Self)
        ensures
            r.at_start(),
            r.sound(),
    {
        let mut board = Board::new();
        let mut x: usize = 0;
        while x < 8
            invariant
                x <= 8,
                forall|i: int, j: int|
                    on_board(i, j) ==> #[trigger] board.at(i, j) == (if i < x {
                        start_at(i, j)
                    } else {
                        None
                    }),
            decreases 8 - x,
        {
            let ghost before = board;
            board.put(x, 0, Some(back_rank_piece(true, x)));
            board.put(x, 1, Some(ColouredPiece::WhitePawn));
            board.put(x, 6, Some(ColouredPiece::BlackPawn));
            board.put(x, 7, Some(back_rank_piece(false, x)));
            proof {
                assert forall|i: int, j: int| on_board(i, j) implies #[trigger] board.at(i, j) == (
                if i < x + 1 {
                    start_at(i, j)
                } else {
                    None
                }) by {
                    assert(before.at(i, j) == (if i < x {
                        start_at(i, j)
                    } else {
                        None
                    }));
                    let sq = j * 8 + i;
                    assert(board@[sq] == (if sq == 56 + x {
                        start_at(x as int, 7)
                    } else if sq == 48 + x {
                        Some(ColouredPiece::BlackPawn)
                    } else if sq == 8 + x {
                        Some(ColouredPiece::WhitePawn)
                    } else if sq == x {
                        start_at(x as int, 0)
                    } else {
                        before@[sq]
                    }));
                }
            }
            x += 1;
        }
        let r = GameState {
            turn: PlayerColour::White,
            board,
            meta: GSMetaData {
                white_ks_castle: true,
                black_ks_castle: true,
                white_qs_castle: true,
                black_qs_castle: true,
                enpasant_col: None,
            },
        };
        proof {
            r.lemma_start_sound();
        }
        r
    }
}

} // verus!
