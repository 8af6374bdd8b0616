//! A chess rules engine.
//!
//! The crate maintains a board position ([`Game`]), derives pseudo-legal and
//! legal move sets for the side to move, applies moves, classifies the
//! resulting position ([`GameState`]), and reads and writes positions in the
//! standard six-field portable text notation.
//!
//! Three rules are deliberately unimplemented and surface as
//! [`MoveError::UnsupportedMove`]: castling, en-passant capture, and pawn
//! promotion application. Move text deserialization is likewise a stub.

#![verifier::loop_isolation(false)]

use vstd::prelude::*;

pub mod algos;
pub mod coord;
pub mod fen;
pub mod helper;
pub mod moves;
pub mod notation;
pub mod shell;

verus! {

/// One of the six chess piece kinds.
#[derive(Debug, Clone, Copy, PartialEq, Eq, Structural)]
pub enum Piece {
    King,
    Queen,
    Knight,
    Bishop,
    Rook,
    Pawn,
}

/// The two sides.
#[derive(Debug, Clone, Copy, PartialEq, Eq, Structural)]
pub enum Color {
    White,
    Black,
}

/// Classification of a position, computed on demand; never stored.
///
/// `Draw` is a representable outcome, but no rule in this engine produces it.
#[derive(Debug, Clone, Copy, PartialEq, Eq, Structural)]
pub enum GameState {
    Normal,
    Draw,
    Stalemate,
    Check(Color),
    Checkmate(Color),
}

/// The occupant of one square: a colored piece.
#[derive(Debug, Clone, Copy, PartialEq, Eq, Structural)]
pub struct Tile(pub Color, pub Piece);

/// A square address: file (`0` = a-file) and rank (`0` = rank 1).
///
/// Out-of-range values are representable; they arise transiently during
/// ray casting and are discarded by [`Coord::is_valid`] before board access.
#[derive(Debug, Clone, Copy, PartialEq, Eq, Structural)]
pub struct Coord(pub i8, pub i8);

/// A move shape. Only `Basic` moves are generated and applied; the other
/// shapes are representable but unsupported by move application.
///
/// For `Castle` the `bool` selects the wing: `true` is the king side.
#[derive(Debug, Clone, Copy, PartialEq, Eq, Structural)]
pub enum Move {
    Basic(Coord, Coord),
    Castle(Color, bool),
    EnPassent(Coord, Coord),
    PawnPromotion(Coord, Coord, Piece),
}

/// Why a position record failed to parse.
#[derive(Debug, Clone, Copy, PartialEq, Eq, Structural)]
pub enum FenError {
    /// The piece-placement field describes a board wider or taller than 8x8.
    BoardTooBig,
    /// A piece letter outside `pnbrqk` / `PNBRQK`.
    BadPieceChar,
    /// The active-color field is neither `w` nor `b`.
    BadColorField,
    /// A castling-availability letter outside `KQkq`.
    BadCastlingChar,
    /// An algebraic square is not exactly two characters.
    BadSquareLength,
    /// An algebraic square's file letter is outside `a`..`h`.
    BadSquareFile,
    /// An algebraic square's rank digit is outside `1`..`8`.
    BadSquareRank,
    /// The half-move clock is not a decimal number fitting `u16`.
    BadHalfmoveClock,
    /// The full-move counter is not a decimal number fitting `u16`.
    BadFullmoveCounter,
    /// More than six whitespace-separated fields.
    TooManyFields,
}

/// Why a move was rejected by [`Game::make_move`].
#[derive(Debug, Clone, Copy, PartialEq, Eq, Structural)]
pub enum MoveError {
    /// Applying the move would leave a king capturable.
    ResultsInCheck,
    /// The move is not a member of the legal set for its origin square.
    NotALegalMove,
    /// Castling, en passant, and promotion application are not implemented.
    UnsupportedMove,
}

/// Why a move-selection algorithm could not be run.
#[derive(Debug, Clone, Copy, PartialEq, Eq, Structural)]
pub enum AlgoError {
    UnknownAlgorithm,
}

/// A position: the aggregate root of the engine.
///
/// The board is a 64-slot mapping from square index (`file + rank * 8`) to
/// optional occupant. The four castling flags are ordered `KQkq` as in the
/// text notation.
#[derive(Debug, Clone, Copy, PartialEq, Eq)]
pub struct Game {
    pub board: [Option<Tile>; 64],
    pub active_color: Color,
    pub castling_avail: [bool; 4],
    pub move_count: u16,
    pub en_passent_target: Option<Coord>,
    pub moves_since_capture: u16,
}

/// The mathematical model of a [`Game`]: the same six fields over `Seq` and
/// unbounded integers. All contracts of the engine speak about this view.
#[verifier::ext_equal]
pub ghost struct GameView {
    pub board: Seq<Option<Tile>>,
    pub active: Color,
    pub castling: Seq<bool>,
    pub move_count: int,
    pub clock: int,
    pub ep: Option<Coord>,
}

impl View for Game {
    type V = GameView;

    open spec fn view(&self) -> GameView {
        GameView {
            board: self.board@,
            active: self.active_color,
            castling: self.castling_avail@,
            move_count: self.move_count as int,
            clock: self.moves_since_capture as int,
            ep: self.en_passent_target,
        }
    }
}

impl GameView {
    /// The occupant of square `c`, which must be valid.
    pub open spec fn at(self, c: Coord) -> Option<Tile> {
        self.board[c.idx()]
    }

    /// The en-passant target, if present, lies on the board. Every position
    /// built by this crate's constructors satisfies this.
    pub open spec fn ep_ok(self) -> bool {
        self.ep matches Some(c) ==> c.valid()
    }

    /// Both counters leave room for one increment; move application and the
    /// one-ply simulation behind legality checking need this machine limit.
    pub open spec fn counters_ok(self) -> bool {
        self.move_count < u16::MAX && self.clock < u16::MAX
    }
}

} // verus!
