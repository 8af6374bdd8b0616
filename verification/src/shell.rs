//! The state behind the interactive command loop: a current position,
//! starting from the standard initial position. The loop itself lives
//! with the driver; only the state and its constructor are part of the
//! engine.

use vstd::prelude::*;

use crate::{Color, Game, GameView, Piece, Tile};

verus! {

/// The piece on the back rank's `file` in the starting position.
pub open spec fn back_piece(file: int) -> Piece {
    if file == 0 || file == 7 {
        Piece::Rook
    } else if file == 1 || file == 6 {
        Piece::Knight
    } else if file == 2 || file == 5 {
        Piece::Bishop
    } else if file == 3 {
        Piece::Queen
    } else {
        Piece::King
    }
}

/// The occupant of square `idx` in the starting position.
pub open spec fn start_square(idx: int) -> Option<Tile> {
    let rank = idx / 8;
    let file = idx % 8;
    if rank == 0 {
        Some(Tile(Color::White, back_piece(file)))
    } else if rank == 1 {
        Some(Tile(Color::White, Piece::Pawn))
    } else if rank == 6 {
        Some(Tile(Color::Black, Piece::Pawn))
    } else if rank == 7 {
        Some(Tile(Color::Black, back_piece(file)))
    } else {
        None
    }
}

pub open spec fn start_board() -> Seq<Option<Tile>> {
    Seq::new(64, |idx: int| start_square(idx))
}

/// The standard starting position: both armies placed, White to move,
/// full castling rights, cleared half-move clock, move one.
pub open spec fn start_view() -> GameView {
    GameView {
        board: start_board(),
        active: Color::White,
        castling: seq![true, true, true, true],
        move_count: 1,
        clock: 0,
        ep: None,
    }
}

/// The interactive session's state: the position being played.
pub struct InteractiveMode {
    pub game: Game,
}

impl InteractiveMode {
    /// A session at the standard starting position.
    pub fn new() -> (r: Self)
        ensures
            r.game@ == start_view(),
    {
        let mut board: [Option<Tile>; 64] = [None;64];
        let mut f: usize = 0;
        while f < 8
            invariant
                f <= 8,
                forall|idx: int|
                    0 <= idx < 64 ==> board@[idx] == (if idx % 8 < f {
                        start_square(idx)
                    } else {
                        None
                    }),
            decreases 8 - f,
        {
            let piece = match f {
                0 => Piece::Rook,
                1 => Piece::Knight,
                2 => Piece::Bishop,
                3 => Piece::Queen,
                4 => Piece::King,
                5 => Piece::Bishop,
                6 => Piece::Knight,
                _ => Piece::Rook,
            };
            board[f] = Some(Tile(Color::White, piece));
            board[8 + f] = Some(Tile(Color::White, Piece::Pawn));
            board[48 + f] = Some(Tile(Color::Black, Piece::Pawn));
            board[56 + f] = Some(Tile(Color::Black, piece));
            proof {
                assert(piece == back_piece(f as int));
                assert forall|idx: int| 0 <= idx < 64 implies board@[idx] == (if idx % 8 < f + 1 {
                    start_square(idx)
                } else {
                    None
                }) by {
                    vstd::arithmetic::div_mod::lemma_fundamental_div_mod(idx, 8);
                    if idx % 8 == f {
                        assert(idx == 8 * (idx / 8) + f);
                    }
                }
            }
            f = f + 1;
        }
        proof {
            assert(board@ =~= start_board());
        }
        let game = Game {
            board,
            active_color: Color::White,
            castling_avail: [true;4],
            move_count: 1,
            en_passent_target: None,
            moves_since_capture: 0,
        };
        proof {
            assert(game@.castling =~= start_view().castling);
            assert(game@ =~= start_view());
        }
        InteractiveMode { game }
    }
}

} // verus!
