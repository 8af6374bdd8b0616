//! Compact line notation for moves, and human-readable rendering.
//!
//! A move serializes as a tag letter, a comma, and its payload:
//! `b,e2-e4` for a basic move, `c,w,k` for castling (color letter, then
//! `k` for the king side or `q` for the queen side), `e,d5-e6` for en
//! passant, and `p,e7-e8,q` for a promotion with the piece letter.
//! Deserialization is a declared stub: it reports an unsupported
//! operation for every input.

use vstd::prelude::*;

use crate::fen::{alg_str, char_of_tile, color_char, push_char};
use crate::{Color, Game, GameView, Move, MoveError, Piece, Tile};

verus! {

/// The lowercase letter of a piece kind.
pub open spec fn piece_char(p: Piece) -> char {
    char_of_tile(Tile(Color::Black, p))
}

/// The compact line notation of a move.
pub open spec fn move_str(m: Move) -> Seq<char> {
    match m {
        Move::Basic(f, t) => seq!['b', ','] + alg_str(f) + seq!['-'] + alg_str(t),
        Move::Castle(c, side) => seq![
            'c',
            ',',
            color_char(c),
            ',',
            if side {
                'k'
            } else {
                'q'
            },
        ],
        Move::EnPassent(f, t) => seq!['e', ','] + alg_str(f) + seq!['-'] + alg_str(t),
        Move::PawnPromotion(f, t, p) => seq!['p', ','] + alg_str(f) + seq!['-'] + alg_str(t)
            + seq![',', piece_char(p)],
    }
}

/// The side's display name.
pub open spec fn color_name(c: Color) -> Seq<char> {
    if c == Color::White {
        "White"@
    } else {
        "Black"@
    }
}

/// The piece kind's display name.
pub open spec fn piece_name(p: Piece) -> Seq<char> {
    match p {
        Piece::King => "king"@,
        Piece::Queen => "queen"@,
        Piece::Knight => "knight"@,
        Piece::Bishop => "bishop"@,
        Piece::Rook => "rook"@,
        Piece::Pawn => "pawn"@,
    }
}

/// The descriptive text of a move. Castling describes its color and wing
/// flag as the plain words they display as.
pub open spec fn move_desc(m: Move) -> Seq<char> {
    match m {
        Move::Basic(f, t) => alg_str(f) + " -> "@ + alg_str(t),
        Move::Castle(c, side) => "Castle king from "@ + color_name(c) + " to "@ + (if side {
            "true"@
        } else {
            "false"@
        }),
        Move::EnPassent(f, t) => "En passent from "@ + alg_str(f) + " to "@ + alg_str(t),
        Move::PawnPromotion(f, t, p) => alg_str(f) + " -> "@ + alg_str(t) + ", pawn promoted to "@
            + piece_name(p),
    }
}

/// One rendered board row: a placement letter per occupied square, a
/// space per empty one.
pub open spec fn row_chars(b: Seq<Option<Tile>>, y: int) -> Seq<char> {
    Seq::new(8, |x: int|
        match b[y * 8 + x] {
            Some(t) => char_of_tile(t),
            None => ' ',
        })
}

/// The rendered rows `0..n`, each closed by a newline.
pub open spec fn grid_upto(b: Seq<Option<Tile>>, n: nat) -> Seq<char>
    decreases n,
{
    if n == 0 {
        Seq::empty()
    } else {
        grid_upto(b, (n - 1) as nat) + row_chars(b, n - 1) + seq!['\n']
    }
}

/// The rendered position: the board grid, a blank line, and the side to
/// move.
pub open spec fn render_str(v: GameView) -> Seq<char> {
    grid_upto(v.board, 8) + seq!['\n'] + "active color: "@ + color_name(v.active)
}

impl Move {
    /// Writes this move in the compact line notation.
    pub fn serialize(&self) -> (r: String)
        requires
            match *self {
                Move::Basic(f, t) => f.valid() && t.valid(),
                Move::Castle(_, _) => true,
                Move::EnPassent(f, t) => f.valid() && t.valid(),
                Move::PawnPromotion(f, t, _) => f.valid() && t.valid(),
            },
        ensures
            r@ == move_str(*self),
    {
        let mut s = String::new();
        match self {
            Move::Basic(f, t) => {
                push_char(&mut s, 'b');
                push_char(&mut s, ',');
                let fa = f.to_algebraic();
                s.append(fa.as_str());
                push_char(&mut s, '-');
                let ta = t.to_algebraic();
                s.append(ta.as_str());
            },
            Move::Castle(c, side) => {
                push_char(&mut s, 'c');
                push_char(&mut s, ',');
                push_char(
                    &mut s,
                    if *c == Color::White {
                        'w'
                    } else {
                        'b'
                    },
                );
                push_char(&mut s, ',');
                push_char(
                    &mut s,
                    if *side {
                        'k'
                    } else {
                        'q'
                    },
                );
            },
            Move::EnPassent(f, t) => {
                push_char(&mut s, 'e');
                push_char(&mut s, ',');
                let fa = f.to_algebraic();
                s.append(fa.as_str());
                push_char(&mut s, '-');
                let ta = t.to_algebraic();
                s.append(ta.as_str());
            },
            Move::PawnPromotion(f, t, p) => {
                push_char(&mut s, 'p');
                push_char(&mut s, ',');
                let fa = f.to_algebraic();
                s.append(fa.as_str());
                push_char(&mut s, '-');
                let ta = t.to_algebraic();
                s.append(ta.as_str());
                push_char(&mut s, ',');
                push_char(&mut s, Tile(Color::Black, *p).as_fen_char());
            },
        }
        proof {
            assert(s@ =~= move_str(*self));
        }
        s
    }

    /// The declared inverse of [`Move::serialize`], left unimplemented:
    /// every call reports the unsupported operation instead of failing
    /// fatally.
    pub fn deserialize(_s: &str) -> (r: Result<Move, MoveError>)
        ensures
            r == Err::<Move, MoveError>(MoveError::UnsupportedMove),
    {
        Err(MoveError::UnsupportedMove)
    }
}

impl Color {
    /// The side's display name.
    pub fn name(&self) -> (r: String)
        ensures
            r@ == color_name(*self),
    {
        if *self == Color::White {
            String::from_str("White")
        } else {
            String::from_str("Black")
        }
    }
}

impl Piece {
    /// The piece kind's display name.
    pub fn name(&self) -> (r: String)
        ensures
            r@ == piece_name(*self),
    {
        match self {
            Piece::King => String::from_str("king"),
            Piece::Queen => String::from_str("queen"),
            Piece::Knight => String::from_str("knight"),
            Piece::Bishop => String::from_str("bishop"),
            Piece::Rook => String::from_str("rook"),
            Piece::Pawn => String::from_str("pawn"),
        }
    }
}

impl Move {
    /// Describes this move in words.
    pub fn describe(&self) -> (r: String)
        requires
            match *self {
                Move::Basic(f, t) => f.valid() && t.valid(),
                Move::Castle(_, _) => true,
                Move::EnPassent(f, t) => f.valid() && t.valid(),
                Move::PawnPromotion(f, t, _) => f.valid() && t.valid(),
            },
        ensures
            r@ == move_desc(*self),
    {
        let mut s = String::new();
        match self {
            Move::Basic(f, t) => {
                let fa = f.to_algebraic();
                s.append(fa.as_str());
                s.append(" -> ");
                let ta = t.to_algebraic();
                s.append(ta.as_str());
            },
            Move::Castle(c, side) => {
                s.append("Castle king from ");
                let cn = c.name();
                s.append(cn.as_str());
                s.append(" to ");
                s.append(
                    if *side {
                        "true"
                    } else {
                        "false"
                    },
                );
            },
            Move::EnPassent(f, t) => {
                s.append("En passent from ");
                let fa = f.to_algebraic();
                s.append(fa.as_str());
                s.append(" to ");
                let ta = t.to_algebraic();
                s.append(ta.as_str());
            },
            Move::PawnPromotion(f, t, p) => {
                let fa = f.to_algebraic();
                s.append(fa.as_str());
                s.append(" -> ");
                let ta = t.to_algebraic();
                s.append(ta.as_str());
                s.append(", pawn promoted to ");
                let pn = p.name();
                s.append(pn.as_str());
            },
        }
        proof {
            assert(s@ =~= move_desc(*self));
        }
        s
    }
}

impl Game {
    /// Renders the board as an eight-line grid followed by the side to
    /// move; presentation only, pinned down for reproducible output.
    pub fn render(&self) -> (r: String)
        ensures
            r@ == render_str(self@),
    {
        let ghost b = self@.board;
        let mut s = String::new();
        let mut y: usize = 0;
        while y < 8
            invariant
                y <= 8,
                s@ == grid_upto(b, y as nat),
            decreases 8 - y,
        {
            let ghost s0 = s@;
            let mut x: usize = 0;
            while x < 8
                invariant
                    x <= 8,
                    y < 8,
                    s@ == s0 + row_chars(b, y as int).take(x as int),
                decreases 8 - x,
            {
                let c = match self.board[y * 8 + x] {
                    Some(t) => t.as_fen_char(),
                    None => ' ',
                };
                push_char(&mut s, c);
                proof {
                    assert(row_chars(b, y as int).take(x + 1) =~= row_chars(b, y as int).take(
                        x as int,
                    ).push(row_chars(b, y as int)[x as int]));
                    assert(s@ =~= s0 + row_chars(b, y as int).take(x + 1));
                }
                x = x + 1;
            }
            push_char(&mut s, '\n');
            proof {
                assert(row_chars(b, y as int).take(8) =~= row_chars(b, y as int));
                assert(s@ =~= grid_upto(b, (y + 1) as nat));
            }
            y = y + 1;
        }
        push_char(&mut s, '\n');
        s.append("active color: ");
        let cn = self.active_color.name();
        s.append(cn.as_str());
        proof {
            assert(s@ =~= render_str(self@));
        }
        s
    }
}

} // verus!
