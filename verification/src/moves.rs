//! Move generation, check detection, move application, and classification.
//!
//! The executable methods on [`Game`] are each specified against a spec-level
//! mirror over [`GameView`]; the mirrors are the mathematical model that the
//! rest of the crate's contracts build on.

use vstd::prelude::*;

use crate::{Color, Coord, Game, GameState, GameView, Move, MoveError, Piece, Tile};

verus! {

/// The other side.
pub open spec fn opponent_of(c: Color) -> Color {
    match c {
        Color::Black => Color::White,
        Color::White => Color::Black,
    }
}

/// The forward direction of a side's pawns.
pub open spec fn direction_of(c: Color) -> Coord {
    match c {
        Color::Black => Coord(0i8, -1i8),
        Color::White => Coord(0i8, 1i8),
    }
}

/// The origin square of a move. For castling the king's home square is
/// derived from the color.
pub open spec fn source_of(m: Move) -> Coord {
    match m {
        Move::Basic(a, _) => a,
        Move::Castle(color, _) => match color {
            Color::White => Coord(4i8, 0i8),
            Color::Black => Coord(4i8, 7i8),
        },
        Move::EnPassent(a, _) => a,
        Move::PawnPromotion(a, _, _) => a,
    }
}

/// The square on which the move would capture, if any.
pub open spec fn capture_target_of(m: Move) -> Option<Coord> {
    match m {
        Move::Basic(_, a) => Some(a),
        Move::Castle(_, _) => None,
        Move::EnPassent(_, a) => Some(a),
        Move::PawnPromotion(_, a, _) => Some(a),
    }
}

/// Whether the occupant of `s` may move onto `t`: an empty square always,
/// an occupied square only if the occupant is an enemy and not a king.
pub open spec fn can_capture(v: GameView, s: Coord, t: Coord) -> bool {
    match v.at(t) {
        None => true,
        Some(tt) => match v.at(s) {
            Some(st) => !(tt.0 == st.0 || tt.1 == Piece::King),
            None => false,
        },
    }
}

/// One step from `c` along `d`.
pub open spec fn step(c: Coord, d: Coord) -> Coord {
    Coord((c.0 + d.0) as i8, (c.1 + d.1) as i8)
}

/// An upper bound on the steps a ray from `c` along `d` can take before
/// leaving the board.
pub open spec fn ray_measure(c: Coord, d: Coord) -> int {
    if d.0 != 0 {
        if d.0 > 0 {
            8 - c.0
        } else {
            c.0 + 1
        }
    } else {
        if d.1 > 0 {
            8 - c.1
        } else {
            c.1 + 1
        }
    }
}

/// The squares a sliding piece on `c` walks along `d`: each stepped-to
/// square in order, ending with (and including) the first square that is
/// off-board or occupied. Eight steps always suffice from a valid origin.
pub open spec fn ray_targets_fuel(v: GameView, c: Coord, d: Coord, fuel: nat) -> Seq<Coord>
    decreases fuel,
{
    if fuel == 0 {
        Seq::empty()
    } else {
        let n = step(c, d);
        if !n.valid() || v.at(n) is Some {
            seq![n]
        } else {
            seq![n] + ray_targets_fuel(v, n, d, (fuel - 1) as nat)
        }
    }
}

/// The full ray walked from a valid origin.
pub open spec fn ray_targets(v: GameView, c: Coord, d: Coord) -> Seq<Coord> {
    ray_targets_fuel(v, c, d, 8)
}

/// Every candidate target square of the occupant `t` standing on `c`, in
/// generation order, before validity and capture filtering. Queens slide
/// along the four diagonals only; pawns get their forward step and, from
/// their own second rank, the two-square step. Neither diagonal pawn
/// captures nor the special move shapes are ever produced.
pub open spec fn piece_targets(v: GameView, c: Coord, t: Tile) -> Seq<Coord> {
    match t.1 {
        Piece::Queen => ray_targets(v, c, Coord(1i8, 1i8)) + ray_targets(v, c, Coord(1i8, -1i8))
            + ray_targets(v, c, Coord(-1i8, 1i8)) + ray_targets(v, c, Coord(-1i8, -1i8)),
        Piece::King => seq![
            step(c, Coord(1i8, 1i8)),
            step(c, Coord(1i8, -1i8)),
            step(c, Coord(-1i8, 1i8)),
            step(c, Coord(-1i8, -1i8)),
            step(c, Coord(0i8, 1i8)),
            step(c, Coord(0i8, -1i8)),
            step(c, Coord(1i8, 0i8)),
            step(c, Coord(-1i8, 0i8)),
        ],
        Piece::Knight => seq![
            step(c, Coord(2i8, 1i8)),
            step(c, Coord(2i8, -1i8)),
            step(c, Coord(-2i8, 1i8)),
            step(c, Coord(-2i8, -1i8)),
            step(c, Coord(1i8, 2i8)),
            step(c, Coord(-1i8, 2i8)),
            step(c, Coord(1i8, -2i8)),
            step(c, Coord(-1i8, -2i8)),
        ],
        Piece::Bishop => ray_targets(v, c, Coord(1i8, 1i8)) + ray_targets(v, c, Coord(1i8, -1i8))
            + ray_targets(v, c, Coord(-1i8, 1i8)) + ray_targets(v, c, Coord(-1i8, -1i8)),
        Piece::Rook => ray_targets(v, c, Coord(0i8, 1i8)) + ray_targets(v, c, Coord(0i8, -1i8))
            + ray_targets(v, c, Coord(1i8, 0i8)) + ray_targets(v, c, Coord(-1i8, 0i8)),
        Piece::Pawn => seq![step(c, direction_of(t.0))] + (if c.1 == 1 && t.0 == Color::White {
            seq![step(c, Coord(0i8, 2i8))]
        } else {
            Seq::empty()
        }) + (if c.1 == 6 && t.0 == Color::Black {
            seq![step(c, Coord(0i8, -2i8))]
        } else {
            Seq::empty()
        }),
    }
}

/// A candidate target survives filtering when it is on the board and the
/// mover may land on it.
pub open spec fn keep_target(v: GameView, c: Coord, t: Coord) -> bool {
    t.valid() && can_capture(v, c, t)
}

/// The surviving candidates of `ts`, in order, as basic moves from `c`.
pub open spec fn targets_to_moves(v: GameView, c: Coord, ts: Seq<Coord>) -> Seq<Move>
    decreases ts.len(),
{
    if ts.len() == 0 {
        Seq::empty()
    } else {
        targets_to_moves(v, c, ts.drop_last()) + (if keep_target(v, c, ts.last()) {
            seq![Move::Basic(c, ts.last())]
        } else {
            Seq::empty()
        })
    }
}

/// Every pseudo-legal move of the occupant of `c`: geometrically reachable,
/// ignoring whether the mover's own king is left attacked.
pub open spec fn pseudo_moves(v: GameView, c: Coord) -> Seq<Move> {
    match v.at(c) {
        None => Seq::empty(),
        Some(t) => targets_to_moves(v, c, piece_targets(v, c, t)),
    }
}

/// The move is a basic relocation between two on-board squares; the only
/// shape move application implements.
pub open spec fn basic_ok(m: Move) -> bool {
    match m {
        Move::Basic(f, t) => f.valid() && t.valid(),
        _ => false,
    }
}

/// Room for the counter increments of one applied move.
pub open spec fn apply_ok(v: GameView) -> bool {
    v.active == Color::White ==> v.move_count < u16::MAX && v.clock < u16::MAX
}

/// The position after a basic move is applied without any legality check:
/// the occupant of `from` lands on `to` (capturing whatever stood there),
/// the half-move clock resets on capture and advances on White's
/// non-capturing moves, the full-move counter advances on White's moves,
/// and the turn passes. Non-basic moves are unsupported by application and
/// leave the model unchanged here.
pub open spec fn apply_basic(v: GameView, m: Move) -> GameView {
    match m {
        Move::Basic(from, to) => {
            let tile = v.board[from.idx()];
            let capture = v.board[to.idx()] is Some;
            let clock1: int = if capture {
                0
            } else {
                v.clock
            };
            GameView {
                board: v.board.update(to.idx(), tile).update(from.idx(), None),
                active: opponent_of(v.active),
                castling: v.castling,
                move_count: if v.active == Color::White {
                    v.move_count + 1
                } else {
                    v.move_count
                },
                clock: if v.active == Color::White && !capture {
                    clock1 + 1
                } else {
                    clock1
                },
                ep: v.ep,
            }
        },
        _ => v,
    }
}

/// The on-board candidates of `ts`, in order.
pub open spec fn valid_targets(ts: Seq<Coord>) -> Seq<Coord>
    decreases ts.len(),
{
    if ts.len() == 0 {
        Seq::empty()
    } else {
        valid_targets(ts.drop_last()) + (if ts.last().valid() {
            seq![ts.last()]
        } else {
            Seq::empty()
        })
    }
}

/// The on-board squares the occupant of `q` geometrically reaches,
/// including squares held by kings. Check detection uses this raw reach:
/// the capture filter never lets a generated move land on a king, so the
/// generated move set cannot witness a check.
pub open spec fn reach(v: GameView, q: Coord) -> Seq<Coord> {
    match v.at(q) {
        None => Seq::empty(),
        Some(t) => valid_targets(piece_targets(v, q, t)),
    }
}

/// The occupant of `q` is an enemy of `c` whose reach covers a square
/// holding a king of color `c`.
pub open spec fn square_attacks(v: GameView, q: Coord, c: Color) -> bool {
    &&& q.valid()
    &&& match v.at(q) {
        Some(t) => t.0 != c,
        None => false,
    }
    &&& exists|j: int|
        0 <= j < reach(v, q).len() && v.at(#[trigger] reach(v, q)[j]) == Some(
            Tile(c, Piece::King),
        )
}

/// Color `c` is in check: some enemy occupant geometrically reaches a
/// square holding a king of color `c`.
pub open spec fn in_check(v: GameView, c: Color) -> bool {
    exists|q: Coord| square_attacks(v, q, c)
}

/// The first color found in check, testing White before Black; a
/// simultaneous double check is therefore reported as White's.
pub open spec fn is_check_of(v: GameView) -> Option<Color> {
    if in_check(v, Color::White) {
        Some(Color::White)
    } else if in_check(v, Color::Black) {
        Some(Color::Black)
    } else {
        None
    }
}

/// Applying `m` leaves some king capturable. This is the sole legality
/// filter: a move is illegal when any check at all follows it.
pub open spec fn results_in_check(v: GameView, m: Move) -> bool {
    is_check_of(apply_basic(v, m)) is Some
}

/// The members of `ms` that do not result in a check, in order.
pub open spec fn filter_legal(v: GameView, ms: Seq<Move>) -> Seq<Move>
    decreases ms.len(),
{
    if ms.len() == 0 {
        Seq::empty()
    } else {
        filter_legal(v, ms.drop_last()) + (if !results_in_check(v, ms.last()) {
            seq![ms.last()]
        } else {
            Seq::empty()
        })
    }
}

/// The legal moves of the occupant of `c`.
pub open spec fn legal_moves(v: GameView, c: Coord) -> Seq<Move> {
    filter_legal(v, pseudo_moves(v, c))
}

/// The square visited `k`-th by the file-major, rank-minor board scan.
pub open spec fn sq_at(k: int) -> Coord {
    Coord((k / 8) as i8, (k % 8) as i8)
}

/// The pseudo-legal moves contributed by the `k`-th scanned square: those
/// of its occupant when that occupant belongs to the side to move.
pub open spec fn square_pseudo(v: GameView, k: int) -> Seq<Move> {
    match v.at(sq_at(k)) {
        Some(t) => if t.0 == v.active {
            pseudo_moves(v, sq_at(k))
        } else {
            Seq::empty()
        },
        None => Seq::empty(),
    }
}

pub open spec fn all_pseudo_upto(v: GameView, n: nat) -> Seq<Move>
    decreases n,
{
    if n == 0 {
        Seq::empty()
    } else {
        all_pseudo_upto(v, (n - 1) as nat) + square_pseudo(v, n - 1)
    }
}

/// Every pseudo-legal move of the side to move, in file-major, rank-minor
/// square order.
pub open spec fn all_pseudo(v: GameView) -> Seq<Move> {
    all_pseudo_upto(v, 64)
}

/// The legal moves contributed by the `k`-th scanned square.
pub open spec fn square_legal(v: GameView, k: int) -> Seq<Move> {
    match v.at(sq_at(k)) {
        Some(t) => if t.0 == v.active {
            legal_moves(v, sq_at(k))
        } else {
            Seq::empty()
        },
        None => Seq::empty(),
    }
}

pub open spec fn all_legal_upto(v: GameView, n: nat) -> Seq<Move>
    decreases n,
{
    if n == 0 {
        Seq::empty()
    } else {
        all_legal_upto(v, (n - 1) as nat) + square_legal(v, n - 1)
    }
}

/// Every legal move of the side to move, in file-major, rank-minor square
/// order.
pub open spec fn all_legal(v: GameView) -> Seq<Move> {
    all_legal_upto(v, 64)
}

/// Check detection as a square-by-square scan, for the executable search.
pub open spec fn in_check_upto(v: GameView, c: Color, n: nat) -> bool
    decreases n,
{
    if n == 0 {
        false
    } else {
        in_check_upto(v, c, (n - 1) as nat) || square_attacks(v, sq_at(n - 1), c)
    }
}

/// No pseudo-legal move of the side to move removes that side's check:
/// after every one of them, check is still reported for the mover.
pub open spec fn no_escape(v: GameView) -> bool {
    forall|i: int|
        0 <= i < all_pseudo(v).len() ==> is_check_of(apply_basic(v, #[trigger] all_pseudo(v)[i]))
            == Some(v.active)
}

/// The classification table: no check and no escape is stalemate, check
/// without escape is checkmate for the side to move, a bare check reports
/// the checked color, and otherwise play continues. `Draw` is never
/// produced.
pub open spec fn state_of(v: GameView) -> GameState {
    match is_check_of(v) {
        None => if no_escape(v) {
            GameState::Stalemate
        } else {
            GameState::Normal
        },
        Some(cc) => if no_escape(v) {
            GameState::Checkmate(v.active)
        } else {
            GameState::Check(cc)
        },
    }
}

/// The scan order reaches square `(f, r)` at position `f * 8 + r`.
pub proof fn lemma_sq_at_index(f: int, r: int)
    requires
        0 <= f < 8,
        0 <= r < 8,
    ensures
        sq_at(f * 8 + r) == Coord(f as i8, r as i8),
{
    assert((f * 8 + r) / 8 == f && (f * 8 + r) % 8 == r) by (nonlinear_arith)
        requires
            0 <= f < 8,
            0 <= r < 8,
    ;
}

/// The full scan finds an attacker exactly when one exists.
pub proof fn lemma_in_check_scan(v: GameView, c: Color, n: nat)
    requires
        n <= 64,
    ensures
        in_check_upto(v, c, n) <==> exists|q: Coord|
            square_attacks(v, q, c) && q.0 * 8 + q.1 < n,
    decreases n,
{
    if n == 0 {
        assert forall|q: Coord| square_attacks(v, q, c) implies !(q.0 * 8 + q.1 < 0) by {
            assert(q.valid());
        }
    } else {
        lemma_in_check_scan(v, c, (n - 1) as nat);
        let k = n - 1;
        let qm = sq_at(k);
        assert(0 <= k / 8 < 8 && 0 <= k % 8 < 8);
        assert(qm.0 * 8 + qm.1 == k);
        if in_check_upto(v, c, n) {
            if square_attacks(v, qm, c) {
                assert(square_attacks(v, qm, c) && qm.0 * 8 + qm.1 < n);
            }
        }
        if exists|q: Coord| square_attacks(v, q, c) && q.0 * 8 + q.1 < n {
            let q = choose|q: Coord| square_attacks(v, q, c) && q.0 * 8 + q.1 < n;
            if q.0 * 8 + q.1 < k {
                assert(in_check_upto(v, c, (n - 1) as nat));
            } else {
                assert(q.0 * 8 + q.1 == k);
                assert(q.0 == k / 8 && q.1 == k % 8) by (nonlinear_arith)
                    requires
                        0 <= q.0 < 8,
                        0 <= q.1 < 8,
                        q.0 * 8 + q.1 == k,
                ;
                assert(q == qm);
            }
        }
    }
}

/// Every square the reach filter keeps is on the board.
pub proof fn lemma_valid_targets_valid(ts: Seq<Coord>)
    ensures
        forall|i: int|
            0 <= i < valid_targets(ts).len() ==> (#[trigger] valid_targets(ts)[i]).valid(),
    decreases ts.len(),
{
    if ts.len() > 0 {
        lemma_valid_targets_valid(ts.drop_last());
        let pre = valid_targets(ts.drop_last());
        assert forall|i: int|
            0 <= i < valid_targets(ts).len() implies (#[trigger] valid_targets(ts)[i]).valid() by {
            if i < pre.len() {
                assert(valid_targets(ts)[i] == pre[i]);
            } else {
                assert(ts.last().valid());
                assert(valid_targets(ts)[i] == ts.last());
            }
        }
    }
}

/// Every move the `targets_to_moves` construction emits starts at `c` and
/// lands on a valid square.
pub proof fn lemma_targets_to_moves_shape(v: GameView, c: Coord, ts: Seq<Coord>)
    ensures
        forall|i: int|
            0 <= i < targets_to_moves(v, c, ts).len() ==> ((#[trigger] targets_to_moves(v, c, ts)[i])
                matches Move::Basic(f, t) && f == c && t.valid()),
    decreases ts.len(),
{
    if ts.len() > 0 {
        lemma_targets_to_moves_shape(v, c, ts.drop_last());
    }
}

/// Every pseudo-legal move from a valid origin is a basic move between
/// valid squares.
pub proof fn lemma_pseudo_moves_shape(v: GameView, c: Coord)
    requires
        c.valid(),
    ensures
        forall|i: int|
            0 <= i < pseudo_moves(v, c).len() ==> basic_ok(#[trigger] pseudo_moves(v, c)[i])
                && source_of(pseudo_moves(v, c)[i]) == c,
{
    match v.at(c) {
        None => {},
        Some(t) => {
            lemma_targets_to_moves_shape(v, c, piece_targets(v, c, t));
        },
    }
}

impl Color {
    pub fn get_direction(&self) -> (r: Coord)
        ensures
            r == direction_of(*self),
    {
        match self {
            Color::Black => Coord(0, -1),
            Color::White => Coord(0, 1),
        }
    }

    pub fn opponent(&self) -> (r: Self)
        ensures
            r == opponent_of(*self),
    {
        match self {
            Color::Black => Color::White,
            Color::White => Color::Black,
        }
    }
}

impl Move {
    pub fn get_source_coord(&self) -> (r: Coord)
        ensures
            r == source_of(*self),
    {
        match self {
            Move::Basic(a, _) => *a,
            Move::Castle(color, _) => match color {
                Color::White => Coord(4, 0),
                Color::Black => Coord(4, 7),
            },
            Move::EnPassent(a, _) => *a,
            Move::PawnPromotion(a, _, _) => *a,
        }
    }

    pub fn get_capture_target(&self) -> (r: Option<Coord>)
        ensures
            r == capture_target_of(*self),
    {
        match self {
            Move::Basic(_, a) => Some(*a),
            Move::Castle(_, _) => None,
            Move::EnPassent(_, a) => Some(*a),
            Move::PawnPromotion(_, a, _) => Some(*a),
        }
    }
}

impl Game {
    /// Whether the piece on `source` may move onto `target`. A square held
    /// by a king is never capturable, whatever its color; king safety is
    /// enforced by the one-ply simulation instead.
    pub fn can_capture_tile(&self, source: &Coord, target: &Coord) -> (r: bool)
        requires
            source.valid(),
            target.valid(),
            self@.at(*source) is Some,
        ensures
            r == can_capture(self@, *source, *target),
            (self@.at(*target) matches Some(t) && t.1 == Piece::King) ==> !r,
    {
        let source_tile = self.board[source.index()].unwrap();
        let target_tile = self.board[target.index()];
        match target_tile {
            None => true,
            Some(t) => {
                if t.0 == source_tile.0 || t.1 == Piece::King {
                    return false;
                }
                true
            },
        }
    }

    /// The ray walked from `start` along `direction`, as far as (and
    /// including) the first off-board or occupied square.
    #[verifier::loop_isolation(true)]
    pub fn get_consecutive_capture_tiles(&self, start: &Coord, direction: &Coord) -> (r: Vec<
        Coord,
    >)
        requires
            start.valid(),
            direction.0 != 0 || direction.1 != 0,
            -8 <= direction.0 <= 8,
            -8 <= direction.1 <= 8,
        ensures
            r@ == ray_targets(self@, *start, *direction),
    {
        let mut cursor: Coord = *start;
        let mut c: Vec<Coord> = Vec::new();
        loop
            invariant_except_break
                direction.0 != 0 || direction.1 != 0,
                -8 <= direction.0 <= 8,
                -8 <= direction.1 <= 8,
                cursor.valid(),
                c.len() <= 8,
                8 - c.len() >= ray_measure(cursor, *direction),
                ray_targets(self@, *start, *direction) == c@ + ray_targets_fuel(
                    self@,
                    cursor,
                    *direction,
                    (8 - c.len()) as nat,
                ),
            ensures
                c@ == ray_targets(self@, *start, *direction),
            decreases ray_measure(cursor, *direction),
        {
            let ghost prev = cursor;
            let ghost fuel_prev = (8 - c.len()) as nat;
            cursor.offset_in_place(direction);
            proof {
                assert(cursor == step(prev, *direction));
                assert(fuel_prev >= 1);
            }
            c.push(cursor);
            if !cursor.is_valid() {
                proof {
                    assert(ray_targets_fuel(self@, prev, *direction, fuel_prev) =~= seq![cursor]);
                    assert(c@ =~= c@.subrange(0, c.len() - 1) + seq![cursor]);
                }
                break;
            }
            if self.board[cursor.index()].is_some() {
                proof {
                    assert(ray_targets_fuel(self@, prev, *direction, fuel_prev) =~= seq![cursor]);
                }
                break;
            }
            proof {
                assert(ray_targets_fuel(self@, prev, *direction, fuel_prev) =~= seq![cursor]
                    + ray_targets_fuel(self@, cursor, *direction, (fuel_prev - 1) as nat));
                assert(c@ + ray_targets_fuel(self@, cursor, *direction, (8 - c.len()) as nat)
                    =~= c@.subrange(0, c.len() - 1) + ray_targets_fuel(
                    self@,
                    prev,
                    *direction,
                    fuel_prev,
                ));
            }
        }
        c
    }
}

/// Every member of the whole-board pseudo-legal enumeration is a basic
/// move between valid squares.
pub proof fn lemma_all_pseudo_shape(v: GameView, n: nat)
    requires
        n <= 64,
    ensures
        forall|i: int|
            0 <= i < all_pseudo_upto(v, n).len() ==> basic_ok(
                #[trigger] all_pseudo_upto(v, n)[i],
            ),
    decreases n,
{
    if n > 0 {
        lemma_all_pseudo_shape(v, (n - 1) as nat);
        let k = n - 1;
        let q = sq_at(k as int);
        assert(0 <= k as int / 8 < 8 && 0 <= k as int % 8 < 8);
        assert(q.valid());
        lemma_pseudo_moves_shape(v, q);
        let pre = all_pseudo_upto(v, (n - 1) as nat);
        assert forall|i: int|
            0 <= i < all_pseudo_upto(v, n).len() implies basic_ok(
            #[trigger] all_pseudo_upto(v, n)[i],
        ) by {
            if i < pre.len() {
                assert(all_pseudo_upto(v, n)[i] == pre[i]);
            } else {
                let tail = square_pseudo(v, k as int);
                assert(all_pseudo_upto(v, n)[i] == tail[i - pre.len()]);
                assert(tail[i - pre.len()] == pseudo_moves(v, q)[i - pre.len()]);
            }
        }
    }
}

/// Filtering keeps only members of the filtered sequence, so their shape
/// carries over.
proof fn lemma_filter_legal_shape(v: GameView, ms: Seq<Move>)
    requires
        forall|i: int| 0 <= i < ms.len() ==> basic_ok(#[trigger] ms[i]),
    ensures
        forall|i: int|
            0 <= i < filter_legal(v, ms).len() ==> basic_ok(#[trigger] filter_legal(v, ms)[i]),
    decreases ms.len(),
{
    if ms.len() > 0 {
        assert(forall|i: int|
            0 <= i < ms.len() - 1 ==> basic_ok(#[trigger] ms.drop_last()[i]));
        lemma_filter_legal_shape(v, ms.drop_last());
        let pre = filter_legal(v, ms.drop_last());
        assert forall|i: int| 0 <= i < filter_legal(v, ms).len() implies basic_ok(
            #[trigger] filter_legal(v, ms)[i],
        ) by {
            if i < pre.len() {
                assert(filter_legal(v, ms)[i] == pre[i]);
            } else {
                assert(filter_legal(v, ms)[i] == ms.last());
            }
        }
    }
}

/// Every member of the whole-board legal enumeration is a basic move
/// between valid squares.
pub proof fn lemma_all_legal_shape(v: GameView, n: nat)
    requires
        n <= 64,
    ensures
        forall|i: int|
            0 <= i < all_legal_upto(v, n).len() ==> basic_ok(#[trigger] all_legal_upto(v, n)[i]),
    decreases n,
{
    if n > 0 {
        lemma_all_legal_shape(v, (n - 1) as nat);
        let k = n - 1;
        let q = sq_at(k as int);
        assert(0 <= k as int / 8 < 8 && 0 <= k as int % 8 < 8);
        assert(q.valid());
        lemma_pseudo_moves_shape(v, q);
        lemma_filter_legal_shape(v, pseudo_moves(v, q));
        let pre = all_legal_upto(v, (n - 1) as nat);
        assert forall|i: int| 0 <= i < all_legal_upto(v, n).len() implies basic_ok(
            #[trigger] all_legal_upto(v, n)[i],
        ) by {
            if i < pre.len() {
                assert(all_legal_upto(v, n)[i] == pre[i]);
            } else {
                let tail = square_legal(v, k as int);
                assert(all_legal_upto(v, n)[i] == tail[i - pre.len()]);
                assert(tail[i - pre.len()] == legal_moves(v, q)[i - pre.len()]);
                assert(legal_moves(v, q)[i - pre.len()] == filter_legal(v, pseudo_moves(v, q))[i
                    - pre.len()]);
            }
        }
    }
}

/// A move sequence filters to nothing exactly when each member results in
/// a check.
proof fn lemma_filter_legal_empty(v: GameView, ms: Seq<Move>)
    ensures
        filter_legal(v, ms).len() == 0 <==> forall|i: int|
            0 <= i < ms.len() ==> results_in_check(v, #[trigger] ms[i]),
    decreases ms.len(),
{
    if ms.len() > 0 {
        lemma_filter_legal_empty(v, ms.drop_last());
        assert(forall|i: int| 0 <= i < ms.len() - 1 ==> ms.drop_last()[i] == #[trigger] ms[i]);
        if filter_legal(v, ms).len() == 0 {
            assert(filter_legal(v, ms.drop_last()).len() == 0);
            assert(results_in_check(v, ms.last()));
            assert forall|i: int| 0 <= i < ms.len() implies results_in_check(
                v,
                #[trigger] ms[i],
            ) by {
                if i < ms.len() - 1 {
                    assert(results_in_check(v, ms.drop_last()[i]));
                } else {
                    assert(ms[i] == ms.last());
                }
            }
        }
        if forall|i: int| 0 <= i < ms.len() ==> results_in_check(v, #[trigger] ms[i]) {
            assert(results_in_check(v, ms.last()));
            assert(forall|i: int|
                0 <= i < ms.len() - 1 ==> results_in_check(v, #[trigger] ms.drop_last()[i]));
            assert(filter_legal(v, ms.drop_last()).len() == 0);
        }
    }
}

/// An empty whole-board legal enumeration means every scanned square
/// contributed nothing.
proof fn lemma_all_legal_empty_square(v: GameView, n: nat)
    requires
        all_legal_upto(v, n).len() == 0,
    ensures
        forall|k: int| 0 <= k < n ==> (#[trigger] square_legal(v, k)).len() == 0,
    decreases n,
{
    if n > 0 {
        assert(all_legal_upto(v, (n - 1) as nat).len() == 0);
        lemma_all_legal_empty_square(v, (n - 1) as nat);
    }
}

/// When every square's legal contribution is empty, every pseudo-legal
/// move results in a check.
proof fn lemma_all_pseudo_all_ric(v: GameView, n: nat)
    requires
        forall|k: int| 0 <= k < n ==> (#[trigger] square_legal(v, k)).len() == 0,
    ensures
        forall|i: int|
            0 <= i < all_pseudo_upto(v, n).len() ==> results_in_check(
                v,
                #[trigger] all_pseudo_upto(v, n)[i],
            ),
    decreases n,
{
    if n > 0 {
        lemma_all_pseudo_all_ric(v, (n - 1) as nat);
        let k = n - 1;
        assert(square_legal(v, k as int) == filter_legal(v, square_pseudo(v, k as int)));
        lemma_filter_legal_empty(v, square_pseudo(v, k as int));
        let pre = all_pseudo_upto(v, (n - 1) as nat);
        assert forall|i: int| 0 <= i < all_pseudo_upto(v, n).len() implies results_in_check(
            v,
            #[trigger] all_pseudo_upto(v, n)[i],
        ) by {
            if i < pre.len() {
                assert(all_pseudo_upto(v, n)[i] == pre[i]);
            } else {
                assert(all_pseudo_upto(v, n)[i] == square_pseudo(v, k as int)[i - pre.len()]);
            }
        }
    }
}

/// With no legal move for the side to move, the classification is forced:
/// stalemate without a present check, checkmate with one.
///
/// The hypothesis on the simulated replies excludes positions in which
/// some pseudo-legal move of the stuck side would put only the opponent
/// in check: for those the escape scan of `state_of` and the legality
/// filter diverge by design, and no classification is forced.
pub proof fn lemma_stuck_side_classification(v: GameView)
    requires
        all_legal(v).len() == 0,
        forall|i: int|
            0 <= i < all_pseudo(v).len() ==> (results_in_check(v, #[trigger] all_pseudo(v)[i])
                ==> is_check_of(apply_basic(v, all_pseudo(v)[i])) == Some(v.active)),
    ensures
        is_check_of(v) is None ==> state_of(v) == GameState::Stalemate,
        is_check_of(v) is Some ==> state_of(v) == GameState::Checkmate(v.active),
{
    lemma_all_legal_empty_square(v, 64);
    lemma_all_pseudo_all_ric(v, 64);
    assert(no_escape(v));
}

impl Game {
    /// Builds the raw candidate-target list of `tile` standing on `c`.
    fn candidate_targets(&self, c: &Coord, tile: Tile) -> (r: Vec<Coord>)
        requires
            c.valid(),
        ensures
            r@ == piece_targets(self@, *c, tile),
    {
        let mut targets: Vec<Coord> = Vec::new();
        match tile.1 {
            Piece::Queen => {
                let mut t1 = self.get_consecutive_capture_tiles(c, &Coord(1, 1));
                targets.append(&mut t1);
                let mut t2 = self.get_consecutive_capture_tiles(c, &Coord(1, -1));
                targets.append(&mut t2);
                let mut t3 = self.get_consecutive_capture_tiles(c, &Coord(-1, 1));
                targets.append(&mut t3);
                let mut t4 = self.get_consecutive_capture_tiles(c, &Coord(-1, -1));
                targets.append(&mut t4);
                proof {
                    assert(targets@ =~= piece_targets(self@, *c, tile));
                }
            },
            Piece::King => {
                targets.push(c.offset(&Coord(1, 1)));
                targets.push(c.offset(&Coord(1, -1)));
                targets.push(c.offset(&Coord(-1, 1)));
                targets.push(c.offset(&Coord(-1, -1)));
                targets.push(c.offset(&Coord(0, 1)));
                targets.push(c.offset(&Coord(0, -1)));
                targets.push(c.offset(&Coord(1, 0)));
                targets.push(c.offset(&Coord(-1, 0)));
                proof {
                    assert(targets@ =~= piece_targets(self@, *c, tile));
                }
            },
            Piece::Knight => {
                targets.push(c.offset(&Coord(2, 1)));
                targets.push(c.offset(&Coord(2, -1)));
                targets.push(c.offset(&Coord(-2, 1)));
                targets.push(c.offset(&Coord(-2, -1)));
                targets.push(c.offset(&Coord(1, 2)));
                targets.push(c.offset(&Coord(-1, 2)));
                targets.push(c.offset(&Coord(1, -2)));
                targets.push(c.offset(&Coord(-1, -2)));
                proof {
                    assert(targets@ =~= piece_targets(self@, *c, tile));
                }
            },
            Piece::Bishop => {
                let mut t1 = self.get_consecutive_capture_tiles(c, &Coord(1, 1));
                targets.append(&mut t1);
                let mut t2 = self.get_consecutive_capture_tiles(c, &Coord(1, -1));
                targets.append(&mut t2);
                let mut t3 = self.get_consecutive_capture_tiles(c, &Coord(-1, 1));
                targets.append(&mut t3);
                let mut t4 = self.get_consecutive_capture_tiles(c, &Coord(-1, -1));
                targets.append(&mut t4);
                proof {
                    assert(targets@ =~= piece_targets(self@, *c, tile));
                }
            },
            Piece::Rook => {
                let mut t1 = self.get_consecutive_capture_tiles(c, &Coord(0, 1));
                targets.append(&mut t1);
                let mut t2 = self.get_consecutive_capture_tiles(c, &Coord(0, -1));
                targets.append(&mut t2);
                let mut t3 = self.get_consecutive_capture_tiles(c, &Coord(1, 0));
                targets.append(&mut t3);
                let mut t4 = self.get_consecutive_capture_tiles(c, &Coord(-1, 0));
                targets.append(&mut t4);
                proof {
                    assert(targets@ =~= piece_targets(self@, *c, tile));
                }
            },
            Piece::Pawn => {
                let mut dir = tile.0.get_direction();
                targets.push(c.offset(&dir));
                if c.1 == 1 && tile.0 == Color::White {
                    let d2 = dir.mul(2);
                    targets.push(c.offset(&d2));
                }
                if c.1 == 6 && tile.0 == Color::Black {
                    let d2 = dir.mul(2);
                    targets.push(c.offset(&d2));
                }
                proof {
                    assert(targets@ =~= piece_targets(self@, *c, tile));
                }
            },
        }
        targets
    }

    /// Every pseudo-legal move of the occupant of `c`; empty if `c` is
    /// empty. Geometric reachability only: the mover's own king may be left
    /// attacked.
    pub fn get_possible_moves_unchecked(&self, c: &Coord) -> (r: Vec<Move>)
        requires
            c.valid(),
        ensures
            r@ == pseudo_moves(self@, *c),
    {
        let tile = match self.board[c.index()] {
            Some(t) => t,
            None => {
                return Vec::new();
            },
        };
        let targets = self.candidate_targets(c, tile);
        let mut moves: Vec<Move> = Vec::new();
        let mut i: usize = 0;
        while i < targets.len()
            invariant
                i <= targets.len(),
                moves@ == targets_to_moves(self@, *c, targets@.take(i as int)),
            decreases targets.len() - i,
        {
            let t = targets[i];
            if t.is_valid() && self.can_capture_tile(c, &t) {
                moves.push(Move::Basic(*c, t));
            }
            proof {
                assert(targets@.take(i + 1).drop_last() =~= targets@.take(i as int));
                assert(targets@.take(i + 1).last() == targets@[i as int]);
            }
            i = i + 1;
        }
        proof {
            assert(targets@.take(targets.len() as int) =~= targets@);
        }
        moves
    }

    /// Applies a basic move in place with no legality checking. Castling,
    /// en passant, and promotion are unsupported; callers exclude them.
    pub fn make_move_unchecked(&mut self, m: &Move)
        requires
            basic_ok(*m),
            apply_ok(old(self)@),
        ensures
            final(self)@ == apply_basic(old(self)@, *m),
    {
        let capture = match m {
            Move::Basic(from, to) => {
                let tile = self.board[from.index()];
                let capture = self.board[to.index()].is_some();
                self.board[to.index()] = tile;
                self.board[from.index()] = None;
                capture
            },
            _ => unreached(),
        };
        if capture {
            self.moves_since_capture = 0;
        }
        if self.active_color == Color::White {
            self.move_count = self.move_count + 1;
            if !capture {
                self.moves_since_capture = self.moves_since_capture + 1;
            }
        }
        self.active_color = self.active_color.opponent();
        proof {
            assert(self@ =~= apply_basic(old(self)@, *m));
        }
    }

    /// The on-board squares the occupant of `q` geometrically reaches.
    fn reachable_targets(&self, q: &Coord) -> (r: Vec<Coord>)
        requires
            q.valid(),
        ensures
            r@ == reach(self@, *q),
    {
        let tile = match self.board[q.index()] {
            Some(t) => t,
            None => {
                return Vec::new();
            },
        };
        let targets = self.candidate_targets(q, tile);
        let mut out: Vec<Coord> = Vec::new();
        let mut i: usize = 0;
        while i < targets.len()
            invariant
                i <= targets.len(),
                out@ == valid_targets(targets@.take(i as int)),
            decreases targets.len() - i,
        {
            let t = targets[i];
            if t.is_valid() {
                out.push(t);
            }
            proof {
                assert(targets@.take(i + 1).drop_last() =~= targets@.take(i as int));
                assert(targets@.take(i + 1).last() == targets@[i as int]);
            }
            i = i + 1;
        }
        proof {
            assert(targets@.take(targets.len() as int) =~= targets@);
        }
        out
    }

    /// Whether any enemy occupant reaches a square holding a king of
    /// color `col`.
    fn color_checked(&self, col: Color) -> (r: bool)
        ensures
            r == in_check(self@, col),
    {
        let mut found = false;
        let mut f: usize = 0;
        while f < 8
            invariant
                f <= 8,
                found == in_check_upto(self@, col, (f * 8) as nat),
            decreases 8 - f,
        {
            let mut rk: usize = 0;
            while rk < 8
                invariant
                    rk <= 8,
                    f < 8,
                    found == in_check_upto(self@, col, (f * 8 + rk) as nat),
                decreases 8 - rk,
            {
                let q = Coord(f as i8, rk as i8);
                proof {
                    lemma_sq_at_index(f as int, rk as int);
                }
                let mut attacks = false;
                match self.board[q.index()] {
                    None => {},
                    Some(t) => {
                        if !(t.0 == col) {
                            let targets = self.reachable_targets(&q);
                            proof {
                                lemma_valid_targets_valid(piece_targets(self@, q, t));
                            }
                            let mut j: usize = 0;
                            while j < targets.len()
                                invariant
                                    j <= targets.len(),
                                    targets@ == reach(self@, q),
                                    q.valid(),
                                    forall|jj: int|
                                        0 <= jj < targets@.len() ==> (
                                        #[trigger] targets@[jj]).valid(),
                                    attacks == exists|jj: int|
                                        0 <= jj < j && self@.at(#[trigger] targets@[jj]) == Some(
                                            Tile(col, Piece::King),
                                        ),
                                decreases targets.len() - j,
                            {
                                let tc = targets[j];
                                match self.board[tc.index()] {
                                    Some(tt) => {
                                        if tt == Tile(col, Piece::King) {
                                            attacks = true;
                                            proof {
                                                assert(self@.at(targets@[j as int]) == Some(
                                                    Tile(col, Piece::King),
                                                ));
                                            }
                                        }
                                    },
                                    None => {},
                                }
                                j = j + 1;
                            }
                            proof {
                                assert(attacks == square_attacks(self@, q, col));
                            }
                        } else {
                            proof {
                                assert(!square_attacks(self@, q, col));
                            }
                        }
                    },
                }
                proof {
                    assert(square_attacks(self@, sq_at((f * 8 + rk) as int), col) == attacks);
                }
                found = found || attacks;
                rk = rk + 1;
            }
            f = f + 1;
        }
        proof {
            lemma_in_check_scan(self@, col, 64);
            assert forall|q: Coord| square_attacks(self@, q, col) implies q.0 * 8 + q.1 < 64 by {
                assert(q.valid());
            }
        }
        found
    }

    /// The first color in check, testing White before Black.
    pub fn is_check(&self) -> (r: Option<Color>)
        ensures
            r == is_check_of(self@),
    {
        if self.color_checked(Color::White) {
            Some(Color::White)
        } else if self.color_checked(Color::Black) {
            Some(Color::Black)
        } else {
            None
        }
    }

    /// Plays `m` on a scratch copy and reports whether any king is then
    /// capturable. The copy is discarded; `self` is never touched.
    pub fn move_results_in_check(&self, m: &Move) -> (r: bool)
        requires
            basic_ok(*m),
            apply_ok(self@),
        ensures
            r == results_in_check(self@, *m),
    {
        let mut branch = *self;
        branch.make_move_unchecked(m);
        branch.is_check().is_some()
    }

    /// The legal moves of the occupant of `c`: pseudo-legal and surviving
    /// the one-ply check simulation.
    pub fn get_possible_moves(&self, c: &Coord) -> (r: Vec<Move>)
        requires
            c.valid(),
            apply_ok(self@),
        ensures
            r@ == legal_moves(self@, *c),
    {
        let unchecked = self.get_possible_moves_unchecked(c);
        proof {
            lemma_pseudo_moves_shape(self@, *c);
        }
        let mut moves: Vec<Move> = Vec::new();
        let mut i: usize = 0;
        while i < unchecked.len()
            invariant
                i <= unchecked.len(),
                moves@ == filter_legal(self@, unchecked@.take(i as int)),
            decreases unchecked.len() - i,
        {
            let m = unchecked[i];
            proof {
                assert(unchecked@[i as int] == pseudo_moves(self@, *c)[i as int]);
            }
            if !self.move_results_in_check(&m) {
                moves.push(m);
            }
            proof {
                assert(unchecked@.take(i + 1).drop_last() =~= unchecked@.take(i as int));
                assert(unchecked@.take(i + 1).last() == unchecked@[i as int]);
            }
            i = i + 1;
        }
        proof {
            assert(unchecked@.take(unchecked.len() as int) =~= unchecked@);
        }
        moves
    }

    /// Every pseudo-legal move of the side to move, scanning files
    /// outermost and ranks innermost.
    pub fn get_all_possible_moves_unchecked(&self) -> (r: Vec<Move>)
        ensures
            r@ == all_pseudo(self@),
    {
        let mut moves: Vec<Move> = Vec::new();
        let mut f: usize = 0;
        while f < 8
            invariant
                f <= 8,
                moves@ == all_pseudo_upto(self@, (f * 8) as nat),
            decreases 8 - f,
        {
            let mut rk: usize = 0;
            while rk < 8
                invariant
                    rk <= 8,
                    f < 8,
                    moves@ == all_pseudo_upto(self@, (f * 8 + rk) as nat),
                decreases 8 - rk,
            {
                let cq = Coord(f as i8, rk as i8);
                proof {
                    lemma_sq_at_index(f as int, rk as int);
                }
                match self.board[cq.index()] {
                    Some(tile) => {
                        if tile.0 == self.active_color {
                            let mut chunk = self.get_possible_moves_unchecked(&cq);
                            moves.append(&mut chunk);
                        } else {
                            proof {
                                assert(moves@ + square_pseudo(self@, (f * 8 + rk) as int)
                                    =~= moves@);
                            }
                        }
                    },
                    None => {
                        proof {
                            assert(moves@ + square_pseudo(self@, (f * 8 + rk) as int) =~= moves@);
                        }
                    },
                }
                rk = rk + 1;
            }
            f = f + 1;
        }
        moves
    }

    /// Every legal move of the side to move, scanning files outermost and
    /// ranks innermost. The order is observable and deterministic.
    pub fn get_all_possible_moves(&self) -> (r: Vec<Move>)
        requires
            apply_ok(self@),
        ensures
            r@ == all_legal(self@),
    {
        let mut moves: Vec<Move> = Vec::new();
        let mut f: usize = 0;
        while f < 8
            invariant
                f <= 8,
                moves@ == all_legal_upto(self@, (f * 8) as nat),
            decreases 8 - f,
        {
            let mut rk: usize = 0;
            while rk < 8
                invariant
                    rk <= 8,
                    f < 8,
                    moves@ == all_legal_upto(self@, (f * 8 + rk) as nat),
                decreases 8 - rk,
            {
                let cq = Coord(f as i8, rk as i8);
                proof {
                    lemma_sq_at_index(f as int, rk as int);
                }
                match self.board[cq.index()] {
                    Some(tile) => {
                        if tile.0 == self.active_color {
                            let mut chunk = self.get_possible_moves(&cq);
                            moves.append(&mut chunk);
                        } else {
                            proof {
                                assert(moves@ + square_legal(self@, (f * 8 + rk) as int) =~= moves@);
                            }
                        }
                    },
                    None => {
                        proof {
                            assert(moves@ + square_legal(self@, (f * 8 + rk) as int) =~= moves@);
                        }
                    },
                }
                rk = rk + 1;
            }
            f = f + 1;
        }
        moves
    }

    /// Applies `m` if it is legal, returning the classification of the
    /// resulting position; otherwise reports why it was rejected and
    /// leaves the position untouched. A rejected move never mutates the
    /// position: the legality simulation plays on a scratch copy only.
    pub fn make_move(&mut self, m: &Move) -> (r: Result<GameState, MoveError>)
        requires
            old(self)@.counters_ok(),
            *m matches Move::Basic(f, t) ==> f.valid() && t.valid(),
        ensures
            !basic_ok(*m) ==> r == Err::<GameState, MoveError>(MoveError::UnsupportedMove),
            basic_ok(*m) && results_in_check(old(self)@, *m) ==> r == Err::<
                GameState,
                MoveError,
            >(MoveError::ResultsInCheck),
            basic_ok(*m) && !results_in_check(old(self)@, *m) && !legal_moves(
                old(self)@,
                source_of(*m),
            ).contains(*m) ==> r == Err::<GameState, MoveError>(MoveError::NotALegalMove),
            basic_ok(*m) && !results_in_check(old(self)@, *m) && legal_moves(
                old(self)@,
                source_of(*m),
            ).contains(*m) ==> final(self)@ == apply_basic(old(self)@, *m) && r == Ok::<
                GameState,
                MoveError,
            >(state_of(apply_basic(old(self)@, *m))),
            r is Err ==> final(self)@ == old(self)@,
            r is Ok ==> (*m matches Move::Basic(mf, mt) && ((old(self)@.at(mt) is Some
                ==> final(self)@.clock == 0) && (old(self)@.at(mt) is None && old(self)@.active
                == Color::White ==> final(self)@.clock == old(self)@.clock + 1) && (old(
                self,
            )@.at(mt) is None && old(self)@.active == Color::Black ==> final(self)@.clock == old(
                self,
            )@.clock))),
    {
        let is_basic = match m {
            Move::Basic(_, _) => true,
            _ => false,
        };
        if !is_basic {
            return Err(MoveError::UnsupportedMove);
        }
        if self.move_results_in_check(m) {
            return Err(MoveError::ResultsInCheck);
        }
        let source = m.get_source_coord();
        let possible_moves = self.get_possible_moves(&source);
        let mut found = false;
        let mut i: usize = 0;
        while i < possible_moves.len()
            invariant
                i <= possible_moves.len(),
                found == exists|j: int| 0 <= j < i && #[trigger] possible_moves@[j] == *m,
            decreases possible_moves.len() - i,
        {
            if possible_moves[i] == *m {
                found = true;
                proof {
                    assert(possible_moves@[i as int] == *m);
                }
            }
            i = i + 1;
        }
        proof {
            assert(found == possible_moves@.contains(*m));
        }
        if !found {
            return Err(MoveError::NotALegalMove);
        }
        self.make_move_unchecked(m);
        Ok(self.state())
    }

    /// Classifies the position per the table of [`state_of`], scanning the
    /// unfiltered pseudo-legal moves of the side to move for an escape
    /// from check.
    pub fn state(&self) -> (r: GameState)
        requires
            apply_ok(self@),
        ensures
            r == state_of(self@),
    {
        let check_now = self.is_check();
        let all = self.get_all_possible_moves_unchecked();
        proof {
            lemma_all_pseudo_shape(self@, 64);
        }
        let mut noesc = true;
        let mut i: usize = 0;
        while i < all.len()
            invariant
                i <= all.len(),
                noesc == forall|j: int|
                    0 <= j < i ==> is_check_of(apply_basic(self@, #[trigger] all@[j])) == Some(
                        self@.active,
                    ),
            decreases all.len() - i,
        {
            let m = all[i];
            proof {
                assert(all@[i as int] == all_pseudo(self@)[i as int]);
            }
            let mut branch = *self;
            branch.make_move_unchecked(&m);
            let chk = branch.is_check();
            let leaves = match chk {
                Some(cc) => cc == self.active_color,
                None => false,
            };
            noesc = noesc && leaves;
            i = i + 1;
        }
        proof {
            assert(noesc == no_escape(self@));
        }
        match check_now {
            None => if noesc {
                GameState::Stalemate
            } else {
                GameState::Normal
            },
            Some(cc) => if noesc {
                GameState::Checkmate(self.active_color)
            } else {
                GameState::Check(cc)
            },
        }
    }
}

} // verus!
