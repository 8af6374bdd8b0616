//! Move-selection collaborators: they consume the engine's legal move
//! enumeration and produce a single legal move.

use rand::Rng;
use vstd::prelude::*;

use crate::moves::{
    all_legal, apply_basic, apply_ok, basic_ok, lemma_all_legal_shape, opponent_of, sq_at,
};
use crate::{AlgoError, Color, Game, GameView, Move, Piece};

verus! {

/// The material weight of a piece kind. Kings carry no weight: they are
/// never capturable.
pub open spec fn piece_value(p: Piece) -> int {
    match p {
        Piece::King => 0,
        Piece::Queen => 9,
        Piece::Knight => 3,
        Piece::Bishop => 3,
        Piece::Rook => 5,
        Piece::Pawn => 1,
    }
}

/// The summed material of color `c` over the first `n` scanned squares.
pub open spec fn material_upto(v: GameView, c: Color, n: nat) -> int
    decreases n,
{
    if n == 0 {
        0
    } else {
        material_upto(v, c, (n - 1) as nat) + (match v.at(sq_at(n - 1)) {
            Some(t) => if t.0 == c {
                piece_value(t.1)
            } else {
                0
            },
            None => 0,
        })
    }
}

/// The summed material of color `c` on the board.
pub open spec fn material(v: GameView, c: Color) -> int {
    material_upto(v, c, 64)
}

/// What a candidate move leaves the enemy: the opponent's material after
/// the move is applied.
pub open spec fn reply_material(v: GameView, m: Move) -> int {
    material(apply_basic(v, m), opponent_of(v.active))
}

/// Material is bounded by nine points per scanned square.
proof fn lemma_material_bound(v: GameView, c: Color, n: nat)
    ensures
        0 <= material_upto(v, c, n) <= 9 * n,
    decreases n,
{
    if n > 0 {
        lemma_material_bound(v, c, (n - 1) as nat);
    }
}

/// Sums the material of color `c` on the board.
fn material_of(game: &Game, c: Color) -> (r: u32)
    ensures
        r as int == material(game@, c),
{
    let mut total: u32 = 0;
    let mut f: usize = 0;
    while f < 8
        invariant
            f <= 8,
            total as int == material_upto(game@, c, (f * 8) as nat),
            total <= 600,
        decreases 8 - f,
    {
        let mut rk: usize = 0;
        while rk < 8
            invariant
                rk <= 8,
                f < 8,
                total as int == material_upto(game@, c, (f * 8 + rk) as nat),
                total <= 600,
            decreases 8 - rk,
        {
            let cq = crate::Coord(f as i8, rk as i8);
            proof {
                crate::moves::lemma_sq_at_index(f as int, rk as int);
                lemma_material_bound(game@, c, (f * 8 + rk) as nat);
                lemma_material_bound(game@, c, (f * 8 + rk + 1) as nat);
            }
            match game.board[cq.index()] {
                Some(t) => {
                    if t.0 == c {
                        let val: u32 = match t.1 {
                            Piece::King => 0,
                            Piece::Queen => 9,
                            Piece::Knight => 3,
                            Piece::Bishop => 3,
                            Piece::Rook => 5,
                            Piece::Pawn => 1,
                        };
                        total = total + val;
                    }
                },
                None => {},
            }
            rk = rk + 1;
        }
        f = f + 1;
    }
    total
}

/// Picks a legal move by a one-ply search: the move that leaves the
/// opponent the least material, preferring the earliest in enumeration
/// order on ties.
pub fn minimax_move(game: &Game) -> (r: Move)
    requires
        apply_ok(game@),
        all_legal(game@).len() > 0,
    ensures
        all_legal(game@).contains(r),
        forall|i: int|
            0 <= i < all_legal(game@).len() ==> reply_material(game@, r) <= reply_material(
                game@,
                #[trigger] all_legal(game@)[i],
            ),
{
    let moves = game.get_all_possible_moves();
    proof {
        lemma_all_legal_shape(game@, 64);
        assert(all_legal(game@)[0] == moves@[0]);
    }
    let mut best = moves[0];
    let mut branch0 = *game;
    branch0.make_move_unchecked(&best);
    let mut best_score = material_of(&branch0, game.active_color.opponent());
    let mut i: usize = 1;
    while i < moves.len()
        invariant
            1 <= i <= moves.len(),
            moves@ == all_legal(game@),
            moves@.len() > 0,
            apply_ok(game@),
            all_legal(game@).contains(best),
            best_score as int == reply_material(game@, best),
            forall|j: int|
                0 <= j < i ==> reply_material(game@, best) <= reply_material(
                    game@,
                    #[trigger] moves@[j],
                ),
        decreases moves.len() - i,
    {
        let m = moves[i];
        proof {
            assert(all_legal(game@)[i as int] == m);
            assert(basic_ok(m));
        }
        let mut branch = *game;
        branch.make_move_unchecked(&m);
        let score = material_of(&branch, game.active_color.opponent());
        if score < best_score {
            best = m;
            best_score = score;
            proof {
                assert(all_legal(game@).contains(best));
            }
        }
        i = i + 1;
    }
    best
}

#[verifier::external_type_specification]
#[verifier::external_body]
pub struct ExThreadRng(rand::rngs::ThreadRng);

/// Relies on rand::thread_rng: a handle to the thread-local generator.
/// Nothing is assumed of the values it will produce.
#[verifier::external_body]
fn fresh_rng() -> rand::rngs::ThreadRng {
    rand::thread_rng()
}

/// Relies on Rng::gen_range over `0..n`: the draw lies below `n`; an
/// empty range would panic, so it is excluded. Which value comes back is
/// chance, and nothing more is assumed.
#[verifier::external_body]
fn gen_index(rng: &mut rand::rngs::ThreadRng, n: usize) -> (r: usize)
    requires
        n > 0,
    ensures
        r < n,
{
    rng.gen_range(0..n)
}

/// Picks a uniformly random member of the legal move enumeration.
pub fn random_move(game: &Game) -> (r: Move)
    requires
        apply_ok(game@),
        all_legal(game@).len() > 0,
    ensures
        all_legal(game@).contains(r),
{
    let moves = game.get_all_possible_moves();
    let mut rng = fresh_rng();
    let index = gen_index(&mut rng, moves.len());
    let m = moves[index].clone();
    proof {
        assert(all_legal(game@)[index as int] == m);
    }
    m
}

/// Compares two texts character by character.
fn eq_str(a: &str, b: &str) -> (r: bool)
    ensures
        r == (a@ == b@),
{
    let na = a.unicode_len();
    let nb = b.unicode_len();
    if na != nb {
        return false;
    }
    let mut i: usize = 0;
    while i < na
        invariant
            i <= na,
            na == a@.len(),
            na == b@.len(),
            forall|j: int| 0 <= j < i ==> a@[j] == b@[j],
        decreases na - i,
    {
        if a.get_char(i) != b.get_char(i) {
            return false;
        }
        i = i + 1;
    }
    proof {
        assert(a@ =~= b@);
    }
    true
}

/// Runs the named move-selection algorithm: `minimax` or `random`. Any
/// other name is unknown. Known algorithms must be given a position with
/// at least one legal move.
pub fn algo_move(name: &str, game: &Game) -> (r: Result<Move, AlgoError>)
    requires
        (name@ == "minimax"@ || name@ == "random"@) ==> (apply_ok(game@) && all_legal(
            game@,
        ).len() > 0),
    ensures
        name@ == "minimax"@ || name@ == "random"@ ==> (r matches Ok(m) && all_legal(
            game@,
        ).contains(m)),
        !(name@ == "minimax"@ || name@ == "random"@) ==> r == Err::<Move, AlgoError>(
            AlgoError::UnknownAlgorithm,
        ),
{
    if eq_str(name, "minimax") {
        Ok(minimax_move(game))
    } else if eq_str(name, "random") {
        Ok(random_move(game))
    } else {
        Err(AlgoError::UnknownAlgorithm)
    }
}

} // verus!
