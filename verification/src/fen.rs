//! The portable six-field position notation: parsing and serialization.
//!
//! A record holds, separated by single spaces: piece placement (eight
//! slash-separated rank groups, rank 8 first), active color (`w`/`b`),
//! castling availability (a subset of `KQkq`, or `-`), the en-passant
//! target square (algebraic, or `-`), the half-move clock, and the
//! full-move counter.

use vstd::prelude::*;

use crate::{Color, Coord, FenError, Game, GameView, Piece, Tile};

verus! {

/// Splitting a character sequence on a separator, by the trailing
/// character: an empty text is one empty field, a trailing separator opens
/// a fresh empty field, and any other character extends the last field.
pub open spec fn split_on(s: Seq<char>, sep: char) -> Seq<Seq<char>>
    decreases s.len(),
{
    if s.len() == 0 {
        seq![Seq::empty()]
    } else if s.last() == sep {
        split_on(s.drop_last(), sep).push(Seq::empty())
    } else {
        let sp = split_on(s.drop_last(), sep);
        sp.update(sp.len() - 1, sp.last().push(s.last()))
    }
}

/// A split always produces at least one field.
pub proof fn lemma_split_len(s: Seq<char>, sep: char)
    ensures
        split_on(s, sep).len() >= 1,
    decreases s.len(),
{
    if s.len() > 0 {
        lemma_split_len(s.drop_last(), sep);
    }
}

/// The occupant a placement letter stands for: uppercase White, lowercase
/// Black.
pub open spec fn tile_of_char(c: char) -> Option<Tile> {
    match c {
        'K' => Some(Tile(Color::White, Piece::King)),
        'k' => Some(Tile(Color::Black, Piece::King)),
        'Q' => Some(Tile(Color::White, Piece::Queen)),
        'q' => Some(Tile(Color::Black, Piece::Queen)),
        'B' => Some(Tile(Color::White, Piece::Bishop)),
        'b' => Some(Tile(Color::Black, Piece::Bishop)),
        'N' => Some(Tile(Color::White, Piece::Knight)),
        'n' => Some(Tile(Color::Black, Piece::Knight)),
        'R' => Some(Tile(Color::White, Piece::Rook)),
        'r' => Some(Tile(Color::Black, Piece::Rook)),
        'P' => Some(Tile(Color::White, Piece::Pawn)),
        'p' => Some(Tile(Color::Black, Piece::Pawn)),
        _ => None,
    }
}

/// The placement letter of an occupant; the inverse of [`tile_of_char`].
pub open spec fn char_of_tile(t: Tile) -> char {
    match t {
        Tile(Color::White, Piece::King) => 'K',
        Tile(Color::Black, Piece::King) => 'k',
        Tile(Color::White, Piece::Queen) => 'Q',
        Tile(Color::Black, Piece::Queen) => 'q',
        Tile(Color::White, Piece::Bishop) => 'B',
        Tile(Color::Black, Piece::Bishop) => 'b',
        Tile(Color::White, Piece::Knight) => 'N',
        Tile(Color::Black, Piece::Knight) => 'n',
        Tile(Color::White, Piece::Rook) => 'R',
        Tile(Color::Black, Piece::Rook) => 'r',
        Tile(Color::White, Piece::Pawn) => 'P',
        Tile(Color::Black, Piece::Pawn) => 'p',
    }
}

/// The file index an algebraic file letter stands for.
pub open spec fn file_of_char(c: char) -> Option<int> {
    match c {
        'a' => Some(0int),
        'b' => Some(1int),
        'c' => Some(2int),
        'd' => Some(3int),
        'e' => Some(4int),
        'f' => Some(5int),
        'g' => Some(6int),
        'h' => Some(7int),
        _ => None,
    }
}

/// The rank index an algebraic rank digit stands for.
pub open spec fn rank_of_char(c: char) -> Option<int> {
    match c {
        '1' => Some(0int),
        '2' => Some(1int),
        '3' => Some(2int),
        '4' => Some(3int),
        '5' => Some(4int),
        '6' => Some(5int),
        '7' => Some(6int),
        '8' => Some(7int),
        _ => None,
    }
}

/// Parsing a two-character algebraic square such as `e4`.
pub open spec fn parse_algebraic(s: Seq<char>) -> Result<Coord, FenError> {
    if s.len() != 2 {
        Err(FenError::BadSquareLength)
    } else {
        match file_of_char(s[0]) {
            None => Err(FenError::BadSquareFile),
            Some(x) => match rank_of_char(s[1]) {
                None => Err(FenError::BadSquareRank),
                Some(y) => Ok(Coord(x as i8, y as i8)),
            },
        }
    }
}

/// The count of empty squares a placement digit stands for.
pub open spec fn empties_of_char(c: char) -> Option<int> {
    match c {
        '1' => Some(1int),
        '2' => Some(2int),
        '3' => Some(3int),
        '4' => Some(4int),
        '5' => Some(5int),
        '6' => Some(6int),
        '7' => Some(7int),
        '8' => Some(8int),
        _ => None,
    }
}

/// One rank group of the placement field, consumed left to right from
/// character `j` with the write cursor at file `x`. Runs of empty squares
/// saturate at the board edge; a piece at or beyond the ninth file is a
/// too-wide board. Overlong digit runs that place no piece are tolerated.
pub open spec fn parse_group(
    b: Seq<Option<Tile>>,
    g: Seq<char>,
    rank: int,
    j: int,
    x: int,
) -> Result<Seq<Option<Tile>>, FenError>
    decreases g.len() - j,
{
    if j < 0 || j >= g.len() {
        Ok(b)
    } else {
        match empties_of_char(g[j]) {
            Some(d) => parse_group(
                b,
                g,
                rank,
                j + 1,
                if x + d > 8 {
                    8
                } else {
                    x + d
                },
            ),
            None => if x >= 8 {
                Err(FenError::BoardTooBig)
            } else {
                match tile_of_char(g[j]) {
                    None => Err(FenError::BadPieceChar),
                    Some(t) => parse_group(b.update(rank * 8 + x, Some(t)), g, rank, j + 1, x + 1),
                }
            },
        }
    }
}

/// The placement field: group `gi` describes rank `7 - gi`; more than
/// eight groups is a too-tall board.
pub open spec fn parse_placement(
    b: Seq<Option<Tile>>,
    groups: Seq<Seq<char>>,
    gi: int,
) -> Result<Seq<Option<Tile>>, FenError>
    decreases groups.len() - gi,
{
    if gi < 0 || gi >= groups.len() {
        Ok(b)
    } else if gi > 7 {
        Err(FenError::BoardTooBig)
    } else {
        match parse_group(b, groups[gi], 7 - gi, 0, 0) {
            Err(e) => Err(e),
            Ok(b2) => parse_placement(b2, groups, gi + 1),
        }
    }
}

/// The castling field, consumed left to right: each letter of `KQkq` sets
/// its flag.
pub open spec fn parse_castling(cs: Seq<bool>, f: Seq<char>, j: int) -> Result<
    Seq<bool>,
    FenError,
>
    decreases f.len() - j,
{
    if j < 0 || j >= f.len() {
        Ok(cs)
    } else {
        match f[j] {
            'K' => parse_castling(cs.update(0, true), f, j + 1),
            'Q' => parse_castling(cs.update(1, true), f, j + 1),
            'k' => parse_castling(cs.update(2, true), f, j + 1),
            'q' => parse_castling(cs.update(3, true), f, j + 1),
            _ => Err(FenError::BadCastlingChar),
        }
    }
}

pub open spec fn is_dec_digit(c: char) -> bool {
    48 <= c as u32 <= 57
}

pub open spec fn digit_val(c: char) -> int {
    c as u32 - 48
}

/// The value of a digit string, most significant first.
pub open spec fn dec_val(ds: Seq<char>) -> int
    decreases ds.len(),
{
    if ds.len() == 0 {
        0
    } else {
        dec_val(ds.drop_last()) * 10 + digit_val(ds.last())
    }
}

pub open spec fn all_dec_digits(ds: Seq<char>) -> bool {
    forall|i: int| 0 <= i < ds.len() ==> is_dec_digit(#[trigger] ds[i])
}

/// A clock field with any single leading plus sign stripped.
pub open spec fn u16_body(f: Seq<char>) -> Seq<char> {
    if f.len() > 0 && f[0] == '+' {
        f.skip(1)
    } else {
        f
    }
}

/// A clock field as the standard library reads an unsigned number: one
/// optional leading plus sign, then at least one digit, the value fitting
/// `u16`.
pub open spec fn parse_u16(f: Seq<char>) -> Option<int> {
    if u16_body(f).len() == 0 {
        None
    } else if !all_dec_digits(u16_body(f)) {
        None
    } else if dec_val(u16_body(f)) > 65535 {
        None
    } else {
        Some(dec_val(u16_body(f)))
    }
}

/// The position every parse starts from: an empty board, White to move,
/// no castling rights, cleared counters.
pub open spec fn init_view() -> GameView {
    GameView {
        board: Seq::new(64, |i: int| None),
        active: Color::White,
        castling: seq![false, false, false, false],
        move_count: 0,
        clock: 0,
        ep: None,
    }
}

/// One whitespace-separated field applied to the position built so far.
/// Fields are recognized by index; a seventh field is an error. Absent
/// trailing fields simply keep their defaults.
pub open spec fn apply_field(v: GameView, f: Seq<char>, fi: int) -> Result<GameView, FenError> {
    if fi == 0 {
        match parse_placement(v.board, split_on(f, '/'), 0) {
            Err(e) => Err(e),
            Ok(b) => Ok(GameView { board: b, ..v }),
        }
    } else if fi == 1 {
        if f == seq!['b'] {
            Ok(GameView { active: Color::Black, ..v })
        } else if f == seq!['w'] {
            Ok(GameView { active: Color::White, ..v })
        } else {
            Err(FenError::BadColorField)
        }
    } else if fi == 2 {
        if f == seq!['-'] {
            Ok(v)
        } else {
            match parse_castling(v.castling, f, 0) {
                Err(e) => Err(e),
                Ok(cs) => Ok(GameView { castling: cs, ..v }),
            }
        }
    } else if fi == 3 {
        if f == seq!['-'] {
            Ok(v)
        } else {
            match parse_algebraic(f) {
                Err(e) => Err(e),
                Ok(c) => Ok(GameView { ep: Some(c), ..v }),
            }
        }
    } else if fi == 4 {
        match parse_u16(f) {
            None => Err(FenError::BadHalfmoveClock),
            Some(n) => Ok(GameView { clock: n, ..v }),
        }
    } else if fi == 5 {
        match parse_u16(f) {
            None => Err(FenError::BadFullmoveCounter),
            Some(n) => Ok(GameView { move_count: n, ..v }),
        }
    } else {
        Err(FenError::TooManyFields)
    }
}

/// The fields from index `fi` on, folded over the position built so far.
pub open spec fn parse_fields(v: GameView, fields: Seq<Seq<char>>, fi: int) -> Result<
    GameView,
    FenError,
>
    decreases fields.len() - fi,
{
    if fi < 0 || fi >= fields.len() {
        Ok(v)
    } else {
        match apply_field(v, fields[fi], fi) {
            Err(e) => Err(e),
            Ok(v2) => parse_fields(v2, fields, fi + 1),
        }
    }
}

/// What a whole record means: its space-separated fields applied in order
/// to the initial position.
pub open spec fn parse_fen(s: Seq<char>) -> Result<GameView, FenError> {
    parse_fields(init_view(), split_on(s, ' '), 0)
}

/// Relies on `String::push`: appends exactly the one given character.
#[verifier::external_body]
pub(crate) fn push_char(s: &mut String, c: char)
    ensures
        final(s)@ == old(s)@.push(c),
{
    s.push(c)
}

/// Splits `s` on a separator character, the split of [`split_on`].
pub(crate) fn split_str(s: &str, sep: char) -> (r: Vec<String>)
    ensures
        r@.map_values(|f: String| f@) == split_on(s@, sep),
{
    let n = s.unicode_len();
    let mut fields: Vec<String> = Vec::new();
    let mut cur = String::new();
    let mut i: usize = 0;
    while i < n
        invariant
            i <= n,
            n == s@.len(),
            fields@.map_values(|f: String| f@).push(cur@) == split_on(s@.take(i as int), sep),
        decreases n - i,
    {
        let ch = s.get_char(i);
        let ghost pre = s@.take(i as int);
        proof {
            assert(s@.take(i + 1).drop_last() =~= pre);
            assert(s@.take(i + 1).last() == s@[i as int]);
            lemma_split_len(pre, sep);
        }
        if ch == sep {
            fields.push(cur);
            cur = String::new();
            proof {
                assert(fields@.map_values(|f: String| f@).push(cur@) =~~= split_on(
                    s@.take(i + 1),
                    sep,
                ));
            }
        } else {
            push_char(&mut cur, ch);
            proof {
                assert(fields@.map_values(|f: String| f@).push(cur@) =~~= split_on(
                    s@.take(i + 1),
                    sep,
                ));
            }
        }
        i = i + 1;
    }
    proof {
        assert(s@.take(n as int) =~= s@);
    }
    fields.push(cur);
    proof {
        assert(fields@.map_values(|f: String| f@) =~~= split_on(s@, sep));
    }
    fields
}

/// The character of one decimal digit.
pub open spec fn digit_char(n: int) -> char {
    if n == 0 {
        '0'
    } else if n == 1 {
        '1'
    } else if n == 2 {
        '2'
    } else if n == 3 {
        '3'
    } else if n == 4 {
        '4'
    } else if n == 5 {
        '5'
    } else if n == 6 {
        '6'
    } else if n == 7 {
        '7'
    } else if n == 8 {
        '8'
    } else {
        '9'
    }
}

/// The run-length writer for one rank, walking files left to right:
/// `x` is the next file to look at and `pending` counts empty squares
/// seen but not yet flushed as a digit.
pub open spec fn emit_row(b: Seq<Option<Tile>>, rank: int, x: int, pending: int) -> Seq<char>
    decreases 8 - x,
{
    if x >= 8 {
        if pending > 0 {
            seq![digit_char(pending)]
        } else {
            Seq::empty()
        }
    } else {
        match b[rank * 8 + x] {
            None => emit_row(b, rank, x + 1, pending + 1),
            Some(t) => (if pending > 0 {
                seq![digit_char(pending)]
            } else {
                Seq::empty()
            }) + seq![char_of_tile(t)] + emit_row(b, rank, x + 1, 0),
        }
    }
}

/// One rank group of the placement field.
pub open spec fn group_str(b: Seq<Option<Tile>>, rank: int) -> Seq<char> {
    emit_row(b, rank, 0, 0)
}

/// The rank groups from rank `r` down to rank 0, slash-separated: the
/// serializer writes rank 8 first, mirroring the parser.
pub open spec fn ranks_str(b: Seq<Option<Tile>>, r: int) -> Seq<char>
    decreases r,
{
    if r <= 0 {
        group_str(b, 0)
    } else {
        group_str(b, r) + seq!['/'] + ranks_str(b, r - 1)
    }
}

pub open spec fn placement_str(b: Seq<Option<Tile>>) -> Seq<char> {
    ranks_str(b, 7)
}

pub open spec fn color_char(c: Color) -> char {
    if c == Color::White {
        'w'
    } else {
        'b'
    }
}

/// The castling field: the letters of the set flags in `KQkq` order, or a
/// dash when none is set.
pub open spec fn castling_str(cs: Seq<bool>) -> Seq<char> {
    if !cs[0] && !cs[1] && !cs[2] && !cs[3] {
        seq!['-']
    } else {
        (if cs[0] {
            seq!['K']
        } else {
            Seq::empty()
        }) + (if cs[1] {
            seq!['Q']
        } else {
            Seq::empty()
        }) + (if cs[2] {
            seq!['k']
        } else {
            Seq::empty()
        }) + (if cs[3] {
            seq!['q']
        } else {
            Seq::empty()
        })
    }
}

/// The algebraic file letter of file index `x`.
pub open spec fn file_char(x: int) -> char {
    if x == 0 {
        'a'
    } else if x == 1 {
        'b'
    } else if x == 2 {
        'c'
    } else if x == 3 {
        'd'
    } else if x == 4 {
        'e'
    } else if x == 5 {
        'f'
    } else if x == 6 {
        'g'
    } else {
        'h'
    }
}

/// The algebraic rank digit of rank index `y`.
pub open spec fn rank_char(y: int) -> char {
    if y == 0 {
        '1'
    } else if y == 1 {
        '2'
    } else if y == 2 {
        '3'
    } else if y == 3 {
        '4'
    } else if y == 4 {
        '5'
    } else if y == 5 {
        '6'
    } else if y == 6 {
        '7'
    } else {
        '8'
    }
}

/// A square in algebraic notation.
pub open spec fn alg_str(c: Coord) -> Seq<char> {
    seq![file_char(c.0 as int), rank_char(c.1 as int)]
}

/// The en-passant field: the target square, or a dash.
pub open spec fn ep_str(ep: Option<Coord>) -> Seq<char> {
    match ep {
        None => seq!['-'],
        Some(c) => alg_str(c),
    }
}

/// A nonnegative number in decimal, without sign or leading zeros.
pub open spec fn dec_str(n: int) -> Seq<char>
    decreases n,
{
    if n < 10 {
        seq![digit_char(n)]
    } else {
        dec_str(n / 10).push(digit_char(n % 10))
    }
}

/// The whole six-field record of a position.
pub open spec fn fen_str(v: GameView) -> Seq<char> {
    placement_str(v.board) + seq![' '] + seq![color_char(v.active)] + seq![' '] + castling_str(
        v.castling,
    ) + seq![' '] + ep_str(v.ep) + seq![' '] + dec_str(v.clock) + seq![' '] + dec_str(v.move_count)
}

/// A text without the separator splits to itself as the one field.
proof fn lemma_split_single(y: Seq<char>, sep: char)
    requires
        forall|i: int| 0 <= i < y.len() ==> y[i] != sep,
    ensures
        split_on(y, sep) == seq![y],
    decreases y.len(),
{
    if y.len() == 0 {
        assert(split_on(y, sep) =~~= seq![y]);
    } else {
        lemma_split_single(y.drop_last(), sep);
        assert(split_on(y, sep) =~~= seq![y]);
    }
}

/// Splitting distributes over concatenation at a separator.
proof fn lemma_split_concat(x: Seq<char>, y: Seq<char>, sep: char)
    ensures
        split_on(x + seq![sep] + y, sep) == split_on(x, sep) + split_on(y, sep),
    decreases y.len(),
{
    lemma_split_len(x, sep);
    lemma_split_len(y, sep);
    if y.len() == 0 {
        assert((x + seq![sep] + y).drop_last() =~= x);
        assert((x + seq![sep] + y).last() == sep);
        assert(split_on(x + seq![sep] + y, sep) =~~= split_on(x, sep) + split_on(y, sep));
    } else {
        lemma_split_concat(x, y.drop_last(), sep);
        lemma_split_len(y.drop_last(), sep);
        assert((x + seq![sep] + y).drop_last() =~= x + seq![sep] + y.drop_last());
        assert((x + seq![sep] + y).last() == y.last());
        if y.last() == sep {
            assert(split_on(x + seq![sep] + y, sep) =~~= split_on(x, sep) + split_on(y, sep));
        } else {
            assert(split_on(x + seq![sep] + y, sep) =~~= split_on(x, sep) + split_on(y, sep));
        }
    }
}

/// Rank-group text never holds a space or a slash.
proof fn lemma_emit_row_chars(b: Seq<Option<Tile>>, rank: int, x: int, pending: int)
    ensures
        forall|i: int|
            0 <= i < emit_row(b, rank, x, pending).len() ==> (#[trigger] emit_row(
                b,
                rank,
                x,
                pending,
            )[i]) != ' ' && emit_row(b, rank, x, pending)[i] != '/',
    decreases 8 - x,
{
    if x < 8 {
        lemma_emit_row_chars(b, rank, x + 1, pending + 1);
        lemma_emit_row_chars(b, rank, x + 1, 0);
        match b[rank * 8 + x] {
            None => {
                assert forall|i: int| 0 <= i < emit_row(b, rank, x, pending).len() implies (
                #[trigger] emit_row(b, rank, x, pending)[i]) != ' ' && emit_row(
                    b,
                    rank,
                    x,
                    pending,
                )[i] != '/' by {
                    assert(emit_row(b, rank, x, pending)[i] == emit_row(b, rank, x + 1, pending + 1)[i]);
                }
            },
            Some(t) => {
                let head = (if pending > 0 {
                    seq![digit_char(pending)]
                } else {
                    Seq::<char>::empty()
                }) + seq![char_of_tile(t)];
                let rest = emit_row(b, rank, x + 1, 0);
                assert forall|i: int| 0 <= i < emit_row(b, rank, x, pending).len() implies (
                #[trigger] emit_row(b, rank, x, pending)[i]) != ' ' && emit_row(
                    b,
                    rank,
                    x,
                    pending,
                )[i] != '/' by {
                    assert(emit_row(b, rank, x, pending) == head + rest);
                    if i < head.len() {
                        assert(emit_row(b, rank, x, pending)[i] == head[i]);
                    } else {
                        assert(emit_row(b, rank, x, pending)[i] == rest[i - head.len()]);
                    }
                }
            },
        }
    }
}

/// Placement text never holds a space.
proof fn lemma_ranks_chars(b: Seq<Option<Tile>>, r: int)
    ensures
        forall|i: int|
            0 <= i < ranks_str(b, r).len() ==> (#[trigger] ranks_str(b, r)[i]) != ' ',
    decreases r,
{
    if r <= 0 {
        lemma_emit_row_chars(b, 0, 0, 0);
        assert forall|i: int| 0 <= i < ranks_str(b, r).len() implies (#[trigger] ranks_str(
            b,
            r,
        )[i]) != ' ' by {
            assert(ranks_str(b, r)[i] == emit_row(b, 0, 0, 0)[i]);
        }
    } else {
        lemma_emit_row_chars(b, r, 0, 0);
        lemma_ranks_chars(b, r - 1);
        let g = group_str(b, r);
        let rest = ranks_str(b, r - 1);
        assert forall|i: int| 0 <= i < ranks_str(b, r).len() implies (#[trigger] ranks_str(
            b,
            r,
        )[i]) != ' ' by {
            assert(ranks_str(b, r) == g + seq!['/'] + rest);
            if i < g.len() {
                assert(ranks_str(b, r)[i] == emit_row(b, r, 0, 0)[i]);
            } else if i < g.len() + 1 {
                assert(ranks_str(b, r)[i] == '/');
            } else {
                assert(ranks_str(b, r)[i] == rest[i - g.len() - 1]);
            }
        }
    }
}

/// Parsing a group from character `j` is parsing the rest of its text.
proof fn lemma_parse_group_shift(b: Seq<Option<Tile>>, g: Seq<char>, rank: int, j: int, x: int)
    requires
        0 <= j <= g.len(),
    ensures
        parse_group(b, g, rank, j, x) == parse_group(b, g.skip(j), rank, 0, x),
    decreases g.len() - j,
{
    if j == g.len() {
        assert(g.skip(j).len() == 0);
    } else {
        assert(g.skip(j)[0] == g[j]);
        assert(g.skip(j).skip(1) =~= g.skip(j + 1));
        match empties_of_char(g[j]) {
            Some(d) => {
                let x2 = if x + d > 8 {
                    8int
                } else {
                    x + d
                };
                lemma_parse_group_shift(b, g, rank, j + 1, x2);
                lemma_parse_group_shift(b, g.skip(j), rank, 1, x2);
            },
            None => {
                if x < 8 {
                    match tile_of_char(g[j]) {
                        None => {},
                        Some(t) => {
                            let b2 = b.update(rank * 8 + x, Some(t));
                            lemma_parse_group_shift(b2, g, rank, j + 1, x + 1);
                            lemma_parse_group_shift(b2, g.skip(j), rank, 1, x + 1);
                        },
                    }
                }
            },
        }
    }
}

/// The board `bacc` with the squares of `rank` from file `from` on
/// overwritten by `bfull`'s occupants.
pub open spec fn row_merge(
    bacc: Seq<Option<Tile>>,
    bfull: Seq<Option<Tile>>,
    rank: int,
    from: int,
) -> Seq<Option<Tile>> {
    Seq::new(64, |idx: int|
        if idx / 8 == rank && idx % 8 >= from {
            bfull[idx]
        } else {
            bacc[idx]
        })
}

/// Parsing the run-length text of one rank writes exactly that rank's
/// occupants onto a board whose rank is still clear.
proof fn lemma_parse_emit_row(
    bfull: Seq<Option<Tile>>,
    bacc: Seq<Option<Tile>>,
    rank: int,
    x: int,
    pending: int,
)
    requires
        0 <= rank < 8,
        0 <= pending <= x <= 8,
        bacc.len() == 64,
        bfull.len() == 64,
        forall|col: int| x - pending <= col < 8 ==> (#[trigger] bacc[rank * 8 + col]) is None,
        forall|col: int| x - pending <= col < x ==> (#[trigger] bfull[rank * 8 + col]) is None,
    ensures
        parse_group(bacc, emit_row(bfull, rank, x, pending), rank, 0, x - pending) == Ok::<
            Seq<Option<Tile>>,
            FenError,
        >(row_merge(bacc, bfull, rank, x - pending)),
    decreases 8 - x,
{
    assert forall|col: int| 0 <= col < 8 implies (#[trigger] (rank * 8 + col)) / 8 == rank && (
    rank * 8 + col) % 8 == col by {
        assert((rank * 8 + col) / 8 == rank && (rank * 8 + col) % 8 == col) by (nonlinear_arith)
            requires
                0 <= rank < 8,
                0 <= col < 8,
        ;
    }
    if x >= 8 {
        if pending > 0 {
            let chars = emit_row(bfull, rank, x, pending);
            assert(chars =~= seq![digit_char(pending)]);
            assert(empties_of_char(digit_char(pending)) == Some(pending));
            assert(chars.len() == 1);
            assert(parse_group(bacc, chars, rank, 0, x - pending) == parse_group(
                bacc,
                chars,
                rank,
                1,
                8,
            ));
            assert forall|idx: int| 0 <= idx < 64 implies (#[trigger] row_merge(
                bacc,
                bfull,
                rank,
                x - pending,
            )[idx]) == bacc[idx] by {
                vstd::arithmetic::div_mod::lemma_fundamental_div_mod(idx, 8);
                if idx / 8 == rank && idx % 8 >= x - pending {
                    assert(idx == rank * 8 + (idx % 8));
                    assert(bacc[rank * 8 + (idx % 8)] is None);
                    assert(bfull[rank * 8 + (idx % 8)] is None);
                }
            }
            assert(row_merge(bacc, bfull, rank, x - pending) =~= bacc);
        } else {
            assert(emit_row(bfull, rank, x, pending) =~= Seq::<char>::empty());
            assert forall|idx: int| 0 <= idx < 64 implies (#[trigger] row_merge(
                bacc,
                bfull,
                rank,
                x - pending,
            )[idx]) == bacc[idx] by {
                vstd::arithmetic::div_mod::lemma_fundamental_div_mod(idx, 8);
                if idx / 8 == rank && idx % 8 >= x - pending {
                    assert(idx == rank * 8 + (idx % 8));
                    assert(bacc[rank * 8 + (idx % 8)] is None);
                }
            }
            assert(row_merge(bacc, bfull, rank, x - pending) =~= bacc);
        }
    } else {
        match bfull[rank * 8 + x] {
            None => {
                lemma_parse_emit_row(bfull, bacc, rank, x + 1, pending + 1);
            },
            Some(t) => {
                let chars = emit_row(bfull, rank, x, pending);
                let rest = emit_row(bfull, rank, x + 1, 0);
                assert(empties_of_char(char_of_tile(t)) is None);
                assert(tile_of_char(char_of_tile(t)) == Some(t));
                let bacc2 = bacc.update(rank * 8 + x, Some(t));
                lemma_parse_emit_row(bfull, bacc2, rank, x + 1, 0);
                if pending > 0 {
                    assert(chars =~= seq![digit_char(pending), char_of_tile(t)] + rest);
                    assert(chars[0] == digit_char(pending));
                    assert(chars[1] == char_of_tile(t));
                    assert(empties_of_char(digit_char(pending)) == Some(pending));
                    assert(parse_group(bacc, chars, rank, 0, x - pending) == parse_group(
                        bacc,
                        chars,
                        rank,
                        1,
                        x as int,
                    ));
                    assert(parse_group(bacc, chars, rank, 1, x as int) == parse_group(
                        bacc2,
                        chars,
                        rank,
                        2,
                        x + 1,
                    ));
                    lemma_parse_group_shift(bacc2, chars, rank, 2, x + 1);
                    assert(chars.skip(2) =~= rest);
                    assert forall|idx: int| 0 <= idx < 64 implies (#[trigger] row_merge(
                        bacc,
                        bfull,
                        rank,
                        x - pending,
                    )[idx]) == row_merge(bacc2, bfull, rank, x + 1)[idx] by {
                        vstd::arithmetic::div_mod::lemma_fundamental_div_mod(idx, 8);
                        if idx / 8 == rank {
                            assert(idx == rank * 8 + (idx % 8));
                            if x - pending <= idx % 8 < x {
                                assert(bacc[rank * 8 + (idx % 8)] is None);
                                assert(bfull[rank * 8 + (idx % 8)] is None);
                            }
                        }
                    }
                    assert(row_merge(bacc, bfull, rank, x - pending) =~= row_merge(
                        bacc2,
                        bfull,
                        rank,
                        x + 1,
                    ));
                } else {
                    assert(chars =~= seq![char_of_tile(t)] + rest);
                    assert(chars[0] == char_of_tile(t));
                    assert(parse_group(bacc, chars, rank, 0, x - pending) == parse_group(
                        bacc2,
                        chars,
                        rank,
                        1,
                        x + 1,
                    ));
                    lemma_parse_group_shift(bacc2, chars, rank, 1, x + 1);
                    assert(chars.skip(1) =~= rest);
                    assert forall|idx: int| 0 <= idx < 64 implies (#[trigger] row_merge(
                        bacc,
                        bfull,
                        rank,
                        x - pending,
                    )[idx]) == row_merge(bacc2, bfull, rank, x + 1)[idx] by {
                        vstd::arithmetic::div_mod::lemma_fundamental_div_mod(idx, 8);
                        if idx / 8 == rank {
                            assert(idx == rank * 8 + (idx % 8));
                        }
                    }
                    assert(row_merge(bacc, bfull, rank, x - pending) =~= row_merge(
                        bacc2,
                        bfull,
                        rank,
                        x + 1,
                    ));
                }
            },
        }
    }
}

/// The board with only the top `k` rank groups' content filled in, as it
/// stands after `k` groups have been parsed.
pub open spec fn rows_filled(bfull: Seq<Option<Tile>>, k: int) -> Seq<Option<Tile>> {
    Seq::new(64, |idx: int|
        if idx / 8 >= 8 - k {
            bfull[idx]
        } else {
            None
        })
}

/// The rank groups the serializer writes, top rank first.
pub open spec fn groups_of(bfull: Seq<Option<Tile>>) -> Seq<Seq<char>> {
    Seq::new(8, |i: int| group_str(bfull, 7 - i))
}

/// Parsing the serializer's rank groups from group `gi` on rebuilds the
/// remaining ranks exactly.
proof fn lemma_placement_rounds(bfull: Seq<Option<Tile>>, gi: int)
    requires
        0 <= gi <= 8,
        bfull.len() == 64,
    ensures
        parse_placement(rows_filled(bfull, gi), groups_of(bfull), gi) == Ok::<
            Seq<Option<Tile>>,
            FenError,
        >(rows_filled(bfull, 8)),
    decreases 8 - gi,
{
    if gi < 8 {
        let rank = 7 - gi;
        let bacc = rows_filled(bfull, gi);
        assert forall|col: int| 0 <= col < 8 implies (#[trigger] bacc[rank * 8 + col]) is None by {
            assert((rank * 8 + col) / 8 == rank) by (nonlinear_arith)
                requires
                    0 <= rank < 8,
                    0 <= col < 8,
            ;
        }
        lemma_parse_emit_row(bfull, bacc, rank, 0, 0);
        assert forall|idx: int| 0 <= idx < 64 implies (#[trigger] row_merge(
            bacc,
            bfull,
            rank,
            0,
        )[idx]) == rows_filled(bfull, gi + 1)[idx] by {
            vstd::arithmetic::div_mod::lemma_fundamental_div_mod(idx, 8);
        }
        assert(row_merge(bacc, bfull, rank, 0) =~= rows_filled(bfull, gi + 1));
        lemma_placement_rounds(bfull, gi + 1);
        assert(groups_of(bfull)[gi] == group_str(bfull, rank));
        assert(parse_placement(bacc, groups_of(bfull), gi) == parse_placement(
            rows_filled(bfull, gi + 1),
            groups_of(bfull),
            gi + 1,
        ));
    }
}

/// Splitting the rank groups back out of the placement text.
proof fn lemma_ranks_split(b: Seq<Option<Tile>>, r: int)
    requires
        0 <= r <= 7,
    ensures
        split_on(ranks_str(b, r), '/') == Seq::new((r + 1) as nat, |i: int| group_str(b, r - i)),
    decreases r,
{
    lemma_emit_row_chars(b, r, 0, 0);
    assert forall|i: int| 0 <= i < group_str(b, r).len() implies (#[trigger] group_str(b, r)[i])
        != '/' by {
        assert(group_str(b, r)[i] == emit_row(b, r, 0, 0)[i]);
    }
    lemma_split_single(group_str(b, r), '/');
    if r == 0 {
        assert(split_on(ranks_str(b, 0), '/') =~~= Seq::new(1nat, |i: int| group_str(b, 0 - i)));
    } else {
        lemma_ranks_split(b, r - 1);
        lemma_split_concat(group_str(b, r), ranks_str(b, r - 1), '/');
        assert(ranks_str(b, r) == group_str(b, r) + seq!['/'] + ranks_str(b, r - 1));
        assert(split_on(ranks_str(b, r), '/') =~~= Seq::new((r + 1) as nat, |i: int| group_str(b, r - i)));
    }
}

/// Reading back the letters of the set castling flags restores the flags.
proof fn lemma_castling_round(cs: Seq<bool>)
    requires
        cs.len() == 4,
        cs[0] || cs[1] || cs[2] || cs[3],
    ensures
        parse_castling(seq![false, false, false, false], castling_str(cs), 0) == Ok::<
            Seq<bool>,
            FenError,
        >(cs),
{
        let z: Seq<bool> = seq![false, false, false, false];
        if cs[0] && cs[1] && cs[2] && cs[3] {
            assert(castling_str(cs) =~= seq!['K', 'Q', 'k', 'q']);
            assert(parse_castling(z, seq!['K', 'Q', 'k', 'q'], 0) == parse_castling(z.update(0, true), seq!['K', 'Q', 'k', 'q'], 1));
            assert(parse_castling(z.update(0, true), seq!['K', 'Q', 'k', 'q'], 1) == parse_castling(z.update(0, true).update(1, true), seq!['K', 'Q', 'k', 'q'], 2));
            assert(parse_castling(z.update(0, true).update(1, true), seq!['K', 'Q', 'k', 'q'], 2) == parse_castling(z.update(0, true).update(1, true).update(2, true), seq!['K', 'Q', 'k', 'q'], 3));
            assert(parse_castling(z.update(0, true).update(1, true).update(2, true), seq!['K', 'Q', 'k', 'q'], 3) == parse_castling(z.update(0, true).update(1, true).update(2, true).update(3, true), seq!['K', 'Q', 'k', 'q'], 4));
            assert(parse_castling(z.update(0, true).update(1, true).update(2, true).update(3, true), seq!['K', 'Q', 'k', 'q'], 4) == Ok::<Seq<bool>, FenError>(z.update(0, true).update(1, true).update(2, true).update(3, true)));
            assert(z.update(0, true).update(1, true).update(2, true).update(3, true) =~= cs);
        }
        if cs[0] && cs[1] && cs[2] && !cs[3] {
            assert(castling_str(cs) =~= seq!['K', 'Q', 'k']);
            assert(parse_castling(z, seq!['K', 'Q', 'k'], 0) == parse_castling(z.update(0, true), seq!['K', 'Q', 'k'], 1));
            assert(parse_castling(z.update(0, true), seq!['K', 'Q', 'k'], 1) == parse_castling(z.update(0, true).update(1, true), seq!['K', 'Q', 'k'], 2));
            assert(parse_castling(z.update(0, true).update(1, true), seq!['K', 'Q', 'k'], 2) == parse_castling(z.update(0, true).update(1, true).update(2, true), seq!['K', 'Q', 'k'], 3));
            assert(parse_castling(z.update(0, true).update(1, true).update(2, true), seq!['K', 'Q', 'k'], 3) == Ok::<Seq<bool>, FenError>(z.update(0, true).update(1, true).update(2, true)));
            assert(z.update(0, true).update(1, true).update(2, true) =~= cs);
        }
        if cs[0] && cs[1] && !cs[2] && cs[3] {
            assert(castling_str(cs) =~= seq!['K', 'Q', 'q']);
            assert(parse_castling(z, seq!['K', 'Q', 'q'], 0) == parse_castling(z.update(0, true), seq!['K', 'Q', 'q'], 1));
            assert(parse_castling(z.update(0, true), seq!['K', 'Q', 'q'], 1) == parse_castling(z.update(0, true).update(1, true), seq!['K', 'Q', 'q'], 2));
            assert(parse_castling(z.update(0, true).update(1, true), seq!['K', 'Q', 'q'], 2) == parse_castling(z.update(0, true).update(1, true).update(3, true), seq!['K', 'Q', 'q'], 3));
            assert(parse_castling(z.update(0, true).update(1, true).update(3, true), seq!['K', 'Q', 'q'], 3) == Ok::<Seq<bool>, FenError>(z.update(0, true).update(1, true).update(3, true)));
            assert(z.update(0, true).update(1, true).update(3, true) =~= cs);
        }
        if cs[0] && cs[1] && !cs[2] && !cs[3] {
            assert(castling_str(cs) =~= seq!['K', 'Q']);
            assert(parse_castling(z, seq!['K', 'Q'], 0) == parse_castling(z.update(0, true), seq!['K', 'Q'], 1));
            assert(parse_castling(z.update(0, true), seq!['K', 'Q'], 1) == parse_castling(z.update(0, true).update(1, true), seq!['K', 'Q'], 2));
            assert(parse_castling(z.update(0, true).update(1, true), seq!['K', 'Q'], 2) == Ok::<Seq<bool>, FenError>(z.update(0, true).update(1, true)));
            assert(z.update(0, true).update(1, true) =~= cs);
        }
        if cs[0] && !cs[1] && cs[2] && cs[3] {
            assert(castling_str(cs) =~= seq!['K', 'k', 'q']);
            assert(parse_castling(z, seq!['K', 'k', 'q'], 0) == parse_castling(z.update(0, true), seq!['K', 'k', 'q'], 1));
            assert(parse_castling(z.update(0, true), seq!['K', 'k', 'q'], 1) == parse_castling(z.update(0, true).update(2, true), seq!['K', 'k', 'q'], 2));
            assert(parse_castling(z.update(0, true).update(2, true), seq!['K', 'k', 'q'], 2) == parse_castling(z.update(0, true).update(2, true).update(3, true), seq!['K', 'k', 'q'], 3));
            assert(parse_castling(z.update(0, true).update(2, true).update(3, true), seq!['K', 'k', 'q'], 3) == Ok::<Seq<bool>, FenError>(z.update(0, true).update(2, true).update(3, true)));
            assert(z.update(0, true).update(2, true).update(3, true) =~= cs);
        }
        if cs[0] && !cs[1] && cs[2] && !cs[3] {
            assert(castling_str(cs) =~= seq!['K', 'k']);
            assert(parse_castling(z, seq!['K', 'k'], 0) == parse_castling(z.update(0, true), seq!['K', 'k'], 1));
            assert(parse_castling(z.update(0, true), seq!['K', 'k'], 1) == parse_castling(z.update(0, true).update(2, true), seq!['K', 'k'], 2));
            assert(parse_castling(z.update(0, true).update(2, true), seq!['K', 'k'], 2) == Ok::<Seq<bool>, FenError>(z.update(0, true).update(2, true)));
            assert(z.update(0, true).update(2, true) =~= cs);
        }
        if cs[0] && !cs[1] && !cs[2] && cs[3] {
            assert(castling_str(cs) =~= seq!['K', 'q']);
            assert(parse_castling(z, seq!['K', 'q'], 0) == parse_castling(z.update(0, true), seq!['K', 'q'], 1));
            assert(parse_castling(z.update(0, true), seq!['K', 'q'], 1) == parse_castling(z.update(0, true).update(3, true), seq!['K', 'q'], 2));
            assert(parse_castling(z.update(0, true).update(3, true), seq!['K', 'q'], 2) == Ok::<Seq<bool>, FenError>(z.update(0, true).update(3, true)));
            assert(z.update(0, true).update(3, true) =~= cs);
        }
        if cs[0] && !cs[1] && !cs[2] && !cs[3] {
            assert(castling_str(cs) =~= seq!['K']);
            assert(parse_castling(z, seq!['K'], 0) == parse_castling(z.update(0, true), seq!['K'], 1));
            assert(parse_castling(z.update(0, true), seq!['K'], 1) == Ok::<Seq<bool>, FenError>(z.update(0, true)));
            assert(z.update(0, true) =~= cs);
        }
        if !cs[0] && cs[1] && cs[2] && cs[3] {
            assert(castling_str(cs) =~= seq!['Q', 'k', 'q']);
            assert(parse_castling(z, seq!['Q', 'k', 'q'], 0) == parse_castling(z.update(1, true), seq!['Q', 'k', 'q'], 1));
            assert(parse_castling(z.update(1, true), seq!['Q', 'k', 'q'], 1) == parse_castling(z.update(1, true).update(2, true), seq!['Q', 'k', 'q'], 2));
            assert(parse_castling(z.update(1, true).update(2, true), seq!['Q', 'k', 'q'], 2) == parse_castling(z.update(1, true).update(2, true).update(3, true), seq!['Q', 'k', 'q'], 3));
            assert(parse_castling(z.update(1, true).update(2, true).update(3, true), seq!['Q', 'k', 'q'], 3) == Ok::<Seq<bool>, FenError>(z.update(1, true).update(2, true).update(3, true)));
            assert(z.update(1, true).update(2, true).update(3, true) =~= cs);
        }
        if !cs[0] && cs[1] && cs[2] && !cs[3] {
            assert(castling_str(cs) =~= seq!['Q', 'k']);
            assert(parse_castling(z, seq!['Q', 'k'], 0) == parse_castling(z.update(1, true), seq!['Q', 'k'], 1));
            assert(parse_castling(z.update(1, true), seq!['Q', 'k'], 1) == parse_castling(z.update(1, true).update(2, true), seq!['Q', 'k'], 2));
            assert(parse_castling(z.update(1, true).update(2, true), seq!['Q', 'k'], 2) == Ok::<Seq<bool>, FenError>(z.update(1, true).update(2, true)));
            assert(z.update(1, true).update(2, true) =~= cs);
        }
        if !cs[0] && cs[1] && !cs[2] && cs[3] {
            assert(castling_str(cs) =~= seq!['Q', 'q']);
            assert(parse_castling(z, seq!['Q', 'q'], 0) == parse_castling(z.update(1, true), seq!['Q', 'q'], 1));
            assert(parse_castling(z.update(1, true), seq!['Q', 'q'], 1) == parse_castling(z.update(1, true).update(3, true), seq!['Q', 'q'], 2));
            assert(parse_castling(z.update(1, true).update(3, true), seq!['Q', 'q'], 2) == Ok::<Seq<bool>, FenError>(z.update(1, true).update(3, true)));
            assert(z.update(1, true).update(3, true) =~= cs);
        }
        if !cs[0] && cs[1] && !cs[2] && !cs[3] {
            assert(castling_str(cs) =~= seq!['Q']);
            assert(parse_castling(z, seq!['Q'], 0) == parse_castling(z.update(1, true), seq!['Q'], 1));
            assert(parse_castling(z.update(1, true), seq!['Q'], 1) == Ok::<Seq<bool>, FenError>(z.update(1, true)));
            assert(z.update(1, true) =~= cs);
        }
        if !cs[0] && !cs[1] && cs[2] && cs[3] {
            assert(castling_str(cs) =~= seq!['k', 'q']);
            assert(parse_castling(z, seq!['k', 'q'], 0) == parse_castling(z.update(2, true), seq!['k', 'q'], 1));
            assert(parse_castling(z.update(2, true), seq!['k', 'q'], 1) == parse_castling(z.update(2, true).update(3, true), seq!['k', 'q'], 2));
            assert(parse_castling(z.update(2, true).update(3, true), seq!['k', 'q'], 2) == Ok::<Seq<bool>, FenError>(z.update(2, true).update(3, true)));
            assert(z.update(2, true).update(3, true) =~= cs);
        }
        if !cs[0] && !cs[1] && cs[2] && !cs[3] {
            assert(castling_str(cs) =~= seq!['k']);
            assert(parse_castling(z, seq!['k'], 0) == parse_castling(z.update(2, true), seq!['k'], 1));
            assert(parse_castling(z.update(2, true), seq!['k'], 1) == Ok::<Seq<bool>, FenError>(z.update(2, true)));
            assert(z.update(2, true) =~= cs);
        }
        if !cs[0] && !cs[1] && !cs[2] && cs[3] {
            assert(castling_str(cs) =~= seq!['q']);
            assert(parse_castling(z, seq!['q'], 0) == parse_castling(z.update(3, true), seq!['q'], 1));
            assert(parse_castling(z.update(3, true), seq!['q'], 1) == Ok::<Seq<bool>, FenError>(z.update(3, true)));
            assert(z.update(3, true) =~= cs);
        }
}

/// Reading back an algebraic square restores the coordinate.
proof fn lemma_alg_round(c: Coord)
    requires
        c.valid(),
    ensures
        parse_algebraic(alg_str(c)) == Ok::<Coord, FenError>(c),
{
    assert(file_of_char(file_char(c.0 as int)) == Some(c.0 as int));
    assert(rank_of_char(rank_char(c.1 as int)) == Some(c.1 as int));
}

/// The decimal writer produces digits only, and reading them back gives
/// the number.
proof fn lemma_dec_str(n: int)
    requires
        0 <= n,
    ensures
        all_dec_digits(dec_str(n)),
        dec_val(dec_str(n)) == n,
        dec_str(n).len() >= 1,
        dec_str(n)[0] != '+',
    decreases n,
{
    if n < 10 {
        assert(dec_str(n) =~= seq![digit_char(n)]);
        assert(seq![digit_char(n)].drop_last() =~= Seq::<char>::empty());
        assert(dec_val(Seq::<char>::empty()) == 0);
        assert(dec_val(seq![digit_char(n)]) == digit_val(digit_char(n)));
        assert(digit_val(digit_char(n)) == n);
        assert(is_dec_digit(digit_char(n)));
    } else {
        lemma_dec_str(n / 10);
        assert(dec_str(n).drop_last() =~= dec_str(n / 10));
        assert(dec_str(n).last() == digit_char(n % 10));
        assert(0 <= n % 10 < 10);
        assert(digit_val(digit_char(n % 10)) == n % 10);
        vstd::arithmetic::div_mod::lemma_fundamental_div_mod(n, 10);
        assert forall|i: int| 0 <= i < dec_str(n).len() implies is_dec_digit(
            #[trigger] dec_str(n)[i],
        ) by {
            if i < dec_str(n).len() - 1 {
                assert(dec_str(n)[i] == dec_str(n / 10)[i]);
            } else {
                assert(dec_str(n)[i] == digit_char(n % 10));
            }
        }
        assert(dec_str(n)[0] == dec_str(n / 10)[0]);
    }
}

/// A position that the serializer may write: the model of any position
/// this crate's constructors build.
pub open spec fn fen_wf(v: GameView) -> bool {
    &&& v.board.len() == 64
    &&& v.castling.len() == 4
    &&& 0 <= v.clock <= 65535
    &&& 0 <= v.move_count <= 65535
    &&& v.ep_ok()
}

/// Castling text never holds a space.
proof fn lemma_castling_chars(cs: Seq<bool>)
    ensures
        forall|i: int|
            0 <= i < castling_str(cs).len() ==> (#[trigger] castling_str(cs)[i]) != ' ',
{
    let f2 = castling_str(cs);
    assert forall|i: int| 0 <= i < f2.len() implies (#[trigger] f2[i]) != ' ' by {
        if !(cs[0] || cs[1] || cs[2] || cs[3]) {
        } else {
            let a = (if cs[0] {
                seq!['K']
            } else {
                Seq::<char>::empty()
            });
            let bq = (if cs[1] {
                seq!['Q']
            } else {
                Seq::<char>::empty()
            });
            let ck = (if cs[2] {
                seq!['k']
            } else {
                Seq::<char>::empty()
            });
            let dq = (if cs[3] {
                seq!['q']
            } else {
                Seq::<char>::empty()
            });
            assert(f2 == a + bq + ck + dq);
            if i < a.len() {
                assert(f2[i] == 'K');
            } else if i < a.len() + bq.len() {
                assert(f2[i] == 'Q');
            } else if i < a.len() + bq.len() + ck.len() {
                assert(f2[i] == 'k');
            } else {
                assert(f2[i] == 'q');
            }
        }
    }
}

/// En-passant text never holds a space.
proof fn lemma_ep_chars(ep: Option<Coord>)
    ensures
        forall|i: int| 0 <= i < ep_str(ep).len() ==> (#[trigger] ep_str(ep)[i]) != ' ',
{
    let f3 = ep_str(ep);
    assert forall|i: int| 0 <= i < f3.len() implies (#[trigger] f3[i]) != ' ' by {
        match ep {
            None => {},
            Some(c) => {
                assert(f3 == seq![file_char(c.0 as int), rank_char(c.1 as int)]);
            },
        }
    }
}

/// Decimal text never holds a space.
proof fn lemma_dec_chars(n: int)
    requires
        0 <= n,
    ensures
        forall|i: int| 0 <= i < dec_str(n).len() ==> (#[trigger] dec_str(n)[i]) != ' ',
{
    lemma_dec_str(n);
    assert forall|i: int| 0 <= i < dec_str(n).len() implies (#[trigger] dec_str(n)[i]) != ' ' by {
        assert(is_dec_digit(dec_str(n)[i]));
    }
}

/// A written record splits into exactly its six fields.
#[verifier::rlimit(60)]
proof fn lemma_fen_fields(w: GameView)
    requires
        fen_wf(w),
    ensures
        split_on(fen_str(w), ' ') == seq![
            placement_str(w.board),
            seq![color_char(w.active)],
            castling_str(w.castling),
            ep_str(w.ep),
            dec_str(w.clock),
            dec_str(w.move_count),
        ],
{
    let f0 = placement_str(w.board);
    let f1 = seq![color_char(w.active)];
    let f2 = castling_str(w.castling);
    let f3 = ep_str(w.ep);
    let f4 = dec_str(w.clock);
    let f5 = dec_str(w.move_count);
    lemma_ranks_chars(w.board, 7);
    lemma_castling_chars(w.castling);
    lemma_ep_chars(w.ep);
    lemma_dec_chars(w.clock);
    lemma_dec_chars(w.move_count);
    assert(forall|i: int| 0 <= i < f0.len() ==> (#[trigger] f0[i]) != ' ');
    assert(forall|i: int| 0 <= i < f1.len() ==> (#[trigger] f1[i]) != ' ');
    lemma_split_single(f5, ' ');
    lemma_split_concat(f4, f5, ' ');
    lemma_split_single(f4, ' ');
    let s45 = f4 + seq![' '] + f5;
    assert(split_on(s45, ' ') =~~= seq![f4, f5]);
    let s35 = f3 + seq![' '] + s45;
    lemma_split_concat(f3, s45, ' ');
    lemma_split_single(f3, ' ');
    assert(split_on(s35, ' ') =~~= seq![f3, f4, f5]);
    let s25 = f2 + seq![' '] + s35;
    lemma_split_concat(f2, s35, ' ');
    lemma_split_single(f2, ' ');
    assert(split_on(s25, ' ') =~~= seq![f2, f3, f4, f5]);
    let s15 = f1 + seq![' '] + s25;
    lemma_split_concat(f1, s25, ' ');
    lemma_split_single(f1, ' ');
    assert(split_on(s15, ' ') =~~= seq![f1, f2, f3, f4, f5]);
    lemma_split_concat(f0, s15, ' ');
    lemma_split_single(f0, ' ');
    assert(fen_str(w) =~= f0 + seq![' '] + s15);
    assert(split_on(fen_str(w), ' ') =~~= seq![f0, f1, f2, f3, f4, f5]);
}

/// Parsing what the serializer wrote returns exactly the serialized
/// position: the round-trip law of the position codec, model side.
pub proof fn lemma_parse_of_fen_str(w: GameView)
    requires
        fen_wf(w),
    ensures
        parse_fen(fen_str(w)) == Ok::<GameView, FenError>(w),
{
    lemma_fen_fields(w);
    let f0 = placement_str(w.board);
    let f1 = seq![color_char(w.active)];
    let f2 = castling_str(w.castling);
    let f3 = ep_str(w.ep);
    let f4 = dec_str(w.clock);
    let f5 = dec_str(w.move_count);
    let fields = seq![f0, f1, f2, f3, f4, f5];
    let v0 = init_view();

    // field 0: the placement rebuilds the board
    lemma_ranks_split(w.board, 7);
    assert(split_on(f0, '/') =~~= groups_of(w.board));
    assert(v0.board =~= rows_filled(w.board, 0));
    lemma_placement_rounds(w.board, 0);
    assert(rows_filled(w.board, 8) =~= w.board);
    let v1 = GameView { board: w.board, ..v0 };
    assert(apply_field(v0, fields[0], 0) == Ok::<GameView, FenError>(v1));

    // field 1: the active color
    let v2 = GameView { active: w.active, ..v1 };
    assert(apply_field(v1, fields[1], 1) == Ok::<GameView, FenError>(v2));

    // field 2: the castling flags
    let v3 = GameView { castling: w.castling, ..v2 };
    if !(w.castling[0] || w.castling[1] || w.castling[2] || w.castling[3]) {
        assert(f2 == seq!['-']);
        assert(v2.castling =~= w.castling);
        assert(apply_field(v2, fields[2], 2) == Ok::<GameView, FenError>(v3));
    } else {
        assert(f2[0] == 'K' || f2[0] == 'Q' || f2[0] == 'k' || f2[0] == 'q');
        assert(f2 != seq!['-']);
        lemma_castling_round(w.castling);
        assert(v2.castling =~= seq![false, false, false, false]);
        assert(apply_field(v2, fields[2], 2) == Ok::<GameView, FenError>(v3));
    }

    // field 3: the en-passant target
    let v4 = GameView { ep: w.ep, ..v3 };
    match w.ep {
        None => {
            assert(f3 == seq!['-']);
            assert(apply_field(v3, fields[3], 3) == Ok::<GameView, FenError>(v4));
        },
        Some(c) => {
            assert(f3.len() == 2);
            assert(f3 != seq!['-']);
            lemma_alg_round(c);
            assert(apply_field(v3, fields[3], 3) == Ok::<GameView, FenError>(v4));
        },
    }

    // fields 4 and 5: the clocks
    lemma_dec_str(w.clock);
    lemma_dec_str(w.move_count);
    assert(u16_body(f4) == f4);
    assert(parse_u16(f4) == Some(w.clock));
    let v5 = GameView { clock: w.clock, ..v4 };
    assert(apply_field(v4, fields[4], 4) == Ok::<GameView, FenError>(v5));
    assert(u16_body(f5) == f5);
    assert(parse_u16(f5) == Some(w.move_count));
    let v6 = GameView { move_count: w.move_count, ..v5 };
    assert(apply_field(v5, fields[5], 5) == Ok::<GameView, FenError>(v6));

    assert(v6 =~= w);
    assert(parse_fields(v0, fields, 0) == parse_fields(v1, fields, 1));
    assert(parse_fields(v1, fields, 1) == parse_fields(v2, fields, 2));
    assert(parse_fields(v2, fields, 2) == parse_fields(v3, fields, 3));
    assert(parse_fields(v3, fields, 3) == parse_fields(v4, fields, 4));
    assert(parse_fields(v4, fields, 4) == parse_fields(v5, fields, 5));
    assert(parse_fields(v5, fields, 5) == parse_fields(v6, fields, 6));
    assert(parse_fields(v6, fields, 6) == Ok::<GameView, FenError>(v6));
    assert(parse_fields(v0, fields, 0) == Ok::<GameView, FenError>(w));
}

/// Every position value is a serializable model, provided its en-passant
/// target lies on the board.
pub proof fn lemma_game_fen_wf(g: Game)
    requires
        g@.ep_ok(),
    ensures
        fen_wf(g@),
{
}

/// Round-trip: any record some position prints — equivalently, any
/// canonical six-field record — parses successfully, and printing the
/// parsed position returns the record unchanged.
pub proof fn lemma_fen_round_trip(s: Seq<char>)
    requires
        exists|w: GameView| fen_wf(w) && #[trigger] fen_str(w) == s,
    ensures
        parse_fen(s) matches Ok(w2) && fen_str(w2) == s,
{
    let w = choose|w: GameView| fen_wf(w) && #[trigger] fen_str(w) == s;
    lemma_parse_of_fen_str(w);
}

/// A digit string has a nonnegative value.
proof fn lemma_dec_val_nonneg(ds: Seq<char>)
    requires
        forall|i: int| 0 <= i < ds.len() ==> is_dec_digit(#[trigger] ds[i]),
    ensures
        dec_val(ds) >= 0,
    decreases ds.len(),
{
    if ds.len() > 0 {
        lemma_dec_val_nonneg(ds.drop_last());
    }
}

/// Dropping trailing digits can only shrink the value.
proof fn lemma_dec_val_prefix(ds: Seq<char>, k: int)
    requires
        0 <= k <= ds.len(),
        forall|i: int| 0 <= i < ds.len() ==> is_dec_digit(#[trigger] ds[i]),
    ensures
        dec_val(ds.take(k)) <= dec_val(ds),
    decreases ds.len() - k,
{
    if k < ds.len() {
        assert(ds.take(k + 1).drop_last() =~= ds.take(k));
        assert(ds.take(k + 1).last() == ds[k]);
        lemma_dec_val_nonneg(ds.take(k));
        lemma_dec_val_prefix(ds, k + 1);
    } else {
        assert(ds.take(k) =~= ds);
    }
}

/// Reads a clock field as `u16` text: an optional leading plus, then
/// digits, the value fitting the type.
fn parse_clock(field: &str) -> (r: Option<u16>)
    ensures
        r matches Some(n) ==> parse_u16(field@) == Some(n as int),
        r is None ==> parse_u16(field@) is None,
{
    let n = field.unicode_len();
    let has_plus = if n > 0 {
        field.get_char(0) == '+'
    } else {
        false
    };
    let start: usize = if has_plus {
        1
    } else {
        0
    };
    let ghost body = u16_body(field@);
    proof {
        assert(body.len() == n - start);
        assert(forall|k: int| 0 <= k < body.len() ==> #[trigger] body[k] == field@[k + start]);
    }
    if start >= n {
        return None;
    }
    let mut acc: u32 = 0;
    let mut i: usize = start;
    while i < n
        invariant
            start <= i <= n,
            n == field@.len(),
            start <= 1,
            body == u16_body(field@),
            body.len() == n - start,
            forall|k: int| 0 <= k < body.len() ==> #[trigger] body[k] == field@[k + start],
            forall|k: int| 0 <= k < i - start ==> is_dec_digit(#[trigger] body[k]),
            acc <= 65535,
            acc as int == dec_val(body.take(i - start)),
        decreases n - i,
    {
        let ch = field.get_char(i);
        let d: u32 = match ch {
            '0' => 0,
            '1' => 1,
            '2' => 2,
            '3' => 3,
            '4' => 4,
            '5' => 5,
            '6' => 6,
            '7' => 7,
            '8' => 8,
            '9' => 9,
            _ => {
                proof {
                    assert(!is_dec_digit(u16_body(field@)[i - start]));
                    assert(!all_dec_digits(u16_body(field@)));
                }
                return None;
            },
        };
        proof {
            assert(is_dec_digit(ch) && digit_val(ch) == d);
            assert(body.take(i - start + 1).drop_last() =~= body.take(i - start));
            assert(body.take(i - start + 1).last() == body[i - start]);
        }
        let acc2: u32 = acc * 10 + d;
        if acc2 > 65535 {
            proof {
                if all_dec_digits(u16_body(field@)) {
                    lemma_dec_val_prefix(u16_body(field@), i - start + 1);
                    assert(dec_val(u16_body(field@)) > 65535);
                }
                assert(parse_u16(field@) is None);
            }
            return None;
        }
        acc = acc2;
        i = i + 1;
    }
    proof {
        assert(body.take(n - start) =~= body);
        assert(all_dec_digits(u16_body(field@)));
        assert(parse_u16(field@) == Some(acc as int));
    }
    Some(acc as u16)
}

impl Tile {
    /// Reads one placement letter.
    pub fn from_fen_char(s: char) -> (r: Result<Self, FenError>)
        ensures
            match r {
                Ok(t) => tile_of_char(s) == Some(t),
                Err(e) => tile_of_char(s) is None && e == FenError::BadPieceChar,
            },
    {
        match s {
            'K' => Ok(Tile(Color::White, Piece::King)),
            'k' => Ok(Tile(Color::Black, Piece::King)),
            'Q' => Ok(Tile(Color::White, Piece::Queen)),
            'q' => Ok(Tile(Color::Black, Piece::Queen)),
            'B' => Ok(Tile(Color::White, Piece::Bishop)),
            'b' => Ok(Tile(Color::Black, Piece::Bishop)),
            'N' => Ok(Tile(Color::White, Piece::Knight)),
            'n' => Ok(Tile(Color::Black, Piece::Knight)),
            'R' => Ok(Tile(Color::White, Piece::Rook)),
            'r' => Ok(Tile(Color::Black, Piece::Rook)),
            'P' => Ok(Tile(Color::White, Piece::Pawn)),
            'p' => Ok(Tile(Color::Black, Piece::Pawn)),
            _ => Err(FenError::BadPieceChar),
        }
    }

    /// Writes the placement letter of this occupant.
    pub fn as_fen_char(&self) -> (r: char)
        ensures
            r == char_of_tile(*self),
    {
        match self.1 {
            Piece::King => if self.0 == Color::White {
                'K'
            } else {
                'k'
            },
            Piece::Queen => if self.0 == Color::White {
                'Q'
            } else {
                'q'
            },
            Piece::Knight => if self.0 == Color::White {
                'N'
            } else {
                'n'
            },
            Piece::Bishop => if self.0 == Color::White {
                'B'
            } else {
                'b'
            },
            Piece::Rook => if self.0 == Color::White {
                'R'
            } else {
                'r'
            },
            Piece::Pawn => if self.0 == Color::White {
                'P'
            } else {
                'p'
            },
        }
    }
}

impl Game {
    /// Parses a six-field position record. On any malformed field the
    /// error is returned and no position is produced; absent trailing
    /// fields keep their defaults.
    #[verifier::rlimit(60)]
    pub fn from_fen(fen: &str) -> (r: Result<Self, FenError>)
        ensures
            parse_fen(fen@) matches Ok(w) ==> (r matches Ok(g) && g@ == w),
            parse_fen(fen@) matches Err(e) ==> r == Err::<Game, FenError>(e),
            r matches Ok(g) ==> g@.ep_ok(),
    {
        let fields = split_str(fen, ' ');
        let ghost fseqs = fields@.map_values(|f: String| f@);
        let mut g = Game {
            board: [None;64],
            active_color: Color::White,
            castling_avail: [false;4],
            move_count: 0,
            en_passent_target: None,
            moves_since_capture: 0,
        };
        proof {
            assert(g@.board =~= init_view().board);
            assert(g@.castling =~= init_view().castling);
            assert(g@ =~= init_view());
        }
        let mut fi: usize = 0;
        while fi < fields.len()
            invariant
                fi <= fields.len(),
                fseqs == fields@.map_values(|f: String| f@),
                parse_fen(fen@) == parse_fields(g@, fseqs, fi as int),
                g@.ep_ok(),
            decreases fields.len() - fi,
        {
            let field: &String = &fields[fi];
            proof {
                assert(fseqs[fi as int] == field@);
            }
            let ghost v0 = g@;
            if fi == 0 {
                let groups = split_str(field.as_str(), '/');
                let ghost gseqs = groups@.map_values(|f: String| f@);
                let ghost b0 = g@.board;
                let mut gi: usize = 0;
                while gi < groups.len()
                    invariant
                        gi <= groups.len(),
                        gseqs == groups@.map_values(|f: String| f@),
                        gseqs == split_on(field@, '/'),
                        fseqs[0] == field@,
                        fi == 0,
                        fi < fields.len(),
                        parse_fen(fen@) == parse_fields(v0, fseqs, 0),
                        v0 == (GameView { board: b0, ..v0 }),
                        parse_placement(b0, gseqs, 0) == parse_placement(g@.board, gseqs, gi as int),
                        g@ == (GameView { board: g@.board, ..v0 }),
                        g@.ep_ok(),
                    decreases groups.len() - gi,
                {
                    if gi > 7 {
                        proof {
                            assert(parse_placement(g@.board, gseqs, gi as int) == Err::<
                                Seq<Option<Tile>>,
                                FenError,
                            >(FenError::BoardTooBig));
                            assert(apply_field(v0, fseqs[0], 0) == Err::<GameView, FenError>(
                                FenError::BoardTooBig,
                            ));
                            assert(parse_fen(fen@) == Err::<GameView, FenError>(
                                FenError::BoardTooBig,
                            ));
                        }
                        return Err(FenError::BoardTooBig);
                    }
                    let group: &String = &groups[gi];
                    proof {
                        assert(gseqs[gi as int] == group@);
                    }
                    let rank: usize = 7 - gi;
                    let glen = group.as_str().unicode_len();
                    let ghost bg = g@.board;
                    let mut j: usize = 0;
                    let mut x: u8 = 0;
                    while j < glen
                        invariant
                            j <= glen,
                            glen == group@.len(),
                            x <= 8,
                            gi <= 7,
                            rank == 7 - gi,
                            gseqs[gi as int] == group@,
                            gseqs == split_on(field@, '/'),
                            fseqs[0] == field@,
                            fi == 0,
                            fi < fields.len(),
                            parse_fen(fen@) == parse_fields(v0, fseqs, 0),
                            v0 == (GameView { board: b0, ..v0 }),
                            parse_placement(b0, gseqs, 0) == parse_placement(bg, gseqs, gi as int),
                            parse_group(bg, group@, rank as int, 0, 0) == parse_group(
                                g@.board,
                                group@,
                                rank as int,
                                j as int,
                                x as int,
                            ),
                            g@ == (GameView { board: g@.board, ..v0 }),
                            g@.ep_ok(),
                        decreases glen - j,
                    {
                        let ch = group.as_str().get_char(j);
                        let d: u8 = match ch {
                            '1' => 1,
                            '2' => 2,
                            '3' => 3,
                            '4' => 4,
                            '5' => 5,
                            '6' => 6,
                            '7' => 7,
                            '8' => 8,
                            _ => 0,
                        };
                        if d > 0 {
                            proof {
                                assert(empties_of_char(group@[j as int]) == Some(d as int));
                            }
                            x = if x + d > 8 {
                                8
                            } else {
                                x + d
                            };
                        } else {
                            proof {
                                assert(empties_of_char(group@[j as int]) is None);
                            }
                            if x >= 8 {
                                proof {
                                    assert(parse_group(
                                        g@.board,
                                        group@,
                                        rank as int,
                                        j as int,
                                        x as int,
                                    ) == Err::<Seq<Option<Tile>>, FenError>(FenError::BoardTooBig));
                                    assert(parse_placement(b0, gseqs, 0) == Err::<
                                        Seq<Option<Tile>>,
                                        FenError,
                                    >(FenError::BoardTooBig));
                                    assert(parse_fen(fen@) == Err::<GameView, FenError>(
                                        FenError::BoardTooBig,
                                    ));
                                }
                                return Err(FenError::BoardTooBig);
                            }
                            let tile = match Tile::from_fen_char(ch) {
                                Ok(t) => t,
                                Err(e) => {
                                    proof {
                                        assert(parse_group(
                                            g@.board,
                                            group@,
                                            rank as int,
                                            j as int,
                                            x as int,
                                        ) == Err::<Seq<Option<Tile>>, FenError>(e));
                                        assert(parse_fen(fen@) == Err::<GameView, FenError>(e));
                                    }
                                    return Err(e);
                                },
                            };
                            let bidx: usize = rank * 8 + (x as usize);
                            g.board[bidx] = Some(tile);
                            x = x + 1;
                        }
                        j = j + 1;
                    }
                    proof {
                        assert(parse_group(bg, group@, rank as int, 0, 0) == Ok::<
                            Seq<Option<Tile>>,
                            FenError,
                        >(g@.board));
                        assert(parse_placement(bg, gseqs, gi as int) == parse_placement(
                            g@.board,
                            gseqs,
                            gi + 1,
                        ));
                    }
                    gi = gi + 1;
                }
                proof {
                    assert(parse_placement(b0, gseqs, 0) == Ok::<Seq<Option<Tile>>, FenError>(
                        g@.board,
                    ));
                    assert(apply_field(v0, fseqs[0], 0) == Ok::<GameView, FenError>(g@));
                }
            } else if fi == 1 {
                let flen = field.as_str().unicode_len();
                let ch = if flen == 1 {
                    field.as_str().get_char(0)
                } else {
                    ' '
                };
                if flen == 1 && ch == 'b' {
                    g.active_color = Color::Black;
                    proof {
                        assert(field@ =~= seq!['b']);
                        assert(apply_field(v0, fseqs[fi as int], fi as int) == Ok::<
                            GameView,
                            FenError,
                        >(g@));
                    }
                } else if flen == 1 && ch == 'w' {
                    g.active_color = Color::White;
                    proof {
                        assert(field@ =~= seq!['w']);
                        assert(apply_field(v0, fseqs[fi as int], fi as int) == Ok::<
                            GameView,
                            FenError,
                        >(g@));
                    }
                } else {
                    proof {
                        assert(field@ != seq!['b'] && field@ != seq!['w']);
                        assert(parse_fen(fen@) == Err::<GameView, FenError>(
                            FenError::BadColorField,
                        ));
                    }
                    return Err(FenError::BadColorField);
                }
            } else if fi == 2 {
                let flen = field.as_str().unicode_len();
                let dash = if flen == 1 {
                    field.as_str().get_char(0) == '-'
                } else {
                    false
                };
                if dash {
                    proof {
                        assert(field@ =~= seq!['-']);
                        assert(apply_field(v0, fseqs[fi as int], fi as int) == Ok::<
                            GameView,
                            FenError,
                        >(g@));
                    }
                } else {
                    proof {
                        assert(field@ != seq!['-']);
                    }
                    let ghost cs0 = g@.castling;
                    let mut j: usize = 0;
                    while j < flen
                        invariant
                            j <= flen,
                            flen == field@.len(),
                            fi == 2,
                            fi < fields.len(),
                            fseqs[fi as int] == field@,
                            field@ != seq!['-'],
                            parse_fen(fen@) == parse_fields(v0, fseqs, fi as int),
                            v0 == (GameView { castling: cs0, ..v0 }),
                            parse_castling(cs0, field@, 0) == parse_castling(
                                g@.castling,
                                field@,
                                j as int,
                            ),
                            g@ == (GameView { castling: g@.castling, ..v0 }),
                            g@.ep_ok(),
                        decreases flen - j,
                    {
                        let ch = field.as_str().get_char(j);
                        match ch {
                            'K' => {
                                g.castling_avail[0] = true;
                            },
                            'Q' => {
                                g.castling_avail[1] = true;
                            },
                            'k' => {
                                g.castling_avail[2] = true;
                            },
                            'q' => {
                                g.castling_avail[3] = true;
                            },
                            _ => {
                                proof {
                                    assert(parse_castling(cs0, field@, 0) == Err::<
                                        Seq<bool>,
                                        FenError,
                                    >(FenError::BadCastlingChar));
                                    assert(parse_fen(fen@) == Err::<GameView, FenError>(
                                        FenError::BadCastlingChar,
                                    ));
                                }
                                return Err(FenError::BadCastlingChar);
                            },
                        }
                        j = j + 1;
                    }
                    proof {
                        assert(parse_castling(cs0, field@, 0) == Ok::<Seq<bool>, FenError>(
                            g@.castling,
                        ));
                        assert(apply_field(v0, fseqs[fi as int], fi as int) == Ok::<
                            GameView,
                            FenError,
                        >(g@));
                    }
                }
            } else if fi == 3 {
                let flen = field.as_str().unicode_len();
                let dash = if flen == 1 {
                    field.as_str().get_char(0) == '-'
                } else {
                    false
                };
                if dash {
                    proof {
                        assert(field@ =~= seq!['-']);
                        assert(apply_field(v0, fseqs[fi as int], fi as int) == Ok::<
                            GameView,
                            FenError,
                        >(g@));
                    }
                } else {
                    proof {
                        assert(field@ != seq!['-']);
                    }
                    match Coord::from_algebraic(field.as_str()) {
                        Ok(c) => {
                            g.en_passent_target = Some(c);
                            proof {
                                assert(apply_field(v0, fseqs[fi as int], fi as int) == Ok::<
                                    GameView,
                                    FenError,
                                >(g@));
                            }
                        },
                        Err(e) => {
                            proof {
                                assert(parse_fen(fen@) == Err::<GameView, FenError>(e));
                            }
                            return Err(e);
                        },
                    }
                }
            } else if fi == 4 {
                match parse_clock(field.as_str()) {
                    Some(nv) => {
                        g.moves_since_capture = nv;
                        proof {
                            assert(apply_field(v0, fseqs[fi as int], fi as int) == Ok::<
                                GameView,
                                FenError,
                            >(g@));
                        }
                    },
                    None => {
                        proof {
                            assert(parse_fen(fen@) == Err::<GameView, FenError>(
                                FenError::BadHalfmoveClock,
                            ));
                        }
                        return Err(FenError::BadHalfmoveClock);
                    },
                }
            } else if fi == 5 {
                match parse_clock(field.as_str()) {
                    Some(nv) => {
                        g.move_count = nv;
                        proof {
                            assert(apply_field(v0, fseqs[fi as int], fi as int) == Ok::<
                                GameView,
                                FenError,
                            >(g@));
                        }
                    },
                    None => {
                        proof {
                            assert(parse_fen(fen@) == Err::<GameView, FenError>(
                                FenError::BadFullmoveCounter,
                            ));
                        }
                        return Err(FenError::BadFullmoveCounter);
                    },
                }
            } else {
                proof {
                    assert(apply_field(v0, fseqs[fi as int], fi as int) == Err::<
                        GameView,
                        FenError,
                    >(FenError::TooManyFields));
                    assert(parse_fen(fen@) == Err::<GameView, FenError>(FenError::TooManyFields));
                }
                return Err(FenError::TooManyFields);
            }
            fi = fi + 1;
        }
        Ok(g)
    }
}

impl Coord {
    /// Reads a two-character algebraic square such as `e4`.
    pub fn from_algebraic(s: &str) -> (r: Result<Coord, FenError>)
        ensures
            r == parse_algebraic(s@),
            r matches Ok(c) ==> c.valid(),
    {
        if s.unicode_len() != 2 {
            return Err(FenError::BadSquareLength);
        }
        let x: i8 = match s.get_char(0) {
            'a' => 0,
            'b' => 1,
            'c' => 2,
            'd' => 3,
            'e' => 4,
            'f' => 5,
            'g' => 6,
            'h' => 7,
            _ => {
                return Err(FenError::BadSquareFile);
            },
        };
        let y: i8 = match s.get_char(1) {
            '1' => 0,
            '2' => 1,
            '3' => 2,
            '4' => 3,
            '5' => 4,
            '6' => 5,
            '7' => 6,
            '8' => 7,
            _ => {
                return Err(FenError::BadSquareRank);
            },
        };
        Ok(Coord(x, y))
    }
}

/// Writes one decimal digit.
fn digit_ch(n: u8) -> (c: char)
    requires
        n <= 9,
    ensures
        c == digit_char(n as int),
{
    match n {
        0 => '0',
        1 => '1',
        2 => '2',
        3 => '3',
        4 => '4',
        5 => '5',
        6 => '6',
        7 => '7',
        8 => '8',
        _ => '9',
    }
}

/// Appends a number in decimal.
fn push_u16(s: &mut String, n: u16)
    ensures
        final(s)@ == old(s)@ + dec_str(n as int),
    decreases n,
{
    if n >= 10 {
        push_u16(s, n / 10);
        push_char(s, digit_ch((n % 10) as u8));
    } else {
        push_char(s, digit_ch(n as u8));
        proof {
            assert(old(s)@.push(digit_char(n as int)) =~= old(s)@ + dec_str(n as int));
        }
    }
}

impl Coord {
    /// Writes this square in algebraic notation.
    pub fn to_algebraic(&self) -> (r: String)
        requires
            self.valid(),
        ensures
            r@ == alg_str(*self),
    {
        let mut s = String::new();
        let fc = match self.0 {
            0 => 'a',
            1 => 'b',
            2 => 'c',
            3 => 'd',
            4 => 'e',
            5 => 'f',
            6 => 'g',
            _ => 'h',
        };
        let rc = match self.1 {
            0 => '1',
            1 => '2',
            2 => '3',
            3 => '4',
            4 => '5',
            5 => '6',
            6 => '7',
            _ => '8',
        };
        push_char(&mut s, fc);
        push_char(&mut s, rc);
        proof {
            assert(s@ =~= alg_str(*self));
        }
        s
    }
}

impl Game {
    /// Appends the piece-placement field: rank groups from rank 8 down to
    /// rank 1, slash-separated, with run-length digits for empty squares.
    fn push_placement(&self, s: &mut String)
        ensures
            final(s)@ == old(s)@ + placement_str(self@.board),
    {
        let ghost b = self@.board;
        let mut i: usize = 0;
        while i < 8
            invariant
                i <= 8,
                old(s)@ + placement_str(b) == s@ + (if i < 8 {
                    ranks_str(b, 7 - i)
                } else {
                    Seq::<char>::empty()
                }),
            decreases 8 - i,
        {
            let rank: usize = 7 - i;
            let ghost s0 = s@;
            let mut x: usize = 0;
            let mut pending: u8 = 0;
            while x < 8
                invariant
                    x <= 8,
                    pending <= x,
                    rank == 7 - i,
                    i < 8,
                    s0 + emit_row(b, rank as int, 0, 0) == s@ + emit_row(
                        b,
                        rank as int,
                        x as int,
                        pending as int,
                    ),
                decreases 8 - x,
            {
                match self.board[rank * 8 + x] {
                    None => {
                        pending = pending + 1;
                    },
                    Some(t) => {
                        if pending > 0 {
                            push_char(s, digit_ch(pending));
                        }
                        push_char(s, t.as_fen_char());
                        proof {
                            assert(s@ + emit_row(b, rank as int, x + 1, 0) =~= (if pending > 0 {
                                s@.drop_last().drop_last()
                            } else {
                                s@.drop_last()
                            }) + emit_row(b, rank as int, x as int, pending as int));
                        }
                        pending = 0;
                    },
                }
                x = x + 1;
            }
            if pending > 0 {
                push_char(s, digit_ch(pending));
                proof {
                    assert(s@ =~= s0 + emit_row(b, rank as int, 0, 0));
                }
            } else {
                proof {
                    assert(s@ =~= s0 + emit_row(b, rank as int, 0, 0));
                }
            }
            if rank > 0 {
                push_char(s, '/');
                proof {
                    assert(s@ + ranks_str(b, rank - 1) =~= s0 + ranks_str(b, rank as int));
                }
            } else {
                proof {
                    assert(s@ =~= s0 + ranks_str(b, 0));
                }
            }
            i = i + 1;
        }
    }

    /// Writes the six-field record of this position: the exact text that
    /// [`Game::from_fen`] reads back into the same position.
    #[verifier::rlimit(50)]
    pub fn to_fen(&self) -> (r: String)
        requires
            self@.ep_ok(),
        ensures
            r@ == fen_str(self@),
    {
        let mut s = String::new();
        self.push_placement(&mut s);
        push_char(&mut s, ' ');
        push_char(
            &mut s,
            if self.active_color == Color::White {
                'w'
            } else {
                'b'
            },
        );
        push_char(&mut s, ' ');
        let ghost s1 = s@;
        let none_avail = !self.castling_avail[0] && !self.castling_avail[1]
            && !self.castling_avail[2] && !self.castling_avail[3];
        if none_avail {
            push_char(&mut s, '-');
        } else {
            if self.castling_avail[0] {
                push_char(&mut s, 'K');
            }
            if self.castling_avail[1] {
                push_char(&mut s, 'Q');
            }
            if self.castling_avail[2] {
                push_char(&mut s, 'k');
            }
            if self.castling_avail[3] {
                push_char(&mut s, 'q');
            }
        }
        proof {
            assert(s@ =~= s1 + castling_str(self@.castling));
        }
        push_char(&mut s, ' ');
        match self.en_passent_target {
            None => {
                push_char(&mut s, '-');
            },
            Some(c) => {
                let alg = c.to_algebraic();
                s.append(alg.as_str());
            },
        }
        push_char(&mut s, ' ');
        push_u16(&mut s, self.moves_since_capture);
        push_char(&mut s, ' ');
        push_u16(&mut s, self.move_count);
        proof {
            assert(s@ =~= fen_str(self@));
        }
        s
    }
}

} // verus!
