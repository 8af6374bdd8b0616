use chess_engine::{Color, Coord, FenError, Game, Piece, Tile};

const START: &str = "rnbqkbnr/pppppppp/8/8/8/8/PPPPPPPP/RNBQKBNR w KQkq - 0 1";

#[test]
fn round_trip_start() {
    let g = Game::from_fen(START).unwrap();
    assert_eq!(g.to_fen(), START);
}

#[test]
fn round_trip_mixed_record() {
    let fen = "r3k2r/8/8/3pP3/8/8/8/R3K2R b Kq d6 12 42";
    let g = Game::from_fen(fen).unwrap();
    assert_eq!(g.to_fen(), fen);
}

#[test]
fn round_trip_all_castling_subsets() {
    for cs in ["K", "Q", "k", "q", "KQ", "Kk", "Qq", "KQk", "Kkq", "KQkq", "-"] {
        let fen = format!("8/8/8/8/8/8/8/4K3 w {} - 3 7", cs);
        let g = Game::from_fen(&fen).unwrap();
        assert_eq!(g.to_fen(), fen);
    }
}

#[test]
fn rank_order_is_rank_eight_first() {
    // a lone white rook on a1 sits in the LAST rank group of the record
    let fen = "8/8/8/8/8/8/8/R7 w - - 0 1";
    let g = Game::from_fen(fen).unwrap();
    assert_eq!(g.board[0], Some(Tile(Color::White, Piece::Rook)));
    assert_eq!(g.board[63], None);
    assert_eq!(g.to_fen(), fen);
}

#[test]
fn missing_trailing_fields_keep_defaults() {
    let g = Game::from_fen("8/8/8/8/8/8/8/8").unwrap();
    assert_eq!(g.active_color, Color::White);
    assert_eq!(g.moves_since_capture, 0);
    assert_eq!(g.move_count, 0);
    assert_eq!(g.to_fen(), "8/8/8/8/8/8/8/8 w - - 0 0");
}

#[test]
fn leading_plus_clock_is_accepted() {
    let g = Game::from_fen("8/8/8/8/8/8/8/8 w - - +5 1").unwrap();
    assert_eq!(g.moves_since_capture, 5);
}

#[test]
fn error_bad_color_field() {
    assert_eq!(Game::from_fen("8/8/8/8/8/8/8/8 x"), Err(FenError::BadColorField));
}

#[test]
fn error_bad_piece_char() {
    assert_eq!(Game::from_fen("z7/8/8/8/8/8/8/8 w - - 0 1"), Err(FenError::BadPieceChar));
}

#[test]
fn error_board_too_wide() {
    assert_eq!(Game::from_fen("ppppppppp/8/8/8/8/8/8/8 w - - 0 1"), Err(FenError::BoardTooBig));
}

#[test]
fn error_board_too_tall() {
    assert_eq!(Game::from_fen("8/8/8/8/8/8/8/8/8 w - - 0 1"), Err(FenError::BoardTooBig));
}

#[test]
fn error_bad_castling_char() {
    assert_eq!(Game::from_fen("8/8/8/8/8/8/8/8 w X - 0 1"), Err(FenError::BadCastlingChar));
}

#[test]
fn error_bad_square_rank() {
    assert_eq!(Game::from_fen("8/8/8/8/8/8/8/8 w - e9 0 1"), Err(FenError::BadSquareRank));
}

#[test]
fn error_bad_square_file() {
    assert_eq!(Game::from_fen("8/8/8/8/8/8/8/8 w - i4 0 1"), Err(FenError::BadSquareFile));
}

#[test]
fn error_bad_square_length() {
    assert_eq!(Game::from_fen("8/8/8/8/8/8/8/8 w - e44 0 1"), Err(FenError::BadSquareLength));
}

#[test]
fn error_bad_halfmove_clock() {
    assert_eq!(Game::from_fen("8/8/8/8/8/8/8/8 w - - x 1"), Err(FenError::BadHalfmoveClock));
    assert_eq!(Game::from_fen("8/8/8/8/8/8/8/8 w - - 65536 1"), Err(FenError::BadHalfmoveClock));
}

#[test]
fn error_bad_fullmove_counter() {
    assert_eq!(Game::from_fen("8/8/8/8/8/8/8/8 w - - 0 y"), Err(FenError::BadFullmoveCounter));
}

#[test]
fn error_too_many_fields() {
    assert_eq!(Game::from_fen("8/8/8/8/8/8/8/8 w - - 0 1 extra"), Err(FenError::TooManyFields));
}

#[test]
fn tile_letters_round_trip() {
    for (ch, color, piece) in [
        ('K', Color::White, Piece::King),
        ('k', Color::Black, Piece::King),
        ('Q', Color::White, Piece::Queen),
        ('q', Color::Black, Piece::Queen),
        ('B', Color::White, Piece::Bishop),
        ('b', Color::Black, Piece::Bishop),
        ('N', Color::White, Piece::Knight),
        ('n', Color::Black, Piece::Knight),
        ('R', Color::White, Piece::Rook),
        ('r', Color::Black, Piece::Rook),
        ('P', Color::White, Piece::Pawn),
        ('p', Color::Black, Piece::Pawn),
    ] {
        let tile = Tile::from_fen_char(ch).unwrap();
        assert_eq!(tile, Tile(color, piece));
        assert_eq!(tile.as_fen_char(), ch);
    }
    assert_eq!(Tile::from_fen_char('x'), Err(FenError::BadPieceChar));
}

#[test]
fn algebraic_squares() {
    assert_eq!(Coord::from_algebraic("e4"), Ok(Coord(4, 3)));
    assert_eq!(Coord::from_algebraic("a1"), Ok(Coord(0, 0)));
    assert_eq!(Coord::from_algebraic("h8"), Ok(Coord(7, 7)));
    assert_eq!(Coord(0, 0).to_algebraic(), "a1");
    assert_eq!(Coord(4, 3).to_algebraic(), "e4");
    assert_eq!(Coord(7, 7).to_algebraic(), "h8");
}
