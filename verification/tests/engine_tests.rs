use chess_engine::{Color, Coord, Game, GameState, Move, MoveError, Piece, Tile};

const START: &str = "rnbqkbnr/pppppppp/8/8/8/8/PPPPPPPP/RNBQKBNR w KQkq - 0 1";

#[test]
fn starting_position_has_twenty_legal_moves() {
    let g = Game::from_fen(START).unwrap();
    let moves = g.get_all_possible_moves();
    assert_eq!(moves.len(), 20);
    for m in &moves {
        match m {
            Move::Basic(_, to) => {
                assert_eq!(g.board[to.index()], None, "a starting move must not capture");
            }
            _ => panic!("the generator only emits basic moves"),
        }
    }
}

#[test]
fn starting_knight_moves_present_blocked_push_absent() {
    let g = Game::from_fen(START).unwrap();
    let moves = g.get_all_possible_moves();
    let b1 = Coord(1, 0);
    assert!(moves.contains(&Move::Basic(b1, Coord(0, 2))), "b1 to a3");
    assert!(moves.contains(&Move::Basic(b1, Coord(2, 2))), "b1 to c3");
    assert!(!moves.contains(&Move::Basic(b1, Coord(1, 1))), "b1 to b2 is blocked");
}

#[test]
fn lone_rook_checks_lone_king() {
    for active in ["w", "b"] {
        let fen = format!("4r3/8/8/8/8/8/8/4K3 {} - - 0 1", active);
        let g = Game::from_fen(&fen).unwrap();
        assert_eq!(g.is_check(), Some(Color::White));
    }
}

#[test]
fn double_check_reports_white_first() {
    let g = Game::from_fen("4k3/4R3/8/8/8/8/4r3/4K3 w - - 0 1").unwrap();
    assert_eq!(g.is_check(), Some(Color::White));
}

#[test]
fn kings_are_never_capturable() {
    // a black king, a white king, and a black pawn around a white rook on a1
    let g = Game::from_fen("k7/8/8/8/8/8/8/R3K2k w - - 0 1").unwrap();
    let a1 = Coord(0, 0);
    assert!(!g.can_capture_tile(&a1, &Coord(0, 7)), "enemy king is not capturable");
    assert!(!g.can_capture_tile(&a1, &Coord(4, 0)), "own king is not capturable");
    assert!(g.can_capture_tile(&a1, &Coord(3, 0)), "an empty square is free");
}

#[test]
fn ray_stops_at_first_occupied_square() {
    // white rook a1, black pawn a4: the upward ray is a2, a3, a4 inclusive
    let g = Game::from_fen("8/8/8/8/p7/8/8/R7 w - - 0 1").unwrap();
    let ray = g.get_consecutive_capture_tiles(&Coord(0, 0), &Coord(0, 1));
    assert_eq!(ray, vec![Coord(0, 1), Coord(0, 2), Coord(0, 3)]);
    // the leftward ray leaves the board at once and keeps the off-board square
    let left = g.get_consecutive_capture_tiles(&Coord(0, 0), &Coord(-1, 0));
    assert_eq!(left, vec![Coord(-1, 0)]);
}

#[test]
fn capture_resets_halfmove_clock() {
    let mut g = Game::from_fen("8/8/8/8/8/8/p7/R7 w - - 5 1").unwrap();
    let r = g.make_move(&Move::Basic(Coord(0, 0), Coord(0, 1)));
    assert!(r.is_ok());
    assert_eq!(g.moves_since_capture, 0);
    assert_eq!(g.move_count, 2);
    assert_eq!(g.active_color, Color::Black);
}

#[test]
fn white_quiet_move_advances_halfmove_clock() {
    let mut g = Game::from_fen("8/8/8/8/8/8/8/R7 w - - 5 1").unwrap();
    let r = g.make_move(&Move::Basic(Coord(0, 0), Coord(0, 1)));
    assert!(r.is_ok());
    assert_eq!(g.moves_since_capture, 6);
    assert_eq!(g.move_count, 2);
}

#[test]
fn black_quiet_move_leaves_clock_alone() {
    let mut g = Game::from_fen("r7/8/8/8/8/8/8/8 b - - 5 1").unwrap();
    let r = g.make_move(&Move::Basic(Coord(0, 7), Coord(0, 6)));
    assert!(r.is_ok());
    assert_eq!(g.moves_since_capture, 5);
    assert_eq!(g.move_count, 1);
    assert_eq!(g.active_color, Color::White);
}

#[test]
fn stalemate_when_stuck_and_not_in_check() {
    // white king a1; black rooks cover the b-file and the second rank
    let g = Game::from_fen("1r6/8/8/8/8/8/7r/K7 w - - 0 1").unwrap();
    assert_eq!(g.is_check(), None);
    assert_eq!(g.get_all_possible_moves().len(), 0);
    assert_eq!(g.state(), GameState::Stalemate);
}

#[test]
fn checkmate_when_stuck_and_in_check() {
    let g = Game::from_fen("rr6/8/8/8/8/8/7r/K7 w - - 0 1").unwrap();
    assert_eq!(g.is_check(), Some(Color::White));
    assert_eq!(g.get_all_possible_moves().len(), 0);
    assert_eq!(g.state(), GameState::Checkmate(Color::White));
}

#[test]
fn stuck_side_whose_only_move_checks_the_opponent_is_not_stalemate() {
    // White has no legal move and is not in check, yet the classification
    // is Normal, not Stalemate: the lone pawn push is illegal only because
    // it would check Black, so the escape scan (which asks whether White
    // stays in check) finds an escape. This is the divergence the
    // classification law's hypothesis excludes.
    let g = Game::from_fen("1r6/4k3/8/4P3/8/8/7r/K7 w - - 0 1").unwrap();
    assert_eq!(g.is_check(), None);
    assert_eq!(g.get_all_possible_moves().len(), 0);
    assert_eq!(g.state(), GameState::Normal);
}

#[test]
fn check_with_escape_is_reported_as_check() {
    let g = Game::from_fen("4r3/8/8/8/8/8/8/4K3 w - - 0 1").unwrap();
    assert_eq!(g.state(), GameState::Check(Color::White));
}

#[test]
fn quiet_position_is_normal() {
    let g = Game::from_fen(START).unwrap();
    assert_eq!(g.state(), GameState::Normal);
}

#[test]
fn rejected_move_leaves_position_unchanged() {
    let mut g = Game::from_fen(START).unwrap();
    let before = g.clone();
    let r = g.make_move(&Move::Basic(Coord(1, 0), Coord(1, 1)));
    assert_eq!(r, Err(MoveError::NotALegalMove));
    assert_eq!(g, before);
}

#[test]
fn moving_into_a_ray_is_rejected_unchanged() {
    let mut g = Game::from_fen("4r3/8/8/8/8/8/8/4K3 w - - 0 1").unwrap();
    let before = g.clone();
    let r = g.make_move(&Move::Basic(Coord(4, 0), Coord(4, 1)));
    assert_eq!(r, Err(MoveError::ResultsInCheck));
    assert_eq!(g, before);
}

#[test]
fn special_move_shapes_are_unsupported() {
    let mut g = Game::from_fen(START).unwrap();
    let before = g.clone();
    assert_eq!(g.make_move(&Move::Castle(Color::White, true)), Err(MoveError::UnsupportedMove));
    assert_eq!(
        g.make_move(&Move::EnPassent(Coord(4, 4), Coord(3, 5))),
        Err(MoveError::UnsupportedMove)
    );
    assert_eq!(
        g.make_move(&Move::PawnPromotion(Coord(0, 6), Coord(0, 7), Piece::Queen)),
        Err(MoveError::UnsupportedMove)
    );
    assert_eq!(g, before);
}

#[test]
fn accepted_pawn_push_from_start() {
    let mut g = Game::from_fen(START).unwrap();
    let r = g.make_move(&Move::Basic(Coord(4, 1), Coord(4, 2)));
    assert_eq!(r, Ok(GameState::Normal));
    assert_eq!(g.board[Coord(4, 2).index()], Some(Tile(Color::White, Piece::Pawn)));
    assert_eq!(g.board[Coord(4, 1).index()], None);
    assert_eq!(g.active_color, Color::Black);
}

#[test]
fn queen_slides_on_diagonals_only() {
    let g = Game::from_fen("8/8/8/8/3Q4/8/8/8 w - - 0 1").unwrap();
    let d4 = Coord(3, 3);
    let moves = g.get_possible_moves(&d4);
    assert_eq!(moves.len(), 13);
    assert!(moves.contains(&Move::Basic(d4, Coord(4, 4))), "diagonal step");
    assert!(!moves.contains(&Move::Basic(d4, Coord(3, 4))), "no orthogonal step");
}

#[test]
fn pawn_double_step_ranks() {
    // a black pawn on its own second rank may step twice
    let g = Game::from_fen("8/2p5/8/8/8/8/8/8 b - - 0 1").unwrap();
    let c7 = Coord(2, 6);
    let moves = g.get_possible_moves(&c7);
    assert!(moves.contains(&Move::Basic(c7, Coord(2, 5))));
    assert!(moves.contains(&Move::Basic(c7, Coord(2, 4))));
    assert_eq!(moves.len(), 2);
    // elsewhere only the single step remains
    let g2 = Game::from_fen("8/8/2p5/8/8/8/8/8 b - - 0 1").unwrap();
    let c6 = Coord(2, 5);
    assert_eq!(g2.get_possible_moves(&c6).len(), 1);
}

#[test]
fn empty_square_has_no_moves() {
    let g = Game::from_fen(START).unwrap();
    assert_eq!(g.get_possible_moves(&Coord(4, 4)).len(), 0);
}

#[test]
fn move_accessors() {
    let m = Move::Basic(Coord(4, 1), Coord(4, 3));
    assert_eq!(m.get_source_coord(), Coord(4, 1));
    assert_eq!(m.get_capture_target(), Some(Coord(4, 3)));
    assert_eq!(Move::Castle(Color::White, true).get_source_coord(), Coord(4, 0));
    assert_eq!(Move::Castle(Color::Black, false).get_source_coord(), Coord(4, 7));
    assert_eq!(Move::Castle(Color::White, true).get_capture_target(), None);
}

#[test]
fn color_helpers() {
    assert_eq!(Color::White.opponent(), Color::Black);
    assert_eq!(Color::Black.opponent(), Color::White);
    assert_eq!(Color::White.get_direction(), Coord(0, 1));
    assert_eq!(Color::Black.get_direction(), Coord(0, -1));
}

#[test]
fn coord_arithmetic() {
    let mut c = Coord(2, 3);
    assert_eq!(c.index(), 2 + 3 * 8);
    assert_eq!(c.rank_index(), 3);
    assert_eq!(c.file_index(), 2);
    assert!(c.is_valid());
    assert!(!Coord(8, 0).is_valid());
    assert!(!Coord(-1, 5).is_valid());
    assert_eq!(c.offset(&Coord(1, -1)), Coord(3, 2));
    c.offset_in_place(&Coord(0, 2));
    assert_eq!(c, Coord(2, 5));
    let mut d = Coord(0, 1);
    assert_eq!(d.mul(2), Coord(0, 2));
    assert_eq!(d, Coord(0, 1));
}
