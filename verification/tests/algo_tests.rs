use chess_engine::algos::{algo_move, minimax_move, random_move};
use chess_engine::helper::{coord_offset, from_file_rank, get_file, get_rank, is_valid_coord};
use chess_engine::shell::InteractiveMode;
use chess_engine::{AlgoError, Color, Coord, Game, Move, MoveError, Piece};

const START: &str = "rnbqkbnr/pppppppp/8/8/8/8/PPPPPPPP/RNBQKBNR w KQkq - 0 1";

#[test]
fn unknown_algorithm_is_rejected() {
    let g = Game::from_fen(START).unwrap();
    assert_eq!(algo_move("alphabeta", &g), Err(AlgoError::UnknownAlgorithm));
}

#[test]
fn random_algorithm_returns_a_legal_move() {
    let g = Game::from_fen(START).unwrap();
    let legal = g.get_all_possible_moves();
    let m = algo_move("random", &g).unwrap();
    assert!(legal.contains(&m));
    let m2 = random_move(&g);
    assert!(legal.contains(&m2));
}

#[test]
fn minimax_algorithm_returns_a_legal_move() {
    let g = Game::from_fen(START).unwrap();
    let legal = g.get_all_possible_moves();
    let m = algo_move("minimax", &g).unwrap();
    assert!(legal.contains(&m));
}

#[test]
fn minimax_takes_the_hanging_queen() {
    let g = Game::from_fen("q7/8/8/8/8/8/8/R7 w - - 0 1").unwrap();
    assert_eq!(minimax_move(&g), Move::Basic(Coord(0, 0), Coord(0, 7)));
}

#[test]
fn interactive_mode_starts_from_the_standard_position() {
    let shell = InteractiveMode::new();
    assert_eq!(shell.game, Game::from_fen(START).unwrap());
    assert_eq!(shell.game.to_fen(), START);
}

#[test]
fn render_of_the_starting_position() {
    let g = Game::from_fen(START).unwrap();
    let expected = "RNBQKBNR\nPPPPPPPP\n        \n        \n        \n        \npppppppp\nrnbqkbnr\n\nactive color: White";
    assert_eq!(g.render(), expected);
}

#[test]
fn move_serialization_forms() {
    assert_eq!(Move::Basic(Coord(4, 1), Coord(4, 3)).serialize(), "b,e2-e4");
    assert_eq!(Move::Castle(Color::White, true).serialize(), "c,w,k");
    assert_eq!(Move::Castle(Color::Black, false).serialize(), "c,b,q");
    assert_eq!(Move::EnPassent(Coord(3, 4), Coord(4, 5)).serialize(), "e,d5-e6");
    assert_eq!(
        Move::PawnPromotion(Coord(0, 6), Coord(0, 7), Piece::Queen).serialize(),
        "p,a7-a8,q"
    );
}

#[test]
fn move_deserialization_is_unsupported() {
    assert_eq!(Move::deserialize("b,e2-e4"), Err(MoveError::UnsupportedMove));
    assert_eq!(Move::deserialize(""), Err(MoveError::UnsupportedMove));
}

#[test]
fn move_descriptions() {
    assert_eq!(Move::Basic(Coord(4, 1), Coord(4, 3)).describe(), "e2 -> e4");
    assert_eq!(
        Move::Castle(Color::White, true).describe(),
        "Castle king from White to true"
    );
    assert_eq!(
        Move::EnPassent(Coord(3, 4), Coord(4, 5)).describe(),
        "En passent from d5 to e6"
    );
    assert_eq!(
        Move::PawnPromotion(Coord(0, 6), Coord(0, 7), Piece::Queen).describe(),
        "a7 -> a8, pawn promoted to queen"
    );
    assert_eq!(Color::White.name(), "White");
    assert_eq!(Piece::Knight.name(), "knight");
}

#[test]
fn flat_index_helpers() {
    assert!(is_valid_coord(0));
    assert!(is_valid_coord(1));
    assert!(is_valid_coord(63));
    assert!(!is_valid_coord(64));
    assert_eq!(coord_offset(10, -2), 8);
    assert_eq!(coord_offset(10, 8), 18);
    assert_eq!(get_file(19), 3);
    assert_eq!(get_rank(19), 2);
    assert_eq!(from_file_rank(3, 2), 19);
}
