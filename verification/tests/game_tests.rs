use tictactoe::board::{Board, Player, TileId};
use tictactoe::game::{Conclusion, Game, State};

fn tile(i: u8) -> TileId {
    TileId::from_index(i).unwrap()
}

#[test]
fn empty_board_has_no_marks() {
    let b = Board::new();
    assert_eq!(b.mark_count(), 0);
    for i in 0..9 {
        assert_eq!(b.get(tile(i)), None);
    }
}

#[test]
fn mark_writes_one_cell() {
    let mut b = Board::new();
    b.mark(tile(4), Player::X);
    assert_eq!(b.mark_count(), 1);
    assert_eq!(b.get(tile(4)), Some(Player::X));
    assert_eq!(b.get(tile(0)), None);
}

#[test]
fn tile_parses_case_insensitively() {
    assert_eq!(TileId::from_str("a1").unwrap().index(), 0);
    assert_eq!(TileId::from_str("B1").unwrap().index(), 1);
    assert_eq!(TileId::from_str("c1").unwrap().index(), 2);
    assert_eq!(TileId::from_str("A2").unwrap().index(), 3);
    assert_eq!(TileId::from_str("b2").unwrap().index(), 4);
    assert_eq!(TileId::from_str("C3").unwrap().index(), 8);
}

#[test]
fn tile_rejects_bad_coordinates() {
    assert!(TileId::from_str("d1").is_err());
    assert!(TileId::from_str("a4").is_err());
    assert!(TileId::from_str("a").is_err());
    assert!(TileId::from_str("a12").is_err());
    assert!(TileId::from_str("").is_err());
}

#[test]
fn tile_from_index_bounds() {
    assert!(TileId::from_index(8).is_some());
    assert!(TileId::from_index(9).is_none());
    assert!(TileId::from_index(255).is_none());
}

#[test]
fn defaults_are_o_and_the_empty_board() {
    assert_eq!(Player::default(), Player::O);
    assert_eq!(Board::default(), Board::new());
    assert_eq!(Board::default().mark_count(), 0);
}

#[test]
fn opposite_flips_the_player() {
    assert_eq!(Player::O.opposite(), Player::X);
    assert_eq!(Player::X.opposite(), Player::O);
    assert_eq!(Player::O.label(), "O");
    assert_eq!(Player::X.label(), "X");
}

/// Fresh game, `O` marks A1, B1, C1: the rank-1 row concludes as `Win(O)`.
#[test]
fn scenario_top_row_win() {
    let mut board = Board::new();
    board.mark(tile(0), Player::O);
    board.mark(tile(1), Player::O);
    board.mark(tile(2), Player::O);
    let game = Game { board, state: State::Playing(Player::O) };
    assert_eq!(game.has_game_concluded(), Some(Conclusion::Win(Player::O)));
}

/// All nine tiles marked with no three-in-a-row conclude as `Draw`.
#[test]
fn scenario_full_board_draw() {
    let mut board = Board::new();
    let cells = [
        Player::O,
        Player::X,
        Player::O,
        Player::O,
        Player::X,
        Player::X,
        Player::X,
        Player::O,
        Player::O,
    ];
    for (i, p) in cells.iter().enumerate() {
        board.mark(tile(i as u8), *p);
    }
    let game = Game { board, state: State::Playing(Player::O) };
    assert_eq!(game.has_game_concluded(), Some(Conclusion::Draw));
}

/// Marking an already-occupied tile leaves the board unchanged and the
/// engine reports rejection.
#[test]
fn scenario_occupied_tile_rejected() {
    let mut game = Game::new(Player::O);
    assert!(game.try_mark_tile(tile(4)));
    game.next_turn();
    let before = game;
    assert!(!game.try_mark_tile(tile(4)));
    assert_eq!(game, before);
    assert_eq!(game.board.mark_count(), 1);
    assert_eq!(game.board.get(tile(4)), Some(Player::O));
}

/// Two conclusion checks of one and the same board agree.
#[test]
fn conclusion_check_is_idempotent() {
    let mut board = Board::new();
    board.mark(tile(0), Player::O);
    board.mark(tile(4), Player::X);
    board.mark(tile(8), Player::O);
    let game = Game { board, state: State::Playing(Player::X) };
    assert_eq!(game.has_game_concluded(), game.has_game_concluded());
    let fresh = Game::new(Player::O);
    assert_eq!(fresh.has_game_concluded(), fresh.has_game_concluded());
}

#[test]
fn three_marks_without_line_is_still_open() {
    let mut board = Board::new();
    board.mark(tile(0), Player::O);
    board.mark(tile(4), Player::X);
    board.mark(tile(8), Player::O);
    let game = Game { board, state: State::Playing(Player::X) };
    assert_eq!(game.has_game_concluded(), None);
}

#[test]
fn fewer_than_three_marks_never_conclude() {
    let mut game = Game::new(Player::O);
    assert_eq!(game.has_game_concluded(), None);
    assert!(game.try_mark_tile(tile(0)));
    game.next_turn();
    assert_eq!(game.has_game_concluded(), None);
    assert!(game.try_mark_tile(tile(1)));
    game.next_turn();
    assert_eq!(game.has_game_concluded(), None);
}

#[test]
fn next_turn_flips_the_active_player() {
    let mut game = Game::new(Player::O);
    assert!(game.try_mark_tile(tile(4)));
    game.next_turn();
    assert_eq!(game.state, State::Playing(Player::X));
    assert!(game.try_mark_tile(tile(0)));
    game.next_turn();
    assert_eq!(game.state, State::Playing(Player::O));
}

#[test]
fn alternating_play_to_a_column_win() {
    let mut game = Game::new(Player::O);
    for i in [0u8, 1, 3, 4] {
        assert!(game.try_mark_tile(tile(i)));
        game.next_turn();
    }
    assert!(matches!(game.state, State::Playing(Player::O)));
    assert!(game.try_mark_tile(tile(6)));
    game.next_turn();
    assert_eq!(game.state, State::Concluded(Conclusion::Win(Player::O)));
    let snapshot = game;
    game.next_turn();
    assert_eq!(game, snapshot);
}

#[test]
fn is_valid_mark_tracks_occupancy() {
    let mut game = Game::new(Player::X);
    assert!(game.is_valid_mark(tile(7)));
    assert!(game.try_mark_tile(tile(7)));
    assert!(!game.is_valid_mark(tile(7)));
}
