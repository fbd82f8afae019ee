use matches_game::{Game, GameError, PointerToSelected, PossibleMoves, PossiblePlayers};

fn at(row: usize, column: usize) -> PointerToSelected {
    PointerToSelected { row, column }
}

fn total_present(game: &Game) -> usize {
    game.matches.iter().map(|r| r.iter().filter(|c| **c).count()).sum()
}

#[test]
fn fresh_board_of_four_rows() {
    let game = Game::new(4).unwrap();
    let sizes: Vec<usize> = game.matches.iter().map(|r| r.len()).collect();
    assert_eq!(sizes, vec![1, 3, 5, 7]);
    assert!(game.matches.iter().all(|r| r.iter().all(|c| *c)));
    assert_eq!(game.pointing_to_match, at(0, 0));
    assert_eq!(game.current_player, PossiblePlayers::Player1);
    assert_eq!(game.last_took_from_row, None);
    assert_eq!(game.player_1_number_of_matches, 0);
    assert_eq!(game.player_2_number_of_matches, 0);
    assert_eq!(game.matches_number_of_rows, 4);
    assert!(!game.is_finished);
    assert_eq!(game.remaining(), 16);
}

#[test]
fn fresh_boards_hold_a_square_number_of_matches() {
    for n in 1..=12u8 {
        let game = Game::new(n).unwrap();
        assert_eq!(game.matches.len(), n as usize);
        for (i, row) in game.matches.iter().enumerate() {
            assert_eq!(row.len(), 1 + 2 * i);
        }
        assert_eq!(game.remaining(), (n as usize) * (n as usize));
        assert_eq!(total_present(&game), (n as usize) * (n as usize));
    }
}

#[test]
fn largest_board() {
    let game = Game::new(255).unwrap();
    assert_eq!(game.matches[254].len(), 509);
    assert_eq!(game.remaining(), 65025);
}

#[test]
fn zero_rows_is_rejected() {
    assert_eq!(Game::new(0).err(), Some(GameError::InvalidConfiguration));
}

#[test]
fn vertical_layout_shares() {
    let game = Game::new(4).unwrap();
    assert_eq!(game.matches_vertical_container_constraints, vec![5, 22, 22, 22, 22, 5]);
    let game = Game::new(1).unwrap();
    assert_eq!(game.matches_vertical_container_constraints, vec![5, 90, 5]);
    let game = Game::new(7).unwrap();
    assert_eq!(game.matches_vertical_container_constraints, vec![5, 12, 12, 12, 12, 12, 12, 12, 5]);
}

#[test]
fn move_down_right_and_select() {
    let mut game = Game::new(4).unwrap();
    game.make_move(PossibleMoves::Down);
    assert_eq!(game.pointing_to_match, at(1, 0));
    game.make_move(PossibleMoves::Right);
    game.make_move(PossibleMoves::Right);
    assert_eq!(game.pointing_to_match, at(1, 2));
    game.make_move(PossibleMoves::Select);
    assert!(!game.matches[1][2]);
    assert_eq!(game.player_1_number_of_matches, 1);
    assert_eq!(game.player_2_number_of_matches, 0);
    assert_eq!(game.pointing_to_match, at(1, 1));
    assert_eq!(game.last_took_from_row, Some(1));
}

#[test]
fn moves_stop_at_the_edges() {
    let mut game = Game::new(3).unwrap();
    game.make_move(PossibleMoves::Left);
    assert_eq!(game.pointing_to_match, at(0, 0));
    game.make_move(PossibleMoves::Right);
    assert_eq!(game.pointing_to_match, at(0, 0));
    game.make_move(PossibleMoves::Up);
    assert_eq!(game.pointing_to_match, at(0, 0));
    game.make_move(PossibleMoves::Down);
    game.make_move(PossibleMoves::Down);
    assert_eq!(game.pointing_to_match, at(2, 0));
    game.make_move(PossibleMoves::Down);
    assert_eq!(game.pointing_to_match, at(2, 0));
    for _ in 0..6 {
        game.make_move(PossibleMoves::Right);
    }
    assert_eq!(game.pointing_to_match, at(2, 4));
}

#[test]
fn move_up_cuts_the_column_then_snaps() {
    let mut game = Game::new(4).unwrap();
    game.make_move(PossibleMoves::Down);
    game.make_move(PossibleMoves::Down);
    game.make_move(PossibleMoves::Down);
    for _ in 0..6 {
        game.make_move(PossibleMoves::Right);
    }
    assert_eq!(game.pointing_to_match, at(3, 6));
    game.make_move(PossibleMoves::Up);
    assert_eq!(game.pointing_to_match, at(2, 3));
}

#[test]
fn steps_skip_removed_matches_and_empty_rows() {
    let mut game = Game::new(4).unwrap();
    game.make_move(PossibleMoves::Down);
    for _ in 0..3 {
        game.make_move(PossibleMoves::Select);
    }
    assert!(game.matches[1].iter().all(|c| !*c));
    assert_eq!(game.player_1_number_of_matches, 3);
    assert!(game.matches[0][0]);
    assert_eq!(game.pointing_to_match.row, 2);
    game.make_move(PossibleMoves::Up);
    assert_eq!(game.pointing_to_match, at(0, 0));
    game.make_move(PossibleMoves::Down);
    assert_eq!(game.pointing_to_match, at(2, 0));
}

#[test]
fn removal_is_locked_to_one_row_per_turn() {
    let mut game = Game::new(4).unwrap();
    game.make_move(PossibleMoves::Down);
    game.make_move(PossibleMoves::Down);
    assert_eq!(game.pointing_to_match.row, 2);
    game.make_move(PossibleMoves::Select);
    assert_eq!(game.player_1_number_of_matches, 1);
    assert_eq!(game.last_took_from_row, Some(2));
    game.make_move(PossibleMoves::Down);
    assert_eq!(game.pointing_to_match.row, 3);
    let board = game.matches.clone();
    game.make_move(PossibleMoves::Select);
    assert_eq!(game.matches, board);
    assert_eq!(game.player_1_number_of_matches, 1);
    assert_eq!(game.player_2_number_of_matches, 0);
    game.next_player();
    assert_eq!(game.current_player, PossiblePlayers::Player2);
    assert_eq!(game.last_took_from_row, None);
    let column = game.pointing_to_match.column;
    game.make_move(PossibleMoves::Select);
    assert!(!game.matches[3][column]);
    assert_eq!(game.player_2_number_of_matches, 1);
    assert_eq!(game.player_1_number_of_matches, 1);
    assert_eq!(game.last_took_from_row, Some(3));
}

#[test]
fn next_player_alternates() {
    let mut game = Game::new(2).unwrap();
    game.next_player();
    assert_eq!(game.current_player, PossiblePlayers::Player2);
    game.next_player();
    assert_eq!(game.current_player, PossiblePlayers::Player1);
    assert_eq!(PossiblePlayers::Player1.other(), PossiblePlayers::Player2);
    assert_eq!(PossiblePlayers::Player2.other(), PossiblePlayers::Player1);
    assert_eq!(game.pointing_to_match, at(0, 0));
    assert_eq!(game.remaining(), 4);
}

#[test]
fn playing_down_to_one_match_finishes_the_game() {
    let mut game = Game::new(4).unwrap();
    let mut taken = 0;
    while game.remaining() > 1 {
        let before = game.remaining();
        game.make_move(PossibleMoves::Select);
        assert_eq!(game.remaining(), before - 1);
        taken += 1;
        let (r, c) = (game.pointing_to_match.row, game.pointing_to_match.column);
        assert!(game.matches[r][c]);
        game.check_win_conditions();
        assert_eq!(game.is_finished, game.remaining() == 1);
        assert_eq!(
            game.player_1_number_of_matches + game.player_2_number_of_matches,
            16 - game.remaining()
        );
        game.next_player();
    }
    assert_eq!(taken, 15);
    assert!(game.is_finished);
    assert_eq!(total_present(&game), 1);
    game.make_move(PossibleMoves::Select);
    assert_eq!(total_present(&game), 1);
    game.check_win_conditions();
    assert!(game.is_finished);
    game.next_player();
    game.make_move(PossibleMoves::Select);
    assert_eq!(total_present(&game), 1);
    assert!(game.is_finished);
}

#[test]
fn small_game_scores_each_player() {
    let mut game = Game::new(2).unwrap();
    game.make_move(PossibleMoves::Select);
    assert_eq!(game.player_1_number_of_matches, 1);
    assert_eq!(game.pointing_to_match, at(1, 0));
    game.check_win_conditions();
    assert!(!game.is_finished);
    game.next_player();
    game.make_move(PossibleMoves::Select);
    assert_eq!(game.pointing_to_match, at(1, 1));
    game.make_move(PossibleMoves::Select);
    assert_eq!(game.pointing_to_match, at(1, 2));
    assert_eq!(game.player_2_number_of_matches, 2);
    game.check_win_conditions();
    assert!(game.is_finished);
    assert_eq!(game.remaining(), 1);
}

#[test]
fn win_check_leaves_the_flag_alone_with_more_matches() {
    let mut game = Game::new(3).unwrap();
    game.check_win_conditions();
    assert!(!game.is_finished);
    assert_eq!(game.remaining(), 9);
}

#[test]
fn last_match_of_a_row_sends_the_cursor_down_then_up() {
    let mut game = Game::new(3).unwrap();
    game.make_move(PossibleMoves::Select);
    assert_eq!(game.pointing_to_match, at(1, 0));
    game.next_player();
    game.make_move(PossibleMoves::Down);
    assert_eq!(game.pointing_to_match, at(2, 0));
    for _ in 0..5 {
        game.make_move(PossibleMoves::Select);
    }
    assert!(game.matches[2].iter().all(|c| !*c));
    assert_eq!(game.pointing_to_match, at(1, 1));
    assert_eq!(game.player_2_number_of_matches, 5);
}

#[test]
fn down_on_the_last_row_keeps_the_cursor() {
    let mut game = Game::new(3).unwrap();
    game.make_move(PossibleMoves::Down);
    game.make_move(PossibleMoves::Down);
    for _ in 0..4 {
        game.make_move(PossibleMoves::Right);
    }
    assert_eq!(game.pointing_to_match, at(2, 4));
    game.make_move(PossibleMoves::Down);
    assert_eq!(game.pointing_to_match, at(2, 4));
}

#[test]
fn up_with_no_match_above_keeps_the_cursor() {
    let mut game = Game::new(3).unwrap();
    game.make_move(PossibleMoves::Select);
    assert_eq!(game.pointing_to_match, at(1, 0));
    game.make_move(PossibleMoves::Right);
    game.make_move(PossibleMoves::Right);
    assert_eq!(game.pointing_to_match, at(1, 2));
    game.make_move(PossibleMoves::Up);
    assert_eq!(game.pointing_to_match, at(1, 2));
}
