use tictactoe::game_logic::{Game, GameState};

#[test]
fn test_create_board() {
    for x in 3u8..6u8 {
        let mut game = Game::new();
        game.create_board(x);
        let board = &game.board;
        assert_eq!((board.len() as u8), x * x)
    }
}

#[test]
fn test_player_input() {
    let mut game = Game::new();
    game.create_board(3);
    assert_eq!(game.player_input(0, 0), GameState::InProgress);
    assert_eq!(game.player_input(0, 1), GameState::InProgress);
    assert_eq!(game.player_input(1, 1), GameState::InProgress);
    assert_eq!(game.player_input(1, 0), GameState::InProgress);
    assert_eq!(game.player_input(2, 2), GameState::Win);
}

#[test]
fn fresh_board_cells_are_all_empty() {
    let mut game = Game::new();
    game.create_board(4);
    assert_eq!(game.board.len(), 16);
    for x in 0u8..4u8 {
        for y in 0u8..4u8 {
            assert_eq!(game.get_cell(x, y), ' ');
        }
    }
}

#[test]
fn horizontal_run_wins() {
    let mut game = Game::new();
    let cells = vec![
        'X', 'X', 'X',
        ' ', ' ', ' ',
        ' ', ' ', ' ',
    ];
    game.load_board(3, &cells);
    assert_eq!(game.check_game_state(), GameState::Win);
}

#[test]
fn vertical_run_wins() {
    let mut game = Game::new();
    let cells = vec![
        'O', ' ', ' ',
        'O', ' ', ' ',
        'O', ' ', ' ',
    ];
    game.load_board(3, &cells);
    assert_eq!(game.check_game_state(), GameState::Win);
}

#[test]
fn southeast_diagonal_run_wins() {
    let mut game = Game::new();
    let cells = vec![
        'X', ' ', ' ',
        ' ', 'X', ' ',
        ' ', ' ', 'X',
    ];
    game.load_board(3, &cells);
    assert_eq!(game.check_game_state(), GameState::Win);
}

#[test]
fn northeast_diagonal_run_wins() {
    let mut game = Game::new();
    let cells = vec![
        ' ', ' ', 'O',
        ' ', 'O', ' ',
        'O', ' ', ' ',
    ];
    game.load_board(3, &cells);
    assert_eq!(game.check_game_state(), GameState::Win);
}

#[test]
fn run_of_three_wins_on_a_larger_board() {
    let mut game = Game::new();
    let cells = vec![
        ' ', ' ', ' ', ' ',
        ' ', 'O', ' ', ' ',
        ' ', ' ', 'O', ' ',
        ' ', ' ', ' ', 'O',
    ];
    game.load_board(4, &cells);
    assert_eq!(game.check_game_state(), GameState::Win);
}

#[test]
fn full_board_without_a_run_is_a_draw() {
    let mut game = Game::new();
    let cells = vec![
        'X', 'X', 'O',
        'O', 'O', 'X',
        'X', 'X', 'O',
    ];
    game.load_board(3, &cells);
    assert_eq!(game.check_game_state(), GameState::Draw);
}

#[test]
fn full_board_is_a_draw_even_with_a_run_on_it() {
    let mut game = Game::new();
    let cells = vec![
        'X', 'X', 'X',
        'O', 'O', 'X',
        'X', 'O', 'O',
    ];
    game.load_board(3, &cells);
    assert_eq!(game.check_game_state(), GameState::Draw);
}

#[test]
fn partial_board_without_a_run_is_in_progress() {
    let mut game = Game::new();
    let cells = vec![
        'X', 'O', ' ',
        ' ', 'X', ' ',
        ' ', ' ', 'O',
    ];
    game.load_board(3, &cells);
    assert_eq!(game.check_game_state(), GameState::InProgress);
}

#[test]
fn next_player_symbol_alternates_from_x() {
    let mut game = Game::new();
    game.create_board(3);
    assert_eq!(game.get_next_player_symbol(), 'X');
    game.player_input(0, 0);
    assert_eq!(game.get_next_player_symbol(), 'O');
    game.player_input(1, 0);
    assert_eq!(game.get_next_player_symbol(), 'X');
    game.player_input(2, 0);
    assert_eq!(game.get_next_player_symbol(), 'O');
}

#[test]
fn prev_player_symbol_names_the_winner() {
    let mut game = Game::new();
    game.create_board(3);
    game.player_input(0, 0);
    game.player_input(0, 1);
    game.player_input(1, 1);
    game.player_input(1, 0);
    assert_eq!(game.player_input(2, 2), GameState::Win);
    assert_eq!(game.get_prev_player_symbol(), 'X');
}

#[test]
fn flatten_reproduces_loaded_cells() {
    let mut game = Game::new();
    let cells = vec![
        'X', 'O', ' ',
        ' ', 'X', 'O',
        'O', ' ', 'X',
    ];
    game.load_board(3, &cells);
    assert_eq!(game.flatten_board(), cells);
}

#[test]
fn out_of_range_move_is_ignored_but_flips_the_turn() {
    let mut game = Game::new();
    game.create_board(3);
    assert_eq!(game.get_next_player_symbol(), 'X');
    game.player_input(7, 7);
    assert_eq!(game.get_next_player_symbol(), 'O');
    for x in 0u8..3u8 {
        for y in 0u8..3u8 {
            assert_eq!(game.get_cell(x, y), ' ');
        }
    }
}

#[test]
fn engine_overwrites_an_occupied_cell() {
    let mut game = Game::new();
    game.create_board(3);
    game.player_input(0, 0);
    game.player_input(0, 0);
    assert_eq!(game.get_cell(0, 0), 'O');
}

#[test]
fn board_smaller_than_a_run_cannot_be_won() {
    let mut game = Game::new();
    let cells = vec![
        'X', 'X',
        'X', ' ',
    ];
    game.load_board(2, &cells);
    assert_eq!(game.check_game_state(), GameState::InProgress);
}

#[test]
fn tiny_full_board_is_a_draw() {
    let mut game = Game::new();
    let cells = vec![
        'X', 'X',
        'O', 'X',
    ];
    game.load_board(2, &cells);
    assert_eq!(game.check_game_state(), GameState::Draw);
}

#[test]
fn size_zero_board_is_degenerate_and_counts_as_full() {
    let mut game = Game::new();
    game.create_board(0);
    assert_eq!(game.board.len(), 0);
    assert_eq!(game.check_game_state(), GameState::Draw);
}

#[test]
fn default_engine_matches_a_fresh_one() {
    let game = Game::default();
    assert_eq!(game.board.len(), 0);
    assert_eq!(game.board_size, 0);
    assert_eq!(game.get_next_player_symbol(), 'X');
}
